//! Identifiers and the small enumerations shared by every part of the graph.

use vstd::prelude::*;

verus! {

/// Identifier for nodes, edges and handles.
pub type Id = String;

/// A side of a node, used for handle placement, seat naming and edge routing.
///
/// For port seats: `Top` and `Bottom` count their cells from the left corner,
/// `Left` and `Right` from the top corner.
#[derive(Clone, Copy, PartialEq, Eq, Structural, Hash, Ord, PartialOrd, Debug)]
pub enum Side {
    Top,
    Right,
    Bottom,
    Left,
}

/// The side facing the other way.
pub open spec fn spec_opposite(side: Side) -> Side {
    match side {
        Side::Top => Side::Bottom,
        Side::Right => Side::Left,
        Side::Bottom => Side::Top,
        Side::Left => Side::Right,
    }
}

/// Whether edges leave this side horizontally (left or right).
pub open spec fn spec_is_horizontal(side: Side) -> bool {
    side == Side::Left || side == Side::Right
}

impl Side {
    pub fn opposite(&self) -> (r: Side)
        ensures
            r == spec_opposite(*self),
    {
        match self {
            Side::Top => Side::Bottom,
            Side::Right => Side::Left,
            Side::Bottom => Side::Top,
            Side::Left => Side::Right,
        }
    }

    pub fn is_horizontal(&self) -> (r: bool)
        ensures
            r == spec_is_horizontal(*self),
    {
        match self {
            Side::Left | Side::Right => true,
            _ => false,
        }
    }

    /// The lower-case name used in CSS class names.
    pub fn class_name(&self) -> (r: &'static str)
        ensures
            *self == Side::Top ==> r@ == "top"@,
            *self == Side::Right ==> r@ == "right"@,
            *self == Side::Bottom ==> r@ == "bottom"@,
            *self == Side::Left ==> r@ == "left"@,
    {
        match self {
            Side::Top => "top",
            Side::Right => "right",
            Side::Bottom => "bottom",
            Side::Left => "left",
        }
    }
}

/// Opposite sides pair up: facing the other way twice is facing the same
/// way, no side is its own opposite, and a side and its opposite lie on the
/// same axis.
pub proof fn opposite_is_an_involution(side: Side)
    ensures
        spec_opposite(spec_opposite(side)) == side,
        spec_opposite(side) != side,
        spec_is_horizontal(spec_opposite(side)) == spec_is_horizontal(side),
{
}

/// How an edge's path is drawn.
#[derive(Clone, Copy, PartialEq, Eq, Structural, Debug, Default)]
pub enum EdgeKind {
    /// A cubic bezier curve.
    #[default]
    Bezier,
    /// A straight line.
    Straight,
    /// An orthogonal path with rounded corners.
    SmoothStep,
}

/// Arrowhead marker at the end of an edge.
#[derive(Clone, Copy, PartialEq, Eq, Structural, Debug, Default)]
pub enum MarkerKind {
    #[default]
    ArrowClosed,
    Arrow,
    /// No marker at all.
    NoMarker,
}

/// How a flow's edges find their endpoints on nodes.
#[derive(Clone, Copy, PartialEq, Eq, Structural, Debug, Default)]
pub enum AnchorMode {
    /// Edges attach to handles, or to a node's default side when the edge
    /// names none.
    #[default]
    Handles,
    /// Edges attach to seats packed around each node's rim.
    Seats,
}

/// Whether a handle is a source (edges start here) or a target (edges end
/// here).
#[derive(Clone, Copy, PartialEq, Eq, Structural, Hash, Debug)]
pub enum HandleKind {
    Source,
    Target,
}

/// Uniquely identifies a handle within a flow.
#[derive(Clone, Eq, Hash, Debug)]
pub struct HandleKey {
    pub node: Id,
    pub kind: HandleKind,
    /// User handle id; empty for the node's default handle of that kind.
    pub id: Id,
}

impl View for HandleKey {
    type V = (Seq<char>, HandleKind, Seq<char>);

    open spec fn view(&self) -> (Seq<char>, HandleKind, Seq<char>) {
        (self.node@, self.kind, self.id@)
    }
}

impl PartialEq for HandleKey {
    fn eq(&self, other: &HandleKey) -> (r: bool) {
        self.node == other.node && self.kind == other.kind && self.id == other.id
    }
}

impl vstd::std_specs::cmp::PartialEqSpecImpl for HandleKey {
    open spec fn obeys_eq_spec() -> bool {
        true
    }

    open spec fn eq_spec(&self, other: &HandleKey) -> bool {
        self.node@ == other.node@ && self.kind == other.kind && self.id@ == other.id@
    }
}

/// A connection may run between two handles of different kinds on
/// different nodes.
pub open spec fn spec_accepts(a: (Seq<char>, HandleKind, Seq<char>), b: (Seq<char>, HandleKind, Seq<char>)) -> bool {
    a.1 != b.1 && a.0 != b.0
}

impl HandleKey {
    /// Whether a connection dragged from this handle may end on `other`.
    pub fn accepts(&self, other: &HandleKey) -> (r: bool)
        ensures
            r == spec_accepts(self@, other@),
    {
        self.kind != other.kind && !(self.node == other.node)
    }
}

/// Which handles may be joined does not depend on which one the drag
/// started from.
pub proof fn accepting_is_symmetric(a: (Seq<char>, HandleKind, Seq<char>), b: (Seq<char>, HandleKind, Seq<char>))
    ensures
        spec_accepts(a, b) == spec_accepts(b, a),
        !spec_accepts(a, a),
{
}

/// A pending or completed connection between two handles.
#[derive(Clone, Debug)]
pub struct Connection {
    pub source: Id,
    pub target: Id,
    pub source_handle: Option<Id>,
    pub target_handle: Option<Id>,
}

/// The characters of an optional identifier.
pub open spec fn opt_view(id: Option<Id>) -> Option<Seq<char>> {
    match id {
        Some(s) => Some(s@),
        None => None,
    }
}

impl View for Connection {
    type V = (Seq<char>, Seq<char>, Option<Seq<char>>, Option<Seq<char>>);

    open spec fn view(&self) -> (Seq<char>, Seq<char>, Option<Seq<char>>, Option<Seq<char>>) {
        (self.source@, self.target@, opt_view(self.source_handle), opt_view(self.target_handle))
    }
}

impl PartialEq for Connection {
    fn eq(&self, other: &Connection) -> (r: bool) {
        self.source == other.source && self.target == other.target && same_name(
            &self.source_handle,
            &other.source_handle,
        ) && same_name(&self.target_handle, &other.target_handle)
    }
}

impl vstd::std_specs::cmp::PartialEqSpecImpl for Connection {
    open spec fn obeys_eq_spec() -> bool {
        true
    }

    open spec fn eq_spec(&self, other: &Connection) -> bool {
        self@ == other@
    }
}

fn same_name(a: &Option<Id>, b: &Option<Id>) -> (r: bool)
    ensures
        r == (opt_view(*a) == opt_view(*b)),
{
    match (a, b) {
        (Some(x), Some(y)) => *x == *y,
        (None, None) => true,
        _ => false,
    }
}

/// What a delete would remove: the selected nodes, plus the edges that are
/// selected or touch a selected node.
#[derive(Clone, Debug)]
pub struct DeleteRequest {
    pub nodes: Vec<Id>,
    pub edges: Vec<Id>,
}

/// The characters of each identifier in a list.
pub open spec fn ids_view(ids: Seq<Id>) -> Seq<Seq<char>> {
    ids.map_values(|id: Id| id@)
}

impl PartialEq for DeleteRequest {
    fn eq(&self, other: &DeleteRequest) -> (r: bool) {
        same_ids(&self.nodes, &other.nodes) && same_ids(&self.edges, &other.edges)
    }
}

impl vstd::std_specs::cmp::PartialEqSpecImpl for DeleteRequest {
    open spec fn obeys_eq_spec() -> bool {
        true
    }

    open spec fn eq_spec(&self, other: &DeleteRequest) -> bool {
        ids_view(self.nodes@) == ids_view(other.nodes@) && ids_view(self.edges@) == ids_view(
            other.edges@,
        )
    }
}

fn same_ids(a: &Vec<Id>, b: &Vec<Id>) -> (r: bool)
    ensures
        r == (ids_view(a@) == ids_view(b@)),
{
    if a.len() != b.len() {
        proof {
            assert(ids_view(a@).len() != ids_view(b@).len());
        }
        return false;
    }
    let mut i: usize = 0;
    while i < a.len()
        invariant
            a.len() == b.len(),
            i <= a.len(),
            forall|k: int| 0 <= k < i ==> a@[k]@ == b@[k]@,
        decreases a.len() - i,
    {
        if !(a[i] == b[i]) {
            proof {
                assert(ids_view(a@)[i as int] != ids_view(b@)[i as int]);
            }
            return false;
        }
        i = i + 1;
    }
    proof {
        assert(ids_view(a@) =~= ids_view(b@));
    }
    true
}

/// The handle id an edge end names: none for a node's default handle.
pub open spec fn named_handle(key: (Seq<char>, HandleKind, Seq<char>)) -> Option<Seq<char>> {
    if key.2.len() == 0 {
        None
    } else {
        Some(key.2)
    }
}

/// A finished drag as a `source -> target` connection, whichever end it
/// started from.
pub open spec fn spec_orient(
    from: (Seq<char>, HandleKind, Seq<char>),
    to: (Seq<char>, HandleKind, Seq<char>),
) -> (Seq<char>, Seq<char>, Option<Seq<char>>, Option<Seq<char>>) {
    let (source, target) = if from.1 == HandleKind::Source { (from, to) } else { (to, from) };
    (source.0, target.0, named_handle(source), named_handle(target))
}

fn handle_name(key: &HandleKey) -> (r: Option<Id>)
    ensures
        opt_view(r) == named_handle(key@),
{
    if key.id.as_str().is_empty() {
        None
    } else {
        Some(key.id.clone())
    }
}

/// Orients a completed connection gesture into a `source -> target`
/// [`Connection`], regardless of which end the drag started from.
pub fn orient_connection(from: &HandleKey, to: &HandleKey) -> (c: Connection)
    ensures
        c@ == spec_orient(from@, to@),
{
    let (source, target) = match from.kind {
        HandleKind::Source => (from, to),
        HandleKind::Target => (to, from),
    };
    Connection {
        source: source.node.clone(),
        target: target.node.clone(),
        source_handle: handle_name(source),
        target_handle: handle_name(target),
    }
}

/// Dragging from either end of a valid pair completes the same connection.
pub proof fn orientation_ignores_the_starting_end(
    a: (Seq<char>, HandleKind, Seq<char>),
    b: (Seq<char>, HandleKind, Seq<char>),
)
    requires
        a.1 != b.1,
    ensures
        spec_orient(a, b) == spec_orient(b, a),
{
}

/// The autogenerated id of an edge from `source` to `target`.
pub open spec fn spec_edge_id(source: Seq<char>, target: Seq<char>) -> Seq<char> {
    source + "->"@ + target
}

/// `"{source}->{target}"`.
pub fn edge_id(source: &str, target: &str) -> (r: String)
    ensures
        r@ == spec_edge_id(source@, target@),
{
    String::from_str(source).concat("->").concat(target)
}

/// The id of the edge a connection becomes: the endpoint ids, each named
/// handle appended after a `#`.
pub open spec fn spec_connection_edge_id(c: (Seq<char>, Seq<char>, Option<Seq<char>>, Option<Seq<char>>)) -> Seq<char> {
    let base = spec_edge_id(c.0, c.1);
    let with_source = match c.2 {
        Some(h) => base + "#"@ + h,
        None => base,
    };
    match c.3 {
        Some(h) => with_source + "#"@ + h,
        None => with_source,
    }
}

impl Connection {
    /// The id of the default edge for this connection.
    pub fn edge_id(&self) -> (r: String)
        ensures
            r@ == spec_connection_edge_id(self@),
    {
        let mut id = edge_id(self.source.as_str(), self.target.as_str());
        match &self.source_handle {
            Some(h) => {
                id = id.concat("#").concat(h.as_str());
            },
            None => {},
        }
        match &self.target_handle {
            Some(h) => {
                id = id.concat("#").concat(h.as_str());
            },
            None => {},
        }
        id
    }
}

/// The opposite of a side is the one other side on the same axis.
pub proof fn the_opposite_is_the_other_side_on_the_axis(side: Side, other: Side)
    requires
        other != side,
        spec_is_horizontal(other) == spec_is_horizontal(side),
    ensures
        other == spec_opposite(side),
{
}

/// A drag may end on a handle exactly when the handle sits on another node
/// and is of the other kind: never on its own node, never on a handle of
/// the same kind.
pub proof fn which_handles_accept(a: (Seq<char>, HandleKind, Seq<char>), b: (Seq<char>, HandleKind, Seq<char>))
    ensures
        a.0 == b.0 ==> !spec_accepts(a, b),
        a.1 == b.1 ==> !spec_accepts(a, b),
        a.0 != b.0 && a.1 != b.1 ==> spec_accepts(a, b),
{
}

/// A completed connection runs from the end on a source handle to the end
/// on a target handle, and names a handle only when the handle has an id.
pub proof fn a_connection_leaves_from_the_source_handle(
    a: (Seq<char>, HandleKind, Seq<char>),
    b: (Seq<char>, HandleKind, Seq<char>),
)
    requires
        a.1 == HandleKind::Source,
        b.1 == HandleKind::Target,
    ensures
        spec_orient(a, b).0 == a.0 && spec_orient(a, b).1 == b.0,
        spec_orient(b, a).0 == a.0 && spec_orient(b, a).1 == b.0,
        spec_orient(a, b).2 is None <==> a.2.len() == 0,
        spec_orient(a, b).2 matches Some(h) ==> h == a.2,
        spec_orient(a, b).3 is None <==> b.2.len() == 0,
        spec_orient(a, b).3 matches Some(h) ==> h == b.2,
{
}

} // verus!
