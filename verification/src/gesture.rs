//! The canvas's pointer state machine.
//!
//! One gesture is in flight at a time: a pan, a node drag, a connection
//! being pulled out of a handle, or a plain press. Each pointer event moves
//! the machine on and says what the caller has to do (pan the view, move
//! the dragged nodes, report a pane click, finish a connection...). Where
//! the pointer is and how far it travelled are the caller's geometry; the
//! machine is told only whether the press has travelled far enough to be a
//! drag.

use vstd::prelude::*;

verus! {

/// Coarse interaction state.
#[derive(Clone, Copy, PartialEq, Eq, Structural, Debug, Default)]
pub enum Interaction {
    #[default]
    Idle,
    /// Panning the canvas.
    Pan,
    /// Dragging one or more nodes.
    DragNode,
    /// Dragging a new connection out of a handle.
    Connect,
    /// The pane was pressed but panning is disabled; a release that has not
    /// travelled still counts as a pane click.
    PanePressed,
    /// Content claimed the pointer (an edge, an unmovable node, an
    /// application gesture); no pan or drag behaviour.
    Pressed,
}

/// The gesture in flight.
#[derive(Clone, Copy, PartialEq, Eq, Structural, Debug)]
pub struct Gesture {
    pub interaction: Interaction,
    /// The pointer that started the gesture, when one did.
    pub pointer_id: Option<i32>,
    /// Whether the pointer has travelled since the press.
    pub moved: bool,
    /// Whether the release must not count as a pane click.
    pub suppress_click: bool,
}

/// No gesture in flight.
pub open spec fn idle() -> Gesture {
    Gesture { interaction: Interaction::Idle, pointer_id: None, moved: false, suppress_click: false }
}

/// Ending a gesture: back to no interaction, owned by no pointer.
pub open spec fn ended(g: Gesture) -> Gesture {
    Gesture { interaction: Interaction::Idle, pointer_id: None, moved: g.moved, suppress_click: false }
}

/// A fresh press by `pointer_id`, in `interaction`.
pub open spec fn pressed(interaction: Interaction, pointer_id: i32) -> Gesture {
    Gesture { interaction, pointer_id: Some(pointer_id), moved: false, suppress_click: false }
}

/// Whether an event from `pointer_id` belongs to someone else's gesture.
pub open spec fn foreign(g: Gesture, pointer_id: i32) -> bool {
    g.pointer_id matches Some(owner) && owner != pointer_id
}

/// What the caller does after a pointer move.
#[derive(Clone, Copy, PartialEq, Eq, Structural, Debug)]
pub enum MoveStep {
    /// Not this machine's business: nothing in flight, or another pointer.
    Ignore,
    /// The buttons were released where the canvas could not see it; the
    /// gesture is over.
    Ended,
    /// Pan the view by the pointer's travel.
    Pan,
    /// A node press that has not yet travelled far enough to move anything.
    Hold,
    /// Move the dragged nodes to the pointer; `began` says this is the move
    /// that started the drag.
    Drag { began: bool },
    /// Aim the connection being pulled at the pointer.
    Aim,
}

/// What the caller does after the pointer is released.
#[derive(Clone, Copy, PartialEq, Eq, Structural, Debug)]
pub enum ReleaseStep {
    /// Another pointer's release: nothing changes.
    Ignore,
    /// The gesture ended with nothing to report.
    Done,
    /// A click on empty canvas; `deselect` says to clear the selection
    /// (shift keeps it).
    PaneClick { deselect: bool },
    /// Complete the connection being pulled, if it snapped to a handle, and
    /// report where it ended.
    Connect,
    /// A node drag that moved has ended.
    DragStop,
}

/// The machine's answer to a pointer move.
pub open spec fn spec_move(g: Gesture, pointer_id: i32, buttons_held: bool, travelled: bool) -> (Gesture, MoveStep) {
    if g.interaction == Interaction::Idle || foreign(g, pointer_id) {
        (g, MoveStep::Ignore)
    } else if !buttons_held {
        (ended(g), MoveStep::Ended)
    } else {
        match g.interaction {
            Interaction::Pan => (Gesture { moved: true, ..g }, MoveStep::Pan),
            Interaction::DragNode => if g.moved || travelled {
                (Gesture { moved: true, ..g }, MoveStep::Drag { began: !g.moved })
            } else {
                (g, MoveStep::Hold)
            },
            Interaction::Connect => (g, MoveStep::Aim),
            Interaction::PanePressed => (Gesture { moved: g.moved || travelled, ..g }, MoveStep::Ignore),
            _ => (g, MoveStep::Ignore),
        }
    }
}

/// The machine's answer to a release.
pub open spec fn spec_release(g: Gesture, pointer_id: i32, shift: bool) -> (Gesture, ReleaseStep) {
    if foreign(g, pointer_id) {
        (g, ReleaseStep::Ignore)
    } else {
        let step = match g.interaction {
            Interaction::Pan | Interaction::PanePressed => if !g.moved && !g.suppress_click {
                ReleaseStep::PaneClick { deselect: !shift }
            } else {
                ReleaseStep::Done
            },
            Interaction::Connect => ReleaseStep::Connect,
            Interaction::DragNode => if g.moved {
                ReleaseStep::DragStop
            } else {
                ReleaseStep::Done
            },
            _ => ReleaseStep::Done,
        };
        (ended(g), step)
    }
}

impl Gesture {
    /// No gesture in flight.
    pub fn new() -> (g: Gesture)
        ensures
            g == idle(),
    {
        Gesture { interaction: Interaction::Idle, pointer_id: None, moved: false, suppress_click: false }
    }

    /// Whether a press may start something: nothing else holds the pointer.
    pub fn is_free(&self) -> (r: bool)
        ensures
            r == (self.interaction == Interaction::Idle),
    {
        match self.interaction {
            Interaction::Idle => true,
            _ => false,
        }
    }

    /// Ends whatever is in flight (a release, a cancel, Escape).
    pub fn end(&mut self)
        ensures
            *final(self) == ended(*old(self)),
    {
        self.interaction = Interaction::Idle;
        self.pointer_id = None;
        self.suppress_click = false;
    }

    /// Content takes the pointer for a press of its own, so the pane
    /// neither pans nor reports a click for it. Only a free pointer can be
    /// taken.
    pub fn claim(&mut self) -> (claimed: bool)
        ensures
            claimed == (old(self).interaction == Interaction::Idle),
            claimed ==> final(self).interaction == Interaction::Pressed && final(self).pointer_id == old(self).pointer_id
                && final(self).moved == old(self).moved && final(self).suppress_click == old(self).suppress_click,
            !claimed ==> *final(self) == *old(self),
    {
        if self.is_free() {
            self.interaction = Interaction::Pressed;
            true
        } else {
            false
        }
    }

    /// A primary press reaching the empty pane, after the application had
    /// its chance to claim it: starts a pan (or a plain pane press when
    /// panning by drag is off). A secondary button, or a pointer already
    /// taken, starts nothing.
    pub fn press_pane(&mut self, primary: bool, pointer_id: i32, pan_on_drag: bool) -> (started: bool)
        ensures
            started == (old(self).interaction == Interaction::Idle && primary),
            started ==> *final(self) == (pressed(
                if pan_on_drag { Interaction::Pan } else { Interaction::PanePressed },
                pointer_id,
            )),
            !started ==> *final(self) == *old(self),
    {
        if !self.is_free() || !primary {
            return false;
        }
        *self = Gesture {
            interaction: if pan_on_drag { Interaction::Pan } else { Interaction::PanePressed },
            pointer_id: Some(pointer_id),
            moved: false,
            suppress_click: false,
        };
        true
    }

    /// A press on a node (after its selection was updated): a movable node
    /// starts a drag owned by this pointer, an unmovable one only holds the
    /// pointer.
    pub fn press_node(&mut self, pointer_id: i32, movable: bool) -> (started: bool)
        ensures
            started == (old(self).interaction == Interaction::Idle),
            started && movable ==> *final(self) == pressed(Interaction::DragNode, pointer_id),
            started && !movable ==> *final(self) == (Gesture { interaction: Interaction::Pressed, ..*old(self) }),
            !started ==> *final(self) == *old(self),
    {
        if !self.is_free() {
            return false;
        }
        if movable {
            *self = Gesture {
                interaction: Interaction::DragNode,
                pointer_id: Some(pointer_id),
                moved: false,
                suppress_click: false,
            };
        } else {
            self.interaction = Interaction::Pressed;
        }
        true
    }

    /// A press on a handle: starts pulling a connection out of it.
    pub fn press_handle(&mut self, pointer_id: i32) -> (started: bool)
        ensures
            started == (old(self).interaction == Interaction::Idle),
            started ==> *final(self) == pressed(Interaction::Connect, pointer_id),
            !started ==> *final(self) == *old(self),
    {
        if !self.is_free() {
            return false;
        }
        *self = Gesture {
            interaction: Interaction::Connect,
            pointer_id: Some(pointer_id),
            moved: false,
            suppress_click: false,
        };
        true
    }

    /// A pointer move: `buttons_held` says whether any button is still
    /// down, `travelled` whether the pointer is now far enough from the
    /// press for a node press to become a drag.
    pub fn pointer_move(&mut self, pointer_id: i32, buttons_held: bool, travelled: bool) -> (step: MoveStep)
        ensures
            (*final(self), step) == spec_move(*old(self), pointer_id, buttons_held, travelled),
    {
        if self.is_free() {
            return MoveStep::Ignore;
        }
        match self.pointer_id {
            Some(owner) => if owner != pointer_id {
                return MoveStep::Ignore;
            },
            None => {},
        }
        if !buttons_held {
            self.end();
            return MoveStep::Ended;
        }
        match self.interaction {
            Interaction::Pan => {
                self.moved = true;
                MoveStep::Pan
            },
            Interaction::DragNode => {
                if self.moved || travelled {
                    let began = !self.moved;
                    self.moved = true;
                    MoveStep::Drag { began }
                } else {
                    MoveStep::Hold
                }
            },
            Interaction::Connect => MoveStep::Aim,
            Interaction::PanePressed => {
                self.moved = self.moved || travelled;
                MoveStep::Ignore
            },
            _ => MoveStep::Ignore,
        }
    }

    /// The pointer is released, with shift held or not.
    pub fn release(&mut self, pointer_id: i32, shift: bool) -> (step: ReleaseStep)
        ensures
            (*final(self), step) == spec_release(*old(self), pointer_id, shift),
    {
        match self.pointer_id {
            Some(owner) => if owner != pointer_id {
                return ReleaseStep::Ignore;
            },
            None => {},
        }
        let step = match self.interaction {
            Interaction::Pan | Interaction::PanePressed => {
                if !self.moved && !self.suppress_click {
                    ReleaseStep::PaneClick { deselect: !shift }
                } else {
                    ReleaseStep::Done
                }
            },
            Interaction::Connect => ReleaseStep::Connect,
            Interaction::DragNode => if self.moved {
                ReleaseStep::DragStop
            } else {
                ReleaseStep::Done
            },
            _ => ReleaseStep::Done,
        };
        self.end();
        step
    }

    /// The browser cancelled a pointer: the gesture ends if that pointer
    /// owns it, or if no pointer does.
    pub fn cancel(&mut self, pointer_id: i32) -> (ended_now: bool)
        ensures
            ended_now == !foreign(*old(self), pointer_id),
            ended_now ==> *final(self) == ended(*old(self)),
            !ended_now ==> *final(self) == *old(self),
    {
        match self.pointer_id {
            Some(owner) => if owner != pointer_id {
                return false;
            },
            None => {},
        }
        self.end();
        true
    }
}

/// A gesture belongs to the pointer that started it: a second pointer's
/// moves and releases leave it exactly as it was.
pub proof fn other_pointers_cannot_steer(g: Gesture, other: i32, held: bool, travelled: bool, shift: bool)
    requires
        foreign(g, other),
    ensures
        spec_move(g, other, held, travelled) == (g, MoveStep::Ignore),
        spec_release(g, other, shift) == (g, ReleaseStep::Ignore),
{
}

/// Whatever was in flight, its own pointer's release ends it.
pub proof fn release_always_ends(g: Gesture, pointer_id: i32, shift: bool)
    requires
        !foreign(g, pointer_id),
    ensures
        spec_release(g, pointer_id, shift).0.interaction == Interaction::Idle,
        spec_release(g, pointer_id, shift).0.pointer_id is None,
{
}

/// A drag begins once: after the move that started it, no later move of
/// the same drag reports a beginning, and a node press that has not
/// travelled moves nothing.
pub proof fn a_drag_begins_once(g: Gesture, pointer_id: i32, travelled: bool, again: bool)
    requires
        g.interaction == Interaction::DragNode,
        !foreign(g, pointer_id),
    ensures
        ({
            let (g1, s1) = spec_move(g, pointer_id, true, travelled);
            let (g2, s2) = spec_move(g1, pointer_id, true, again);
            &&& s1 == MoveStep::Drag { began: true } ==> s2 == MoveStep::Drag { began: false }
            &&& !g.moved && !travelled ==> s1 == MoveStep::Hold && g1 == g
        }),
{
}

/// A press that panned the view is not a click; one that did not, and was
/// not suppressed, is. With panning off, a pane press that travelled is not
/// a click either, and one that stayed put is.
pub proof fn a_pan_that_moved_is_not_a_click(pointer_id: i32, travelled: bool, shift: bool)
    ensures
        ({
            let g = pressed(Interaction::Pan, pointer_id);
            let (g1, _) = spec_move(g, pointer_id, true, travelled);
            &&& spec_release(g, pointer_id, shift).1 == ReleaseStep::PaneClick { deselect: !shift }
            &&& spec_release(g1, pointer_id, shift).1 == ReleaseStep::Done
        }),
        ({
            let g = pressed(Interaction::PanePressed, pointer_id);
            let (g1, s1) = spec_move(g, pointer_id, true, travelled);
            &&& s1 == MoveStep::Ignore
            &&& spec_release(g, pointer_id, shift).1 == ReleaseStep::PaneClick { deselect: !shift }
            &&& spec_release(g1, pointer_id, shift).1 == if travelled {
                ReleaseStep::Done
            } else {
                ReleaseStep::PaneClick { deselect: !shift }
            }
        }),
{
}

/// What the canvas does with a wheel or trackpad scroll.
#[derive(Clone, Copy, PartialEq, Eq, Structural, Debug)]
pub enum WheelStep {
    /// Neither scrolling behaviour is on: the page keeps the event.
    Unhandled,
    /// The canvas takes the event but it moves nothing.
    Swallow,
    /// Zoom about the pointer by the vertical scroll, at pinch sensitivity.
    PinchZoom,
    /// Pan by the scroll; `swap_axes` turns a vertical scroll into a
    /// horizontal pan.
    Pan { swap_axes: bool },
    /// Zoom about the pointer by the vertical scroll.
    Zoom,
}

/// The canvas's answer to a scroll. Scrolling pans when `pan_on_scroll` is
/// on (ctrl or meta, which a trackpad pinch reports, zooms instead; shift
/// with no horizontal scroll pans sideways), and otherwise zooms when
/// `zoom_on_scroll` is on. A scroll with no vertical part zooms nothing.
pub open spec fn spec_wheel(
    pan_on_scroll: bool,
    zoom_on_scroll: bool,
    pinch: bool,
    shift: bool,
    no_dx: bool,
    no_dy: bool,
) -> WheelStep {
    if !pan_on_scroll && !zoom_on_scroll {
        WheelStep::Unhandled
    } else if pan_on_scroll {
        if pinch {
            if no_dy {
                WheelStep::Swallow
            } else {
                WheelStep::PinchZoom
            }
        } else {
            WheelStep::Pan { swap_axes: shift && no_dx }
        }
    } else if no_dy {
        WheelStep::Swallow
    } else {
        WheelStep::Zoom
    }
}

/// Decides what a scroll does: `pinch` says ctrl or meta is held, `no_dx`
/// and `no_dy` that the scroll has no horizontal or vertical part.
pub fn wheel(pan_on_scroll: bool, zoom_on_scroll: bool, pinch: bool, shift: bool, no_dx: bool, no_dy: bool) -> (step: WheelStep)
    ensures
        step == spec_wheel(pan_on_scroll, zoom_on_scroll, pinch, shift, no_dx, no_dy),
{
    if !pan_on_scroll && !zoom_on_scroll {
        return WheelStep::Unhandled;
    }
    if pan_on_scroll {
        if pinch {
            if no_dy {
                WheelStep::Swallow
            } else {
                WheelStep::PinchZoom
            }
        } else {
            WheelStep::Pan { swap_axes: shift && no_dx }
        }
    } else if no_dy {
        WheelStep::Swallow
    } else {
        WheelStep::Zoom
    }
}

/// Only a pan or a pane press can end in a pane click, and only when it
/// neither moved nor was claimed; a connection pull always ends by
/// completing, a node drag reports a stop exactly when it moved, and a
/// release with nothing in flight reports nothing.
pub proof fn what_a_release_reports(g: Gesture, pointer_id: i32, shift: bool)
    requires
        !foreign(g, pointer_id),
    ensures
        ({
            let step = spec_release(g, pointer_id, shift).1;
            &&& step is PaneClick ==> (g.interaction == Interaction::Pan || g.interaction
                == Interaction::PanePressed) && !g.moved && !g.suppress_click
            &&& (g.interaction == Interaction::Pan || g.interaction == Interaction::PanePressed) && !g.moved
                && !g.suppress_click ==> step == ReleaseStep::PaneClick { deselect: !shift }
            &&& step is Connect <==> g.interaction == Interaction::Connect
            &&& step is DragStop <==> g.interaction == Interaction::DragNode && g.moved
            &&& g.interaction == Interaction::Idle ==> step == ReleaseStep::Done
            &&& g.interaction == Interaction::Pressed ==> step == ReleaseStep::Done
            &&& step != ReleaseStep::Ignore
        }),
{
}

/// A move pans only a pan, moves nodes only in a node drag, aims only a
/// connection pull, and does nothing while nothing is in flight.
pub proof fn what_a_move_does(g: Gesture, pointer_id: i32, held: bool, travelled: bool)
    ensures
        ({
            let (g1, step) = spec_move(g, pointer_id, held, travelled);
            &&& step is Pan ==> g.interaction == Interaction::Pan && g1.moved
            &&& step is Drag ==> g.interaction == Interaction::DragNode && g1.moved
            &&& step is Hold ==> g.interaction == Interaction::DragNode && !g.moved && !travelled
            &&& step is Aim ==> g.interaction == Interaction::Connect
            &&& step is Ended ==> !held && g1.interaction == Interaction::Idle
            &&& g.interaction == Interaction::Idle ==> step == MoveStep::Ignore && g1 == g
            &&& step != MoveStep::Ended ==> g1.interaction == g.interaction && g1.pointer_id == g.pointer_id
            &&& g.moved ==> g1.moved
        }),
{
}

/// What a scroll does: the page keeps it exactly when both scrolling
/// behaviours are off; with panning on, a pinch zooms and anything else
/// pans (sideways when shift turns a purely vertical scroll); with panning
/// off and zooming on, every scroll with a vertical part zooms; and a scroll
/// with no vertical part never zooms.
pub proof fn what_a_scroll_does(pan_on_scroll: bool, zoom_on_scroll: bool, pinch: bool, shift: bool, no_dx: bool, no_dy: bool)
    ensures
        ({
            let step = spec_wheel(pan_on_scroll, zoom_on_scroll, pinch, shift, no_dx, no_dy);
            &&& step == WheelStep::Unhandled <==> !pan_on_scroll && !zoom_on_scroll
            &&& step is Pan ==> pan_on_scroll && !pinch
            &&& pan_on_scroll && !pinch ==> step == WheelStep::Pan { swap_axes: shift && no_dx }
            &&& step == WheelStep::PinchZoom <==> pan_on_scroll && pinch && !no_dy
            &&& !pan_on_scroll && zoom_on_scroll && !no_dy ==> step == WheelStep::Zoom
            &&& step == WheelStep::Zoom ==> !pan_on_scroll && zoom_on_scroll
            &&& no_dy ==> step != WheelStep::Zoom && step != WheelStep::PinchZoom
        }),
{
}

/// A press that starts a gesture hands it to its own pointer, fresh: not
/// moved and not claimed, so another pointer can neither steer nor end it.
pub proof fn a_press_belongs_to_its_pointer(interaction: Interaction, pointer_id: i32, other: i32)
    requires
        other != pointer_id,
    ensures
        pressed(interaction, pointer_id).interaction == interaction,
        pressed(interaction, pointer_id).pointer_id == Some(pointer_id),
        !pressed(interaction, pointer_id).moved,
        !pressed(interaction, pointer_id).suppress_click,
        foreign(pressed(interaction, pointer_id), other),
        !foreign(pressed(interaction, pointer_id), pointer_id),
{
}

} // verus!
