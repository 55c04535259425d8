use dioxus_flow::ports::{
    clamp_to_rim, free_seat_near, link_counts, nearest_free, order_of, rim_seats, seat_beads, seat_position,
    Arrows, Bead, Endpoint, PortSeat,
};
use dioxus_flow::types::Side;

fn free(edge: &str, endpoint: Endpoint, wish: usize) -> Bead {
    Bead {
        edge_id: edge.to_string(),
        endpoint,
        pinned: None,
        wish,
    }
}

#[test]
fn arrows_and_endpoints() {
    let both = Arrows::new(true, true);
    assert!(both.start && both.end);
    assert_eq!(Arrows::default(), Arrows::new(false, false));
    assert_eq!(Endpoint::Start.other(), Endpoint::End);
    assert_eq!(Endpoint::End.other(), Endpoint::Start);
    assert_eq!(Endpoint::Start.other().other(), Endpoint::Start);
    assert_eq!(order_of(Endpoint::Start), 0);
    assert_eq!(order_of(Endpoint::End), 1);
    let seat = PortSeat::new(Side::Left, 2);
    assert_eq!(seat.side, Side::Left);
    assert_eq!(seat.cell, 2);
}

#[test]
fn the_wish_itself_when_it_is_empty() {
    assert_eq!(nearest_free(&vec![false, false, true, false], 1), 1);
}

#[test]
fn the_search_goes_clockwise_first_then_back() {
    assert_eq!(nearest_free(&vec![false, true, false], 1), 2);
    assert_eq!(nearest_free(&vec![false, true, true], 1), 0);
    assert_eq!(nearest_free(&vec![true, true, false, true, true], 0), 2);
    // Wrapping round the rim: seat 4 is one step before seat 0.
    assert_eq!(nearest_free(&vec![true, true, true, true, false], 0), 4);
}

#[test]
fn a_full_rim_shares_the_wish_and_an_empty_one_gives_zero() {
    assert_eq!(nearest_free(&vec![true, true, true], 1), 1);
    assert_eq!(nearest_free(&vec![true, true, true], 7), 2);
    assert_eq!(nearest_free(&Vec::new(), 3), 0);
    // A wish past the end means the last seat.
    assert_eq!(nearest_free(&vec![false, false], 9), 1);
}

#[test]
fn a_frame_offers_every_rim_seat_once() {
    // 216 by 48 at a 12-unit pitch: 18 cells across, 4 down.
    let all = rim_seats(18, 4);
    assert_eq!(all.len(), 2 * 18 + 2 * 4);
    let mut sorted = all.clone();
    sorted.sort();
    sorted.dedup();
    assert_eq!(sorted.len(), all.len());
    assert_eq!(all[0], PortSeat::new(Side::Top, 0));
    assert_eq!(all[18], PortSeat::new(Side::Top, 18));
    assert_eq!(all[19], PortSeat::new(Side::Right, 1));
    assert_eq!(all[22], PortSeat::new(Side::Bottom, 18));
    assert_eq!(all[40], PortSeat::new(Side::Bottom, 0));
    assert_eq!(all[41], PortSeat::new(Side::Left, 3));
    assert_eq!(all[43], PortSeat::new(Side::Left, 1));
    for (index, seat) in all.iter().enumerate() {
        assert_eq!(seat_position(18, 4, *seat), Some(index));
    }
}

#[test]
fn a_seat_shrunk_off_the_end_of_its_run_lands_on_the_corner() {
    // 120 wide: 10 cells across.
    let clamped = clamp_to_rim(10, 4, PortSeat::new(Side::Top, 40));
    assert_eq!(clamped, PortSeat::new(Side::Top, 10));
    assert!(rim_seats(10, 4).contains(&clamped));
    assert_eq!(clamp_to_rim(10, 4, PortSeat::new(Side::Left, 0)), PortSeat::new(Side::Left, 1));
    assert_eq!(clamp_to_rim(10, 4, PortSeat::new(Side::Right, 9)), PortSeat::new(Side::Right, 3));
    // Too short for side seats: the seat moves onto the top run.
    assert_eq!(clamp_to_rim(10, 1, PortSeat::new(Side::Left, 2)), PortSeat::new(Side::Top, 2));
    // A seat the rim has stays where it is.
    assert_eq!(clamp_to_rim(10, 4, PortSeat::new(Side::Bottom, 7)), PortSeat::new(Side::Bottom, 7));
}

#[test]
fn seats_off_the_rim_have_no_position() {
    assert_eq!(seat_position(10, 4, PortSeat::new(Side::Top, 11)), None);
    assert_eq!(seat_position(10, 4, PortSeat::new(Side::Left, 0)), None);
    assert_eq!(seat_position(10, 4, PortSeat::new(Side::Right, 4)), None);
}

#[test]
fn the_nearest_free_seat_steps_aside() {
    // A 2 by 2 rim: T0 T1 T2 R1 B2 B1 B0 L1.
    let rim = rim_seats(2, 2);
    assert_eq!(rim.len(), 8);
    let wish = PortSeat::new(Side::Top, 1);
    assert_eq!(free_seat_near(2, 2, wish, &Vec::new()), wish);
    assert_eq!(free_seat_near(2, 2, wish, &vec![wish]), PortSeat::new(Side::Top, 2));
    assert_eq!(
        free_seat_near(2, 2, wish, &vec![wish, PortSeat::new(Side::Top, 2)]),
        PortSeat::new(Side::Top, 0)
    );
    // A taken seat off the end of its run counts where it is clamped to.
    assert_eq!(
        free_seat_near(2, 2, wish, &vec![PortSeat::new(Side::Top, 1), PortSeat::new(Side::Top, 9)]),
        PortSeat::new(Side::Top, 0)
    );
}

#[test]
fn crowded_ports_keep_a_seat_each() {
    let beads: Vec<Bead> = (0..5)
        .map(|index| free(&format!("edge-{index}"), Endpoint::Start, 3))
        .collect();
    let taken = seat_beads(12, &beads);
    assert_eq!(taken, vec![3, 4, 2, 5, 1]);
    let mut seats = taken.clone();
    seats.sort();
    seats.dedup();
    assert_eq!(seats.len(), 5, "five beads must take five distinct seats");
}

#[test]
fn a_pinned_bead_stays_where_it_was_put() {
    let mut beads = vec![free("edge", Endpoint::Start, 7)];
    beads[0].pinned = Some(2);
    assert_eq!(seat_beads(12, &beads), vec![2]);
}

#[test]
fn free_beads_make_room_for_a_pinned_one() {
    let mut beads: Vec<Bead> = (0..4)
        .map(|index| free(&format!("edge-{index}"), Endpoint::Start, 5))
        .collect();
    beads[0].pinned = Some(5);
    let taken = seat_beads(12, &beads);
    assert_eq!(taken[0], 5);
    for index in 1..4 {
        assert_ne!(taken[index], 5, "edge-{index} evicted the pinned bead");
    }
    assert_eq!(taken, vec![5, 6, 4, 7]);
}

#[test]
fn ties_are_broken_by_id_then_by_end() {
    let beads = vec![
        free("b", Endpoint::Start, 0),
        free("a", Endpoint::End, 0),
        free("a", Endpoint::Start, 0),
    ];
    // a/start chooses first and gets the wish, then a/end, then b.
    assert_eq!(seat_beads(6, &beads), vec![5, 1, 0]);
}

#[test]
fn seating_does_not_depend_on_the_order_connections_were_made() {
    let forwards: Vec<Bead> = (0..5)
        .map(|index| free(&format!("edge-{index}"), Endpoint::End, 2))
        .collect();
    let backwards: Vec<Bead> = forwards
        .iter()
        .rev()
        .map(|bead| free(&bead.edge_id, bead.endpoint, bead.wish))
        .collect();
    let a = seat_beads(10, &forwards);
    let b = seat_beads(10, &backwards);
    for index in 0..5 {
        assert_eq!(a[index], b[4 - index]);
    }
}

#[test]
fn a_crowded_rim_shares_rather_than_loses_a_bead() {
    let beads = vec![
        free("a", Endpoint::Start, 0),
        free("b", Endpoint::Start, 0),
        free("c", Endpoint::Start, 1),
    ];
    assert_eq!(seat_beads(2, &beads), vec![0, 1, 1]);
}

#[test]
fn a_link_counts_only_between_a_known_node_and_something_else() {
    let a = "a".to_string();
    let b = "b".to_string();
    assert!(link_counts(Some(&a), true, Some(&b), true));
    assert!(link_counts(Some(&a), true, None, false));
    assert!(link_counts(None, false, Some(&b), true));
    assert!(!link_counts(Some(&a), true, Some(&a), true));
    assert!(!link_counts(Some(&a), false, Some(&b), true));
    assert!(!link_counts(Some(&a), true, Some(&b), false));
    assert!(!link_counts(None, true, None, true));
}
