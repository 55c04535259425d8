use dioxus_flow::settle::first_collision;

fn table(n: usize, pairs: &[(usize, usize)]) -> Vec<Vec<bool>> {
    let mut t = vec![vec![false; n]; n];
    for &(a, b) in pairs {
        t[a][b] = true;
        t[b][a] = true;
    }
    t
}

#[test]
fn a_clear_layout_has_no_collision() {
    assert_eq!(first_collision(&table(3, &[]), &vec![false, true, false]), None);
    assert_eq!(first_collision(&Vec::new(), &Vec::new()), None);
}

#[test]
fn the_moving_frame_gives_way() {
    assert_eq!(first_collision(&table(2, &[(0, 1)]), &vec![true, false]), Some((1, 0)));
    assert_eq!(first_collision(&table(2, &[(0, 1)]), &vec![false, true]), Some((0, 1)));
}

#[test]
fn equals_resolve_in_order() {
    assert_eq!(first_collision(&table(2, &[(0, 1)]), &vec![true, true]), Some((0, 1)));
    assert_eq!(first_collision(&table(2, &[(0, 1)]), &vec![false, false]), Some((0, 1)));
}

#[test]
fn the_first_pair_in_reading_order_goes_first() {
    let t = table(4, &[(1, 3), (2, 3), (0, 2)]);
    assert_eq!(first_collision(&t, &vec![false, false, true, false]), Some((0, 2)));
    let t = table(4, &[(1, 3), (2, 3)]);
    assert_eq!(first_collision(&t, &vec![false, false, false, true]), Some((1, 3)));
}
