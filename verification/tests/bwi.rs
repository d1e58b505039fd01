use hypersweeper::bwi::BWI;

fn collect(mut it: BWI) -> Vec<i32> {
    let mut out = Vec::new();
    while let Some(v) = it.next() {
        out.push(v);
    }
    out
}

#[test]
fn window_in_the_middle_is_ascending() {
    assert_eq!(collect(BWI::new(1, 3, 0, 4, false)), vec![1, 2, 3]);
}

#[test]
fn window_clipped_at_the_low_bound() {
    assert_eq!(collect(BWI::new(-1, 1, 0, 4, false)), vec![0, 1]);
}

#[test]
fn window_clipped_at_the_high_bound() {
    assert_eq!(collect(BWI::new(3, 5, 0, 4, false)), vec![3, 4]);
}

#[test]
fn wrapping_high_edge_prepends_the_low_bound() {
    assert_eq!(collect(BWI::new(3, 5, 0, 4, true)), vec![0, 3, 4]);
}

#[test]
fn wrapping_low_edge_appends_the_high_bound() {
    assert_eq!(collect(BWI::new(-1, 1, 0, 4, true)), vec![0, 1, 4]);
}

#[test]
fn wrapping_interior_window_adds_nothing() {
    assert_eq!(collect(BWI::new(1, 3, 0, 4, true)), vec![1, 2, 3]);
}

#[test]
fn single_cell_wrapping_axis_emits_duplicates() {
    assert_eq!(collect(BWI::new(-1, 1, 0, 0, true)), vec![0, 0, 0]);
}

#[test]
fn crossed_window_is_empty() {
    assert_eq!(collect(BWI::new(5, 3, 0, 9, false)), Vec::<i32>::new());
}

#[test]
fn exhausted_iterator_stays_empty() {
    let mut it = BWI::new(2, 2, 0, 4, false);
    assert_eq!(it.next(), Some(2));
    assert_eq!(it.next(), None);
    assert_eq!(it.next(), None);
}
