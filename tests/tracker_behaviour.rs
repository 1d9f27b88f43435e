use range_tracker::{RangeState, RangeTracker};

fn entries(t: &RangeTracker) -> Vec<(u64, u64, RangeState)> {
    t.entries()
}

fn assert_disjoint(t: &RangeTracker) {
    let e = entries(t);
    for w in e.windows(2) {
        assert!(w[0].0 + w[0].1 <= w[1].0, "overlap in {:?}", e);
    }
    for (_, len, _) in &e {
        assert!(*len >= 1);
    }
}

fn acked_offsets(t: &RangeTracker) -> Vec<(u64, u64)> {
    entries(t)
        .into_iter()
        .filter(|(_, _, s)| *s == RangeState::Acked)
        .map(|(o, l, _)| (o, o + l))
        .collect()
}

fn is_acked(t: &RangeTracker, x: u64) -> bool {
    acked_offsets(t).iter().any(|(a, b)| *a <= x && x < *b)
}

#[test]
fn empty_tracker() {
    let mut t = RangeTracker::default();
    assert_eq!(t.highest_offset(), 0);
    assert_eq!(t.acked_from_zero(), 0);
    assert_eq!(t.first_unmarked_range(), (0, None));
    assert!(entries(&t).is_empty());
}

#[test]
fn sent_then_acked_from_zero() {
    let mut t = RangeTracker::default();
    t.mark_range(0, 100, RangeState::Sent);
    t.mark_range(0, 100, RangeState::Acked);
    assert_eq!(t.acked_from_zero(), 100);
    assert_eq!(entries(&t), vec![(0, 100, RangeState::Acked)]);
}

#[test]
fn three_acked_ranges_merge() {
    let mut t = RangeTracker::default();
    t.mark_range(0, 1000, RangeState::Acked);
    t.mark_range(2000, 1000, RangeState::Acked);
    assert_eq!(
        entries(&t),
        vec![(0, 1000, RangeState::Acked), (2000, 1000, RangeState::Acked)]
    );
    t.mark_range(1000, 1000, RangeState::Acked);
    assert_eq!(entries(&t), vec![(0, 3000, RangeState::Acked)]);
    assert_eq!(t.acked_from_zero(), 3000);
}

#[test]
fn sent_over_acked_is_dropped() {
    let mut t = RangeTracker::default();
    t.mark_range(0, 1000, RangeState::Acked);
    t.mark_range(500, 500, RangeState::Sent);
    assert_eq!(entries(&t), vec![(0, 1000, RangeState::Acked)]);
}

#[test]
fn unmark_middle_of_sent_range() {
    let mut t = RangeTracker::default();
    t.mark_range(0, 1000, RangeState::Sent);
    t.unmark_range(200, 300);
    assert_eq!(
        entries(&t),
        vec![(0, 200, RangeState::Sent), (500, 500, RangeState::Sent)]
    );
    assert_eq!(t.first_unmarked_range(), (200, Some(300)));
}

#[test]
fn coalesce_many_trailing_acked_ranges() {
    let mut t = RangeTracker::default();
    t.mark_range(0, 1000, RangeState::Acked);
    t.mark_range(1000, 100000, RangeState::Sent);
    for i in 1..1000u64 {
        t.mark_range((i + 1) * 1000, 1000, RangeState::Acked);
    }
    assert_eq!(t.acked_from_zero(), 1000);
    t.mark_range(1000, 1000, RangeState::Acked);
    assert_eq!(t.acked_from_zero(), 1_001_000);
    assert_eq!(entries(&t), vec![(0, 1_001_000, RangeState::Acked)]);
}

#[test]
fn entries_never_overlap() {
    let mut t = RangeTracker::default();
    t.mark_range(100, 50, RangeState::Sent);
    t.mark_range(120, 100, RangeState::Acked);
    t.mark_range(0, 130, RangeState::Sent);
    t.unmark_range(110, 20);
    t.mark_range(90, 300, RangeState::Sent);
    assert_disjoint(&t);
    assert_eq!(
        entries(&t),
        vec![
            (0, 90, RangeState::Sent),
            (90, 10, RangeState::Sent),
            (100, 10, RangeState::Sent),
            (110, 10, RangeState::Sent),
            (120, 10, RangeState::Acked),
            (130, 20, RangeState::Acked),
            (150, 70, RangeState::Acked),
            (220, 170, RangeState::Sent),
        ]
    );
}

#[test]
fn acked_bytes_stay_acked() {
    let mut t = RangeTracker::default();
    t.mark_range(100, 100, RangeState::Acked);
    t.mark_range(50, 200, RangeState::Sent);
    assert!((100..200).all(|x| is_acked(&t, x)));
    t.unmark_range(0, 400);
    assert!((100..200).all(|x| is_acked(&t, x)));
    t.unmark_sent();
    assert!((100..200).all(|x| is_acked(&t, x)));
    assert_eq!(entries(&t), vec![(100, 100, RangeState::Acked)]);
}

#[test]
fn acked_prefix_is_one_entry() {
    let mut t = RangeTracker::default();
    t.mark_range(10, 10, RangeState::Acked);
    t.mark_range(20, 10, RangeState::Acked);
    assert_eq!(
        entries(&t),
        vec![(10, 10, RangeState::Acked), (20, 10, RangeState::Acked)]
    );
    t.mark_range(0, 10, RangeState::Acked);
    assert_eq!(entries(&t), vec![(0, 30, RangeState::Acked)]);
    assert_eq!(t.acked_from_zero(), 30);
}

#[test]
fn first_unmarked_twice_is_the_same() {
    let mut t = RangeTracker::default();
    t.mark_range(0, 10, RangeState::Sent);
    t.mark_range(30, 10, RangeState::Acked);
    let a = t.first_unmarked_range();
    let b = t.first_unmarked_range();
    assert_eq!(a, (10, Some(20)));
    assert_eq!(a, b);
    t.mark_range(10, 20, RangeState::Sent);
    assert_eq!(t.first_unmarked_range(), (40, None));
    assert_eq!(t.first_unmarked_range(), (40, None));
}

#[test]
fn first_unmarked_gap_at_start() {
    let mut t = RangeTracker::default();
    t.mark_range(5, 10, RangeState::Sent);
    assert_eq!(t.first_unmarked_range(), (0, Some(5)));
}

#[test]
fn unmark_sent_twice_is_the_same() {
    let mut t = RangeTracker::default();
    t.mark_range(0, 100, RangeState::Sent);
    t.mark_range(40, 20, RangeState::Acked);
    t.mark_range(200, 50, RangeState::Sent);
    t.unmark_sent();
    let once = entries(&t);
    t.unmark_sent();
    assert_eq!(entries(&t), once);
    assert_eq!(once, vec![(40, 20, RangeState::Acked)]);
}

#[test]
fn mark_sent_then_unmark_restores() {
    let mut t = RangeTracker::default();
    t.mark_range(0, 100, RangeState::Acked);
    t.mark_range(300, 100, RangeState::Sent);
    let before = entries(&t);
    t.mark_range(100, 200, RangeState::Sent);
    assert_ne!(entries(&t), before);
    t.unmark_range(100, 200);
    assert_eq!(entries(&t), before);
}

#[test]
fn highest_offset_never_drops_when_marking() {
    let mut t = RangeTracker::default();
    let mut last = t.highest_offset();
    let marks: [(u64, usize, RangeState); 5] = [
        (100, 50, RangeState::Sent),
        (0, 10, RangeState::Acked),
        (20, 30, RangeState::Sent),
        (140, 100, RangeState::Acked),
        (0, 500, RangeState::Sent),
    ];
    for (off, len, st) in marks {
        t.mark_range(off, len, st);
        let h = t.highest_offset();
        assert!(h >= last);
        last = h;
    }
    assert_eq!(last, 500);
}

#[test]
fn highest_offset_is_end_of_last_range() {
    let mut t = RangeTracker::default();
    t.mark_range(10, 5, RangeState::Sent);
    t.mark_range(100, 7, RangeState::Acked);
    assert_eq!(t.highest_offset(), 107);
}

#[test]
fn zero_length_is_ignored() {
    let mut t = RangeTracker::default();
    t.mark_range(10, 10, RangeState::Sent);
    t.mark_range(50, 0, RangeState::Acked);
    t.unmark_range(10, 0);
    assert_eq!(entries(&t), vec![(10, 10, RangeState::Sent)]);
}

#[test]
fn unmark_leaves_acked_untouched() {
    let mut t = RangeTracker::default();
    t.mark_range(0, 100, RangeState::Sent);
    t.mark_range(50, 100, RangeState::Acked);
    assert_eq!(
        entries(&t),
        vec![
            (0, 50, RangeState::Sent),
            (50, 50, RangeState::Acked),
            (100, 50, RangeState::Acked),
        ]
    );
    t.unmark_range(0, 200);
    assert_eq!(
        entries(&t),
        vec![(50, 50, RangeState::Acked), (100, 50, RangeState::Acked)]
    );
}

#[test]
fn unmark_cuts_both_edges() {
    let mut t = RangeTracker::default();
    t.mark_range(0, 100, RangeState::Sent);
    t.mark_range(100, 100, RangeState::Sent);
    t.unmark_range(50, 100);
    assert_eq!(
        entries(&t),
        vec![(0, 50, RangeState::Sent), (150, 50, RangeState::Sent)]
    );
}

#[test]
fn interior_acked_entries_not_merged() {
    let mut t = RangeTracker::default();
    t.mark_range(10, 10, RangeState::Sent);
    t.mark_range(10, 5, RangeState::Acked);
    assert_eq!(
        entries(&t),
        vec![(10, 5, RangeState::Acked), (15, 5, RangeState::Sent)]
    );
    t.mark_range(15, 5, RangeState::Acked);
    assert_eq!(
        entries(&t),
        vec![(10, 5, RangeState::Acked), (15, 5, RangeState::Acked)]
    );
    assert_eq!(t.acked_from_zero(), 0);
}

#[test]
fn mark_up_to_the_end_of_the_offset_space() {
    let mut t = RangeTracker::default();
    let off = u64::MAX - 10;
    t.mark_range(off, 10, RangeState::Sent);
    assert_eq!(t.highest_offset(), u64::MAX);
    assert_eq!(t.first_unmarked_range(), (0, Some(off)));
    t.mark_range(off + 5, 5, RangeState::Acked);
    assert_eq!(
        entries(&t),
        vec![(off, 5, RangeState::Sent), (off + 5, 5, RangeState::Acked)]
    );
}

#[test]
fn acked_from_zero_ignores_sent_prefix() {
    let mut t = RangeTracker::default();
    t.mark_range(0, 10, RangeState::Sent);
    assert_eq!(t.acked_from_zero(), 0);
    t.mark_range(0, 4, RangeState::Acked);
    assert_eq!(t.acked_from_zero(), 4);
}
