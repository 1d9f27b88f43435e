//! Laws that relate the tracker's operations, stated over the model.

use vstd::prelude::*;
use crate::model::{
    acked_entries, chunk_key, covered, covers, gap_start, in_marked_prefix, is_first_unmarked,
    is_highest,
    lemma_covered_below_highest, lemma_covers_state, lemma_same_keys_and_states, mark_keys,
    mark_result, marked_state, unmark_keys, unmark_result, unmarked_state, state_at, well_formed,
};
use crate::range_map::{Extent, RangeState};

verus! {

/// The first-unmarked query has one answer on a given map, so asking it
/// twice with no change in between gives the same answer twice.
pub proof fn lemma_first_unmarked_unique(
    m: Map<u64, Extent>,
    r1: (u64, Option<u64>),
    r2: (u64, Option<u64>),
)
    requires
        is_first_unmarked(m, r1),
        is_first_unmarked(m, r2),
    ensures
        r1 == r2,
{
    assert(r1.0 == r2.0) by {
        if r1.0 < r2.0 {
            assert(covered(m, r1.0 as int));
        } else if r2.0 < r1.0 {
            assert(covered(m, r2.0 as int));
        }
    }
    if r1.1.is_some() && r2.1.is_some() {
        let k1 = (r1.0 + r1.1.unwrap()) as u64;
        let k2 = (r2.0 + r2.1.unwrap()) as u64;
        assert(m.contains_key(k1) && r1.0 < k1);
        assert(m.contains_key(k2) && r2.0 < k2);
    } else if r1.1.is_some() {
        let k1 = (r1.0 + r1.1.unwrap()) as u64;
        assert(m.contains_key(k1));
    } else if r2.1.is_some() {
        let k2 = (r2.0 + r2.1.unwrap()) as u64;
        assert(m.contains_key(k2));
    }
}

/// Marking never takes an acknowledged offset out of the acknowledged state.
pub proof fn lemma_mark_keeps_acked(
    m: Map<u64, Extent>,
    off: int,
    end: int,
    st: RangeState,
    r: Map<u64, Extent>,
    x: int,
)
    requires
        mark_result(m, off, end, st, r),
        state_at(m, x) == Some(RangeState::Acked),
    ensures
        state_at(r, x) == Some(RangeState::Acked),
{
}

/// Unmarking never takes an acknowledged offset out of the acknowledged state.
pub proof fn lemma_unmark_keeps_acked(
    m: Map<u64, Extent>,
    off: int,
    end: int,
    r: Map<u64, Extent>,
    x: int,
)
    requires
        unmark_result(m, off, end, r),
        state_at(m, x) == Some(RangeState::Acked),
    ensures
        state_at(r, x) == Some(RangeState::Acked),
{
}

/// Unmarking every sent range a second time changes nothing.
pub proof fn lemma_unmark_sent_idempotent(m: Map<u64, Extent>)
    ensures
        acked_entries(acked_entries(m)) == acked_entries(m),
{
    assert(acked_entries(acked_entries(m)) =~= acked_entries(m));
}

/// The highest offset has one value on a given map.
pub proof fn lemma_highest_unique(m: Map<u64, Extent>, h1: int, h2: int)
    requires
        is_highest(m, h1),
        is_highest(m, h2),
    ensures
        h1 == h2,
{
    if !m.is_empty() {
        let k1 = choose|k: u64| #[trigger] m.contains_key(k) && h1 == k + m[k].0;
        let k2 = choose|k: u64| #[trigger] m.contains_key(k) && h2 == k + m[k].0;
        assert(m.contains_key(k1) && m.contains_key(k2));
    }
}

/// Marking never lowers the highest offset.
pub proof fn lemma_mark_keeps_highest(
    m: Map<u64, Extent>,
    off: int,
    end: int,
    st: RangeState,
    r: Map<u64, Extent>,
    h1: int,
    h2: int,
)
    requires
        well_formed(m),
        mark_result(m, off, end, st, r),
        is_highest(m, h1),
        is_highest(r, h2),
    ensures
        h1 <= h2,
{
    if !r.is_empty() {
        let k = choose|k: u64| #[trigger] r.contains_key(k) && h2 == k + r[k].0;
        assert(r.contains_key(k));
    }
    if !m.is_empty() {
        let k = choose|k: u64| #[trigger] m.contains_key(k) && h1 == k + m[k].0;
        let x = h1 - 1;
        assert(covers(m, k, x));
        lemma_covers_state(m, k, x);
        assert(state_at(r, x) == marked_state(m, off, end, st, x));
        assert(covered(r, x));
        lemma_covered_below_highest(r, h2, x);
    }
}

/// Marking a wholly unmarked range as sent and then unmarking it gives back
/// the map as it was.
pub proof fn lemma_mark_sent_then_unmark(
    m: Map<u64, Extent>,
    off: int,
    end: int,
    m1: Map<u64, Extent>,
    m2: Map<u64, Extent>,
)
    requires
        well_formed(m),
        0 <= off < end <= u64::MAX,
        forall|x: int| off <= x < end ==> !covered(m, x),
        mark_result(m, off, end, RangeState::Sent, m1),
        unmark_result(m1, off, end, m2),
    ensures
        m2 == m,
{
    assert(!covered(m, off));
    // Nothing before `off` is folded into the entry at 0.
    assert forall|p: u64| #[trigger] m.contains_key(p) && p < off implies !in_marked_prefix(
        m,
        off,
        end,
        RangeState::Sent,
        p as int,
    ) by {
        if in_marked_prefix(m, off, end, RangeState::Sent, p as int) {
            assert(marked_state(m, off, end, RangeState::Sent, 0) == Some(RangeState::Acked));
            assert(state_at(m, 0) == Some(RangeState::Acked));
            let z = choose|z: u64| covers(m, z, 0);
            assert(covers(m, z, 0));
            lemma_covers_state(m, z, 0);
            let l = m[0].0;
            if p < l {
                assert(m.contains_key(0) && m.contains_key(p));
            }
            assert(marked_state(m, off, end, RangeState::Sent, l as int) == Some(
                RangeState::Acked,
            ));
            let j = choose|j: u64| covers(m, j, l as int);
            assert(covers(m, j, l as int));
            lemma_covers_state(m, j, l as int);
            if 0 < j && j < l {
                assert(m.contains_key(0) && m.contains_key(j));
            }
            assert(j == l);
        }
    }
    // A marked offset at `end` belongs to an entry starting at `end`.
    if covered(m, end) {
        let j = choose|j: u64| covers(m, j, end);
        assert(covers(m, j, end));
        if j < end {
            if off <= j {
                assert(covers(m, j, j as int));
                assert(covered(m, j as int));
            } else {
                assert(covers(m, j, off));
            }
        }
        assert(m.contains_key(end as u64));
    }
    assert(marked_state(m, off, end, RangeState::Sent, off) == Some(RangeState::Sent));
    assert(m1.dom() =~= mark_keys(m, off, end, RangeState::Sent));
    assert forall|p: u64| #[trigger] m1.contains_key(p) implies m.contains_key(p) || p == off by {
        assert(chunk_key(m, off, end, p));
        if gap_start(m, off, end, p as int) {
            assert(!covered(m, p - 1));
        }
    }
    assert(m1.contains_key(off as u64));
    assert(covers(m1, off as u64, off));
    lemma_covers_state(m1, off as u64, off);
    assert(m2.dom() =~= unmark_keys(m1, off, end));
    assert forall|p: u64| #[trigger] m.contains_key(p) implies m1.contains_key(p) by {
        if p < off {
            assert(!in_marked_prefix(m, off, end, RangeState::Sent, p as int));
        } else {
            assert(marked_state(m, off, end, RangeState::Sent, off) == Some(RangeState::Sent));
        }
        assert(chunk_key(m, off, end, p));
    }
    assert forall|p: u64| #[trigger] m.contains_key(p) implies !(off <= p && p < end) by {
        assert(covers(m, p, p as int));
        assert(covered(m, p as int));
    }
    assert(state_at(m1, end) == state_at(m, end));
    assert(m2.dom() =~= m.dom());
    assert forall|x: int| state_at(m2, x) == state_at(m, x) by {
        assert(state_at(m2, x) == unmarked_state(m1, off, end, x));
        assert(state_at(m1, x) == marked_state(m, off, end, RangeState::Sent, x));
    }
    lemma_same_keys_and_states(m2, m);
}

} // verus!
