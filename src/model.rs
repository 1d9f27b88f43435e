//! The mathematical model of a range map: a finite map from offsets to
//! `(length, state)`, read pointwise as the state of each byte offset.

use vstd::prelude::*;
use vstd::set_lib::lemma_len_subset;
use crate::range_map::{Extent, RangeState};

verus! {

/// Entry `k` of `m` holds offset `x`.
pub open spec fn covers(m: Map<u64, Extent>, k: u64, x: int) -> bool {
    m.contains_key(k) && k <= x && x < k + m[k].0
}

/// Some entry of `m` holds offset `x`.
pub open spec fn covered(m: Map<u64, Extent>, x: int) -> bool {
    exists|k: u64| #[trigger] covers(m, k, x)
}

/// The state of offset `x`: that of the entry holding it, `None` when unmarked.
pub open spec fn state_at(m: Map<u64, Extent>, x: int) -> Option<RangeState> {
    if covered(m, x) {
        Some(m[choose|k: u64| covers(m, k, x)].1)
    } else {
        None
    }
}

/// Finitely many entries, each non-empty and ending within the offset space.
pub open spec fn entries_valid(m: Map<u64, Extent>) -> bool {
    &&& m.dom().finite()
    &&& forall|k: u64| #[trigger] m.contains_key(k) ==> 1 <= m[k].0 && k + m[k].0 <= u64::MAX
}

/// No two entries overlap.
pub open spec fn disjoint(m: Map<u64, Extent>) -> bool {
    forall|a: u64, b: u64|
        #[trigger] m.contains_key(a) && #[trigger] m.contains_key(b) && a < b ==> a + m[a].0 <= b
}

/// Valid and disjoint entries.
pub open spec fn sound(m: Map<u64, Extent>) -> bool {
    entries_valid(m) && disjoint(m)
}

/// An acknowledged entry at offset 0 is not followed by an acknowledged
/// entry that starts where it ends.
pub open spec fn prefix_coalesced(m: Map<u64, Extent>) -> bool {
    (m.contains_key(0) && m[0].1 == RangeState::Acked) ==> !(m.contains_key(m[0].0) && m[m[0].0].1
        == RangeState::Acked)
}

/// The invariant of the tracker's map.
pub open spec fn well_formed(m: Map<u64, Extent>) -> bool {
    sound(m) && prefix_coalesced(m)
}

/// `h` is the greatest end of an entry of `m`, or 0 when `m` is empty.
pub open spec fn is_highest(m: Map<u64, Extent>, h: int) -> bool {
    &&& m.is_empty() ==> h == 0
    &&& !m.is_empty() ==> exists|k: u64| #[trigger] m.contains_key(k) && h == k + m[k].0
    &&& forall|k: u64| #[trigger] m.contains_key(k) ==> k + m[k].0 <= h
}

/// The length of the acknowledged entry at offset 0, or 0 when there is none.
pub open spec fn acked_prefix(m: Map<u64, Extent>) -> int {
    if m.contains_key(0) && m[0].1 == RangeState::Acked {
        m[0].0 as int
    } else {
        0
    }
}

/// `r` answers the first-unmarked query on `m`: `r.0` is the least unmarked
/// offset, and `r.1` the length of the gap from there to the next entry, or
/// `None` when no entry lies beyond it.
pub open spec fn is_first_unmarked(m: Map<u64, Extent>, r: (u64, Option<u64>)) -> bool {
    &&& !covered(m, r.0 as int)
    &&& forall|y: int| 0 <= y < r.0 ==> covered(m, y)
    &&& r.1.is_none() ==> forall|k: u64| #[trigger] m.contains_key(k) ==> k < r.0
    &&& r.1.is_some() ==> {
        &&& r.1.unwrap() > 0
        &&& r.0 + r.1.unwrap() <= u64::MAX
        &&& m.contains_key((r.0 + r.1.unwrap()) as u64)
        &&& forall|k: u64| #[trigger] m.contains_key(k) && r.0 < k ==> r.0 + r.1.unwrap() <= k
    }
}

/// The state of offset `x` after marking `[off, end)` as `st`: `Acked` is
/// never downgraded.
pub open spec fn marked_state(
    m: Map<u64, Extent>,
    off: int,
    end: int,
    st: RangeState,
    x: int,
) -> Option<RangeState> {
    if off <= x && x < end {
        if st == RangeState::Acked || state_at(m, x) == Some(RangeState::Acked) {
            Some(RangeState::Acked)
        } else {
            Some(RangeState::Sent)
        }
    } else {
        state_at(m, x)
    }
}

/// An offset of `[off, end)` where a gap of `m` begins.
pub open spec fn gap_start(m: Map<u64, Extent>, off: int, end: int, p: int) -> bool {
    off < p && p < end && !covered(m, p) && covered(m, p - 1)
}

/// The keys once `[off, end)` is cut along the edges of `m`: the old keys, the
/// two edges (the right one where it falls on a marked byte), and the start of
/// each gap inside.
pub open spec fn chunk_key(m: Map<u64, Extent>, off: int, end: int, p: u64) -> bool {
    m.contains_key(p) || p == off || (p == end && covered(m, end)) || gap_start(m, off, end, p as int)
}

/// Offset `p > 0` such that every offset of `[0, p]` is acknowledged after the
/// marking: its entry is folded into the entry at 0.
pub open spec fn in_marked_prefix(
    m: Map<u64, Extent>,
    off: int,
    end: int,
    st: RangeState,
    p: int,
) -> bool {
    0 < p && forall|y: int| 0 <= y <= p ==> marked_state(m, off, end, st, y) == Some(
        RangeState::Acked,
    )
}

/// The keys after marking `[off, end)` as `st`.
pub open spec fn mark_keys(m: Map<u64, Extent>, off: int, end: int, st: RangeState) -> Set<u64> {
    Set::new(|p: u64| chunk_key(m, off, end, p) && !in_marked_prefix(m, off, end, st, p as int))
}

/// `r` is `m` with `[off, end)` marked as `st`.
pub open spec fn mark_result(
    m: Map<u64, Extent>,
    off: int,
    end: int,
    st: RangeState,
    r: Map<u64, Extent>,
) -> bool {
    &&& well_formed(r)
    &&& r.dom() == mark_keys(m, off, end, st)
    &&& forall|x: int| state_at(r, x) == marked_state(m, off, end, st, x)
}

/// The state of offset `x` after unmarking `[off, end)`: sent bytes there
/// become unmarked, acknowledged ones stay.
pub open spec fn unmarked_state(m: Map<u64, Extent>, off: int, end: int, x: int) -> Option<
    RangeState,
> {
    if off <= x && x < end && state_at(m, x) == Some(RangeState::Sent) {
        None
    } else {
        state_at(m, x)
    }
}

/// The keys after unmarking `[off, end)`: sent entries starting inside are
/// dropped, and a sent entry running past `end` continues from `end`.
pub open spec fn unmark_keys(m: Map<u64, Extent>, off: int, end: int) -> Set<u64> {
    Set::new(
        |p: u64|
            (m.contains_key(p) && (m[p].1 == RangeState::Acked || p < off || end <= p)) || (p
                == end && state_at(m, end) == Some(RangeState::Sent)),
    )
}

/// `r` is `m` with the sent bytes of `[off, end)` unmarked.
pub open spec fn unmark_result(m: Map<u64, Extent>, off: int, end: int, r: Map<u64, Extent>) -> bool {
    &&& well_formed(r)
    &&& r.dom() == unmark_keys(m, off, end)
    &&& forall|x: int| state_at(r, x) == unmarked_state(m, off, end, x)
}

/// The entry holding an offset is unique, and gives its state.
pub proof fn lemma_covers_state(m: Map<u64, Extent>, k: u64, x: int)
    requires
        disjoint(m),
        covers(m, k, x),
    ensures
        covered(m, x),
        state_at(m, x) == Some(m[k].1),
        forall|j: u64| #[trigger] covers(m, j, x) ==> j == k,
{
    assert forall|j: u64| #[trigger] covers(m, j, x) implies j == k by {
        if j < k {
            assert(m.contains_key(j) && m.contains_key(k));
        } else if k < j {
            assert(m.contains_key(k) && m.contains_key(j));
        }
    }
    let j = choose|j: u64| covers(m, j, x);
    assert(covers(m, j, x));
}

/// The end of an entry is unmarked or the key of another entry.
pub proof fn lemma_next_after_entry(m: Map<u64, Extent>, k: u64, j: u64)
    requires
        disjoint(m),
        m.contains_key(k),
        covers(m, j, k + m[k].0),
    ensures
        j == k + m[k].0,
{
    if j < k {
        assert(m.contains_key(j) && m.contains_key(k));
    } else if j == k {
    } else {
        assert(m.contains_key(k) && m.contains_key(j));
    }
}

/// A sound map is fixed by its keys and the state of every offset.
pub proof fn lemma_same_keys_and_states(m1: Map<u64, Extent>, m2: Map<u64, Extent>)
    requires
        sound(m1),
        sound(m2),
        m1.dom() == m2.dom(),
        forall|x: int| state_at(m1, x) == state_at(m2, x),
    ensures
        m1 == m2,
{
    assert forall|k: u64| #[trigger] m1.contains_key(k) implies m1[k] == m2[k] by {
        assert(covers(m1, k, k as int) && covers(m2, k, k as int));
        lemma_covers_state(m1, k, k as int);
        lemma_covers_state(m2, k, k as int);
        assert(state_at(m1, k as int) == state_at(m2, k as int));
        lemma_entry_not_longer(m1, m2, k);
        lemma_entry_not_longer(m2, m1, k);
    }
    assert(m1 =~= m2);
}

proof fn lemma_entry_not_longer(m1: Map<u64, Extent>, m2: Map<u64, Extent>, k: u64)
    requires
        sound(m1),
        sound(m2),
        m1.dom() == m2.dom(),
        forall|x: int| state_at(m1, x) == state_at(m2, x),
        m1.contains_key(k),
    ensures
        m2[k].0 <= m1[k].0,
{
    if m1[k].0 < m2[k].0 {
    let x = k + m1[k].0;
    assert(covers(m2, k, x));
    lemma_covers_state(m2, k, x);
    assert(state_at(m1, x).is_some());
    let j = choose|j: u64| covers(m1, j, x);
    assert(covers(m1, j, x));
    lemma_next_after_entry(m1, k, j);
    assert(m2.contains_key(j) && m2.contains_key(k));
    }
}

/// Every marked offset lies below the greatest end.
pub proof fn lemma_covered_below_highest(m: Map<u64, Extent>, h: int, x: int)
    requires
        is_highest(m, h),
        covered(m, x),
    ensures
        x < h,
{
    let k = choose|k: u64| covers(m, k, x);
    assert(covers(m, k, x));
    assert(m.contains_key(k));
}

/// Filling a gap with a new entry marks exactly that gap.
pub proof fn lemma_fill_gap(m: Map<u64, Extent>, a: u64, len: u64, s: RangeState)
    requires
        sound(m),
        1 <= len,
        a + len <= u64::MAX,
        forall|x: int| a <= x < a + len ==> !covered(m, x),
    ensures
        !m.contains_key(a),
        sound(m.insert(a, (len, s))),
        forall|x: int|
            state_at(m.insert(a, (len, s)), x) == if a <= x < a + len {
                Some(s)
            } else {
                state_at(m, x)
            },
{
    let n = m.insert(a, (len, s));
    if m.contains_key(a) {
        assert(covers(m, a, a as int));
        assert(covered(m, a as int));
    }
    assert forall|p: u64, q: u64|
        #[trigger] n.contains_key(p) && #[trigger] n.contains_key(q) && p < q implies p + n[p].0
        <= q by {
        if p == a {
            if q < a + len {
                assert(covers(m, q, q as int));
                assert(covered(m, q as int));
            }
        } else if q == a {
            if p + m[p].0 > a {
                assert(covers(m, p, a as int));
                assert(covered(m, a as int));
            }
        } else {
            assert(m.contains_key(p) && m.contains_key(q));
        }
    }
    assert forall|x: int|
        state_at(n, x) == if a <= x < a + len {
            Some(s)
        } else {
            state_at(m, x)
        } by {
        if a <= x < a + len {
            lemma_covers_state(n, a, x);
        } else if covered(m, x) {
            let j = choose|j: u64| covers(m, j, x);
            lemma_covers_state(m, j, x);
            assert(covers(n, j, x));
            lemma_covers_state(n, j, x);
        } else {
            assert forall|j: u64| !#[trigger] covers(n, j, x) by {
                if j != a && covers(n, j, x) {
                    assert(covers(m, j, x));
                }
            }
        }
    }
}

/// Giving an entry a new state changes the state of its offsets only.
pub proof fn lemma_restate(m: Map<u64, Extent>, k: u64, s: RangeState)
    requires
        sound(m),
        m.contains_key(k),
    ensures
        sound(m.insert(k, (m[k].0, s))),
        forall|x: int|
            state_at(m.insert(k, (m[k].0, s)), x) == if covers(m, k, x) {
                Some(s)
            } else {
                state_at(m, x)
            },
{
    let n = m.insert(k, (m[k].0, s));
    assert forall|p: u64, q: u64|
        #[trigger] n.contains_key(p) && #[trigger] n.contains_key(q) && p < q implies p + n[p].0
        <= q by {
        assert(m.contains_key(p) && m.contains_key(q));
    }
    assert forall|x: int|
        state_at(n, x) == if covers(m, k, x) {
            Some(s)
        } else {
            state_at(m, x)
        } by {
        if covers(m, k, x) {
            lemma_covers_state(n, k, x);
        } else if covered(m, x) {
            let j = choose|j: u64| covers(m, j, x);
            lemma_covers_state(m, j, x);
            assert(covers(n, j, x));
            lemma_covers_state(n, j, x);
        } else {
            assert forall|j: u64| !#[trigger] covers(n, j, x) by {
                if covers(n, j, x) {
                    assert(covers(m, j, x));
                }
            }
        }
    }
}

/// Cutting entry `k` in two at `p` keeps the state of every offset.
pub proof fn lemma_split(m: Map<u64, Extent>, k: u64, p: u64)
    requires
        sound(m),
        m.contains_key(k),
        k < p < k + m[k].0,
    ensures
        !m.contains_key(p),
        sound(m.insert(k, ((p - k) as u64, m[k].1)).insert(p, ((k + m[k].0 - p) as u64, m[k].1))),
        m.insert(k, ((p - k) as u64, m[k].1)).insert(p, ((k + m[k].0 - p) as u64, m[k].1)).dom()
            == m.dom().insert(p),
        forall|x: int|
            state_at(
                m.insert(k, ((p - k) as u64, m[k].1)).insert(p, ((k + m[k].0 - p) as u64, m[k].1)),
                x,
            ) == state_at(m, x),
{
    let l = m[k].0;
    let s = m[k].1;
    let n = m.insert(k, ((p - k) as u64, s)).insert(p, ((k + l - p) as u64, s));
    if m.contains_key(p) {
        assert(m.contains_key(k) && m.contains_key(p));
    }
    assert(n.dom() =~= m.dom().insert(p));
    assert forall|a: u64, b: u64|
        #[trigger] n.contains_key(a) && #[trigger] n.contains_key(b) && a < b implies a + n[a].0
        <= b by {
        if a == p {
            assert(m.contains_key(k) && m.contains_key(b));
        } else if b == p {
            if a != k {
                assert(m.contains_key(a) && m.contains_key(k));
            }
        } else if a == k {
            assert(m.contains_key(k) && m.contains_key(b));
        } else {
            assert(m.contains_key(a) && m.contains_key(b));
        }
    }
    assert forall|x: int| state_at(n, x) == state_at(m, x) by {
        if covered(m, x) {
            let j = choose|j: u64| covers(m, j, x);
            lemma_covers_state(m, j, x);
            if j == k {
                if x < p {
                    lemma_covers_state(n, k, x);
                } else {
                    lemma_covers_state(n, p, x);
                }
            } else {
                assert(covers(n, j, x));
                lemma_covers_state(n, j, x);
            }
        } else {
            assert forall|j: u64| !#[trigger] covers(n, j, x) by {
                if covers(n, j, x) {
                    if j == p || j == k {
                        assert(covers(m, k, x));
                    } else {
                        assert(covers(m, j, x));
                    }
                }
            }
        }
    }
}

/// Folding the acknowledged entry that follows the entry at 0 into it keeps
/// the state of every offset.
pub proof fn lemma_fold_next(m: Map<u64, Extent>)
    requires
        sound(m),
        m.contains_key(0),
        m[0].1 == RangeState::Acked,
        m.contains_key(m[0].0),
        m[m[0].0].1 == RangeState::Acked,
    ensures
        sound(m.insert(0, ((m[0].0 + m[m[0].0].0) as u64, RangeState::Acked)).remove(m[0].0)),
        m.insert(0, ((m[0].0 + m[m[0].0].0) as u64, RangeState::Acked)).remove(m[0].0).dom()
            == m.dom().remove(m[0].0),
        forall|x: int|
            state_at(
                m.insert(0, ((m[0].0 + m[m[0].0].0) as u64, RangeState::Acked)).remove(m[0].0),
                x,
            ) == state_at(m, x),
{
    let a = m[0].0;
    let b = m[a].0;
    let n = m.insert(0, ((a + b) as u64, RangeState::Acked)).remove(a);
    assert(0 < a);
    assert(n.dom() =~= m.dom().remove(a));
    assert forall|p: u64, q: u64|
        #[trigger] n.contains_key(p) && #[trigger] n.contains_key(q) && p < q implies p + n[p].0
        <= q by {
        if p == 0 {
            assert(m.contains_key(a) && m.contains_key(q));
            if q < a {
                assert(m.contains_key(0) && m.contains_key(q));
            }
        } else {
            assert(m.contains_key(p) && m.contains_key(q));
        }
    }
    assert forall|x: int| state_at(n, x) == state_at(m, x) by {
        if covered(m, x) {
            let j = choose|j: u64| covers(m, j, x);
            lemma_covers_state(m, j, x);
            if j == 0 || j == a {
                lemma_covers_state(n, 0, x);
            } else {
                assert(covers(n, j, x));
                lemma_covers_state(n, j, x);
            }
        } else {
            assert forall|j: u64| !#[trigger] covers(n, j, x) by {
                if covers(n, j, x) {
                    if j == 0 {
                        if x < a {
                            assert(covers(m, 0, x));
                        } else {
                            assert(covers(m, a, x));
                        }
                    } else {
                        assert(covers(m, j, x));
                    }
                }
            }
        }
    }
}

/// The acknowledged entries of `m`.
pub open spec fn acked_entries(m: Map<u64, Extent>) -> Map<u64, Extent> {
    Map::new(|q: u64| m.contains_key(q) && m[q].1 == RangeState::Acked, |q: u64| m[q])
}

/// Entry `q` of `m` is sent and runs across `end`.
pub open spec fn straddles(m: Map<u64, Extent>, end: int, q: u64) -> bool {
    m.contains_key(q) && m[q].1 == RangeState::Sent && q < end && end < q + m[q].0
}

/// Entry `q` of `m` once the sent part of it from `off` on is dropped.
pub open spec fn trimmed(m: Map<u64, Extent>, off: int, q: u64) -> Extent {
    if m[q].1 == RangeState::Sent && q < off && off < q + m[q].0 {
        ((off - q) as u64, RangeState::Sent)
    } else {
        m[q]
    }
}

/// The map left by unmarking `[off, end)`: sent entries starting inside are
/// dropped, a sent entry running into it from the left is cut at `off`, and a
/// sent entry running past `end` continues from `end`.
pub open spec fn unmark_map(m: Map<u64, Extent>, off: int, end: int) -> Map<u64, Extent> {
    let base = Map::new(
        |q: u64| m.contains_key(q) && (m[q].1 == RangeState::Acked || q < off || end <= q),
        |q: u64| trimmed(m, off, q),
    );
    if exists|q: u64| straddles(m, end, q) {
        let q = choose|q: u64| straddles(m, end, q);
        base.insert(end as u64, ((q + m[q].0 - end) as u64, RangeState::Sent))
    } else {
        base
    }
}

/// `unmark_map` is the unmarking that `unmark_result` describes.
pub proof fn lemma_unmark_map(m: Map<u64, Extent>, off: int, end: int)
    requires
        well_formed(m),
        0 <= off < end <= u64::MAX,
    ensures
        unmark_result(m, off, end, unmark_map(m, off, end)),
{
    let f = unmark_map(m, off, end);
    let base = Map::new(
        |q: u64| m.contains_key(q) && (m[q].1 == RangeState::Acked || q < off || end <= q),
        |q: u64| trimmed(m, off, q),
    );
    let has = exists|q: u64| straddles(m, end, q);
    let sq = choose|q: u64| straddles(m, end, q);
    lemma_len_subset(base.dom(), m.dom());
    if has {
        assert(straddles(m, end, sq));
        assert(covers(m, sq, end));
        lemma_covers_state(m, sq, end);
        assert(!m.contains_key(end as u64)) by {
            if m.contains_key(end as u64) {
                assert(m.contains_key(sq) && m.contains_key(end as u64));
            }
        }
    }
    // Every entry of `f` lies within an entry of `m` of the same state.
    assert forall|q: u64| #[trigger] f.contains_key(q) implies {
        &&& 1 <= f[q].0
        &&& q + f[q].0 <= u64::MAX
        &&& exists|p: u64|
            #[trigger] m.contains_key(p) && p <= q && q + f[q].0 <= p + m[p].0 && m[p].1 == f[q].1
        &&& (q < end && !(has && q == end)) ==> (m.contains_key(q) && f[q] == trimmed(m, off, q))
    } by {
        if has && q == end {
            assert(m.contains_key(sq));
        } else {
            assert(m.contains_key(q));
        }
    }
    assert forall|a: u64, b: u64|
        #[trigger] f.contains_key(a) && #[trigger] f.contains_key(b) && a < b implies a + f[a].0
        <= b by {
        if has && a == end as u64 {
            assert(m.contains_key(b));
            assert(m.contains_key(sq) && m.contains_key(b));
        } else if has && b == end as u64 {
            assert(m.contains_key(a));
            if a < sq {
                assert(m.contains_key(a) && m.contains_key(sq));
            } else if sq < a {
                assert(m.contains_key(sq) && m.contains_key(a));
            }
        } else {
            assert(m.contains_key(a) && m.contains_key(b));
        }
    }
    assert(f.dom().finite());
    assert(prefix_coalesced(f)) by {
        if f.contains_key(0) && f[0].1 == RangeState::Acked {
            assert(m.contains_key(0) && f[0] == m[0]);
            let l = f[0].0;
            if f.contains_key(l) && f[l].1 == RangeState::Acked {
                if !(has && l == end) {
                    assert(m.contains_key(l));
                }
            }
        }
    }
    assert(f.dom() =~= unmark_keys(m, off, end)) by {
        if state_at(m, end) == Some(RangeState::Sent) && !m.contains_key(end as u64) {
            let j = choose|j: u64| covers(m, j, end);
            assert(covers(m, j, end));
            lemma_covers_state(m, j, end);
            assert(straddles(m, end, j));
        }
    }
    assert forall|x: int| state_at(f, x) == unmarked_state(m, off, end, x) by {
        if covered(m, x) {
            let q = choose|q: u64| covers(m, q, x);
            lemma_covers_state(m, q, x);
            let s = m[q].1;
            if has {
                assert(q != end);
            }
            if s == RangeState::Acked || end <= q || (q < off && q + m[q].0 <= off) {
                assert(f.contains_key(q) && f[q] == m[q]);
                assert(covers(f, q, x));
                lemma_covers_state(f, q, x);
            } else if x >= end {
                assert(straddles(m, end, q));
                lemma_covers_state(m, sq, end);
                assert(covers(m, q, end));
                assert(covers(f, end as u64, x));
                lemma_covers_state(f, end as u64, x);
            } else if x < off {
                assert(f.contains_key(q) && f[q] == ((off - q) as u64, RangeState::Sent));
                assert(covers(f, q, x));
                lemma_covers_state(f, q, x);
            } else {
                assert forall|j: u64| !#[trigger] covers(f, j, x) by {
                    if covers(f, j, x) {
                        if !(has && j == end) {
                            assert(m.contains_key(j));
                            assert(covers(m, j, x));
                        }
                    }
                }
            }
        } else {
            assert forall|j: u64| !#[trigger] covers(f, j, x) by {
                if covers(f, j, x) {
                    if has && j == end {
                        assert(covers(m, sq, x));
                    } else {
                        assert(covers(m, j, x));
                    }
                }
            }
        }
    }
}

} // verus!
