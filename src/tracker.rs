//! The range tracker: which byte offsets of one outbound stream are sent,
//! which are acknowledged, and which still need sending.

use vstd::prelude::*;
use crate::model::{
    acked_prefix, covered, covers, gap_start, is_first_unmarked, is_highest, lemma_covers_state,
    acked_entries, chunk_key, in_marked_prefix, lemma_unmark_map, straddles, trimmed, unmark_map,
    unmark_result, lemma_fill_gap, lemma_fold_next, lemma_restate, lemma_split, mark_keys, mark_result,
    marked_state, prefix_coalesced, sound, state_at, well_formed,
};
use crate::range_map::{Extent, RangeMap, RangeState};

verus! {

/// Tracks ranges of a stream as sent or acked. Acked implies sent. An offset
/// in no range needs sending, either for the first time or again.
pub struct RangeTracker {
    used: RangeMap,
    cached: Option<(u64, Option<u64>)>,
}

impl View for RangeTracker {
    type V = Map<u64, Extent>;

    closed spec fn view(&self) -> Map<u64, Extent> {
        self.used@
    }
}

impl RangeTracker {
    /// The map is well formed, and a cached query answer is the current one.
    pub closed spec fn inv(&self) -> bool {
        &&& well_formed(self.used@)
        &&& self.cached.is_some() ==> is_first_unmarked(self.used@, self.cached.unwrap())
    }

    /// The tracker's invariant gives a well-formed map: disjoint, non-empty
    /// entries, with the acknowledged prefix folded into one entry at 0.
    pub proof fn lemma_well_formed(&self)
        requires
            self.inv(),
        ensures
            well_formed(self@),
    {
    }

    /// An empty tracker.
    pub fn new() -> (r: RangeTracker)
        ensures
            r.inv(),
            r@ == Map::<u64, Extent>::empty(),
    {
        RangeTracker { used: RangeMap::new(), cached: None }
    }

    /// The end of the highest range, or 0 when nothing is marked.
    pub fn highest_offset(&self) -> (r: u64)
        requires
            self.inv(),
        ensures
            is_highest(self@, r as int),
    {
        match self.used.last() {
            None => 0,
            Some((k, (l, _))) => {
                proof {
                    let m = self.used@;
                    assert(m.contains_key(k));
                    assert forall|j: u64| #[trigger] m.contains_key(j) implies j + m[j].0 <= k
                        + l by {
                        if j < k {
                            assert(m.contains_key(j) && m.contains_key(k));
                        }
                    }
                }
                k + l
            },
        }
    }

    /// The length of the acknowledged range from offset 0, or 0 when there is
    /// none.
    pub fn acked_from_zero(&self) -> (r: u64)
        requires
            self.inv(),
        ensures
            r == acked_prefix(self@),
    {
        match self.used.get(0) {
            Some((l, RangeState::Acked)) => l,
            _ => 0,
        }
    }

    /// The first unmarked range: `(start, Some(len))` for the first gap, or
    /// `(highest_offset(), None)` when the marked ranges are contiguous from 0.
    pub fn first_unmarked_range(&mut self) -> (r: (u64, Option<u64>))
        requires
            old(self).inv(),
        ensures
            final(self).inv(),
            final(self)@ == old(self)@,
            is_first_unmarked(old(self)@, r),
    {
        if let Some(c) = self.cached {
            return c;
        }
        let ghost m = self.used@;
        let mut prev_end: u64 = 0;
        loop
            invariant
                self.used@ == m,
                m == old(self).used@,
                sound(m),
                prefix_coalesced(m),
                forall|y: int| 0 <= y < prev_end ==> covered(m, y),
                forall|k: u64| #[trigger] m.contains_key(k) && k < prev_end ==> k + m[k].0 <= prev_end,
            decreases u64::MAX - prev_end,
        {
            match self.used.first_from(prev_end) {
                None => {
                    let r = (prev_end, None);
                    assert forall|j: u64| !#[trigger] covers(m, j, prev_end as int) by {
                        if m.contains_key(j) && j < prev_end {
                        }
                    }
                    self.cached = Some(r);
                    return r;
                },
                Some((k, (l, _))) => {
                    if k == prev_end {
                        assert(m.contains_key(k));
                        assert forall|y: int| 0 <= y < k + l implies covered(m, y) by {
                            if y >= prev_end {
                                assert(covers(m, k, y));
                            }
                        }
                        assert forall|j: u64| #[trigger] m.contains_key(j) && j < k + l implies j
                            + m[j].0 <= k + l by {
                            if k < j {
                                assert(m.contains_key(k) && m.contains_key(j));
                            }
                        }
                        prev_end = k + l;
                    } else {
                        let r = (prev_end, Some(k - prev_end));
                        assert forall|j: u64| !#[trigger] covers(m, j, prev_end as int) by {
                            if m.contains_key(j) && j < prev_end {
                            }
                        }
                        assert(m.contains_key((r.0 + r.1.unwrap()) as u64));
                        assert(forall|j: u64| #[trigger] m.contains_key(j) && r.0 < j ==> k <= j);
                        self.cached = Some(r);
                        return r;
                    }
                },
            }
        }
    }

    /// Cuts the entry that runs across `p`, if any, in two at `p`.
    fn split_at(&mut self, p: u64)
        requires
            sound(old(self).used@),
        ensures
            sound(final(self).used@),
            final(self).cached == old(self).cached,
            final(self).used@.dom() == (if covered(old(self).used@, p as int) {
                old(self).used@.dom().insert(p)
            } else {
                old(self).used@.dom()
            }),
            forall|x: int| state_at(final(self).used@, x) == state_at(old(self).used@, x),
            forall|k: u64| #[trigger]
                final(self).used@.contains_key(k) && k < p ==> k + final(self).used@[k].0 <= p,
    {
        let ghost m = self.used@;
        if let Some((k, (l, s))) = self.used.last_before(p) {
            assert(m.contains_key(k));
            if k + l > p {
                proof {
                    lemma_split(m, k, p);
                    assert(covers(m, k, p as int));
                }
                self.used.insert(k, (p - k, s));
                self.used.insert(p, (k + l - p, s));
                proof {
                    let n = self.used@;
                    assert forall|j: u64| #[trigger] n.contains_key(j) && j < p implies j + n[j].0
                        <= p by {
                        if j != k {
                            assert(m.contains_key(j) && m.contains_key(k));
                        }
                    }
                }
                return;
            }
            proof {
                assert forall|j: u64| #[trigger] m.contains_key(j) && j < p implies j + m[j].0
                    <= p by {
                    if j < k {
                        assert(m.contains_key(j) && m.contains_key(k));
                    }
                }
            }
        }
        proof {
            if covered(m, p as int) {
                let j = choose|j: u64| covers(m, j, p as int);
                assert(covers(m, j, p as int));
                assert(m.contains_key(p));
                assert(m.dom().insert(p) =~= m.dom());
            }
        }
    }

    /// Cuts the entries that run across either edge of `[off, end)`, so that
    /// every entry lies wholly inside or wholly outside it.
    fn chunk_range_on_edges(&mut self, off: u64, end: u64)
        requires
            sound(old(self).used@),
            off < end,
        ensures
            sound(final(self).used@),
            final(self).cached == old(self).cached,
            final(self).used@.dom() == Set::new(
                |q: u64|
                    old(self).used@.contains_key(q) || ((q == off || q == end) && covered(
                        old(self).used@,
                        q as int,
                    )),
            ),
            forall|x: int| state_at(final(self).used@, x) == state_at(old(self).used@, x),
            forall|k: u64| #[trigger]
                final(self).used@.contains_key(k) && k < off ==> k + final(self).used@[k].0
                    <= off,
            forall|k: u64| #[trigger]
                final(self).used@.contains_key(k) && k < end ==> k + final(self).used@[k].0
                    <= end,
    {
        let ghost m = self.used@;
        self.split_at(off);
        let ghost m1 = self.used@;
        self.split_at(end);
        proof {
            let n = self.used@;
            assert(covered(m1, end as int) == covered(m, end as int)) by {
                assert(state_at(m1, end as int) == state_at(m, end as int));
            }
            assert(n.dom() =~= Set::new(
                |q: u64| m.contains_key(q) || ((q == off || q == end) && covered(m, q as int)),
            ));
            assert forall|k: u64| #[trigger] n.contains_key(k) && k < off implies k + n[k].0
                <= off by {
                if k + n[k].0 > off {
                    assert(covers(n, k, off as int));
                    lemma_covers_state(n, k, off as int);
                    assert(state_at(n, off as int) == state_at(m1, off as int));
                    assert(covered(m1, off as int));
                    let j = choose|j: u64| covers(m1, j, off as int);
                    assert(covers(m1, j, off as int));
                    assert(m1.contains_key(off));
                    assert(n.contains_key(k) && n.contains_key(off));
                }
            }
        }
    }

    /// Writes `[off, end)` as `st` over a map cut along both edges: a new
    /// entry for each gap, and the state `st` on each entry inside, except
    /// where it would take an acknowledged entry back to sent.
    fn write_chunks(&mut self, off: u64, end: u64, st: RangeState)
        requires
            sound(old(self).used@),
            off < end,
            forall|k: u64| #[trigger]
                old(self).used@.contains_key(k) && k < off ==> k + old(self).used@[k].0 <= off,
            forall|k: u64| #[trigger]
                old(self).used@.contains_key(k) && k < end ==> k + old(self).used@[k].0 <= end,
        ensures
            sound(final(self).used@),
            final(self).cached == old(self).cached,
            final(self).used@.dom() == Set::new(
                |q: u64|
                    old(self).used@.contains_key(q) || q == off || gap_start(
                        old(self).used@,
                        off as int,
                        end as int,
                        q as int,
                    ),
            ),
            forall|x: int|
                state_at(final(self).used@, x) == marked_state(
                    old(self).used@,
                    off as int,
                    end as int,
                    st,
                    x,
                ),
    {
        let ghost m0 = self.used@;
        let mut tmp: u64 = off;
        while tmp < end
            invariant
                off <= tmp <= end,
                sound(self.used@),
                sound(m0),
                m0 == old(self).used@,
                self.cached == old(self).cached,
                forall|k: u64| #[trigger] m0.contains_key(k) && k < end ==> k + m0[k].0 <= end,
                self.used@.dom() == Set::new(
                    |q: u64|
                        m0.contains_key(q) || (q < tmp && (q == off || gap_start(
                            m0,
                            off as int,
                            end as int,
                            q as int,
                        ))),
                ),
                forall|k: u64| #[trigger]
                    self.used@.contains_key(k) && tmp <= k ==> m0.contains_key(k) && self.used@[k]
                        == m0[k],
                forall|k: u64| #[trigger]
                    self.used@.contains_key(k) && k < tmp ==> k + self.used@[k].0 <= tmp,
                tmp == off || tmp == end || covered(m0, tmp - 1),
                forall|x: int|
                    state_at(self.used@, x) == if off <= x < tmp {
                        marked_state(m0, off as int, end as int, st, x)
                    } else {
                        state_at(m0, x)
                    },
            decreases end - tmp,
        {
            let ghost cur = self.used@;
            let next = self.used.first_from(tmp);
            let mut stop: u64 = end;
            if let Some((k, _)) = next {
                if k < end {
                    stop = k;
                }
            }
            proof {
                assert forall|x: int| tmp <= x < stop implies !covered(cur, x) && !covered(m0, x) by {
                    assert forall|j: u64| !#[trigger] covers(cur, j, x) by {
                        if cur.contains_key(j) && j >= tmp {
                            assert(stop <= j);
                        }
                    }
                    assert(state_at(cur, x) == state_at(m0, x));
                }
            }
            if tmp < stop {
                proof {
                    lemma_fill_gap(cur, tmp, (stop - tmp) as u64, st);
                }
                self.used.insert(tmp, (stop - tmp, st));
            }
            let ghost mid = self.used@;
            proof {
                assert forall|x: int|
                    state_at(mid, x) == if off <= x < stop {
                        marked_state(m0, off as int, end as int, st, x)
                    } else {
                        state_at(m0, x)
                    } by {
                    if tmp <= x < stop {
                        assert(!covered(m0, x));
                    }
                }
            }
            if stop < end {
                let (k, (l, s)) = next.unwrap();
                assert(cur.contains_key(k) && cur[k] == m0[k]);
                assert(k + l <= end);
                if !(st == RangeState::Sent && s == RangeState::Acked) {
                    proof {
                        lemma_restate(mid, k, st);
                    }
                    self.used.insert(k, (l, st));
                }
                proof {
                    let n = self.used@;
                    assert forall|x: int|
                        state_at(n, x) == if off <= x < k + l {
                            marked_state(m0, off as int, end as int, st, x)
                        } else {
                            state_at(m0, x)
                        } by {
                        if k <= x < k + l {
                            assert(covers(m0, k, x));
                            lemma_covers_state(m0, k, x);
                            assert(covers(mid, k, x));
                            lemma_covers_state(mid, k, x);
                        }
                    }
                    assert(covers(m0, k, k + l - 1));
                    assert forall|q: u64| #[trigger] n.contains_key(q) && (k + l) as u64 <= q implies m0.contains_key(q) && n[q] == m0[q] by {
                        assert(cur.contains_key(q));
                    }
                    assert forall|q: u64| #[trigger] n.contains_key(q) && q < k + l implies q + n[q].0 <= k + l by {
                        if q > k && cur.contains_key(q) {
                            assert(m0.contains_key(k) && m0.contains_key(q));
                        }
                    }
                    assert forall|q: u64| k < q < k + l implies !gap_start(m0, off as int, end as int, q as int) by {
                        assert(covers(m0, k, q as int));
                    }
                    assert forall|q: u64| tmp < q < k implies !gap_start(m0, off as int, end as int, q as int) by {
                        assert(!covered(m0, q - 1));
                    }
                    assert(n.dom() =~= Set::new(
                        |q: u64|
                            m0.contains_key(q) || (q < k + l && (q == off || gap_start(
                                m0,
                                off as int,
                                end as int,
                                q as int,
                            ))),
                    ));
                }
                tmp = k + l;
            } else {
                proof {
                    let n = self.used@;
                    assert forall|q: u64| tmp < q < end implies !gap_start(m0, off as int, end as int, q as int) by {
                        assert(!covered(m0, q - 1));
                    }
                    assert(n.dom() =~= Set::new(
                        |q: u64|
                            m0.contains_key(q) || (q < end && (q == off || gap_start(
                                m0,
                                off as int,
                                end as int,
                                q as int,
                            ))),
                    ));
                }
                tmp = end;
            }
        }
        proof {
            assert(self.used@.dom() =~= Set::new(
                |q: u64| m0.contains_key(q) || q == off || gap_start(m0, off as int, end as int, q as int),
            ));
        }
    }

    /// Folds the acknowledged entries that follow the acknowledged entry at 0
    /// contiguously into it.
    fn coalesce_acked_from_zero(&mut self)
        requires
            sound(old(self).used@),
        ensures
            sound(final(self).used@),
            prefix_coalesced(final(self).used@),
            final(self).cached == old(self).cached,
            final(self).used@.dom() == Set::new(
                |q: u64|
                    old(self).used@.contains_key(q) && !(0 < q && forall|y: int|
                        0 <= y <= q ==> state_at(old(self).used@, y) == Some(RangeState::Acked)),
            ),
            forall|x: int| state_at(final(self).used@, x) == state_at(old(self).used@, x),
    {
        let ghost m0 = self.used@;
        if let Some((len0, RangeState::Acked)) = self.used.get(0) {
            let mut len_from_zero: u64 = len0;
            proof {
                assert(self.used@.dom() =~= Set::new(
                    |q: u64| m0.contains_key(q) && !(0 < q && q < len_from_zero),
                )) by {
                    assert forall|q: u64| 0 < q && q < len_from_zero implies !m0.contains_key(q) by {
                        if m0.contains_key(q) {
                            assert(m0.contains_key(0) && m0.contains_key(q));
                        }
                    }
                }
            }
            loop
                invariant
                    sound(self.used@),
                    m0 == old(self).used@,
                    self.cached == old(self).cached,
                    self.used@.contains_key(0),
                    self.used@[0] == (len_from_zero, RangeState::Acked),
                    self.used@.dom() == Set::new(
                        |q: u64| m0.contains_key(q) && !(0 < q && q < len_from_zero),
                    ),
                    forall|x: int| state_at(self.used@, x) == state_at(m0, x),
                ensures
                    sound(self.used@),
                    m0 == old(self).used@,
                    self.cached == old(self).cached,
                    self.used@.contains_key(0),
                    self.used@[0] == (len_from_zero, RangeState::Acked),
                    self.used@.dom() == Set::new(
                        |q: u64| m0.contains_key(q) && !(0 < q && q < len_from_zero),
                    ),
                    forall|x: int| state_at(self.used@, x) == state_at(m0, x),
                    !(self.used@.contains_key(len_from_zero) && self.used@[len_from_zero].1
                        == RangeState::Acked),
                decreases u64::MAX - len_from_zero,
            {
                match self.used.get(len_from_zero) {
                    Some((next_len, RangeState::Acked)) => {
                        let ghost cur = self.used@;
                        proof {
                            lemma_fold_next(cur);
                        }
                        self.used.insert(0, (len_from_zero + next_len, RangeState::Acked));
                        self.used.remove(len_from_zero);
                        proof {
                            let n = self.used@;
                            assert forall|q: u64|
                                len_from_zero < q && q < len_from_zero + next_len implies !m0.contains_key(q) by {
                                if m0.contains_key(q) {
                                    assert(cur.contains_key(q));
                                    assert(cur.contains_key(len_from_zero) && cur.contains_key(q));
                                }
                            }
                            assert(n.dom() =~= Set::new(
                                |q: u64|
                                    m0.contains_key(q) && !(0 < q && q < len_from_zero + next_len),
                            ));
                        }
                        len_from_zero = len_from_zero + next_len;
                    },
                    _ => {
                        break ;
                    },
                }
            }
            proof {
                let n = self.used@;
                let target = Set::new(
                    |q: u64|
                        m0.contains_key(q) && !(0 < q && forall|y: int|
                            0 <= y <= q ==> state_at(m0, y) == Some(RangeState::Acked)),
                );
                assert forall|q: u64| #[trigger] n.contains_key(q) implies target.contains(q) by {
                    if 0 < q && forall|y: int|
                        0 <= y <= q ==> state_at(m0, y) == Some(RangeState::Acked) {
                        let x = len_from_zero as int;
                        assert(!(0 < q && q < len_from_zero));
                        assert(0 <= x <= q);
                        assert(state_at(m0, x) == Some(RangeState::Acked));
                        assert(state_at(n, x) == state_at(m0, x));
                        let j = choose|j: u64| covers(n, j, x);
                        assert(covers(n, j, x));
                        lemma_covers_state(n, j, x);
                        assert(j == len_from_zero);
                    }
                }
                assert forall|q: u64| target.contains(q) implies #[trigger] n.contains_key(q) by {
                    if 0 < q && q < len_from_zero {
                        assert forall|y: int| 0 <= y <= q implies state_at(m0, y) == Some(
                            RangeState::Acked,
                        ) by {
                            assert(covers(n, 0, y));
                            lemma_covers_state(n, 0, y);
                            assert(state_at(n, y) == state_at(m0, y));
                        }
                    }
                }
                assert(n.dom() =~= target);
            }
        } else {
            proof {
                if state_at(m0, 0) == Some(RangeState::Acked) {
                    let j = choose|j: u64| covers(m0, j, 0);
                    assert(covers(m0, j, 0));
                    lemma_covers_state(m0, j, 0);
                }
                assert(state_at(m0, 0) != Some(RangeState::Acked));
                assert(self.used@.dom() =~= Set::new(
                    |q: u64|
                        m0.contains_key(q) && !(0 < q && forall|y: int|
                            0 <= y <= q ==> state_at(m0, y) == Some(RangeState::Acked)),
                ));
            }
        }
    }

    /// Marks `[off, off + len)` as `state`. Acknowledged bytes stay
    /// acknowledged; the acknowledged prefix is folded into one entry at 0.
    pub fn mark_range(&mut self, off: u64, len: usize, state: RangeState)
        requires
            old(self).inv(),
            off + len <= u64::MAX,
        ensures
            final(self).inv(),
            len == 0 ==> final(self)@ == old(self)@,
            len > 0 ==> mark_result(old(self)@, off as int, off + len, state, final(self)@),
    {
        if len == 0 {
            return ;
        }
        self.cached = None;
        let end = off + len as u64;
        let ghost m = self.used@;
        self.chunk_range_on_edges(off, end);
        let ghost m2 = self.used@;
        self.write_chunks(off, end, state);
        let ghost m3 = self.used@;
        self.coalesce_acked_from_zero();
        proof {
            let m4 = self.used@;
            assert forall|x: int|
                marked_state(m2, off as int, end as int, state, x) == marked_state(
                    m,
                    off as int,
                    end as int,
                    state,
                    x,
                ) by {
                assert(state_at(m2, x) == state_at(m, x));
            }
            assert forall|x: int| #![auto] covered(m2, x) == covered(m, x) by {
                assert(state_at(m2, x) == state_at(m, x));
            }
            assert forall|x: int| state_at(m3, x) == marked_state(m, off as int, end as int, state, x) by {
                assert(state_at(m3, x) == marked_state(m2, off as int, end as int, state, x));
            }
            assert forall|q: u64| #![auto]
                gap_start(m2, off as int, end as int, q as int) == gap_start(
                    m,
                    off as int,
                    end as int,
                    q as int,
                ) by {
                assert(covered(m2, q as int) == covered(m, q as int));
                assert(covered(m2, q - 1) == covered(m, q - 1));
            }
            assert(m3.dom() =~= Set::new(|q: u64| chunk_key(m, off as int, end as int, q)));
            assert forall|q: u64| #![auto]
                (0 < q && forall|y: int|
                    0 <= y <= q ==> state_at(m3, y) == Some(RangeState::Acked)) == in_marked_prefix(
                    m,
                    off as int,
                    end as int,
                    state,
                    q as int,
                ) by {
                if forall|y: int| 0 <= y <= q ==> state_at(m3, y) == Some(RangeState::Acked) {
                    assert forall|y: int| 0 <= y <= q implies marked_state(
                        m,
                        off as int,
                        end as int,
                        state,
                        y,
                    ) == Some(RangeState::Acked) by {
                        assert(state_at(m3, y) == marked_state(m, off as int, end as int, state, y));
                    }
                }
                if in_marked_prefix(m, off as int, end as int, state, q as int) {
                    assert forall|y: int| 0 <= y <= q implies state_at(m3, y) == Some(
                        RangeState::Acked,
                    ) by {
                        assert(state_at(m3, y) == marked_state(m, off as int, end as int, state, y));
                    }
                }
            }
            assert(m4.dom() =~= mark_keys(m, off as int, end as int, state));
        }
    }

    /// Unmarks the sent bytes of `[off, end)`, leaving acknowledged ones.
    fn unmark_between(&mut self, off: u64, end: u64)
        requires
            well_formed(old(self).used@),
            off < end,
        ensures
            final(self).used@ == unmark_map(old(self).used@, off as int, end as int),
            final(self).cached == old(self).cached,
    {
        let ghost m0 = self.used@;
        let mut to_add: Option<u64> = None;
        // The entry starting before `off` keeps only what lies before `off`.
        let prev = self.used.last_before(off);
        if let Some((k, (l, s))) = prev {
            assert(m0.contains_key(k));
            if s == RangeState::Sent && k + l > off {
                self.used.insert(k, (off - k, RangeState::Sent));
                if k + l > end {
                    to_add = Some(k + l - end);
                    assert(straddles(m0, end as int, k));
                }
            }
        }
        let ghost m1 = self.used@;
        proof {
            assert(m1.dom() =~= m0.dom());
            assert forall|q: u64| #[trigger] m1.contains_key(q) implies m1[q] == trimmed(
                m0,
                off as int,
                q,
            ) by {
                if let Some((k, _)) = prev {
                    if q < k && q < off && off < q + m0[q].0 {
                        assert(m0.contains_key(q) && m0.contains_key(k));
                    }
                }
            }
            assert forall|q: u64| to_add.is_none() && #[trigger] straddles(m0, end as int, q)
                implies off <= q by {
                if q < off {
                    let (k, _) = prev.unwrap();
                    if q < k {
                        assert(m0.contains_key(q) && m0.contains_key(k));
                    }
                }
            }
            assert(self.used@ =~= m1.restrict(
                Set::new(
                    |q: u64|
                        !(off <= q && q < off && q < end && m0[q].1 == RangeState::Sent),
                ),
            ));
        }
        let mut cur: u64 = off;
        while cur < end
            invariant
                off <= cur,
                well_formed(m0),
                m0 == old(self).used@,
                self.cached == old(self).cached,
                m1.dom() == m0.dom(),
                forall|q: u64| #[trigger] m1.contains_key(q) ==> m1[q] == trimmed(m0, off as int, q),
                self.used@ == m1.restrict(
                    Set::new(
                        |q: u64|
                            !(off <= q && q < cur && q < end && m0[q].1 == RangeState::Sent),
                    ),
                ),
                to_add.is_some() ==> exists|q: u64|
                    #[trigger] straddles(m0, end as int, q) && to_add.unwrap() == q + m0[q].0 - end,
                to_add.is_none() ==> forall|q: u64| #[trigger]
                    straddles(m0, end as int, q) ==> cur <= q,
            decreases u64::MAX - cur,
        {
            let ghost before = self.used@;
            match self.used.first_from(cur) {
                Some((k, (l, s))) => {
                    if k < end {
                        assert(m0.contains_key(k) && m1[k] == m0[k]);
                        if s == RangeState::Sent {
                            if k + l > end {
                                to_add = Some(k + l - end);
                                assert(straddles(m0, end as int, k));
                            }
                            self.used.remove(k);
                        }
                        proof {
                            assert forall|q: u64| k < q < k + l implies !m0.contains_key(q) by {
                                if m0.contains_key(q) {
                                    assert(m0.contains_key(k) && m0.contains_key(q));
                                }
                            }
                            assert forall|q: u64| cur <= q < k implies !m0.contains_key(q) by {
                                if m0.contains_key(q) {
                                    assert(before.contains_key(q));
                                }
                            }
                            assert(self.used@ =~= m1.restrict(
                                Set::new(
                                    |q: u64|
                                        !(off <= q && q < k + l && q < end && m0[q].1
                                            == RangeState::Sent),
                                ),
                            ));
                        }
                        cur = k + l;
                    } else {
                        proof {
                            assert forall|q: u64| cur <= q < end implies !m0.contains_key(q) by {
                                if m0.contains_key(q) {
                                    assert(before.contains_key(q));
                                }
                            }
                            assert(self.used@ =~= m1.restrict(
                                Set::new(
                                    |q: u64|
                                        !(off <= q && q < end && q < end && m0[q].1
                                            == RangeState::Sent),
                                ),
                            ));
                        }
                        cur = end;
                    }
                },
                None => {
                    proof {
                        assert forall|q: u64| cur <= q < end implies !m0.contains_key(q) by {
                            if m0.contains_key(q) {
                                assert(before.contains_key(q));
                            }
                        }
                        assert(self.used@ =~= m1.restrict(
                            Set::new(
                                |q: u64|
                                    !(off <= q && q < end && q < end && m0[q].1
                                        == RangeState::Sent),
                            ),
                        ));
                    }
                    cur = end;
                },
            }
        }
        let ghost rest = self.used@;
        if let Some(r) = to_add {
            self.used.insert(end, (r, RangeState::Sent));
        }
        proof {
            let base = Map::new(
                |q: u64|
                    m0.contains_key(q) && (m0[q].1 == RangeState::Acked || q < off || end <= q),
                |q: u64| trimmed(m0, off as int, q),
            );
            assert(rest =~= base);
            if to_add.is_some() {
                let q = choose|q: u64|
                    #[trigger] straddles(m0, end as int, q) && to_add.unwrap() == q + m0[q].0 - end;
                let sq = choose|q: u64| straddles(m0, end as int, q);
                assert(straddles(m0, end as int, sq));
                assert(covers(m0, q, end as int) && covers(m0, sq, end as int));
                lemma_covers_state(m0, q, end as int);
            } else {
                assert(!exists|q: u64| straddles(m0, end as int, q));
            }
        }
    }

    /// Unmarks the sent bytes of `[off, off + len)`. Acknowledged bytes stay
    /// acknowledged.
    pub fn unmark_range(&mut self, off: u64, len: usize)
        requires
            old(self).inv(),
            off + len <= u64::MAX,
        ensures
            final(self).inv(),
            len == 0 ==> final(self)@ == old(self)@,
            len > 0 ==> unmark_result(old(self)@, off as int, off + len, final(self)@),
    {
        if len == 0 {
            return ;
        }
        self.cached = None;
        let end = off + len as u64;
        self.unmark_between(off, end);
        proof {
            lemma_unmark_map(old(self).used@, off as int, end as int);
        }
    }

    /// Unmarks every sent range; acknowledged ranges stay. The same as
    /// unmarking `[0, highest_offset())`.
    pub fn unmark_sent(&mut self)
        requires
            old(self).inv(),
        ensures
            final(self).inv(),
            final(self)@ == acked_entries(old(self)@),
    {
        let ghost m = self.used@;
        let h = self.highest_offset();
        if h > 0 {
            self.cached = None;
            self.unmark_between(0, h);
            proof {
                lemma_unmark_map(m, 0, h as int);
                assert forall|q: u64| !#[trigger] straddles(m, h as int, q) by {}
                assert(self.used@ =~= acked_entries(m));
            }
        } else {
            proof {
                assert(m.dom() =~= Set::<u64>::empty());
                assert(m =~= acked_entries(m));
            }
        }
    }

    /// The entries in ascending order of offset, as `(offset, length, state)`.
    pub fn entries(&self) -> (r: Vec<(u64, u64, RangeState)>)
        requires
            self.inv(),
        ensures
            forall|i: int|
                0 <= i < r@.len() ==> self@.contains_key(#[trigger] r@[i].0) && self@[r@[i].0] == (
                    r@[i].1,
                    r@[i].2,
                ),
            forall|i: int, j: int| 0 <= i < j < r@.len() ==> r@[i].0 < r@[j].0,
            forall|k: u64|
                self@.contains_key(k) ==> exists|i: int| 0 <= i < r@.len() && #[trigger] r@[i].0 == k,
    {
        let ghost m = self.used@;
        let mut v: Vec<(u64, u64, RangeState)> = Vec::new();
        let mut cur: u64 = 0;
        loop
            invariant
                m == self.used@,
                well_formed(m),
                forall|i: int|
                    0 <= i < v@.len() ==> m.contains_key(#[trigger] v@[i].0) && m[v@[i].0] == (
                        v@[i].1,
                        v@[i].2,
                    ) && v@[i].0 < cur,
                forall|i: int, j: int| 0 <= i < j < v@.len() ==> v@[i].0 < v@[j].0,
                forall|k: u64|
                    m.contains_key(k) && k < cur ==> exists|i: int|
                        0 <= i < v@.len() && #[trigger] v@[i].0 == k,
            decreases u64::MAX - cur,
        {
            match self.used.first_from(cur) {
                None => {
                    return v;
                },
                Some((k, (l, s))) => {
                    assert(m.contains_key(k));
                    let ghost old_v = v@;
                    v.push((k, l, s));
                    proof {
                        assert(v@[old_v.len() as int].0 == k);
                        assert forall|q: u64| m.contains_key(q) && q < k + 1 implies exists|i: int|
                            0 <= i < v@.len() && #[trigger] v@[i].0 == q by {
                            if q < cur {
                                let i = choose|i: int| 0 <= i < old_v.len() && #[trigger] old_v[i].0 == q;
                                assert(v@[i].0 == q);
                            }
                        }
                    }
                    cur = k + 1;
                },
            }
        }
    }
}

impl Default for RangeTracker {
    fn default() -> (r: RangeTracker)
        ensures
            r.inv(),
            r@ == Map::<u64, Extent>::empty(),
    {
        RangeTracker::new()
    }
}

} // verus!
