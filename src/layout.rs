use vstd::prelude::*;
use crate::model::{lemma_positions_cover, lists_position, Aircraft};

verus! {

/// Aircraft `a` is drawn before aircraft `b`: earlier ready time first,
/// ties broken by position.
pub open spec fn drawn_before(ac: Seq<Aircraft>, a: int, b: int) -> bool {
    ac[a].ready_time.0 < ac[b].ready_time.0 || (ac[a].ready_time.0 == ac[b].ready_time.0 && a < b)
}

/// `idx` lists every position of `ac` once, in drawing order.
pub open spec fn is_drawing_order(ac: Seq<Aircraft>, idx: Seq<usize>) -> bool {
    &&& idx.len() == ac.len()
    &&& forall|p: int| 0 <= p < idx.len() ==> #[trigger] idx[p] < ac.len()
    &&& forall|p: int, q: int|
        0 <= p < q < idx.len() ==> drawn_before(ac, #[trigger] idx[p] as int, #[trigger] idx[q] as int)
}

/// The first row, from `r` on, whose last interval ends no later than
/// `start`; `rows.len()` when there is none.
pub open spec fn first_free_row(rows: Seq<i32>, start: i32, r: int) -> int
    decreases rows.len() - r,
{
    if r < 0 || r >= rows.len() {
        rows.len() as int
    } else if start >= rows[r] {
        r
    } else {
        first_free_row(rows, start, r + 1)
    }
}

/// Row ends and row assignment after placing the first `k` aircraft of
/// `idx`, each in the first row free at its ready time, else in a new row
/// that its hard window's end closes.
pub open spec fn packed(ac: Seq<Aircraft>, idx: Seq<usize>, k: nat) -> (Seq<i32>, Seq<usize>)
    decreases k,
{
    if k == 0 || k > idx.len() {
        (Seq::empty(), Seq::new(ac.len(), |i: int| 0usize))
    } else {
        let (rows, assigned) = packed(ac, idx, (k - 1) as nat);
        let a = ac[idx[k - 1] as int];
        let r = first_free_row(rows, a.ready_time.0, 0);
        let new_rows = if r < rows.len() {
            rows.update(r, a.time_window.1.0)
        } else {
            rows.push(a.time_window.1.0)
        };
        (new_rows, assigned.update(idx[k - 1] as int, r as usize))
    }
}

/// `rows` is the packing of `ac` in some drawing order.
pub open spec fn is_row_packing(ac: Seq<Aircraft>, rows: Seq<usize>) -> bool {
    exists|idx: Seq<usize>| is_drawing_order(ac, idx) && #[trigger] packed(ac, idx, ac.len()).1 == rows
}

/// There is one drawing order for a list of aircraft, so a row packing is
/// determined by the aircraft alone.
pub proof fn lemma_drawing_order_unique(ac: Seq<Aircraft>, idx1: Seq<usize>, idx2: Seq<usize>)
    requires
        is_drawing_order(ac, idx1),
        is_drawing_order(ac, idx2),
    ensures
        idx1 == idx2,
{
    let n = ac.len() as int;
    lemma_drawing_order_distinct(ac, idx1);
    lemma_drawing_order_distinct(ac, idx2);
    lemma_positions_cover(idx1);
    lemma_positions_cover(idx2);
    if n > 0 {
        lemma_drawing_orders_agree(ac, idx1, idx2, n - 1);
    }
    assert(idx1 =~= idx2);
}

/// Two drawing orders agree on every position up to `p`.
proof fn lemma_drawing_orders_agree(ac: Seq<Aircraft>, idx1: Seq<usize>, idx2: Seq<usize>, p: int)
    requires
        is_drawing_order(ac, idx1),
        is_drawing_order(ac, idx2),
        idx1.no_duplicates(),
        idx2.no_duplicates(),
        forall|i: int| 0 <= i < ac.len() ==> #[trigger] lists_position(idx1, i),
        forall|i: int| 0 <= i < ac.len() ==> #[trigger] lists_position(idx2, i),
        0 <= p < ac.len(),
    ensures
        forall|r: int| 0 <= r <= p ==> #[trigger] idx1[r] == idx2[r],
    decreases p,
{
    if p > 0 {
        lemma_drawing_orders_agree(ac, idx1, idx2, p - 1);
    }
    let a = idx1[p] as int;
    let b = idx2[p] as int;
    if a != b {
        assert(lists_position(idx2, a));
        let q = choose|q: int| 0 <= q < idx2.len() && #[trigger] idx2[q] == a;
        assert(lists_position(idx1, b));
        let q1 = choose|q: int| 0 <= q < idx1.len() && #[trigger] idx1[q] == b;
        if q < p {
            assert(idx1[q] == idx2[q]);
        }
        if q1 < p {
            assert(idx1[q1] == idx2[q1]);
        }
        assert(drawn_before(ac, idx2[p] as int, idx2[q] as int));
        assert(drawn_before(ac, idx1[p] as int, idx1[q1] as int));
    }
}

proof fn lemma_drawing_order_distinct(ac: Seq<Aircraft>, idx: Seq<usize>)
    requires
        is_drawing_order(ac, idx),
    ensures
        idx.no_duplicates(),
{
    assert forall|p: int, q: int| 0 <= p < idx.len() && 0 <= q < idx.len() && p != q implies idx[p] != idx[q] by {
        if p < q {
            assert(drawn_before(ac, idx[p] as int, idx[q] as int));
        } else {
            assert(drawn_before(ac, idx[q] as int, idx[p] as int));
        }
    }
}

/// Positions of `ac` in drawing order.
fn drawing_order(aircraft: &[Aircraft]) -> (r: Vec<usize>)
    ensures
        is_drawing_order(aircraft@, r@),
{
    let ghost ac = aircraft@;
    let mut idx: Vec<usize> = Vec::new();
    let mut i: usize = 0;
    while i < aircraft.len()
        invariant
            ac == aircraft@,
            i <= ac.len(),
            idx@.len() == i,
            forall|p: int| 0 <= p < idx@.len() ==> #[trigger] idx@[p] < i,
            forall|p: int, q: int|
                0 <= p < q < idx@.len() ==> drawn_before(ac, #[trigger] idx@[p] as int, #[trigger] idx@[q] as int),
        decreases ac.len() - i,
    {
        let ready = aircraft[i].ready_time.0;
        let mut pos: usize = 0;
        while pos < idx.len() && aircraft[idx[pos]].ready_time.0 <= ready
            invariant
                ac == aircraft@,
                i < ac.len(),
                pos <= idx@.len(),
                ready == ac[i as int].ready_time.0,
                forall|p: int| 0 <= p < idx@.len() ==> #[trigger] idx@[p] < i,
                forall|p: int| 0 <= p < pos ==> drawn_before(ac, #[trigger] idx@[p] as int, i as int),
            decreases idx@.len() - pos,
        {
            pos = pos + 1;
        }
        let ghost before = idx@;
        proof {
            assert forall|p: int| pos <= p < before.len() implies drawn_before(ac, i as int, #[trigger] before[p] as int) by {
                if pos < before.len() {
                    if p > pos {
                        assert(drawn_before(ac, before[pos as int] as int, before[p] as int));
                    }
                }
            }
        }
        idx.insert(pos, i);
        proof {
            assert forall|p: int, q: int|
                0 <= p < q < idx@.len() implies drawn_before(ac, #[trigger] idx@[p] as int, #[trigger] idx@[q] as int) by {
                if q < pos {
                    assert(idx@[p] == before[p] && idx@[q] == before[q]);
                } else if q == pos {
                    assert(idx@[p] == before[p]);
                } else if p == pos {
                    assert(idx@[q] == before[q - 1]);
                } else if p < pos {
                    assert(idx@[p] == before[p] && idx@[q] == before[q - 1]);
                    assert(drawn_before(ac, before[p] as int, i as int));
                } else {
                    assert(idx@[p] == before[p - 1] && idx@[q] == before[q - 1]);
                }
            }
        }
        i = i + 1;
    }
    idx
}

/// The row each aircraft is drawn on, so that no two intervals from ready
/// time to hard-window end share a row while they overlap: aircraft are
/// taken by ready time (ties by position) and each is put on the first row
/// whose last interval has ended by its ready time, or on a new row.
pub fn assign_rows_from_schedule(aircraft: &[Aircraft]) -> (r: Vec<usize>)
    ensures
        is_row_packing(aircraft@, r@),
{
    let ghost ac = aircraft@;
    let idx = drawing_order(aircraft);
    let mut rows: Vec<i32> = Vec::new();
    let mut result: Vec<usize> = Vec::new();
    let mut i: usize = 0;
    while i < aircraft.len()
        invariant
            ac == aircraft@,
            i <= ac.len(),
            result@.len() == i,
            forall|m: int| 0 <= m < i ==> #[trigger] result@[m] == 0usize,
        decreases ac.len() - i,
    {
        result.push(0);
        i = i + 1;
    }
    proof {
        assert(result@ =~= packed(ac, idx@, 0).1);
    }
    let mut k: usize = 0;
    while k < idx.len()
        invariant
            ac == aircraft@,
            is_drawing_order(ac, idx@),
            k <= idx@.len(),
            rows@.len() <= k,
            result@.len() == ac.len(),
            (rows@, result@) == packed(ac, idx@, k as nat),
        decreases idx@.len() - k,
    {
        let a = aircraft[idx[k]];
        let start = a.ready_time.0;
        let end = a.time_window.1.0;
        let mut r: usize = 0;
        while r < rows.len() && !(start >= rows[r])
            invariant
                r <= rows@.len(),
                first_free_row(rows@, start, 0) == first_free_row(rows@, start, r as int),
            decreases rows@.len() - r,
        {
            r = r + 1;
        }
        proof {
            assert(first_free_row(rows@, start, r as int) == r);
        }
        if r < rows.len() {
            rows.set(r, end);
        } else {
            rows.push(end);
        }
        result.set(idx[k], r);
        k = k + 1;
    }
    proof {
        assert(is_drawing_order(ac, idx@) && packed(ac, idx@, ac.len()).1 == result@);
    }
    result
}

} // verus!
