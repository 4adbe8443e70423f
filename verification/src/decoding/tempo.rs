//! From declared `beat=value` pairs to events on rows.
//!
//! A declaration gives positions in beats; the library places everything on
//! rows, 48 to the beat. The tempo timeline holds one event per row, in the
//! order of the rows: where two pairs name the same beat the later one counts.
//! Where no pair names beat 0, the timeline gets an event at row 0 with a
//! tempo of 120 beats per minute.

use vstd::prelude::*;
use crate::timing::{has_origin, rows_increasing, timeline_wf, DEFAULT_TEMPO, ROWS_PER_BEAT};
use crate::utils::pairs_in_range;

verus! {

/// The value that `pairs` declare at `position`: that of the last pair placed
/// there.
pub open spec fn declared_at(pairs: Seq<(i64, i64)>, position: int) -> Option<i64>
    decreases pairs.len(),
{
    if pairs.len() == 0 {
        None
    } else if pairs.last().0 == position {
        Some(pairs.last().1)
    } else {
        declared_at(pairs.drop_last(), position)
    }
}

/// The tempo that `pairs` declare for `row`: what they declare at the beat
/// that lies on that row.
pub open spec fn declared_on_row(pairs: Seq<(i64, i64)>, row: int) -> Option<i64> {
    if row % 48 == 0 {
        declared_at(pairs, row / 48)
    } else {
        None
    }
}

/// The tempo that the timeline of `pairs` holds at `row`: the declared one,
/// or 120 beats per minute at row 0 where none is declared there.
pub open spec fn expected_tempo(pairs: Seq<(i64, i64)>, row: int) -> Option<i64> {
    match declared_on_row(pairs, row) {
        Some(bpm) => Some(bpm),
        None => if row == 0 {
            Some(DEFAULT_TEMPO)
        } else {
            None
        },
    }
}

/// `tl` holds, in the order of the rows, the tempos that `pairs` declare, and
/// no other event.
pub open spec fn holds_declared(tl: Seq<(i64, i64)>, pairs: Seq<(i64, i64)>) -> bool {
    &&& rows_increasing(tl)
    &&& forall|k: int|
        0 <= k < tl.len() ==> declared_on_row(pairs, (#[trigger] tl[k]).0 as int) == Some(tl[k].1)
    &&& forall|row: int| #[trigger]
        declared_on_row(pairs, row) is Some ==> exists|k: int|
            0 <= k < tl.len() && (#[trigger] tl[k]).0 == row
}

/// `tl` is the tempo timeline of `pairs`: in the order of the rows, one event
/// for each row at which a tempo is expected, with that tempo.
pub open spec fn is_timeline_of(tl: Seq<(i64, i64)>, pairs: Seq<(i64, i64)>) -> bool {
    &&& rows_increasing(tl)
    &&& forall|k: int|
        0 <= k < tl.len() ==> expected_tempo(pairs, (#[trigger] tl[k]).0 as int) == Some(tl[k].1)
    &&& forall|row: int| #[trigger]
        expected_tempo(pairs, row) is Some ==> exists|k: int|
            0 <= k < tl.len() && (#[trigger] tl[k]).0 == row
}

/// The tempo timeline of `pairs`. There is exactly one.
pub open spec fn timeline_of(pairs: Seq<(i64, i64)>) -> Seq<(i64, i64)> {
    choose|tl: Seq<(i64, i64)>| is_timeline_of(tl, pairs)
}

/// A pair with its position moved from beats to rows.
pub open spec fn on_rows(pair: (i64, i64)) -> (i64, i64) {
    ((pair.0 * 48) as i64, pair.1)
}

/// The first index at or after `i` whose row is beyond `row`, or the length.
pub open spec fn upper_bound(s: Seq<(i64, i64)>, row: int, i: int) -> int
    decreases s.len() - i,
{
    if i < 0 || i >= s.len() || s[i].0 > row {
        i
    } else {
        upper_bound(s, row, i + 1)
    }
}

/// `s` with `x` put in behind the entries that are not beyond it.
pub open spec fn placed(s: Seq<(i64, i64)>, x: (i64, i64)) -> Seq<(i64, i64)> {
    s.insert(upper_bound(s, x.0 as int, 0), x)
}

/// The first `n` of `pairs`, moved to rows and put in the order of their rows;
/// pairs on the same row keep the order in which they were declared.
pub open spec fn ordered_on_rows(pairs: Seq<(i64, i64)>, n: int) -> Seq<(i64, i64)>
    decreases n,
{
    if n <= 0 {
        seq![]
    } else {
        placed(ordered_on_rows(pairs, n - 1), on_rows(pairs[n - 1]))
    }
}

/// Whether an entry lies on `row`.
pub open spec fn on_row(row: int) -> spec_fn((i64, i64)) -> bool {
    |entry: (i64, i64)| entry.0 == row
}

/// The first `n` of `pairs`, moved to rows, in the order in which they were
/// declared.
pub open spec fn moved_to_rows(pairs: Seq<(i64, i64)>, n: int) -> Seq<(i64, i64)>
    decreases n,
{
    if n <= 0 {
        seq![]
    } else {
        moved_to_rows(pairs, n - 1).push(on_rows(pairs[n - 1]))
    }
}

/// `ordered` holds the first `n` of `pairs`, moved to rows, each exactly once:
/// its rows never decrease, and the entries that it holds on any one row are
/// the pairs declared for that row, in the order in which they were declared.
pub open spec fn is_ordering_of(ordered: Seq<(i64, i64)>, pairs: Seq<(i64, i64)>, n: int) -> bool {
    &&& ordered.len() == n
    &&& rows_ordered(ordered)
    &&& forall|row: int| #[trigger]
        ordered.filter(on_row(row)) == moved_to_rows(pairs, n).filter(on_row(row))
}

/// Rows never decrease along `s`.
pub open spec fn rows_ordered(s: Seq<(i64, i64)>) -> bool {
    forall|i: int, j: int| 0 <= i <= j < s.len() ==> s[i].0 <= s[j].0
}

/// What `upper_bound` finds: the entries before it are not beyond `row`, the
/// one at it is.
pub proof fn lemma_upper_bound(s: Seq<(i64, i64)>, row: int, i: int)
    requires
        0 <= i <= s.len(),
    ensures
        i <= upper_bound(s, row, i) <= s.len(),
        forall|k: int| i <= k < upper_bound(s, row, i) ==> s[k].0 <= row,
        upper_bound(s, row, i) < s.len() ==> s[upper_bound(s, row, i)].0 > row,
    decreases s.len() - i,
{
    if i < s.len() && s[i].0 <= row {
        lemma_upper_bound(s, row, i + 1);
    }
}

/// Putting an entry in place keeps the rows in order.
pub proof fn lemma_placed_ordered(s: Seq<(i64, i64)>, x: (i64, i64))
    requires
        rows_ordered(s),
    ensures
        rows_ordered(placed(s, x)),
        placed(s, x).len() == s.len() + 1,
{
    lemma_upper_bound(s, x.0 as int, 0);
    let p = upper_bound(s, x.0 as int, 0);
    let t = placed(s, x);
    assert forall|i: int, j: int| 0 <= i <= j < t.len() implies t[i].0 <= t[j].0 by {
        if i < p && j > p {
            assert(s[i].0 <= s[j - 1].0);
        } else if i < p && j < p {
            assert(s[i].0 <= s[j].0);
        } else if i > p && j > p {
            assert(s[i - 1].0 <= s[j - 1].0);
        } else if i == p && j > p {
            assert(s[p].0 <= s[j - 1].0);
        }
    }
}

/// The rows of `ordered_on_rows` never decrease, and no pair is lost.
pub proof fn lemma_ordered_on_rows(pairs: Seq<(i64, i64)>, n: int)
    requires
        0 <= n <= pairs.len(),
    ensures
        rows_ordered(ordered_on_rows(pairs, n)),
        ordered_on_rows(pairs, n).len() == n,
    decreases n,
{
    if n > 0 {
        lemma_ordered_on_rows(pairs, n - 1);
        lemma_placed_ordered(ordered_on_rows(pairs, n - 1), on_rows(pairs[n - 1]));
    }
}

/// `ordered_on_rows` holds the pairs moved to rows, each exactly once, rows in
/// order and pairs on the same row in the order in which they were declared.
pub proof fn lemma_ordering(pairs: Seq<(i64, i64)>, n: int)
    requires
        0 <= n <= pairs.len(),
    ensures
        is_ordering_of(ordered_on_rows(pairs, n), pairs, n),
    decreases n,
{
    lemma_ordered_on_rows(pairs, n);
    if n > 0 {
        lemma_ordering(pairs, n - 1);
        lemma_ordered_on_rows(pairs, n - 1);
    }
    assert forall|row: int| #[trigger]
        ordered_on_rows(pairs, n).filter(on_row(row)) == moved_to_rows(pairs, n).filter(
            on_row(row),
        ) by {
        lemma_ordering_on_row(pairs, n, row);
    }
}

/// `lemma_ordering`, for the entries on one row.
proof fn lemma_ordering_on_row(pairs: Seq<(i64, i64)>, n: int, row: int)
    requires
        0 <= n <= pairs.len(),
    ensures
        ordered_on_rows(pairs, n).filter(on_row(row)) == moved_to_rows(pairs, n).filter(on_row(row)),
    decreases n,
{
    let pred = on_row(row);
    if n <= 0 {
        assert(ordered_on_rows(pairs, n) =~= moved_to_rows(pairs, n));
    } else {
        lemma_ordering_on_row(pairs, n - 1, row);
        lemma_ordered_on_rows(pairs, n - 1);
        let s = ordered_on_rows(pairs, n - 1);
        let x = on_rows(pairs[n - 1]);
        let p = upper_bound(s, x.0 as int, 0);
        lemma_upper_bound(s, x.0 as int, 0);
        let head = s.subrange(0, p);
        let tail = s.subrange(p, s.len() as int);
        let declared = moved_to_rows(pairs, n - 1);
        assert(s =~= head + tail);
        assert(placed(s, x) =~= head.push(x) + tail);
        Seq::filter_distributes_over_add(head, tail, pred);
        Seq::filter_distributes_over_add(head.push(x), tail, pred);
        head.lemma_filter_push(x, pred);
        declared.lemma_filter_push(x, pred);
        if pred(x) {
            assert(tail.all(|e: (i64, i64)| !pred(e))) by {
                assert forall|i: int| 0 <= i < tail.len() implies !pred(#[trigger] tail[i]) by {
                    assert(s[p].0 <= s[p + i].0);
                }
            }
            tail.lemma_all_neg_filter_empty(pred);
            assert(tail.filter(pred) =~= Seq::<(i64, i64)>::empty());
            assert(head.filter(pred).push(x) + tail.filter(pred) =~= (head.filter(pred)
                + tail.filter(pred)).push(x));
        }
    }
}

/// What one more pair declares.
pub proof fn lemma_declared_push(pairs: Seq<(i64, i64)>, x: (i64, i64), row: int)
    ensures
        declared_on_row(pairs.push(x), row) == (if row == x.0 * 48 {
            Some(x.1)
        } else {
            declared_on_row(pairs, row)
        }),
{
    assert(pairs.push(x).drop_last() =~= pairs);
    assert(pairs.push(x).last() == x);
}

/// Two timelines of the same pairs have the same rows up to index `k`.
proof fn lemma_timeline_rows_agree(
    a: Seq<(i64, i64)>,
    b: Seq<(i64, i64)>,
    pairs: Seq<(i64, i64)>,
    k: int,
)
    requires
        is_timeline_of(a, pairs),
        is_timeline_of(b, pairs),
        0 <= k < a.len(),
    ensures
        k < b.len(),
        forall|j: int| 0 <= j <= k ==> j < b.len() && a[j].0 == b[j].0,
    decreases k,
{
    if k > 0 {
        lemma_timeline_rows_agree(a, b, pairs, k - 1);
    }
    assert(expected_tempo(pairs, a[k].0 as int) is Some);
    let m = choose|m: int| 0 <= m < b.len() && (#[trigger] b[m]).0 == a[k].0;
    assert(m >= k) by {
        if m < k {
            assert(a[m].0 == b[m].0);
            assert(a[m].0 < a[k].0);
        }
    }
    assert(expected_tempo(pairs, b[k].0 as int) is Some);
    let n = choose|n: int| 0 <= n < a.len() && (#[trigger] a[n].0) == b[k].0;
    assert(n >= k) by {
        if n < k {
            assert(a[n].0 == b[n].0);
            assert(b[n].0 < b[k].0);
        }
    }
    if k < n {
        assert(a[k].0 < a[n].0);
    }
    if k < m {
        assert(b[k].0 < b[m].0);
    }
}

/// The pairs have one tempo timeline only.
pub proof fn lemma_timeline_unique(
    a: Seq<(i64, i64)>,
    b: Seq<(i64, i64)>,
    pairs: Seq<(i64, i64)>,
)
    requires
        is_timeline_of(a, pairs),
        is_timeline_of(b, pairs),
    ensures
        a == b,
{
    if a.len() > 0 {
        lemma_timeline_rows_agree(a, b, pairs, a.len() - 1);
    }
    if b.len() > 0 {
        lemma_timeline_rows_agree(b, a, pairs, b.len() - 1);
    }
    assert(a.len() == b.len());
    assert forall|k: int| 0 <= k < a.len() implies a[k] == b[k] by {
        assert(expected_tempo(pairs, a[k].0 as int) == Some(a[k].1));
        assert(expected_tempo(pairs, b[k].0 as int) == Some(b[k].1));
    }
    assert(a =~= b);
}

/// The tempo timeline of `pairs`, whose positions are in beats.
pub fn build_timeline(pairs: &Vec<(i64, i64)>) -> (tl: Vec<(i64, i64)>)
    requires
        pairs_in_range(pairs@),
    ensures
        tl@ == timeline_of(pairs@),
        is_timeline_of(tl@, pairs@),
        timeline_wf(tl@),
        (forall|i: int| 0 <= i < pairs@.len() ==> (#[trigger] pairs@[i]).0 >= 0) ==> tl@[0].0 == 0,
{
    let mut tl: Vec<(i64, i64)> = Vec::new();
    let mut i: usize = 0;
    while i < pairs.len()
        invariant
            pairs_in_range(pairs@),
            i <= pairs@.len(),
            holds_declared(tl@, pairs@.subrange(0, i as int)),
        decreases pairs.len() - i,
    {
        let pair = pairs[i];
        let row: i64 = pair.0 * ROWS_PER_BEAT;
        let ghost seen = pairs@.subrange(0, i as int);
        let ghost now = pairs@.subrange(0, i + 1);
        let ghost before = tl@;
        proof {
            assert(now =~= seen.push(pair));
            assert forall|r: int|
                declared_on_row(now, r) == (if r == row {
                    Some(pair.1)
                } else {
                    declared_on_row(seen, r)
                }) by {
                lemma_declared_push(seen, pair, r);
            }
        }
        let at = first_row_from(&tl, row);
        if at < tl.len() && tl[at].0 == row {
            tl[at] = (row, pair.1);
            proof {
                assert forall|r: int| #[trigger] declared_on_row(now, r) is Some implies exists|
                    k: int,
                |
                    0 <= k < tl@.len() && (#[trigger] tl@[k]).0 == r by {
                    if r == row {
                        assert(tl@[at as int].0 == r);
                    } else {
                        assert(declared_on_row(seen, r) is Some);
                        let k = choose|k: int| 0 <= k < before.len() && (#[trigger] before[k]).0 == r;
                        assert(tl@[k].0 == r);
                    }
                }
            }
        } else {
            tl.insert(at, (row, pair.1));
            proof {
                assert forall|a: int, b: int| 0 <= a < b < tl@.len() implies tl@[a].0 < tl@[b].0 by {
                    if a < at && b > at {
                        assert(before[a].0 < before[b - 1].0);
                    } else if a > at {
                        assert(before[a - 1].0 < before[b - 1].0);
                    }
                }
                assert forall|k: int| 0 <= k < tl@.len() implies declared_on_row(
                    now,
                    (#[trigger] tl@[k]).0 as int,
                ) == Some(tl@[k].1) by {
                    if k < at {
                        assert(tl@[k] == before[k]);
                    } else if k > at {
                        assert(tl@[k] == before[k - 1]);
                    }
                }
                assert forall|r: int| #[trigger] declared_on_row(now, r) is Some implies exists|
                    k: int,
                |
                    0 <= k < tl@.len() && (#[trigger] tl@[k]).0 == r by {
                    if r == row {
                        assert(tl@[at as int].0 == r);
                    } else {
                        assert(declared_on_row(seen, r) is Some);
                        let k = choose|k: int| 0 <= k < before.len() && (#[trigger] before[k]).0 == r;
                        if k < at {
                            assert(tl@[k].0 == r);
                        } else {
                            assert(tl@[k + 1].0 == r);
                        }
                    }
                }
            }
        }
        i += 1;
    }
    assert(pairs@.subrange(0, pairs@.len() as int) =~= pairs@);
    let ghost declared = tl@;
    let at = first_row_from(&tl, 0);
    if !(at < tl.len() && tl[at].0 == 0) {
        tl.insert(at, (0, DEFAULT_TEMPO));
        proof {
            assert(declared_on_row(pairs@, 0) is None) by {
                if declared_on_row(pairs@, 0) is Some {
                    let k = choose|k: int| 0 <= k < declared.len() && (#[trigger] declared[k]).0 == 0;
                    if k < at {
                        assert(declared[k].0 < 0);
                    }
                }
            }
            assert forall|a: int, b: int| 0 <= a < b < tl@.len() implies tl@[a].0 < tl@[b].0 by {
                if a < at && b > at {
                    assert(declared[a].0 < declared[b - 1].0);
                } else if a > at {
                    assert(declared[a - 1].0 < declared[b - 1].0);
                }
            }
            assert forall|k: int| 0 <= k < tl@.len() implies expected_tempo(
                pairs@,
                (#[trigger] tl@[k]).0 as int,
            ) == Some(tl@[k].1) by {
                if k < at {
                    assert(tl@[k] == declared[k]);
                } else if k > at {
                    assert(tl@[k] == declared[k - 1]);
                }
            }
            assert forall|r: int| #[trigger] expected_tempo(pairs@, r) is Some implies exists|
                k: int,
            |
                0 <= k < tl@.len() && (#[trigger] tl@[k]).0 == r by {
                if r == 0 {
                    assert(tl@[at as int].0 == r);
                } else {
                    assert(declared_on_row(pairs@, r) is Some);
                    let k = choose|k: int| 0 <= k < declared.len() && (#[trigger] declared[k]).0 == r;
                    if k < at {
                        assert(tl@[k].0 == r);
                    } else {
                        assert(tl@[k + 1].0 == r);
                    }
                }
            }
        }
    } else {
        proof {
            assert forall|r: int| #[trigger] expected_tempo(pairs@, r) is Some implies exists|
                k: int,
            |
                0 <= k < tl@.len() && (#[trigger] tl@[k]).0 == r by {
                if r == 0 {
                    assert(tl@[at as int].0 == r);
                } else {
                    assert(declared_on_row(pairs@, r) is Some);
                }
            }
        }
    }
    proof {
        assert(tl@[at as int].0 == 0);
        if forall|i: int| 0 <= i < pairs@.len() ==> (#[trigger] pairs@[i]).0 >= 0 {
            if tl@[0].0 != 0 {
                assert(tl@[0].0 < tl@[at as int].0);
                assert(expected_tempo(pairs@, tl@[0].0 as int) == Some(tl@[0].1));
                lemma_declared_position(pairs@, tl@[0].0 as int / 48);
            }
        }
        assert(is_timeline_of(tl@, pairs@));
        lemma_timeline_unique(tl@, timeline_of(pairs@), pairs@);
    }
    tl
}

/// A position at which something is declared is the position of some pair.
pub proof fn lemma_declared_position(pairs: Seq<(i64, i64)>, position: int)
    requires
        declared_at(pairs, position) is Some,
    ensures
        exists|i: int| 0 <= i < pairs.len() && (#[trigger] pairs[i]).0 == position,
    decreases pairs.len(),
{
    if pairs.last().0 == position {
        assert(pairs[pairs.len() - 1].0 == position);
    } else {
        lemma_declared_position(pairs.drop_last(), position);
        let i = choose|i: int|
            0 <= i < pairs.drop_last().len() && (#[trigger] pairs.drop_last()[i]).0 == position;
        assert(pairs[i].0 == position);
    }
}

/// The first index whose row is `row` or beyond, or the length.
fn first_row_from(tl: &Vec<(i64, i64)>, row: i64) -> (at: usize)
    requires
        rows_increasing(tl@),
    ensures
        at <= tl@.len(),
        forall|k: int| 0 <= k < at ==> (#[trigger] tl@[k]).0 < row,
        forall|k: int| at <= k < tl@.len() ==> (#[trigger] tl@[k]).0 >= row,
{
    let mut at: usize = 0;
    while at < tl.len() && tl[at].0 < row
        invariant
            at <= tl@.len(),
            forall|k: int| 0 <= k < at ==> (#[trigger] tl@[k]).0 < row,
        decreases tl.len() - at,
    {
        at += 1;
    }
    proof {
        assert forall|k: int| at <= k < tl@.len() implies (#[trigger] tl@[k]).0 >= row by {
            if k > at {
                assert(tl@[at as int].0 < tl@[k].0);
            }
        }
    }
    at
}

/// The pairs moved to rows and put in the order of their rows; pairs on the
/// same row keep the order in which they were declared.
pub fn order_on_rows(pairs: &Vec<(i64, i64)>) -> (ordered: Vec<(i64, i64)>)
    requires
        pairs_in_range(pairs@),
    ensures
        ordered@ == ordered_on_rows(pairs@, pairs@.len() as int),
        is_ordering_of(ordered@, pairs@, pairs@.len() as int),
        rows_ordered(ordered@),
        ordered@.len() == pairs@.len(),
{
    let mut ordered: Vec<(i64, i64)> = Vec::new();
    let mut i: usize = 0;
    while i < pairs.len()
        invariant
            pairs_in_range(pairs@),
            i <= pairs@.len(),
            ordered@ == ordered_on_rows(pairs@, i as int),
        decreases pairs.len() - i,
    {
        let pair = pairs[i];
        let entry: (i64, i64) = (pair.0 * ROWS_PER_BEAT, pair.1);
        let mut at: usize = 0;
        while at < ordered.len() && ordered[at].0 <= entry.0
            invariant
                at <= ordered@.len(),
                upper_bound(ordered@, entry.0 as int, at as int) == upper_bound(
                    ordered@,
                    entry.0 as int,
                    0,
                ),
            decreases ordered.len() - at,
        {
            at += 1;
        }
        ordered.insert(at, entry);
        i += 1;
    }
    proof {
        lemma_ordering(pairs@, pairs@.len() as int);
    }
    ordered
}

/// The rows of a tempo timeline strictly increase, and one of them is row 0.
/// Where no pair is placed before beat 0, row 0 is the first.
pub proof fn lemma_timeline_shape(tl: Seq<(i64, i64)>, pairs: Seq<(i64, i64)>)
    requires
        is_timeline_of(tl, pairs),
    ensures
        tl.len() > 0,
        rows_increasing(tl),
        has_origin(tl),
        (forall|i: int| 0 <= i < pairs.len() ==> (#[trigger] pairs[i]).0 >= 0) ==> tl[0].0 == 0,
{
    assert(expected_tempo(pairs, 0) is Some);
    let o = choose|k: int| 0 <= k < tl.len() && (#[trigger] tl[k]).0 == 0;
    assert(tl[o].0 == 0);
    if forall|i: int| 0 <= i < pairs.len() ==> (#[trigger] pairs[i]).0 >= 0 {
        if tl[0].0 != 0 {
            assert(tl[0].0 < tl[o].0);
            assert(expected_tempo(pairs, tl[0].0 as int) == Some(tl[0].1));
            lemma_declared_position(pairs, tl[0].0 as int / 48);
        }
    }
}

/// Where no tempo is declared, the timeline is the one event at row 0 with
/// 120 beats per minute.
pub proof fn lemma_default_timeline()
    ensures
        timeline_of(Seq::<(i64, i64)>::empty()) == seq![(0i64, DEFAULT_TEMPO)],
{
    let pairs = Seq::<(i64, i64)>::empty();
    let tl = seq![(0i64, DEFAULT_TEMPO)];
    assert forall|row: int| #[trigger] expected_tempo(pairs, row) is Some implies exists|k: int|
        0 <= k < tl.len() && (#[trigger] tl[k]).0 == row by {
        assert(tl[0].0 == row);
    }
    assert(is_timeline_of(tl, pairs));
    lemma_timeline_unique(tl, timeline_of(pairs), pairs);
}

} // verus!
