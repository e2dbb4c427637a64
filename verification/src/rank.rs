//! Ranking of search results by score.

use vstd::prelude::*;

verus! {

/// Position `a` ranks before position `b`: its key is greater, or the keys
/// are equal and `a` is the earlier position.
pub open spec fn ranks_before(keys: Seq<u32>, a: int, b: int) -> bool {
    keys[a] > keys[b] || (keys[a] == keys[b] && a < b)
}

/// `s` lists each position before all the positions that it ranks before.
pub open spec fn ranked(keys: Seq<u32>, s: Seq<usize>) -> bool {
    forall|a: int, b: int|
        0 <= a < b < s.len() ==> ranks_before(keys, s[a] as int, s[b] as int)
}

/// `s` lists the positions from `lo` up to `hi`, each once.
pub open spec fn spans(s: Seq<usize>, lo: int, hi: int) -> bool {
    &&& s.len() == hi - lo
    &&& forall|i: int| 0 <= i < s.len() ==> lo <= #[trigger] s[i] < hi
    &&& forall|p: usize| lo <= p < hi ==> s.contains(p)
}

/// `order` lists every position of `keys` once, each before all the
/// positions that it ranks before.
pub open spec fn is_ranking(keys: Seq<u32>, order: Seq<usize>) -> bool {
    spans(order, 0, keys.len() as int) && ranked(keys, order)
}

/// A sequence with one more element holds what it held before and that element.
proof fn lemma_push_holds(s: Seq<usize>, x: usize)
    ensures
        s.push(x).contains(x),
        forall|y: usize| s.contains(y) ==> s.push(x).contains(y),
{
    assert(s.push(x)[s.len() as int] == x);
    assert forall|y: usize| s.contains(y) implies s.push(x).contains(y) by {
        let i = choose|i: int| 0 <= i < s.len() && s[i] == y;
        assert(s.push(x)[i] == y);
    }
}

/// The ranking of the positions from `lo` up to `hi`, out of the rankings
/// of those below `mid` and of those from `mid` on.
fn merge(
    keys: &Vec<u32>,
    left: &Vec<usize>,
    right: &Vec<usize>,
    Ghost(lo): Ghost<int>,
    Ghost(mid): Ghost<int>,
    Ghost(hi): Ghost<int>,
) -> (out: Vec<usize>)
    requires
        0 <= lo <= mid <= hi <= keys@.len(),
        spans(left@, lo, mid),
        spans(right@, mid, hi),
        ranked(keys@, left@),
        ranked(keys@, right@),
    ensures
        spans(out@, lo, hi),
        ranked(keys@, out@),
{
    let mut out: Vec<usize> = Vec::new();
    let mut i: usize = 0;
    let mut j: usize = 0;
    while i < left.len() || j < right.len()
        invariant
            0 <= lo <= mid <= hi <= keys@.len(),
            spans(left@, lo, mid),
            spans(right@, mid, hi),
            ranked(keys@, left@),
            ranked(keys@, right@),
            i <= left@.len(),
            j <= right@.len(),
            out@.len() == i + j,
            forall|q: int| 0 <= q < out@.len() ==> lo <= #[trigger] out@[q] < hi,
            forall|p: int| 0 <= p < i ==> out@.contains(#[trigger] left@[p]),
            forall|p: int| 0 <= p < j ==> out@.contains(#[trigger] right@[p]),
            ranked(keys@, out@),
            forall|q: int, p: int|
                0 <= q < out@.len() && i <= p < left@.len() ==> ranks_before(
                    keys@,
                    #[trigger] out@[q] as int,
                    #[trigger] left@[p] as int,
                ),
            forall|q: int, p: int|
                0 <= q < out@.len() && j <= p < right@.len() ==> ranks_before(
                    keys@,
                    #[trigger] out@[q] as int,
                    #[trigger] right@[p] as int,
                ),
        decreases left@.len() - i + right@.len() - j,
    {
        let ghost before = out@;
        let from_left = if j >= right.len() {
            true
        } else if i >= left.len() {
            false
        } else {
            keys[left[i]] >= keys[right[j]]
        };
        if from_left {
            let x = left[i];
            out.push(x);
            proof {
                lemma_push_holds(before, x);
                assert forall|p: int| j <= p < right@.len() implies ranks_before(
                    keys@,
                    x as int,
                    #[trigger] right@[p] as int,
                ) by {
                    if p > j {
                        assert(ranks_before(keys@, right@[j as int] as int, right@[p] as int));
                    }
                }
            }
            i += 1;
        } else {
            let x = right[j];
            out.push(x);
            proof {
                lemma_push_holds(before, x);
                assert forall|p: int| i <= p < left@.len() implies ranks_before(
                    keys@,
                    x as int,
                    #[trigger] left@[p] as int,
                ) by {
                    if p > i {
                        assert(ranks_before(keys@, left@[i as int] as int, left@[p] as int));
                    }
                }
            }
            j += 1;
        }
    }
    proof {
        assert forall|p: usize| lo <= p < hi implies out@.contains(p) by {
            if p < mid {
                assert(left@.contains(p));
            } else {
                assert(right@.contains(p));
            }
        }
    }
    out
}

/// The ranking of the positions from `lo` up to `hi`.
fn rank_range(keys: &Vec<u32>, lo: usize, hi: usize) -> (out: Vec<usize>)
    requires
        lo <= hi <= keys@.len(),
    ensures
        spans(out@, lo as int, hi as int),
        ranked(keys@, out@),
    decreases hi - lo,
{
    if hi - lo == 0 {
        Vec::new()
    } else if hi - lo == 1 {
        let mut out: Vec<usize> = Vec::new();
        out.push(lo);
        assert(out@[0] == lo);
        out
    } else {
        let mid = lo + (hi - lo) / 2;
        let left = rank_range(keys, lo, mid);
        let right = rank_range(keys, mid, hi);
        merge(keys, &left, &right, Ghost(lo as int), Ghost(mid as int), Ghost(hi as int))
    }
}

/// The positions of `keys` by descending key; positions with equal keys
/// stay in their order. A key stands for a score: the greater score has the
/// greater key.
pub fn rank_descending(keys: &Vec<u32>) -> (order: Vec<usize>)
    ensures
        is_ranking(keys@, order@),
{
    rank_range(keys, 0, keys.len())
}

/// Two rankings of the same keys agree on their first `n` places.
proof fn lemma_rankings_agree(keys: Seq<u32>, a: Seq<usize>, b: Seq<usize>, n: int)
    requires
        is_ranking(keys, a),
        is_ranking(keys, b),
        0 <= n <= keys.len(),
    ensures
        forall|i: int| 0 <= i < n ==> a[i] == b[i],
    decreases n,
{
    if n > 0 {
        lemma_rankings_agree(keys, a, b, n - 1);
        let i = n - 1;
        let x = a[i];
        let y = b[i];
        if x != y {
            assert(b.contains(x));
            let j = choose|j: int| 0 <= j < b.len() && b[j] == x;
            if j < i {
                assert(ranks_before(keys, a[j] as int, a[i] as int));
            }
            assert(ranks_before(keys, b[i] as int, b[j] as int));
            assert(a.contains(y));
            let k = choose|k: int| 0 <= k < a.len() && a[k] == y;
            if k < i {
                assert(ranks_before(keys, b[k] as int, b[i] as int));
            }
            assert(ranks_before(keys, a[i] as int, a[k] as int));
        }
    }
}

/// The keys decide the ranking: there is no second one.
pub proof fn law_ranking_unique(keys: Seq<u32>, a: Seq<usize>, b: Seq<usize>)
    requires
        is_ranking(keys, a),
        is_ranking(keys, b),
    ensures
        a == b,
{
    lemma_rankings_agree(keys, a, b, keys.len() as int);
}

/// The smaller of `limit` and `n`.
pub open spec fn at_most(limit: usize, n: nat) -> int {
    if limit < n {
        limit as int
    } else {
        n as int
    }
}

/// The first `limit` positions of the ranking of `keys`, and all of them
/// where there are no more than `limit`.
pub fn top_ranked(keys: &Vec<u32>, limit: usize) -> (best: Vec<usize>)
    ensures
        exists|order: Seq<usize>| #[trigger]
            is_ranking(keys@, order) && best@ == order.take(at_most(limit, keys@.len())),
{
    let mut order = rank_descending(keys);
    order.truncate(limit);
    order
}

} // verus!
