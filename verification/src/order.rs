//! A stable sort of the places of a list by a ranking of what stands there.

use vstd::prelude::*;

verus! {

/// A total preorder on the places `0..size` of some list.
pub trait Ranking {
    /// The number of places.
    spec fn size(&self) -> int;

    /// What stands at place `i` ranks no later than what stands at place `j`.
    spec fn le(&self, i: int, j: int) -> bool;

    proof fn total(&self, i: int, j: int)
        requires
            0 <= i < self.size(),
            0 <= j < self.size(),
        ensures
            self.le(i, j) || self.le(j, i),
    ;

    proof fn transitive(&self, i: int, j: int, k: int)
        requires
            0 <= i < self.size(),
            0 <= j < self.size(),
            0 <= k < self.size(),
            self.le(i, j),
            self.le(j, k),
        ensures
            self.le(i, k),
    ;

    fn at_most(&self, i: usize, j: usize) -> (r: bool)
        requires
            i < self.size(),
            j < self.size(),
        ensures
            r == self.le(i as int, j as int),
    ;
}

/// Place `i` comes before place `j` in the sorted order: it ranks earlier, or it ranks equal and
/// stands first.
pub open spec fn before<R: Ranking>(rank: &R, i: int, j: int) -> bool {
    rank.le(i, j) && (rank.le(j, i) ==> i < j)
}

/// Each place of `s` comes before all that follow it.
pub open spec fn sorted<R: Ranking>(rank: &R, s: Seq<usize>) -> bool {
    forall|a: int, b: int| 0 <= a < b < s.len() ==> #[trigger] before(
        rank,
        s[a] as int,
        s[b] as int,
    )
}

/// `s` holds exactly the places `lo..hi`.
pub open spec fn covers(s: Seq<usize>, lo: int, hi: int) -> bool {
    &&& s.len() == hi - lo
    &&& s.no_duplicates()
    &&& forall|x: usize| #[trigger] s.contains(x) <==> lo <= x < hi
}

proof fn lemma_before_transitive<R: Ranking>(rank: &R, i: int, j: int, k: int)
    requires
        0 <= i < rank.size(),
        0 <= j < rank.size(),
        0 <= k < rank.size(),
        before(rank, i, j),
        before(rank, j, k),
    ensures
        before(rank, i, k),
{
    rank.transitive(i, j, k);
    if rank.le(k, i) {
        rank.transitive(j, k, i);
        rank.transitive(k, i, j);
    }
}

/// A sequence with one more item holds that item and those before it.
pub proof fn lemma_contains_push(s: Seq<usize>, x: usize, y: usize)
    ensures
        s.push(x).contains(y) <==> s.contains(y) || x == y,
{
    if s.contains(y) {
        let p = choose|p: int| 0 <= p < s.len() && s[p] == y;
        assert(s.push(x)[p] == y);
    }
    if x == y {
        assert(s.push(x)[s.len() as int] == y);
    }
}

fn merge<R: Ranking>(
    rank: &R,
    a: &Vec<usize>,
    b: &Vec<usize>,
    Ghost(lo): Ghost<int>,
    Ghost(mid): Ghost<int>,
    Ghost(hi): Ghost<int>,
) -> (r: Vec<usize>)
    requires
        0 <= lo <= mid <= hi <= rank.size(),
        a@.len() + b@.len() <= usize::MAX,
        covers(a@, lo, mid),
        covers(b@, mid, hi),
        sorted(rank, a@),
        sorted(rank, b@),
    ensures
        covers(r@, lo, hi),
        sorted(rank, r@),
{
    let mut out: Vec<usize> = Vec::new();
    let mut i: usize = 0;
    let mut j: usize = 0;
    while i < a.len() || j < b.len()
        invariant
            0 <= lo <= mid <= hi <= rank.size(),
            a@.len() + b@.len() <= usize::MAX,
            covers(a@, lo, mid),
            covers(b@, mid, hi),
            sorted(rank, a@),
            sorted(rank, b@),
            i <= a@.len(),
            j <= b@.len(),
            out@.len() == i + j,
            sorted(rank, out@),
            forall|p: int, q: int|
                0 <= p < out@.len() && i <= q < a@.len() ==> before(
                    rank,
                    out@[p] as int,
                    #[trigger] a@[q] as int,
                ) && #[trigger] out@[p] != a@[q],
            forall|p: int, q: int|
                0 <= p < out@.len() && j <= q < b@.len() ==> before(
                    rank,
                    out@[p] as int,
                    #[trigger] b@[q] as int,
                ) && #[trigger] out@[p] != b@[q],
            forall|x: usize| #[trigger]
                out@.contains(x) <==> a@.take(i as int).contains(x) || b@.take(j as int).contains(
                    x,
                ),
            out@.no_duplicates(),
        decreases a@.len() - i + b@.len() - j,
    {
        let ghost old_out = out@;
        assert forall|q: int| 0 <= q < a@.len() implies lo <= #[trigger] a@[q] < mid by {
            assert(a@.contains(a@[q]));
        }
        assert forall|q: int| 0 <= q < b@.len() implies mid <= #[trigger] b@[q] < hi by {
            assert(b@.contains(b@[q]));
        }
        let from_a: bool = if i == a.len() {
            false
        } else if j == b.len() {
            true
        } else {
            rank.at_most(a[i], b[j])
        };
        if from_a {
            let x = a[i];
            out.push(x);
            assert(a@.take(i + 1) =~= a@.take(i as int).push(x));
            assert forall|q: int| j <= q < b@.len() implies before(
                rank,
                x as int,
                #[trigger] b@[q] as int,
            ) by {
                if q > j {
                    lemma_before_transitive(rank, x as int, b@[j as int] as int, b@[q] as int);
                }
            }
            assert forall|y: usize| #[trigger] out@.contains(y) <==> a@.take(i + 1).contains(y)
                || b@.take(j as int).contains(y) by {
                lemma_contains_push(old_out, x, y);
                lemma_contains_push(a@.take(i as int), x, y);
            }
            i += 1;
        } else {
            let x = b[j];
            out.push(x);
            assert(b@.take(j + 1) =~= b@.take(j as int).push(x));
            assert forall|q: int| i <= q < a@.len() implies before(
                rank,
                x as int,
                #[trigger] a@[q] as int,
            ) by {
                rank.total(x as int, a@[i as int] as int);
                if q > i {
                    lemma_before_transitive(rank, x as int, a@[i as int] as int, a@[q] as int);
                }
            }
            assert forall|y: usize| #[trigger] out@.contains(y) <==> a@.take(i as int).contains(y)
                || b@.take(j + 1).contains(y) by {
                lemma_contains_push(old_out, x, y);
                lemma_contains_push(b@.take(j as int), x, y);
            }
            j += 1;
        }
    }
    assert(a@.take(i as int) =~= a@);
    assert(b@.take(j as int) =~= b@);
    assert forall|x: usize| #[trigger] out@.contains(x) <==> lo <= x < hi by {
        assert(a@.contains(x) <==> lo <= x < mid);
        assert(b@.contains(x) <==> mid <= x < hi);
    }
    out
}

fn sort_range<R: Ranking>(rank: &R, lo: usize, hi: usize) -> (r: Vec<usize>)
    requires
        lo <= hi <= rank.size(),
    ensures
        covers(r@, lo as int, hi as int),
        sorted(rank, r@),
    decreases hi - lo,
{
    let mut out: Vec<usize> = Vec::new();
    if hi == lo {
        return out;
    }
    if hi - lo == 1 {
        out.push(lo);
        assert(out@[0] == lo);
        assert forall|x: usize| #[trigger] out@.contains(x) <==> lo <= x < hi by {
            if x == lo {
                assert(out@[0] == x);
            }
        }
        return out;
    }
    let mid: usize = lo + (hi - lo) / 2;
    let a = sort_range(rank, lo, mid);
    let b = sort_range(rank, mid, hi);
    merge(rank, &a, &b, Ghost(lo as int), Ghost(mid as int), Ghost(hi as int))
}

/// The places `0..n` in sorted order.
pub fn sorted_places<R: Ranking>(rank: &R, n: usize) -> (r: Vec<usize>)
    requires
        n == rank.size(),
    ensures
        covers(r@, 0, n as int),
        sorted(rank, r@),
        forall|a: int| 0 <= a < n ==> (#[trigger] r@[a]) < n,
{
    let r = sort_range(rank, 0, n);
    assert forall|a: int| 0 <= a < n implies (#[trigger] r@[a]) < n by {
        assert(r@.contains(r@[a]));
    }
    r
}

/// `a` holds at each place what `b` holds at the place that `places` gives, and `places` is a
/// rearrangement of the places of `b`.
pub open spec fn reordered_by<A>(a: Seq<A>, b: Seq<A>, places: Seq<usize>) -> bool {
    &&& a.len() == b.len()
    &&& covers(places, 0, b.len() as int)
    &&& forall|i: int| 0 <= i < a.len() ==> #[trigger] a[i] == b[places[i] as int]
}

/// `a` holds the items of `b`, in any order.
pub open spec fn reordered<A>(a: Seq<A>, b: Seq<A>) -> bool {
    exists|places: Seq<usize>| #[trigger] reordered_by(a, b, places)
}

/// What is reordered holds the same items.
pub proof fn lemma_reordered_contains<A>(a: Seq<A>, b: Seq<A>, x: A)
    requires
        reordered(a, b),
        a.len() <= usize::MAX,
    ensures
        a.contains(x) <==> b.contains(x),
{
    let places = choose|places: Seq<usize>| #[trigger] reordered_by(a, b, places);
    if a.contains(x) {
        let i = choose|i: int| 0 <= i < a.len() && a[i] == x;
        assert(places.contains(places[i]));
        assert(b[places[i] as int] == x);
    }
    if b.contains(x) {
        let j = choose|j: int| 0 <= j < b.len() && b[j] == x;
        assert(places.contains(j as usize));
        let i = choose|i: int| 0 <= i < places.len() && places[i] == j as usize;
        assert(a[i] == x);
    }
}

} // verus!
