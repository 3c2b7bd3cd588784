//! Descending order: which element comes first, second and so on when a list is sorted
//! from the largest key down.

use vstd::prelude::*;

verus! {

/// `x` comes before `y`: its key is larger, or the keys are equal and it stands first.
pub open spec fn before(keys: Seq<i64>, x: int, y: int) -> bool {
    keys[x] > keys[y] || (keys[x] == keys[y] && x < y)
}

/// Every place comes before the places behind it.
pub open spec fn in_order(keys: Seq<i64>, p: Seq<usize>) -> bool {
    forall|i: int, j: int|
        0 <= i < j < p.len() ==> before(keys, #[trigger] p[i] as int, #[trigger] p[j] as int)
}

/// The list holds the places `lo..hi`, each once.
pub open spec fn covers(p: Seq<usize>, lo: int, hi: int) -> bool {
    &&& p.len() == hi - lo
    &&& forall|i: int| 0 <= i < p.len() ==> lo <= #[trigger] p[i] < hi
    &&& forall|x: usize| lo <= x < hi ==> #[trigger] p.contains(x)
}

/// The stable descending order of the keys.
pub open spec fn is_descending(keys: Seq<i64>, p: Seq<usize>) -> bool {
    in_order(keys, p) && covers(p, 0, keys.len() as int)
}

proof fn lemma_push_contains(s: Seq<usize>, v: usize, x: usize)
    ensures
        s.push(v).contains(x) <==> s.contains(x) || x == v,
{
    if s.contains(x) {
        let i = choose|i: int| 0 <= i < s.len() && s[i] == x;
        assert(s.push(v)[i] == x);
    }
    assert(s.push(v)[s.len() as int] == v);
    if s.push(v).contains(x) {
        let i = choose|i: int| 0 <= i < s.push(v).len() && s.push(v)[i] == x;
        if i < s.len() {
            assert(s[i] == x);
        }
    }
}

/// Every place so far comes before the rest of a list.
spec fn ahead(keys: Seq<i64>, out: Seq<usize>, rest: Seq<usize>, from: int) -> bool {
    forall|k: int, x: int|
        0 <= k < out.len() && from <= x < rest.len() ==> before(
            keys,
            #[trigger] out[k] as int,
            #[trigger] rest[x] as int,
        )
}

/// The list holds what the beginnings of the two others hold.
spec fn gathered(out: Seq<usize>, a: Seq<usize>, b: Seq<usize>) -> bool {
    forall|v: usize| #[trigger] out.contains(v) <==> a.contains(v) || b.contains(v)
}

proof fn lemma_gather(out: Seq<usize>, a: Seq<usize>, b: Seq<usize>, v: usize)
    requires
        gathered(out, a, b),
    ensures
        gathered(out.push(v), a.push(v), b),
        gathered(out.push(v), a, b.push(v)),
{
    assert forall|x: usize| #[trigger] out.push(v).contains(x) <==> a.push(v).contains(x)
        || b.contains(x) by {
        lemma_push_contains(out, v, x);
        lemma_push_contains(a, v, x);
    }
    assert forall|x: usize| #[trigger] out.push(v).contains(x) <==> a.contains(x) || b.push(
        v,
    ).contains(x) by {
        lemma_push_contains(out, v, x);
        lemma_push_contains(b, v, x);
    }
}

/// Merges two ordered lists of places.
fn merge(
    keys: &[i64],
    a: &Vec<usize>,
    b: &Vec<usize>,
    Ghost(lo): Ghost<int>,
    Ghost(mid): Ghost<int>,
    Ghost(hi): Ghost<int>,
) -> (out: Vec<usize>)
    requires
        0 <= lo <= mid <= hi <= keys@.len(),
        in_order(keys@, a@),
        in_order(keys@, b@),
        covers(a@, lo, mid),
        covers(b@, mid, hi),
    ensures
        in_order(keys@, out@),
        covers(out@, lo, hi),
{
    let mut out: Vec<usize> = Vec::new();
    let mut i: usize = 0;
    let mut j: usize = 0;
    while i < a.len() || j < b.len()
        invariant
            i <= a.len(),
            j <= b.len(),
            0 <= lo <= mid <= hi <= keys@.len(),
            hi <= keys.len(),
            in_order(keys@, a@),
            in_order(keys@, b@),
            covers(a@, lo, mid),
            covers(b@, mid, hi),
            out@.len() == i + j,
            in_order(keys@, out@),
            ahead(keys@, out@, a@, i as int),
            ahead(keys@, out@, b@, j as int),
            gathered(out@, a@.take(i as int), b@.take(j as int)),
            forall|k: int| 0 <= k < out@.len() ==> lo <= #[trigger] out@[k] < hi,
        decreases a.len() - i + b.len() - j,
    {
        let first: bool = if i == a.len() {
            false
        } else if j == b.len() {
            true
        } else {
            let x: usize = a[i];
            let y: usize = b[j];
            keys[x] > keys[y] || (keys[x] == keys[y] && x < y)
        };
        let ghost so_far = out@;
        proof {
            if i < a@.len() && j < b@.len() {
                let (x, y) = (a@[i as int] as int, b@[j as int] as int);
                assert(x < y);
                assert(before(keys@, x, y) || before(keys@, y, x));
            }
        }
        if first {
            proof {
                lemma_gather(so_far, a@.take(i as int), b@.take(j as int), a@[i as int]);
                assert(a@.take(i + 1) =~= a@.take(i as int).push(a@[i as int]));
                assert forall|x: int| j <= x < b@.len() implies before(
                    keys@,
                    a@[i as int] as int,
                    #[trigger] b@[x] as int,
                ) by {
                    if j < x {
                        assert(before(keys@, b@[j as int] as int, b@[x] as int));
                    }
                }
            }
            out.push(a[i]);
            i = i + 1;
        } else {
            proof {
                lemma_gather(so_far, a@.take(i as int), b@.take(j as int), b@[j as int]);
                assert(b@.take(j + 1) =~= b@.take(j as int).push(b@[j as int]));
                assert forall|x: int| i <= x < a@.len() implies before(
                    keys@,
                    b@[j as int] as int,
                    #[trigger] a@[x] as int,
                ) by {
                    if i < x {
                        assert(before(keys@, a@[i as int] as int, a@[x] as int));
                    }
                }
            }
            out.push(b[j]);
            j = j + 1;
        }
    }
    proof {
        assert(a@.take(i as int) =~= a@);
        assert(b@.take(j as int) =~= b@);
        assert forall|x: usize| lo <= x < hi implies #[trigger] out@.contains(x) by {
            if x < mid {
                assert(a@.contains(x));
            } else {
                assert(b@.contains(x));
            }
        }
    }
    out
}

/// The places `lo..hi` in descending order of their keys.
fn sort_range(keys: &[i64], lo: usize, hi: usize) -> (p: Vec<usize>)
    requires
        lo <= hi <= keys@.len(),
    ensures
        in_order(keys@, p@),
        covers(p@, lo as int, hi as int),
    decreases hi - lo,
{
    if lo == hi {
        return Vec::new();
    }
    if hi - lo == 1 {
        let mut p: Vec<usize> = Vec::new();
        p.push(lo);
        assert(p@[0] == lo);
        return p;
    }
    let mid: usize = lo + (hi - lo) / 2;
    let a: Vec<usize> = sort_range(keys, lo, mid);
    let b: Vec<usize> = sort_range(keys, mid, hi);
    merge(keys, &a, &b, Ghost(lo as int), Ghost(mid as int), Ghost(hi as int))
}

/// The stable descending order: the place of the largest key first, places with equal
/// keys as they stand.
pub fn descending(keys: &[i64]) -> (p: Vec<usize>)
    ensures
        is_descending(keys@, p@),
{
    sort_range(keys, 0, keys.len())
}

proof fn lemma_prefix_same(keys: Seq<i64>, p: Seq<usize>, q: Seq<usize>, n: int)
    requires
        is_descending(keys, p),
        is_descending(keys, q),
        keys.len() <= usize::MAX,
        0 <= n <= keys.len(),
    ensures
        p.take(n) == q.take(n),
    decreases n,
{
    if n > 0 {
        lemma_prefix_same(keys, p, q, n - 1);
        let k = n - 1;
        assert forall|i: int| 0 <= i < k implies p[i] == q[i] by {
            assert(p.take(k)[i] == q.take(k)[i]);
        }
        if p[k] != q[k] {
            assert(p.contains(q[k]));
            let i = choose|i: int| 0 <= i < p.len() && p[i] == q[k];
            assert(q.contains(p[k]));
            let j = choose|j: int| 0 <= j < q.len() && q[j] == p[k];
            if i < k {
                assert(q[i] == q[k]);
                assert(before(keys, q[i] as int, q[k] as int));
            }
            if j < k {
                assert(p[j] == p[k]);
                assert(before(keys, p[j] as int, p[k] as int));
            }
            assert(before(keys, p[k] as int, p[i] as int));
            assert(before(keys, q[k] as int, q[j] as int));
            assert(false);
        }
        assert(p.take(n) =~= q.take(n));
    }
}

/// A list of keys has one descending order.
pub proof fn descending_is_unique(keys: Seq<i64>, p: Seq<usize>, q: Seq<usize>)
    requires
        is_descending(keys, p),
        is_descending(keys, q),
        keys.len() <= usize::MAX,
    ensures
        p == q,
{
    lemma_prefix_same(keys, p, q, keys.len() as int);
    assert(p.take(keys.len() as int) =~= p);
    assert(q.take(keys.len() as int) =~= q);
}

} // verus!
