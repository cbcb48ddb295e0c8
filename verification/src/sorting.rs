//! A merge sort over anything that carries an integer key.
use vstd::multiset::Multiset;
use vstd::prelude::*;

verus! {

/// A value that is put in order by an integer key, smallest first.
pub trait Keyed: Sized + Copy {
    /// The key.
    spec fn key(self) -> int;

    /// Tells whether `self` may stand directly before `other`.
    fn in_order(&self, other: &Self) -> (r: bool)
        ensures
            r == (self.key() <= other.key()),
    ;
}

impl Keyed for usize {
    open spec fn key(self) -> int {
        self as int
    }

    fn in_order(&self, other: &Self) -> (r: bool) {
        *self <= *other
    }
}

/// No value comes after one with a larger key.
pub open spec fn is_sorted<T: Keyed>(s: Seq<T>) -> bool {
    forall|i: int, j: int| 0 <= i <= j < s.len() ==> (#[trigger] s[i]).key() <= (#[trigger] s[j]).key()
}

/// The values of `s` from `i` on.
spec fn rest<T>(s: Seq<T>, i: int) -> Seq<T> {
    s.subrange(i, s.len() as int)
}

/// Taking the first value off a tail removes one occurrence of it.
proof fn lemma_rest_step<T>(s: Seq<T>, i: int)
    requires
        0 <= i < s.len(),
    ensures
        rest(s, i).to_multiset() == rest(s, i + 1).to_multiset().insert(s[i]),
{
    broadcast use vstd::seq_lib::group_to_multiset_ensures;
    assert(rest(s, i) =~= seq![s[i]] + rest(s, i + 1));
    vstd::seq_lib::lemma_multiset_commutative(seq![s[i]], rest(s, i + 1));
    assert(seq![s[i]] =~= Seq::<T>::empty().push(s[i]));
    assert(seq![s[i]].to_multiset() =~= Multiset::<T>::empty().insert(s[i]));
    assert(rest(s, i).to_multiset() =~= rest(s, i + 1).to_multiset().insert(s[i]));
}

/// Merges two sorted vectors into one.
fn merge<T: Keyed>(a: &Vec<T>, b: &Vec<T>) -> (out: Vec<T>)
    requires
        is_sorted(a@),
        is_sorted(b@),
    ensures
        is_sorted(out@),
        out@.to_multiset() == a@.to_multiset().add(b@.to_multiset()),
{
    let mut out: Vec<T> = Vec::new();
    let mut i: usize = 0;
    let mut j: usize = 0;
    proof {
        broadcast use vstd::seq_lib::group_to_multiset_ensures;
        assert(rest(a@, 0) =~= a@);
        assert(rest(b@, 0) =~= b@);
        assert(out@.to_multiset().add(rest(a@, 0).to_multiset().add(rest(b@, 0).to_multiset()))
            =~= a@.to_multiset().add(b@.to_multiset()));
    }
    while i < a.len() || j < b.len()
        invariant
            i <= a.len(),
            j <= b.len(),
            is_sorted(a@),
            is_sorted(b@),
            is_sorted(out@),
            forall|k: int, l: int|
                0 <= k < out.len() && i <= l < a.len() ==> (#[trigger] out@[k]).key() <= (
                #[trigger] a@[l]).key(),
            forall|k: int, l: int|
                0 <= k < out.len() && j <= l < b.len() ==> (#[trigger] out@[k]).key() <= (
                #[trigger] b@[l]).key(),
            out@.to_multiset().add(
                rest(a@, i as int).to_multiset().add(rest(b@, j as int).to_multiset()),
            ) == a@.to_multiset().add(b@.to_multiset()),
        decreases a.len() - i + b.len() - j,
    {
        let from_a: bool = j >= b.len() || (i < a.len() && a[i].in_order(&b[j]));
        let ghost before = out@;
        if from_a {
            proof {
                lemma_rest_step(a@, i as int);
            }
            out.push(a[i]);
            proof {
                broadcast use vstd::seq_lib::group_to_multiset_ensures;
                assert(out@.to_multiset().add(
                    rest(a@, i + 1).to_multiset().add(rest(b@, j as int).to_multiset()),
                ) =~= before.to_multiset().add(
                    rest(a@, i as int).to_multiset().add(rest(b@, j as int).to_multiset()),
                ));
            }
            i = i + 1;
        } else {
            proof {
                lemma_rest_step(b@, j as int);
            }
            out.push(b[j]);
            proof {
                broadcast use vstd::seq_lib::group_to_multiset_ensures;
                assert(out@.to_multiset().add(
                    rest(a@, i as int).to_multiset().add(rest(b@, j + 1).to_multiset()),
                ) =~= before.to_multiset().add(
                    rest(a@, i as int).to_multiset().add(rest(b@, j as int).to_multiset()),
                ));
            }
            j = j + 1;
        }
    }
    proof {
        broadcast use vstd::seq_lib::group_to_multiset_ensures;
        assert(rest(a@, i as int) =~= Seq::<T>::empty());
        assert(rest(b@, j as int) =~= Seq::<T>::empty());
        assert(out@.to_multiset() =~= a@.to_multiset().add(b@.to_multiset()));
    }
    out
}

/// The values `s[lo..hi]`, sorted.
fn sort_range<T: Keyed>(s: &[T], lo: usize, hi: usize) -> (out: Vec<T>)
    requires
        lo <= hi <= s.len(),
    ensures
        is_sorted(out@),
        out@.to_multiset() == s@.subrange(lo as int, hi as int).to_multiset(),
    decreases hi - lo,
{
    if hi - lo <= 1 {
        let mut out: Vec<T> = Vec::new();
        if lo < hi {
            out.push(s[lo]);
        }
        assert(out@ =~= s@.subrange(lo as int, hi as int));
        out
    } else {
        let mid: usize = lo + (hi - lo) / 2;
        let left = sort_range(s, lo, mid);
        let right = sort_range(s, mid, hi);
        proof {
            assert(s@.subrange(lo as int, hi as int) =~= s@.subrange(lo as int, mid as int)
                + s@.subrange(mid as int, hi as int));
            vstd::seq_lib::lemma_multiset_commutative(
                s@.subrange(lo as int, mid as int),
                s@.subrange(mid as int, hi as int),
            );
        }
        merge(&left, &right)
    }
}

/// The same values, smallest key first. Values with equal keys may come in any order.
pub fn sorted<T: Keyed>(s: &[T]) -> (out: Vec<T>)
    ensures
        is_sorted(out@),
        out@.to_multiset() == s@.to_multiset(),
{
    assert(s@.subrange(0, s.len() as int) =~= s@);
    sort_range(s, 0, s.len())
}

} // verus!
