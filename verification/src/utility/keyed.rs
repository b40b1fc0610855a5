//! Walking integer-keyed hash maps.

use std::collections::HashMap;

use vstd::prelude::*;
use vstd::std_specs::iter::IteratorSpec;

verus! {

broadcast use vstd::std_specs::hash::group_hash_axioms;

/// The keys of a map, each once, in no particular order.
pub fn key_list<V>(m: &HashMap<u128, V>) -> (v: Vec<u128>)
    ensures
        v@.no_duplicates(),
        v@.to_set() == m@.dom(),
        v@.len() == m@.dom().len(),
        forall|a: int| 0 <= a < v@.len() ==> m@.contains_key(#[trigger] v@[a]),
        forall|k: u128| #[trigger] m@.contains_key(k) ==> v@.contains(k),
{
    let mut out: Vec<u128> = Vec::new();
    for k in it: m.keys()
        invariant
            out@.len() == it.index(),
            forall|a: int| 0 <= a < out@.len() ==> #[trigger] out@[a] == *it.seq()[a],
            it.seq() == m.keys().remaining(),
    {
        out.push(*k);
    }
    proof {
        assert(out@ =~= m.keys().remaining().unref());
        let r = m.keys().remaining();
        assert forall|a: int, b: int| 0 <= a < out@.len() && 0 <= b < out@.len() && a != b
            implies out@[a] != out@[b] by {
            assert(r[a] != r[b]);
        }
        assert forall|a: int| 0 <= a < out@.len() implies m@.contains_key(#[trigger] out@[a]) by {
            assert(out@.to_set().contains(out@[a]));
        }
        assert forall|k: u128| #[trigger] m@.contains_key(k) implies out@.contains(k) by {
            assert(out@.to_set().contains(k));
        }
    }
    out
}

/// `a` and `b`, both ascending, merged into one ascending list.
fn merged(a: &Vec<u128>, b: &Vec<u128>) -> (v: Vec<u128>)
    requires
        ascending(a@),
        ascending(b@),
    ensures
        ascending(v@),
        v@.to_multiset() == a@.to_multiset().add(b@.to_multiset()),
{
    let mut out: Vec<u128> = Vec::with_capacity(a.len());
    let mut i: usize = 0;
    let mut j: usize = 0;
    proof {
        assert(a@.subrange(0, 0) =~= Seq::empty());
        assert(b@.subrange(0, 0) =~= Seq::empty());
        assert(out@ =~= Seq::empty());
        out@.to_multiset_ensures();
        assert(out@.to_multiset() =~= a@.subrange(0,
            0).to_multiset().add(b@.subrange(0, 0).to_multiset()));
    }
    while i < a.len() || j < b.len()
        invariant
            i <= a@.len(),
            j <= b@.len(),
            ascending(a@),
            ascending(b@),
            ascending(out@),
            forall|x: int, y: int| 0 <= x < out@.len() && i <= y < a@.len() ==> out@[x] <= a@[y],
            forall|x: int, y: int| 0 <= x < out@.len() && j <= y < b@.len() ==> out@[x] <= b@[y],
            out@.to_multiset()
                == a@.subrange(0, i as int).to_multiset().add(b@.subrange(0, j as int).to_multiset()),
        decreases (a@.len() - i) + (b@.len() - j),
    {
        let from_a = j >= b.len() || (i < a.len() && a[i] <= b[j]);
        let ghost before = out@;
        if from_a {
            out.push(a[i]);
            proof {
                vstd::seq_lib::to_multiset_build(before, a@[i as int]);
                vstd::seq_lib::to_multiset_build(a@.subrange(0, i as int), a@[i as int]);
                assert(a@.subrange(0, i + 1) =~= a@.subrange(0, i as int).push(a@[i as int]));
                assert(out@.to_multiset() =~= a@.subrange(0,
                    i + 1).to_multiset().add(b@.subrange(0, j as int).to_multiset()));
            }
            i += 1;
        } else {
            out.push(b[j]);
            proof {
                vstd::seq_lib::to_multiset_build(before, b@[j as int]);
                vstd::seq_lib::to_multiset_build(b@.subrange(0, j as int), b@[j as int]);
                assert(b@.subrange(0, j + 1) =~= b@.subrange(0, j as int).push(b@[j as int]));
                assert(out@.to_multiset() =~= a@.subrange(0,
                    i as int).to_multiset().add(b@.subrange(0, j + 1).to_multiset()));
            }
            j += 1;
        }
    }
    proof {
        assert(a@.subrange(0, i as int) =~= a@);
        assert(b@.subrange(0, j as int) =~= b@);
    }
    out
}

/// No number is larger than a later one.
pub open spec fn ascending(s: Seq<u128>) -> bool {
    forall|a: int, b: int| 0 <= a < b < s.len() ==> s[a] <= s[b]
}

/// The numbers of `v[lo..hi]` in ascending order.
fn sorted_range(v: &Vec<u128>, lo: usize, hi: usize) -> (r: Vec<u128>)
    requires
        lo <= hi <= v@.len(),
    ensures
        ascending(r@),
        r@.to_multiset() == v@.subrange(lo as int, hi as int).to_multiset(),
    decreases hi - lo,
{
    if hi - lo <= 1 {
        let mut r: Vec<u128> = Vec::new();
        if lo < hi {
            r.push(v[lo]);
        }
        assert(r@ =~= v@.subrange(lo as int, hi as int));
        r
    } else {
        let mid = lo + (hi - lo) / 2;
        let left = sorted_range(v, lo, mid);
        let right = sorted_range(v, mid, hi);
        proof {
            let l = v@.subrange(lo as int, mid as int);
            let r = v@.subrange(mid as int, hi as int);
            assert(v@.subrange(lo as int, hi as int) =~= l + r);
            vstd::seq_lib::lemma_multiset_commutative(l, r);
        }
        merged(&left, &right)
    }
}

/// The numbers of `v` in ascending order.
pub fn sorted(v: &Vec<u128>) -> (r: Vec<u128>)
    ensures
        ascending(r@),
        r@.to_multiset() == v@.to_multiset(),
{
    assert(v@.subrange(0, v@.len() as int) =~= v@);
    sorted_range(v, 0, v.len())
}

} // verus!
