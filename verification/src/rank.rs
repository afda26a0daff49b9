//! Ordering of scored documents.
//!
//! The ranker's caller turns each document's score into an order key (higher
//! key, better rank; an undefined score maps to the lowest key, so it sorts
//! last) and this module orders the documents by that key, descending,
//! keeping exactly the given documents.

use vstd::prelude::*;
use vstd::multiset::Multiset;

verus! {

broadcast use vstd::seq_lib::group_to_multiset_ensures;

/// The views of a list of (path, order key) pairs.
pub open spec fn pair_views(ps: Seq<(Vec<char>, u64)>) -> Seq<(Seq<char>, u64)> {
    ps.map_values(|p: (Vec<char>, u64)| (p.0@, p.1))
}

/// Orders the scored documents by key, descending. The result holds exactly
/// the given pairs; equal keys are ordered arbitrarily.
pub fn sort_ranked_desc(ranked: Vec<(Vec<char>, u64)>) -> (r: Vec<(Vec<char>, u64)>)
    ensures
        forall|a: int, b: int| 0 <= a < b < r@.len() ==> (#[trigger] r@[a]).1 >= (
        #[trigger] r@[b]).1,
        pair_views(r@).to_multiset() == pair_views(ranked@).to_multiset(),
{
    let ghost orig = pair_views(ranked@);
    let mut v = ranked;
    let mut out: Vec<(Vec<char>, u64)> = Vec::new();
    proof {
        assert(pair_views(out@) =~= Seq::<(Seq<char>, u64)>::empty());
        assert(pair_views(out@).to_multiset().add(pair_views(v@).to_multiset())
            =~= orig.to_multiset());
    }
    while v.len() > 0
        invariant
            pair_views(out@).to_multiset().add(pair_views(v@).to_multiset())
                == orig.to_multiset(),
            forall|a: int, b: int| 0 <= a < b < out@.len() ==> (#[trigger] out@[a]).1 >= (
            #[trigger] out@[b]).1,
            forall|a: int, b: int|
                0 <= a < out@.len() && 0 <= b < v@.len() ==> (#[trigger] out@[a]).1 >= (
                #[trigger] v@[b]).1,
        decreases v@.len(),
    {
        // find a pair with the greatest key
        let mut best: usize = 0;
        let mut j: usize = 1;
        while j < v.len()
            invariant
                best < j <= v@.len(),
                v@.len() > 0,
                forall|jj: int| 0 <= jj < j ==> (#[trigger] v@[jj]).1 <= v@[best as int].1,
            decreases v@.len() - j,
        {
            if v[j].1 > v[best].1 {
                best = j;
            }
            j = j + 1;
        }
        let ghost vo = v@;
        let e = v.remove(best);
        let ghost ev = (e.0@, e.1);
        proof {
            assert(pair_views(v@) =~= pair_views(vo).remove(best as int));
            assert(pair_views(vo)[best as int] == ev);
            assert(pair_views(vo).remove(best as int).to_multiset() =~= pair_views(
                vo,
            ).to_multiset().remove(ev));
            assert(pair_views(vo).to_multiset().count(ev) >= 1) by {
                assert(pair_views(vo).contains(ev));
            }
        }
        let ghost oo = out@;
        out.push(e);
        proof {
            assert(out@.drop_last() =~= oo);
            assert(pair_views(out@) =~= pair_views(oo).push(ev));
            assert(pair_views(out@).to_multiset() =~= pair_views(oo).to_multiset().insert(ev));
            assert(pair_views(oo).to_multiset().insert(ev).add(
                pair_views(vo).to_multiset().remove(ev),
            ) =~= pair_views(oo).to_multiset().add(pair_views(vo).to_multiset()));
            // the chosen pair outranks everything still unsorted
            assert forall|b: int| 0 <= b < v@.len() implies (#[trigger] v@[b]).1
                <= e.1 by {
                if b < best as int {
                    assert(v@[b] == vo[b]);
                } else {
                    assert(v@[b] == vo[b + 1]);
                }
            }
            assert forall|a: int, b: int| 0 <= a < b < out@.len() implies (
            #[trigger] out@[a]).1 >= (#[trigger] out@[b]).1 by {
                if b < out@.len() - 1 {
                    assert(out@[a] == oo[a] && out@[b] == oo[b]);
                } else {
                    assert(out@[b] == e);
                    if a < out@.len() - 1 {
                        assert(out@[a] == oo[a]);
                        assert(oo[a].1 >= vo[best as int].1);
                    }
                }
            }
        }
    }
    proof {
        assert(pair_views(v@).to_multiset() =~= Multiset::<(Seq<char>, u64)>::empty());
        assert(pair_views(out@).to_multiset().add(Multiset::<(Seq<char>, u64)>::empty())
            =~= pair_views(out@).to_multiset());
    }
    out
}

} // verus!
