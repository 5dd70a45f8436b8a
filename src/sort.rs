//! Listing order: records sorted by name.

use vstd::prelude::*;
use vstd::multiset::Multiset;
use crate::model::{views, Collection, Icon};
use crate::text::{lex_le, name_le, lemma_lex_total, lemma_lex_trans};

verus! {

broadcast use vstd::seq_lib::group_to_multiset_ensures;

/// A record that is listed by its name.
pub trait Named: View + Sized {
    spec fn name_of(v: Self::V) -> Seq<char>;

    fn name_ref(&self) -> (r: &String)
        ensures
            r@ == Self::name_of(self@),
    ;
}

impl Named for Collection {
    open spec fn name_of(v: Self::V) -> Seq<char> {
        v.name
    }

    fn name_ref(&self) -> (r: &String) {
        &self.name
    }
}

impl Named for Icon {
    open spec fn name_of(v: Self::V) -> Seq<char> {
        v.name
    }

    fn name_ref(&self) -> (r: &String) {
        &self.name
    }
}

/// Each record's name is at most the next one's.
pub open spec fn sorted_by_name<T: Named>(s: Seq<T::V>) -> bool {
    forall|i: int, j: int| 0 <= i < j < s.len() ==> lex_le(T::name_of(s[i]), T::name_of(s[j]))
}

/// Sorts the records by name.
pub fn sort_by_name<T: Named>(v: Vec<T>) -> (r: Vec<T>)
    ensures
        sorted_by_name::<T>(views(r@)),
        views(r@).to_multiset() == views(v@).to_multiset(),
{
    let ghost orig = views(v@);
    let mut rest = v;
    let mut out: Vec<T> = Vec::new();
    proof {
        assert(views(out@) =~= Seq::<T::V>::empty());
    }
    while rest.len() > 0
        invariant
            sorted_by_name::<T>(views(out@)),
            views(out@).to_multiset().add(views(rest@).to_multiset()) == orig.to_multiset(),
        decreases rest.len(),
    {
        let ghost rest_before = rest@;
        let x = rest.pop().unwrap();
        proof {
            assert(views(rest_before) =~= views(rest@).push(x@));
        }
        let mut p: usize = 0;
        let mut found = false;
        while p < out.len() && !found
            invariant
                p <= out.len(),
                forall|k: int| 0 <= k < p ==> lex_le(T::name_of(#[trigger] out@[k]@), T::name_of(x@)),
                found ==> p < out.len() && !lex_le(T::name_of(out@[p as int]@), T::name_of(x@)),
            decreases out.len() - p + (if found { 0int } else { 1int }),
        {
            if name_le(out[p].name_ref(), x.name_ref()) {
                p = p + 1;
            } else {
                found = true;
            }
        }
        let ghost before = out@;
        proof {
            if p < out.len() {
                lemma_lex_total(T::name_of(out@[p as int]@), T::name_of(x@));
            }
            assert forall|a: int, b: int| 0 <= a < b < before.len() implies lex_le(
                T::name_of(#[trigger] before[a]@),
                T::name_of(#[trigger] before[b]@),
            ) by {
                assert(views(before)[a] == before[a]@);
                assert(views(before)[b] == before[b]@);
            }
        }
        out.insert(p, x);
        proof {
            assert(views(out@) =~= views(before).insert(p as int, x@));
            assert forall|i: int, j: int| 0 <= i < j < out@.len() implies lex_le(
                T::name_of(views(out@)[i]),
                T::name_of(views(out@)[j]),
            ) by {
                if j == p {
                    assert(out@[i] == before[i]);
                } else if i == p {
                    assert(out@[j] == before[j - 1]);
                    if j - 1 > p {
                        lemma_lex_trans(
                            T::name_of(x@),
                            T::name_of(before[p as int]@),
                            T::name_of(before[j - 1]@),
                        );
                    }
                } else if i < p && j > p {
                    assert(out@[i] == before[i]);
                    assert(out@[j] == before[j - 1]);
                    if p < before.len() {
                        lemma_lex_total(T::name_of(before[p as int]@), T::name_of(x@));
                    }
                    if j - 1 > p {
                        lemma_lex_trans(
                            T::name_of(x@),
                            T::name_of(before[p as int]@),
                            T::name_of(before[j - 1]@),
                        );
                    }
                    lemma_lex_trans(T::name_of(before[i]@), T::name_of(x@), T::name_of(before[j - 1]@));
                } else if j < p {
                    assert(out@[i] == before[i] && out@[j] == before[j]);
                } else {
                    assert(out@[i] == before[i - 1] && out@[j] == before[j - 1]);
                }
            }
        }
    }
    proof {
        assert(views(rest@) =~= Seq::<T::V>::empty());
        assert(views(rest@).to_multiset() =~= Multiset::<T::V>::empty());
        assert(views(out@).to_multiset().add(Multiset::empty()) =~= views(out@).to_multiset());
    }
    out
}

} // verus!
