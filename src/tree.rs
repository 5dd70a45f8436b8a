//! The descendants of a collection, found by following parent links.

use vstd::prelude::*;
use crate::model::{views, Collection, CollectionView};
use crate::tags::strings_view;

verus! {

/// `x` is `root`, or a collection with identifier `x` has a parent that
/// reaches `root` in fewer steps.
pub open spec fn reaches(cols: Seq<CollectionView>, x: Seq<char>, root: Seq<char>, steps: nat) -> bool
    decreases steps,
{
    x == root || (steps > 0 && exists|i: int|
        0 <= i < cols.len() && (#[trigger] cols[i]).id == x && cols[i].parent_id is Some
            && reaches(cols, cols[i].parent_id->0, root, (steps - 1) as nat))
}

/// `x` is `root` or the identifier of one of its descendants.
pub open spec fn in_subtree(cols: Seq<CollectionView>, root: Seq<char>, x: Seq<char>) -> bool {
    exists|steps: nat| reaches(cols, x, root, steps)
}

pub open spec fn count_unmarked(s: Seq<bool>) -> nat
    decreases s.len(),
{
    if s.len() == 0 {
        0
    } else {
        count_unmarked(s.drop_last()) + if s.last() { 0nat } else { 1nat }
    }
}

proof fn lemma_mark_decreases(s: Seq<bool>, i: int)
    requires
        0 <= i < s.len(),
        !s[i],
    ensures
        count_unmarked(s.update(i, true)) < count_unmarked(s),
    decreases s.len(),
{
    let t = s.update(i, true);
    if i == s.len() - 1 {
        assert(t.drop_last() =~= s.drop_last());
    } else {
        lemma_mark_decreases(s.drop_last(), i);
        assert(t.drop_last() =~= s.drop_last().update(i, true));
    }
}

/// Some marked collection has identifier `x`.
pub open spec fn marked_id(cols: Seq<CollectionView>, marked: Seq<bool>, x: Seq<char>) -> bool {
    exists|j: int| 0 <= j < cols.len() && j < marked.len() && marked[j] && (#[trigger] cols[j]).id == x
}

proof fn lemma_push_contains(s: Seq<Seq<char>>, y: Seq<char>)
    ensures
        forall|x: Seq<char>| #[trigger] s.push(y).contains(x) <==> s.contains(x) || x == y,
{
    assert forall|x: Seq<char>| #[trigger] s.push(y).contains(x) <==> s.contains(x) || x == y by {
        if s.push(y).contains(x) {
            let t = choose|t: int| 0 <= t < s.push(y).len() && s.push(y)[t] == x;
            if t < s.len() {
                assert(s[t] == x);
            }
        }
        if s.contains(x) {
            let t = choose|t: int| 0 <= t < s.len() && s[t] == x;
            assert(s.push(y)[t] == x);
        }
        if x == y {
            assert(s.push(y)[s.len() as int] == x);
        }
    }
}

/// A marked collection among the first `j` has identifier `x`.
pub open spec fn marked_before(cols: Seq<CollectionView>, marked: Seq<bool>, j: int, x: Seq<char>) -> bool {
    exists|k: int| 0 <= k < j && marked[k] && (#[trigger] cols[k]).id == x
}

/// No unmarked collection has the root or a marked collection as parent.
pub open spec fn closed_at(cols: Seq<CollectionView>, marked: Seq<bool>, root: Seq<char>, i: int) -> bool {
    !marked[i] && cols[i].parent_id is Some ==> cols[i].parent_id->0 != root && !marked_id(
        cols,
        marked,
        cols[i].parent_id->0,
    )
}

proof fn lemma_closed_complete(
    cols: Seq<CollectionView>,
    marked: Seq<bool>,
    root: Seq<char>,
    x: Seq<char>,
    steps: nat,
)
    requires
        marked.len() == cols.len(),
        forall|i: int| 0 <= i < cols.len() ==> #[trigger] closed_at(cols, marked, root, i),
        reaches(cols, x, root, steps),
    ensures
        x == root || marked_id(cols, marked, x),
    decreases steps,
{
    if x != root {
        let i = choose|i: int|
            0 <= i < cols.len() && (#[trigger] cols[i]).id == x && cols[i].parent_id is Some
                && reaches(cols, cols[i].parent_id->0, root, (steps - 1) as nat);
        lemma_closed_complete(cols, marked, root, cols[i].parent_id->0, (steps - 1) as nat);
        assert(closed_at(cols, marked, root, i));
        assert(marked[i]);
    }
}

fn is_marked_id(cols: &Vec<Collection>, marked: &Vec<bool>, x: &String) -> (r: bool)
    requires
        marked.len() == cols.len(),
    ensures
        r == marked_id(views(cols@), marked@, x@),
{
    let ghost cv = views(cols@);
    let mut j: usize = 0;
    while j < cols.len()
        invariant
            j <= cols.len(),
            marked.len() == cols.len(),
            cv == views(cols@),
            forall|k: int| 0 <= k < j ==> !(marked@[k] && (#[trigger] cv[k]).id == x@),
        decreases cols.len() - j,
    {
        if marked[j] && cols[j].id == *x {
            assert(cv[j as int].id == x@);
            return true;
        }
        j = j + 1;
    }
    false
}

/// The identifiers of `root` and of all its descendants, each once or more.
pub fn subtree_ids(cols: &Vec<Collection>, root: &String) -> (r: Vec<String>)
    ensures
        forall|x: Seq<char>|
            strings_view(r@).contains(x) <==> in_subtree(views(cols@), root@, x),
{
    let ghost cv = views(cols@);
    let n = cols.len();
    let mut marked: Vec<bool> = Vec::new();
    while marked.len() < n
        invariant
            marked.len() <= n,
            forall|k: int| 0 <= k < marked.len() ==> !marked@[k],
        decreases n - marked.len(),
    {
        marked.push(false);
    }
    let mut changed = true;
    while changed
        invariant
            n == cols.len(),
            marked.len() == n,
            cv == views(cols@),
            forall|k: int| 0 <= k < n && #[trigger] marked@[k] ==> in_subtree(cv, root@, cv[k].id),
            !changed ==> forall|k: int| 0 <= k < n ==> #[trigger] closed_at(cv, marked@, root@, k),
        decreases count_unmarked(marked@) + if changed { 1nat } else { 0nat },
    {
        changed = false;
        let ghost start = marked@;
        let mut i: usize = 0;
        while i < n
            invariant
                n == cols.len(),
                marked.len() == n,
                i <= n,
                cv == views(cols@),
                forall|k: int| 0 <= k < n && #[trigger] marked@[k] ==> in_subtree(cv, root@, cv[k].id),
                changed ==> count_unmarked(marked@) < count_unmarked(start),
                !changed ==> marked@ == start,
                !changed ==> forall|k: int| 0 <= k < i ==> #[trigger] closed_at(cv, marked@, root@, k),
            decreases n - i,
        {
            if !marked[i] {
                let hit = match &cols[i].parent_id {
                    Some(p) => *p == *root || is_marked_id(cols, &marked, p),
                    None => false,
                };
                if hit {
                    proof {
                        let p = cv[i as int].parent_id->0;
                        if p == root@ {
                            assert(reaches(cv, p, root@, 0));
                            assert(reaches(cv, cv[i as int].id, root@, 1));
                        } else {
                            let j = choose|j: int| 0 <= j < cv.len() && j < marked@.len() && marked@[j] && (#[trigger] cv[j]).id == p;
                            assert(in_subtree(cv, root@, cv[j].id));
                            let m = choose|m: nat| reaches(cv, cv[j].id, root@, m);
                            assert(reaches(cv, cv[i as int].id, root@, m + 1));
                        }
                        lemma_mark_decreases(marked@, i as int);
                    }
                    marked[i] = true;
                    changed = true;
                }
            }
            i = i + 1;
        }
    }
    let mut ids: Vec<String> = Vec::new();
    ids.push(root.clone());
    proof {
        assert(strings_view(ids@) =~= Seq::<Seq<char>>::empty().push(root@));
        lemma_push_contains(Seq::<Seq<char>>::empty(), root@);
    }
    let mut j: usize = 0;
    while j < n
        invariant
            n == cols.len(),
            marked.len() == n,
            j <= n,
            cv == views(cols@),
            forall|x: Seq<char>|
                strings_view(ids@).contains(x) <==> (x == root@ || marked_before(cv, marked@, j as int, x)),
        decreases n - j,
    {
        let ghost before = ids@;
        if marked[j] {
            ids.push(cols[j].id.clone());
            proof {
                assert(strings_view(ids@) =~= strings_view(before).push(cv[j as int].id));
                lemma_push_contains(strings_view(before), cv[j as int].id);
            }
        } else {
            proof {
                assert(strings_view(ids@) =~= strings_view(before));
            }
        }
        proof {
            assert forall|x: Seq<char>|
                strings_view(ids@).contains(x) <==> (x == root@ || marked_before(cv, marked@, j + 1, x)) by {
                if marked_before(cv, marked@, j + 1, x) && !marked_before(cv, marked@, j as int, x) {
                    assert(marked@[j as int] && cv[j as int].id == x);
                }
                if marked_before(cv, marked@, j as int, x) {
                    let k = choose|k: int| 0 <= k < j && marked@[k] && (#[trigger] cv[k]).id == x;
                    assert(marked_before(cv, marked@, j + 1, x));
                }
            }
        }
        j = j + 1;
    }
    proof {
        assert forall|x: Seq<char>| strings_view(ids@).contains(x) <==> in_subtree(cv, root@, x) by {
            if x == root@ {
                assert(reaches(cv, x, root@, 0));
            } else if marked_before(cv, marked@, n as int, x) {
                let k = choose|k: int| 0 <= k < n && marked@[k] && (#[trigger] cv[k]).id == x;
                assert(in_subtree(cv, root@, cv[k].id));
            }
            if in_subtree(cv, root@, x) {
                let m = choose|m: nat| reaches(cv, x, root@, m);
                lemma_closed_complete(cv, marked@, root@, x, m);
                if x != root@ {
                    let k = choose|k: int| 0 <= k < cv.len() && k < marked@.len() && marked@[k] && (#[trigger] cv[k]).id == x;
                    assert(marked_before(cv, marked@, n as int, x));
                }
            }
        }
    }
    ids
}

} // verus!
