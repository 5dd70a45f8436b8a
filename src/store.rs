//! The tables of collections, icons and settings, with their integrity rules.

use vstd::prelude::*;
use crate::model::{
    views, icon_of, Collection, CollectionView, Icon, IconView, IconRow, IconRowView, SettingRow,
    StoreError,
};
use crate::model::{opt_view, Settings};
use crate::settings::{setting, theme_of, icon_size_of, tint_of, parse_i32, lemma_setting_update, lemma_setting_push};
use crate::sort::{sort_by_name, sorted_by_name};
use crate::tags::{strings_view, join_tags, encode_tags, decode_tags, contains_string, trim, lemma_tags_round_trip};
use crate::tree::{in_subtree, reaches, subtree_ids};

verus! {

/// The rows of the three tables.
pub struct StoreView {
    pub collections: Seq<CollectionView>,
    pub icons: Seq<IconRowView>,
    pub settings: Seq<(Seq<char>, Seq<char>)>,
}

/// All rows of one store. Operations run one at a time through `&mut self`,
/// so a reader never sees a change half done.
pub struct Store {
    collections: Vec<Collection>,
    icons: Vec<IconRow>,
    settings: Vec<SettingRow>,
}

pub open spec fn setting_views(s: Seq<SettingRow>) -> Seq<(Seq<char>, Seq<char>)> {
    Seq::new(s.len(), |i: int| (s[i].key@, s[i].value@))
}

impl View for Store {
    type V = StoreView;

    closed spec fn view(&self) -> StoreView {
        StoreView {
            collections: views(self.collections@),
            icons: views(self.icons@),
            settings: setting_views(self.settings@),
        }
    }
}

pub open spec fn has_collection(cols: Seq<CollectionView>, id: Seq<char>) -> bool {
    exists|i: int| 0 <= i < cols.len() && (#[trigger] cols[i]).id == id
}

pub open spec fn has_icon(icons: Seq<IconRowView>, id: Seq<char>) -> bool {
    exists|i: int| 0 <= i < icons.len() && (#[trigger] icons[i]).id == id
}

/// The integrity rules of the tables: identifiers are unique, a parent is a
/// stored collection, and every icon belongs to a stored collection.
pub open spec fn integrity(v: StoreView) -> bool {
    &&& forall|i: int, j: int|
        0 <= i < j < v.collections.len() ==> (#[trigger] v.collections[i]).id
            != (#[trigger] v.collections[j]).id
    &&& forall|i: int|
        0 <= i < v.collections.len() && (#[trigger] v.collections[i]).parent_id is Some
            ==> has_collection(v.collections, v.collections[i].parent_id->0)
    &&& forall|i: int, j: int|
        0 <= i < j < v.icons.len() ==> (#[trigger] v.icons[i]).id != (#[trigger] v.icons[j]).id
    &&& forall|i: int|
        0 <= i < v.icons.len() ==> has_collection(v.collections, (#[trigger] v.icons[i]).collection_id)
}

/// The collections after a rename of those with identifier `id`.
pub open spec fn renamed(cols: Seq<CollectionView>, id: Seq<char>, name: Seq<char>) -> Seq<CollectionView> {
    Seq::new(
        cols.len(),
        |i: int| if cols[i].id == id { CollectionView { name: name, ..cols[i] } } else { cols[i] },
    )
}

/// The collections after the count of those with identifier `id` is set.
pub open spec fn recounted(cols: Seq<CollectionView>, id: Seq<char>, count: i32) -> Seq<CollectionView> {
    Seq::new(
        cols.len(),
        |i: int| if cols[i].id == id { CollectionView { icon_count: count, ..cols[i] } } else { cols[i] },
    )
}

/// Collections that stay when the subtree of `root` is deleted.
pub open spec fn keep_collection(cols: Seq<CollectionView>, root: Seq<char>) -> spec_fn(CollectionView) -> bool {
    |c: CollectionView| !in_subtree(cols, root, c.id)
}

/// Icons that stay when the subtree of `root` is deleted.
pub open spec fn keep_icon(cols: Seq<CollectionView>, root: Seq<char>) -> spec_fn(IconRowView) -> bool {
    |r: IconRowView| !in_subtree(cols, root, r.collection_id)
}

/// The stored form of an icon.
pub open spec fn row_of(i: IconView) -> IconRowView {
    IconRowView {
        id: i.id,
        name: i.name,
        path: i.path,
        svg_content: i.svg_content,
        tags: join_tags(i.tags),
        collection_id: i.collection_id,
        created_at: i.created_at,
        file_size: i.file_size,
        favorite: i.favorite,
    }
}

/// Icons other than those with identifier `id`.
pub open spec fn other_icon(id: Seq<char>) -> spec_fn(IconRowView) -> bool {
    |r: IconRowView| r.id != id
}

/// Icons in the collection `cid`, or in any collection; all of them, or
/// only favorites.
pub open spec fn selected(cid: Option<Seq<char>>, favorites_only: bool) -> spec_fn(IconRowView) -> bool {
    |r: IconRowView| (cid is None || r.collection_id == cid->0) && (!favorites_only || r.favorite)
}

/// What a caller reads for each of `rows`.
pub open spec fn icons_of(rows: Seq<IconRowView>) -> Seq<IconView> {
    Seq::new(rows.len(), |i: int| icon_of(rows[i]))
}

/// The icons after the favorite flag of those with identifier `id` flips.
pub open spec fn toggled(icons: Seq<IconRowView>, id: Seq<char>) -> Seq<IconRowView> {
    Seq::new(
        icons.len(),
        |i: int| if icons[i].id == id { IconRowView { favorite: !icons[i].favorite, ..icons[i] } } else { icons[i] },
    )
}

/// The icons after the tags of those with identifier `id` are replaced.
pub open spec fn retagged(icons: Seq<IconRowView>, id: Seq<char>, tags: Seq<char>) -> Seq<IconRowView> {
    Seq::new(
        icons.len(),
        |i: int| if icons[i].id == id { IconRowView { tags: tags, ..icons[i] } } else { icons[i] },
    )
}

fn icon_from_row(row: &IconRow) -> (r: Icon)
    ensures
        r@ == icon_of(row@),
{
    let tags = decode_tags(&row.tags);
    Icon {
        id: row.id.clone(),
        name: row.name.clone(),
        path: row.path.clone(),
        svg_content: row.svg_content.clone(),
        tags,
        collection_id: row.collection_id.clone(),
        created_at: row.created_at.clone(),
        file_size: row.file_size,
        favorite: row.favorite,
    }
}

pub open spec fn opt_ref_view(o: Option<&String>) -> Option<Seq<char>> {
    match o {
        Some(s) => Some(s@),
        None => None,
    }
}

proof fn lemma_filter_all<A>(s: Seq<A>, p: spec_fn(A) -> bool)
    requires
        forall|i: int| 0 <= i < s.len() ==> p(#[trigger] s[i]),
    ensures
        s.filter(p) == s,
    decreases s.len(),
{
    reveal(Seq::filter);
    if s.len() > 0 {
        assert forall|i: int| 0 <= i < s.drop_last().len() implies p(#[trigger] s.drop_last()[i]) by {
            assert(s.drop_last()[i] == s[i]);
        }
        lemma_filter_all(s.drop_last(), p);
        assert(p(s[s.len() - 1]));
        assert(s.drop_last().push(s.last()) =~= s);
    } else {
        assert(s.filter(p) =~= s);
    }
}

impl Store {
    /// A store with no rows.
    pub fn new() -> (r: Store)
        ensures
            r@.collections.len() == 0,
            r@.icons.len() == 0,
            r@.settings.len() == 0,
            integrity(r@),
    {
        Store { collections: Vec::new(), icons: Vec::new(), settings: Vec::new() }
    }

    /// A store holding the given rows, as read back from storage. Refused
    /// when the rows break an integrity rule.
    pub fn from_rows(collections: Vec<Collection>, icons: Vec<IconRow>, settings: Vec<SettingRow>) -> (r: Result<Store, StoreError>)
        ensures
            r is Ok <==> integrity(
                StoreView {
                    collections: views(collections@),
                    icons: views(icons@),
                    settings: setting_views(settings@),
                },
            ),
            r matches Ok(st) ==> st@ == (StoreView {
                collections: views(collections@),
                icons: views(icons@),
                settings: setting_views(settings@),
            }),
            r is Err ==> r == Err::<Store, StoreError>(StoreError::Inconsistent),
    {
        let st = Store { collections, icons, settings };
        if st.check_integrity() {
            Ok(st)
        } else {
            Err(StoreError::Inconsistent)
        }
    }

    fn check_integrity(&self) -> (r: bool)
        ensures
            r == integrity(self@),
    {
        let ghost v = self@;
        let n = self.collections.len();
        let mut i: usize = 0;
        while i < n
            invariant
                n == v.collections.len(),
                v == self@,
                i <= n,
                forall|a: int, b: int| 0 <= a < i && a < b < n ==> (#[trigger] v.collections[a]).id != (#[trigger] v.collections[b]).id,
            decreases n - i,
        {
            let mut j: usize = i + 1;
            while j < n
                invariant
                    n == v.collections.len(),
                    v == self@,
                    i < n,
                    i + 1 <= j <= n,
                    forall|a: int, b: int| 0 <= a < i && a < b < n ==> (#[trigger] v.collections[a]).id != (#[trigger] v.collections[b]).id,
                    forall|b: int| i < b < j ==> v.collections[i as int].id != (#[trigger] v.collections[b]).id,
                decreases n - j,
            {
                if self.collections[i].id == self.collections[j].id {
                    assert(v.collections[i as int].id == v.collections[j as int].id);
                    return false;
                }
                j = j + 1;
            }
            i = i + 1;
        }
        let mut i: usize = 0;
        while i < n
            invariant
                n == v.collections.len(),
                v == self@,
                i <= n,
                forall|a: int| 0 <= a < i && (#[trigger] v.collections[a]).parent_id is Some
                    ==> has_collection(v.collections, v.collections[a].parent_id->0),
            decreases n - i,
        {
            match &self.collections[i].parent_id {
                Some(p) => {
                    if !self.collection_exists(p) {
                        assert(v.collections[i as int].parent_id is Some);
                        assert(!has_collection(v.collections, v.collections[i as int].parent_id->0));
                        return false;
                    }
                },
                None => {},
            }
            i = i + 1;
        }
        let m = self.icons.len();
        let mut i: usize = 0;
        while i < m
            invariant
                m == v.icons.len(),
                v == self@,
                i <= m,
                forall|a: int, b: int| 0 <= a < i && a < b < m ==> (#[trigger] v.icons[a]).id != (#[trigger] v.icons[b]).id,
                forall|a: int| 0 <= a < i ==> has_collection(v.collections, (#[trigger] v.icons[a]).collection_id),
            decreases m - i,
        {
            if !self.collection_exists(&self.icons[i].collection_id) {
                assert(!has_collection(v.collections, v.icons[i as int].collection_id));
                return false;
            }
            let mut j: usize = i + 1;
            while j < m
                invariant
                    m == v.icons.len(),
                    v == self@,
                    i < m,
                    i + 1 <= j <= m,
                    forall|a: int, b: int| 0 <= a < i && a < b < m ==> (#[trigger] v.icons[a]).id != (#[trigger] v.icons[b]).id,
                    forall|b: int| i < b < j ==> v.icons[i as int].id != (#[trigger] v.icons[b]).id,
                decreases m - j,
            {
                if self.icons[i].id == self.icons[j].id {
                    assert(v.icons[i as int].id == v.icons[j as int].id);
                    return false;
                }
                j = j + 1;
            }
            i = i + 1;
        }
        true
    }

    pub fn collection_exists(&self, id: &String) -> (r: bool)
        ensures
            r == has_collection(self@.collections, id@),
    {
        let mut i: usize = 0;
        while i < self.collections.len()
            invariant
                i <= self.collections.len(),
                forall|k: int| 0 <= k < i ==> (#[trigger] self.collections@[k]).id@ != id@,
            decreases self.collections.len() - i,
        {
            if self.collections[i].id == *id {
                assert(self@.collections[i as int].id == id@);
                return true;
            }
            i = i + 1;
        }
        proof {
            if has_collection(self@.collections, id@) {
                let k = choose|k: int| 0 <= k < self@.collections.len() && (#[trigger] self@.collections[k]).id == id@;
                assert(self.collections@[k].id@ == id@);
            }
        }
        false
    }

    pub fn icon_exists(&self, id: &String) -> (r: bool)
        ensures
            r == has_icon(self@.icons, id@),
    {
        let mut i: usize = 0;
        while i < self.icons.len()
            invariant
                i <= self.icons.len(),
                forall|k: int| 0 <= k < i ==> (#[trigger] self.icons@[k]).id@ != id@,
            decreases self.icons.len() - i,
        {
            if self.icons[i].id == *id {
                assert(self@.icons[i as int].id == id@);
                return true;
            }
            i = i + 1;
        }
        proof {
            if has_icon(self@.icons, id@) {
                let k = choose|k: int| 0 <= k < self@.icons.len() && (#[trigger] self@.icons[k]).id == id@;
                assert(self.icons@[k].id@ == id@);
            }
        }
        false
    }

    /// Adds a collection. Refused when its identifier is taken, or when it
    /// names a parent that is not stored.
    pub fn insert_collection(&mut self, collection: &Collection) -> (r: Result<(), StoreError>)
        ensures
            has_collection(old(self)@.collections, collection.id@) ==> r == Err::<(), StoreError>(StoreError::DuplicateId),
            !has_collection(old(self)@.collections, collection.id@) && collection@.parent_id is Some
                && !has_collection(old(self)@.collections, collection@.parent_id->0)
                ==> r == Err::<(), StoreError>(StoreError::MissingParent),
            r is Ok <==> !has_collection(old(self)@.collections, collection.id@) && (
                collection@.parent_id is Some ==> has_collection(old(self)@.collections, collection@.parent_id->0)),
            r is Ok ==> final(self)@.collections == old(self)@.collections.push(collection@),
            r is Err ==> final(self)@.collections == old(self)@.collections,
            final(self)@.icons == old(self)@.icons,
            final(self)@.settings == old(self)@.settings,
            integrity(old(self)@) ==> integrity(final(self)@),
    {
        if self.collection_exists(&collection.id) {
            return Err(StoreError::DuplicateId);
        }
        match &collection.parent_id {
            Some(p) => {
                if !self.collection_exists(p) {
                    return Err(StoreError::MissingParent);
                }
            },
            None => {},
        }
        let ghost before = self@;
        self.collections.push(collection.duplicate());
        proof {
            let cols = self@.collections;
            assert(cols =~= before.collections.push(collection@));
            assert forall|id: Seq<char>| has_collection(before.collections, id) implies has_collection(cols, id) by {
                let k = choose|k: int| 0 <= k < before.collections.len() && (#[trigger] before.collections[k]).id == id;
                assert(cols[k] == before.collections[k]);
            }
            if integrity(before) {
                assert forall|i: int, j: int| 0 <= i < j < cols.len() implies (#[trigger] cols[i]).id != (#[trigger] cols[j]).id by {
                    if j == cols.len() - 1 {
                        assert(cols[i] == before.collections[i]);
                    } else {
                        assert(cols[i] == before.collections[i] && cols[j] == before.collections[j]);
                    }
                }
                assert forall|i: int| 0 <= i < cols.len() && (#[trigger] cols[i]).parent_id is Some
                    implies has_collection(cols, cols[i].parent_id->0) by {
                    if i < cols.len() - 1 {
                        assert(cols[i] == before.collections[i]);
                        assert(has_collection(before.collections, cols[i].parent_id->0));
                    }
                }
                assert forall|i: int| 0 <= i < before.icons.len() implies has_collection(
                    cols,
                    (#[trigger] before.icons[i]).collection_id,
                ) by {
                    assert(has_collection(before.collections, before.icons[i].collection_id));
                }
            }
        }
        Ok(())
    }

    /// Renames every collection with identifier `id`; nothing changes when
    /// there is none.
    pub fn rename_collection(&mut self, id: &str, new_name: &str)
        ensures
            final(self)@.collections == renamed(old(self)@.collections, id@, new_name@),
            final(self)@.icons == old(self)@.icons,
            final(self)@.settings == old(self)@.settings,
            integrity(old(self)@) ==> integrity(final(self)@),
    {
        let key = String::from_str(id);
        let ghost before = self@;
        let mut i: usize = 0;
        while i < self.collections.len()
            invariant
                i <= self.collections.len(),
                self.collections.len() == before.collections.len(),
                views(self.icons@) == before.icons,
                setting_views(self.settings@) == before.settings,
                key@ == id@,
                forall|k: int| 0 <= k < i ==> (#[trigger] self.collections@[k])@ == renamed(before.collections, id@, new_name@)[k],
                forall|k: int| i <= k < self.collections.len() ==> (#[trigger] self.collections@[k])@ == before.collections[k],
            decreases self.collections.len() - i,
        {
            if self.collections[i].id == key {
                self.collections[i].name = String::from_str(new_name);
            }
            assert(self.collections@[i as int]@ == renamed(before.collections, id@, new_name@)[i as int]);
            i = i + 1;
        }
        proof {
            let cols = self@.collections;
            assert(cols =~= renamed(before.collections, id@, new_name@));
            assert forall|x: Seq<char>| has_collection(before.collections, x) implies has_collection(cols, x) by {
                let k = choose|k: int| 0 <= k < before.collections.len() && (#[trigger] before.collections[k]).id == x;
                assert(cols[k].id == x);
            }
        }
    }

    /// Sets the recorded icon count of every collection with identifier
    /// `id`; nothing changes when there is none.
    pub fn update_collection_count(&mut self, id: &str, count: i32)
        ensures
            final(self)@.collections == recounted(old(self)@.collections, id@, count),
            final(self)@.icons == old(self)@.icons,
            final(self)@.settings == old(self)@.settings,
            integrity(old(self)@) ==> integrity(final(self)@),
    {
        let key = String::from_str(id);
        let ghost before = self@;
        let mut i: usize = 0;
        while i < self.collections.len()
            invariant
                i <= self.collections.len(),
                self.collections.len() == before.collections.len(),
                views(self.icons@) == before.icons,
                setting_views(self.settings@) == before.settings,
                key@ == id@,
                forall|k: int| 0 <= k < i ==> (#[trigger] self.collections@[k])@ == recounted(before.collections, id@, count)[k],
                forall|k: int| i <= k < self.collections.len() ==> (#[trigger] self.collections@[k])@ == before.collections[k],
            decreases self.collections.len() - i,
        {
            if self.collections[i].id == key {
                self.collections[i].icon_count = count;
            }
            assert(self.collections@[i as int]@ == recounted(before.collections, id@, count)[i as int]);
            i = i + 1;
        }
        proof {
            let cols = self@.collections;
            assert(cols =~= recounted(before.collections, id@, count));
            assert forall|x: Seq<char>| has_collection(before.collections, x) implies has_collection(cols, x) by {
                let k = choose|k: int| 0 <= k < before.collections.len() && (#[trigger] before.collections[k]).id == x;
                assert(cols[k].id == x);
            }
        }
    }

    /// Deletes the collection `id`, every collection below it, and every
    /// icon that any of them holds; returns the identifiers of that subtree.
    /// Nothing changes when `id` is not stored.
    pub fn delete_collection(&mut self, id: &str) -> (r: Vec<String>)
        ensures
            forall|x: Seq<char>|
                strings_view(r@).contains(x) <==> in_subtree(old(self)@.collections, id@, x),
            final(self)@.collections == old(self)@.collections.filter(
                keep_collection(old(self)@.collections, id@),
            ),
            final(self)@.icons == old(self)@.icons.filter(keep_icon(old(self)@.collections, id@)),
            final(self)@.settings == old(self)@.settings,
            integrity(old(self)@) ==> integrity(final(self)@),
    {
        let root = String::from_str(id);
        let ghost cv = self@.collections;
        let ghost iv = self@.icons;
        let ids = subtree_ids(&self.collections, &root);
        let mut kept: Vec<Collection> = Vec::new();
        let mut i: usize = 0;
        proof {
            assert(views(kept@) =~= cv.take(0).filter(keep_collection(cv, id@)));
        }
        while i < self.collections.len()
            invariant
                i <= self.collections.len(),
                cv == views(self.collections@),
                forall|x: Seq<char>| strings_view(ids@).contains(x) <==> in_subtree(cv, id@, x),
                views(kept@) == cv.take(i as int).filter(keep_collection(cv, id@)),
            decreases self.collections.len() - i,
        {
            let gone = contains_string(&ids, &self.collections[i].id);
            let ghost before = kept@;
            if !gone {
                kept.push(self.collections[i].duplicate());
                proof {
                    assert(views(kept@) =~= views(before).push(cv[i as int]));
                }
            }
            proof {
                assert(cv.take(i + 1) =~= cv.take(i as int).push(cv[i as int]));
                cv.take(i as int).lemma_filter_push(cv[i as int], keep_collection(cv, id@));
            }
            i = i + 1;
        }
        proof {
            assert(cv.take(i as int) =~= cv);
        }
        let mut kept_icons: Vec<IconRow> = Vec::new();
        let mut i: usize = 0;
        proof {
            assert(views(kept_icons@) =~= iv.take(0).filter(keep_icon(cv, id@)));
        }
        while i < self.icons.len()
            invariant
                i <= self.icons.len(),
                iv == views(self.icons@),
                forall|x: Seq<char>| strings_view(ids@).contains(x) <==> in_subtree(cv, id@, x),
                views(kept_icons@) == iv.take(i as int).filter(keep_icon(cv, id@)),
            decreases self.icons.len() - i,
        {
            let gone = contains_string(&ids, &self.icons[i].collection_id);
            let ghost before = kept_icons@;
            if !gone {
                kept_icons.push(self.icons[i].duplicate());
                proof {
                    assert(views(kept_icons@) =~= views(before).push(iv[i as int]));
                }
            }
            proof {
                assert(iv.take(i + 1) =~= iv.take(i as int).push(iv[i as int]));
                iv.take(i as int).lemma_filter_push(iv[i as int], keep_icon(cv, id@));
            }
            i = i + 1;
        }
        proof {
            assert(iv.take(i as int) =~= iv);
        }
        self.collections = kept;
        self.icons = kept_icons;
        proof {
            if integrity(old(self)@) {
                lemma_delete_preserves_integrity(old(self)@, id@);
            }
        }
        ids
    }

    /// Copies of all collections, ordered by name.
    pub fn get_all_collections(&self) -> (r: Vec<Collection>)
        ensures
            sorted_by_name::<Collection>(views(r@)),
            views(r@).to_multiset() == self@.collections.to_multiset(),
    {
        let mut out: Vec<Collection> = Vec::new();
        let mut i: usize = 0;
        while i < self.collections.len()
            invariant
                i <= self.collections.len(),
                views(out@) == views(self.collections@).take(i as int),
            decreases self.collections.len() - i,
        {
            let ghost before = out@;
            out.push(self.collections[i].duplicate());
            proof {
                assert(views(out@) =~= views(before).push(self.collections@[i as int]@));
                assert(views(out@) =~= views(self.collections@).take(i + 1));
            }
            i = i + 1;
        }
        proof {
            assert(views(out@) =~= views(self.collections@));
        }
        sort_by_name(out)
    }

    /// The icons that `selected(cid, favorites_only)` picks, in stored order.
    fn collect_icons(&self, cid: Option<&String>, favorites_only: bool) -> (r: Vec<Icon>)
        ensures
            views(r@) == icons_of(self@.icons.filter(selected(opt_ref_view(cid), favorites_only))),
    {
        let ghost iv = self@.icons;
        let ghost pick = selected(opt_ref_view(cid), favorites_only);
        let mut out: Vec<Icon> = Vec::new();
        let mut i: usize = 0;
        proof {
            assert(views(out@) =~= icons_of(iv.take(0).filter(pick)));
        }
        while i < self.icons.len()
            invariant
                i <= self.icons.len(),
                iv == views(self.icons@),
                pick == selected(opt_ref_view(cid), favorites_only),
                views(out@) == icons_of(iv.take(i as int).filter(pick)),
            decreases self.icons.len() - i,
        {
            let row = &self.icons[i];
            let take = match cid {
                Some(c) => row.collection_id == *c,
                None => true,
            } && (!favorites_only || row.favorite);
            let ghost before = out@;
            if take {
                out.push(icon_from_row(row));
                proof {
                    assert(views(out@) =~= views(before).push(icon_of(iv[i as int])));
                }
            }
            proof {
                assert(iv.take(i + 1) =~= iv.take(i as int).push(iv[i as int]));
                iv.take(i as int).lemma_filter_push(iv[i as int], pick);
                assert(views(out@) =~= icons_of(iv.take(i + 1).filter(pick)));
            }
            i = i + 1;
        }
        proof {
            assert(iv.take(i as int) =~= iv);
        }
        out
    }

    /// The icons of collection `collection_id`, ordered by name.
    pub fn get_icons_by_collection(&self, collection_id: &str) -> (r: Vec<Icon>)
        ensures
            sorted_by_name::<Icon>(views(r@)),
            views(r@).to_multiset() == icons_of(
                self@.icons.filter(selected(Some(collection_id@), false)),
            ).to_multiset(),
    {
        let cid = String::from_str(collection_id);
        sort_by_name(self.collect_icons(Some(&cid), false))
    }

    /// All icons, ordered by name.
    pub fn get_all_icons(&self) -> (r: Vec<Icon>)
        ensures
            sorted_by_name::<Icon>(views(r@)),
            views(r@).to_multiset() == icons_of(self@.icons).to_multiset(),
    {
        let r = sort_by_name(self.collect_icons(None, false));
        proof {
            assert(self@.icons.filter(selected(None, false)) =~= self@.icons) by {
                lemma_filter_all(self@.icons, selected(None, false));
            }
        }
        r
    }

    /// The favorite icons, ordered by name.
    pub fn get_favorite_icons(&self) -> (r: Vec<Icon>)
        ensures
            sorted_by_name::<Icon>(views(r@)),
            views(r@).to_multiset() == icons_of(self@.icons.filter(selected(None, true))).to_multiset(),
    {
        sort_by_name(self.collect_icons(None, true))
    }

    /// Adds an icon, its tags joined into their stored form. Refused when
    /// its identifier is taken, or when its collection is not stored. The
    /// collection's recorded icon count is left to the caller.
    pub fn insert_icon(&mut self, icon: &Icon) -> (r: Result<(), StoreError>)
        ensures
            has_icon(old(self)@.icons, icon.id@) ==> r == Err::<(), StoreError>(StoreError::DuplicateId),
            !has_icon(old(self)@.icons, icon.id@) && !has_collection(old(self)@.collections, icon.collection_id@)
                ==> r == Err::<(), StoreError>(StoreError::MissingCollection),
            r is Ok <==> !has_icon(old(self)@.icons, icon.id@) && has_collection(old(self)@.collections, icon.collection_id@),
            r is Ok ==> final(self)@.icons == old(self)@.icons.push(row_of(icon@)),
            r is Err ==> final(self)@.icons == old(self)@.icons,
            final(self)@.collections == old(self)@.collections,
            final(self)@.settings == old(self)@.settings,
            integrity(old(self)@) ==> integrity(final(self)@),
    {
        if self.icon_exists(&icon.id) {
            return Err(StoreError::DuplicateId);
        }
        if !self.collection_exists(&icon.collection_id) {
            return Err(StoreError::MissingCollection);
        }
        let row = IconRow {
            id: icon.id.clone(),
            name: icon.name.clone(),
            path: icon.path.clone(),
            svg_content: icon.svg_content.clone(),
            tags: encode_tags(&icon.tags),
            collection_id: icon.collection_id.clone(),
            created_at: icon.created_at.clone(),
            file_size: icon.file_size,
            favorite: icon.favorite,
        };
        let ghost before = self@;
        self.icons.push(row);
        proof {
            let ic = self@.icons;
            assert(ic =~= before.icons.push(row_of(icon@)));
            if integrity(before) {
                assert forall|i: int, j: int| 0 <= i < j < ic.len() implies (#[trigger] ic[i]).id != (#[trigger] ic[j]).id by {
                    if j == ic.len() - 1 {
                        assert(ic[i] == before.icons[i]);
                    } else {
                        assert(ic[i] == before.icons[i] && ic[j] == before.icons[j]);
                    }
                }
                assert forall|i: int| 0 <= i < ic.len() implies has_collection(self@.collections, (#[trigger] ic[i]).collection_id) by {
                    if i < ic.len() - 1 {
                        assert(ic[i] == before.icons[i]);
                    }
                }
            }
        }
        Ok(())
    }

    /// Removes the icon `icon_id`; nothing changes when it is not stored.
    /// The collection's recorded icon count is left to the caller.
    pub fn delete_icon(&mut self, icon_id: &str)
        ensures
            final(self)@.icons == old(self)@.icons.filter(other_icon(icon_id@)),
            final(self)@.collections == old(self)@.collections,
            final(self)@.settings == old(self)@.settings,
            integrity(old(self)@) ==> integrity(final(self)@),
    {
        let key = String::from_str(icon_id);
        let ghost iv = self@.icons;
        let mut kept: Vec<IconRow> = Vec::new();
        let mut i: usize = 0;
        proof {
            assert(views(kept@) =~= iv.take(0).filter(other_icon(icon_id@)));
        }
        while i < self.icons.len()
            invariant
                i <= self.icons.len(),
                iv == views(self.icons@),
                key@ == icon_id@,
                views(kept@) == iv.take(i as int).filter(other_icon(icon_id@)),
            decreases self.icons.len() - i,
        {
            let ghost before = kept@;
            if self.icons[i].id != key {
                kept.push(self.icons[i].duplicate());
                proof {
                    assert(views(kept@) =~= views(before).push(iv[i as int]));
                }
            }
            proof {
                assert(iv.take(i + 1) =~= iv.take(i as int).push(iv[i as int]));
                iv.take(i as int).lemma_filter_push(iv[i as int], other_icon(icon_id@));
            }
            i = i + 1;
        }
        proof {
            assert(iv.take(i as int) =~= iv);
        }
        self.icons = kept;
        proof {
            let before = old(self)@;
            if integrity(before) {
                let ki = iv.filter(other_icon(icon_id@));
                let iid = |r: IconRowView| r.id;
                assert forall|a: int, b: int| 0 <= a < b < iv.len() implies iid(#[trigger] iv[a]) != iid(#[trigger] iv[b]) by {}
                lemma_filter_keys_unique(iv, other_icon(icon_id@), iid);
                assert forall|a: int, b: int| 0 <= a < b < ki.len() implies (#[trigger] ki[a]).id != (#[trigger] ki[b]).id by {
                    assert(iid(ki[a]) != iid(ki[b]));
                }
                assert forall|a: int| 0 <= a < ki.len() implies has_collection(before.collections, (#[trigger] ki[a]).collection_id) by {
                    assert(ki.contains(ki[a]));
                    iv.lemma_filter_contains_rev(other_icon(icon_id@), ki[a]);
                }
            }
        }
    }

    /// Flips the favorite flag of the icon `icon_id` and returns its new
    /// value. Fails when no icon has that identifier.
    pub fn toggle_favorite(&mut self, icon_id: &str) -> (r: Result<bool, StoreError>)
        ensures
            r is Err <==> !has_icon(old(self)@.icons, icon_id@),
            r is Err ==> r == Err::<bool, StoreError>(StoreError::NotFound),
            final(self)@.icons == toggled(old(self)@.icons, icon_id@),
            r matches Ok(b) ==> exists|k: int|
                0 <= k < final(self)@.icons.len() && (#[trigger] final(self)@.icons[k]).id == icon_id@
                    && final(self)@.icons[k].favorite == b
                    && forall|j: int| 0 <= j < k ==> (#[trigger] old(self)@.icons[j]).id != icon_id@,
            integrity(old(self)@) ==> forall|k: int|
                0 <= k < final(self)@.icons.len() && (#[trigger] final(self)@.icons[k]).id == icon_id@
                    ==> r == Ok::<bool, StoreError>(final(self)@.icons[k].favorite),
            final(self)@.collections == old(self)@.collections,
            final(self)@.settings == old(self)@.settings,
            integrity(old(self)@) ==> integrity(final(self)@),
    {
        let key = String::from_str(icon_id);
        let ghost before = self@;
        assert(before == old(self)@);
        let mut result: Option<bool> = None;
        let ghost mut first: int = 0;
        let mut i: usize = 0;
        while i < self.icons.len()
            invariant
                i <= self.icons.len(),
                self.icons.len() == before.icons.len(),
                views(self.collections@) == before.collections,
                setting_views(self.settings@) == before.settings,
                key@ == icon_id@,
                forall|k: int| 0 <= k < i ==> (#[trigger] self.icons@[k])@ == toggled(before.icons, icon_id@)[k],
                forall|k: int| i <= k < self.icons.len() ==> (#[trigger] self.icons@[k])@ == before.icons[k],
                result is None <==> forall|k: int| 0 <= k < i ==> (#[trigger] before.icons[k]).id != icon_id@,
                result matches Some(b) ==> 0 <= first < i && self.icons@[first]@.id == icon_id@
                    && self.icons@[first].favorite == b,
                result is Some ==> forall|k: int| 0 <= k < first ==> (#[trigger] before.icons[k]).id != icon_id@,
            decreases self.icons.len() - i,
        {
            if self.icons[i].id == key {
                let flipped = !self.icons[i].favorite;
                self.icons[i].favorite = flipped;
                if result.is_none() {
                    result = Some(flipped);
                    proof {
                        first = i as int;
                    }
                }
            }
            assert(self.icons@[i as int]@ == toggled(before.icons, icon_id@)[i as int]);
            i = i + 1;
        }
        proof {
            assert(self@.icons =~= toggled(before.icons, icon_id@));
            if integrity(before) {
                let ic = self@.icons;
                assert forall|a: int, b: int| 0 <= a < b < ic.len() implies (#[trigger] ic[a]).id != (#[trigger] ic[b]).id by {
                    assert(ic[a].id == before.icons[a].id && ic[b].id == before.icons[b].id);
                }
                assert forall|a: int| 0 <= a < ic.len() implies has_collection(self@.collections, (#[trigger] ic[a]).collection_id) by {
                    assert(ic[a].collection_id == before.icons[a].collection_id);
                }
            }
            if has_icon(before.icons, icon_id@) {
                let k = choose|k: int| 0 <= k < before.icons.len() && (#[trigger] before.icons[k]).id == icon_id@;
                assert(before.icons[k].id == icon_id@);
            }
        }
        match result {
            Some(b) => {
                proof {
                    assert(self@.icons[first].id == icon_id@);
                    if integrity(before) {
                        assert forall|k: int|
                            0 <= k < self@.icons.len() && (#[trigger] self@.icons[k]).id == icon_id@
                                implies k == first by {
                            assert(before.icons[k].id == self@.icons[k].id);
                            assert(before.icons[first].id == self@.icons[first].id);
                        }
                    }
                }
                Ok(b)
            },
            None => Err(StoreError::NotFound),
        }
    }

    /// Replaces the whole tag list of the icon `icon_id`; nothing changes
    /// when it is not stored.
    pub fn update_icon_tags(&mut self, icon_id: &str, tags: &Vec<String>)
        ensures
            final(self)@.icons == retagged(old(self)@.icons, icon_id@, join_tags(strings_view(tags@))),
            final(self)@.collections == old(self)@.collections,
            final(self)@.settings == old(self)@.settings,
            integrity(old(self)@) ==> integrity(final(self)@),
    {
        let key = String::from_str(icon_id);
        let stored = encode_tags(tags);
        let ghost before = self@;
        let mut i: usize = 0;
        while i < self.icons.len()
            invariant
                i <= self.icons.len(),
                self.icons.len() == before.icons.len(),
                views(self.collections@) == before.collections,
                setting_views(self.settings@) == before.settings,
                key@ == icon_id@,
                stored@ == join_tags(strings_view(tags@)),
                forall|k: int| 0 <= k < i ==> (#[trigger] self.icons@[k])@ == retagged(before.icons, icon_id@, stored@)[k],
                forall|k: int| i <= k < self.icons.len() ==> (#[trigger] self.icons@[k])@ == before.icons[k],
            decreases self.icons.len() - i,
        {
            if self.icons[i].id == key {
                self.icons[i].tags = stored.clone();
            }
            assert(self.icons@[i as int]@ == retagged(before.icons, icon_id@, stored@)[i as int]);
            i = i + 1;
        }
        proof {
            assert(self@.icons =~= retagged(before.icons, icon_id@, stored@));
            if integrity(before) {
                let ic = self@.icons;
                assert forall|a: int, b: int| 0 <= a < b < ic.len() implies (#[trigger] ic[a]).id != (#[trigger] ic[b]).id by {
                    assert(ic[a].id == before.icons[a].id && ic[b].id == before.icons[b].id);
                }
                assert forall|a: int| 0 <= a < ic.len() implies has_collection(self@.collections, (#[trigger] ic[a]).collection_id) by {
                    assert(ic[a].collection_id == before.icons[a].collection_id);
                }
            }
        }
    }

    /// The number of stored icons.
    pub fn get_total_icon_count(&self) -> (r: usize)
        ensures
            r == self@.icons.len(),
    {
        self.icons.len()
    }

    /// The number of favorite icons.
    pub fn get_favorite_count(&self) -> (r: usize)
        ensures
            r == self@.icons.filter(selected(None, true)).len(),
    {
        let ghost iv = self@.icons;
        let mut n: usize = 0;
        let mut i: usize = 0;
        proof {
            assert(iv.take(0).filter(selected(None, true)) =~= Seq::<IconRowView>::empty());
        }
        while i < self.icons.len()
            invariant
                i <= self.icons.len(),
                iv == views(self.icons@),
                n == iv.take(i as int).filter(selected(None, true)).len(),
                n <= i,
            decreases self.icons.len() - i,
        {
            if self.icons[i].favorite {
                n = n + 1;
            }
            proof {
                assert(iv.take(i + 1) =~= iv.take(i as int).push(iv[i as int]));
                iv.take(i as int).lemma_filter_push(iv[i as int], selected(None, true));
            }
            i = i + 1;
        }
        proof {
            assert(iv.take(i as int) =~= iv);
        }
        n
    }

    /// The value stored under `key`, if any.
    fn lookup_setting(&self, key: &str) -> (r: Option<String>)
        ensures
            opt_view(r) == setting(self@.settings, key@),
    {
        let k = String::from_str(key);
        let ghost rows = self@.settings;
        let mut i: usize = self.settings.len();
        assert(rows.take(i as int) =~= rows);
        while i > 0
            invariant
                i <= self.settings.len(),
                rows == setting_views(self.settings@),
                k@ == key@,
                setting(rows, key@) == setting(rows.take(i as int), key@),
            decreases i,
        {
            assert(rows.take(i as int).drop_last() =~= rows.take(i - 1));
            assert(rows.take(i as int).last() == rows[i - 1]);
            if self.settings[i - 1].key == k {
                return Some(self.settings[i - 1].value.clone());
            }
            i = i - 1;
        }
        assert(rows.take(0) =~= Seq::<(Seq<char>, Seq<char>)>::empty());
        None
    }

    /// The settings, each read on its own with its default where it is
    /// missing or does not read.
    pub fn get_settings(&self) -> (r: Settings)
        ensures
            r.theme@ == theme_of(self@.settings),
            r.icon_size == icon_size_of(self@.settings),
            opt_view(r.tint_color) == tint_of(self@.settings),
    {
        let theme = match self.lookup_setting("theme") {
            Some(v) => v,
            None => String::from_str("light"),
        };
        let icon_size = match self.lookup_setting("icon_size") {
            Some(v) => match parse_i32(v.as_str()) {
                Some(n) => n,
                None => 64,
            },
            None => 64,
        };
        let tint_color = match self.lookup_setting("tint_color") {
            Some(v) => if v.as_str().unicode_len() == 0 {
                None
            } else {
                Some(v)
            },
            None => None,
        };
        Settings { theme, icon_size, tint_color }
    }

    /// Stores `value` under `key`, replacing what was there.
    pub fn save_setting(&mut self, key: &str, value: &str)
        ensures
            forall|k: Seq<char>| #[trigger] setting(final(self)@.settings, k) == if k == key@ {
                Some(value@)
            } else {
                setting(old(self)@.settings, k)
            },
            final(self)@.collections == old(self)@.collections,
            final(self)@.icons == old(self)@.icons,
            integrity(old(self)@) ==> integrity(final(self)@),
    {
        let k = String::from_str(key);
        let ghost rows = self@.settings;
        let ghost before = self@;
        let mut i: usize = self.settings.len();
        while i > 0
            invariant
                i <= self.settings.len(),
                rows == setting_views(self.settings@),
                before == self@,
                before == old(self)@,
                k@ == key@,
                forall|j: int| i <= j < rows.len() ==> (#[trigger] rows[j]).0 != key@,
            decreases i,
        {
            if self.settings[i - 1].key == k {
                proof {
                    assert(rows[i - 1].0 == key@);
                    lemma_setting_update(rows, i - 1, value@);
                }
                self.settings[i - 1].value = String::from_str(value);
                proof {
                    assert(setting_views(self.settings@) =~= rows.update(i - 1, (rows[i - 1].0, value@)));
                    assert(self@.collections == before.collections && self@.icons == before.icons);
                }
                return;
            }
            i = i - 1;
        }
        proof {
            lemma_setting_push(rows, key@, value@);
        }
        self.settings.push(SettingRow { key: k, value: String::from_str(value) });
        proof {
            assert(setting_views(self.settings@) =~= rows.push((key@, value@)));
        }
    }
}

/// The collections that deleting the subtree of `root` removes.
pub open spec fn gone_collection(cols: Seq<CollectionView>, root: Seq<char>) -> spec_fn(CollectionView) -> bool {
    |c: CollectionView| in_subtree(cols, root, c.id)
}

/// The icons that deleting the subtree of `root` removes.
pub open spec fn gone_icon(cols: Seq<CollectionView>, root: Seq<char>) -> spec_fn(IconRowView) -> bool {
    |r: IconRowView| in_subtree(cols, root, r.collection_id)
}

/// The collections strictly below `root`.
pub open spec fn strict_descendant(cols: Seq<CollectionView>, root: Seq<char>) -> spec_fn(CollectionView) -> bool {
    |c: CollectionView| in_subtree(cols, root, c.id) && c.id != root
}

/// The collections whose identifier is `root`.
pub open spec fn is_root(root: Seq<char>) -> spec_fn(CollectionView) -> bool {
    |c: CollectionView| c.id == root
}

proof fn lemma_filter_split3<A>(s: Seq<A>, p: spec_fn(A) -> bool, q: spec_fn(A) -> bool, r: spec_fn(A) -> bool)
    requires
        forall|a: A| #[trigger] p(a) == (q(a) || r(a)),
        forall|a: A| !(#[trigger] q(a) && r(a)),
    ensures
        s.filter(p).len() == s.filter(q).len() + s.filter(r).len(),
    decreases s.len(),
{
    reveal(Seq::filter);
    if s.len() > 0 {
        lemma_filter_split3(s.drop_last(), p, q, r);
        assert(p(s.last()) == (q(s.last()) || r(s.last())));
        assert(!(q(s.last()) && r(s.last())));
    }
}

proof fn lemma_filter_split<A>(s: Seq<A>, p: spec_fn(A) -> bool, q: spec_fn(A) -> bool)
    requires
        forall|a: A| #[trigger] q(a) == !p(a),
    ensures
        s.len() == s.filter(p).len() + s.filter(q).len(),
    decreases s.len(),
{
    reveal(Seq::filter);
    if s.len() > 0 {
        lemma_filter_split(s.drop_last(), p, q);
    }
}

proof fn lemma_filter_one<A>(s: Seq<A>, p: spec_fn(A) -> bool, i: int)
    requires
        0 <= i < s.len(),
        p(s[i]),
        forall|j: int| 0 <= j < s.len() && j != i ==> !p(#[trigger] s[j]),
    ensures
        s.filter(p).len() == 1,
    decreases s.len(),
{
    reveal(Seq::filter);
    if i == s.len() - 1 {
        lemma_filter_none(s.drop_last(), p);
    } else {
        assert forall|j: int| 0 <= j < s.drop_last().len() && j != i implies !p(#[trigger] s.drop_last()[j]) by {
            assert(s.drop_last()[j] == s[j]);
        }
        lemma_filter_one(s.drop_last(), p, i);
        assert(!p(s[s.len() - 1]));
    }
}

proof fn lemma_filter_none<A>(s: Seq<A>, p: spec_fn(A) -> bool)
    requires
        forall|j: int| 0 <= j < s.len() ==> !p(#[trigger] s[j]),
    ensures
        s.filter(p).len() == 0,
    decreases s.len(),
{
    reveal(Seq::filter);
    if s.len() > 0 {
        assert forall|j: int| 0 <= j < s.drop_last().len() implies !p(#[trigger] s.drop_last()[j]) by {
            assert(s.drop_last()[j] == s[j]);
        }
        lemma_filter_none(s.drop_last(), p);
        assert(!p(s[s.len() - 1]));
    }
}

/// Deleting a collection removes exactly the collections of its subtree
/// and exactly the icons that they hold: each table shrinks by the number
/// of such rows, and every other row stays.
pub proof fn lemma_delete_counts(before: StoreView, after: StoreView, root: Seq<char>)
    requires
        after.collections == before.collections.filter(keep_collection(before.collections, root)),
        after.icons == before.icons.filter(keep_icon(before.collections, root)),
    ensures
        before.collections.len() == after.collections.len() + before.collections.filter(
            gone_collection(before.collections, root),
        ).len(),
        before.icons.len() == after.icons.len() + before.icons.filter(
            gone_icon(before.collections, root),
        ).len(),
        forall|i: int| 0 <= i < before.collections.len() && !in_subtree(before.collections, root, (#[trigger] before.collections[i]).id)
            ==> after.collections.contains(before.collections[i]),
        forall|i: int| 0 <= i < before.icons.len() && !in_subtree(before.collections, root, (#[trigger] before.icons[i]).collection_id)
            ==> after.icons.contains(before.icons[i]),
        integrity(before) && has_collection(before.collections, root) ==> before.collections.len()
            == after.collections.len() + 1 + before.collections.filter(
            strict_descendant(before.collections, root),
        ).len(),
{
    let cols = before.collections;
    if integrity(before) && has_collection(before.collections, root) {
        let k = choose|k: int| 0 <= k < cols.len() && (#[trigger] cols[k]).id == root;
        assert forall|j: int| 0 <= j < cols.len() && j != k implies !is_root(root)(#[trigger] cols[j]) by {
            assert(cols[j].id != cols[k].id);
        }
        lemma_filter_one(cols, is_root(root), k);
        assert forall|c: CollectionView| #[trigger] gone_collection(cols, root)(c) == (is_root(root)(c) || strict_descendant(cols, root)(c)) by {
            if c.id == root {
                assert(reaches(cols, c.id, root, 0));
            }
        }
        lemma_filter_split3(cols, gone_collection(cols, root), is_root(root), strict_descendant(cols, root));
    }
    lemma_filter_split(cols, keep_collection(cols, root), gone_collection(cols, root));
    lemma_filter_split(before.icons, keep_icon(cols, root), gone_icon(cols, root));
    assert forall|i: int| 0 <= i < cols.len() && !in_subtree(cols, root, (#[trigger] cols[i]).id)
        implies after.collections.contains(cols[i]) by {
        cols.lemma_filter_contains(keep_collection(cols, root), i);
    }
    assert forall|i: int| 0 <= i < before.icons.len() && !in_subtree(cols, root, (#[trigger] before.icons[i]).collection_id)
        implies after.icons.contains(before.icons[i]) by {
        before.icons.lemma_filter_contains(keep_icon(cols, root), i);
    }
}

proof fn lemma_leaf_subtree(cols: Seq<CollectionView>, root: Seq<char>, x: Seq<char>, steps: nat)
    requires
        forall|i: int| 0 <= i < cols.len() ==> (#[trigger] cols[i]).parent_id != Some(root),
        reaches(cols, x, root, steps),
    ensures
        x == root,
    decreases steps,
{
    if x != root {
        let i = choose|i: int|
            0 <= i < cols.len() && (#[trigger] cols[i]).id == x && cols[i].parent_id is Some
                && reaches(cols, cols[i].parent_id->0, root, (steps - 1) as nat);
        lemma_leaf_subtree(cols, root, cols[i].parent_id->0, (steps - 1) as nat);
    }
}

/// Deleting a stored collection that is nobody's parent and holds no icon
/// removes that one row and nothing else.
pub proof fn lemma_delete_leaf(before: StoreView, after: StoreView, root: Seq<char>)
    requires
        integrity(before),
        has_collection(before.collections, root),
        forall|i: int| 0 <= i < before.collections.len() ==> (#[trigger] before.collections[i]).parent_id != Some(root),
        forall|i: int| 0 <= i < before.icons.len() ==> (#[trigger] before.icons[i]).collection_id != root,
        after.collections == before.collections.filter(keep_collection(before.collections, root)),
        after.icons == before.icons.filter(keep_icon(before.collections, root)),
    ensures
        after.collections.len() == before.collections.len() - 1,
        after.icons == before.icons,
{
    let cols = before.collections;
    assert forall|x: Seq<char>| #[trigger] in_subtree(cols, root, x) <==> x == root by {
        if in_subtree(cols, root, x) {
            let m = choose|m: nat| reaches(cols, x, root, m);
            lemma_leaf_subtree(cols, root, x, m);
        }
        if x == root {
            assert(reaches(cols, x, root, 0));
        }
    }
    let k = choose|k: int| 0 <= k < cols.len() && (#[trigger] cols[k]).id == root;
    assert forall|j: int| 0 <= j < cols.len() && j != k implies !gone_collection(cols, root)(#[trigger] cols[j]) by {
        assert(cols[j].id != cols[k].id);
    }
    lemma_filter_one(cols, gone_collection(cols, root), k);
    lemma_filter_split(cols, keep_collection(cols, root), gone_collection(cols, root));
    lemma_filter_all(before.icons, keep_icon(cols, root));
}

/// Flipping the favorite flag twice gives back the rows as they were.
pub proof fn lemma_toggle_involution(icons: Seq<IconRowView>, id: Seq<char>)
    ensures
        toggled(toggled(icons, id), id) == icons,
{
    assert(toggled(toggled(icons, id), id) =~= icons);
}

proof fn lemma_filter_keys_unique<A>(s: Seq<A>, p: spec_fn(A) -> bool, key: spec_fn(A) -> Seq<char>)
    requires
        forall|i: int, j: int| 0 <= i < j < s.len() ==> key(#[trigger] s[i]) != key(#[trigger] s[j]),
    ensures
        forall|i: int, j: int|
            0 <= i < j < s.filter(p).len() ==> key(#[trigger] s.filter(p)[i]) != key(#[trigger] s.filter(p)[j]),
    decreases s.len(),
{
    reveal(Seq::filter);
    if s.len() > 0 {
        let init = s.drop_last();
        assert forall|i: int, j: int| 0 <= i < j < init.len() implies key(#[trigger] init[i]) != key(#[trigger] init[j]) by {
            assert(init[i] == s[i] && init[j] == s[j]);
        }
        lemma_filter_keys_unique(init, p, key);
        let f = s.filter(p);
        let fi = init.filter(p);
        if p(s.last()) {
            assert(f == fi.push(s.last()));
            assert forall|i: int, j: int| 0 <= i < j < f.len() implies key(#[trigger] f[i]) != key(#[trigger] f[j]) by {
                if j == f.len() - 1 {
                    assert(fi.contains(f[i]));
                    init.lemma_filter_contains_rev(p, f[i]);
                    let m = choose|m: int| 0 <= m < init.len() && init[m] == f[i];
                    assert(s[m] == f[i]);
                    assert(s[s.len() - 1] == s.last());
                } else {
                    assert(f[i] == fi[i] && f[j] == fi[j]);
                }
            }
        }
    }
}

proof fn lemma_delete_preserves_integrity(before: StoreView, root: Seq<char>)
    requires
        integrity(before),
    ensures
        integrity(
            StoreView {
                collections: before.collections.filter(keep_collection(before.collections, root)),
                icons: before.icons.filter(keep_icon(before.collections, root)),
                settings: before.settings,
            },
        ),
{
    let cols = before.collections;
    let kc = cols.filter(keep_collection(cols, root));
    let ki = before.icons.filter(keep_icon(cols, root));
    let cid = |c: CollectionView| c.id;
    let iid = |r: IconRowView| r.id;
    assert forall|i: int, j: int| 0 <= i < j < cols.len() implies cid(#[trigger] cols[i]) != cid(#[trigger] cols[j]) by {}
    lemma_filter_keys_unique(cols, keep_collection(cols, root), cid);
    assert forall|i: int, j: int| 0 <= i < j < before.icons.len() implies iid(#[trigger] before.icons[i]) != iid(#[trigger] before.icons[j]) by {}
    lemma_filter_keys_unique(before.icons, keep_icon(cols, root), iid);
    assert forall|i: int, j: int| 0 <= i < j < kc.len() implies (#[trigger] kc[i]).id != (#[trigger] kc[j]).id by {
        assert(cid(kc[i]) != cid(kc[j]));
    }
    assert forall|i: int, j: int| 0 <= i < j < ki.len() implies (#[trigger] ki[i]).id != (#[trigger] ki[j]).id by {
        assert(iid(ki[i]) != iid(ki[j]));
    }
    // A kept id belongs to a kept collection.
    assert forall|x: Seq<char>| has_collection(cols, x) && !in_subtree(cols, root, x) implies has_collection(kc, x) by {
        let q = choose|q: int| 0 <= q < cols.len() && (#[trigger] cols[q]).id == x;
        cols.lemma_filter_contains(keep_collection(cols, root), q);
        let t = choose|t: int| 0 <= t < kc.len() && kc[t] == cols[q];
        assert(kc[t].id == x);
    }
    assert forall|i: int| 0 <= i < kc.len() && (#[trigger] kc[i]).parent_id is Some implies has_collection(kc, kc[i].parent_id->0) by {
        let c = kc[i];
        let p = c.parent_id->0;
        assert(kc.contains(c));
        cols.lemma_filter_contains_rev(keep_collection(cols, root), c);
        let m = choose|m: int| 0 <= m < cols.len() && cols[m] == c;
        assert(cols[m].parent_id is Some);
        assert(has_collection(cols, p));
        cols.lemma_filter_pred(keep_collection(cols, root), i);
        if in_subtree(cols, root, p) {
            let n = choose|n: nat| reaches(cols, p, root, n);
            assert(reaches(cols, c.id, root, n + 1));
            assert(in_subtree(cols, root, c.id));
        }
    }
    assert forall|i: int| 0 <= i < ki.len() implies has_collection(kc, (#[trigger] ki[i]).collection_id) by {
        let r = ki[i];
        assert(ki.contains(r));
        before.icons.lemma_filter_contains_rev(keep_icon(cols, root), r);
        let m = choose|m: int| 0 <= m < before.icons.len() && before.icons[m] == r;
        assert(has_collection(cols, before.icons[m].collection_id));
        before.icons.lemma_filter_pred(keep_icon(cols, root), i);
    }
}

/// An icon stored and read back is the icon that was stored, provided its
/// tags hold no comma and no surrounding whitespace and are not a single
/// empty tag; in particular an icon with no tags reads back with none.
pub proof fn lemma_icon_round_trip(icon: IconView)
    requires
        forall|i: int| 0 <= i < icon.tags.len() ==> !(#[trigger] icon.tags[i]).contains(','),
        forall|i: int| 0 <= i < icon.tags.len() ==> trim(#[trigger] icon.tags[i]) == icon.tags[i],
        !(icon.tags.len() == 1 && icon.tags[0].len() == 0),
    ensures
        icon_of(row_of(icon)) == icon,
{
    lemma_tags_round_trip(icon.tags);
}

} // verus!
