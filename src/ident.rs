//! New collections: identifiers, creation times and display colors come
//! from outside sources; the record built from them is checked here.

use vstd::prelude::*;
use crate::model::{opt_view, copy_opt, views, Collection, CollectionView, Icon, IconView, StoreError};
use crate::store::{has_collection, has_icon, integrity, recounted, row_of, Store};
use crate::tags::strings_view;

verus! {

/// Relies on `uuid::Uuid::new_v4`, a random identifier, and its `Display`
/// form, the 36-character hyphenated hex text.
#[verifier::external_body]
fn new_id() -> (r: String)
    ensures
        r@.len() == 36,
{
    uuid::Uuid::new_v4().to_string()
}

/// Relies on `chrono::Utc::now` and `DateTime::to_rfc3339`: the current
/// time as RFC 3339 text, which is never empty.
#[verifier::external_body]
fn now_rfc3339() -> (r: String)
    ensures
        r@.len() > 0,
{
    chrono::Utc::now().to_rfc3339()
}

/// Relies on `rand::random::<usize>`: any value may come back.
#[verifier::external_body]
fn random_index() -> (r: usize) {
    rand::random::<usize>()
}

/// The palette of collection colors.
pub open spec fn palette(i: int) -> Seq<char> {
    if i == 0 {
        "#6366f1"@
    } else if i == 1 {
        "#8b5cf6"@
    } else if i == 2 {
        "#a855f7"@
    } else if i == 3 {
        "#ec4899"@
    } else if i == 4 {
        "#f43f5e"@
    } else if i == 5 {
        "#f97316"@
    } else if i == 6 {
        "#eab308"@
    } else if i == 7 {
        "#22c55e"@
    } else if i == 8 {
        "#14b8a6"@
    } else {
        "#3b82f6"@
    }
}

pub open spec fn in_palette(c: Seq<char>) -> bool {
    exists|i: int| 0 <= i < 10 && palette(i) == c
}

/// The palette color that `seed` picks: its remainder modulo the palette's
/// size.
pub fn palette_color(seed: usize) -> (r: String)
    ensures
        r@ == palette((seed % 10) as int),
{
    let i = seed % 10;
    if i == 0 {
        String::from_str("#6366f1")
    } else if i == 1 {
        String::from_str("#8b5cf6")
    } else if i == 2 {
        String::from_str("#a855f7")
    } else if i == 3 {
        String::from_str("#ec4899")
    } else if i == 4 {
        String::from_str("#f43f5e")
    } else if i == 5 {
        String::from_str("#f97316")
    } else if i == 6 {
        String::from_str("#eab308")
    } else if i == 7 {
        String::from_str("#22c55e")
    } else if i == 8 {
        String::from_str("#14b8a6")
    } else {
        String::from_str("#3b82f6")
    }
}

/// A palette color picked at random.
pub fn random_color() -> (r: String)
    ensures
        in_palette(r@),
{
    let seed = random_index();
    let r = palette_color(seed);
    assert(palette((seed % 10) as int) == r@);
    r
}

/// A new collection with no icons yet, colored by `color_seed`.
pub fn new_collection(
    id: String,
    name: String,
    parent_id: Option<String>,
    color_seed: usize,
    created_at: String,
) -> (r: Collection)
    ensures
        r@ == (CollectionView {
            id: id@,
            name: name@,
            parent_id: opt_view(parent_id),
            icon_count: 0,
            color: palette((color_seed % 10) as int),
            created_at: created_at@,
        }),
{
    Collection { id, name, parent_id, icon_count: 0, color: palette_color(color_seed), created_at }
}

impl Store {
    /// Creates and stores a collection named `name` under `parent_id`, with
    /// a fresh identifier, the current time and a random palette color.
    /// Refused when the parent is not stored; refused too, and nothing
    /// stored, in the unlikely case that the fresh identifier is taken.
    pub fn create_collection(&mut self, name: String, parent_id: Option<String>) -> (r: Result<Collection, StoreError>)
        ensures
            (parent_id matches Some(p) && !has_collection(old(self)@.collections, p@)) ==> r is Err,
            (parent_id is None && old(self)@.collections.len() == 0) ==> r is Ok,
            r matches Err(e) ==> e == StoreError::DuplicateId || e == StoreError::MissingParent,
            r == Err::<Collection, StoreError>(StoreError::MissingParent) ==> (parent_id matches Some(p)
                && !has_collection(old(self)@.collections, p@)),
            r is Err ==> final(self)@ == old(self)@,
            integrity(old(self)@) ==> integrity(final(self)@),
            r matches Ok(c) ==> {
                &&& c@.name == name@
                &&& c@.parent_id == opt_view(parent_id)
                &&& c@.icon_count == 0
                &&& in_palette(c@.color)
                &&& !has_collection(old(self)@.collections, c@.id)
                &&& final(self)@.collections == old(self)@.collections.push(c@)
                &&& final(self)@.icons == old(self)@.icons
                &&& final(self)@.settings == old(self)@.settings
            },
    {
        let ghost before = self@;
        let id = new_id();
        let created_at = now_rfc3339();
        let seed = random_index();
        let parent = copy_opt(&parent_id);
        let c = new_collection(id, name, parent, seed, created_at);
        assert(in_palette(c@.color)) by {
            assert(palette((seed % 10) as int) == c@.color);
        }
        match self.insert_collection(&c) {
            Ok(()) => Ok(c),
            Err(e) => {
                assert(self@ == before);
                Err(e)
            },
        }
    }
}

/// One SVG file that a folder scan found.
#[derive(Debug, Clone)]
pub struct ScannedFile {
    /// The file name without its extension.
    pub stem: String,
    pub path: String,
    pub content: String,
    pub size: i64,
}

/// The icon made from a scanned file: no tags, not a favorite.
pub open spec fn scanned_icon(id: Seq<char>, file: ScannedFile, cid: Seq<char>, created_at: Seq<char>) -> IconView {
    IconView {
        id: id,
        name: file.stem@,
        path: file.path@,
        svg_content: file.content@,
        tags: Seq::empty(),
        collection_id: cid,
        created_at: created_at,
        file_size: file.size,
        favorite: false,
    }
}

/// Builds the icon for a scanned file.
pub fn icon_from_file(id: String, file: &ScannedFile, collection_id: &String, created_at: String) -> (r: Icon)
    ensures
        r@ == scanned_icon(id@, *file, collection_id@, created_at@),
{
    let r = Icon {
        id,
        name: file.stem.clone(),
        path: file.path.clone(),
        svg_content: file.content.clone(),
        tags: Vec::new(),
        collection_id: collection_id.clone(),
        created_at,
        file_size: file.size,
        favorite: false,
    };
    assert(r@.tags =~= Seq::<Seq<char>>::empty());
    r
}

/// The stored forms of the given icons.
pub open spec fn rows_of(icons: Seq<IconView>) -> Seq<crate::model::IconRowView> {
    Seq::new(icons.len(), |i: int| row_of(icons[i]))
}

/// The icons stored, in order, when file `j` is offered under identifier
/// `ids[j]` and time `times[j]` to a table that already holds `existing`:
/// each is stored unless its identifier is taken by then.
pub open spec fn scan_result(
    existing: Seq<crate::model::IconRowView>,
    cid: Seq<char>,
    files: Seq<ScannedFile>,
    ids: Seq<Seq<char>>,
    times: Seq<Seq<char>>,
) -> Seq<IconView>
    decreases files.len(),
{
    if files.len() == 0 || ids.len() < files.len() || times.len() < files.len() {
        Seq::empty()
    } else {
        let n = files.len() - 1;
        let prev = scan_result(existing, cid, files.take(n), ids, times);
        if has_icon(existing + rows_of(prev), ids[n]) {
            prev
        } else {
            prev.push(scanned_icon(ids[n], files[n], cid, times[n]))
        }
    }
}

proof fn lemma_scan_len(
    existing: Seq<crate::model::IconRowView>,
    cid: Seq<char>,
    files: Seq<ScannedFile>,
    ids: Seq<Seq<char>>,
    times: Seq<Seq<char>>,
)
    ensures
        scan_result(existing, cid, files, ids, times).len() <= files.len(),
    decreases files.len(),
{
    if files.len() > 0 {
        lemma_scan_len(existing, cid, files.take(files.len() - 1), ids, times);
    }
}

impl Store {
    /// Stores an icon in the stored collection `cid` for each scanned file,
    /// file `j` under identifier `ids[j]` and time `times[j]`, skipping a
    /// file whose identifier is taken by then. Returns the icons stored, in
    /// order.
    pub fn store_scanned(
        &mut self,
        cid: &String,
        files: &Vec<ScannedFile>,
        ids: &Vec<String>,
        times: &Vec<String>,
    ) -> (r: Vec<Icon>)
        requires
            has_collection(old(self)@.collections, cid@),
            ids.len() == files.len(),
            times.len() == files.len(),
        ensures
            views(r@) == scan_result(old(self)@.icons, cid@, files@, strings_view(ids@), strings_view(times@)),
            final(self)@.icons == old(self)@.icons + rows_of(views(r@)),
            final(self)@.collections == old(self)@.collections,
            final(self)@.settings == old(self)@.settings,
            integrity(old(self)@) ==> integrity(final(self)@),
    {
        let ghost start = self@;
        let ghost idv = strings_view(ids@);
        let ghost tv = strings_view(times@);
        let mut out: Vec<Icon> = Vec::new();
        let mut i: usize = 0;
        proof {
            assert(start.icons =~= start.icons + rows_of(views(out@)));
            assert(views(out@) =~= scan_result(start.icons, cid@, files@.take(0), idv, tv));
        }
        while i < files.len()
            invariant
                i <= files.len(),
                ids.len() == files.len(),
                times.len() == files.len(),
                start == old(self)@,
                idv == strings_view(ids@),
                tv == strings_view(times@),
                self@.collections == start.collections,
                self@.settings == start.settings,
                self@.icons == start.icons + rows_of(views(out@)),
                has_collection(start.collections, cid@),
                views(out@) == scan_result(start.icons, cid@, files@.take(i as int), idv, tv),
                integrity(start) ==> integrity(self@),
            decreases files.len() - i,
        {
            let icon = icon_from_file(ids[i].clone(), &files[i], cid, times[i].clone());
            let ghost before = out@;
            proof {
                let t = files@.take(i + 1);
                assert(t.take(i as int) =~= files@.take(i as int));
                assert(t[i as int] == files@[i as int]);
                assert(idv[i as int] == ids@[i as int]@);
                assert(tv[i as int] == times@[i as int]@);
                assert(icon@ == scanned_icon(idv[i as int], t[i as int], cid@, tv[i as int]));
            }
            match self.insert_icon(&icon) {
                Ok(()) => {
                    out.push(icon);
                    proof {
                        assert(views(out@) =~= views(before).push(icon@));
                        assert(rows_of(views(out@)) =~= rows_of(views(before)).push(row_of(icon@)));
                        assert(self@.icons =~= start.icons + rows_of(views(out@)));
                    }
                },
                Err(_) => {},
            }
            i = i + 1;
        }
        proof {
            assert(files@.take(files.len() as int) =~= files@);
        }
        out
    }

    /// Creates a collection named `name` under `parent_id`, stores an icon
    /// for each scanned file under a fresh identifier and the current time,
    /// skipping any whose identifier is taken, and records how many were
    /// stored as the collection's icon count. Returns the collection and the
    /// icons stored. Refused, with nothing stored, when the collection is.
    pub fn import_files(&mut self, name: String, parent_id: Option<String>, files: &Vec<ScannedFile>) -> (r: Result<(Collection, Vec<Icon>), StoreError>)
        requires
            files.len() <= i32::MAX,
        ensures
            (parent_id matches Some(p) && !has_collection(old(self)@.collections, p@)) ==> r is Err,
            (parent_id is None && old(self)@.collections.len() == 0) ==> r is Ok,
            r matches Err(e) ==> e == StoreError::DuplicateId || e == StoreError::MissingParent,
            r == Err::<(Collection, Vec<Icon>), StoreError>(StoreError::MissingParent) ==> (parent_id matches Some(p)
                && !has_collection(old(self)@.collections, p@)),
            r is Err ==> final(self)@ == old(self)@,
            integrity(old(self)@) ==> integrity(final(self)@),
            r matches Ok((c, icons)) ==> {
                &&& c@.name == name@
                &&& c@.parent_id == opt_view(parent_id)
                &&& in_palette(c@.color)
                &&& c@.icon_count == icons.len()
                &&& icons.len() <= files.len()
                &&& !has_collection(old(self)@.collections, c@.id)
                &&& final(self)@.collections == old(self)@.collections.push(c@)
                &&& final(self)@.icons == old(self)@.icons + rows_of(views(icons@))
                &&& final(self)@.settings == old(self)@.settings
                &&& exists|ids: Seq<Seq<char>>, times: Seq<Seq<char>>|
                    ids.len() == files.len() && times.len() == files.len()
                        && views(icons@) == #[trigger] scan_result(old(self)@.icons, c@.id, files@, ids, times)
            },
    {
        let ghost start = self@;
        let mut c = match self.create_collection(name, parent_id) {
            Ok(c) => c,
            Err(e) => return Err(e),
        };
        let ghost created = self@;
        let mut ids: Vec<String> = Vec::new();
        let mut times: Vec<String> = Vec::new();
        while ids.len() < files.len()
            invariant
                ids.len() <= files.len(),
                times.len() == ids.len(),
            decreases files.len() - ids.len(),
        {
            ids.push(new_id());
            times.push(now_rfc3339());
        }
        proof {
            assert(created.collections[created.collections.len() - 1].id == c@.id);
        }
        let out = self.store_scanned(&c.id, files, &ids, &times);
        proof {
            lemma_scan_len(created.icons, c@.id, files@, strings_view(ids@), strings_view(times@));
        }
        let count = out.len() as i32;
        let ghost filled = self@;
        let ghost c0 = c@;
        self.update_collection_count(&c.id, count);
        c.icon_count = count;
        proof {
            assert forall|k: int| 0 <= k < start.collections.len() implies (#[trigger] start.collections[k]).id != c@.id by {
                if start.collections[k].id == c@.id {
                    assert(has_collection(start.collections, c@.id));
                }
            }
            assert(filled.collections == start.collections.push(c0));
            assert(recounted(filled.collections, c@.id, count) =~= start.collections.push(c@));
            assert(strings_view(ids@).len() == files.len() && strings_view(times@).len() == files.len());
        }
        Ok((c, out))
    }
}

} // verus!
