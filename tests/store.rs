use iconbox::ident::{icon_from_file, new_collection, palette_color, random_color, ScannedFile};
use iconbox::model::{Collection, Icon, IconRow, SettingRow, StoreError};
use iconbox::schema::{migration_plan, Migration};
use iconbox::settings::parse_i32;
use iconbox::store::Store;
use iconbox::tags::{decode_tags, encode_tags};

const PALETTE: [&str; 10] = [
    "#6366f1", "#8b5cf6", "#a855f7", "#ec4899", "#f43f5e", "#f97316", "#eab308", "#22c55e",
    "#14b8a6", "#3b82f6",
];

fn collection(id: &str, name: &str, parent: Option<&str>) -> Collection {
    Collection {
        id: id.to_string(),
        name: name.to_string(),
        parent_id: parent.map(|p| p.to_string()),
        icon_count: 0,
        color: "#6366f1".to_string(),
        created_at: "2024-01-01T00:00:00+00:00".to_string(),
    }
}

fn icon(id: &str, name: &str, collection_id: &str, tags: &[&str]) -> Icon {
    Icon {
        id: id.to_string(),
        name: name.to_string(),
        path: format!("/icons/{}.svg", name),
        svg_content: "<svg/>".to_string(),
        tags: tags.iter().map(|t| t.to_string()).collect(),
        collection_id: collection_id.to_string(),
        created_at: "2024-01-01T00:00:00+00:00".to_string(),
        file_size: 6,
        favorite: false,
    }
}

fn strings(v: &[&str]) -> Vec<String> {
    v.iter().map(|s| s.to_string()).collect()
}

#[test]
fn delete_removes_whole_subtree_and_its_icons() {
    let mut s = Store::new();
    s.insert_collection(&collection("r", "Root", None)).unwrap();
    s.insert_collection(&collection("c1", "Child 1", Some("r"))).unwrap();
    s.insert_collection(&collection("c2", "Child 2", Some("r"))).unwrap();
    s.insert_collection(&collection("g", "Grandchild", Some("c1"))).unwrap();
    s.insert_collection(&collection("o", "Other", None)).unwrap();
    s.insert_collection(&collection("oc", "Other child", Some("o"))).unwrap();
    s.insert_icon(&icon("i1", "a", "r", &[])).unwrap();
    s.insert_icon(&icon("i2", "b", "c1", &[])).unwrap();
    s.insert_icon(&icon("i3", "c", "g", &[])).unwrap();
    s.insert_icon(&icon("i4", "d", "g", &[])).unwrap();
    s.insert_icon(&icon("i5", "e", "o", &[])).unwrap();
    s.insert_icon(&icon("i6", "f", "oc", &[])).unwrap();
    let mut gone = s.delete_collection("r");
    gone.sort();
    gone.dedup();
    assert_eq!(gone, strings(&["c1", "c2", "g", "r"]));
    let left: Vec<String> = s.get_all_collections().into_iter().map(|c| c.id).collect();
    assert_eq!(left, strings(&["o", "oc"]));
    let icons: Vec<String> = s.get_all_icons().into_iter().map(|i| i.id).collect();
    assert_eq!(icons, strings(&["i5", "i6"]));
    assert_eq!(s.get_total_icon_count(), 2);
}

#[test]
fn delete_leaf_removes_one_row() {
    let mut s = Store::new();
    s.insert_collection(&collection("a", "A", None)).unwrap();
    s.insert_collection(&collection("b", "B", Some("a"))).unwrap();
    s.insert_icon(&icon("i", "x", "a", &[])).unwrap();
    s.delete_collection("b");
    assert_eq!(s.get_all_collections().len(), 1);
    assert_eq!(s.get_total_icon_count(), 1);
}

#[test]
fn delete_missing_collection_changes_nothing() {
    let mut s = Store::new();
    s.insert_collection(&collection("a", "A", None)).unwrap();
    s.delete_collection("zzz");
    assert_eq!(s.get_all_collections().len(), 1);
}

#[test]
fn delete_terminates_on_a_parent_cycle() {
    let cols = vec![collection("a", "A", Some("b")), collection("b", "B", Some("a")), collection("c", "C", None)];
    let mut s = Store::from_rows(cols, vec![], vec![]).unwrap();
    s.delete_collection("a");
    let left: Vec<String> = s.get_all_collections().into_iter().map(|c| c.id).collect();
    assert_eq!(left, strings(&["c"]));
}

#[test]
fn tags_round_trip() {
    let mut s = Store::new();
    s.insert_collection(&collection("c", "C", None)).unwrap();
    s.insert_icon(&icon("i1", "one", "c", &["a", "b", "c"])).unwrap();
    s.insert_icon(&icon("i2", "two", "c", &[])).unwrap();
    let icons = s.get_icons_by_collection("c");
    assert_eq!(icons[0].tags, strings(&["a", "b", "c"]));
    assert!(icons[1].tags.is_empty());
}

#[test]
fn toggle_favorite_twice_restores_flag() {
    let mut s = Store::new();
    s.insert_collection(&collection("c", "C", None)).unwrap();
    s.insert_icon(&icon("i", "x", "c", &[])).unwrap();
    assert_eq!(s.toggle_favorite("i"), Ok(true));
    assert!(s.get_all_icons()[0].favorite);
    assert_eq!(s.get_favorite_count(), 1);
    assert_eq!(s.get_favorite_icons().len(), 1);
    assert_eq!(s.toggle_favorite("i"), Ok(false));
    assert!(!s.get_all_icons()[0].favorite);
    assert_eq!(s.get_favorite_count(), 0);
}

#[test]
fn toggle_favorite_missing_icon_fails() {
    let mut s = Store::new();
    assert_eq!(s.toggle_favorite("nope"), Err(StoreError::NotFound));
}

#[test]
fn fresh_store_settings_are_defaults() {
    let s = Store::new();
    let st = s.get_settings();
    assert_eq!(st.theme, "light");
    assert_eq!(st.icon_size, 64);
    assert_eq!(st.tint_color, None);
}

#[test]
fn root_and_child_deleted_together() {
    let mut s = Store::new();
    let root = s.create_collection("Root".to_string(), None).unwrap();
    let child = s.create_collection("Child".to_string(), Some(root.id.clone())).unwrap();
    s.insert_icon(&icon("i1", "a", &root.id, &[])).unwrap();
    s.insert_icon(&icon("i2", "b", &child.id, &[])).unwrap();
    s.delete_collection(&root.id);
    assert!(s.get_all_collections().is_empty());
    assert!(s.get_all_icons().is_empty());
}

#[test]
fn empty_stored_tags_read_as_no_tags() {
    let row = IconRow {
        id: "i".to_string(),
        name: "x".to_string(),
        path: String::new(),
        svg_content: "<svg/>".to_string(),
        tags: String::new(),
        collection_id: "c".to_string(),
        created_at: "t".to_string(),
        file_size: 0,
        favorite: false,
    };
    let s = Store::from_rows(vec![collection("c", "C", None)], vec![row], vec![]).unwrap();
    let icons = s.get_icons_by_collection("c");
    assert_eq!(icons.len(), 1);
    assert!(icons[0].tags.is_empty());
}

#[test]
fn migration_plan_runs_once() {
    let plan = migration_plan(&vec![], &vec![]);
    assert_eq!(plan, vec![Migration::CollectionParentId, Migration::IconFileSize]);
    let again = migration_plan(&strings(&["id", "parent_id"]), &strings(&["id", "file_size"]));
    assert!(again.is_empty());
    let partial = migration_plan(&strings(&["id", "name"]), &strings(&["file_size"]));
    assert_eq!(partial, vec![Migration::CollectionParentId]);
    assert_eq!(
        Migration::CollectionParentId.statement(),
        "ALTER TABLE collections ADD COLUMN parent_id TEXT"
    );
    assert_eq!(
        Migration::IconFileSize.statement(),
        "ALTER TABLE icons ADD COLUMN file_size INTEGER DEFAULT 0"
    );
}

#[test]
fn insert_collection_errors() {
    let mut s = Store::new();
    s.insert_collection(&collection("a", "A", None)).unwrap();
    assert_eq!(s.insert_collection(&collection("a", "Again", None)), Err(StoreError::DuplicateId));
    assert_eq!(s.insert_collection(&collection("b", "B", Some("missing"))), Err(StoreError::MissingParent));
    assert_eq!(s.get_all_collections().len(), 1);
}

#[test]
fn insert_icon_errors() {
    let mut s = Store::new();
    s.insert_collection(&collection("c", "C", None)).unwrap();
    s.insert_icon(&icon("i", "x", "c", &[])).unwrap();
    assert_eq!(s.insert_icon(&icon("i", "y", "c", &[])), Err(StoreError::DuplicateId));
    assert_eq!(s.insert_icon(&icon("j", "y", "nope", &[])), Err(StoreError::MissingCollection));
    assert_eq!(s.get_total_icon_count(), 1);
}

#[test]
fn create_collection_with_missing_parent_fails() {
    let mut s = Store::new();
    let r = s.create_collection("X".to_string(), Some("nope".to_string()));
    assert_eq!(r.err(), Some(StoreError::MissingParent));
    assert!(s.get_all_collections().is_empty());
}

#[test]
fn create_collection_fills_fields() {
    let mut s = Store::new();
    let c = s.create_collection("Fresh".to_string(), None).unwrap();
    assert_eq!(c.name, "Fresh");
    assert_eq!(c.icon_count, 0);
    assert_eq!(c.parent_id, None);
    assert_eq!(c.id.len(), 36);
    assert!(PALETTE.contains(&c.color.as_str()));
    assert!(!c.created_at.is_empty());
    assert_eq!(s.get_all_collections()[0].id, c.id);
}

#[test]
fn from_rows_rejects_broken_rows() {
    let dangling = vec![collection("a", "A", Some("ghost"))];
    assert_eq!(Store::from_rows(dangling, vec![], vec![]).err(), Some(StoreError::Inconsistent));
    let twice = vec![collection("a", "A", None), collection("a", "B", None)];
    assert_eq!(Store::from_rows(twice, vec![], vec![]).err(), Some(StoreError::Inconsistent));
}

#[test]
fn listings_are_ordered_by_name() {
    let mut s = Store::new();
    s.insert_collection(&collection("1", "beta", None)).unwrap();
    s.insert_collection(&collection("2", "Alpha", None)).unwrap();
    s.insert_collection(&collection("3", "alpha", None)).unwrap();
    let names: Vec<String> = s.get_all_collections().into_iter().map(|c| c.name).collect();
    assert_eq!(names, strings(&["Alpha", "alpha", "beta"]));
    s.insert_icon(&icon("i1", "zeta", "1", &[])).unwrap();
    s.insert_icon(&icon("i2", "eta", "1", &[])).unwrap();
    s.insert_icon(&icon("i3", "beta", "2", &[])).unwrap();
    let names: Vec<String> = s.get_icons_by_collection("1").into_iter().map(|i| i.name).collect();
    assert_eq!(names, strings(&["eta", "zeta"]));
    let all: Vec<String> = s.get_all_icons().into_iter().map(|i| i.name).collect();
    assert_eq!(all, strings(&["beta", "eta", "zeta"]));
}

#[test]
fn rename_and_recount() {
    let mut s = Store::new();
    s.insert_collection(&collection("a", "A", None)).unwrap();
    s.rename_collection("a", "Renamed");
    s.rename_collection("missing", "Nothing");
    s.update_collection_count("a", 7);
    let all = s.get_all_collections();
    assert_eq!(all.len(), 1);
    assert_eq!(all[0].name, "Renamed");
    assert_eq!(all[0].icon_count, 7);
}

#[test]
fn update_tags_replaces_list() {
    let mut s = Store::new();
    s.insert_collection(&collection("c", "C", None)).unwrap();
    s.insert_icon(&icon("i", "x", "c", &["old"])).unwrap();
    s.update_icon_tags("i", &strings(&["new", "more"]));
    s.update_icon_tags("missing", &strings(&["ignored"]));
    assert_eq!(s.get_all_icons()[0].tags, strings(&["new", "more"]));
}

#[test]
fn delete_icon_removes_only_that_icon() {
    let mut s = Store::new();
    s.insert_collection(&collection("c", "C", None)).unwrap();
    s.insert_icon(&icon("i", "x", "c", &[])).unwrap();
    s.insert_icon(&icon("j", "y", "c", &[])).unwrap();
    s.delete_icon("i");
    s.delete_icon("missing");
    let ids: Vec<String> = s.get_all_icons().into_iter().map(|i| i.id).collect();
    assert_eq!(ids, strings(&["j"]));
}

#[test]
fn settings_save_and_read() {
    let mut s = Store::new();
    s.save_setting("theme", "dark");
    s.save_setting("icon_size", "96");
    s.save_setting("tint_color", "#ff0000");
    s.save_setting("unknown", "kept");
    let st = s.get_settings();
    assert_eq!(st.theme, "dark");
    assert_eq!(st.icon_size, 96);
    assert_eq!(st.tint_color, Some("#ff0000".to_string()));
    s.save_setting("icon_size", "large");
    s.save_setting("tint_color", "");
    s.save_setting("theme", "light");
    let st = s.get_settings();
    assert_eq!(st.theme, "light");
    assert_eq!(st.icon_size, 64);
    assert_eq!(st.tint_color, None);
}

#[test]
fn parse_i32_cases() {
    assert_eq!(parse_i32("64"), Some(64));
    assert_eq!(parse_i32("+7"), Some(7));
    assert_eq!(parse_i32("-2147483648"), Some(i32::MIN));
    assert_eq!(parse_i32("2147483647"), Some(i32::MAX));
    assert_eq!(parse_i32("2147483648"), None);
    assert_eq!(parse_i32("000000000000012"), Some(12));
    assert_eq!(parse_i32(""), None);
    assert_eq!(parse_i32("-"), None);
    assert_eq!(parse_i32("12a"), None);
    assert_eq!(parse_i32(" 12"), None);
}

#[test]
fn tag_codec_cases() {
    assert_eq!(encode_tags(&strings(&["a", "b", "c"])), "a,b,c");
    assert_eq!(encode_tags(&vec![]), "");
    assert_eq!(decode_tags(&" a , b ,c".to_string()), strings(&["a", "b", "c"]));
    assert_eq!(decode_tags(&"a,,b".to_string()), strings(&["a", "", "b"]));
    assert_eq!(decode_tags(&"x".to_string()), strings(&["x"]));
    assert!(decode_tags(&String::new()).is_empty());
}

#[test]
fn palette_colors() {
    assert_eq!(palette_color(0), "#6366f1");
    assert_eq!(palette_color(13), "#ec4899");
    assert_eq!(palette_color(9), "#3b82f6");
    assert!(PALETTE.contains(&random_color().as_str()));
    let c = new_collection("id".to_string(), "N".to_string(), Some("p".to_string()), 21, "t".to_string());
    assert_eq!(c.color, "#8b5cf6");
    assert_eq!(c.parent_id, Some("p".to_string()));
    assert_eq!(c.icon_count, 0);
}

fn scanned(stem: &str) -> ScannedFile {
    ScannedFile {
        stem: stem.to_string(),
        path: format!("/tmp/{}.svg", stem),
        content: format!("<svg id=\"{}\"/>", stem),
        size: 12,
    }
}

#[test]
fn import_stores_one_icon_per_file() {
    let mut s = Store::new();
    let files = vec![scanned("star"), scanned("arrow")];
    let (c, icons) = s.import_files("Pack".to_string(), None, &files).unwrap();
    assert_eq!(c.name, "Pack");
    assert_eq!(c.icon_count, 2);
    assert_eq!(icons.len(), 2);
    assert_eq!(s.get_all_collections()[0].icon_count, 2);
    let listed: Vec<String> = s.get_icons_by_collection(&c.id).into_iter().map(|i| i.name).collect();
    assert_eq!(listed, strings(&["arrow", "star"]));
    assert!(icons.iter().all(|i| i.tags.is_empty() && !i.favorite && i.collection_id == c.id));
}

#[test]
fn import_under_missing_parent_fails() {
    let mut s = Store::new();
    let r = s.import_files("Pack".to_string(), Some("nope".to_string()), &vec![scanned("a")]);
    assert_eq!(r.err(), Some(StoreError::MissingParent));
    assert_eq!(s.get_total_icon_count(), 0);
}

#[test]
fn icon_from_file_copies_fields() {
    let f = scanned("bolt");
    let i = icon_from_file("id1".to_string(), &f, &"col".to_string(), "now".to_string());
    assert_eq!(i.name, "bolt");
    assert_eq!(i.path, "/tmp/bolt.svg");
    assert_eq!(i.file_size, 12);
    assert_eq!(i.collection_id, "col");
    assert!(i.tags.is_empty());
    assert!(!i.favorite);
}

#[test]
fn store_scanned_skips_taken_identifiers() {
    let mut s = Store::new();
    s.insert_collection(&collection("c", "C", None)).unwrap();
    s.insert_icon(&icon("taken", "old", "c", &[])).unwrap();
    let files = vec![scanned("a"), scanned("b"), scanned("c"), scanned("d")];
    let ids = strings(&["n1", "taken", "n2", "n1"]);
    let times = strings(&["t1", "t2", "t3", "t4"]);
    let stored = s.store_scanned(&"c".to_string(), &files, &ids, &times);
    let got: Vec<(String, String, String)> =
        stored.iter().map(|i| (i.id.clone(), i.name.clone(), i.created_at.clone())).collect();
    assert_eq!(
        got,
        vec![
            ("n1".to_string(), "a".to_string(), "t1".to_string()),
            ("n2".to_string(), "c".to_string(), "t3".to_string()),
        ]
    );
    assert_eq!(s.get_total_icon_count(), 3);
}

#[test]
fn import_into_empty_store_succeeds() {
    let mut s = Store::new();
    let r = s.import_files("Empty".to_string(), None, &vec![]);
    let (c, icons) = r.unwrap();
    assert_eq!(c.icon_count, 0);
    assert!(icons.is_empty());
}
