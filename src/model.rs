//! The records of the store and their mathematical views.

use vstd::prelude::*;
use crate::tags::{strings_view, decode_spec};

verus! {

/// A named node in the tree of collections.
#[derive(Debug, Clone)]
pub struct Collection {
    pub id: String,
    pub name: String,
    /// The collection this one sits in; `None` at the top level.
    pub parent_id: Option<String>,
    /// Icons directly in this collection, as last recorded by a caller.
    pub icon_count: i32,
    pub color: String,
    pub created_at: String,
}

pub struct CollectionView {
    pub id: Seq<char>,
    pub name: Seq<char>,
    pub parent_id: Option<Seq<char>>,
    pub icon_count: i32,
    pub color: Seq<char>,
    pub created_at: Seq<char>,
}

pub open spec fn opt_view(o: Option<String>) -> Option<Seq<char>> {
    match o {
        Some(s) => Some(s@),
        None => None,
    }
}

pub fn copy_opt(o: &Option<String>) -> (r: Option<String>)
    ensures
        opt_view(r) == opt_view(*o),
{
    match o {
        Some(s) => Some(s.clone()),
        None => None,
    }
}

impl View for Collection {
    type V = CollectionView;

    open spec fn view(&self) -> CollectionView {
        CollectionView {
            id: self.id@,
            name: self.name@,
            parent_id: opt_view(self.parent_id),
            icon_count: self.icon_count,
            color: self.color@,
            created_at: self.created_at@,
        }
    }
}

impl Collection {
    /// A field-by-field copy.
    pub fn duplicate(&self) -> (r: Collection)
        ensures
            r@ == self@,
    {
        Collection {
            id: self.id.clone(),
            name: self.name.clone(),
            parent_id: copy_opt(&self.parent_id),
            icon_count: self.icon_count,
            color: self.color.clone(),
            created_at: self.created_at.clone(),
        }
    }
}

/// An SVG asset as handed to and from callers, with its tags as a list.
#[derive(Debug, Clone)]
pub struct Icon {
    pub id: String,
    pub name: String,
    pub path: String,
    pub svg_content: String,
    pub tags: Vec<String>,
    pub collection_id: String,
    pub created_at: String,
    pub file_size: i64,
    pub favorite: bool,
}

pub struct IconView {
    pub id: Seq<char>,
    pub name: Seq<char>,
    pub path: Seq<char>,
    pub svg_content: Seq<char>,
    pub tags: Seq<Seq<char>>,
    pub collection_id: Seq<char>,
    pub created_at: Seq<char>,
    pub file_size: i64,
    pub favorite: bool,
}

impl View for Icon {
    type V = IconView;

    open spec fn view(&self) -> IconView {
        IconView {
            id: self.id@,
            name: self.name@,
            path: self.path@,
            svg_content: self.svg_content@,
            tags: strings_view(self.tags@),
            collection_id: self.collection_id@,
            created_at: self.created_at@,
            file_size: self.file_size,
            favorite: self.favorite,
        }
    }
}

/// An icon as the store keeps it: its tags in their joined form.
#[derive(Debug, Clone)]
pub struct IconRow {
    pub id: String,
    pub name: String,
    pub path: String,
    pub svg_content: String,
    pub tags: String,
    pub collection_id: String,
    pub created_at: String,
    pub file_size: i64,
    pub favorite: bool,
}

pub struct IconRowView {
    pub id: Seq<char>,
    pub name: Seq<char>,
    pub path: Seq<char>,
    pub svg_content: Seq<char>,
    pub tags: Seq<char>,
    pub collection_id: Seq<char>,
    pub created_at: Seq<char>,
    pub file_size: i64,
    pub favorite: bool,
}

impl View for IconRow {
    type V = IconRowView;

    open spec fn view(&self) -> IconRowView {
        IconRowView {
            id: self.id@,
            name: self.name@,
            path: self.path@,
            svg_content: self.svg_content@,
            tags: self.tags@,
            collection_id: self.collection_id@,
            created_at: self.created_at@,
            file_size: self.file_size,
            favorite: self.favorite,
        }
    }
}

impl IconRow {
    /// A field-by-field copy.
    pub fn duplicate(&self) -> (r: IconRow)
        ensures
            r@ == self@,
    {
        IconRow {
            id: self.id.clone(),
            name: self.name.clone(),
            path: self.path.clone(),
            svg_content: self.svg_content.clone(),
            tags: self.tags.clone(),
            collection_id: self.collection_id.clone(),
            created_at: self.created_at.clone(),
            file_size: self.file_size,
            favorite: self.favorite,
        }
    }
}

/// What a caller reads for a stored row.
pub open spec fn icon_of(r: IconRowView) -> IconView {
    IconView {
        id: r.id,
        name: r.name,
        path: r.path,
        svg_content: r.svg_content,
        tags: decode_spec(r.tags),
        collection_id: r.collection_id,
        created_at: r.created_at,
        file_size: r.file_size,
        favorite: r.favorite,
    }
}

/// One stored setting.
#[derive(Debug, Clone)]
pub struct SettingRow {
    pub key: String,
    pub value: String,
}

/// The user settings, read with their defaults filled in.
#[derive(Debug, Clone)]
pub struct Settings {
    pub theme: String,
    pub icon_size: i32,
    pub tint_color: Option<String>,
}

/// Why a store operation was refused.
#[derive(Debug, PartialEq, Eq, Structural, Clone, Copy)]
pub enum StoreError {
    /// A row with that identifier is already stored.
    DuplicateId,
    /// The parent collection named by a new collection is not stored.
    MissingParent,
    /// The collection named by a new icon is not stored.
    MissingCollection,
    /// No icon has that identifier.
    NotFound,
    /// Rows handed in to start a store break an integrity rule.
    Inconsistent,
}

/// The views of a sequence of records.
pub open spec fn views<T: View>(s: Seq<T>) -> Seq<T::V> {
    Seq::new(s.len(), |i: int| s[i]@)
}

} // verus!
