//! The record types of the library: notes, folders, tags, templates,
//! hotkeys, the derived hierarchy items, and the inputs of the mutating
//! operations. Each record that takes part in the consistency engine has a
//! ghost view over mathematical types, which the contracts speak of.

use vstd::prelude::*;

verus! {

/// Why an operation was refused: the id has no row or its backing file is
/// missing (`NotFound`), a create would duplicate a live path (`Conflict`),
/// a folder move would form a cycle (`InvalidMove`), or a file operation
/// such as a rename found its source missing or its target taken
/// (`IOFailure`).
#[derive(Debug, Clone, Copy, PartialEq, Eq, Structural)]
pub enum VaultError {
    NotFound,
    Conflict,
    InvalidMove,
    IOFailure,
}

/// A note row of the metadata index.
#[derive(Debug, Clone)]
pub struct Note {
    pub id: i64,
    pub file_path: String,
    pub title: String,
    pub created_at: String,
    pub updated_at: String,
    pub parent_id: Option<i64>,
    pub preview: String,
    pub is_deleted: bool,
    pub deleted_at: Option<String>,
    pub is_favorite: bool,
    pub favorite_order: Option<i64>,
}

/// The ghost image of a note row.
pub struct NoteV {
    pub id: int,
    pub file_path: Seq<char>,
    pub title: Seq<char>,
    pub created_at: Seq<char>,
    pub updated_at: Seq<char>,
    pub parent_id: Option<int>,
    pub preview: Seq<char>,
    pub is_deleted: bool,
    pub deleted_at: Option<Seq<char>>,
    pub is_favorite: bool,
    pub favorite_order: Option<int>,
}

pub open spec fn opt_id_view(o: Option<i64>) -> Option<int> {
    match o {
        Some(x) => Some(x as int),
        None => None,
    }
}

pub open spec fn opt_str_view(o: Option<String>) -> Option<Seq<char>> {
    match o {
        Some(x) => Some(x@),
        None => None,
    }
}

impl View for Note {
    type V = NoteV;

    open spec fn view(&self) -> NoteV {
        NoteV {
            id: self.id as int,
            file_path: self.file_path@,
            title: self.title@,
            created_at: self.created_at@,
            updated_at: self.updated_at@,
            parent_id: opt_id_view(self.parent_id),
            preview: self.preview@,
            is_deleted: self.is_deleted,
            deleted_at: opt_str_view(self.deleted_at),
            is_favorite: self.is_favorite,
            favorite_order: opt_id_view(self.favorite_order),
        }
    }
}

/// A note together with its file content.
#[derive(Debug, Clone)]
pub struct NoteWithContent {
    pub id: i64,
    pub file_path: String,
    pub title: String,
    pub created_at: String,
    pub updated_at: String,
    pub parent_id: Option<i64>,
    pub content: String,
    pub is_deleted: bool,
    pub deleted_at: Option<String>,
}

/// A folder row of the metadata index.
#[derive(Debug, Clone)]
pub struct Folder {
    pub id: i64,
    pub name: String,
    pub created_at: String,
    pub updated_at: String,
    pub parent_id: Option<i64>,
    pub folder_path: String,
    pub is_deleted: bool,
    pub deleted_at: Option<String>,
    pub icon: Option<String>,
    pub color: Option<String>,
    pub sort_by: Option<String>,
    pub sort_order: Option<String>,
}

/// The ghost image of a folder row.
pub struct FolderV {
    pub id: int,
    pub name: Seq<char>,
    pub created_at: Seq<char>,
    pub updated_at: Seq<char>,
    pub parent_id: Option<int>,
    pub folder_path: Seq<char>,
    pub is_deleted: bool,
    pub deleted_at: Option<Seq<char>>,
    pub icon: Option<Seq<char>>,
    pub color: Option<Seq<char>>,
    pub sort_by: Option<Seq<char>>,
    pub sort_order: Option<Seq<char>>,
}

impl View for Folder {
    type V = FolderV;

    open spec fn view(&self) -> FolderV {
        FolderV {
            id: self.id as int,
            name: self.name@,
            created_at: self.created_at@,
            updated_at: self.updated_at@,
            parent_id: opt_id_view(self.parent_id),
            folder_path: self.folder_path@,
            is_deleted: self.is_deleted,
            deleted_at: opt_str_view(self.deleted_at),
            icon: opt_str_view(self.icon),
            color: opt_str_view(self.color),
            sort_by: opt_str_view(self.sort_by),
            sort_order: opt_str_view(self.sort_order),
        }
    }
}

/// One file of the content store: a path under the content root (or its
/// trash mirror) and the text it holds.
#[derive(Debug, Clone)]
pub struct FileEntry {
    pub path: String,
    pub content: String,
}

pub struct FileV {
    pub path: Seq<char>,
    pub content: Seq<char>,
}

impl View for FileEntry {
    type V = FileV;

    open spec fn view(&self) -> FileV {
        FileV { path: self.path@, content: self.content@ }
    }
}

/// One row of the full-text search index: the indexed title and content of
/// a live note.
#[derive(Debug, Clone)]
pub struct SearchEntry {
    pub id: i64,
    pub title: String,
    pub content: String,
}

pub struct SearchV {
    pub id: int,
    pub title: Seq<char>,
    pub content: Seq<char>,
}

impl View for SearchEntry {
    type V = SearchV;

    open spec fn view(&self) -> SearchV {
        SearchV { id: self.id as int, title: self.title@, content: self.content@ }
    }
}

/// A tag row.
#[derive(Debug, Clone)]
pub struct Tag {
    pub id: i64,
    pub name: String,
    pub color: Option<String>,
    pub created_at: String,
    pub updated_at: String,
}

pub struct TagV {
    pub id: int,
    pub name: Seq<char>,
    pub color: Option<Seq<char>>,
    pub created_at: Seq<char>,
    pub updated_at: Seq<char>,
}

impl View for Tag {
    type V = TagV;

    open spec fn view(&self) -> TagV {
        TagV {
            id: self.id as int,
            name: self.name@,
            color: opt_str_view(self.color),
            created_at: self.created_at@,
            updated_at: self.updated_at@,
        }
    }
}

/// An association between a note and a tag.
#[derive(Debug, Clone)]
pub struct NoteTag {
    pub note_id: i64,
    pub tag_id: i64,
}

pub struct LinkV {
    pub note_id: int,
    pub tag_id: int,
}

impl View for NoteTag {
    type V = LinkV;

    open spec fn view(&self) -> LinkV {
        LinkV { note_id: self.note_id as int, tag_id: self.tag_id as int }
    }
}

/// The arguments of a note creation.
#[derive(Debug, Clone)]
pub struct CreateNoteInput {
    pub title: String,
    pub content: String,
    pub parent_id: Option<i64>,
    pub folder_path: Option<String>,
}

/// The arguments of a note update.
#[derive(Debug, Clone)]
pub struct UpdateNoteInput {
    pub id: i64,
    pub title: String,
    pub content: String,
}

/// The arguments of a note move.
#[derive(Debug, Clone)]
pub struct MoveNoteInput {
    pub id: i64,
    pub new_parent_id: Option<i64>,
}

/// The arguments of a folder creation.
#[derive(Debug, Clone)]
pub struct CreateFolderInput {
    pub name: String,
    pub parent_id: Option<i64>,
    pub parent_path: Option<String>,
}

/// The arguments of a folder update.
#[derive(Debug, Clone)]
pub struct UpdateFolderInput {
    pub id: i64,
    pub name: String,
    pub parent_id: Option<i64>,
    pub icon: Option<String>,
    pub color: Option<String>,
    pub sort_by: Option<String>,
    pub sort_order: Option<String>,
}

/// The arguments of a folder move.
#[derive(Debug, Clone)]
pub struct MoveFolderInput {
    pub id: i64,
    pub new_parent_id: Option<i64>,
}

/// The arguments of a tag creation.
#[derive(Debug, Clone)]
pub struct CreateTagInput {
    pub name: String,
    pub color: Option<String>,
}

/// The arguments of a tag update.
#[derive(Debug, Clone)]
pub struct UpdateTagInput {
    pub id: i64,
    pub name: String,
    pub color: Option<String>,
}

/// A template row; template upkeep lives outside the consistency engine.
#[derive(Debug, Clone)]
pub struct Template {
    pub id: i64,
    pub name: String,
    pub content: String,
    pub description: Option<String>,
    pub created_at: String,
    pub updated_at: String,
}

/// The arguments of a template creation.
#[derive(Debug, Clone)]
pub struct CreateTemplateInput {
    pub name: String,
    pub content: String,
    pub description: Option<String>,
}

/// The arguments of a template update.
#[derive(Debug, Clone)]
pub struct UpdateTemplateInput {
    pub id: i64,
    pub name: String,
    pub content: String,
    pub description: Option<String>,
}

/// A hotkey row; hotkey registration lives outside the consistency engine.
#[derive(Debug, Clone)]
pub struct Hotkey {
    pub id: i64,
    pub action: String,
    pub shortcut: String,
    pub enabled: bool,
    pub created_at: String,
    pub updated_at: String,
}

/// The arguments of a hotkey update.
#[derive(Debug, Clone)]
pub struct UpdateHotkeyInput {
    pub action: String,
    pub shortcut: String,
    pub enabled: bool,
}

/// One entry of the derived hierarchy view.
#[derive(Debug)]
pub enum FileItem {
    Folder(FolderWithChildren),
    Note(Note),
}

/// A folder of the derived hierarchy view, with its children nested.
#[derive(Debug)]
pub struct FolderWithChildren {
    pub id: i64,
    pub name: String,
    pub created_at: String,
    pub updated_at: String,
    pub parent_id: Option<i64>,
    pub folder_path: String,
    pub children: Vec<FileItem>,
    pub is_deleted: bool,
    pub deleted_at: Option<String>,
    pub icon: Option<String>,
    pub color: Option<String>,
    pub sort_by: Option<String>,
    pub sort_order: Option<String>,
}

} // verus!

use vstd::prelude::*;

verus! {

impl Note {
    /// A field-for-field copy.
    pub fn duplicate(&self) -> (r: Note)
        ensures
            r@ == self@,
    {
        Note {
            id: self.id,
            file_path: self.file_path.clone(),
            title: self.title.clone(),
            created_at: self.created_at.clone(),
            updated_at: self.updated_at.clone(),
            parent_id: self.parent_id,
            preview: self.preview.clone(),
            is_deleted: self.is_deleted,
            deleted_at: match &self.deleted_at {
                Some(s) => Some(s.clone()),
                None => None,
            },
            is_favorite: self.is_favorite,
            favorite_order: self.favorite_order,
        }
    }
}

impl Folder {
    /// A field-for-field copy.
    pub fn duplicate(&self) -> (r: Folder)
        ensures
            r@ == self@,
    {
        Folder {
            id: self.id,
            name: self.name.clone(),
            created_at: self.created_at.clone(),
            updated_at: self.updated_at.clone(),
            parent_id: self.parent_id,
            folder_path: self.folder_path.clone(),
            is_deleted: self.is_deleted,
            deleted_at: match &self.deleted_at {
                Some(s) => Some(s.clone()),
                None => None,
            },
            icon: match &self.icon {
                Some(s) => Some(s.clone()),
                None => None,
            },
            color: match &self.color {
                Some(s) => Some(s.clone()),
                None => None,
            },
            sort_by: match &self.sort_by {
                Some(s) => Some(s.clone()),
                None => None,
            },
            sort_order: match &self.sort_order {
                Some(s) => Some(s.clone()),
                None => None,
            },
        }
    }
}

impl Tag {
    /// A field-for-field copy.
    pub fn duplicate(&self) -> (r: Tag)
        ensures
            r@ == self@,
    {
        Tag {
            id: self.id,
            name: self.name.clone(),
            color: match &self.color {
                Some(s) => Some(s.clone()),
                None => None,
            },
            created_at: self.created_at.clone(),
            updated_at: self.updated_at.clone(),
        }
    }
}

} // verus!
