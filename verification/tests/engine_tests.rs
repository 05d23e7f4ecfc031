//! The consistency engine end to end: note lifecycle, conflicts, renames
//! with backlink rewriting, cascading folder operations, search, previews
//! and the base64 encoder.

use notly::base64::base64_encode;
use notly::models::VaultError;
use notly::paths::relative_link_key;
use notly::paths::trash_path;
use notly::preview::generate_preview;
use notly::vault::Vault;

const NOW: &str = "2024-01-01T00:00:00";
const LATER: &str = "2024-01-02T00:00:00";

fn setup() -> Vault {
    Vault::new(String::from("/vault"))
}

#[test]
fn preview_strips_markdown_and_joins_lines() {
    assert_eq!(generate_preview("# Hello\n\nWorld"), "Hello World");
    assert_eq!(generate_preview("  a  \n\n  b  "), "a b");
    assert_eq!(generate_preview(""), "");
    assert_eq!(generate_preview("> quote [link](x)"), "quote linkx");
}

#[test]
fn preview_is_deterministic_and_bounded() {
    let long: String = "abcdefghij".repeat(30);
    let p1 = generate_preview(&long);
    let p2 = generate_preview(&long);
    assert_eq!(p1, p2);
    assert_eq!(p1.chars().count(), 103);
    assert!(p1.ends_with("..."));
    let short = generate_preview("short note");
    assert_eq!(short, "short note");
    assert!(generate_preview(&long).chars().count() <= 103);
}

#[test]
fn base64_encodes_known_vectors() {
    assert_eq!(base64_encode(b""), "");
    assert_eq!(base64_encode(b"M"), "TQ==");
    assert_eq!(base64_encode(b"Ma"), "TWE=");
    assert_eq!(base64_encode(b"Man"), "TWFu");
    assert_eq!(base64_encode(b"Hello"), "SGVsbG8=");
}

#[test]
fn link_keys_and_trash_paths() {
    assert_eq!(relative_link_key("/vault", "/vault/A/B.md"), "A/B");
    assert_eq!(relative_link_key("/vault", "/vault/A/.hidden"), "A/.hidden");
    assert_eq!(relative_link_key("/vault", "/vault/A\\B.md"), "A/B");
    assert_eq!(trash_path("/vault", "/vault/A/B.md"), "/vault/.trash/A/B.md");
}

#[test]
fn create_and_get_note_round_trip() {
    let mut v = setup();
    let n = v.create_note("Intro".to_string(), "hello".to_string(), None, None, NOW).unwrap();
    assert_eq!(n.file_path, "/vault/Intro.md");
    assert_eq!(n.content, "hello");
    let got = v.get_note_by_id(n.id).unwrap();
    assert_eq!(got.title, "Intro");
    assert_eq!(got.content, "hello");
    assert_eq!(got.created_at, NOW);
}

#[test]
fn create_conflicts_only_with_live_notes() {
    let mut v = setup();
    let n = v.create_note("Same".to_string(), "a".to_string(), None, None, NOW).unwrap();
    let dup = v.create_note("Same".to_string(), "b".to_string(), None, None, NOW);
    assert_eq!(dup.err(), Some(VaultError::Conflict));

    v.delete_note(n.id, NOW).unwrap();
    let again = v.create_note("Same".to_string(), "c".to_string(), None, None, LATER);
    assert!(again.is_ok());
}

#[test]
fn missing_ids_are_not_found() {
    let mut v = setup();
    assert_eq!(v.get_note_by_id(42).err(), Some(VaultError::NotFound));
    assert_eq!(v.get_folder_by_id(42).err(), Some(VaultError::NotFound));
    assert_eq!(v.delete_note(42, NOW).err(), Some(VaultError::NotFound));
    assert_eq!(v.restore_note(42).err(), Some(VaultError::NotFound));
}

#[test]
fn rename_onto_existing_file_is_refused() {
    let mut v = setup();
    v.create_note("One".to_string(), "a".to_string(), None, None, NOW).unwrap();
    let two = v.create_note("Two".to_string(), "b".to_string(), None, None, NOW).unwrap();
    let r = v.update_note(two.id, "One".to_string(), "b".to_string(), LATER);
    assert_eq!(r.err(), Some(VaultError::IOFailure));
}

#[test]
fn delete_then_restore_note_is_identity() {
    let mut v = setup();
    let n = v.create_note("Keep".to_string(), "body text".to_string(), None, None, NOW).unwrap();

    v.delete_note(n.id, LATER).unwrap();
    let deleted = v.get_deleted_notes();
    assert_eq!(deleted.len(), 1);
    assert!(deleted[0].is_deleted);
    assert_eq!(v.get_all_notes().len(), 0);

    v.restore_note(n.id).unwrap();
    let restored = v.get_note_by_id(n.id).unwrap();
    assert_eq!(restored.title, "Keep");
    assert_eq!(restored.content, "body text");
    assert_eq!(restored.file_path, n.file_path);
    assert!(!restored.is_deleted);
    assert_eq!(restored.parent_id, None);
}

#[test]
fn rename_rewrites_backlinks() {
    let mut v = setup();
    let a = v.create_folder("A".to_string(), None, None, NOW).unwrap();
    let b = v
        .create_folder("B".to_string(), Some(a.id), Some("A".to_string()), NOW)
        .unwrap();
    let n1 = v
        .create_note(
            "Intro".to_string(),
            "see [[A/B/Other]] here".to_string(),
            Some(b.id),
            Some("A/B".to_string()),
            NOW,
        )
        .unwrap();

    let renamed = v
        .update_folder(b.id, "C".to_string(), Some(a.id), None, None, None, None, LATER)
        .unwrap();
    assert_eq!(renamed.folder_path, "/vault/A/C");

    let n1_after = v.get_note_by_id(n1.id).unwrap();
    assert!(n1_after.content.contains("[[A/C/Other]]"));
    assert!(!n1_after.content.contains("[[A/B/Other]]"));
    assert!(n1_after.file_path.starts_with("/vault/A/C/"));

    let found = v.search_notes("Other");
    assert_eq!(found.len(), 1);
    assert_eq!(found[0].id, n1.id);
    let stale = v.search_notes("A/B/Other");
    assert_eq!(stale.len(), 0);
}

#[test]
fn note_rename_rewrites_title_links() {
    let mut v = setup();
    let target = v.create_note("Old".to_string(), "target body".to_string(), None, None, NOW).unwrap();
    let other = v
        .create_note("Ref".to_string(), "see [[Old]]".to_string(), None, None, NOW)
        .unwrap();

    v.update_note(target.id, "New".to_string(), "target body".to_string(), LATER).unwrap();

    let other_after = v.get_note_by_id(other.id).unwrap();
    assert_eq!(other_after.content, "see [[New]]");
    assert_eq!(other_after.updated_at, LATER);
}

#[test]
fn soft_deleting_folder_hides_contained_notes() {
    let mut v = setup();
    let a = v.create_folder("A".to_string(), None, None, NOW).unwrap();
    let n1 = v
        .create_note(
            "n1".to_string(),
            "inside".to_string(),
            Some(a.id),
            Some("A".to_string()),
            NOW,
        )
        .unwrap();

    v.delete_folder(a.id, LATER).unwrap();

    let deleted = v.get_deleted_notes();
    assert_eq!(deleted.len(), 1);
    assert_eq!(deleted[0].id, n1.id);
    assert!(deleted[0].is_deleted);

    assert!(v.files.iter().any(|f| f.path == "/vault/.trash/A/n1.md"));
    assert!(!v.files.iter().any(|f| f.path == "/vault/A/n1.md"));

    assert_eq!(v.get_all_notes().len(), 0);
    assert_eq!(v.search_notes("inside").len(), 0);
}

#[test]
fn restore_folder_brings_notes_and_search_back() {
    let mut v = setup();
    let a = v.create_folder("A".to_string(), None, None, NOW).unwrap();
    let n1 = v
        .create_note(
            "n1".to_string(),
            "inside".to_string(),
            Some(a.id),
            Some("A".to_string()),
            NOW,
        )
        .unwrap();

    v.delete_folder(a.id, LATER).unwrap();
    v.restore_folder(a.id).unwrap();

    let live = v.get_all_notes();
    assert_eq!(live.len(), 1);
    assert_eq!(live[0].id, n1.id);
    assert_eq!(v.search_notes("inside").len(), 1);
    let got = v.get_note_by_id(n1.id).unwrap();
    assert_eq!(got.content, "inside");
}

#[test]
fn permanently_deleting_folder_removes_descendants() {
    let mut v = setup();
    let a = v.create_folder("A".to_string(), None, None, NOW).unwrap();
    let b = v
        .create_folder("B".to_string(), Some(a.id), Some("A".to_string()), NOW)
        .unwrap();
    let n1 = v
        .create_note(
            "deep".to_string(),
            "buried".to_string(),
            Some(b.id),
            Some("A/B".to_string()),
            NOW,
        )
        .unwrap();

    v.delete_folder(a.id, LATER).unwrap();
    v.permanently_delete_folder(a.id).unwrap();

    assert_eq!(v.get_folder_by_id(a.id).err(), Some(VaultError::NotFound));
    assert_eq!(v.get_folder_by_id(b.id).err(), Some(VaultError::NotFound));
    assert_eq!(v.get_note_by_id(n1.id).err(), Some(VaultError::NotFound));
    assert_eq!(v.get_deleted_notes().len(), 0);
    assert!(!v.files.iter().any(|f| f.path.contains("deep")));
}

#[test]
fn moving_folder_into_descendant_changes_nothing() {
    let mut v = setup();
    let a = v.create_folder("A".to_string(), None, None, NOW).unwrap();
    let b = v
        .create_folder("B".to_string(), Some(a.id), Some("A".to_string()), NOW)
        .unwrap();

    let before: Vec<String> = v.get_all_folders().iter().map(|f| f.folder_path.clone()).collect();

    assert_eq!(v.move_folder(a.id, Some(a.id), NOW).err(), Some(VaultError::InvalidMove));
    assert_eq!(v.move_folder(a.id, Some(b.id), NOW).err(), Some(VaultError::InvalidMove));

    let after: Vec<String> = v.get_all_folders().iter().map(|f| f.folder_path.clone()).collect();
    assert_eq!(before, after);
}

#[test]
fn move_note_updates_path_and_parent() {
    let mut v = setup();
    let a = v.create_folder("A".to_string(), None, None, NOW).unwrap();
    let n = v.create_note("Roam".to_string(), "text".to_string(), None, None, NOW).unwrap();

    let moved = v.move_note(n.id, Some(a.id), LATER).unwrap();
    assert_eq!(moved.parent_id, Some(a.id));
    assert_eq!(moved.file_path, "/vault/A/Roam.md");
    assert_eq!(moved.updated_at, LATER);

    let got = v.get_note_by_id(n.id).unwrap();
    assert_eq!(got.content, "text");
}

#[test]
fn favorites_toggle_and_filter() {
    let mut v = setup();
    let n1 = v.create_note("F1".to_string(), "x".to_string(), None, None, NOW).unwrap();
    let n2 = v.create_note("F2".to_string(), "y".to_string(), None, None, NOW).unwrap();

    let t = v.toggle_favorite(n1.id).unwrap();
    assert!(t.is_favorite);

    let favs = v.get_favorite_notes();
    assert_eq!(favs.len(), 1);
    assert_eq!(favs[0].id, n1.id);

    let hits = v.search_notes("is:favorite");
    assert_eq!(hits.len(), 1);
    assert_eq!(hits[0].id, n1.id);
    let non = v.search_notes("-is:favorite");
    assert_eq!(non.len(), 1);
    assert_eq!(non[0].id, n2.id);

    let back = v.toggle_favorite(n1.id).unwrap();
    assert!(!back.is_favorite);
    assert_eq!(v.get_favorite_notes().len(), 0);

    v.toggle_favorite_notes(vec![n1.id, n2.id]).unwrap();
    assert_eq!(v.get_favorite_notes().len(), 2);
    assert!(v.update_favorite_order(n1.id, 3).is_ok());
}

#[test]
fn search_filters_by_tag_and_text() {
    let mut v = setup();
    let rust_tag = v.create_tag("rust".to_string(), None, NOW).unwrap();
    let n1 = v
        .create_note("About rust".to_string(), "memory safety".to_string(), None, None, NOW)
        .unwrap();
    v.create_note("Cooking".to_string(), "memory of taste".to_string(), None, None, NOW)
        .unwrap();
    v.add_tag_to_note(n1.id, rust_tag.id).unwrap();

    let by_tag = v.search_notes("tag:rust");
    assert_eq!(by_tag.len(), 1);
    assert_eq!(by_tag[0].id, n1.id);

    let by_both = v.search_notes("tag:rust memory");
    assert_eq!(by_both.len(), 1);

    let by_text = v.search_notes("memory");
    assert_eq!(by_text.len(), 2);

    let nothing = v.search_notes("tag:absent memory");
    assert_eq!(nothing.len(), 0);

    let repeated = v.search_notes("tag:rust tag:rust");
    assert_eq!(repeated.len(), 1);

    let quoted = v.search_notes("\"memory\" safety");
    assert_eq!(quoted.len(), 1);
}

#[test]
fn list_is_ordered_by_updated_at_descending() {
    let mut v = setup();
    let a = v.create_note("Old".to_string(), "a".to_string(), None, None, "2024-01-01T00:00:00").unwrap();
    let b = v.create_note("New".to_string(), "b".to_string(), None, None, "2024-03-01T00:00:00").unwrap();
    let c = v.create_note("Mid".to_string(), "c".to_string(), None, None, "2024-02-01T00:00:00").unwrap();

    let all = v.get_all_notes();
    assert_eq!(all.len(), 3);
    assert_eq!(all[0].id, b.id);
    assert_eq!(all[1].id, c.id);
    assert_eq!(all[2].id, a.id);
}

#[test]
fn permanently_deleting_note_drops_row_and_trash_file() {
    let mut v = setup();
    let n = v.create_note("Gone".to_string(), "bye".to_string(), None, None, NOW).unwrap();
    v.delete_note(n.id, LATER).unwrap();
    assert!(v.files.iter().any(|f| f.path == "/vault/.trash/Gone.md"));

    v.permanently_delete_note(n.id).unwrap();
    assert_eq!(v.get_note_by_id(n.id).err(), Some(VaultError::NotFound));
    assert!(!v.files.iter().any(|f| f.path.contains("Gone")));
}

#[test]
fn import_derives_title_from_stem() {
    let mut v = setup();
    let n = v
        .import_note("/downloads/Journal.md", "imported text".to_string(), None, NOW)
        .unwrap();
    assert_eq!(n.title, "Journal");
    assert_eq!(n.file_path, "/vault/Journal.md");
    assert_eq!(n.content, "imported text");

    let many = v
        .import_notes(
            vec![
                ("/x/a.md".to_string(), "one".to_string()),
                ("/x/b.md".to_string(), "two".to_string()),
            ],
            None,
            LATER,
        )
        .unwrap();
    assert_eq!(many.len(), 2);
}

#[test]
fn folder_create_conflicts_only_with_live_folders() {
    let mut v = setup();
    let a = v.create_folder("Again".to_string(), None, None, NOW).unwrap();
    let dup = v.create_folder("Again".to_string(), None, None, NOW);
    assert_eq!(dup.err(), Some(VaultError::Conflict));

    v.delete_folder(a.id, LATER).unwrap();
    let again = v.create_folder("Again".to_string(), None, None, LATER);
    assert!(again.is_ok());
}

#[test]
fn image_data_urls_carry_mime_and_payload() {
    assert_eq!(
        notly::base64::image_data_url(b"Man", "PNG"),
        "data:image/png;base64,TWFu"
    );
    assert_eq!(notly::base64::mime_type_for("SVG"), "image/svg+xml");
    assert_eq!(notly::base64::mime_type_for("jpeg"), "image/jpeg");
    assert_eq!(notly::base64::mime_type_for("bin"), "image/png");
}

#[test]
fn well_formedness_check_accepts_engine_states_only() {
    let mut v = setup();
    v.create_note("Ok".to_string(), "x".to_string(), None, None, NOW).unwrap();
    assert!(v.check_well_formed());

    let mut broken = setup();
    broken.create_note("One".to_string(), "x".to_string(), None, None, NOW).unwrap();
    broken.next_note_id = 1;
    assert!(!broken.check_well_formed());
}

#[test]
fn hierarchy_keeps_notes_with_unresolved_parents() {
    let mut v = setup();
    v.create_note("stray".to_string(), "y".to_string(), Some(99), None, NOW).unwrap();
    let tree = v.get_all_files_hierarchical();
    assert_eq!(tree.len(), 1);
    match &tree[0] {
        notly::models::FileItem::Note(n) => {
            assert_eq!(n.title, "stray");
            assert_eq!(n.parent_id, Some(99));
        },
        notly::models::FileItem::Folder(_) => panic!("expected the stray note"),
    }
}

#[test]
fn migrate_backfills_previews_and_search() {
    let mut v = setup();
    let n = v.create_note("Doc".to_string(), "# heading\nbody".to_string(), None, None, NOW).unwrap();
    v.notes[0].preview = String::new();
    v.search.clear();

    v.migrate().unwrap();

    assert_eq!(v.notes[0].preview, "heading body");
    assert_eq!(v.search.len(), 1);
    assert_eq!(v.search[0].id, n.id);
    assert_eq!(v.search[0].content, "# heading\nbody");
}

#[test]
fn hierarchy_groups_children_under_folders() {
    let mut v = setup();
    let a = v.create_folder("A".to_string(), None, None, NOW).unwrap();
    v.create_note("inA".to_string(), "x".to_string(), Some(a.id), Some("A".to_string()), NOW)
        .unwrap();
    v.create_note("atRoot".to_string(), "y".to_string(), None, None, NOW).unwrap();

    let tree = v.get_all_files_hierarchical();
    assert_eq!(tree.len(), 2);
    let mut found_folder = false;
    let mut found_root_note = false;
    for item in &tree {
        match item {
            notly::models::FileItem::Folder(f) => {
                assert_eq!(f.id, a.id);
                assert_eq!(f.children.len(), 1);
                match &f.children[0] {
                    notly::models::FileItem::Note(c) => assert_eq!(c.title, "inA"),
                    notly::models::FileItem::Folder(_) => panic!("expected a note child"),
                }
                found_folder = true;
            },
            notly::models::FileItem::Note(n) => {
                assert_eq!(n.title, "atRoot");
                found_root_note = true;
            },
        }
    }
    assert!(found_folder);
    assert!(found_root_note);
}
