//! The folder and tag operations, driven as the service layer drives them.

use notly::vault::Vault;

const NOW: &str = "2024-01-01T00:00:00";

fn setup() -> Vault {
    Vault::new(String::from("/vault"))
}

#[test]
fn test_create_folder() {
    let mut v = setup();

    let result = v.create_folder("テストフォルダ".to_string(), None, None, NOW);

    assert!(result.is_ok());
    let folder = result.unwrap();
    assert_eq!(folder.name, "テストフォルダ");
    assert!(!folder.is_deleted);
}

#[test]
fn test_get_folder_by_id() {
    let mut v = setup();

    let created = v.create_folder("取得テスト".to_string(), None, None, NOW).unwrap();

    let result = v.get_folder_by_id(created.id);
    assert!(result.is_ok());
    let folder = result.unwrap();
    assert_eq!(folder.id, created.id);
    assert_eq!(folder.name, "取得テスト");
}

#[test]
fn test_get_all_folders() {
    let mut v = setup();

    v.create_folder("フォルダ1".to_string(), None, None, NOW).unwrap();
    v.create_folder("フォルダ2".to_string(), None, None, NOW).unwrap();

    let folders = v.get_all_folders();
    assert_eq!(folders.len(), 2);
}

#[test]
fn test_update_folder() {
    let mut v = setup();

    let created = v.create_folder("元の名前".to_string(), None, None, NOW).unwrap();

    let result = v.update_folder(
        created.id,
        "元の名前".to_string(),
        None,
        Some("📁".to_string()),
        Some("#FF0000".to_string()),
        None,
        None,
        NOW,
    );
    assert!(result.is_ok());
    let updated = result.unwrap();
    assert_eq!(updated.name, "元の名前");
    assert_eq!(updated.icon, Some("📁".to_string()));
    assert_eq!(updated.color, Some("#FF0000".to_string()));
}

#[test]
fn test_delete_folder() {
    let mut v = setup();

    let created = v.create_folder("削除テスト".to_string(), None, None, NOW).unwrap();

    let result = v.delete_folder(created.id, NOW);
    assert!(result.is_ok());

    let folders = v.get_all_folders();
    assert_eq!(folders.len(), 0);

    let deleted_folders = v.get_deleted_folders();
    assert_eq!(deleted_folders.len(), 1);
}

#[test]
fn test_restore_folder() {
    let mut v = setup();

    let created = v.create_folder("復元テスト".to_string(), None, None, NOW).unwrap();

    v.delete_folder(created.id, NOW).unwrap();
    assert_eq!(v.get_all_folders().len(), 0);

    v.restore_folder(created.id).unwrap();
    assert_eq!(v.get_all_folders().len(), 1);
}

#[test]
fn test_move_folder() {
    let mut v = setup();

    let parent = v.create_folder("親フォルダ".to_string(), None, None, NOW).unwrap();
    let child = v.create_folder("子フォルダ".to_string(), None, None, NOW).unwrap();

    let result = v.move_folder(child.id, Some(parent.id), NOW);
    assert!(result.is_ok());
    let moved = result.unwrap();
    assert_eq!(moved.parent_id, Some(parent.id));
}

#[test]
fn test_create_tag() {
    let mut v = setup();

    let result = v.create_tag("テストタグ".to_string(), Some("#FF0000".to_string()), NOW);

    assert!(result.is_ok());
    let tag = result.unwrap();
    assert_eq!(tag.name, "テストタグ");
    assert_eq!(tag.color, Some("#FF0000".to_string()));
}

#[test]
fn test_get_all_tags() {
    let mut v = setup();

    v.create_tag("タグ1".to_string(), None, NOW).unwrap();
    v.create_tag("タグ2".to_string(), None, NOW).unwrap();

    let tags = v.get_all_tags();
    assert!(tags.len() >= 2);
}

#[test]
fn test_update_tag() {
    let mut v = setup();

    let created = v.create_tag("元の名前".to_string(), None, NOW).unwrap();

    let result = v.update_tag(
        created.id,
        "新しい名前".to_string(),
        Some("#00FF00".to_string()),
        NOW,
    );
    assert!(result.is_ok());
    let updated = result.unwrap();
    assert_eq!(updated.name, "新しい名前");
    assert_eq!(updated.color, Some("#00FF00".to_string()));
}

#[test]
fn test_delete_tag() {
    let mut v = setup();

    let created = v.create_tag("削除テスト".to_string(), None, NOW).unwrap();

    let result = v.delete_tag(created.id);
    assert!(result.is_ok());

    let tags = v.get_all_tags();
    assert!(!tags.iter().any(|t| t.id == created.id));
}

#[test]
fn test_add_tag_to_note() {
    let mut v = setup();

    let tag = v.create_tag("テストタグ".to_string(), None, NOW).unwrap();
    let note = v.create_note("ノート".to_string(), "内容".to_string(), None, None, NOW).unwrap();

    let result = v.add_tag_to_note(note.id, tag.id);
    assert!(result.is_ok());

    let tags = v.get_tags_by_note(note.id);
    assert!(tags.iter().any(|t| t.id == tag.id));
}

#[test]
fn test_remove_tag_from_note() {
    let mut v = setup();

    let tag = v.create_tag("テストタグ".to_string(), None, NOW).unwrap();
    let note = v.create_note("ノート".to_string(), "内容".to_string(), None, None, NOW).unwrap();

    v.add_tag_to_note(note.id, tag.id).unwrap();
    let result = v.remove_tag_from_note(note.id, tag.id);
    assert!(result.is_ok());

    let tags = v.get_tags_by_note(note.id);
    assert!(!tags.iter().any(|t| t.id == tag.id));
}

#[test]
fn test_get_notes_by_tag() {
    let mut v = setup();

    let tag = v.create_tag("テストタグ".to_string(), None, NOW).unwrap();
    let note1 = v.create_note("ノート1".to_string(), "内容1".to_string(), None, None, NOW).unwrap();
    let note2 = v.create_note("ノート2".to_string(), "内容2".to_string(), None, None, NOW).unwrap();

    v.add_tag_to_note(note1.id, tag.id).unwrap();
    v.add_tag_to_note(note2.id, tag.id).unwrap();

    let notes = v.get_notes_by_tag(tag.id);
    assert_eq!(notes.len(), 2);
}
