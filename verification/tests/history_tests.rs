use sen::history::{
    history_step_target, join_file_content, split_file_content, AutosaveEntry, DocumentWithHistory, HistoryEntry, HistoryPayload,
    StoredHistory, DEFAULT_MAX_HISTORY,
};
use serde_json::Value;

fn entry_value(e: &HistoryEntry) -> Value {
    let mut m = serde_json::Map::new();
    m.insert("timestamp".to_string(), Value::String(e.timestamp.clone()));
    m.insert("content".to_string(), Value::String(e.content.clone()));
    let comment = match &e.comment {
        Some(c) => Value::String(c.clone()),
        None => Value::Null,
    };
    m.insert("comment".to_string(), comment);
    m.insert("deleted".to_string(), Value::Bool(e.deleted));
    Value::Object(m)
}

fn payload_text(p: &HistoryPayload) -> String {
    let mut m = serde_json::Map::new();
    m.insert("history".to_string(), Value::Array(p.history.iter().map(entry_value).collect()));
    m.insert("max_history_length".to_string(), Value::from(p.max_history_length as u64));
    if let Some(a) = &p.autosave {
        let mut am = serde_json::Map::new();
        am.insert("timestamp".to_string(), Value::String(a.timestamp.clone()));
        am.insert("content".to_string(), Value::String(a.content.clone()));
        m.insert("autosave".to_string(), Value::Object(am));
    }
    serde_json::to_string(&Value::Object(m)).unwrap()
}

fn entry_from(v: &Value) -> Option<HistoryEntry> {
    Some(HistoryEntry {
        timestamp: v.get("timestamp")?.as_str()?.to_string(),
        content: v.get("content")?.as_str()?.to_string(),
        comment: v.get("comment").and_then(|c| c.as_str()).map(|c| c.to_string()),
        deleted: v.get("deleted").and_then(|d| d.as_bool()).unwrap_or(false),
    })
}

fn entries_from(v: &Value) -> Option<Vec<HistoryEntry>> {
    v.as_array()?.iter().map(entry_from).collect()
}

fn stored_from(text: &str) -> StoredHistory {
    let value: Value = match serde_json::from_str(text) {
        Ok(v) => v,
        Err(_) => return StoredHistory::Unreadable,
    };
    if let Some(history) = value.get("history").and_then(entries_from) {
        let max = value.get("max_history_length").and_then(|m| m.as_u64()).map(|m| m as usize).unwrap_or(DEFAULT_MAX_HISTORY);
        let autosave = value.get("autosave").and_then(|a| {
            Some(AutosaveEntry {
                timestamp: a.get("timestamp")?.as_str()?.to_string(),
                content: a.get("content")?.as_str()?.to_string(),
            })
        });
        return StoredHistory::Current(HistoryPayload { history, max_history_length: max, autosave });
    }
    match entries_from(&value) {
        Some(v) => StoredHistory::Legacy(v),
        None => StoredHistory::Unreadable,
    }
}

fn to_file_content(doc: &DocumentWithHistory) -> String {
    match doc.history_payload() {
        None => doc.current_content.clone(),
        Some(p) => join_file_content(&doc.current_content, &payload_text(&p)),
    }
}

fn from_file_content(text: &str) -> DocumentWithHistory {
    let (content, rest) = split_file_content(text);
    let stored = match rest {
        None => StoredHistory::Absent,
        Some(r) => stored_from(&r),
    };
    DocumentWithHistory::from_file_sections(content, stored)
}

#[test]
fn test_history_embedded() {
    let mut doc = DocumentWithHistory::default();
    doc.current_content = "Initial content".to_string();
    assert!(doc.add_snapshot(Some("First save".to_string())));

    doc.current_content = "Modified content".to_string();
    assert!(doc.add_snapshot(Some("Second save".to_string())));

    assert_eq!(doc.history.len(), 2);

    let file_content = to_file_content(&doc);
    let loaded = from_file_content(&file_content);

    assert_eq!(loaded.current_content, "Modified content");
    assert_eq!(loaded.history.len(), 2);
}

#[test]
fn test_no_duplicate_snapshots() {
    let mut doc = DocumentWithHistory::default();
    doc.current_content = "Same content".to_string();

    assert!(doc.add_snapshot(Some("First".to_string())));
    assert!(!doc.add_snapshot(Some("Second".to_string())));

    assert_eq!(doc.history.len(), 1);
}

#[test]
fn test_soft_delete() {
    let mut doc = DocumentWithHistory::default();
    doc.current_content = "Test".to_string();
    doc.add_snapshot(Some("v1".to_string()));

    doc.current_content = "Test2".to_string();
    doc.add_snapshot(Some("v2".to_string()));

    assert_eq!(doc.history.len(), 2);

    doc.mark_entry_deleted(0);
    assert_eq!(doc.history.len(), 2);
    assert_eq!(doc.get_visible_history().len(), 1);

    let content = to_file_content(&doc);
    let reloaded = from_file_content(&content);
    assert_eq!(reloaded.history.len(), 1);
}

#[test]
fn test_autosave_roundtrip() {
    let mut doc = DocumentWithHistory::default();
    doc.current_content = "Normal content".to_string();
    doc.set_autosave("Autosaved content".to_string());

    let serialized = to_file_content(&doc);
    let loaded = from_file_content(&serialized);

    assert_eq!(loaded.current_content, "Normal content");
    assert!(loaded.autosave.is_some());
    assert_eq!(loaded.autosave.unwrap().content, "Autosaved content");
}

fn entry(content: &str, deleted: bool) -> HistoryEntry {
    HistoryEntry {
        timestamp: "2024-01-01T00:00:00+00:00".to_string(),
        content: content.to_string(),
        comment: None,
        deleted,
    }
}

#[test]
fn plain_file_has_no_history() {
    let doc = from_file_content("just text");
    assert_eq!(doc.current_content, "just text");
    assert!(doc.history.is_empty());
    assert_eq!(doc.max_history_length, 1000);
    assert!(doc.autosave.is_none());
    let empty = DocumentWithHistory::new_with_limit(5);
    assert_eq!(to_file_content(&empty), "");
}

#[test]
fn split_finds_first_separator() {
    let (content, rest) = split_file_content("a\n<>\nb\n<>\nc");
    assert_eq!(content, "a");
    assert_eq!(rest.as_deref(), Some("b\n<>\nc"));
    let (content, rest) = split_file_content("no separator");
    assert_eq!(content, "no separator");
    assert!(rest.is_none());
    assert_eq!(join_file_content("x", "{}"), "x\n<>\n{}");
}

#[test]
fn legacy_and_unreadable_history() {
    let legacy = format!("doc\n<>\n[{}]", serde_json::to_string(&entry_value(&entry("old", false))).unwrap());
    let doc = from_file_content(&legacy);
    assert_eq!(doc.current_content, "doc");
    assert_eq!(doc.history.len(), 1);
    assert_eq!(doc.history[0].content, "old");
    assert_eq!(doc.max_history_length, DEFAULT_MAX_HISTORY);

    let broken = from_file_content("doc\n<>\nnot json");
    assert_eq!(broken.current_content, "doc");
    assert!(broken.history.is_empty());
    assert_eq!(broken.max_history_length, 1000);
}

#[test]
fn save_keeps_newest_visible_versions() {
    let mut doc = DocumentWithHistory::new_with_limit(2);
    doc.history = vec![entry("a", false), entry("b", true), entry("c", false), entry("d", false)];
    let kept = doc.active_history();
    let names: Vec<&str> = kept.iter().map(|e| e.content.as_str()).collect();
    assert_eq!(names, vec!["c", "d"]);

    let reloaded = from_file_content(&to_file_content(&doc));
    let names: Vec<String> = reloaded.history.iter().map(|e| e.content.clone()).collect();
    assert_eq!(names, vec!["c".to_string(), "d".to_string()]);
    assert_eq!(reloaded.max_history_length, 2);
}

#[test]
fn trim_marks_oldest_visible() {
    let mut doc = DocumentWithHistory::new_with_limit(1);
    doc.history = vec![entry("a", false), entry("b", false), entry("c", false)];
    doc.trim_to_limit();
    let marks: Vec<bool> = doc.history.iter().map(|e| e.deleted).collect();
    assert_eq!(marks, vec![true, true, false]);
}

#[test]
fn commit_saved_history_matches_file() {
    let mut doc = DocumentWithHistory::new_with_limit(2);
    doc.history = vec![entry("a", false), entry("b", false), entry("c", true), entry("d", false)];
    let written = doc.active_history();
    doc.commit_saved_history();
    assert_eq!(doc.history.len(), written.len());
    for (kept, saved) in doc.history.iter().zip(written.iter()) {
        assert_eq!(kept.content, saved.content);
        assert!(!kept.deleted);
    }
    let names: Vec<&str> = doc.history.iter().map(|e| e.content.as_str()).collect();
    assert_eq!(names, vec!["b", "d"]);
}

#[test]
fn drop_deleted_removes_marked() {
    let mut doc = DocumentWithHistory::new_with_limit(10);
    doc.history = vec![entry("a", true), entry("b", false), entry("c", true)];
    doc.drop_deleted();
    assert_eq!(doc.history.len(), 1);
    assert_eq!(doc.history[0].content, "b");
}

#[test]
fn revert_history_changes_restores_checkpoint() {
    let mut doc = DocumentWithHistory::new_with_limit(3);
    doc.history = vec![entry("a", false), entry("b", false)];
    let checkpoint = doc.commit_history_state();
    assert_eq!(checkpoint.initial_history_len, 2);
    assert_eq!(checkpoint.initial_max_history_length, 3);

    doc.current_content = "c".to_string();
    assert!(doc.add_snapshot(None));
    assert!(doc.mark_entry_deleted(0));
    doc.set_max_history_length(9);
    doc.revert_history_changes(&checkpoint);

    assert_eq!(doc.max_history_length, 3);
    assert_eq!(doc.history.len(), 2);
    assert_eq!(doc.history[0].content, "a");
    assert!(!doc.history[0].deleted);
    assert_eq!(doc.history[1].content, "b");
}

#[test]
fn load_and_revert_versions() {
    let mut doc = DocumentWithHistory::new_with_limit(10);
    doc.history = vec![entry("a", false), entry("b", false), entry("c", false)];
    assert!(doc.load_version(1));
    assert_eq!(doc.current_content, "b");
    assert!(!doc.load_version(7));

    assert!(doc.revert_to_version(0));
    assert_eq!(doc.current_content, "a");
    let marks: Vec<bool> = doc.history.iter().map(|e| e.deleted).collect();
    assert_eq!(marks, vec![false, true, true]);
    assert!(!doc.revert_to_version(2));

    let visible: Vec<usize> = doc.get_visible_history().iter().map(|(i, _)| *i).collect();
    assert_eq!(visible, vec![0]);

    doc.mark_all_deleted();
    assert!(doc.get_visible_history().is_empty());
    assert!(doc.history_payload().is_none());
}

#[test]
fn history_limit_accessors() {
    let mut doc = DocumentWithHistory::default();
    assert_eq!(doc.get_max_history_length(), 1000);
    doc.set_max_history_length(7);
    assert_eq!(doc.get_max_history_length(), 7);
    assert_eq!(sen::history::default_max_history(), 1000);
}

#[test]
fn autosave_slot_set_and_cleared() {
    let mut doc = DocumentWithHistory::default();
    doc.set_autosave("draft".to_string());
    assert_eq!(doc.autosave.as_ref().unwrap().content, "draft");
    assert!(doc.history_payload().is_some());
    doc.clear_autosave();
    assert!(doc.autosave.is_none());
    assert!(doc.history_payload().is_none());
}

#[test]
fn local_timestamp_display() {
    let e = entry("x", false);
    let shown = e.display_timestamp();
    assert_eq!(shown.len(), "2024-01-01 00:00:00".len());
    assert!(shown.starts_with("20"));
    let mut doc = DocumentWithHistory::default();
    doc.current_content = "t".to_string();
    doc.add_snapshot(None);
    assert!(chrono::DateTime::parse_from_rfc3339(&doc.history[0].timestamp).is_ok());
}

#[test]
fn arrow_keys_walk_the_history_list() {
    let visible = vec![0usize, 2, 3, 7];
    // Up with nothing loaded goes to the newest entry; down does nothing.
    assert_eq!(history_step_target(&visible, None, true), Some(7));
    assert_eq!(history_step_target(&visible, None, false), None);
    assert_eq!(history_step_target(&[], None, true), None);
    // Up goes to the next newer entry, down to the next older one.
    assert_eq!(history_step_target(&visible, Some(2), true), Some(3));
    assert_eq!(history_step_target(&visible, Some(2), false), Some(0));
    // At the ends nothing moves.
    assert_eq!(history_step_target(&visible, Some(7), true), None);
    assert_eq!(history_step_target(&visible, Some(0), false), None);
    // An entry that is not listed moves nowhere.
    assert_eq!(history_step_target(&visible, Some(5), true), None);
    // Up then down comes back.
    let up = history_step_target(&visible, Some(3), true);
    assert_eq!(history_step_target(&visible, up, false), Some(3));
}

#[test]
fn history_times_are_shown_as_local_date_and_time() {
    let entry = HistoryEntry {
        timestamp: "2024-03-05T10:20:30+00:00".to_string(),
        content: String::new(),
        comment: None,
        deleted: false,
    };
    let shown = entry.display_timestamp();
    let b = shown.as_bytes();
    assert_eq!(shown.len(), 19);
    assert_eq!((b[4], b[7], b[10], b[13], b[16]), (b'-', b'-', b' ', b':', b':'));
    assert!(shown.starts_with("2024-03-0"));
    assert!(shown.ends_with(":30"));
    let odd = HistoryEntry { timestamp: "yesterday".to_string(), content: String::new(), comment: None, deleted: false };
    assert_eq!(odd.display_timestamp(), "yesterday");
}

#[test]
fn adding_and_lowering_the_limit_mark_the_oldest_deleted() {
    let mut doc = DocumentWithHistory::new_with_limit(2);
    doc.history = vec![entry("a", false), entry("b", false)];
    doc.current_content = "c".to_string();
    assert!(doc.add_snapshot(None));
    let marks: Vec<bool> = doc.history.iter().map(|e| e.deleted).collect();
    assert_eq!(marks, vec![true, false, false]);
    assert_eq!(doc.history[2].content, "c");
    assert_eq!(doc.get_visible_history().len(), 2);

    doc.set_max_history_length(1);
    let marks: Vec<bool> = doc.history.iter().map(|e| e.deleted).collect();
    assert_eq!(marks, vec![true, true, false]);
    doc.set_max_history_length(0);
    assert_eq!(doc.get_max_history_length(), 1);
    assert_eq!(doc.get_visible_history().len(), 1);
}
