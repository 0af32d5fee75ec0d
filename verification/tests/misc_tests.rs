use sen::app_state::{level_shown, needs_confirmation, push_log, shown_entries, LogFilter, BatchMode, KeyStatus, LogEntry, LogLevel, PendingAction};
use sen::file_tree::{flat_listing, sort_by_name, split_listing, tree_level, tree_row_shown, DirChild};
use sen::fonts::{detect_best_font, is_builtin_font, system_font_list, PREFERRED_EDITOR_FONTS, PREFERRED_UI_FONTS};
use sen::ico::build_ico;
use sen::session::{autosave_due, escape_overlays, export_file_name, Overlays, goto_line, keyfile_size_check, window_title, GotoLine, KeyfileSize, WindowTitle};
use sen::settings::{
    default_editor_font, default_ui_font, encrypted_config_body, encrypted_path_field, decrypted_path_field,
    migrate_editor_font, migrate_ui_font, start_keyfile, stored_or_new_config_key, ToolbarPosition,
};

#[test]
fn ico_layout() {
    let entries = vec![(16u32, vec![1u8, 2, 3]), (256u32, vec![9u8; 5])];
    let ico = build_ico(&entries);
    assert_eq!(&ico[0..6], &[0, 0, 1, 0, 2, 0]);
    let first = &ico[6..22];
    assert_eq!(first, &[16, 16, 0, 0, 1, 0, 32, 0, 3, 0, 0, 0, 38, 0, 0, 0]);
    let second = &ico[22..38];
    assert_eq!(second, &[0, 0, 0, 0, 1, 0, 32, 0, 5, 0, 0, 0, 41, 0, 0, 0]);
    assert_eq!(&ico[38..41], &[1, 2, 3]);
    assert_eq!(&ico[41..], &[9, 9, 9, 9, 9]);
    assert_eq!(build_ico(&[]), vec![0, 0, 1, 0, 0, 0]);
}

#[test]
fn best_font_is_first_available_preference() {
    let available = vec!["Roboto".to_string(), "Menlo".to_string(), "Arial".to_string()];
    assert_eq!(detect_best_font(&available, &PREFERRED_UI_FONTS), Some("Roboto".to_string()));
    assert_eq!(detect_best_font(&available, &["Menlo", "Roboto"]), Some("Menlo".to_string()));
    assert_eq!(detect_best_font(&available, &["Nope"]), None);
    assert!(is_builtin_font("Monospace (Default)"));
    assert!(!is_builtin_font("Fira Code"));
}

#[test]
fn font_defaults_and_migration() {
    assert_eq!(default_ui_font(), "Proportional (Default)");
    assert_eq!(default_editor_font(), "Monospace (Default)");
    assert_eq!(migrate_ui_font("Proportional".to_string()), "Proportional (Default)");
    assert_eq!(migrate_ui_font("Roboto".to_string()), "Roboto");
    assert_eq!(migrate_editor_font("Monospace".to_string()), "Monospace (Default)");
    assert_eq!(migrate_editor_font("Menlo".to_string()), "Menlo");
    assert_eq!(ToolbarPosition::default(), ToolbarPosition::Top);
    assert_eq!(KeyStatus::default(), KeyStatus::Unknown);
    assert_eq!(BatchMode::default(), BatchMode::Encrypt);
}

#[test]
fn config_body_needs_magic() {
    assert_eq!(encrypted_config_body(b"SENCabc"), Some(b"abc".to_vec()));
    assert_eq!(encrypted_config_body(b"SENC"), None);
    assert_eq!(encrypted_config_body(b"{\"a\":1}"), None);
}

#[test]
fn path_fields() {
    let key = Some([6u8; 32]);
    let sealed = encrypted_path_field(&Some("/k".to_string()), &key, None).unwrap();
    assert_eq!(decrypted_path_field(&Some(sealed.clone()), &key, None), Some("/k".to_string()));
    assert_eq!(decrypted_path_field(&Some(sealed), &None, Some("x".to_string())), None);
    assert_eq!(decrypted_path_field(&None, &key, Some("x".to_string())), Some("x".to_string()));
    assert_eq!(decrypted_path_field(&Some("bad".to_string()), &key, None), None);
    assert_eq!(encrypted_path_field(&None, &key, Some("old".to_string())), Some("old".to_string()));
    assert_eq!(encrypted_path_field(&Some("/k".to_string()), &None, Some("old".to_string())), Some("old".to_string()));
}

#[test]
fn autosave_timing() {
    assert!(autosave_due(true, false, true, true, true, 10, 5, false));
    assert!(!autosave_due(true, false, true, true, true, 4, 5, false));
    assert!(!autosave_due(true, false, true, true, true, 10, 5, true));
    assert!(!autosave_due(false, false, true, true, true, 10, 5, false));
    assert!(autosave_due(false, true, true, true, true, 0, 5, true));
    assert!(!autosave_due(true, true, false, true, true, 10, 5, false));
    assert!(!autosave_due(true, true, true, false, true, 10, 5, false));
    assert!(!autosave_due(true, true, true, true, false, 10, 5, false));
}

#[test]
fn window_titles() {
    assert!(matches!(window_title(true, true, Some("a.sen")), WindowTitle::App { modified: true }));
    assert!(matches!(window_title(false, false, None), WindowTitle::Untitled { modified: false }));
    match window_title(false, true, Some("notes.sen")) {
        WindowTitle::File { name, modified } => {
            assert_eq!(name, "notes");
            assert!(modified);
        }
        _ => panic!("expected the file's name"),
    }
    match window_title(false, false, Some("notes.txt")) {
        WindowTitle::File { name, .. } => assert_eq!(name, "notes.txt"),
        _ => panic!("expected the file's name"),
    }
    match window_title(false, false, Some(".sen")) {
        WindowTitle::File { name, .. } => assert_eq!(name, ""),
        _ => panic!("expected the file's name"),
    }
}

#[test]
fn log_entries() {
    let e = LogEntry::new(LogLevel::Warning, "careful".to_string());
    let line = e.display();
    assert!(line.starts_with('['));
    assert!(line.ends_with("] WARN: careful"));
    assert_eq!(line.len(), "[00:00:00] WARN: careful".len());
    let ok = LogEntry::new(LogLevel::Success, "done".to_string());
    assert!(ok.display().ends_with("] SUCCESS: done"));
}

#[test]
fn confirmation_before_dropping_changes() {
    assert!(needs_confirmation(true, &PendingAction::NewDocument));
    assert!(needs_confirmation(true, &PendingAction::OpenFileFromTree("x.sen".to_string())));
    assert!(!needs_confirmation(true, &PendingAction::OpenDirectory));
    assert!(!needs_confirmation(true, &PendingAction::ChangeDirectory("/tmp".to_string())));
    assert!(!needs_confirmation(false, &PendingAction::Exit));
    assert!(!needs_confirmation(false, &PendingAction::NoAction));
}

fn child(name: &str, is_dir: bool) -> DirChild {
    DirChild { path: format!("/d/{}", name), name: name.to_string(), is_dir, is_file: !is_dir }
}

#[test]
fn listing_order_and_filter() {
    let kids = vec![
        child("b.sen", false),
        child("zeta", true),
        child("a.sen", false),
        child("notes.txt", false),
        child("alpha", true),
        child(".sen", false),
        child("B.sen", false),
    ];
    let (folders, files) = split_listing(kids, true);
    let f: Vec<&str> = folders.iter().map(|c| c.name.as_str()).collect();
    let d: Vec<&str> = files.iter().map(|c| c.name.as_str()).collect();
    assert_eq!(f, vec!["alpha", "zeta"]);
    assert_eq!(d, vec!["B.sen", "a.sen", "b.sen"]);

    let sorted = sort_by_name(vec![child("b", true), child("ab", true), child("a", true)]);
    let s: Vec<&str> = sorted.iter().map(|c| c.name.as_str()).collect();
    assert_eq!(s, vec!["a", "ab", "b"]);
}

#[test]
fn flat_view_rows() {
    let kids = vec![child("x.sen", false), child("sub", true)];
    let rows = flat_listing(kids, Some("/".to_string()), true);
    let paths: Vec<&str> = rows.iter().map(|r| r.path.as_str()).collect();
    assert_eq!(paths, vec!["/", "/d/sub", "/d/x.sen"]);
    assert!(rows[0].is_dir && rows[1].is_dir && !rows[2].is_dir);
    assert!(rows.iter().all(|r| r.depth == 0 && !r.is_expanded));

    let hidden = flat_listing(vec![child("x.sen", false), child("sub", true)], Some("/".to_string()), false);
    let paths: Vec<&str> = hidden.iter().map(|r| r.path.as_str()).collect();
    assert_eq!(paths, vec!["/d/x.sen"]);
}

#[test]
fn tree_view_level() {
    let kids = vec![child("b", true), child("a", true), child("n.sen", false)];
    let expanded = vec!["/d/b".to_string()];
    let (folders, files) = tree_level(kids, 2, &expanded);
    assert_eq!(folders.len(), 2);
    assert_eq!(folders[0].path, "/d/a");
    assert!(!folders[0].is_expanded);
    assert_eq!(folders[1].path, "/d/b");
    assert!(folders[1].is_expanded);
    assert_eq!(folders[1].depth, 2);
    assert_eq!(files.len(), 1);
    assert_eq!(files[0].path, "/d/n.sen");
    assert!(!files[0].is_dir);
}

#[test]
fn keyfile_sizes() {
    assert_eq!(keyfile_size_check(0), KeyfileSize::Empty);
    assert_eq!(keyfile_size_check(1), KeyfileSize::Usable);
    assert_eq!(keyfile_size_check(100 * 1024 * 1024), KeyfileSize::Usable);
    assert_eq!(keyfile_size_check(100 * 1024 * 1024 + 1), KeyfileSize::TooLarge);
}

#[test]
fn export_names() {
    assert_eq!(export_file_name(Some("notes.sen")), "notes.txt");
    assert_eq!(export_file_name(Some("a.b.c")), "a.b.txt");
    assert_eq!(export_file_name(Some(".hidden")), ".hidden.txt");
    assert_eq!(export_file_name(Some("plain")), "plain.txt");
    assert_eq!(export_file_name(None), "document.txt");
    for name in ["x.sen", "..a", "a.", ".b.c"] {
        let stem = std::path::Path::new(name).file_stem().unwrap().to_string_lossy().into_owned();
        assert_eq!(export_file_name(Some(name)), format!("{}.txt", stem));
    }
}

#[test]
fn keychain_config_key() {
    let stored = "0A".repeat(32);
    let (key, to_store) = stored_or_new_config_key(Some(&stored));
    assert_eq!(key, vec![10u8; 32]);
    assert!(to_store.is_none());

    let (fresh, text) = stored_or_new_config_key(Some("zz"));
    assert_eq!(fresh.len(), 32);
    let text = text.unwrap();
    assert_eq!(text.len(), 64);
    assert!(text.chars().all(|c| c.is_ascii_hexdigit() && !c.is_ascii_uppercase()));
    assert_eq!(hex::decode(&text).unwrap(), fresh);

    let (short, text) = stored_or_new_config_key(Some("abcd"));
    assert_eq!(short.len(), 32);
    assert!(text.is_some());
    let (none, text) = stored_or_new_config_key(None);
    assert_eq!(none.len(), 32);
    assert!(text.is_some());
}

#[test]
fn font_choices() {
    let families = vec!["Roboto".to_string(), "Arial".to_string(), "Roboto".to_string(), "Monospace (Default)".to_string(), "émoji".to_string()];
    let list = system_font_list(families.clone());
    let mut expected: std::collections::BTreeSet<String> = families.into_iter().collect();
    expected.insert("Proportional (Default)".to_string());
    expected.insert("Monospace (Default)".to_string());
    assert_eq!(list, expected.into_iter().collect::<Vec<_>>());
    assert_eq!(system_font_list(Vec::new()), vec!["Monospace (Default)".to_string(), "Proportional (Default)".to_string()]);
    assert_eq!(PREFERRED_EDITOR_FONTS, PREFERRED_UI_FONTS);
}

#[test]
fn go_to_line() {
    let text = "a\nb\nc\n";
    assert_eq!(goto_line("2", text), GotoLine::Line(2));
    assert_eq!(goto_line("+3", text), GotoLine::Line(3));
    assert_eq!(goto_line("4", text), GotoLine::OutOfRange(3));
    assert_eq!(goto_line("0", text), GotoLine::OutOfRange(3));
    assert_eq!(goto_line("1", ""), GotoLine::Line(1));
    assert_eq!(goto_line("2", ""), GotoLine::OutOfRange(1));
    assert_eq!(goto_line("x", text), GotoLine::Invalid);
    assert_eq!(goto_line("", text), GotoLine::Invalid);
    assert_eq!(goto_line("+", text), GotoLine::Invalid);
    assert_eq!(goto_line("-1", text), GotoLine::Invalid);
    assert_eq!(goto_line(" 1", text), GotoLine::Invalid);
    assert_eq!(goto_line("99999999999999999999999", text), GotoLine::Invalid);
    for input in ["007", "+12", "18446744073709551615", "18446744073709551616", "1a"] {
        let expected = input.parse::<usize>().ok();
        match goto_line(input, "x") {
            GotoLine::Invalid => assert_eq!(expected, None),
            GotoLine::Line(n) => assert_eq!(expected, Some(n)),
            GotoLine::OutOfRange(_) => assert!(expected.is_some()),
        }
    }
}

#[test]
fn debug_log_is_capped_by_information_entries() {
    let mut log: Vec<LogEntry> = Vec::new();
    for i in 0..1000 {
        push_log(&mut log, LogEntry::new(LogLevel::Info, format!("m{}", i)));
    }
    assert_eq!(log.len(), 1000);
    // Other levels do not shorten the log.
    push_log(&mut log, LogEntry::new(LogLevel::Error, "e".to_string()));
    assert_eq!(log.len(), 1001);
    // The next information entry drops the hundred oldest.
    push_log(&mut log, LogEntry::new(LogLevel::Info, "last".to_string()));
    assert_eq!(log.len(), 902);
    assert_eq!(log[0].message, "m100");
    assert_eq!(log[log.len() - 1].message, "last");
    assert_eq!(log[log.len() - 2].message, "e");
}

#[test]
fn undecryptable_documents_can_be_hidden() {
    assert!(tree_row_shown(false, "a.sen", Some(KeyStatus::WrongKey), false));
    assert!(!tree_row_shown(false, "a.sen", Some(KeyStatus::WrongKey), true));
    assert!(!tree_row_shown(false, "A.SEN", None, true));
    assert!(!tree_row_shown(false, "a.sen", Some(KeyStatus::Unknown), true));
    assert!(tree_row_shown(false, "a.sen", Some(KeyStatus::Decryptable), true));
    assert!(tree_row_shown(false, "notes.txt", None, true));
    assert!(tree_row_shown(true, "folder.sen", None, true));
}

#[test]
fn escape_closes_one_overlay_at_a_time() {
    let all = Overlays { about: true, goto_line: true, search: true };
    let once = escape_overlays(all);
    assert_eq!(once, Overlays { about: false, goto_line: true, search: true });
    let twice = escape_overlays(once);
    assert_eq!(twice, Overlays { about: false, goto_line: false, search: true });
    let thrice = escape_overlays(twice);
    assert_eq!(thrice, Overlays { about: false, goto_line: false, search: false });
    assert_eq!(escape_overlays(thrice), thrice);
}

#[test]
fn start_keyfile_follows_the_global_setting() {
    assert_eq!(start_keyfile(true, Some("/k".to_string())), Some("/k".to_string()));
    assert_eq!(start_keyfile(false, Some("/k".to_string())), None);
    assert_eq!(start_keyfile(true, None), None);
}

#[test]
fn a_given_path_is_always_sealed() {
    let key = Some([3u8; 32]);
    let sealed = encrypted_path_field(&Some("/p".to_string()), &key, Some("old".to_string())).unwrap();
    assert_ne!(sealed, "old");
    assert_eq!(decrypted_path_field(&Some(sealed), &key, None), Some("/p".to_string()));
}

#[test]
fn debug_panel_filters_by_level() {
    let filter = LogFilter { show_info: false, show_success: true, show_warning: false, show_error: true };
    assert!(!level_shown(filter, LogLevel::Info));
    assert!(level_shown(filter, LogLevel::Success));
    assert!(!level_shown(filter, LogLevel::Warning));
    assert!(level_shown(filter, LogLevel::Error));
    let log = vec![
        LogEntry::new(LogLevel::Info, "a".to_string()),
        LogEntry::new(LogLevel::Error, "b".to_string()),
        LogEntry::new(LogLevel::Warning, "c".to_string()),
        LogEntry::new(LogLevel::Success, "d".to_string()),
    ];
    assert_eq!(shown_entries(&log, filter), vec![1, 3]);
}

#[test]
fn log_line_keeps_an_unreadable_time() {
    let mut e = LogEntry::new(LogLevel::Info, "hi".to_string());
    e.timestamp = "later".to_string();
    assert_eq!(e.display(), "[later] INFO: hi");
}
