use mywubi::config::{CommitMode, PunctuationMode, SwitchKey};
use mywubi::dictionary::{parse_table_text, render_table, Entry, TableConfig};
use mywubi::settings::{
    apply_hotkey_change, commit_mode_label, hotkey_label, parse_argb, punctuation_mode_label, save_as_file_name,
    scanned_tables, search_relevance, set_dirty, switch_key_label, table_to_open, TableEditor,
    TableValidationIssue, TableValidationReport, UserDictionaryEditor,
};

fn no_problems(_c: &TableConfig, _e: &Vec<Entry>) -> TableValidationReport {
    TableValidationReport::default()
}

/// A checker that reports every entry whose word is empty.
fn empty_words(_c: &TableConfig, e: &Vec<Entry>) -> TableValidationReport {
    let issues: Vec<TableValidationIssue> = e
        .iter()
        .enumerate()
        .filter(|(_, x)| x.word.is_empty())
        .map(|(i, _)| TableValidationIssue { entry_index: Some(i), message: "empty word".into() })
        .collect();
    TableValidationReport { issue_count: issues.len(), issues }
}

#[test]
fn parse_hex_format() {
    assert_eq!(parse_argb("#1E88E5").unwrap(), 0xFF1E88E5);
    assert_eq!(parse_argb("0xFF1E88E5").unwrap(), 0xFF1E88E5);
    assert_eq!(parse_argb("FF1E88E5").unwrap(), 0xFF1E88E5);
    assert_eq!(parse_argb("#FF0000").unwrap(), 0xFFFF0000);
}

#[test]
fn parse_invalid_rejected() {
    assert!(parse_argb("not-a-color").is_err());
    assert!(parse_argb("#GGG").is_err());
    assert!(parse_argb("0x123").is_err());
    assert!(parse_argb("").is_err());
}

#[test]
fn parse_argb_trims_and_strips_repeated_prefixes() {
    assert_eq!(parse_argb("  #00ff00 \n").unwrap(), 0xFF00FF00);
    assert_eq!(parse_argb("0x0x12345678").unwrap(), 0x12345678);
    assert_eq!(parse_argb("##abcdef").unwrap(), 0xFFABCDEF);
    assert!(parse_argb("#12345").is_err());
    assert!(parse_argb("0x1234567890").is_err());
    assert!(parse_argb("一二").is_err());
}

#[test]
fn apply_hotkey_change_updates_value_and_marks_dirty() {
    let mut current = "comma".to_string();
    let mut dirty = false;
    let mut status_msg = Some("已保存".to_string());

    let changed = apply_hotkey_change(&mut current, "period".to_string(), &mut dirty, &mut status_msg);

    assert!(changed);
    assert_eq!(current, "period");
    assert!(dirty);
    assert_eq!(status_msg, None);
}

#[test]
fn apply_same_hotkey_changes_nothing() {
    let mut current = "comma".to_string();
    let mut dirty = false;
    let mut status_msg = Some("已保存".to_string());
    assert!(!apply_hotkey_change(&mut current, "comma".to_string(), &mut dirty, &mut status_msg));
    assert!(!dirty);
    assert_eq!(status_msg.as_deref(), Some("已保存"));
}

#[test]
fn set_dirty_marks_and_clears_message() {
    let mut dirty = false;
    let mut msg = Some("x".to_string());
    set_dirty(&mut dirty, &mut msg);
    assert!(dirty);
    assert!(msg.is_none());
}

#[test]
fn labels_of_options() {
    assert_eq!(commit_mode_label(CommitMode::SpaceFirst), "空格首选上屏");
    assert_eq!(commit_mode_label(CommitMode::EnterCommit), "回车上屏");
    assert_eq!(switch_key_label(SwitchKey::Shift), "Shift");
    assert_eq!(switch_key_label(SwitchKey::CapsLock), "CapsLock");
    assert_eq!(switch_key_label(SwitchKey::CtrlSpace), "Ctrl+Space");
    assert_eq!(punctuation_mode_label(PunctuationMode::BufferedCommit), "加入缓冲，最后一起上屏");
    assert_eq!(punctuation_mode_label(PunctuationMode::DirectCommit), "立即上屏，不进入编码");
    assert_eq!(hotkey_label("comma"), "逗号 (,)");
    assert_eq!(hotkey_label("page_up"), "PageUp");
    assert_eq!(hotkey_label("nope"), "未知");
}

#[test]
fn table_editor_filters_by_code_or_word() {
    let mut editor = TableEditor {
        entries: vec![
            Entry { code: "abcd".into(), word: "目标".into(), weight: 1 },
            Entry { code: "wxyz".into(), word: "其他".into(), weight: 1 },
        ],
        search: "目标".into(),
        ..TableEditor::default()
    };

    editor.refresh_filter();

    assert_eq!(editor.filtered_indices, Some(vec![0]));
}

#[test]
fn table_editor_ranks_code_exact_then_prefix_then_contains() {
    let mut editor = TableEditor {
        entries: vec![
            Entry { code: "ba".into(), word: "包含".into(), weight: 1 },
            Entry { code: "aa".into(), word: "前缀".into(), weight: 1 },
            Entry { code: "a".into(), word: "完全".into(), weight: 1 },
        ],
        search: "a".into(),
        ..TableEditor::default()
    };

    editor.refresh_filter();

    assert_eq!(editor.filtered_indices, Some(vec![2, 1, 0]));
}

#[test]
fn table_editor_ranks_word_exact_then_prefix_then_contains() {
    let mut editor = TableEditor {
        entries: vec![
            Entry { code: "a".into(), word: "施工".into(), weight: 1 },
            Entry { code: "b".into(), word: "工作".into(), weight: 1 },
            Entry { code: "c".into(), word: "工".into(), weight: 1 },
        ],
        search: "工".into(),
        ..TableEditor::default()
    };

    editor.refresh_filter();

    assert_eq!(editor.filtered_indices, Some(vec![2, 1, 0]));
}

#[test]
fn table_editor_rejects_multi_character_wildcard() {
    let editor = TableEditor { wildcard_key: "zz".into(), ..TableEditor::default() };

    assert!(editor.draft_config().is_err());
}

#[test]
fn table_editor_accepts_blank_or_single_wildcard() {
    let blank = TableEditor { wildcard_key: "  ".into(), ..TableEditor::default() };
    assert_eq!(blank.draft_config().unwrap().wildcard_key, None);
    let one = TableEditor { wildcard_key: " z ".into(), ..TableEditor::default() };
    assert_eq!(one.draft_config().unwrap().wildcard_key, Some('z'));
    assert_eq!(
        TableEditor { wildcard_key: "zz".into(), ..TableEditor::default() }.draft_config().unwrap_err(),
        "wildcard_key 必须为空或单个字符"
    );
}

#[test]
fn blank_search_shows_everything() {
    let mut editor = TableEditor {
        entries: vec![Entry { code: "a".into(), word: "工".into(), weight: 1 }],
        search: "   ".into(),
        ..TableEditor::default()
    };
    editor.refresh_filter();
    assert_eq!(editor.filtered_indices, None);
    assert_eq!(editor.visible_len(), 1);
    assert_eq!(editor.visible_entry_index(0), 0);
}

#[test]
fn ties_prefer_shorter_then_heavier_then_table_order() {
    let mut editor = TableEditor {
        entries: vec![
            Entry { code: "xab".into(), word: "甲".into(), weight: 1 },
            Entry { code: "ab".into(), word: "乙".into(), weight: 1 },
            Entry { code: "abc".into(), word: "丙".into(), weight: 1 },
            Entry { code: "abd".into(), word: "丁".into(), weight: 9 },
            Entry { code: "abe".into(), word: "戊".into(), weight: 9 },
        ],
        search: "ab".into(),
        ..TableEditor::default()
    };
    editor.refresh_filter();
    assert_eq!(editor.filtered_indices, Some(vec![1, 3, 4, 2, 0]));
    assert_eq!(editor.visible_len(), 5);
    assert_eq!(editor.visible_entry_index(1), 3);
}

#[test]
fn relevance_is_the_better_of_code_and_word() {
    let e = Entry { code: "abc".into(), word: "ab".into(), weight: 4 };
    assert_eq!(search_relevance(&e, "ab"), Some((0, 2, 4)));
    let f = Entry { code: "zab".into(), word: "q".into(), weight: 4 };
    assert_eq!(search_relevance(&f, "ab"), Some((2, 3, 4)));
    assert_eq!(search_relevance(&f, "k"), None);
}

#[test]
fn select_and_update_selected_entry() {
    let mut editor = TableEditor {
        entries: vec![
            Entry { code: "a".into(), word: "工".into(), weight: 1 },
            Entry { code: "b".into(), word: "了".into(), weight: 2 },
        ],
        ..TableEditor::default()
    };
    assert_eq!(editor.update_selected(&no_problems), Err("请先选择词条".to_string()));
    editor.select(5);
    assert_eq!(editor.selected, None);
    editor.select(1);
    assert_eq!(editor.selected, Some(1));
    assert_eq!(editor.code, "b");
    assert_eq!(editor.word, "了");
    assert_eq!(editor.weight, 2);
    editor.code = "  bb ".into();
    editor.word = " 子 ".into();
    editor.weight = 7;
    assert_eq!(editor.update_selected(&no_problems), Ok(()));
    assert_eq!(editor.entries[1].code, "bb");
    assert_eq!(editor.entries[1].word, "子");
    assert_eq!(editor.entries[1].weight, 7);
    assert!(editor.dirty);
    editor.entries.pop();
    assert_eq!(editor.update_selected(&no_problems), Err("所选词条已不存在".to_string()));
}

#[test]
fn user_dictionary_form_defaults_and_clears() {
    let mut editor = UserDictionaryEditor::default();
    assert_eq!(editor.weight, 1000);
    editor.code = "abcd".into();
    editor.word = "测试".into();
    editor.weight = 5;
    editor.selected = Some(3);
    editor.clear_form();
    assert!(editor.code.is_empty());
    assert!(editor.word.is_empty());
    assert_eq!(editor.weight, 1000);
    assert_eq!(editor.selected, None);
}

#[test]
fn update_selected_refreshes_the_validation() {
    let mut editor = TableEditor {
        entries: vec![Entry { code: "a".into(), word: "工".into(), weight: 1 }],
        validation_stale: true,
        ..TableEditor::default()
    };
    editor.select(0);
    editor.word = "   ".into();
    assert_eq!(editor.update_selected(&empty_words), Ok(()));
    assert!(!editor.validation_stale);
    assert_eq!(editor.validation.issue_count, 1);
    assert_eq!(editor.validation.issues[0].entry_index, Some(0));
}

#[test]
fn refresh_validation_reports_a_bad_wildcard_key() {
    let mut editor = TableEditor { wildcard_key: " zz ".into(), validation_stale: true, ..TableEditor::default() };
    editor.refresh_validation(&empty_words);
    assert!(!editor.validation_stale);
    assert_eq!(editor.validation.issue_count, 1);
    assert_eq!(editor.validation.issues[0].entry_index, None);
    assert_eq!(editor.validation.issues[0].message, "wildcard_key 必须为空或单个字符");
}

#[test]
fn editor_opens_a_read_table_and_records_a_save() {
    let text = "---\nwildcard_key: z\ncharset: xyz\n---\nab\t甲\t3\n";
    let read = parse_table_text(text).map_err(|_| "bad".to_string());
    let mut editor = TableEditor::from_read(std::path::PathBuf::from("t.dict"), read, &no_problems);
    assert_eq!(editor.wildcard_key, "z");
    assert_eq!(editor.config.charset, "xyz");
    assert_eq!(editor.entries.len(), 1);
    assert!(editor.load_error.is_none());
    assert!(!editor.validation_stale);
    editor.dirty = true;
    let config = editor.draft_config().unwrap();
    let written = render_table(&config, &editor.entries);
    assert_eq!(written, "---\nwildcard_key: z\ncharset: xyz\n---\nab\t甲\t3\n");
    let (back_config, back_entries) = parse_table_text(&written).unwrap();
    assert_eq!(back_config.wildcard_key, Some('z'));
    assert_eq!(back_entries, editor.entries);
    editor.saved(std::path::PathBuf::from("u.dict"), config);
    assert!(!editor.dirty);
    assert_eq!(editor.path, std::path::PathBuf::from("u.dict"));

    let failed = TableEditor::from_read(std::path::PathBuf::from("x.dict"), Err("gone".into()), &no_problems);
    assert_eq!(failed.load_error, Some("gone".to_string()));
    assert!(failed.entries.is_empty());
}

#[test]
fn table_directory_choices() {
    let names = vec![
        "b.dict".to_string(),
        ".dict".to_string(),
        "notes.txt".to_string(),
        "a.dict".to_string(),
        "c.dict.bak".to_string(),
    ];
    let tables = scanned_tables(names);
    assert_eq!(tables, ["a.dict", "b.dict"]);
    assert_eq!(table_to_open(&tables, Some("b.dict"), false), Some("b.dict".to_string()));
    assert_eq!(table_to_open(&tables, Some("gone.dict"), false), Some("a.dict".to_string()));
    assert_eq!(table_to_open(&tables, None, false), Some("a.dict".to_string()));
    assert_eq!(table_to_open(&tables, Some("b.dict"), true), None);
    assert_eq!(table_to_open(&[], None, false), None);
}

#[test]
fn save_as_names() {
    assert_eq!(save_as_file_name("   ", true), Err("请输入自定义码表名称".to_string()));
    assert_eq!(save_as_file_name(" a/b ", false), Err("码表名称不能包含路径".to_string()));
    assert_eq!(save_as_file_name(" mine ", true), Ok("mine.dict".to_string()));
    assert_eq!(save_as_file_name("mine.dict", true), Ok("mine.dict".to_string()));
}
