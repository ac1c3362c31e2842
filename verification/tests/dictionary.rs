use mywubi::dictionary::{
    parse_lines, parse_table_text, render_table_line, DictError, Dictionary, Entry, LoadOptions, SearchOptions,
};
use std::sync::Arc;

fn dict() -> Arc<Dictionary> {
    let entries = vec![
        Entry { code: "ggll".into(), word: "王".into(), weight: 100 },
        Entry { code: "ggll".into(), word: "丰".into(), weight: 20 },
        Entry { code: "ggll".into(), word: "壬".into(), weight: 50 },
        Entry { code: "ggh".into(), word: "理".into(), weight: 80 },
        Entry { code: "gghg".into(), word: "五".into(), weight: 200 },
        Entry { code: "a".into(), word: "工".into(), weight: 999 },
    ];
    Dictionary::from_entries(entries, None, LoadOptions::default()).unwrap()
}

#[test]
fn exact_match_returns_by_weight_desc() {
    let d = dict();
    let r = d.exact("ggll");
    assert_eq!(r.iter().map(|e| e.word.as_str()).collect::<Vec<_>>(), ["王", "壬", "丰"]);
}

#[test]
fn exact_match_unique() {
    let d = dict();
    assert_eq!(d.unique_exact("a").map(|e| e.word.as_str()), Some("工"));
    assert!(d.unique_exact("zzz").is_none());
}

#[test]
fn prefix_search() {
    let d = dict();
    let r = d.search("gg", SearchOptions { prefer_exact: true, limit: 10 });
    assert_eq!(r.len(), 5);
    assert_eq!(r[0].word, "五");
    assert_eq!(r[1].word, "王");
}

#[test]
fn limit_truncates() {
    let d = dict();
    let r = d.search("gg", SearchOptions { prefer_exact: true, limit: 2 });
    assert_eq!(r.len(), 2);
}

#[test]
fn has_prefix_works() {
    let d = dict();
    assert!(d.has_prefix("gg"));
    assert!(d.has_prefix("g"));
    assert!(!d.has_prefix("zz"));
}

#[test]
fn parse_lines_basic() {
    let text = "# code\tword\tweight\na\t工\t999\nggll\t王\t100\n";
    let e = parse_lines(text, 4096).unwrap();
    assert_eq!(e.len(), 2);
    assert_eq!(e[0].code, "a");
    assert_eq!(e[0].word, "工");
    assert_eq!(e[0].weight, 999);
}

#[test]
fn parse_lines_default_weight() {
    let text = "ggll\t王\n";
    let e = parse_lines(text, 4096).unwrap();
    assert_eq!(e[0].weight, 1);
}

#[test]
fn parse_rejects_invalid_line() {
    let text = "broken-line\n";
    let err = parse_lines(text, 4096).unwrap_err();
    assert!(matches!(err, DictError::InvalidLine(_, _)));
}

#[test]
fn parse_empty_text_yields_empty() {
    let e = parse_lines("", 4096).unwrap();
    assert!(e.is_empty());
}

#[test]
fn parse_only_comments_and_blanks() {
    let text = "# header\n\n# another\n   \n";
    let e = parse_lines(text, 4096).unwrap();
    assert!(e.is_empty());
}

#[test]
fn parse_crlf_line_endings() {
    let text = "a\t工\t999\r\n";
    let e = parse_lines(text, 4096).unwrap();
    assert_eq!(e.len(), 1);
    assert_eq!(e[0].word, "工");
    assert!(!e[0].word.contains('\r'));
}

#[test]
fn parse_trailing_whitespace_is_trimmed() {
    let text = "a\t工\t999   \n";
    let e = parse_lines(text, 4096).unwrap();
    assert_eq!(e[0].word, "工");
    assert_eq!(e[0].weight, 999);
}

#[test]
fn parse_extra_trailing_tab_ignored() {
    let text = "a\t工\t999\t\n";
    let e = parse_lines(text, 4096).unwrap();
    assert_eq!(e[0].weight, 999);
}

#[test]
fn parse_multiple_consecutive_tabs_in_weight_field() {
    let text = "a\t工\t999\textra\n";
    let e = parse_lines(text, 4096).unwrap();
    assert_eq!(e[0].weight, 999);
}

#[test]
fn parse_rejects_empty_word_field() {
    let err = parse_lines("a\t\t1\n", 4096).unwrap_err();
    assert!(matches!(err, DictError::InvalidLine(_, _)));
}

#[test]
fn parse_rejects_line_with_only_code_field() {
    let err = parse_lines("abc\n", 4096).unwrap_err();
    assert!(matches!(err, DictError::InvalidLine(_, _)));
}

#[test]
fn parse_non_numeric_weight_falls_back_to_default() {
    let text = "a\t工\tNaN\n";
    let e = parse_lines(text, 4096).unwrap();
    assert_eq!(e[0].weight, 1);
}

#[test]
fn parse_non_numeric_negative_weight_falls_back_to_default() {
    let text = "a\t工\t-5\n";
    let e = parse_lines(text, 4096).unwrap();
    assert_eq!(e[0].weight, 1);
}

#[test]
fn parse_max_u32_weight() {
    let text = format!("a\t工\t{}\n", u32::MAX);
    let e = parse_lines(&text, 4096).unwrap();
    assert_eq!(e[0].weight, u32::MAX);
}

#[test]
fn parse_weight_overflow_falls_back_to_default() {
    let text = "a\t工\t4294967296\n";
    let e = parse_lines(text, 4096).unwrap();
    assert_eq!(e[0].weight, 1);
}

#[test]
fn parse_unicode_in_word() {
    let text = "a\t你好世界\t5\n";
    let e = parse_lines(text, 4096).unwrap();
    assert_eq!(e[0].word, "你好世界");
}

#[test]
fn parse_space_separated_not_supported() {
    let err = parse_lines("a 工 999\n", 4096).unwrap_err();
    assert!(matches!(err, DictError::InvalidLine(_, _)));
}

#[test]
fn parse_preserves_code_with_digits() {
    let text = "12ab\t工\t1\n";
    let e = parse_lines(text, 4096).unwrap();
    assert_eq!(e[0].code, "12ab");
}

#[test]
fn parse_ignores_indented_comment() {
    let text = "   # indented comment\na\t工\t1\n";
    let e = parse_lines(text, 4096).unwrap();
    assert_eq!(e.len(), 1);
    assert_eq!(e[0].word, "工");
}

#[test]
fn parse_indented_entry_is_trimmed() {
    let text = "   a\t工\t1\n";
    let e = parse_lines(text, 4096).unwrap();
    assert_eq!(e[0].code, "a");
}

#[test]
fn parse_empty_word_after_code() {
    let err = parse_lines("a\t\n", 4096).unwrap_err();
    assert!(matches!(err, DictError::InvalidLine(_, _)));
}

#[test]
fn from_entries_handles_duplicate_codes() {
    let entries = vec![
        Entry { code: "x".into(), word: "甲".into(), weight: 5 },
        Entry { code: "x".into(), word: "乙".into(), weight: 10 },
    ];
    let d = Dictionary::from_entries(entries, None, LoadOptions::default()).unwrap();
    let r = d.exact("x");
    assert_eq!(r.len(), 2);
    assert_eq!(r[0].word, "乙");
    assert_eq!(r[1].word, "甲");
}

#[test]
fn search_empty_prefix_returns_empty() {
    let d = dict();
    assert!(d.search("", SearchOptions::default()).is_empty());
}

#[test]
fn search_limit_zero_returns_empty() {
    let d = dict();
    let opts = SearchOptions { prefer_exact: true, limit: 0 };
    assert!(d.search("a", opts).is_empty());
}

#[test]
fn search_nonexistent_prefix_returns_empty() {
    let d = dict();
    assert!(d.search("zzz", SearchOptions::default()).is_empty());
}

#[test]
fn has_prefix_empty_returns_false() {
    let d = dict();
    assert!(!d.has_prefix(""));
}

#[test]
fn dictionary_is_send_sync() {
    fn assert_send_sync<T: Send + Sync>() {}
    assert_send_sync::<Dictionary>();
}

#[test]
fn search_trie_falls_back_when_no_trie() {
    let entries = vec![Entry { code: "a".into(), word: "工".into(), weight: 999 }];
    let d = Dictionary::from_entries(entries, None, LoadOptions { trie_threshold: 0, chunk_lines: 4096 })
        .unwrap();
    let r = d.search_trie("a", SearchOptions::default());
    assert_eq!(r.len(), 1);
    assert_eq!(r[0].word, "工");
}

// ── further cases ──────────────────────────────────────────

#[test]
fn entries_are_in_code_then_weight_order() {
    let d = dict();
    let codes: Vec<(&str, u32)> = d.entries().iter().map(|e| (e.code.as_str(), e.weight)).collect();
    assert_eq!(
        codes,
        [("a", 999), ("ggh", 80), ("gghg", 200), ("ggll", 100), ("ggll", 50), ("ggll", 20)]
    );
    assert_eq!(d.len(), 6);
    assert!(!d.is_empty());
    assert!(d.source().is_none());
}

#[test]
fn search_without_exact_preference_orders_by_weight() {
    let d = dict();
    let r = d.search("gg", SearchOptions { prefer_exact: false, limit: 10 });
    let words: Vec<&str> = r.iter().map(|e| e.word.as_str()).collect();
    assert_eq!(words, ["五", "王", "理", "壬", "丰"]);
}

#[test]
fn search_puts_exact_code_first() {
    let d = dict();
    let r = d.search("ggh", SearchOptions { prefer_exact: true, limit: 10 });
    let words: Vec<&str> = r.iter().map(|e| e.word.as_str()).collect();
    assert_eq!(words, ["理", "五"]);
}

#[test]
fn search_with_limit_one_keeps_the_exact_entry() {
    let d = dict();
    let r = d.search("ggh", SearchOptions { prefer_exact: true, limit: 1 });
    assert_eq!(r.len(), 1);
    assert_eq!(r[0].word, "理");
}

#[test]
fn search_trie_lists_same_word_entries_for_each_exact_entry() {
    let entries = vec![
        Entry { code: "x".into(), word: "甲".into(), weight: 5 },
        Entry { code: "x".into(), word: "甲".into(), weight: 3 },
        Entry { code: "x".into(), word: "乙".into(), weight: 4 },
    ];
    let d = Dictionary::from_entries(entries, None, LoadOptions::default()).unwrap();
    let r = d.search_trie("x", SearchOptions::default());
    let got: Vec<(&str, u32)> = r.iter().map(|e| (e.word.as_str(), e.weight)).collect();
    assert_eq!(got, [("甲", 5), ("甲", 3), ("乙", 4), ("甲", 5), ("甲", 3)]);
}

#[test]
fn search_trie_without_exact_code_is_search() {
    let d = dict();
    let a = d.search_trie("gg", SearchOptions::default());
    let b = d.search("gg", SearchOptions::default());
    assert_eq!(a.len(), b.len());
    for (x, y) in a.iter().zip(b.iter()) {
        assert_eq!(x.word, y.word);
    }
}

#[test]
fn parse_reports_line_number_and_reason() {
    match parse_lines("a\t工\n\nbroken\n", 4096) {
        Err(DictError::InvalidLine(n, msg)) => {
            assert_eq!(n, 3);
            assert_eq!(msg, "缺少词条");
        }
        other => panic!("unexpected {other:?}"),
    }
    match parse_lines("a\t \t1\n", 4096) {
        Err(DictError::InvalidLine(n, msg)) => {
            assert_eq!(n, 1);
            assert_eq!(msg, "编码或词条为空");
        }
        other => panic!("unexpected {other:?}"),
    }
}

#[test]
fn parse_accepts_plus_sign_weight() {
    let e = parse_lines("a\t工\t+7\n", 4096).unwrap();
    assert_eq!(e[0].weight, 7);
}

#[test]
fn rebuild_keeps_settings_and_sorts() {
    let d = dict();
    let r = d
        .rebuild_with_entries(
            vec![
                Entry { code: "b".into(), word: "乙".into(), weight: 1 },
                Entry { code: "a".into(), word: "甲".into(), weight: 2 },
            ],
            LoadOptions::default(),
        )
        .unwrap();
    assert_eq!(r.entries()[0].word, "甲");
    assert_eq!(r.table_config().wildcard_key, d.table_config().wildcard_key);
    assert_eq!(r.table_config().charset, d.table_config().charset);
}

#[test]
fn search_ranks_before_the_limit_cuts() {
    let d = Dictionary::from_entries(
        vec![
            Entry { code: "gga".into(), word: "甲".into(), weight: 1 },
            Entry { code: "ggb".into(), word: "乙".into(), weight: 100 },
        ],
        None,
        LoadOptions::default(),
    )
    .unwrap();
    let r = d.search("gg", SearchOptions { prefer_exact: true, limit: 1 });
    let words: Vec<&str> = r.iter().map(|e| e.word.as_str()).collect();
    assert_eq!(words, ["乙"]);
}

#[test]
fn search_without_exact_preference_keeps_exact_codes() {
    let d = dict();
    let r = d.search("a", SearchOptions { prefer_exact: false, limit: 10 });
    let words: Vec<&str> = r.iter().map(|e| e.word.as_str()).collect();
    assert_eq!(words, ["工"]);
    let r = d.search("ggh", SearchOptions { prefer_exact: false, limit: 10 });
    let words: Vec<&str> = r.iter().map(|e| e.word.as_str()).collect();
    assert_eq!(words, ["五", "理"]);
}

#[test]
fn unique_exact_needs_a_single_entry() {
    let d = dict();
    assert!(d.unique_exact("ggll").is_none());
    assert_eq!(d.unique_exact("ggh").map(|e| e.word.as_str()), Some("理"));
}

#[test]
fn header_block_is_read_as_settings() {
    let text = "---\nwildcard_key: z\ncharset: abcdefghijklmnopqrstuvwxyz\n---\ngdqq\t目标\t100\ngdqaa\t不应出现\t1000\n";
    let e = parse_lines(text, 4096).unwrap();
    assert_eq!(e.len(), 2);
    assert_eq!(e[0].code, "gdqq");
    let (cfg, entries) = parse_table_text(text).unwrap();
    assert_eq!(cfg.wildcard_key, Some('z'));
    assert_eq!(cfg.charset, "abcdefghijklmnopqrstuvwxyz");
    assert_eq!(entries.len(), 2);
    let d = Dictionary::from_text(text, Some(std::path::PathBuf::from("t.dict")), LoadOptions::default()).unwrap();
    assert_eq!(d.len(), 2);
    assert_eq!(d.table_config().wildcard_key, Some('z'));
    assert_eq!(d.source().map(|p| p.as_path()), Some(std::path::Path::new("t.dict")));
}

#[test]
fn header_errors_are_reported() {
    match parse_lines("---\nwildcard_key: z\n", 4096) {
        Err(DictError::MissingHeader(msg)) => assert_eq!(msg, "缺少结束标记 ---"),
        other => panic!("unexpected {other:?}"),
    }
    match parse_lines("---\nwildcard_key\n---\n", 4096) {
        Err(DictError::InvalidLine(n, msg)) => {
            assert_eq!(n, 2);
            assert_eq!(msg, "头部声明格式非法");
        }
        other => panic!("unexpected {other:?}"),
    }
    match parse_lines("---\n# settings\nwildcard_key: zz\n---\n", 4096) {
        Err(DictError::InvalidLine(n, msg)) => {
            assert_eq!(n, 3);
            assert_eq!(msg, "通配键必须是单个字符");
        }
        other => panic!("unexpected {other:?}"),
    }
    match parse_lines("---\nname: x\n---\nbroken\n", 4096) {
        Err(DictError::InvalidLine(n, msg)) => {
            assert_eq!(n, 4);
            assert_eq!(msg, "缺少词条");
        }
        other => panic!("unexpected {other:?}"),
    }
}

#[test]
fn header_without_settings_gives_defaults() {
    let (cfg, entries) = parse_table_text("---\n---\na\t工\n").unwrap();
    assert_eq!(cfg.wildcard_key, None);
    assert_eq!(cfg.charset, "");
    assert_eq!(entries.len(), 1);
}

#[test]
fn wildcard_matches_one_code_position() {
    let d = Dictionary::from_entries(
        vec![
            Entry { code: "gdqq".into(), word: "目标".into(), weight: 100 },
            Entry { code: "gdqaa".into(), word: "不应出现".into(), weight: 1000 },
            Entry { code: "gdqb".into(), word: "乙".into(), weight: 200 },
        ],
        None,
        LoadOptions::default(),
    )
    .unwrap();
    let r = d.search_wildcard("gdqz", 'z');
    let words: Vec<&str> = r.iter().map(|e| e.word.as_str()).collect();
    assert_eq!(words, ["乙", "目标"]);
}

#[test]
fn table_line_is_rendered_and_read_back() {
    let e = Entry { code: "ggll".into(), word: "王".into(), weight: 100 };
    let line = render_table_line(&e);
    assert_eq!(line, "ggll\t王\t100\n");
    let back = parse_lines(&line, 4096).unwrap();
    assert_eq!(back, vec![e]);
}

#[test]
fn rebuild_keeps_the_source() {
    let d = Dictionary::from_entries(
        vec![Entry { code: "a".into(), word: "工".into(), weight: 1 }],
        Some(std::path::PathBuf::from("t.dict")),
        LoadOptions::default(),
    )
    .unwrap();
    let r = d.rebuild_with_entries(Vec::new(), LoadOptions::default()).unwrap();
    assert_eq!(r.source(), Some(&std::path::PathBuf::from("t.dict")));
}
