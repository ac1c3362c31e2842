use mywubi::dictionary::{Dictionary, Entry, LoadOptions};
use mywubi::user_dictionary::{merge_with_table, parse_user_entries, UserDictionary, UserDictionaryError};
use std::path::PathBuf;

fn e(code: &str, word: &str, weight: u32) -> Entry {
    Entry { code: code.into(), word: word.into(), weight }
}

fn fields(d: &UserDictionary) -> Vec<(String, String, u32)> {
    d.entries().iter().map(|x| (x.code.clone(), x.word.clone(), x.weight)).collect()
}

#[test]
fn add_keeps_file_order() {
    let mut d = UserDictionary::empty(PathBuf::from("user.dict"));
    d.add(e("b", "乙", 1)).unwrap();
    d.add(e("a", "甲", 1)).unwrap();
    d.add(e("a", "丙", 5)).unwrap();
    d.add(e("a", "丁", 1)).unwrap();
    assert_eq!(
        fields(&d),
        vec![
            ("a".into(), "丙".into(), 5),
            ("a".into(), "丁".into(), 1),
            ("a".into(), "甲".into(), 1),
            ("b".into(), "乙".into(), 1),
        ]
    );
    assert_eq!(d.path(), std::path::Path::new("user.dict"));
}

#[test]
fn add_rejects_invalid_and_duplicate_entries() {
    let mut d = UserDictionary::empty(PathBuf::from("user.dict"));
    d.add(e("abcd", "测试", 1)).unwrap();
    match d.add(e("ab-c", "词", 1)) {
        Err(UserDictionaryError::InvalidEntry(m)) => assert_eq!(m, "编码只能包含 ASCII 字母或数字"),
        other => panic!("unexpected {other:?}"),
    }
    match d.add(e("", "词", 1)) {
        Err(UserDictionaryError::InvalidEntry(m)) => assert_eq!(m, "编码只能包含 ASCII 字母或数字"),
        other => panic!("unexpected {other:?}"),
    }
    match d.add(e("abc", "词\t条", 1)) {
        Err(UserDictionaryError::InvalidEntry(m)) => assert_eq!(m, "词条不能为空或包含制表/换行字符"),
        other => panic!("unexpected {other:?}"),
    }
    match d.add(e("abcd", "测试", 9)) {
        Err(UserDictionaryError::Duplicate(c, w)) => {
            assert_eq!(c, "abcd");
            assert_eq!(w, "测试");
        }
        other => panic!("unexpected {other:?}"),
    }
    assert_eq!(d.entries().len(), 1);
}

#[test]
fn update_checks_entry_index_and_duplicates() {
    let mut d = UserDictionary::empty(PathBuf::from("u.dict"));
    d.add(e("a", "甲", 1)).unwrap();
    d.add(e("b", "乙", 1)).unwrap();
    assert!(matches!(d.update(5, e("c", "丙", 1)), Err(UserDictionaryError::Index(5))));
    assert!(matches!(d.update(5, e("c", "", 1)), Err(UserDictionaryError::InvalidEntry(_))));
    assert!(matches!(d.update(0, e("b", "乙", 3)), Err(UserDictionaryError::Duplicate(_, _))));
    d.update(0, e("a", "甲", 7)).unwrap();
    d.update(1, e("0", "零", 1)).unwrap();
    assert_eq!(fields(&d), vec![("0".into(), "零".into(), 1), ("a".into(), "甲".into(), 7)]);
}

#[test]
fn remove_returns_the_entry() {
    let mut d = UserDictionary::empty(PathBuf::from("u.dict"));
    d.add(e("a", "甲", 1)).unwrap();
    d.add(e("b", "乙", 1)).unwrap();
    assert!(matches!(d.remove(2), Err(UserDictionaryError::Index(2))));
    let removed = d.remove(0).unwrap();
    assert_eq!(removed.word, "甲");
    assert_eq!(fields(&d), vec![("b".into(), "乙".into(), 1)]);
}

#[test]
fn import_merges_and_updates_duplicates() {
    let mut d = UserDictionary::empty(PathBuf::from("u.dict"));
    d.add(e("abcd", "测试", 1)).unwrap();
    let added = d.import_text("abcd\t测试\t200\nefgh\t词条\t50\n").unwrap();
    assert_eq!(added, 1);
    assert_eq!(d.entries()[0].weight, 200);
    assert_eq!(d.entries().len(), 2);
}

#[test]
fn import_rejects_bad_text_and_keeps_list() {
    let mut d = UserDictionary::empty(PathBuf::from("u.dict"));
    d.add(e("abcd", "测试", 1)).unwrap();
    match d.import_text("abcd\t测试\tlots\n") {
        Err(UserDictionaryError::InvalidLine(n, m)) => {
            assert_eq!(n, 1);
            assert_eq!(m, "词频必须是 u32");
        }
        other => panic!("unexpected {other:?}"),
    }
    assert_eq!(d.entries().len(), 1);
    assert_eq!(d.entries()[0].weight, 1);
}

#[test]
fn parse_reports_invalid_entries_with_line_numbers() {
    match parse_user_entries("# c\n\nab\t\t3\n") {
        Err(UserDictionaryError::InvalidLine(n, m)) => {
            assert_eq!(n, 3);
            assert_eq!(m, "词条非法: 词条不能为空或包含制表/换行字符");
        }
        other => panic!("unexpected {other:?}"),
    }
    match parse_user_entries("a-b\t词\n") {
        Err(UserDictionaryError::InvalidLine(n, m)) => {
            assert_eq!(n, 1);
            assert_eq!(m, "词条非法: 编码只能包含 ASCII 字母或数字");
        }
        other => panic!("unexpected {other:?}"),
    }
}

#[test]
fn parse_sorts_defaults_weight_and_drops_adjacent_duplicates() {
    let v = parse_user_entries("b\t乙\na\t甲\t5\na\t甲\t5\n  a\t丙\t9  \n").unwrap();
    let got: Vec<(&str, &str, u32)> = v.iter().map(|x| (x.code.as_str(), x.word.as_str(), x.weight)).collect();
    assert_eq!(got, vec![("a", "丙", 9), ("a", "甲", 5), ("b", "乙", 1)]);
}

#[test]
fn render_writes_header_and_lines() {
    let mut d = UserDictionary::empty(PathBuf::from("u.dict"));
    d.add(e("b", "乙", 1)).unwrap();
    d.add(e("a", "甲", 20)).unwrap();
    assert_eq!(d.render(), "# mywubi-user-dict version=1\na\t甲\t20\nb\t乙\t1\n");
}

#[test]
fn crud_roundtrip_through_text() {
    let mut d = UserDictionary::empty(PathBuf::from("u.dict"));
    d.add(e("abcd", "测试", 100)).unwrap();
    d.add(e("ab", "工", 4294967295)).unwrap();
    let text = d.render();
    let loaded = UserDictionary::from_text(PathBuf::from("u.dict"), &text).unwrap();
    assert_eq!(fields(&loaded), fields(&d));
    assert_eq!(loaded.entries()[0].word, "工");
}

#[test]
fn from_text_of_empty_file_is_empty() {
    let d = UserDictionary::from_text(PathBuf::from("u.dict"), "").unwrap();
    assert!(d.entries().is_empty());
}

#[test]
fn merge_with_table_puts_user_entries_first_without_duplicates() {
    let user = vec![e("abcd", "覆盖词", 100)];
    let system = vec![e("abcd", "系统词", 1), e("abcd", "覆盖词", 1), e("x", "覆盖词", 1)];
    let merged = merge_with_table(&user, &system);
    let got: Vec<(&str, &str, u32)> = merged.iter().map(|x| (x.code.as_str(), x.word.as_str(), x.weight)).collect();
    assert_eq!(got, vec![("abcd", "覆盖词", 100), ("abcd", "系统词", 1), ("x", "覆盖词", 1)]);
}

#[test]
fn user_dictionary_is_merged_without_duplicate_candidates() {
    let system = Dictionary::from_text(
        "---\nwildcard_key: z\ncharset: abcdefghijklmnopqrstuvwxyz\n---\nabcd\t系统词\t1\nabcd\t覆盖词\t1\n",
        None,
        LoadOptions::default(),
    )
    .unwrap();
    let mut user = UserDictionary::empty(PathBuf::from("user.dict"));
    user.add(e("abcd", "覆盖词", 100)).unwrap();
    let entries = merge_with_table(user.entries(), system.entries());
    let dictionary = system.rebuild_with_entries(entries, LoadOptions::default()).unwrap();

    assert_eq!(
        dictionary.exact("abcd").iter().map(|entry| entry.word.as_str()).collect::<Vec<_>>(),
        ["覆盖词", "系统词"]
    );
    assert_eq!(dictionary.table_config().wildcard_key, Some('z'));
}

#[test]
fn duplicate_keeps_entries_and_file() {
    let mut d = UserDictionary::empty(PathBuf::from("words/user.dict"));
    d.add(e("abcd", "测试", 5)).unwrap();
    let c = d.duplicate();
    assert_eq!(c.path(), &PathBuf::from("words/user.dict"));
    assert_eq!(fields(&c), fields(&d));
}
