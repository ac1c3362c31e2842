use mywubi::config::{CommitMode, Config, Error, PunctuationMode, SwitchKey};

#[test]
fn default_configuration_is_valid() {
    let cfg = Config::default();
    assert!(cfg.validate().is_ok());
    assert!(cfg.validate_hotkey_conflicts().is_ok());
    assert_eq!(cfg.basic.candidate_count, 5);
    assert_eq!(cfg.basic.commit_mode, CommitMode::SpaceFirst);
    assert_eq!(cfg.basic.switch_key, SwitchKey::Shift);
    assert_eq!(cfg.basic.punctuation_mode, PunctuationMode::BufferedCommit);
    assert_eq!(cfg.appearance.font_size, 14);
    assert_eq!(cfg.dictionary.system_table, std::path::PathBuf::from("tables/wubi86.dict"));
    assert_eq!(cfg.dictionary.user_table, std::path::PathBuf::from("tables/user.dict"));
    assert_eq!(cfg.hotkey.page_next, "comma");
    assert_eq!(cfg.hotkey.toggle_simplify, "ctrl_shift_s");
}

#[test]
fn candidate_count_out_of_range_is_rejected_first() {
    let mut cfg = Config::default();
    cfg.basic.candidate_count = 0;
    cfg.appearance.font_size = 0;
    match cfg.validate() {
        Err(Error::Invalid(k, m)) => {
            assert_eq!(k, "basic.candidate_count");
            assert_eq!(m, "应位于 1..=10");
        }
        other => panic!("unexpected {other:?}"),
    }
    cfg.basic.candidate_count = 11;
    assert!(cfg.validate().is_err());
    cfg.basic.candidate_count = 10;
    match cfg.validate() {
        Err(Error::Invalid(k, m)) => {
            assert_eq!(k, "appearance.font_size");
            assert_eq!(m, "不能为 0");
        }
        other => panic!("unexpected {other:?}"),
    }
}

#[test]
fn conflicting_hotkeys_are_reported_against_the_later_setting() {
    let mut cfg = Config::default();
    cfg.hotkey.page_prev = cfg.hotkey.page_next.clone();
    match cfg.validate_hotkey_conflicts() {
        Err(Error::Invalid(k, m)) => {
            assert_eq!(k, "hotkey.page_prev");
            assert_eq!(m, "与 `hotkey.page_next` 冲突：都绑定到 `comma`");
        }
        other => panic!("unexpected {other:?}"),
    }
    let mut cfg = Config::default();
    cfg.hotkey.select_third = "period".into();
    match cfg.validate_hotkey_conflicts() {
        Err(Error::Invalid(k, m)) => {
            assert_eq!(k, "hotkey.select_third");
            assert!(m.contains("冲突"));
            assert!(m.contains("hotkey.page_prev"));
        }
        other => panic!("unexpected {other:?}"),
    }
}
