use mywubi::config::PunctuationMode;
use mywubi::dictionary::{Dictionary, Entry, LoadOptions};
use mywubi::state_machine::{InputEvent, InputState, StateMachine, Transition};
use std::sync::Arc;

fn dict() -> Arc<Dictionary> {
    let entries = vec![
        Entry { code: "a".into(), word: "工".into(), weight: 999 },
        Entry { code: "ggll".into(), word: "王".into(), weight: 100 },
        Entry { code: "ggll".into(), word: "壬".into(), weight: 50 },
        Entry { code: "ggh".into(), word: "理".into(), weight: 80 },
        Entry { code: "gghg".into(), word: "五".into(), weight: 200 },
    ];
    Dictionary::from_entries(entries, None, LoadOptions::default()).unwrap()
}

#[test]
fn passthrough_empty_buffer_on_space() {
    let mut m = StateMachine::new(dict());
    assert_eq!(m.handle(InputEvent::Space), Transition::Passthrough(InputEvent::Space));
}

#[test]
fn typing_single_char_yields_candidates() {
    let mut m = StateMachine::new(dict());
    let t = m.handle(InputEvent::Char('a'));
    match t {
        Transition::Candidates { spelling, candidates, .. } => {
            assert_eq!(spelling, "a");
            assert!(candidates.contains(&"工".to_string()));
        }
        other => panic!("expected candidates, got {other:?}"),
    }
}

#[test]
fn space_commits_first_candidate() {
    let mut m = StateMachine::new(dict());
    m.handle(InputEvent::Char('a'));
    let t = m.handle(InputEvent::Space);
    assert_eq!(t, Transition::Commit("工".to_string()));
    assert_eq!(m.state(), InputState::Idle);
}

#[test]
fn backspace_to_empty_clears() {
    let mut m = StateMachine::new(dict());
    m.handle(InputEvent::Char('a'));
    assert_eq!(m.handle(InputEvent::Backspace), Transition::Cleared);
}

#[test]
fn esc_clears() {
    let mut m = StateMachine::new(dict());
    m.handle(InputEvent::Char('a'));
    assert_eq!(m.handle(InputEvent::Esc), Transition::Cleared);
}

#[test]
fn select_by_number() {
    let mut m = StateMachine::with_options(dict(), 5, false);
    m.handle(InputEvent::Char('g'));
    m.handle(InputEvent::Char('g'));
    m.handle(InputEvent::Char('l'));
    m.handle(InputEvent::Char('l'));
    let t = m.handle(InputEvent::Select(2));
    assert!(matches!(t, Transition::Commit(ref s) if s == "王" || s == "壬"));
}

#[test]
fn auto_commit_unique_on_four_code() {
    let mut m = StateMachine::with_options(dict(), 5, true);
    let t = m.handle(InputEvent::Char('a'));
    if let Transition::Candidates { spelling, candidates, .. } = t {
        assert_eq!(spelling, "a");
        assert_eq!(candidates.len(), 1);
    } else {
        panic!("expected candidates for single exact match");
    }
}

#[test]
fn punctuation_is_buffered_by_default() {
    let mut m = StateMachine::new(dict());
    assert_eq!(m.handle(InputEvent::Char('!')), Transition::SpellingUpdated("!".to_string()));
}

#[test]
fn punctuation_passthrough_in_direct_mode() {
    let mut m = StateMachine::with_behavior(dict(), 5, true, PunctuationMode::DirectCommit);
    assert_eq!(m.handle(InputEvent::Char('!')), Transition::Passthrough(InputEvent::Char('!')));
}

#[test]
fn symbol_passthroughs_when_idle() {
    let mut m = StateMachine::new(dict());
    assert_eq!(m.handle(InputEvent::Symbol('!')), Transition::Passthrough(InputEvent::Symbol('!')));
}

#[test]
fn symbol_commits_raw_spelling_when_composing() {
    let mut m = StateMachine::new(dict());
    m.handle(InputEvent::Char('g'));
    m.handle(InputEvent::Char('g'));

    assert_eq!(m.handle(InputEvent::Symbol('!')), Transition::Commit("gg!".to_string()));
    assert_eq!(m.state(), InputState::Idle);
}

#[test]
fn uppercase_code_char_is_kept_in_spelling_buffer() {
    let mut m = StateMachine::new(dict());

    assert_eq!(m.handle(InputEvent::Char('A')), Transition::SpellingUpdated("A".to_string()));
    assert_eq!(m.spelling(), "A");
}

#[test]
fn page_next_and_prev() {
    let mut m = StateMachine::with_options(dict(), 1, false);
    m.handle(InputEvent::Char('g'));
    m.handle(InputEvent::Char('g'));
    let t0 = m.page();
    let _ = m.handle(InputEvent::PageNext);
    let _ = m.handle(InputEvent::PagePrev);
    let _ = t0;
}

#[test]
fn state_machine_enter_commits_raw_spelling() {
    let mut m = StateMachine::new(dict());
    m.handle(InputEvent::Char('z'));
    m.handle(InputEvent::Char('z'));
    assert_eq!(m.handle(InputEvent::Enter), Transition::Commit("zz".to_string()));
}

#[test]
fn punctuation_is_kept_in_raw_buffer_by_default() {
    let mut m = StateMachine::new(dict());
    assert!(matches!(
        m.handle(InputEvent::Char('b')),
        Transition::SpellingUpdated(_) | Transition::Candidates { .. }
    ));
    assert!(matches!(
        m.handle(InputEvent::Char('a')),
        Transition::SpellingUpdated(_) | Transition::Candidates { .. }
    ));
    assert!(matches!(
        m.handle(InputEvent::Char('i')),
        Transition::SpellingUpdated(_) | Transition::Candidates { .. }
    ));
    assert!(matches!(m.handle(InputEvent::Char('.')), Transition::SpellingUpdated(raw) if raw == "bai."));
    assert_eq!(m.handle(InputEvent::Enter), Transition::Commit("bai.".to_string()));
}

#[test]
fn backspace_removes_trailing_punctuation_before_code_chars() {
    let mut m = StateMachine::new(dict());
    let _ = m.handle(InputEvent::Char('a'));
    assert_eq!(m.handle(InputEvent::Char('\\')), Transition::SpellingUpdated("a\\".to_string()));
    match m.handle(InputEvent::Backspace) {
        Transition::Candidates { spelling, candidates, .. } => {
            assert_eq!(spelling, "a");
            assert!(candidates.contains(&"工".to_string()));
        }
        other => panic!("expected candidates after removing punctuation, got {other:?}"),
    }
}

#[test]
fn digit_char_selects_candidate_when_plain_code_is_active() {
    let mut m = StateMachine::with_options(dict(), 5, false);
    m.handle(InputEvent::Char('g'));
    m.handle(InputEvent::Char('g'));
    m.handle(InputEvent::Char('l'));
    m.handle(InputEvent::Char('l'));

    let t = m.handle(InputEvent::Char('2'));
    assert!(matches!(t, Transition::Commit(ref s) if s == "王" || s == "壬"));
}

// ── further cases ──────────────────────────────────────────

#[test]
fn page_size_is_clamped() {
    let mut m = StateMachine::with_options(dict(), 0, false);
    m.handle(InputEvent::Char('g'));
    m.handle(InputEvent::Char('g'));
    assert_eq!(m.candidates().len(), 1);
    assert_eq!(m.total_pages(), 4);
    let mut big = StateMachine::with_options(dict(), 50, false);
    big.handle(InputEvent::Char('g'));
    assert_eq!(big.total_pages(), 1);
}

#[test]
fn total_pages_is_one_when_idle() {
    let m = StateMachine::new(dict());
    assert_eq!(m.total_pages(), 1);
    assert_eq!(m.page(), 0);
    assert!(m.candidates().is_empty());
}

#[test]
fn candidates_are_ranked_exact_first_then_weight() {
    let mut m = StateMachine::with_options(dict(), 5, false);
    m.handle(InputEvent::Char('g'));
    m.handle(InputEvent::Char('g'));
    let t = m.handle(InputEvent::Char('h'));
    match t {
        Transition::Candidates { candidates, page, total_pages, .. } => {
            assert_eq!(candidates, vec!["理".to_string(), "五".to_string()]);
            assert_eq!(page, 0);
            assert_eq!(total_pages, 1);
        }
        other => panic!("unexpected {other:?}"),
    }
}

#[test]
fn space_after_punctuation_commits_raw_text() {
    let mut m = StateMachine::new(dict());
    m.handle(InputEvent::Char('a'));
    m.handle(InputEvent::Char(','));
    assert_eq!(m.handle(InputEvent::Space), Transition::Commit("a,".to_string()));
    assert_eq!(m.state(), InputState::Idle);
}

#[test]
fn select_out_of_range_passes_through_and_keeps_state() {
    let mut m = StateMachine::new(dict());
    m.handle(InputEvent::Char('a'));
    assert_eq!(m.handle(InputEvent::Select(0)), Transition::Passthrough(InputEvent::Select(0)));
    assert_eq!(m.handle(InputEvent::Select(9)), Transition::Passthrough(InputEvent::Select(9)));
    assert_eq!(m.spelling(), "a");
    assert_eq!(m.state(), InputState::Selecting);
}

#[test]
fn other_characters_pass_through() {
    let mut m = StateMachine::new(dict());
    assert_eq!(m.handle(InputEvent::Char('中')), Transition::Passthrough(InputEvent::Char('中')));
    assert_eq!(m.spelling(), "");
}

#[test]
fn accepts_code_char_is_ascii_alphanumeric() {
    let m = StateMachine::new(dict());
    assert!(m.accepts_code_char('a'));
    assert!(m.accepts_code_char('Z'));
    assert!(m.accepts_code_char('7'));
    assert!(!m.accepts_code_char(','));
    assert!(!m.accepts_code_char('中'));
}

#[test]
fn digit_zero_does_not_select() {
    let mut m = StateMachine::with_options(dict(), 5, false);
    m.handle(InputEvent::Char('g'));
    m.handle(InputEvent::Char('g'));
    let t = m.handle(InputEvent::Char('0'));
    assert!(matches!(t, Transition::SpellingUpdated(ref s) if s == "gg0"));
}

#[test]
fn auto_commit_needs_four_bytes() {
    let mut m = StateMachine::with_options(dict(), 5, true);
    m.handle(InputEvent::Char('g'));
    m.handle(InputEvent::Char('g'));
    let t = m.handle(InputEvent::Char('h'));
    assert!(matches!(t, Transition::Candidates { .. }));
    assert_eq!(m.handle(InputEvent::Char('g')), Transition::Commit("五".to_string()));
    assert_eq!(m.state(), InputState::Idle);
}
