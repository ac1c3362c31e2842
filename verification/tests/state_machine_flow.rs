use mywubi::dictionary::{Dictionary, Entry, LoadOptions};
use mywubi::state_machine::{InputEvent, InputState, StateMachine, Transition};
use std::sync::Arc;

fn dict() -> Arc<Dictionary> {
    let entries = vec![
        Entry { code: "a".into(), word: "工".into(), weight: 999 },
        Entry { code: "ggll".into(), word: "王".into(), weight: 100 },
        Entry { code: "ggll".into(), word: "壬".into(), weight: 50 },
        Entry { code: "ggll".into(), word: "丰".into(), weight: 20 },
        Entry { code: "ggh".into(), word: "理".into(), weight: 80 },
        Entry { code: "gghg".into(), word: "五".into(), weight: 200 },
        Entry { code: "ggtt".into(), word: "五笔".into(), weight: 60 },
        Entry { code: "ggli".into(), word: "班".into(), weight: 30 },
        Entry { code: "gt".into(), word: "五".into(), weight: 10 },
    ];
    Dictionary::from_entries(entries, None, LoadOptions::default()).unwrap()
}

fn drive_chars(sm: &mut StateMachine, chars: &str) -> Vec<String> {
    let mut commits = Vec::new();
    for c in chars.chars() {
        let t = sm.handle(InputEvent::Char(c));
        if let Transition::Commit(s) = t {
            commits.push(s);
        }
    }
    commits
}

#[test]
fn wildcard_occupies_exactly_one_code_position() {
    let dictionary = Dictionary::from_text(
        "---\nwildcard_key: z\ncharset: abcdefghijklmnopqrstuvwxyz\n---\ngdqq\t目标\t100\ngdqaa\t不应出现\t1000\n",
        None,
        LoadOptions::default(),
    )
    .unwrap();
    let mut machine = StateMachine::with_options(dictionary, 5, false);
    drive_chars(&mut machine, "gdq");

    let transition = machine.handle(InputEvent::Char('z'));

    assert!(
        matches!(transition, Transition::Candidates { candidates, .. } if candidates == ["目标"])
    );
}

#[test]
fn machine_phase_agrees_with_buffer_and_page() {
    let mut m = StateMachine::with_options(dict(), 2, false);
    let events = [
        InputEvent::Char('g'),
        InputEvent::PageNext,
        InputEvent::PageNext,
        InputEvent::PagePrev,
        InputEvent::Char(','),
        InputEvent::Backspace,
        InputEvent::Char('g'),
        InputEvent::Char('x'),
        InputEvent::Backspace,
        InputEvent::Backspace,
        InputEvent::Backspace,
        InputEvent::Char('a'),
        InputEvent::Space,
    ];
    for e in events {
        let t = m.handle(e);
        assert_eq!(m.state() == InputState::Idle, m.spelling().is_empty());
        assert_eq!(m.state() == InputState::Selecting, !m.candidates().is_empty());
        assert!(m.candidates().len() <= 2);
        assert!(m.page() < m.total_pages());
        if matches!(t, Transition::Commit(_) | Transition::Cleared) {
            assert_eq!(m.state(), InputState::Idle);
        }
    }
}

#[test]
fn candidate_words_are_unique_across_matching_codes() {
    let dictionary = Dictionary::from_entries(
        vec![
            Entry { code: "eh".into(), word: "用".into(), weight: 100 },
            Entry { code: "eht".into(), word: "用".into(), weight: 50 },
            Entry { code: "ehv".into(), word: "月".into(), weight: 80 },
        ],
        None,
        LoadOptions::default(),
    )
    .unwrap();
    let mut machine = StateMachine::with_options(dictionary, 5, false);
    machine.handle(InputEvent::Char('e'));

    let transition = machine.handle(InputEvent::Char('h'));

    assert!(matches!(transition, Transition::Candidates { candidates, .. } if candidates == ["用", "月"]));
}

#[test]
fn classic_four_code_space_first_commit() {
    let mut m = StateMachine::new(dict());
    drive_chars(&mut m, "ggll");
    assert_eq!(m.state(), InputState::Selecting);
    let t = m.handle(InputEvent::Space);
    assert_eq!(t, Transition::Commit("王".to_string()));
    assert_eq!(m.state(), InputState::Idle);
    assert!(m.spelling().is_empty());
}

#[test]
fn auto_commit_unique_immediate() {
    let mut m = StateMachine::new(dict());
    let commits = drive_chars(&mut m, "gghg");
    assert_eq!(commits, vec!["五".to_string()]);
    assert_eq!(m.state(), InputState::Idle);
}

#[test]
fn select_second_candidate_by_number() {
    let mut m = StateMachine::with_options(dict(), 5, false);
    drive_chars(&mut m, "ggll");
    let t = m.handle(InputEvent::Select(2));
    assert_eq!(t, Transition::Commit("壬".to_string()));
    assert_eq!(m.state(), InputState::Idle);
}

#[test]
fn select_out_of_range_passthrough() {
    let mut m = StateMachine::with_options(dict(), 5, false);
    drive_chars(&mut m, "ggll");
    let t = m.handle(InputEvent::Select(5));
    assert_eq!(t, Transition::Passthrough(InputEvent::Select(5)));
    assert_eq!(m.state(), InputState::Selecting);
}

#[test]
fn backspace_revises_spelling() {
    let mut m = StateMachine::new(dict());
    drive_chars(&mut m, "ggll");
    assert_eq!(m.spelling(), "ggll");
    let t = m.handle(InputEvent::Backspace);
    assert_eq!(m.spelling(), "ggl");
    assert!(matches!(t, Transition::Candidates { .. }));
    let t2 = m.handle(InputEvent::Space);
    assert!(matches!(t2, Transition::Commit(ref s) if s == "王"));
}

#[test]
fn backspace_to_empty_clears_state() {
    let mut m = StateMachine::new(dict());
    drive_chars(&mut m, "a");
    let t = m.handle(InputEvent::Backspace);
    assert_eq!(t, Transition::Cleared);
    assert_eq!(m.state(), InputState::Idle);
}

#[test]
fn backspace_passthrough_when_idle() {
    let mut m = StateMachine::new(dict());
    let t = m.handle(InputEvent::Backspace);
    assert_eq!(t, Transition::Passthrough(InputEvent::Backspace));
}

#[test]
fn esc_resets_to_idle() {
    let mut m = StateMachine::new(dict());
    drive_chars(&mut m, "ggll");
    let t = m.handle(InputEvent::Esc);
    assert_eq!(t, Transition::Cleared);
    assert_eq!(m.state(), InputState::Idle);
    assert!(m.spelling().is_empty());
    assert!(m.candidates().is_empty());
}

#[test]
fn esc_passthrough_when_idle() {
    let mut m = StateMachine::new(dict());
    let t = m.handle(InputEvent::Esc);
    assert_eq!(t, Transition::Passthrough(InputEvent::Esc));
}

#[test]
fn state_machine_flow_enter_commits_raw_spelling() {
    let mut m = StateMachine::new(dict());
    drive_chars(&mut m, "zz");
    let t = m.handle(InputEvent::Enter);
    assert_eq!(t, Transition::Commit("zz".to_string()));
    assert_eq!(m.state(), InputState::Idle);
}

#[test]
fn enter_passthrough_when_idle() {
    let mut m = StateMachine::new(dict());
    let t = m.handle(InputEvent::Enter);
    assert_eq!(t, Transition::Passthrough(InputEvent::Enter));
}

#[test]
fn page_next_advances_and_prev_returns() {
    let mut m = StateMachine::with_options(dict(), 1, false);
    drive_chars(&mut m, "ggll");
    let page0 = m.page();
    assert_eq!(page0, 0);
    let t_next = m.handle(InputEvent::PageNext);
    assert!(matches!(t_next, Transition::Candidates { page, .. } if page == 1));
    assert_eq!(m.page(), 1);
    let t_prev = m.handle(InputEvent::PagePrev);
    assert!(matches!(t_prev, Transition::Candidates { page, .. } if page == 0));
    assert_eq!(m.page(), 0);
}

#[test]
fn page_next_at_last_page_is_none() {
    let mut m = StateMachine::with_options(dict(), 10, false);
    drive_chars(&mut m, "ggll");
    let t = m.handle(InputEvent::PageNext);
    assert_eq!(t, Transition::Nothing);
}

#[test]
fn page_prev_at_first_page_is_none() {
    let mut m = StateMachine::new(dict());
    drive_chars(&mut m, "ggll");
    let t = m.handle(InputEvent::PagePrev);
    assert_eq!(t, Transition::Nothing);
}

#[test]
fn keep_typing_after_commit_starts_new_session() {
    let mut m = StateMachine::new(dict());
    drive_chars(&mut m, "a");
    let t1 = m.handle(InputEvent::Space);
    assert_eq!(t1, Transition::Commit("工".to_string()));
    drive_chars(&mut m, "gghg");
    assert_eq!(m.state(), InputState::Idle);
}

#[test]
fn space_with_no_candidate_commits_raw_letters() {
    let mut m = StateMachine::new(dict());
    drive_chars(&mut m, "zz");
    let t = m.handle(InputEvent::Space);
    assert_eq!(t, Transition::Commit("zz".to_string()));
    assert_eq!(m.state(), InputState::Idle);
}

#[test]
fn space_passthrough_when_idle() {
    let mut m = StateMachine::new(dict());
    let t = m.handle(InputEvent::Space);
    assert_eq!(t, Transition::Passthrough(InputEvent::Space));
}

#[test]
fn typing_during_selecting_resets_candidates() {
    let mut m = StateMachine::with_options(dict(), 5, false);
    drive_chars(&mut m, "gg");
    assert_eq!(m.state(), InputState::Selecting);
    let t = m.handle(InputEvent::Char('l'));
    assert!(matches!(t, Transition::Candidates { spelling, .. } if spelling == "ggl"));
}

#[test]
fn symbol_passthrough_during_idle() {
    let mut m = StateMachine::new(dict());
    let t = m.handle(InputEvent::Symbol('!'));
    assert_eq!(t, Transition::Passthrough(InputEvent::Symbol('!')));
    assert_eq!(m.spelling(), "");
}

#[test]
fn uppercase_letter_is_kept_in_spelling_buffer() {
    let mut m = StateMachine::new(dict());
    let t = m.handle(InputEvent::Char('A'));
    assert_eq!(t, Transition::SpellingUpdated("A".to_string()));
    assert_eq!(m.spelling(), "A");
}

#[test]
fn symbol_after_spelling_commits_raw_spelling_then_symbol() {
    let mut m = StateMachine::new(dict());
    drive_chars(&mut m, "gg");

    let t = m.handle(InputEvent::Symbol('!'));

    assert_eq!(t, Transition::Commit("gg!".to_string()));
    assert_eq!(m.state(), InputState::Idle);
    assert_eq!(m.spelling(), "");
}

#[test]
fn full_writing_session_multiple_commits() {
    let mut m = StateMachine::new(dict());
    let mut commits = Vec::new();

    for c in "gghg".chars() {
        if let Transition::Commit(s) = m.handle(InputEvent::Char(c)) {
            commits.push(s);
        }
    }
    for c in "ggll".chars() {
        if let Transition::Commit(s) = m.handle(InputEvent::Char(c)) {
            commits.push(s);
        }
    }
    if let Transition::Commit(s) = m.handle(InputEvent::Space) {
        commits.push(s);
    }
    m.handle(InputEvent::Char('a'));
    if let Transition::Commit(s) = m.handle(InputEvent::Space) {
        commits.push(s);
    }

    assert_eq!(commits, vec!["五", "王", "工"]);
}

#[test]
fn reset_clears_all_runtime_state() {
    let mut m = StateMachine::new(dict());
    drive_chars(&mut m, "ggll");
    assert_eq!(m.state(), InputState::Selecting);
    m.reset();
    assert_eq!(m.state(), InputState::Idle);
    assert!(m.spelling().is_empty());
    assert!(m.candidates().is_empty());
    assert_eq!(m.page(), 0);
}

// ── further cases ──────────────────────────────────────────

#[test]
fn duplicate_word_from_two_codes_is_listed_once() {
    let mut m = StateMachine::with_options(dict(), 10, false);
    let t = m.handle(InputEvent::Char('g'));
    match t {
        Transition::Candidates { candidates, total_pages, .. } => {
            let fives = candidates.iter().filter(|w| w.as_str() == "五").count();
            assert_eq!(fives, 1);
            assert_eq!(total_pages, 1);
        }
        other => panic!("unexpected {other:?}"),
    }
}

#[test]
fn page_views_cover_all_candidates_without_overlap() {
    let mut m = StateMachine::with_options(dict(), 2, false);
    drive_chars(&mut m, "g");
    let pages = m.total_pages();
    let mut seen: Vec<String> = m.candidates().to_vec();
    for _ in 1..pages {
        match m.handle(InputEvent::PageNext) {
            Transition::Candidates { candidates, .. } => seen.extend(candidates),
            other => panic!("unexpected {other:?}"),
        }
    }
    assert_eq!(m.handle(InputEvent::PageNext), Transition::Nothing);
    let mut sorted = seen.clone();
    sorted.sort();
    sorted.dedup();
    assert_eq!(sorted.len(), seen.len());
    assert_eq!(seen.len(), 7);
}
