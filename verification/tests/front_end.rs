use mywubi::config::Hotkey;
use mywubi::front_end::{
    ascii_to_chinese_punctuation, build_spelling_only_candidate_data, classify_printable_char,
    compute_window_rect, fixed_utf16, is_shift_vk, key_name_to_vk, lang_bar_display, pt_to_px_for_dpi,
    should_intercept_test_key, transition_to_edit_session_op, translate_function_key, update_candidate_anchor,
    CandidateData, CandidateItem, DisplayAttrKind, EditSessionOp, ScreenPoint, ShiftKeyToggleTracker,
    ThemeSnapshot, VK_BACK, VK_ESCAPE, VK_LSHIFT, VK_NEXT, VK_OEM_1, VK_OEM_7, VK_OEM_COMMA, VK_OEM_MINUS,
    VK_OEM_PERIOD, VK_OEM_PLUS, VK_PRIOR, VK_RETURN, VK_RSHIFT, VK_SHIFT, VK_SPACE, VK_LEFT, VK_RIGHT,
};
use mywubi::front_end::{intercept_on_test_key_down, key_down_event, next_candidate_data, transition_consumes_key, EmbeddedFontProvider, FontProvider};
use mywubi::state_machine::{InputEvent, Transition};

// ── candidate window data ──────────────────────────────────

#[test]
fn hidden_has_visible_false() {
    let theme = ThemeSnapshot::default();
    let data = CandidateData::hidden(theme.clone());
    assert!(!data.visible);
    assert!(data.items.is_empty());
    assert_eq!(data.theme.font_size, theme.font_size);
}

#[test]
fn visible_constructor_sets_all_fields() {
    let theme = ThemeSnapshot::default();
    let items = vec![
        CandidateItem { label: "1.".into(), text: "五".into(), hint: String::new() },
        CandidateItem { label: "2.".into(), text: "一".into(), hint: String::new() },
    ];
    let data = CandidateData::visible("gggg".into(), items.clone(), 0, 0, 3, None, theme.clone());
    assert!(data.visible);
    assert_eq!(data.spelling, "gggg");
    assert_eq!(data.items.len(), 2);
    assert_eq!(data.highlighted, 0);
    assert_eq!(data.page, 0);
    assert_eq!(data.total_pages, 3);
}

#[test]
fn default_is_hidden() {
    let data = CandidateData::default();
    assert!(!data.visible);
}

#[test]
fn default_theme_colours() {
    let theme = ThemeSnapshot::default();
    assert_eq!(theme.font_size, 14);
    assert_eq!(theme.primary_color, 0xFF1E88E5);
    assert_eq!(theme.background_color, 0xFFFFFFFF);
    assert_eq!(theme.highlight_color, 0xFFFFD54F);
    let p = ScreenPoint::default();
    assert_eq!((p.x, p.y), (0, 0));
}

// ── window placement ───────────────────────────────────────

#[test]
fn pt_to_px_uses_explicit_dpi() {
    assert_eq!(pt_to_px_for_dpi(14, 96), 19);
    assert_eq!(pt_to_px_for_dpi(14, 144), 28);
}

#[test]
fn pt_to_px_rounds_toward_zero_for_negative_dpi() {
    assert_eq!(pt_to_px_for_dpi(1, -100), -(64 / 72));
    assert_eq!(pt_to_px_for_dpi(10, -96), (10 * -96 + 36) / 72);
}

#[test]
fn normal_below_cursor() {
    let anchor = ScreenPoint { x: 500, y: 400 };
    let (x, y) = compute_window_rect(anchor, (200, 34), (0, 0, 1920, 1080));
    assert_eq!((x, y), (500, 400));
}

#[test]
fn flip_above_when_near_bottom() {
    let anchor = ScreenPoint { x: 500, y: 1000 };
    let (x, y) = compute_window_rect(anchor, (200, 34), (0, 0, 1920, 1080));
    assert_eq!(x, 500);
    assert!(y < 1000, "候选框应在光标上方");
}

#[test]
fn clamp_right_edge() {
    let anchor = ScreenPoint { x: 1850, y: 400 };
    let (x, y) = compute_window_rect(anchor, (200, 34), (0, 0, 1920, 1080));
    assert_eq!(x, 1712);
    assert_eq!(y, 400);
}

#[test]
fn clamp_left_edge() {
    let anchor = ScreenPoint { x: -10, y: 400 };
    let (x, y) = compute_window_rect(anchor, (200, 34), (0, 0, 1920, 1080));
    assert_eq!(x, 8);
    assert_eq!(y, 400);
}

#[test]
fn flipped_window_is_exactly_above_anchor_and_clamped_at_top() {
    let (_, y) = compute_window_rect(ScreenPoint { x: 500, y: 1000 }, (200, 34), (0, 0, 1920, 1080));
    assert_eq!(y, 966);
    let (_, y2) = compute_window_rect(ScreenPoint { x: 500, y: -50 }, (200, 34), (0, 0, 1920, 1080));
    assert_eq!(y2, 8);
    let (_, y3) = compute_window_rect(ScreenPoint { x: 500, y: 700 }, (200, 500), (0, 0, 1920, 1080));
    assert_eq!(y3, 1080 - 500 - 8);
}

#[test]
fn window_stays_inside_monitor_everywhere() {
    for ax in (-100..2100).step_by(97) {
        for ay in (-100..1200).step_by(61) {
            let (x, y) = compute_window_rect(ScreenPoint { x: ax, y: ay }, (200, 34), (0, 0, 1920, 1080));
            assert!(x >= 8 && x + 200 <= 1912);
            assert!(y >= 8 && y + 34 <= 1072);
        }
    }
}

// ── text service decisions ─────────────────────────────────

#[test]
fn idle_backspace_is_not_intercepted_in_test_keydown() {
    assert!(!should_intercept_test_key(Some(InputEvent::Backspace), true));
}

#[test]
fn composing_backspace_is_intercepted_in_test_keydown() {
    assert!(should_intercept_test_key(Some(InputEvent::Backspace), false));
}

#[test]
fn character_input_is_still_intercepted() {
    assert!(should_intercept_test_key(Some(InputEvent::Char('g')), true));
}

#[test]
fn unmapped_key_is_never_intercepted() {
    assert!(!should_intercept_test_key(None, false));
}

#[test]
fn chinese_mode_uses_chinese_language_bar_text() {
    assert_eq!(lang_bar_display(true), ("中", "中文模式"));
}

#[test]
fn english_mode_uses_english_language_bar_text() {
    assert_eq!(lang_bar_display(false), ("英", "英文模式"));
}

#[test]
fn fixed_utf16_fills_description_and_keeps_trailing_nul() {
    let value = fixed_utf16::<8>("MyWubi");

    assert_eq!(value, [77, 121, 87, 117, 98, 105, 0, 0]);
}

#[test]
fn fixed_utf16_truncates_and_encodes_surrogates() {
    assert_eq!(fixed_utf16::<4>("abcdef"), [97, 98, 99, 0]);
    assert_eq!(fixed_utf16::<4>("中😀"), [0x4E2D, 0xD83D, 0xDE00, 0]);
    assert_eq!(fixed_utf16::<0>("abc"), []);
    assert_eq!(fixed_utf16::<1>("abc"), [0]);
}

#[test]
fn spelling_update_clears_stale_candidates_and_keeps_spelling_visible() {
    let theme = ThemeSnapshot::default();
    let current = CandidateData::visible(
        "a".into(),
        vec![CandidateItem { label: "1. ".into(), text: "工".into(), hint: String::new() }],
        0,
        0,
        1,
        None,
        theme.clone(),
    );

    let updated = build_spelling_only_candidate_data(current, "aaa".into(), Some(ScreenPoint { x: 10, y: 20 }));

    assert!(updated.visible);
    assert_eq!(updated.spelling, "aaa");
    assert!(updated.items.is_empty());
    assert_eq!(updated.highlighted, 0);
    assert_eq!(updated.page, 0);
    assert_eq!(updated.total_pages, 0);
    assert_eq!(updated.anchor.unwrap().x, 10);
    assert_eq!(updated.anchor.unwrap().y, 20);
}

#[test]
fn spelling_update_shows_spelling_even_without_candidates() {
    let theme = ThemeSnapshot::default();
    let current = CandidateData::hidden(theme.clone());

    let updated = build_spelling_only_candidate_data(current, "aaa".into(), None);

    assert!(updated.visible);
    assert_eq!(updated.spelling, "aaa");
    assert!(updated.items.is_empty());
    assert_eq!(updated.theme.font_size, theme.font_size);
}

#[test]
fn spelling_update_preserves_existing_anchor_when_new_anchor_missing() {
    let theme = ThemeSnapshot::default();
    let current = CandidateData::visible(
        "a".into(),
        vec![CandidateItem { label: "1. ".into(), text: "工".into(), hint: String::new() }],
        0,
        0,
        1,
        Some(ScreenPoint { x: 32, y: 64 }),
        theme,
    );

    let updated = build_spelling_only_candidate_data(current, "aaa".into(), None);

    assert_eq!(updated.anchor.unwrap().x, 32);
    assert_eq!(updated.anchor.unwrap().y, 64);
}

#[test]
fn empty_spelling_hides_the_window() {
    let current = CandidateData::visible("a".into(), Vec::new(), 0, 0, 1, None, ThemeSnapshot::default());
    let updated = build_spelling_only_candidate_data(current, String::new(), None);
    assert!(!updated.visible);
}

#[test]
fn precise_anchor_update_overrides_fallback_anchor() {
    let theme = ThemeSnapshot::default();
    let current = CandidateData::visible(
        "gg".into(),
        vec![CandidateItem { label: "1. ".into(), text: "工".into(), hint: String::new() }],
        0,
        0,
        1,
        Some(ScreenPoint { x: 5, y: 10 }),
        theme,
    );

    let updated = update_candidate_anchor(current, Some(ScreenPoint { x: 120, y: 240 }));

    assert_eq!(updated.anchor.unwrap().x, 120);
    assert_eq!(updated.anchor.unwrap().y, 240);
    assert_eq!(updated.spelling, "gg");
    assert_eq!(updated.items.len(), 1);
}

#[test]
fn missing_anchor_keeps_the_old_one() {
    let current = CandidateData::visible(
        "gg".into(),
        Vec::new(),
        0,
        0,
        1,
        Some(ScreenPoint { x: 5, y: 10 }),
        ThemeSnapshot::default(),
    );
    let updated = update_candidate_anchor(current, None);
    assert_eq!(updated.anchor.unwrap().x, 5);
}

#[test]
fn spelling_update_maps_to_input_composition_update() {
    let op = transition_to_edit_session_op(&Transition::SpellingUpdated("gg".into()));

    assert_eq!(op, EditSessionOp::CompositionUpdate { spelling: "gg".into(), attr: DisplayAttrKind::Input });
}

#[test]
fn candidates_map_to_converted_composition_update() {
    let op = transition_to_edit_session_op(&Transition::Candidates {
        spelling: "gg".into(),
        candidates: vec!["工".into()],
        page: 0,
        total_pages: 1,
    });

    assert_eq!(op, EditSessionOp::CompositionUpdate { spelling: "gg".into(), attr: DisplayAttrKind::Converted });
}

#[test]
fn other_transitions_map_to_their_edits() {
    assert_eq!(
        transition_to_edit_session_op(&Transition::Commit("工".into())),
        EditSessionOp::CommitAndReplace { text: "工".into() }
    );
    assert_eq!(
        transition_to_edit_session_op(&Transition::Cleared),
        EditSessionOp::EndComposition { delete_text: true }
    );
    assert_eq!(transition_to_edit_session_op(&Transition::Nothing), EditSessionOp::NoOp);
    assert_eq!(
        transition_to_edit_session_op(&Transition::Passthrough(InputEvent::Space)),
        EditSessionOp::NoOp
    );
    assert_eq!(transition_to_edit_session_op(&Transition::SpellingUpdated(String::new())), EditSessionOp::NoOp);
}

#[test]
fn shift_toggle_tracker_toggles_for_shift_alone() {
    let mut tracker = ShiftKeyToggleTracker::default();
    tracker.on_key_down(VK_SHIFT, false);
    assert!(tracker.consume_preserved_key());
}

#[test]
fn shift_toggle_tracker_ignores_shift_letter_combo() {
    let mut tracker = ShiftKeyToggleTracker::default();
    tracker.on_key_down(VK_SHIFT, false);
    tracker.on_key_down(b'A' as u16, true);
    assert!(!tracker.consume_preserved_key());
}

#[test]
fn shift_toggle_tracker_resets_after_combo() {
    let mut tracker = ShiftKeyToggleTracker::default();
    tracker.on_key_down(VK_SHIFT, false);
    tracker.on_key_down(b'A' as u16, true);
    assert!(!tracker.consume_preserved_key());
    tracker.on_key_down(VK_SHIFT, false);
    assert!(tracker.consume_preserved_key());
}

#[test]
fn shift_keys_are_recognised() {
    assert!(is_shift_vk(VK_SHIFT));
    assert!(is_shift_vk(VK_LSHIFT));
    assert!(is_shift_vk(VK_RSHIFT));
    assert!(!is_shift_vk(VK_SPACE));
}

// ── key mapping ────────────────────────────────────────────

#[test]
fn translate_space_and_enter() {
    let h = Hotkey::default();
    assert_eq!(translate_function_key(VK_SPACE, false, false, &h), Some(InputEvent::Space));
    assert_eq!(translate_function_key(VK_RETURN, false, false, &h), Some(InputEvent::Enter));
}

#[test]
fn translate_backspace_and_esc() {
    let h = Hotkey::default();
    assert_eq!(translate_function_key(VK_BACK, false, false, &h), Some(InputEvent::Backspace));
    assert_eq!(translate_function_key(VK_ESCAPE, false, false, &h), Some(InputEvent::Esc));
}

#[test]
fn translate_common_punctuation_hotkeys_when_selecting() {
    let h = Hotkey::default();
    assert_eq!(translate_function_key(VK_OEM_COMMA, false, true, &h), Some(InputEvent::PageNext));
    assert_eq!(translate_function_key(VK_OEM_PERIOD, false, true, &h), Some(InputEvent::PagePrev));
    assert_eq!(translate_function_key(VK_OEM_COMMA, false, false, &h), None);
    assert_eq!(translate_function_key(VK_OEM_COMMA, true, true, &h), None);
}

#[test]
fn page_next_takes_priority_over_page_prev() {
    let mut h = Hotkey::default();
    h.page_prev = h.page_next.clone();
    assert_eq!(translate_function_key(VK_OEM_COMMA, false, true, &h), Some(InputEvent::PageNext));
}

#[test]
fn page_key_non_default_minus_equal() {
    let mut h = Hotkey::default();
    h.page_next = "minus".to_string();
    h.page_prev = "equal".to_string();
    assert_eq!(translate_function_key(VK_OEM_MINUS, false, true, &h), Some(InputEvent::PageNext));
    assert_eq!(translate_function_key(VK_OEM_PLUS, false, true, &h), Some(InputEvent::PagePrev));
}

#[test]
fn selecting_state_maps_quick_select_hotkeys() {
    let h = Hotkey::default();
    assert_eq!(translate_function_key(VK_OEM_1, false, true, &h), Some(InputEvent::Select(2)));
    assert_eq!(translate_function_key(VK_OEM_7, false, true, &h), Some(InputEvent::Select(3)));
}

#[test]
fn key_name_to_vk_maps_all_options() {
    assert_eq!(key_name_to_vk("comma"), Some(VK_OEM_COMMA));
    assert_eq!(key_name_to_vk("period"), Some(VK_OEM_PERIOD));
    assert_eq!(key_name_to_vk("semicolon"), Some(VK_OEM_1));
    assert_eq!(key_name_to_vk("quote"), Some(VK_OEM_7));
    assert_eq!(key_name_to_vk("minus"), Some(VK_OEM_MINUS));
    assert_eq!(key_name_to_vk("equal"), Some(VK_OEM_PLUS));
    assert_eq!(key_name_to_vk("space"), Some(VK_SPACE));
    assert_eq!(key_name_to_vk("left"), Some(VK_LEFT));
    assert_eq!(key_name_to_vk("right"), Some(VK_RIGHT));
    assert_eq!(key_name_to_vk("page_up"), Some(VK_PRIOR));
    assert_eq!(key_name_to_vk("page_down"), Some(VK_NEXT));
    assert_eq!(key_name_to_vk("unknown"), None);
}

#[test]
fn classify_shifted_punctuation_as_symbol() {
    assert_eq!(classify_printable_char('!', true), InputEvent::Symbol('！'));
}

#[test]
fn classify_shifted_uppercase_as_code_char() {
    assert_eq!(classify_printable_char('A', true), InputEvent::Char('A'));
}

#[test]
fn ascii_punctuation_maps_to_chinese_symbol() {
    assert_eq!(classify_printable_char(',', false), InputEvent::Symbol('，'));
    assert_eq!(classify_printable_char('!', true), InputEvent::Symbol('！'));
    assert_eq!(ascii_to_chinese_punctuation('\\'), Some('、'));
    assert_eq!(ascii_to_chinese_punctuation('/'), Some('、'));
    assert_eq!(ascii_to_chinese_punctuation('a'), None);
}

// ── rendering helpers ──────────────────────────────────────

#[test]
fn opaque_alpha_fix_keeps_black_text_visible() {
    let mut pixels = vec![0u8, 0u8, 0u8, 0u8, 255u8, 255u8, 255u8, 0u8];

    mywubi::front_end::fill_alpha_channel(&mut pixels, 255);

    assert_eq!(pixels[3], 255);
    assert_eq!(pixels[7], 255);
}

#[test]
fn alpha_fill_leaves_partial_pixel_alone() {
    let mut pixels = vec![1u8, 2, 3, 4, 5, 6, 7];
    mywubi::front_end::fill_alpha_channel(&mut pixels, 9);
    assert_eq!(pixels, vec![1, 2, 3, 9, 5, 6, 7]);
}

#[test]
fn colour_unpacking_and_colorref() {
    assert_eq!(mywubi::front_end::unpack_argb(0xFF1E88E5), (0x1E, 0x88, 0xE5, 0xFF));
    assert_eq!(mywubi::front_end::argb_to_colorref(0xFF1E88E5), 0x00E5881E);
}

#[test]
fn embedded_font_provider_hands_back_its_bytes() {
    static FONT: [u8; 3] = [1, 2, 3];
    let p = EmbeddedFontProvider::new(&FONT);
    assert_eq!(p.font_data(), &[1, 2, 3]);
}

// ── applying transitions to the window ─────────────────────

#[test]
fn candidates_become_numbered_items() {
    let items = mywubi::front_end::candidate_items(&["工".to_string(), "了".to_string()]);
    assert_eq!(items.len(), 2);
    assert_eq!(items[0].label, "1. ");
    assert_eq!(items[1].label, "2. ");
    assert_eq!(items[1].text, "了");
    assert!(items[0].hint.is_empty());
}

#[test]
fn next_window_for_each_transition() {
    let theme = ThemeSnapshot::default();
    let current = CandidateData::visible("g".into(), Vec::new(), 0, 0, 1, Some(ScreenPoint { x: 1, y: 2 }), theme);
    let shown = next_candidate_data(
        &Transition::Candidates { spelling: "gg".into(), candidates: vec!["五".into(), "王".into()], page: 1, total_pages: 3 },
        current.clone(),
        theme,
        Some(ScreenPoint { x: 7, y: 8 }),
    );
    assert!(shown.visible);
    assert_eq!(shown.spelling, "gg");
    assert_eq!(shown.items.len(), 2);
    assert_eq!(shown.items[1].label, "2. ");
    assert_eq!((shown.page, shown.total_pages, shown.highlighted), (1, 3, 0));
    assert_eq!(shown.anchor.unwrap().x, 7);

    let unchanged = next_candidate_data(&Transition::Nothing, current.clone(), theme, None);
    assert_eq!(unchanged.spelling, "g");
    assert!(unchanged.visible);

    let hidden = next_candidate_data(&Transition::Commit("五".into()), current.clone(), theme, None);
    assert!(!hidden.visible);
    let spelled = next_candidate_data(&Transition::SpellingUpdated("ab".into()), current, theme, None);
    assert!(spelled.visible);
    assert_eq!(spelled.anchor.unwrap().y, 2);
}

#[test]
fn only_passthrough_gives_the_key_back() {
    assert!(!transition_consumes_key(&Transition::Passthrough(InputEvent::Space)));
    assert!(transition_consumes_key(&Transition::Nothing));
    assert!(transition_consumes_key(&Transition::Cleared));
}

#[test]
fn page_prev_works_for_non_default_key() {
    let mut h = Hotkey::default();
    h.page_next = "period".to_string();
    h.page_prev = "comma".to_string();
    assert_eq!(translate_function_key(VK_OEM_COMMA, false, true, &h), Some(InputEvent::PagePrev));
}

#[test]
fn translate_unknown_returns_none() {
    assert_eq!(translate_function_key(0xFF, false, false, &Hotkey::default()), None);
}

#[test]
fn theme_snapshot_comes_from_config_appearance() {
    let mut cfg = mywubi::config::Config::default();
    cfg.appearance.font_size = 18;
    cfg.appearance.primary_color = 0xFF102030;
    cfg.appearance.background_color = 0xFFF0E0D0;
    cfg.appearance.highlight_color = 0xFFABCDEF;

    let theme = ThemeSnapshot::from_config(&cfg);

    assert_eq!(theme.font_size, 18);
    assert_eq!(theme.primary_color, 0xFF102030);
    assert_eq!(theme.background_color, 0xFFF0E0D0);
    assert_eq!(theme.highlight_color, 0xFFABCDEF);
}

#[test]
fn english_mode_and_system_chords_are_never_taken() {
    assert!(!intercept_on_test_key_down(false, false, Some(InputEvent::Char('a')), true));
    assert!(!intercept_on_test_key_down(true, true, Some(InputEvent::Char('a')), true));
    assert!(intercept_on_test_key_down(true, false, Some(InputEvent::Char('a')), true));
    assert!(!intercept_on_test_key_down(true, false, Some(InputEvent::Space), true));
}

#[test]
fn key_down_feeds_only_taken_keys() {
    assert_eq!(key_down_event(false, Some(InputEvent::Char('a')), true), Some(InputEvent::Char('a')));
    assert_eq!(key_down_event(true, Some(InputEvent::Char('a')), true), None);
    assert_eq!(key_down_event(false, Some(InputEvent::Enter), true), None);
    assert_eq!(key_down_event(false, Some(InputEvent::Enter), false), Some(InputEvent::Enter));
    assert_eq!(key_down_event(false, None, false), None);
}
