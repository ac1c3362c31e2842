//! The platform-independent parts of the Windows front end: the data the
//! candidate window shows, where the window goes on screen, and the small
//! decisions of the text service (which keys to take, what the language
//! bar says, which edit a transition asks for, when Shift alone toggles
//! the input mode, which event a key stands for).
use crate::config::{Config, Hotkey};
use crate::state_machine::{Action, InputEvent, Transition};
use crate::text::{chars_eq, chars_of, decimal_digits, format_usize, push_chars, string_from_chars};
use vstd::prelude::*;

verus! {

// ───────────────────────── candidate window data ─────────────────────────

/// Screen position of the caret's lower-left corner.
#[derive(Debug, Clone, Copy)]
pub struct ScreenPoint {
    pub x: i32,
    pub y: i32,
}

impl Default for ScreenPoint {
    fn default() -> (r: Self)
        ensures
            r.x == 0 && r.y == 0,
    {
        ScreenPoint { x: 0, y: 0 }
    }
}

/// Colours and font size of the candidate window.
#[derive(Debug, Clone, Copy)]
pub struct ThemeSnapshot {
    pub font_size: u16,
    pub primary_color: u32,
    pub background_color: u32,
    pub highlight_color: u32,
}

impl Default for ThemeSnapshot {
    fn default() -> (r: Self)
        ensures
            r.font_size == 14,
            r.primary_color == 0xFF1E88E5,
            r.background_color == 0xFFFFFFFF,
            r.highlight_color == 0xFFFFD54F,
    {
        ThemeSnapshot {
            font_size: 14,
            primary_color: 0xFF1E88E5,
            background_color: 0xFFFFFFFF,
            highlight_color: 0xFFFFD54F,
        }
    }
}

impl ThemeSnapshot {
    /// The theme of a configuration's appearance settings.
    pub fn from_config(cfg: &Config) -> (r: Self)
        ensures
            r.font_size == cfg.appearance.font_size,
            r.primary_color == cfg.appearance.primary_color,
            r.background_color == cfg.appearance.background_color,
            r.highlight_color == cfg.appearance.highlight_color,
    {
        ThemeSnapshot {
            font_size: cfg.appearance.font_size,
            primary_color: cfg.appearance.primary_color,
            background_color: cfg.appearance.background_color,
            highlight_color: cfg.appearance.highlight_color,
        }
    }
}

/// One candidate as shown.
#[derive(Debug, Clone)]
pub struct CandidateItem {
    /// Label such as `"1."`.
    pub label: String,
    /// The candidate word.
    pub text: String,
    /// Extra text shown after the word.
    pub hint: String,
}

/// What the candidate window shows.
#[derive(Debug, Clone)]
pub struct CandidateData {
    pub visible: bool,
    /// The spelling being typed.
    pub spelling: String,
    /// The candidates of the current page.
    pub items: Vec<CandidateItem>,
    /// Highlighted item (0-based).
    pub highlighted: usize,
    /// Current page (0-based).
    pub page: usize,
    pub total_pages: usize,
    /// Caret position, when known.
    pub anchor: Option<ScreenPoint>,
    pub theme: ThemeSnapshot,
}

impl Default for CandidateData {
    fn default() -> (r: Self)
        ensures
            !r.visible,
            r.spelling@.len() == 0,
            r.items@.len() == 0,
            r.highlighted == 0 && r.page == 0 && r.total_pages == 0,
            r.anchor is None,
            r.theme.font_size == 14,
            r.theme.primary_color == 0xFF1E88E5,
            r.theme.background_color == 0xFFFFFFFF,
            r.theme.highlight_color == 0xFFFFD54F,
    {
        CandidateData::hidden(ThemeSnapshot::default())
    }
}

impl CandidateData {
    /// Nothing shown; the theme is kept.
    pub fn hidden(theme: ThemeSnapshot) -> (r: Self)
        ensures
            !r.visible,
            r.spelling@.len() == 0,
            r.items@.len() == 0,
            r.highlighted == 0 && r.page == 0 && r.total_pages == 0,
            r.anchor is None,
            r.theme == theme,
    {
        CandidateData {
            visible: false,
            spelling: String::new(),
            items: Vec::new(),
            highlighted: 0,
            page: 0,
            total_pages: 0,
            anchor: None,
            theme,
        }
    }

    /// A shown window with these contents.
    pub fn visible(
        spelling: String,
        items: Vec<CandidateItem>,
        highlighted: usize,
        page: usize,
        total_pages: usize,
        anchor: Option<ScreenPoint>,
        theme: ThemeSnapshot,
    ) -> (r: Self)
        ensures
            r.visible,
            r.spelling == spelling,
            r.items == items,
            r.highlighted == highlighted,
            r.page == page,
            r.total_pages == total_pages,
            r.anchor == anchor,
            r.theme == theme,
    {
        CandidateData { visible: true, spelling, items, highlighted, page, total_pages, anchor, theme }
    }
}

/// The window after a spelling change without candidates: shown while the
/// spelling is not empty, no items, first page, the new anchor if given
/// (else the old one).
pub fn build_spelling_only_candidate_data(
    current: CandidateData,
    spelling: String,
    anchor: Option<ScreenPoint>,
) -> (r: CandidateData)
    ensures
        r.visible == (spelling@.len() > 0),
        r.spelling == spelling,
        r.items@.len() == 0,
        r.highlighted == 0 && r.page == 0 && r.total_pages == 0,
        r.anchor == (if anchor is Some {
            anchor
        } else {
            current.anchor
        }),
        r.theme == current.theme,
{
    let visible = !spelling.as_str().is_empty();
    let anchor = match anchor {
        Some(a) => Some(a),
        None => current.anchor,
    };
    CandidateData {
        visible,
        spelling,
        items: Vec::new(),
        highlighted: 0,
        page: 0,
        total_pages: 0,
        anchor,
        theme: current.theme,
    }
}

/// The window with a more precise anchor, when one is given.
pub fn update_candidate_anchor(current: CandidateData, anchor: Option<ScreenPoint>) -> (r: CandidateData)
    ensures
        r.anchor == (if anchor is Some {
            anchor
        } else {
            current.anchor
        }),
        r.visible == current.visible,
        r.spelling == current.spelling,
        r.items == current.items,
        r.highlighted == current.highlighted,
        r.page == current.page,
        r.total_pages == current.total_pages,
        r.theme == current.theme,
{
    let mut current = current;
    if let Some(a) = anchor {
        current.anchor = Some(a);
    }
    current
}

/// The label of the candidate at `index` (0-based): its 1-based number,
/// a dot and a space.
pub open spec fn candidate_label(index: int) -> Seq<char> {
    decimal_digits((index + 1) as nat) + ". "@
}

/// The shown items for a page of candidate words, numbered from 1.
pub fn candidate_items(candidates: &[String]) -> (r: Vec<CandidateItem>)
    ensures
        r@.len() == candidates@.len(),
        forall|i: int|
            0 <= i < r@.len() ==> #[trigger] r@[i].label@ == candidate_label(i) && r@[i].text@
                == candidates@[i]@ && r@[i].hint@.len() == 0,
{
    let mut items: Vec<CandidateItem> = Vec::new();
    let mut i: usize = 0;
    while i < candidates.len()
        invariant
            i <= candidates@.len(),
            items@.len() == i,
            forall|k: int|
                0 <= k < i ==> #[trigger] items@[k].label@ == candidate_label(k) && items@[k].text@
                    == candidates@[k]@ && items@[k].hint@.len() == 0,
        decreases candidates@.len() - i,
    {
        let number = i + 1;
        let mut label = string_from_chars(format_usize(number).as_slice());
        push_chars(&mut label, chars_of(". ").as_slice());
        let text = string_from_chars(chars_of(candidates[i].as_str()).as_slice());
        items.push(CandidateItem { label, text, hint: String::new() });
        i += 1;
    }
    items
}

/// The hidden window with this theme: nothing shown, empty spelling, no
/// items, highlight, page and page count 0, no anchor.
pub open spec fn is_hidden(r: CandidateData, theme: ThemeSnapshot) -> bool {
    &&& !r.visible
    &&& r.spelling@.len() == 0
    &&& r.items@.len() == 0
    &&& r.highlighted == 0 && r.page == 0 && r.total_pages == 0
    &&& r.anchor is None
    &&& r.theme == theme
}

/// What the candidate window shows after a transition, given the window
/// before it, the theme and the caret position found for it: unchanged
/// on nothing; a shown page of numbered candidates (first highlighted)
/// for candidates with a spelling; the spelling alone for a spelling
/// update (see [`build_spelling_only_candidate_data`]); hidden otherwise.
pub fn next_candidate_data(
    t: &Transition,
    current: CandidateData,
    theme: ThemeSnapshot,
    anchor: Option<ScreenPoint>,
) -> (r: CandidateData)
    ensures
        match *t {
            Transition::Nothing => r == current,
            Transition::Candidates { spelling, candidates, page, total_pages } => if spelling@.len() > 0 {
                &&& r.visible
                &&& r.spelling@ == spelling@
                &&& r.items@.len() == candidates@.len()
                &&& forall|i: int|
                    0 <= i < candidates@.len() ==> #[trigger] r.items@[i].label@ == candidate_label(i)
                        && r.items@[i].text@ == candidates@[i]@
                &&& r.highlighted == 0 && r.page == page && r.total_pages == total_pages
                &&& r.anchor == anchor
                &&& r.theme == theme
            } else {
                is_hidden(r, theme)
            },
            Transition::SpellingUpdated(s) => {
                &&& r.visible == (s@.len() > 0)
                &&& r.spelling@ == s@
                &&& r.items@.len() == 0
                &&& r.highlighted == 0 && r.page == 0 && r.total_pages == 0
                &&& r.anchor == (if anchor is Some {
                    anchor
                } else {
                    current.anchor
                })
                &&& r.theme == current.theme
            },
            _ => is_hidden(r, theme),
        },
{
    match t {
        Transition::Nothing => current,
        Transition::Candidates { spelling, candidates, page, total_pages } => {
            if spelling.as_str().is_empty() {
                CandidateData::hidden(theme)
            } else {
                let items = candidate_items(candidates.as_slice());
                let sp = string_from_chars(chars_of(spelling.as_str()).as_slice());
                CandidateData::visible(sp, items, 0, *page, *total_pages, anchor, theme)
            }
        },
        Transition::SpellingUpdated(s) => {
            let sp = string_from_chars(chars_of(s.as_str()).as_slice());
            build_spelling_only_candidate_data(current, sp, anchor)
        },
        _ => CandidateData::hidden(theme),
    }
}

/// Whether the text service keeps the key that caused a transition: every
/// transition but a pass-through.
pub fn transition_consumes_key(t: &Transition) -> (r: bool)
    ensures
        r == !(t is Passthrough),
{
    match t {
        Transition::Passthrough(_) => false,
        _ => true,
    }
}

// ───────────────────────── window placement ─────────────────────────

/// Gap kept between the window and the monitor's edges, in pixels.
pub const EDGE_PADDING: i32 = 8;

/// Division rounding toward zero (Rust's integer `/`), for `b > 0`.
pub open spec fn trunc_div(a: int, b: int) -> int {
    if a >= 0 {
        a / b
    } else {
        -((-a) / b)
    }
}

/// Pixels for `pt` points at `dpi` dots per inch, rounded half up.
pub open spec fn pt_to_px_spec(pt: int, dpi: int) -> int {
    trunc_div(pt * dpi + 36, 72)
}

/// Points to pixels at a given DPI.
pub fn pt_to_px_for_dpi(pt: u16, dpi: i32) -> (r: i32)
    requires
        i32::MIN <= pt * dpi + 36 <= i32::MAX,
    ensures
        r == pt_to_px_spec(pt as int, dpi as int),
{
    let n: i64 = (pt as i64) * (dpi as i64) + 36;
    let q: i64 = if n >= 0 {
        n / 72
    } else {
        -((-n) / 72)
    };
    q as i32
}

/// Where the window's top-left corner goes: at the anchor, or above it
/// (by the window's height) when the anchor is below two thirds of the
/// monitor; then moved inside the monitor less [`EDGE_PADDING`], the
/// bottom and right edges first, the top and left edges last.
pub open spec fn window_origin(
    ax: int,
    ay: int,
    w: int,
    h: int,
    left: int,
    top: int,
    right: int,
    bottom: int,
) -> (int, int) {
    let y0 = if ay > trunc_div(top + bottom * 2, 3) {
        ay - h
    } else {
        ay
    };
    let y1 = if y0 + h > bottom - 8 {
        bottom - h - 8
    } else {
        y0
    };
    let y = if y1 < top + 8 {
        top + 8
    } else {
        y1
    };
    let x1 = if ax + w > right - 8 {
        right - w - 8
    } else {
        ax
    };
    let x = if x1 < left + 8 {
        left + 8
    } else {
        x1
    };
    (x, y)
}

/// When the window fits on the monitor with the padding on every side,
/// its placement keeps it inside the monitor, padding included.
pub proof fn lemma_window_inside_monitor(
    ax: int,
    ay: int,
    w: int,
    h: int,
    left: int,
    top: int,
    right: int,
    bottom: int,
)
    requires
        left + 8 + w <= right - 8,
        top + 8 + h <= bottom - 8,
    ensures
        ({
            let (x, y) = window_origin(ax, ay, w, h, left, top, right, bottom);
            &&& left + 8 <= x && x + w <= right - 8
            &&& top + 8 <= y && y + h <= bottom - 8
        }),
{
}

/// Whether an integer fits in an `i32`.
pub open spec fn fits_i32(v: int) -> bool {
    i32::MIN <= v <= i32::MAX
}

/// Top-left corner of the candidate window (see [`window_origin`]).
pub fn compute_window_rect(
    anchor: ScreenPoint,
    window_size: (i32, i32),
    monitor_rect: (i32, i32, i32, i32),
) -> (r: (i32, i32))
    requires
        fits_i32(monitor_rect.3 * 2),
        fits_i32(monitor_rect.1 + monitor_rect.3 * 2),
        fits_i32(monitor_rect.3 - window_size.1),
        fits_i32(monitor_rect.2 - window_size.0),
        fits_i32(anchor.y - window_size.1),
        fits_i32(anchor.y + window_size.1),
        fits_i32(monitor_rect.3 - window_size.1 - 8),
        fits_i32(monitor_rect.3 - 8),
        fits_i32(monitor_rect.1 + 8),
        fits_i32(anchor.x + window_size.0),
        fits_i32(monitor_rect.2 - window_size.0 - 8),
        fits_i32(monitor_rect.2 - 8),
        fits_i32(monitor_rect.0 + 8),
    ensures
        (r.0 as int, r.1 as int) == window_origin(
            anchor.x as int,
            anchor.y as int,
            window_size.0 as int,
            window_size.1 as int,
            monitor_rect.0 as int,
            monitor_rect.1 as int,
            monitor_rect.2 as int,
            monitor_rect.3 as int,
        ),
{
    let (win_w, win_h) = window_size;
    let (mon_left, mon_top, mon_right, mon_bottom) = monitor_rect;
    let mut x = anchor.x;
    let mut y = anchor.y;
    let sum = mon_top + mon_bottom * 2;
    let flip_threshold = if sum >= 0 {
        sum / 3
    } else {
        -((-(sum as i64)) / 3) as i32
    };
    if anchor.y > flip_threshold {
        y = anchor.y - win_h;
    }
    if y + win_h > mon_bottom - EDGE_PADDING {
        y = mon_bottom - win_h - EDGE_PADDING;
    }
    if y < mon_top + EDGE_PADDING {
        y = mon_top + EDGE_PADDING;
    }
    if x + win_w > mon_right - EDGE_PADDING {
        x = mon_right - win_w - EDGE_PADDING;
    }
    if x < mon_left + EDGE_PADDING {
        x = mon_left + EDGE_PADDING;
    }
    (x, y)
}

// ───────────────────────── text service decisions ─────────────────────────

/// Whether the text service takes a key in its key test: a code key
/// always; any other mapped key only while a spelling is buffered;
/// an unmapped key never.
pub fn should_intercept_test_key(event: Option<InputEvent>, spelling_empty: bool) -> (r: bool)
    ensures
        r == match event {
            Some(InputEvent::Char(_)) => true,
            Some(_) => !spelling_empty,
            None => false,
        },
{
    match event {
        Some(InputEvent::Char(_)) => true,
        Some(_) => !spelling_empty,
        None => false,
    }
}

/// Whether the key test takes a key: never in English mode or while
/// Ctrl, Alt or Win is held; otherwise as [`should_intercept_test_key`].
pub fn intercept_on_test_key_down(
    chinese_mode: bool,
    system_modifier: bool,
    event: Option<InputEvent>,
    spelling_empty: bool,
) -> (r: bool)
    ensures
        r == (chinese_mode && !system_modifier && match event {
            Some(InputEvent::Char(_)) => true,
            Some(_) => !spelling_empty,
            None => false,
        }),
{
    if !chinese_mode || system_modifier {
        return false;
    }
    should_intercept_test_key(event, spelling_empty)
}

/// The event a key press feeds to the state machine: none while Ctrl, Alt
/// or Win is held, for an unmapped key, or for a key the key test would
/// not take.
pub fn key_down_event(system_modifier: bool, event: Option<InputEvent>, spelling_empty: bool) -> (r: Option<
    InputEvent,
>)
    ensures
        r == (if !system_modifier && match event {
            Some(InputEvent::Char(_)) => true,
            Some(_) => !spelling_empty,
            None => false,
        } {
            event
        } else {
            None
        }),
{
    if system_modifier {
        return None;
    }
    match event {
        Some(e) => {
            let take = match e {
                InputEvent::Char(_) => true,
                _ => !spelling_empty,
            };
            if take {
                Some(e)
            } else {
                None
            }
        },
        None => None,
    }
}

/// Language bar text (icon text, tooltip) for the input mode.
pub fn lang_bar_display(chinese: bool) -> (r: (&'static str, &'static str))
    ensures
        chinese ==> r.0@ == "中"@ && r.1@ == "中文模式"@,
        !chinese ==> r.0@ == "英"@ && r.1@ == "英文模式"@,
{
    if chinese {
        ("中", "中文模式")
    } else {
        ("英", "英文模式")
    }
}

/// The UTF-16 code units of one character.
pub open spec fn utf16_units(c: char) -> Seq<u16> {
    let v = c as u32;
    if v < 0x10000 {
        seq![v as u16]
    } else {
        seq![(0xD800 + (v - 0x10000) / 0x400) as u16, (0xDC00 + (v - 0x10000) % 0x400) as u16]
    }
}

/// The UTF-16 encoding of a text.
pub open spec fn utf16(s: Seq<char>) -> Seq<u16>
    decreases s.len(),
{
    if s.len() == 0 {
        Seq::empty()
    } else {
        utf16(s.drop_last()) + utf16_units(s.last())
    }
}

fn utf16_of(text: &str) -> (r: Vec<u16>)
    ensures
        r@ == utf16(text@),
{
    let cs = chars_of(text);
    let mut out: Vec<u16> = Vec::new();
    let mut i: usize = 0;
    while i < cs.len()
        invariant
            i <= cs@.len(),
            cs@ == text@,
            out@ == utf16(cs@.take(i as int)),
        decreases cs@.len() - i,
    {
        let c = cs[i];
        let v = c as u32;
        proof {
            assert(cs@.take(i + 1).drop_last() =~= cs@.take(i as int));
            assert(cs@.take(i + 1).last() == c);
        }
        let ghost before = out@;
        if v < 0x10000 {
            out.push(v as u16);
        } else {
            out.push((0xD800 + (v - 0x10000) / 0x400) as u16);
            out.push((0xDC00 + (v - 0x10000) % 0x400) as u16);
        }
        proof {
            assert(out@ =~= before + utf16_units(c));
        }
        i += 1;
    }
    proof {
        assert(cs@.take(cs@.len() as int) =~= cs@);
    }
    out
}

/// `text` in UTF-16 in a fixed buffer of `N` units: as many units as fit
/// before the last slot, the rest zero (so the buffer always ends with
/// a NUL).
pub fn fixed_utf16<const N: usize>(text: &str) -> (r: [u16; N])
    ensures
        N > 0 ==> r@[N - 1] == 0u16,
        forall|i: int|
            0 <= i < N ==> #[trigger] r@[i] == if i < N - 1 && i < utf16(text@).len() {
                utf16(text@)[i]
            } else {
                0u16
            },
{
    let units = utf16_of(text);
    let mut output: [u16; N] = [0u16; N];
    let mut i: usize = 0;
    while i < units.len() && i + 1 < N
        invariant
            i <= units@.len(),
            i < N || N == 0,
            units@ == utf16(text@),
            forall|k: int| 0 <= k < i ==> #[trigger] output@[k] == units@[k],
            forall|k: int| i <= k < N ==> #[trigger] output@[k] == 0u16,
        decreases units@.len() - i,
    {
        output[i] = units[i];
        i += 1;
    }
    output
}

/// Display attribute of composition text.
#[derive(Debug, Clone, Copy, PartialEq, Eq, Structural)]
pub enum DisplayAttrKind {
    /// Spelling still being typed.
    Input,
    /// Spelling with candidates shown.
    Converted,
}

/// An edit of the document that a transition asks for.
#[derive(Debug, Clone, PartialEq, Eq)]
pub enum EditSessionOp {
    /// Set the composition text.
    CompositionUpdate { spelling: String, attr: DisplayAttrKind },
    /// Replace the composition with the final text and end it.
    CommitAndReplace { text: String },
    /// End the composition, deleting its text or keeping it.
    EndComposition { delete_text: bool },
    /// Nothing.
    NoOp,
}

/// The meaning of an [`EditSessionOp`].
pub enum EditOp {
    CompositionUpdate(Seq<char>, DisplayAttrKind),
    CommitAndReplace(Seq<char>),
    EndComposition(bool),
    NoOp,
}

impl View for EditSessionOp {
    type V = EditOp;

    open spec fn view(&self) -> EditOp {
        match self {
            EditSessionOp::CompositionUpdate { spelling, attr } => EditOp::CompositionUpdate(spelling@, *attr),
            EditSessionOp::CommitAndReplace { text } => EditOp::CommitAndReplace(text@),
            EditSessionOp::EndComposition { delete_text } => EditOp::EndComposition(*delete_text),
            EditSessionOp::NoOp => EditOp::NoOp,
        }
    }
}

/// The edit for an action: commit replaces the composition; a non-empty
/// spelling updates it (converted when candidates are shown); clearing
/// ends it and deletes its text; anything else edits nothing.
pub open spec fn edit_for(a: Action) -> EditOp {
    match a {
        Action::Commit(t) => EditOp::CommitAndReplace(t),
        Action::Candidates { spelling, .. } => if spelling.len() > 0 {
            EditOp::CompositionUpdate(spelling, DisplayAttrKind::Converted)
        } else {
            EditOp::NoOp
        },
        Action::SpellingUpdated(s) => if s.len() > 0 {
            EditOp::CompositionUpdate(s, DisplayAttrKind::Input)
        } else {
            EditOp::NoOp
        },
        Action::Cleared => EditOp::EndComposition(true),
        _ => EditOp::NoOp,
    }
}

/// The edit a transition asks for (see [`edit_for`]).
pub fn transition_to_edit_session_op(transition: &Transition) -> (r: EditSessionOp)
    ensures
        r@ == edit_for(transition@),
{
    match transition {
        Transition::Nothing => EditSessionOp::NoOp,
        Transition::Commit(text) => EditSessionOp::CommitAndReplace { text: text.clone() },
        Transition::Candidates { spelling, .. } => {
            if !spelling.as_str().is_empty() {
                EditSessionOp::CompositionUpdate { spelling: spelling.clone(), attr: DisplayAttrKind::Converted }
            } else {
                EditSessionOp::NoOp
            }
        },
        Transition::SpellingUpdated(spelling) => {
            if !spelling.as_str().is_empty() {
                EditSessionOp::CompositionUpdate { spelling: spelling.clone(), attr: DisplayAttrKind::Input }
            } else {
                EditSessionOp::NoOp
            }
        },
        Transition::Cleared => EditSessionOp::EndComposition { delete_text: true },
        Transition::Passthrough(_) => EditSessionOp::NoOp,
    }
}

/// Virtual-key codes of Shift, left Shift and right Shift.
pub const VK_SHIFT: u16 = 0x10;
pub const VK_LSHIFT: u16 = 0xA0;
pub const VK_RSHIFT: u16 = 0xA1;

/// Whether `vk` is one of the Shift keys.
pub fn is_shift_vk(vk: u16) -> (r: bool)
    ensures
        r == (vk == VK_SHIFT || vk == VK_LSHIFT || vk == VK_RSHIFT),
{
    vk == VK_SHIFT || vk == VK_LSHIFT || vk == VK_RSHIFT
}

/// Tells whether a released Shift was pressed alone (which toggles the
/// input mode) or together with another key.
#[derive(Debug, Default, Clone, Copy, PartialEq, Eq)]
pub struct ShiftKeyToggleTracker {
    pub used_with_other_key: bool,
}

impl ShiftKeyToggleTracker {
    /// A key went down: Shift starts a fresh press; another key while
    /// Shift is held marks the press as a combination.
    pub fn on_key_down(&mut self, vk: u16, shift_pressed: bool)
        ensures
            final(self).used_with_other_key == if vk == VK_SHIFT || vk == VK_LSHIFT || vk == VK_RSHIFT {
                false
            } else if shift_pressed {
                true
            } else {
                old(self).used_with_other_key
            },
    {
        if is_shift_vk(vk) {
            self.used_with_other_key = false;
        } else if shift_pressed {
            self.used_with_other_key = true;
        }
    }

    /// Shift was released: whether it toggles the mode (it was pressed
    /// alone); the tracker starts over.
    pub fn consume_preserved_key(&mut self) -> (r: bool)
        ensures
            r == !old(self).used_with_other_key,
            !final(self).used_with_other_key,
    {
        let should_toggle = !self.used_with_other_key;
        self.used_with_other_key = false;
        should_toggle
    }
}

// ───────────────────────── key mapping ─────────────────────────

/// Windows virtual-key codes of the keys the input method maps.
pub const VK_BACK: u16 = 0x08;
pub const VK_RETURN: u16 = 0x0D;
pub const VK_ESCAPE: u16 = 0x1B;
pub const VK_SPACE: u16 = 0x20;
pub const VK_PRIOR: u16 = 0x21;
pub const VK_NEXT: u16 = 0x22;
pub const VK_LEFT: u16 = 0x25;
pub const VK_RIGHT: u16 = 0x27;
pub const VK_OEM_1: u16 = 0xBA;
pub const VK_OEM_PLUS: u16 = 0xBB;
pub const VK_OEM_COMMA: u16 = 0xBC;
pub const VK_OEM_MINUS: u16 = 0xBD;
pub const VK_OEM_PERIOD: u16 = 0xBE;
pub const VK_OEM_7: u16 = 0xDE;

/// The key a hotkey name in the configuration stands for.
pub open spec fn key_name_vk(name: Seq<char>) -> Option<u16> {
    if name == "comma"@ {
        Some(VK_OEM_COMMA)
    } else if name == "period"@ {
        Some(VK_OEM_PERIOD)
    } else if name == "semicolon"@ {
        Some(VK_OEM_1)
    } else if name == "quote"@ {
        Some(VK_OEM_7)
    } else if name == "minus"@ {
        Some(VK_OEM_MINUS)
    } else if name == "equal"@ {
        Some(VK_OEM_PLUS)
    } else if name == "space"@ {
        Some(VK_SPACE)
    } else if name == "left"@ {
        Some(VK_LEFT)
    } else if name == "right"@ {
        Some(VK_RIGHT)
    } else if name == "page_up"@ {
        Some(VK_PRIOR)
    } else if name == "page_down"@ {
        Some(VK_NEXT)
    } else {
        None
    }
}

fn name_is(k: &[char], name: &str) -> (r: bool)
    ensures
        r == (k@ == name@),
{
    chars_eq(k, chars_of(name).as_slice())
}

/// The key a hotkey name stands for (see [`key_name_vk`]).
pub fn key_name_to_vk(name: &str) -> (r: Option<u16>)
    ensures
        r == key_name_vk(name@),
{
    let c = chars_of(name);
    let k = c.as_slice();
    if name_is(k, "comma") {
        Some(VK_OEM_COMMA)
    } else if name_is(k, "period") {
        Some(VK_OEM_PERIOD)
    } else if name_is(k, "semicolon") {
        Some(VK_OEM_1)
    } else if name_is(k, "quote") {
        Some(VK_OEM_7)
    } else if name_is(k, "minus") {
        Some(VK_OEM_MINUS)
    } else if name_is(k, "equal") {
        Some(VK_OEM_PLUS)
    } else if name_is(k, "space") {
        Some(VK_SPACE)
    } else if name_is(k, "left") {
        Some(VK_LEFT)
    } else if name_is(k, "right") {
        Some(VK_RIGHT)
    } else if name_is(k, "page_up") {
        Some(VK_PRIOR)
    } else if name_is(k, "page_down") {
        Some(VK_NEXT)
    } else {
        None
    }
}

/// The event of a printable key: its Chinese punctuation as a symbol, or
/// the character itself.
pub open spec fn classify_event(c: char) -> InputEvent {
    match chinese_punctuation(c) {
        Some(p) => InputEvent::Symbol(p),
        None => InputEvent::Char(c),
    }
}

/// The full-width Chinese punctuation for an ASCII punctuation character.
pub open spec fn chinese_punctuation(c: char) -> Option<char> {
    if c == ',' {
        Some('，')
    } else if c == '.' {
        Some('。')
    } else if c == '?' {
        Some('？')
    } else if c == '!' {
        Some('！')
    } else if c == ';' {
        Some('；')
    } else if c == ':' {
        Some('：')
    } else if c == '\'' {
        Some('’')
    } else if c == '"' {
        Some('”')
    } else if c == '(' {
        Some('（')
    } else if c == ')' {
        Some('）')
    } else if c == '[' {
        Some('【')
    } else if c == ']' {
        Some('】')
    } else if c == '<' {
        Some('《')
    } else if c == '>' {
        Some('》')
    } else if c == '/' || c == '\\' {
        Some('、')
    } else {
        None
    }
}

/// The full-width Chinese punctuation for `c` (see [`chinese_punctuation`]).
pub fn ascii_to_chinese_punctuation(c: char) -> (r: Option<char>)
    ensures
        r == chinese_punctuation(c),
{
    if c == ',' {
        Some('，')
    } else if c == '.' {
        Some('。')
    } else if c == '?' {
        Some('？')
    } else if c == '!' {
        Some('！')
    } else if c == ';' {
        Some('；')
    } else if c == ':' {
        Some('：')
    } else if c == '\'' {
        Some('’')
    } else if c == '"' {
        Some('”')
    } else if c == '(' {
        Some('（')
    } else if c == ')' {
        Some('）')
    } else if c == '[' {
        Some('【')
    } else if c == ']' {
        Some('】')
    } else if c == '<' {
        Some('《')
    } else if c == '>' {
        Some('》')
    } else if c == '/' || c == '\\' {
        Some('、')
    } else {
        None
    }
}

/// The event of a printable character: mapped punctuation becomes the
/// Chinese symbol, anything else a code key.
pub fn classify_printable_char(c: char, shift_pressed: bool) -> (r: InputEvent)
    ensures
        r == classify_event(c),
{
    match ascii_to_chinese_punctuation(c) {
        Some(p) => InputEvent::Symbol(p),
        None => InputEvent::Char(c),
    }
}

/// The Chinese punctuation of the keyboard: each mapped key gets a symbol
/// of its own (only `/` and `\\` share the enumeration comma `、`); no
/// mapped symbol is ASCII; the keys that have a full-width form (`,` `?` `!`
/// `;` `:` `(` `)`) get exactly that form (the ASCII code plus `0xFEE0`); the
/// full stop `.` gets the ideographic full stop `。` (U+3002); and a printable
/// key becomes a symbol exactly when it has a mapping.
pub proof fn lemma_chinese_punctuation(a: char, b: char)
    ensures
        chinese_punctuation(a) is Some && chinese_punctuation(a) == chinese_punctuation(b) ==> a == b
            || ((a == '/' || a == '\\') && (b == '/' || b == '\\')),
        chinese_punctuation(a) matches Some(p) ==> p as u32 > 0x7f,
        (a == ',' || a == '?' || a == '!' || a == ';' || a == ':' || a == '(' || a == ')') ==> (chinese_punctuation(
            a,
        ) matches Some(p) && p as u32 == a as u32 + 0xFEE0),
        a == '.' ==> (chinese_punctuation(a) matches Some(p) && p as u32 == 0x3002),
        chinese_punctuation(a) is None ==> classify_event(a) == InputEvent::Char(a),
        chinese_punctuation(a) matches Some(p) ==> classify_event(a) == InputEvent::Symbol(p),
{
}

/// Whether the hotkey named `name` is the key `vk`.
pub open spec fn is_hotkey(name: Seq<char>, vk: u16) -> bool {
    key_name_vk(name) == Some(vk)
}

/// The event of a key that needs no keyboard layout: while candidates are
/// shown and Shift is up, the quick-select keys (second, third) and then
/// the page keys (next before previous); then Space, Enter, Backspace and
/// Esc.  `None` means the key's character decides (see
/// [`classify_printable_char`]).
pub open spec fn function_key_event(vk: u16, shift_pressed: bool, is_selecting: bool, h: Hotkey) -> Option<InputEvent> {
    let active = !shift_pressed && is_selecting;
    if active && is_hotkey(h.select_second@, vk) {
        Some(InputEvent::Select(2))
    } else if active && is_hotkey(h.select_third@, vk) {
        Some(InputEvent::Select(3))
    } else if active && is_hotkey(h.page_next@, vk) {
        Some(InputEvent::PageNext)
    } else if active && is_hotkey(h.page_prev@, vk) {
        Some(InputEvent::PagePrev)
    } else if vk == VK_SPACE {
        Some(InputEvent::Space)
    } else if vk == VK_RETURN {
        Some(InputEvent::Enter)
    } else if vk == VK_BACK {
        Some(InputEvent::Backspace)
    } else if vk == VK_ESCAPE {
        Some(InputEvent::Esc)
    } else {
        None
    }
}

fn hotkey_is(name: &String, vk: u16) -> (r: bool)
    ensures
        r == is_hotkey(name@, vk),
{
    match key_name_to_vk(name.as_str()) {
        Some(v) => v == vk,
        None => false,
    }
}

/// The event of a key that needs no keyboard layout (see
/// [`function_key_event`]).
pub fn translate_function_key(vk: u16, shift_pressed: bool, is_selecting: bool, hotkey: &Hotkey) -> (r: Option<InputEvent>)
    ensures
        r == function_key_event(vk, shift_pressed, is_selecting, *hotkey),
{
    let active = !shift_pressed && is_selecting;
    if active && hotkey_is(&hotkey.select_second, vk) {
        return Some(InputEvent::Select(2));
    }
    if active && hotkey_is(&hotkey.select_third, vk) {
        return Some(InputEvent::Select(3));
    }
    if active && hotkey_is(&hotkey.page_next, vk) {
        return Some(InputEvent::PageNext);
    }
    if active && hotkey_is(&hotkey.page_prev, vk) {
        return Some(InputEvent::PagePrev);
    }
    if vk == VK_SPACE {
        Some(InputEvent::Space)
    } else if vk == VK_RETURN {
        Some(InputEvent::Enter)
    } else if vk == VK_BACK {
        Some(InputEvent::Backspace)
    } else if vk == VK_ESCAPE {
        Some(InputEvent::Esc)
    } else {
        None
    }
}

// ───────────────────────── rendering helpers ─────────────────────────

/// A source of font file bytes for the candidate window.
pub trait FontProvider {
    /// The raw bytes of a font file (such as a `.ttf` file).
    fn font_data(&self) -> &[u8];
}

/// Font bytes built into the program.
pub struct EmbeddedFontProvider {
    data: &'static [u8],
}

impl EmbeddedFontProvider {
    /// The bytes it provides.
    pub closed spec fn spec_data(&self) -> Seq<u8> {
        self.data@
    }

    /// A provider of `data`.
    pub fn new(data: &'static [u8]) -> (r: Self)
        ensures
            r.spec_data() == data@,
    {
        EmbeddedFontProvider { data }
    }
}

impl FontProvider for EmbeddedFontProvider {
    fn font_data(&self) -> (r: &[u8])
        ensures
            r@ == self.spec_data(),
    {
        self.data
    }
}

/// Errors of drawing the candidate window.
#[derive(Debug)]
pub enum RenderError {
    /// Setting up the renderer failed.
    Init(String),
    /// Drawing failed.
    Render(String),
    /// No software-rendered window is available.
    NoWindow,
}

/// The (red, green, blue, alpha) bytes of an `0xAARRGGBB` colour.
pub fn unpack_argb(color: u32) -> (r: (u8, u8, u8, u8))
    ensures
        r.0 == (color / 0x10000) % 0x100,
        r.1 == (color / 0x100) % 0x100,
        r.2 == color % 0x100,
        r.3 == color / 0x1000000,
{
    let a = ((color >> 24) & 0xFF) as u8;
    let r = ((color >> 16) & 0xFF) as u8;
    let g = ((color >> 8) & 0xFF) as u8;
    let b = (color & 0xFF) as u8;
    assert(((color >> 24) & 0xFF) == color / 0x1000000) by (bit_vector);
    assert(((color >> 16) & 0xFF) == (color / 0x10000) % 0x100) by (bit_vector);
    assert(((color >> 8) & 0xFF) == (color / 0x100) % 0x100) by (bit_vector);
    assert((color & 0xFF) == color % 0x100) by (bit_vector);
    (r, g, b, a)
}

/// The GDI `COLORREF` value (`0x00BBGGRR`: red in the low byte) of an
/// `0xAARRGGBB` colour.
pub fn argb_to_colorref(color: u32) -> (r: u32)
    ensures
        r == (color % 0x100) * 0x10000 + ((color / 0x100) % 0x100) * 0x100 + (color / 0x10000) % 0x100,
{
    let (r, g, b, _) = unpack_argb(color);
    let (r32, g32, b32) = (r as u32, g as u32, b as u32);
    let v = r32 | (g32 << 8) | (b32 << 16);
    assert(v == r32 + g32 * 0x100 + b32 * 0x10000) by (bit_vector)
        requires
            v == r32 | (g32 << 8) | (b32 << 16),
            r32 < 0x100,
            g32 < 0x100,
            b32 < 0x100,
    ;
    v
}

/// Sets the alpha byte (the fourth of every whole group of four bytes) of
/// an RGBA pixel buffer; a trailing partial group is left alone.
pub fn fill_alpha_channel(pixels: &mut [u8], alpha: u8)
    ensures
        final(pixels)@.len() == old(pixels)@.len(),
        forall|i: int|
            0 <= i < old(pixels)@.len() ==> #[trigger] final(pixels)@[i] == if i % 4 == 3 && i < old(
                pixels,
            )@.len() / 4 * 4 {
                alpha
            } else {
                old(pixels)@[i]
            },
{
    let len = pixels.len();
    let n = len / 4;
    let mut k: usize = 0;
    while k < n
        invariant
            len == old(pixels)@.len(),
            n == len / 4,
            k <= n,
            pixels@.len() == old(pixels)@.len(),
            forall|i: int|
                0 <= i < old(pixels)@.len() ==> #[trigger] pixels@[i] == if i % 4 == 3 && i < k * 4 {
                    alpha
                } else {
                    old(pixels)@[i]
                },
        decreases n - k,
    {
        assert(4 * k + 3 < len) by (nonlinear_arith)
            requires
                k < n,
                n == len / 4,
        ;
        let idx = 4 * k + 3;
        pixels[idx] = alpha;
        k += 1;
    }
}

} // verus!
