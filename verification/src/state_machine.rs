//! The input state machine: it takes key events, keeps the spelling
//! buffer and the visible candidate page, and answers with the action the
//! front end must carry out (commit text, show candidates, clear, pass the
//! key on).
use crate::config::PunctuationMode;
use crate::dictionary::{deref_all, search_result, wildcard_result, Dictionary, Entry, SearchOptions};
use crate::sort::stable_sorted;
use crate::text::{min_nat, utf8_len, utf8_len_at_most, chars_eq, chars_of, copy_string, push_chars, slice_to_vec, string_from_chars, string_pop, string_push};
use vstd::prelude::*;

verus! {

/// Phase of input.
#[derive(Debug, Clone, Copy, PartialEq, Eq, Structural)]
pub enum InputState {
    /// Nothing buffered.
    Idle,
    /// Code keys buffered, no candidate shown.
    Composing,
    /// Candidates shown.
    Selecting,
}

impl Default for InputState {
    fn default() -> (r: Self)
        ensures
            r == InputState::Idle,
    {
        InputState::Idle
    }
}

/// A key event, already translated by the front end.
#[derive(Debug, Clone, PartialEq, Eq)]
pub enum InputEvent {
    /// A letter or digit key (a code key).
    Char(char),
    /// A symbol produced by the keyboard layout; it does not join the code.
    Symbol(char),
    Space,
    Enter,
    Backspace,
    Esc,
    /// Choose the n-th visible candidate (1-based).
    Select(usize),
    PageNext,
    PagePrev,
}

/// What the front end must do after an event.
#[derive(Debug, Clone, PartialEq, Eq)]
pub enum Transition {
    /// Nothing visible.
    Nothing,
    /// Insert this text at the cursor.
    Commit(String),
    /// Show this candidate page for this spelling.
    Candidates { spelling: String, candidates: Vec<String>, page: usize, total_pages: usize },
    /// The spelling changed and there is no candidate to show.
    SpellingUpdated(String),
    /// Input was cleared.
    Cleared,
    /// Hand the key to the application.
    Passthrough(InputEvent),
}

/// The meaning of a [`Transition`].
pub enum Action {
    Nothing,
    Commit(Seq<char>),
    Candidates { spelling: Seq<char>, candidates: Seq<Seq<char>>, page: nat, total_pages: nat },
    SpellingUpdated(Seq<char>),
    Cleared,
    Passthrough(InputEvent),
}

/// The text of each string.
pub open spec fn string_views(v: Seq<String>) -> Seq<Seq<char>> {
    v.map_values(|s: String| s@)
}

impl View for Transition {
    type V = Action;

    open spec fn view(&self) -> Action {
        match self {
            Transition::Nothing => Action::Nothing,
            Transition::Commit(s) => Action::Commit(s@),
            Transition::Candidates { spelling, candidates, page, total_pages } => Action::Candidates {
                spelling: spelling@,
                candidates: string_views(candidates@),
                page: *page as nat,
                total_pages: *total_pages as nat,
            },
            Transition::SpellingUpdated(s) => Action::SpellingUpdated(s@),
            Transition::Cleared => Action::Cleared,
            Transition::Passthrough(e) => Action::Passthrough(*e),
        }
    }
}

/// The changing part of a machine.
pub struct MachineModel {
    /// Keys typed and not yet committed.
    pub spelling: Seq<char>,
    pub state: InputState,
    /// Visible candidate page (0-based).
    pub page: nat,
    /// The words on the visible page.
    pub candidates: Seq<Seq<char>>,
    /// Number of candidate words on all pages.
    pub total: nat,
}

/// The fixed part of a machine.
pub struct MachineSettings {
    /// The table's entries.
    pub dict: Seq<Entry>,
    /// Extra code characters declared by the table.
    pub charset: Seq<char>,
    /// The table's wildcard key, which stands for any one code character.
    pub wildcard: Option<char>,
    /// Candidates per page (1..=10).
    pub page_size: nat,
    pub auto_commit_unique: bool,
    pub punctuation_mode: PunctuationMode,
}

/// ASCII letters and digits.
pub open spec fn is_code_char(c: char) -> bool {
    ('a' <= c && c <= 'z') || ('A' <= c && c <= 'Z') || ('0' <= c && c <= '9')
}

/// ASCII punctuation (`char::is_ascii_punctuation`).
pub open spec fn is_ascii_punct(c: char) -> bool {
    ('!' <= c && c <= '/') || (':' <= c && c <= '@') || ('[' <= c && c <= '`') || ('{' <= c && c
        <= '~')
}

/// Characters that can be part of a code.
pub open spec fn accepts(s: MachineSettings, c: char) -> bool {
    is_code_char(c) || s.charset.contains(c)
}

/// Length of the longest prefix of `sp` made of code characters.
pub open spec fn key_len(s: MachineSettings, sp: Seq<char>) -> nat
    decreases sp.len(),
{
    if sp.len() > 0 && accepts(s, sp[0]) {
        1 + key_len(s, sp.drop_first())
    } else {
        0
    }
}

/// The part of the spelling that is looked up: everything before the first
/// character that is not a code character.
pub open spec fn lookup_key(s: MachineSettings, sp: Seq<char>) -> Seq<char> {
    sp.take(key_len(s, sp) as int)
}

/// The spelling holds buffered punctuation (a non-code character).
pub open spec fn has_punct(s: MachineSettings, sp: Seq<char>) -> bool {
    key_len(s, sp) < sp.len()
}

/// The search options the machine uses: exact codes first, no effective limit.
pub open spec fn full_search(dict: Seq<Entry>) -> SearchOptions {
    SearchOptions {
        prefer_exact: true,
        limit: if dict.len() > 1 {
            dict.len() as usize
        } else {
            1
        },
    }
}

/// The key holds the table's wildcard key.
pub open spec fn uses_wildcard(s: MachineSettings, key: Seq<char>) -> bool {
    match s.wildcard {
        Some(w) => key.contains(w),
        None => false,
    }
}

/// The ranked entries for a key: a key that holds the wildcard is matched
/// as a pattern (`Dictionary::search_wildcard`); any other key is searched
/// as a prefix (`Dictionary::search`, exact codes first, no effective
/// limit).
pub open spec fn ranked(s: MachineSettings, key: Seq<char>) -> Seq<Entry> {
    if key.len() == 0 {
        Seq::empty()
    } else if uses_wildcard(s, key) {
        wildcard_result(s.dict, key, s.wildcard->Some_0)
    } else {
        search_result(s.dict, key, full_search(s.dict))
    }
}

/// The words of `es` in order, each only at its first occurrence.
pub open spec fn distinct_words(es: Seq<Entry>) -> Seq<Seq<char>>
    decreases es.len(),
{
    if es.len() == 0 {
        Seq::empty()
    } else {
        let w = distinct_words(es.drop_last());
        if w.contains(es.last().word@) {
            w
        } else {
            w.push(es.last().word@)
        }
    }
}

/// All candidate words for a spelling.
pub open spec fn candidate_words(s: MachineSettings, sp: Seq<char>) -> Seq<Seq<char>> {
    distinct_words(ranked(s, lookup_key(s, sp)))
}

/// The words of one page.
pub open spec fn page_words(words: Seq<Seq<char>>, page: nat, page_size: nat) -> Seq<Seq<char>> {
    let start = min_nat(page * page_size, words.len());
    let end = min_nat(start + page_size, words.len());
    words.subrange(start as int, end as int)
}

/// Number of pages for `total` candidates (at least one).
pub open spec fn pages_for(total: nat, page_size: nat) -> nat {
    let p = total / page_size + if total % page_size != 0 {
        1nat
    } else {
        0nat
    };
    if p > 1 {
        p
    } else {
        1
    }
}

/// Nothing buffered.
pub open spec fn cleared() -> MachineModel {
    MachineModel {
        spelling: Seq::empty(),
        state: InputState::Idle,
        page: 0,
        candidates: Seq::empty(),
        total: 0,
    }
}

/// A spelling with no candidates.
pub open spec fn without_candidates(sp: Seq<char>, state: InputState) -> MachineModel {
    MachineModel { spelling: sp, state, page: 0, candidates: Seq::empty(), total: 0 }
}

/// A spelling with its candidates looked up again, showing `page`.
pub open spec fn refreshed(s: MachineSettings, sp: Seq<char>, page: nat, state: InputState) -> MachineModel {
    let words = candidate_words(s, sp);
    MachineModel {
        spelling: sp,
        state,
        page,
        candidates: page_words(words, page, s.page_size),
        total: words.len(),
    }
}

/// Showing the candidates of `m`.
pub open spec fn show(m: MachineModel, total_pages: nat) -> Action {
    Action::Candidates { spelling: m.spelling, candidates: m.candidates, page: m.page, total_pages }
}

pub open spec fn digit_of(c: char) -> nat {
    (c as int - '0' as int) as nat
}

pub open spec fn on_select(m: MachineModel, idx: nat) -> (MachineModel, Action) {
    if 1 <= idx <= m.candidates.len() {
        (cleared(), Action::Commit(m.candidates[idx - 1]))
    } else {
        (m, Action::Passthrough(InputEvent::Select(idx as usize)))
    }
}

/// After a code key (or a table character).
pub open spec fn on_char(s: MachineSettings, m: MachineModel, c: char) -> (MachineModel, Action) {
    let in_charset = s.charset.contains(c);
    if '1' <= c && c <= '9' && !in_charset && m.state == InputState::Selecting && !has_punct(
        s,
        m.spelling,
    ) {
        on_select(m, digit_of(c))
    } else if is_ascii_punct(c) && !in_charset {
        if s.punctuation_mode == PunctuationMode::DirectCommit {
            (m, Action::Passthrough(InputEvent::Char(c)))
        } else {
            let sp = m.spelling.push(c);
            (without_candidates(sp, InputState::Composing), Action::SpellingUpdated(sp))
        }
    } else if !is_code_char(c) && !in_charset {
        (m, Action::Passthrough(InputEvent::Char(c)))
    } else {
        let sp = m.spelling.push(c);
        if has_punct(s, sp) {
            (without_candidates(sp, InputState::Composing), Action::SpellingUpdated(sp))
        } else {
            let r = refreshed(s, sp, 0, InputState::Selecting);
            if s.auto_commit_unique && utf8_len(sp) >= 4 && r.total == 1 {
                (cleared(), Action::Commit(r.candidates[0]))
            } else if r.candidates.len() == 0 {
                (refreshed(s, sp, 0, InputState::Composing), Action::SpellingUpdated(sp))
            } else {
                (r, show(r, pages_for(r.total, s.page_size)))
            }
        }
    }
}

/// After a symbol key that is not a table character.
pub open spec fn on_symbol(m: MachineModel, c: char) -> (MachineModel, Action) {
    if m.spelling.len() == 0 {
        (m, Action::Passthrough(InputEvent::Symbol(c)))
    } else {
        (cleared(), Action::Commit(m.spelling.push(c)))
    }
}

pub open spec fn on_space(s: MachineSettings, m: MachineModel) -> (MachineModel, Action) {
    if m.spelling.len() == 0 {
        (m, Action::Passthrough(InputEvent::Space))
    } else if has_punct(s, m.spelling) {
        (cleared(), Action::Commit(m.spelling))
    } else if m.candidates.len() > 0 {
        (cleared(), Action::Commit(m.candidates[0] + m.spelling.skip(key_len(s, m.spelling) as int)))
    } else {
        (cleared(), Action::Commit(m.spelling))
    }
}

pub open spec fn on_enter(m: MachineModel) -> (MachineModel, Action) {
    if m.spelling.len() == 0 {
        (m, Action::Passthrough(InputEvent::Enter))
    } else {
        (cleared(), Action::Commit(m.spelling))
    }
}

pub open spec fn on_backspace(s: MachineSettings, m: MachineModel) -> (MachineModel, Action) {
    if m.spelling.len() == 0 {
        (m, Action::Passthrough(InputEvent::Backspace))
    } else {
        let sp = m.spelling.drop_last();
        if sp.len() == 0 {
            (cleared(), Action::Cleared)
        } else if has_punct(s, sp) {
            (without_candidates(sp, InputState::Composing), Action::SpellingUpdated(sp))
        } else {
            let r = refreshed(s, sp, 0, InputState::Selecting);
            if r.candidates.len() == 0 {
                (refreshed(s, sp, 0, InputState::Composing), Action::SpellingUpdated(sp))
            } else {
                (r, show(r, pages_for(r.total, s.page_size)))
            }
        }
    }
}

pub open spec fn on_esc(m: MachineModel) -> (MachineModel, Action) {
    if m.spelling.len() == 0 {
        (m, Action::Passthrough(InputEvent::Esc))
    } else {
        (cleared(), Action::Cleared)
    }
}

pub open spec fn on_page_next(s: MachineSettings, m: MachineModel) -> (MachineModel, Action) {
    let pages = pages_for(m.total, s.page_size);
    if m.page + 1 < pages {
        let r = refreshed(s, m.spelling, m.page + 1, m.state);
        (r, show(r, pages))
    } else {
        (m, Action::Nothing)
    }
}

pub open spec fn on_page_prev(s: MachineSettings, m: MachineModel) -> (MachineModel, Action) {
    if m.page > 0 {
        let r = refreshed(s, m.spelling, (m.page - 1) as nat, m.state);
        (r, show(r, pages_for(r.total, s.page_size)))
    } else {
        (m, Action::Nothing)
    }
}

/// One step of the machine.
pub open spec fn step(s: MachineSettings, m: MachineModel, e: InputEvent) -> (MachineModel, Action) {
    match e {
        InputEvent::Char(c) => on_char(s, m, c),
        InputEvent::Symbol(c) => if s.charset.contains(c) {
            on_char(s, m, c)
        } else {
            on_symbol(m, c)
        },
        InputEvent::Space => on_space(s, m),
        InputEvent::Enter => on_enter(m),
        InputEvent::Backspace => on_backspace(s, m),
        InputEvent::Esc => on_esc(m),
        InputEvent::Select(idx) => on_select(m, idx as nat),
        InputEvent::PageNext => on_page_next(s, m),
        InputEvent::PagePrev => on_page_prev(s, m),
    }
}

/// Default number of candidates per page.
pub const DEFAULT_PAGE_SIZE: usize = 5;

/// The fields of a machine; [`StateMachine`] keeps them in agreement
/// ([`machine_inv`]).
struct MachineCore {
    dict: std::sync::Arc<Dictionary>,
    page_size: usize,
    auto_commit_unique: bool,
    spelling: String,
    punctuation_mode: PunctuationMode,
    page: usize,
    candidates: Vec<String>,
    total_candidates: usize,
    state: InputState,
}

impl MachineCore {
    #[verifier::type_invariant]
    spec fn wf(self) -> bool {
        1 <= self.page_size <= 10
    }

    /// The fixed part of the machine.
    pub closed spec fn settings(&self) -> MachineSettings {
        MachineSettings {
            dict: self.dict@,
            charset: self.dict.spec_table_config().charset@,
            wildcard: self.dict.spec_table_config().wildcard_key,
            page_size: self.page_size as nat,
            auto_commit_unique: self.auto_commit_unique,
            punctuation_mode: self.punctuation_mode,
        }
    }

    /// The changing part of the machine.
    pub closed spec fn model(&self) -> MachineModel {
        MachineModel {
            spelling: self.spelling@,
            state: self.state,
            page: self.page as nat,
            candidates: string_views(self.candidates@),
            total: self.total_candidates as nat,
        }
    }

    /// A machine over `dict` with five candidates per page and automatic
    /// commit of unique four-key codes.
    pub fn new(dict: std::sync::Arc<Dictionary>) -> (r: Self)
        ensures
            r.model() == cleared(),
            machine_inv(r.settings(), r.model()),
            r.settings().dict == dict@,
            r.settings().charset == dict.spec_table_config().charset@,
            r.settings().wildcard == dict.spec_table_config().wildcard_key,
            r.settings().page_size == 5,
            r.settings().auto_commit_unique,
            r.settings().punctuation_mode == PunctuationMode::BufferedCommit,
    {
        Self::with_options(dict, DEFAULT_PAGE_SIZE, true)
    }

    /// A machine with a page size (clamped to 1..=10) and auto-commit choice.
    pub fn with_options(dict: std::sync::Arc<Dictionary>, page_size: usize, auto_commit_unique: bool) -> (r: Self)
        ensures
            r.model() == cleared(),
            machine_inv(r.settings(), r.model()),
            r.settings().dict == dict@,
            r.settings().charset == dict.spec_table_config().charset@,
            r.settings().wildcard == dict.spec_table_config().wildcard_key,
            r.settings().page_size == if page_size < 1 {
                1
            } else if page_size > 10 {
                10
            } else {
                page_size
            },
            r.settings().auto_commit_unique == auto_commit_unique,
            r.settings().punctuation_mode == PunctuationMode::BufferedCommit,
    {
        Self::with_behavior(dict, page_size, auto_commit_unique, PunctuationMode::BufferedCommit)
    }

    /// A machine with a page size (clamped to 1..=10), auto-commit choice
    /// and punctuation handling.
    pub fn with_behavior(
        dict: std::sync::Arc<Dictionary>,
        page_size: usize,
        auto_commit_unique: bool,
        punctuation_mode: PunctuationMode,
    ) -> (r: Self)
        ensures
            r.model() == cleared(),
            machine_inv(r.settings(), r.model()),
            r.settings().dict == dict@,
            r.settings().charset == dict.spec_table_config().charset@,
            r.settings().wildcard == dict.spec_table_config().wildcard_key,
            r.settings().page_size == if page_size < 1 {
                1
            } else if page_size > 10 {
                10
            } else {
                page_size
            },
            r.settings().auto_commit_unique == auto_commit_unique,
            r.settings().punctuation_mode == punctuation_mode,
    {
        let page_size = if page_size < 1 {
            1
        } else if page_size > 10 {
            10
        } else {
            page_size
        };
        let r = MachineCore {
            dict,
            page_size,
            auto_commit_unique,
            spelling: String::new(),
            punctuation_mode,
            page: 0,
            candidates: Vec::new(),
            total_candidates: 0,
            state: InputState::Idle,
        };
        proof {
            assert(string_views(r.candidates@) =~= Seq::<Seq<char>>::empty());
        }
        r
    }

    /// The spelling buffer.
    pub fn spelling(&self) -> (r: &str)
        ensures
            r@ == self.model().spelling,
    {
        self.spelling.as_str()
    }

    /// The input phase.
    pub fn state(&self) -> (r: InputState)
        ensures
            r == self.model().state,
    {
        self.state
    }

    /// The visible candidates.
    pub fn candidates(&self) -> (r: &[String])
        ensures
            string_views(r@) == self.model().candidates,
    {
        self.candidates.as_slice()
    }

    /// The visible page (0-based).
    pub fn page(&self) -> (r: usize)
        ensures
            r == self.model().page,
    {
        self.page
    }

    /// Number of candidate pages (at least one).
    pub fn total_pages(&self) -> (r: usize)
        ensures
            r == pages_for(self.model().total, self.settings().page_size),
    {
        proof {
            use_type_invariant(self);
        }
        let q = self.total_candidates / self.page_size;
        let p = if self.total_candidates % self.page_size != 0 {
            assert(q < usize::MAX) by (nonlinear_arith)
                requires
                    q == self.total_candidates / self.page_size,
                    self.total_candidates % self.page_size != 0,
                    1 <= self.page_size,
            ;
            q + 1
        } else {
            q
        };
        if p > 1 {
            p
        } else {
            1
        }
    }

    /// Whether the table declares `c` as a code character.
    fn in_charset(&self, c: char) -> (r: bool)
        ensures
            r == self.settings().charset.contains(c),
    {
        let cs = chars_of(self.dict.table_config().charset.as_str());
        let mut i: usize = 0;
        while i < cs.len()
            invariant
                i <= cs@.len(),
                cs@ == self.settings().charset,
                forall|k: int| 0 <= k < i ==> cs@[k] != c,
            decreases cs@.len() - i,
        {
            if cs[i] == c {
                return true;
            }
            i += 1;
        }
        false
    }

    /// Whether `c` can be typed as part of a code.
    pub fn accepts_code_char(&self, c: char) -> (r: bool)
        ensures
            r == accepts(self.settings(), c),
    {
        is_code_key(c) || self.in_charset(c)
    }

    /// Clears input (the table binding stays).
    pub fn reset(&mut self)
        ensures
            final(self).model() == cleared(),
            final(self).settings() == old(self).settings(),
            machine_inv(final(self).settings(), final(self).model()),
    {
        proof {
            use_type_invariant(&*self);
            assert(pages_for(0, self.settings().page_size) >= 1);
        }
        self.spelling = String::new();
        self.page = 0;
        self.candidates = Vec::new();
        self.total_candidates = 0;
        self.state = InputState::Idle;
        proof {
            assert(string_views(self.candidates@) =~= Seq::<Seq<char>>::empty());
        }
    }

    /// Appends `c` to the spelling.
    fn push_spelling(&mut self, c: char)
        ensures
            final(self).model() == (MachineModel { spelling: old(self).model().spelling.push(c), ..old(self).model() }),
            final(self).settings() == old(self).settings(),
    {
        proof {
            use_type_invariant(&*self);
        }
        let mut sp = String::new();
        std::mem::swap(&mut sp, &mut self.spelling);
        string_push(&mut sp, c);
        self.spelling = sp;
    }

    /// Removes the last character of the spelling.
    fn pop_spelling(&mut self)
        requires
            old(self).model().spelling.len() > 0,
        ensures
            final(self).model() == (MachineModel { spelling: old(self).model().spelling.drop_last(), ..old(self).model() }),
            final(self).settings() == old(self).settings(),
    {
        proof {
            use_type_invariant(&*self);
        }
        let mut sp = String::new();
        std::mem::swap(&mut sp, &mut self.spelling);
        string_pop(&mut sp);
        self.spelling = sp;
    }

    fn reset_candidates(&mut self)
        ensures
            final(self).model() == without_candidates(old(self).model().spelling, old(self).model().state),
            final(self).settings() == old(self).settings(),
    {
        proof {
            use_type_invariant(&*self);
        }
        self.candidates = Vec::new();
        self.total_candidates = 0;
        self.page = 0;
        proof {
            assert(string_views(self.candidates@) =~= Seq::<Seq<char>>::empty());
        }
    }

    /// The number of leading code characters of the spelling.
    fn key_length(&self) -> (r: usize)
        ensures
            r == key_len(self.settings(), self.model().spelling),
            r <= self.model().spelling.len(),
    {
        let sp = chars_of(self.spelling.as_str());
        let mut i: usize = 0;
        assert(sp@.skip(0) =~= sp@);
        while i < sp.len() && self.accepts_code_char(sp[i])
            invariant
                i <= sp@.len(),
                sp@ == self.model().spelling,
                key_len(self.settings(), sp@) == i + key_len(self.settings(), sp@.skip(i as int)),
            decreases sp@.len() - i,
        {
            proof {
                assert(sp@.skip(i as int).drop_first() =~= sp@.skip(i + 1));
            }
            i += 1;
        }
        proof {
            if i < sp@.len() {
                assert(!accepts(self.settings(), sp@.skip(i as int)[0]));
            }
        }
        i
    }

    fn has_buffered_punctuation(&self) -> (r: bool)
        ensures
            r == has_punct(self.settings(), self.model().spelling),
    {
        let n = self.key_length();
        let total = chars_of(self.spelling.as_str()).len();
        n != total
    }

    /// Whether the spelling takes at least four bytes in UTF-8.
    fn spelling_has_four_bytes(&self) -> (r: bool)
        ensures
            r == (utf8_len(self.model().spelling) >= 4),
    {
        let sp = chars_of(self.spelling.as_str());
        utf8_len_at_most(sp.as_slice(), 4) >= 4
    }

    /// The words of the current spelling's candidates, all pages.
    fn candidate_list(&self) -> (r: Vec<String>)
        ensures
            string_views(r@) == candidate_words(self.settings(), self.model().spelling),
    {
        let n = self.key_length();
        let sp = chars_of(self.spelling.as_str());
        let key_chars = slice_to_vec(sp.as_slice(), 0, n);
        let key = string_from_chars(key_chars.as_slice());
        proof {
            assert(key@ == lookup_key(self.settings(), self.model().spelling));
        }
        let len = self.dict.len();
        let limit = if len > 1 {
            len
        } else {
            1
        };
        let opts = SearchOptions { prefer_exact: true, limit };
        let all = match self.dict.table_config().wildcard_key {
            Some(w) => {
                if contains_char(key_chars.as_slice(), w) {
                    self.dict.search_wildcard(key.as_str(), w)
                } else {
                    self.dict.search(key.as_str(), opts)
                }
            },
            None => self.dict.search(key.as_str(), opts),
        };
        let ghost es = deref_all(all@);
        proof {
            assert(opts == full_search(self.settings().dict));
            if key@.len() == 0 {
                assert(!uses_wildcard(self.settings(), key@));
            }
            assert(es == ranked(self.settings(), key@));
        }
        let mut words: Vec<String> = Vec::new();
        let mut i: usize = 0;
        while i < all.len()
            invariant
                i <= all@.len(),
                es == deref_all(all@),
                string_views(words@) == distinct_words(es.take(i as int)),
            decreases all@.len() - i,
        {
            let w = chars_of(all[i].word.as_str());
            let mut found = false;
            let mut j: usize = 0;
            while j < words.len()
                invariant
                    j <= words@.len(),
                    w@ == es[i as int].word@,
                    found == (exists|k: int| 0 <= k < j && #[trigger] string_views(words@)[k] == w@),
                decreases words@.len() - j,
            {
                let same = chars_eq(chars_of(words[j].as_str()).as_slice(), w.as_slice());
                proof {
                    if same {
                        assert(string_views(words@)[j as int] == w@);
                    }
                }
                found = found || same;
                j += 1;
            }
            proof {
                assert(es.take(i + 1).drop_last() =~= es.take(i as int));
                assert(es.take(i + 1).last() == es[i as int]);
                if found {
                    let k = choose|k: int| 0 <= k < j && #[trigger] string_views(words@)[k] == w@;
                    assert(string_views(words@).contains(w@));
                } else {
                    assert(!string_views(words@).contains(w@));
                }
            }
            if !found {
                let ghost before = words@;
                words.push(string_from_chars(w.as_slice()));
                proof {
                    assert(string_views(words@) =~= string_views(before).push(w@));
                }
            }
            i += 1;
        }
        proof {
            assert(es.take(es.len() as int) =~= es);
        }
        words
    }

    /// Looks the spelling up again and shows the current page of it.
    fn candidates_snapshot(&mut self)
        ensures
            final(self).model() == refreshed(
                old(self).settings(),
                old(self).model().spelling,
                old(self).model().page,
                old(self).model().state,
            ),
            final(self).settings() == old(self).settings(),
    {
        proof {
            use_type_invariant(&*self);
        }
        proof {
            use_type_invariant(&*self);
        }
        let all = self.candidate_list();
        let total = all.len();
        let ps = self.page_size;
        let start = match self.page.checked_mul(ps) {
            Some(x) => if x < total {
                x
            } else {
                total
            },
            None => total,
        };
        let end = if total - start > ps {
            start + ps
        } else {
            total
        };
        let mut shown: Vec<String> = Vec::new();
        let mut k = start;
        while k < end
            invariant
                start <= k <= end <= all@.len(),
                string_views(shown@) == string_views(all@).subrange(start as int, k as int),
            decreases end - k,
        {
            let ghost before = shown@;
            shown.push(copy_string(&all[k]));
            proof {
                assert(string_views(shown@) =~= string_views(before).push(all@[k as int]@));
                assert(string_views(all@).subrange(start as int, k + 1) =~= string_views(all@).subrange(
                    start as int,
                    k as int,
                ).push(all@[k as int]@));
            }
            k += 1;
        }
        self.total_candidates = total;
        self.candidates = shown;
    }

    fn copy_candidates(&self) -> (r: Vec<String>)
        ensures
            string_views(r@) == self.model().candidates,
    {
        let mut r: Vec<String> = Vec::new();
        let mut k: usize = 0;
        while k < self.candidates.len()
            invariant
                k <= self.candidates@.len(),
                string_views(r@) == string_views(self.candidates@).take(k as int),
            decreases self.candidates@.len() - k,
        {
            let ghost before = r@;
            r.push(copy_string(&self.candidates[k]));
            proof {
                assert(string_views(r@) =~= string_views(before).push(self.candidates@[k as int]@));
                assert(string_views(self.candidates@).take(k + 1) =~= string_views(self.candidates@).take(
                    k as int,
                ).push(self.candidates@[k as int]@));
            }
            k += 1;
        }
        proof {
            assert(string_views(self.candidates@).take(self.candidates@.len() as int) =~= string_views(
                self.candidates@,
            ));
        }
        r
    }

    /// The candidates of the current state, for the front end.
    fn shown(&self, total_pages: usize) -> (r: Transition)
        ensures
            r@ == show(self.model(), total_pages as nat),
    {
        Transition::Candidates {
            spelling: copy_string(&self.spelling),
            candidates: self.copy_candidates(),
            page: self.page,
            total_pages,
        }
    }

    fn on_select(&mut self, idx: usize) -> (r: Transition)
        ensures
            (final(self).model(), r@) == on_select(old(self).model(), idx as nat),
            final(self).settings() == old(self).settings(),
    {
        proof {
            use_type_invariant(&*self);
        }
        if idx >= 1 && idx <= self.candidates.len() {
            let word = copy_string(&self.candidates[idx - 1]);
            self.reset();
            return Transition::Commit(word);
        }
        Transition::Passthrough(InputEvent::Select(idx))
    }

    fn on_char(&mut self, c: char) -> (r: Transition)
        ensures
            (final(self).model(), r@) == on_char(old(self).settings(), old(self).model(), c),
            final(self).settings() == old(self).settings(),
    {
        proof {
            use_type_invariant(&*self);
        }
        let in_cs = self.in_charset(c);
        if '1' <= c && c <= '9' && !in_cs && self.state == InputState::Selecting
            && !self.has_buffered_punctuation() {
            let d = (c as u32 - '0' as u32) as usize;
            return self.on_select(d);
        }
        if is_buffered_punctuation(c) && !in_cs {
            if self.punctuation_mode == PunctuationMode::DirectCommit {
                return Transition::Passthrough(InputEvent::Char(c));
            }
            self.push_spelling(c);
            self.reset_candidates();
            self.state = InputState::Composing;
            return Transition::SpellingUpdated(copy_string(&self.spelling));
        }
        if !is_code_key(c) && !in_cs {
            return Transition::Passthrough(InputEvent::Char(c));
        }
        if self.state == InputState::Selecting && !self.has_buffered_punctuation() {
            self.reset_candidates();
        }
        self.push_spelling(c);
        if self.has_buffered_punctuation() {
            self.reset_candidates();
            self.state = InputState::Composing;
            return Transition::SpellingUpdated(copy_string(&self.spelling));
        }
        self.page = 0;
        self.candidates_snapshot();
        proof {
            use_type_invariant(&*self);
            assert(0nat * self.settings().page_size == 0);
        }
        if self.auto_commit_unique && self.spelling_has_four_bytes() && self.total_candidates == 1 {
            assert(self.model().candidates.len() == 1);
            let word = copy_string(&self.candidates[0]);
            self.reset();
            return Transition::Commit(word);
        }
        if self.candidates.len() == 0 {
            self.state = InputState::Composing;
            return Transition::SpellingUpdated(copy_string(&self.spelling));
        }
        self.state = InputState::Selecting;
        let pages = self.total_pages();
        self.shown(pages)
    }

    fn on_symbol(&mut self, c: char) -> (r: Transition)
        ensures
            (final(self).model(), r@) == on_symbol(old(self).model(), c),
            final(self).settings() == old(self).settings(),
    {
        proof {
            use_type_invariant(&*self);
        }
        if self.spelling.as_str().is_empty() {
            return Transition::Passthrough(InputEvent::Symbol(c));
        }
        let mut text = copy_string(&self.spelling);
        string_push(&mut text, c);
        self.reset();
        Transition::Commit(text)
    }

    fn on_space(&mut self) -> (r: Transition)
        ensures
            (final(self).model(), r@) == on_space(old(self).settings(), old(self).model()),
            final(self).settings() == old(self).settings(),
    {
        proof {
            use_type_invariant(&*self);
        }
        if self.spelling.as_str().is_empty() {
            return Transition::Passthrough(InputEvent::Space);
        }
        if self.has_buffered_punctuation() {
            let text = copy_string(&self.spelling);
            self.reset();
            return Transition::Commit(text);
        }
        if self.candidates.len() > 0 {
            let mut word = copy_string(&self.candidates[0]);
            let n = self.key_length();
            let sp = chars_of(self.spelling.as_str());
            let extra = slice_to_vec(sp.as_slice(), n, sp.len());
            push_chars(&mut word, extra.as_slice());
            self.reset();
            return Transition::Commit(word);
        }
        let text = copy_string(&self.spelling);
        self.reset();
        Transition::Commit(text)
    }

    fn on_enter(&mut self) -> (r: Transition)
        ensures
            (final(self).model(), r@) == on_enter(old(self).model()),
            final(self).settings() == old(self).settings(),
    {
        proof {
            use_type_invariant(&*self);
        }
        if self.spelling.as_str().is_empty() {
            return Transition::Passthrough(InputEvent::Enter);
        }
        let text = copy_string(&self.spelling);
        self.reset();
        Transition::Commit(text)
    }

    fn on_backspace(&mut self) -> (r: Transition)
        ensures
            (final(self).model(), r@) == on_backspace(old(self).settings(), old(self).model()),
            final(self).settings() == old(self).settings(),
    {
        proof {
            use_type_invariant(&*self);
        }
        if self.spelling.as_str().is_empty() {
            return Transition::Passthrough(InputEvent::Backspace);
        }
        self.pop_spelling();
        if self.spelling.as_str().is_empty() {
            self.reset();
            return Transition::Cleared;
        }
        if self.has_buffered_punctuation() {
            self.reset_candidates();
            self.state = InputState::Composing;
            return Transition::SpellingUpdated(copy_string(&self.spelling));
        }
        self.page = 0;
        self.candidates_snapshot();
        if self.candidates.len() == 0 {
            self.state = InputState::Composing;
            return Transition::SpellingUpdated(copy_string(&self.spelling));
        }
        self.state = InputState::Selecting;
        let pages = self.total_pages();
        self.shown(pages)
    }

    fn on_esc(&mut self) -> (r: Transition)
        ensures
            (final(self).model(), r@) == on_esc(old(self).model()),
            final(self).settings() == old(self).settings(),
    {
        proof {
            use_type_invariant(&*self);
        }
        if self.spelling.as_str().is_empty() {
            return Transition::Passthrough(InputEvent::Esc);
        }
        self.reset();
        Transition::Cleared
    }

    fn on_page_next(&mut self) -> (r: Transition)
        ensures
            (final(self).model(), r@) == on_page_next(old(self).settings(), old(self).model()),
            final(self).settings() == old(self).settings(),
    {
        proof {
            use_type_invariant(&*self);
        }
        let pages = self.total_pages();
        if self.page < pages - 1 {
            self.page = self.page + 1;
            self.candidates_snapshot();
            return self.shown(pages);
        }
        Transition::Nothing
    }

    fn on_page_prev(&mut self) -> (r: Transition)
        ensures
            (final(self).model(), r@) == on_page_prev(old(self).settings(), old(self).model()),
            final(self).settings() == old(self).settings(),
    {
        proof {
            use_type_invariant(&*self);
        }
        if self.page > 0 {
            self.page = self.page - 1;
            self.candidates_snapshot();
            let pages = self.total_pages();
            return self.shown(pages);
        }
        Transition::Nothing
    }

    /// Handles one event and returns what the front end must do.
    pub fn handle(&mut self, event: InputEvent) -> (r: Transition)
        ensures
            (final(self).model(), r@) == step(old(self).settings(), old(self).model(), event),
            final(self).settings() == old(self).settings(),
            consistent(old(self).settings(), old(self).model()) ==> consistent(
                final(self).settings(),
                final(self).model(),
            ),
            1 <= final(self).settings().page_size <= 10,
            machine_inv(old(self).settings(), old(self).model()) ==> machine_inv(
                final(self).settings(),
                final(self).model(),
            ),
    {
        proof {
            use_type_invariant(&*self);
            if consistent(self.settings(), self.model()) {
                lemma_step_keeps_consistent(self.settings(), self.model(), event);
            }
            if machine_inv(self.settings(), self.model()) {
                lemma_step_keeps_machine_inv(self.settings(), self.model(), event);
            }
        }
        match event {
            InputEvent::Char(c) => self.on_char(c),
            InputEvent::Symbol(c) => {
                if self.in_charset(c) {
                    self.on_char(c)
                } else {
                    self.on_symbol(c)
                }
            },
            InputEvent::Space => self.on_space(),
            InputEvent::Enter => self.on_enter(),
            InputEvent::Backspace => self.on_backspace(),
            InputEvent::Esc => self.on_esc(),
            InputEvent::Select(idx) => self.on_select(idx),
            InputEvent::PageNext => self.on_page_next(),
            InputEvent::PagePrev => self.on_page_prev(),
        }
    }
}

/// The cross-platform input state machine.  Every machine, from its
/// construction on and after every event, satisfies [`machine_inv`].
pub struct StateMachine {
    core: MachineCore,
}

impl StateMachine {
    #[verifier::type_invariant]
    spec fn agrees(self) -> bool {
        machine_inv(self.core.settings(), self.core.model())
    }

    /// The fixed part of the machine.
    pub closed spec fn settings(&self) -> MachineSettings {
        self.core.settings()
    }

    /// The changing part of the machine.
    pub closed spec fn model(&self) -> MachineModel {
        self.core.model()
    }

    /// A machine over `dict` with five candidates per page and automatic
    /// commit of unique four-key codes.
    pub fn new(dict: std::sync::Arc<Dictionary>) -> (r: Self)
        ensures
            r.model() == cleared(),
            machine_inv(r.settings(), r.model()),
            r.settings().dict == dict@,
            r.settings().charset == dict.spec_table_config().charset@,
            r.settings().wildcard == dict.spec_table_config().wildcard_key,
            r.settings().page_size == 5,
            r.settings().auto_commit_unique,
            r.settings().punctuation_mode == PunctuationMode::BufferedCommit,
    {
        StateMachine { core: MachineCore::new(dict) }
    }

    /// A machine with a page size (clamped to 1..=10) and auto-commit choice.
    pub fn with_options(dict: std::sync::Arc<Dictionary>, page_size: usize, auto_commit_unique: bool) -> (r: Self)
        ensures
            r.model() == cleared(),
            machine_inv(r.settings(), r.model()),
            r.settings().dict == dict@,
            r.settings().charset == dict.spec_table_config().charset@,
            r.settings().wildcard == dict.spec_table_config().wildcard_key,
            r.settings().page_size == if page_size < 1 {
                1
            } else if page_size > 10 {
                10
            } else {
                page_size
            },
            r.settings().auto_commit_unique == auto_commit_unique,
            r.settings().punctuation_mode == PunctuationMode::BufferedCommit,
    {
        StateMachine { core: MachineCore::with_options(dict, page_size, auto_commit_unique) }
    }

    /// A machine with a page size (clamped to 1..=10), auto-commit choice
    /// and punctuation handling.
    pub fn with_behavior(
        dict: std::sync::Arc<Dictionary>,
        page_size: usize,
        auto_commit_unique: bool,
        punctuation_mode: PunctuationMode,
    ) -> (r: Self)
        ensures
            r.model() == cleared(),
            machine_inv(r.settings(), r.model()),
            r.settings().dict == dict@,
            r.settings().charset == dict.spec_table_config().charset@,
            r.settings().wildcard == dict.spec_table_config().wildcard_key,
            r.settings().page_size == if page_size < 1 {
                1
            } else if page_size > 10 {
                10
            } else {
                page_size
            },
            r.settings().auto_commit_unique == auto_commit_unique,
            r.settings().punctuation_mode == punctuation_mode,
    {
        StateMachine { core: MachineCore::with_behavior(dict, page_size, auto_commit_unique, punctuation_mode) }
    }

    /// The spelling buffer.
    pub fn spelling(&self) -> (r: &str)
        ensures
            r@ == self.model().spelling,
            machine_inv(self.settings(), self.model()),
    {
        proof {
            use_type_invariant(self);
        }
        self.core.spelling()
    }

    /// The input phase.
    pub fn state(&self) -> (r: InputState)
        ensures
            r == self.model().state,
            machine_inv(self.settings(), self.model()),
    {
        proof {
            use_type_invariant(self);
        }
        self.core.state()
    }

    /// The visible candidates.
    pub fn candidates(&self) -> (r: &[String])
        ensures
            string_views(r@) == self.model().candidates,
            machine_inv(self.settings(), self.model()),
    {
        proof {
            use_type_invariant(self);
        }
        self.core.candidates()
    }

    /// The visible page (0-based).
    pub fn page(&self) -> (r: usize)
        ensures
            r == self.model().page,
            machine_inv(self.settings(), self.model()),
    {
        proof {
            use_type_invariant(self);
        }
        self.core.page()
    }

    /// Number of candidate pages (at least one).
    pub fn total_pages(&self) -> (r: usize)
        ensures
            r == pages_for(self.model().total, self.settings().page_size),
            machine_inv(self.settings(), self.model()),
    {
        proof {
            use_type_invariant(self);
        }
        self.core.total_pages()
    }

    /// Whether `c` can be typed as part of a code.
    pub fn accepts_code_char(&self, c: char) -> (r: bool)
        ensures
            r == accepts(self.settings(), c),
    {
        self.core.accepts_code_char(c)
    }

    /// Takes the fields out, leaving an idle machine over an empty table.
    fn take_core(&mut self) -> (r: MachineCore)
        ensures
            r.settings() == old(self).settings(),
            r.model() == old(self).model(),
            machine_inv(r.settings(), r.model()),
    {
        proof {
            use_type_invariant(&*self);
        }
        let empty = crate::dictionary::empty_table();
        let mut core = MachineCore::with_behavior(empty, 1, false, PunctuationMode::BufferedCommit);
        std::mem::swap(&mut core, &mut self.core);
        core
    }

    /// Clears input (the table binding stays).
    pub fn reset(&mut self)
        ensures
            final(self).model() == cleared(),
            final(self).settings() == old(self).settings(),
            machine_inv(final(self).settings(), final(self).model()),
    {
        let mut core = self.take_core();
        core.reset();
        self.core = core;
    }

    /// Handles one event and returns what the front end must do.  The
    /// machine afterwards again satisfies [`machine_inv`]: idle exactly when
    /// the spelling is empty, selecting exactly when candidates are shown,
    /// at most a page of candidates, an existing page, and idle after a
    /// commit or a clear.
    pub fn handle(&mut self, event: InputEvent) -> (r: Transition)
        ensures
            (final(self).model(), r@) == step(old(self).settings(), old(self).model(), event),
            final(self).settings() == old(self).settings(),
            machine_inv(final(self).settings(), final(self).model()),
            1 <= final(self).settings().page_size <= 10,
            r is Commit || r is Cleared ==> final(self).model().state == InputState::Idle,
    {
        let mut core = self.take_core();
        proof {
            lemma_step_keeps_machine_inv(core.settings(), core.model(), event);
        }
        let r = core.handle(event);
        self.core = core;
        r
    }
}

/// Whether `c` occurs in `cs`.
pub fn contains_char(cs: &[char], c: char) -> (r: bool)
    ensures
        r == cs@.contains(c),
{
    let mut i: usize = 0;
    while i < cs.len()
        invariant
            i <= cs@.len(),
            forall|k: int| 0 <= k < i ==> cs@[k] != c,
        decreases cs@.len() - i,
    {
        if cs[i] == c {
            assert(cs@[i as int] == c);
            return true;
        }
        i += 1;
    }
    false
}

/// ASCII letters and digits.
pub fn is_code_key(c: char) -> (r: bool)
    ensures
        r == is_code_char(c),
{
    ('a' <= c && c <= 'z') || ('A' <= c && c <= 'Z') || ('0' <= c && c <= '9')
}

/// ASCII punctuation.
pub fn is_buffered_punctuation(c: char) -> (r: bool)
    ensures
        r == is_ascii_punct(c),
{
    ('!' <= c && c <= '/') || (':' <= c && c <= '@') || ('[' <= c && c <= '`') || ('{' <= c && c
        <= '~')
}

// ───────────────────────── laws ─────────────────────────

/// Whatever an event commits, the machine is left idle and empty.
pub proof fn lemma_commit_clears(s: MachineSettings, m: MachineModel, e: InputEvent)
    ensures
        step(s, m, e).1 is Commit ==> step(s, m, e).0 == cleared(),
{
}

/// A key handed on to the application leaves the machine unchanged.
pub proof fn lemma_passthrough_keeps_state(s: MachineSettings, m: MachineModel, e: InputEvent)
    ensures
        step(s, m, e).1 is Passthrough ==> step(s, m, e).0 == m,
{
}

/// Clearing the input (Esc, or Backspace on the last key) leaves the
/// machine idle and empty.
pub proof fn lemma_cleared_is_idle(s: MachineSettings, m: MachineModel, e: InputEvent)
    ensures
        step(s, m, e).1 is Cleared ==> step(s, m, e).0 == cleared(),
{
}

/// No word is listed twice among the candidates of a spelling.
pub proof fn lemma_distinct_words(es: Seq<Entry>)
    ensures
        distinct_words(es).no_duplicates(),
        forall|w: Seq<char>| distinct_words(es).contains(w) <==> exists|k: int|
            0 <= k < es.len() && #[trigger] es[k].word@ == w,
    decreases es.len(),
{
    if es.len() > 0 {
        let rest = es.drop_last();
        lemma_distinct_words(rest);
        let w = distinct_words(rest);
        assert forall|x: Seq<char>| distinct_words(es).contains(x) <==> exists|k: int|
            0 <= k < es.len() && #[trigger] es[k].word@ == x by {
            if distinct_words(es).contains(x) {
                if w.contains(x) {
                    let k = choose|k: int| 0 <= k < rest.len() && #[trigger] rest[k].word@ == x;
                    assert(es[k] == rest[k]);
                } else {
                    assert(x == es.last().word@);
                    assert(es[es.len() - 1].word@ == x);
                }
            }
            if exists|k: int| 0 <= k < es.len() && #[trigger] es[k].word@ == x {
                let k = choose|k: int| 0 <= k < es.len() && #[trigger] es[k].word@ == x;
                if k < es.len() - 1 {
                    assert(rest[k] == es[k]);
                    assert(w.contains(x));
                    let i = choose|i: int| 0 <= i < w.len() && w[i] == x;
                    if !w.contains(es.last().word@) {
                        assert(w.push(es.last().word@)[i] == x);
                    }
                } else {
                    if !w.contains(es.last().word@) {
                        assert(w.push(es.last().word@)[w.len() as int] == x);
                    }
                }
            }
        }
    }
}

/// The candidates of a page are distinct words, never more than a page
/// holds.
pub proof fn lemma_shown_candidates(s: MachineSettings, m: MachineModel, e: InputEvent)
    ensures
        step(s, m, e).1 matches Action::Candidates { candidates, .. } ==> candidates.no_duplicates()
            && candidates.len() <= s.page_size,
{
    let sp = match e {
        InputEvent::Char(c) => m.spelling.push(c),
        InputEvent::Symbol(c) => m.spelling.push(c),
        InputEvent::Backspace => m.spelling.drop_last(),
        _ => m.spelling,
    };
    lemma_distinct_words(ranked(s, lookup_key(s, sp)));
    let words = candidate_words(s, sp);
    assert forall|page: nat| #[trigger] page_words(words, page, s.page_size).no_duplicates() by {
        let p = page_words(words, page, s.page_size);
        let start = min_nat(page * s.page_size, words.len());
        assert forall|i: int, j: int| 0 <= i < j < p.len() implies p[i] != p[j] by {
            assert(p[i] == words[start + i]);
            assert(p[j] == words[start + j]);
        }
    }
}

/// Backspace takes back a key that was added to the spelling.
pub proof fn lemma_backspace_undoes_key(s: MachineSettings, m: MachineModel, c: char)
    requires
        step(s, m, InputEvent::Char(c)).1 is SpellingUpdated || step(s, m, InputEvent::Char(c)).1 is Candidates,
    ensures
        step(s, step(s, m, InputEvent::Char(c)).0, InputEvent::Backspace).0.spelling == m.spelling,
{
    assert(m.spelling.push(c).drop_last() =~= m.spelling);
}

/// The shown page belongs to the spelling: either nothing is shown, or
/// the candidates are page `page` of the spelling's candidate words and
/// that page exists.
pub open spec fn consistent(s: MachineSettings, m: MachineModel) -> bool {
    ||| (m.candidates.len() == 0 && m.total == 0 && m.page == 0)
    ||| {
        &&& m.total == candidate_words(s, m.spelling).len()
        &&& m.page < pages_for(m.total, s.page_size)
        &&& m.candidates == page_words(candidate_words(s, m.spelling), m.page, s.page_size)
    }
}

/// Every event keeps the shown page consistent with the spelling, so the
/// page shown always exists.
pub proof fn lemma_step_keeps_consistent(s: MachineSettings, m: MachineModel, e: InputEvent)
    requires
        1 <= s.page_size,
        consistent(s, m),
    ensures
        consistent(s, step(s, m, e).0),
{
    assert(pages_for(0, s.page_size) >= 1);
    assert forall|sp: Seq<char>, st: InputState| #[trigger] consistent(s, refreshed(s, sp, 0, st)) by {
        assert(0nat * s.page_size == 0);
        let w = candidate_words(s, sp);
        assert(pages_for(w.len(), s.page_size) >= 1);
    }
    assert(consistent(s, cleared()));
}

/// Enter commits the typed spelling itself, whatever candidates are shown,
/// and clears the machine; with nothing typed the key is handed on.
pub proof fn lemma_enter_commits_spelling(s: MachineSettings, m: MachineModel)
    ensures
        m.spelling.len() > 0 ==> step(s, m, InputEvent::Enter) == (cleared(), Action::Commit(m.spelling)),
        m.spelling.len() == 0 ==> step(s, m, InputEvent::Enter) == (m, Action::Passthrough(InputEvent::Enter)),
{
}

/// While candidates are shown and no punctuation is buffered, a digit key
/// `d` in 1..=9 that is not a table character acts as choosing candidate
/// `d`: it commits the `d`-th shown candidate (counting from 1) and clears
/// the machine, or, when fewer are shown, hands on the choice unchanged.
pub proof fn lemma_digit_selects_candidate(s: MachineSettings, m: MachineModel, c: char)
    requires
        '1' <= c <= '9',
        !s.charset.contains(c),
        m.state == InputState::Selecting,
        !has_punct(s, m.spelling),
    ensures
        ({
            let d = (c as int - '0' as int) as usize;
            &&& 1 <= d <= 9
            &&& step(s, m, InputEvent::Char(c)) == step(s, m, InputEvent::Select(d))
            &&& d <= m.candidates.len() ==> step(s, m, InputEvent::Char(c)) == (
                cleared(),
                Action::Commit(m.candidates[d - 1]),
            )
            &&& d > m.candidates.len() ==> step(s, m, InputEvent::Char(c)) == (
                m,
                Action::Passthrough(InputEvent::Select(d)),
            )
        }),
{
}

/// The phase agrees with the buffer and the page: idle exactly when
/// nothing is buffered, selecting exactly when candidates are shown, never
/// more candidates than a page holds, the shown page exists, and the page
/// belongs to the spelling ([`consistent`]); the page size is in 1..=10.
pub open spec fn machine_inv(s: MachineSettings, m: MachineModel) -> bool {
    &&& 1 <= s.page_size <= 10
    &&& consistent(s, m)
    &&& (m.state == InputState::Idle) == (m.spelling.len() == 0)
    &&& (m.state == InputState::Selecting) == (m.candidates.len() > 0)
    &&& m.candidates.len() <= s.page_size
    &&& m.page < pages_for(m.total, s.page_size)
}

/// A page holds at most `page_size` words, and it is non-empty exactly
/// when it starts inside the word list.
proof fn lemma_page_words_len(words: Seq<Seq<char>>, page: nat, page_size: nat)
    requires
        1 <= page_size,
    ensures
        page_words(words, page, page_size).len() <= page_size,
        (page_words(words, page, page_size).len() > 0) == (page * page_size < words.len()),
{
}

/// A page below the page count starts inside a non-empty list.
proof fn lemma_page_starts_inside(total: nat, page: nat, page_size: nat)
    requires
        1 <= page_size,
        total > 0,
        page < pages_for(total, page_size),
    ensures
        page * page_size < total,
{
    let q = total / page_size;
    let r = total % page_size;
    assert(total == q * page_size + r && r < page_size) by (nonlinear_arith)
        requires
            1 <= page_size,
            q == total / page_size,
            r == total % page_size,
    ;
    if r != 0 {
        assert(page <= q);
        assert(page * page_size <= q * page_size) by (nonlinear_arith)
            requires
                page <= q,
        ;
    } else {
        assert(q >= 1) by (nonlinear_arith)
            requires
                total == q * page_size + r,
                r == 0,
                total > 0,
        ;
        assert(page < q);
        assert(page * page_size < q * page_size) by (nonlinear_arith)
            requires
                page < q,
                1 <= page_size,
        ;
    }
}

/// A list with more than one page is not empty.
proof fn lemma_pages_nonempty(total: nat, page_size: nat)
    requires
        1 <= page_size,
        pages_for(total, page_size) > 1,
    ensures
        total > 0,
{
    if total == 0 {
        assert(0nat / page_size == 0 && 0nat % page_size == 0) by (nonlinear_arith)
            requires
                1 <= page_size,
        ;
    }
}

/// The page of a freshly looked-up spelling.
proof fn lemma_refreshed_inv(s: MachineSettings, sp: Seq<char>, st: InputState)
    requires
        1 <= s.page_size <= 10,
    ensures
        ({
            let r = refreshed(s, sp, 0, st);
            &&& consistent(s, r)
            &&& r.candidates.len() <= s.page_size
            &&& r.page < pages_for(r.total, s.page_size)
            &&& (r.candidates.len() > 0) == (r.total > 0)
        }),
{
    let w = candidate_words(s, sp);
    assert(0nat * s.page_size == 0);
    lemma_page_words_len(w, 0, s.page_size);
    assert(pages_for(w.len(), s.page_size) >= 1);
}

/// Every event keeps the machine's phase in agreement with its buffer and
/// page, and an event that commits or clears leaves the machine idle.
pub proof fn lemma_step_keeps_machine_inv(s: MachineSettings, m: MachineModel, e: InputEvent)
    requires
        machine_inv(s, m),
    ensures
        machine_inv(s, step(s, m, e).0),
        step(s, m, e).1 is Commit || step(s, m, e).1 is Cleared ==> step(s, m, e).0.state
            == InputState::Idle,
{
    lemma_step_keeps_consistent(s, m, e);
    lemma_commit_clears(s, m, e);
    lemma_cleared_is_idle(s, m, e);
    let ps = s.page_size;
    assert(pages_for(0, ps) >= 1);
    let r = step(s, m, e).0;
    let sp = match e {
        InputEvent::Char(c) => m.spelling.push(c),
        InputEvent::Symbol(c) => m.spelling.push(c),
        InputEvent::Backspace => m.spelling.drop_last(),
        _ => m.spelling,
    };
    lemma_refreshed_inv(s, sp, InputState::Selecting);
    lemma_refreshed_inv(s, sp, InputState::Composing);
    match e {
        InputEvent::PageNext => {
            let pages = pages_for(m.total, ps);
            if m.page + 1 < pages {
                lemma_pages_nonempty(m.total, ps);
                let w = candidate_words(s, m.spelling);
                assert(m.total == w.len());
                lemma_page_starts_inside(m.total, m.page, ps);
                lemma_page_words_len(w, m.page, ps);
                lemma_page_starts_inside(m.total, m.page + 1, ps);
                lemma_page_words_len(w, m.page + 1, ps);
            }
        },
        InputEvent::PagePrev => {
            if m.page > 0 {
                let w = candidate_words(s, m.spelling);
                assert(m.total == w.len());
                lemma_pages_nonempty(m.total, ps);
                lemma_page_starts_inside(m.total, m.page, ps);
                lemma_page_words_len(w, m.page, ps);
                lemma_page_starts_inside(m.total, (m.page - 1) as nat, ps);
                lemma_page_words_len(w, (m.page - 1) as nat, ps);
            }
        },
        _ => {},
    }
}

} // verus!
