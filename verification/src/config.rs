//! The settings model behind `config.toml`, its defaults, and the rules a
//! configuration must satisfy before it is used or saved.
use crate::text::push_chars;
use vstd::prelude::*;

verus! {

/// The path that `PathBuf::from` makes of a text.  A path has no view
/// here, so what it holds is left to this name; it depends on the text
/// alone.
pub uninterp spec fn path_of_text(s: Seq<char>) -> std::path::PathBuf;

/// Calls `PathBuf::from` on a string: the result is the path of that text.
#[verifier::external_body]
pub(crate) fn path_from(s: &str) -> (r: std::path::PathBuf)
    ensures
        r == path_of_text(s@),
{
    std::path::PathBuf::from(s)
}

/// Errors of reading, parsing or checking a configuration.
#[derive(Debug)]
pub enum Error {
    /// The file could not be read or written.
    Io(std::path::PathBuf, String),
    /// The text is not a valid configuration document.
    Parse(String),
    /// A setting has a value outside its range (setting, reason).
    Invalid(String, String),
}

/// The whole configuration.
#[derive(Debug, Clone)]
pub struct Config {
    pub basic: Basic,
    pub appearance: Appearance,
    pub dictionary: DictionaryCfg,
    pub hotkey: Hotkey,
}

/// Input behaviour.
#[derive(Debug, Clone)]
pub struct Basic {
    /// Candidates per page (1..=10).
    pub candidate_count: u8,
    /// How a candidate is committed.
    pub commit_mode: CommitMode,
    /// The key that switches between Chinese and English input.
    pub switch_key: SwitchKey,
    /// Commit automatically when a code of four or more keys has one candidate.
    pub auto_commit_unique: bool,
    /// Commit the first candidate when a code grows past the longest code.
    pub commit_on_max_code_overflow: bool,
    /// Show the remaining keys of incomplete codes.
    pub show_code_hints: bool,
    /// How punctuation is handled.
    pub punctuation_mode: PunctuationMode,
}

/// How a candidate is committed.
#[derive(Debug, Clone, Copy, PartialEq, Eq, Structural)]
pub enum CommitMode {
    /// Space commits the first candidate.
    SpaceFirst,
    /// Enter commits.
    EnterCommit,
}

/// The key that switches between Chinese and English input.
#[derive(Debug, Clone, Copy, PartialEq, Eq, Structural)]
pub enum SwitchKey {
    Shift,
    CapsLock,
    CtrlSpace,
}

/// How punctuation is handled.
#[derive(Debug, Clone, Copy, PartialEq, Eq, Structural)]
pub enum PunctuationMode {
    /// Punctuation joins the input buffer and is committed with it.
    BufferedCommit,
    /// Punctuation goes straight to the application.
    DirectCommit,
}

impl Default for CommitMode {
    fn default() -> (r: Self)
        ensures
            r == CommitMode::SpaceFirst,
    {
        CommitMode::SpaceFirst
    }
}

impl Default for SwitchKey {
    fn default() -> (r: Self)
        ensures
            r == SwitchKey::Shift,
    {
        SwitchKey::Shift
    }
}

impl Default for PunctuationMode {
    fn default() -> (r: Self)
        ensures
            r == PunctuationMode::BufferedCommit,
    {
        PunctuationMode::BufferedCommit
    }
}

/// Candidate window style.
#[derive(Debug, Clone)]
pub struct Appearance {
    /// Font size in points.
    pub font_size: u16,
    /// Main colour (ARGB).
    pub primary_color: u32,
    /// Background colour (ARGB).
    pub background_color: u32,
    /// Highlight colour (ARGB).
    pub highlight_color: u32,
}

/// Table and word-list settings.
#[derive(Debug, Clone)]
pub struct DictionaryCfg {
    /// The system table, relative to the configuration file or absolute.
    pub system_table: std::path::PathBuf,
    /// The user word list.
    pub user_table: std::path::PathBuf,
    /// Prefer exact matches.
    pub enable_exact_match: bool,
    /// Fuzzy matching (reserved).
    pub enable_fuzzy: bool,
    /// Use the user word list.
    pub enable_user_dict: bool,
}

/// Key bindings, by key name.
#[derive(Debug, Clone)]
pub struct Hotkey {
    pub page_next: String,
    pub page_prev: String,
    pub select_second: String,
    pub select_third: String,
    pub toggle_simplify: String,
}

fn default_candidate_count() -> (r: u8)
    ensures
        r == 5,
{
    5
}

fn default_true() -> (r: bool)
    ensures
        r,
{
    true
}

fn default_switch_key() -> (r: SwitchKey)
    ensures
        r == SwitchKey::Shift,
{
    SwitchKey::Shift
}

fn default_font_size() -> (r: u16)
    ensures
        r == 14,
{
    14
}

fn default_primary() -> (r: u32)
    ensures
        r == 0xFF1E88E5,
{
    0xFF1E88E5
}

fn default_background() -> (r: u32)
    ensures
        r == 0xFFFFFFFF,
{
    0xFFFFFFFF
}

fn default_highlight() -> (r: u32)
    ensures
        r == 0xFFFFD54F,
{
    0xFFFFD54F
}

fn default_system_table() -> (r: std::path::PathBuf)
    ensures
        r == path_of_text("tables/wubi86.dict"@),
{
    path_from("tables/wubi86.dict")
}

fn default_user_table() -> (r: std::path::PathBuf)
    ensures
        r == path_of_text("tables/user.dict"@),
{
    path_from("tables/user.dict")
}

fn default_page_next() -> (r: String)
    ensures
        r@ == "comma"@,
{
    "comma".to_owned()
}

fn default_page_prev() -> (r: String)
    ensures
        r@ == "period"@,
{
    "period".to_owned()
}

fn default_select_second() -> (r: String)
    ensures
        r@ == "semicolon"@,
{
    "semicolon".to_owned()
}

fn default_select_third() -> (r: String)
    ensures
        r@ == "quote"@,
{
    "quote".to_owned()
}

fn default_toggle_simplify() -> (r: String)
    ensures
        r@ == "ctrl_shift_s"@,
{
    "ctrl_shift_s".to_owned()
}

impl Default for Basic {
    fn default() -> (r: Self)
        ensures
            r.candidate_count == 5,
            r.commit_mode == CommitMode::SpaceFirst,
            r.switch_key == SwitchKey::Shift,
            r.auto_commit_unique,
            r.commit_on_max_code_overflow,
            r.show_code_hints,
            r.punctuation_mode == PunctuationMode::BufferedCommit,
    {
        Basic {
            candidate_count: default_candidate_count(),
            commit_mode: CommitMode::SpaceFirst,
            switch_key: default_switch_key(),
            auto_commit_unique: default_true(),
            commit_on_max_code_overflow: default_true(),
            show_code_hints: default_true(),
            punctuation_mode: PunctuationMode::BufferedCommit,
        }
    }
}

impl Default for Appearance {
    fn default() -> (r: Self)
        ensures
            r.font_size == 14,
            r.primary_color == 0xFF1E88E5,
            r.background_color == 0xFFFFFFFF,
            r.highlight_color == 0xFFFFD54F,
    {
        Appearance {
            font_size: default_font_size(),
            primary_color: default_primary(),
            background_color: default_background(),
            highlight_color: default_highlight(),
        }
    }
}

impl Default for DictionaryCfg {
    fn default() -> (r: Self)
        ensures
            r.system_table == path_of_text("tables/wubi86.dict"@),
            r.user_table == path_of_text("tables/user.dict"@),
            r.enable_exact_match,
            !r.enable_fuzzy,
            !r.enable_user_dict,
    {
        DictionaryCfg {
            system_table: default_system_table(),
            user_table: default_user_table(),
            enable_exact_match: default_true(),
            enable_fuzzy: false,
            enable_user_dict: false,
        }
    }
}

impl Default for Hotkey {
    fn default() -> (r: Self)
        ensures
            r.page_next@ == "comma"@,
            r.page_prev@ == "period"@,
            r.select_second@ == "semicolon"@,
            r.select_third@ == "quote"@,
            r.toggle_simplify@ == "ctrl_shift_s"@,
    {
        Hotkey {
            page_next: default_page_next(),
            page_prev: default_page_prev(),
            select_second: default_select_second(),
            select_third: default_select_third(),
            toggle_simplify: default_toggle_simplify(),
        }
    }
}

impl Default for Config {
    fn default() -> (r: Self)
        ensures
            r.basic.candidate_count == 5,
            r.basic.commit_mode == CommitMode::SpaceFirst,
            r.basic.switch_key == SwitchKey::Shift,
            r.basic.auto_commit_unique,
            r.basic.commit_on_max_code_overflow,
            r.basic.show_code_hints,
            r.basic.punctuation_mode == PunctuationMode::BufferedCommit,
            r.appearance.font_size == 14,
            r.appearance.primary_color == 0xFF1E88E5,
            r.appearance.background_color == 0xFFFFFFFF,
            r.appearance.highlight_color == 0xFFFFD54F,
            r.dictionary.system_table == path_of_text("tables/wubi86.dict"@),
            r.dictionary.user_table == path_of_text("tables/user.dict"@),
            r.dictionary.enable_exact_match,
            !r.dictionary.enable_fuzzy,
            !r.dictionary.enable_user_dict,
            r.hotkey.page_next@ == "comma"@,
            r.hotkey.page_prev@ == "period"@,
            r.hotkey.select_second@ == "semicolon"@,
            r.hotkey.select_third@ == "quote"@,
            r.hotkey.toggle_simplify@ == "ctrl_shift_s"@,
    {
        Config {
            basic: Basic::default(),
            appearance: Appearance::default(),
            dictionary: DictionaryCfg::default(),
            hotkey: Hotkey::default(),
        }
    }
}

/// The four bindings that must not share a key, with their setting names.
pub open spec fn hotkey_bindings(h: Hotkey) -> Seq<(Seq<char>, Seq<char>)> {
    seq![
        ("hotkey.page_next"@, h.page_next@),
        ("hotkey.page_prev"@, h.page_prev@),
        ("hotkey.select_second"@, h.select_second@),
        ("hotkey.select_third"@, h.select_third@),
    ]
}

/// Whether bindings `i < j` share a key and no earlier pair (in the order
/// `(0,1), (0,2), ..., (2,3)`) does.
pub open spec fn first_conflict(b: Seq<(Seq<char>, Seq<char>)>, i: int, j: int) -> bool {
    &&& 0 <= i < j < b.len()
    &&& b[i].1 == b[j].1
    &&& forall|i2: int, j2: int|
        0 <= i2 < j2 < b.len() && (i2 < i || (i2 == i && j2 < j)) ==> b[i2].1 != b[j2].1
}

/// The reason reported for two bindings on one key.
pub open spec fn conflict_message(first: Seq<char>, key: Seq<char>) -> Seq<char> {
    "与 `"@ + first + "` 冲突：都绑定到 `"@ + key + "`"@
}

impl Config {
    /// Range checks: `basic.candidate_count` must be in 1..=10 and
    /// `appearance.font_size` must not be 0, checked in that order.
    pub fn validate(&self) -> (r: Result<(), Error>)
        ensures
            (self.basic.candidate_count == 0 || self.basic.candidate_count > 10) ==> (r matches Err(
                Error::Invalid(k, m),
            ) && k@ == "basic.candidate_count"@ && m@ == "应位于 1..=10"@),
            !(self.basic.candidate_count == 0 || self.basic.candidate_count > 10)
                && self.appearance.font_size == 0 ==> (r matches Err(Error::Invalid(k, m)) && k@
                == "appearance.font_size"@ && m@ == "不能为 0"@),
            !(self.basic.candidate_count == 0 || self.basic.candidate_count > 10)
                && self.appearance.font_size != 0 ==> r is Ok,
    {
        if self.basic.candidate_count == 0 || self.basic.candidate_count > 10 {
            return Err(Error::Invalid("basic.candidate_count".to_owned(), "应位于 1..=10".to_owned()));
        }
        if self.appearance.font_size == 0 {
            return Err(Error::Invalid("appearance.font_size".to_owned(), "不能为 0".to_owned()));
        }
        Ok(())
    }

    /// Page-next, page-prev, select-second and select-third must be bound
    /// to four different keys.  The first clash `(i, j)` found (scanning
    /// `i`, then `j > i`) is reported against setting `j`.
    pub fn validate_hotkey_conflicts(&self) -> (r: Result<(), Error>)
        ensures
            (forall|i: int, j: int|
                0 <= i < j < 4 ==> hotkey_bindings(self.hotkey)[i].1 != hotkey_bindings(
                    self.hotkey,
                )[j].1) ==> r is Ok,
            r is Err ==> exists|i: int, j: int|
                {
                    &&& first_conflict(hotkey_bindings(self.hotkey), i, j)
                    &&& r matches Err(Error::Invalid(k, m))
                    &&& k@ == hotkey_bindings(self.hotkey)[j].0
                    &&& m@ == conflict_message(
                        hotkey_bindings(self.hotkey)[i].0,
                        hotkey_bindings(self.hotkey)[i].1,
                    )
                },
            r is Ok ==> forall|i: int, j: int|
                0 <= i < j < 4 ==> hotkey_bindings(self.hotkey)[i].1 != hotkey_bindings(
                    self.hotkey,
                )[j].1,
    {
        let fields: Vec<&str> = vec![
            "hotkey.page_next",
            "hotkey.page_prev",
            "hotkey.select_second",
            "hotkey.select_third",
        ];
        let keys: Vec<&String> = vec![
            &self.hotkey.page_next,
            &self.hotkey.page_prev,
            &self.hotkey.select_second,
            &self.hotkey.select_third,
        ];
        let ghost b = hotkey_bindings(self.hotkey);
        proof {
            assert(fields@.len() == 4);
            assert(fields@[0]@ == b[0].0 && fields@[1]@ == b[1].0 && fields@[2]@ == b[2].0
                && fields@[3]@ == b[3].0);
            assert(keys@[0]@ == b[0].1 && keys@[1]@ == b[1].1 && keys@[2]@ == b[2].1
                && keys@[3]@ == b[3].1);
        }
        let mut i: usize = 0;
        while i < 4
            invariant
                i <= 4,
                fields@.len() == 4,
                keys@.len() == 4,
                b == hotkey_bindings(self.hotkey),
                b.len() == 4,
                forall|k: int| 0 <= k < 4 ==> #[trigger] fields@[k]@ == b[k].0,
                forall|k: int| 0 <= k < 4 ==> #[trigger] keys@[k]@ == b[k].1,
                forall|i2: int, j2: int| 0 <= i2 < j2 < 4 && i2 < i ==> b[i2].1 != b[j2].1,
            decreases 4 - i,
        {
            let mut j = i + 1;
            while j < 4
                invariant
                    i < 4,
                    i + 1 <= j <= 4,
                    fields@.len() == 4,
                    keys@.len() == 4,
                    b == hotkey_bindings(self.hotkey),
                    b.len() == 4,
                    forall|k: int| 0 <= k < 4 ==> #[trigger] fields@[k]@ == b[k].0,
                    forall|k: int| 0 <= k < 4 ==> #[trigger] keys@[k]@ == b[k].1,
                    forall|i2: int, j2: int| 0 <= i2 < j2 < 4 && i2 < i ==> b[i2].1 != b[j2].1,
                    forall|j2: int| i < j2 < j ==> b[i as int].1 != b[j2].1,
                decreases 4 - j,
            {
                if *keys[i] == *keys[j] {
                    let mut msg = "与 `".to_owned();
                    let f = crate::text::chars_of(fields[i]);
                    push_chars(&mut msg, f.as_slice());
                    let mid = crate::text::chars_of("` 冲突：都绑定到 `");
                    push_chars(&mut msg, mid.as_slice());
                    let kc = crate::text::chars_of(keys[i].as_str());
                    push_chars(&mut msg, kc.as_slice());
                    let tail = crate::text::chars_of("`");
                    push_chars(&mut msg, tail.as_slice());
                    let field = crate::text::string_from_chars(
                        crate::text::chars_of(fields[j]).as_slice(),
                    );
                    proof {
                        assert(first_conflict(b, i as int, j as int));
                    }
                    return Err(Error::Invalid(field, msg));
                }
                j += 1;
            }
            i += 1;
        }
        Ok(())
    }
}

} // verus!
