//! The logic of the settings program: option labels, hotkey edits, colour
//! parsing, the code-table editor's search and form, and the user word
//! list editor's form.
use crate::config::{CommitMode, PunctuationMode, SwitchKey};
use crate::dictionary::{wildcard_text, Entry, TableConfig};
use crate::sort::{stable_sort_by, stable_sorted, total_preorder};
use crate::text::{
    chars_eq, chars_of, copy_string, parse_hex_u32, parse_hex_u32_spec, string_from_chars, trim,
    trimmed, utf8_len, utf8_len_at_most,
};
use crate::order::{chars_le, chars_less, has_prefix, lemma_le_order};
use crate::user_dictionary::UserDictionary;
use vstd::prelude::*;

verus! {

/// The panel shown in the settings window.
#[derive(Debug, Clone, Copy, PartialEq, Eq, Structural)]
pub enum Panel {
    Basic,
    Appearance,
    Dictionary,
    TipManager,
    About,
}

/// The field a file chooser fills.
#[derive(Debug, Clone, Copy)]
pub enum FilePickTarget {
    SystemTableDir,
    UserTable,
    UserDictionaryImport,
    UserDictionaryExport,
}

/// A configuration file that could not be loaded.
#[derive(Debug, Clone)]
pub struct LoadError {
    /// What went wrong.
    pub message: String,
    /// The file.
    pub path: std::path::PathBuf,
}

// ───────────────────────── labels ─────────────────────────

/// Label of a commit mode.
pub fn commit_mode_label(m: CommitMode) -> (r: &'static str)
    ensures
        r@ == match m {
            CommitMode::SpaceFirst => "空格首选上屏"@,
            CommitMode::EnterCommit => "回车上屏"@,
        },
{
    match m {
        CommitMode::SpaceFirst => "空格首选上屏",
        CommitMode::EnterCommit => "回车上屏",
    }
}

/// Label of a mode switch key.
pub fn switch_key_label(k: SwitchKey) -> (r: &'static str)
    ensures
        r@ == match k {
            SwitchKey::Shift => "Shift"@,
            SwitchKey::CapsLock => "CapsLock"@,
            SwitchKey::CtrlSpace => "Ctrl+Space"@,
        },
{
    match k {
        SwitchKey::Shift => "Shift",
        SwitchKey::CapsLock => "CapsLock",
        SwitchKey::CtrlSpace => "Ctrl+Space",
    }
}

/// Label of a punctuation mode.
pub fn punctuation_mode_label(m: PunctuationMode) -> (r: &'static str)
    ensures
        r@ == match m {
            PunctuationMode::BufferedCommit => "加入缓冲，最后一起上屏"@,
            PunctuationMode::DirectCommit => "立即上屏，不进入编码"@,
        },
{
    match m {
        PunctuationMode::BufferedCommit => "加入缓冲，最后一起上屏",
        PunctuationMode::DirectCommit => "立即上屏，不进入编码",
    }
}

/// Label of a hotkey name.
pub open spec fn hotkey_label_spec(k: Seq<char>) -> Seq<char> {
    if k == "comma"@ {
        "逗号 (,)"@
    } else if k == "period"@ {
        "句号 (.)"@
    } else if k == "semicolon"@ {
        "分号 (;)"@
    } else if k == "quote"@ {
        "单引号 (')"@
    } else if k == "minus"@ {
        "减号 (-)"@
    } else if k == "equal"@ {
        "等号 (=)"@
    } else if k == "space"@ {
        "空格"@
    } else if k == "left"@ {
        "左箭头"@
    } else if k == "right"@ {
        "右箭头"@
    } else if k == "page_down"@ {
        "PageDown"@
    } else if k == "page_up"@ {
        "PageUp"@
    } else {
        "未知"@
    }
}

fn names(k: &[char], name: &str) -> (r: bool)
    ensures
        r == (k@ == name@),
{
    chars_eq(k, chars_of(name).as_slice())
}

/// Label of a hotkey name (see [`hotkey_label_spec`]).
pub fn hotkey_label(k: &str) -> (r: &'static str)
    ensures
        r@ == hotkey_label_spec(k@),
{
    let c = chars_of(k);
    let k = c.as_slice();
    if names(k, "comma") {
        "逗号 (,)"
    } else if names(k, "period") {
        "句号 (.)"
    } else if names(k, "semicolon") {
        "分号 (;)"
    } else if names(k, "quote") {
        "单引号 (')"
    } else if names(k, "minus") {
        "减号 (-)"
    } else if names(k, "equal") {
        "等号 (=)"
    } else if names(k, "space") {
        "空格"
    } else if names(k, "left") {
        "左箭头"
    } else if names(k, "right") {
        "右箭头"
    } else if names(k, "page_down") {
        "PageDown"
    } else if names(k, "page_up") {
        "PageUp"
    } else {
        "未知"
    }
}

// ───────────────────────── edits of the settings ─────────────────────────

/// Marks the settings as changed and drops the status message.
pub fn set_dirty(dirty: &mut bool, status_msg: &mut Option<String>)
    ensures
        *final(dirty),
        *final(status_msg) is None,
{
    *dirty = true;
    *status_msg = None;
}

/// Sets a hotkey to `pending` if that changes it (and then marks the
/// settings as changed); returns whether it changed.
pub fn apply_hotkey_change(
    current: &mut String,
    pending: String,
    dirty: &mut bool,
    status_msg: &mut Option<String>,
) -> (r: bool)
    ensures
        r == (old(current)@ != pending@),
        r ==> final(current)@ == pending@ && *final(dirty) && *final(status_msg) is None,
        !r ==> final(current)@ == old(current)@ && *final(dirty) == *old(dirty) && *final(status_msg)
            == *old(status_msg),
{
    if chars_eq(chars_of(current.as_str()).as_slice(), chars_of(pending.as_str()).as_slice()) {
        return false;
    }
    *current = pending;
    set_dirty(dirty, status_msg);
    true
}

// ───────────────────────── colours ─────────────────────────

/// `s` without all leading copies of `p` (`str::trim_start_matches`).
pub open spec fn strip_repeated(s: Seq<char>, p: Seq<char>) -> Seq<char>
    decreases s.len(),
{
    if p.len() > 0 && p.is_prefix_of(s) {
        strip_repeated(s.skip(p.len() as int), p)
    } else {
        s
    }
}

/// The hexadecimal part of a colour text: trimmed, then leading `0x`,
/// `0X` and `#` prefixes removed (each kind repeatedly, in that order).
pub open spec fn argb_digits(s: Seq<char>) -> Seq<char> {
    strip_repeated(strip_repeated(strip_repeated(trim(s), "0x"@), "0X"@), "#"@)
}

/// A colour: eight hexadecimal digits are `AARRGGBB`; six are `RRGGBB`
/// with alpha `FF`; anything else (lengths in UTF-8 bytes) is refused.
pub open spec fn parse_argb_spec(s: Seq<char>) -> Option<u32> {
    let d = argb_digits(s);
    if utf8_len(d) == 8 {
        parse_hex_u32_spec(d)
    } else if utf8_len(d) == 6 {
        match parse_hex_u32_spec(d) {
            Some(v) => Some(0xFF000000u32 | v),
            None => None,
        }
    } else {
        None
    }
}

fn strip_repeated_prefix(s: Vec<char>, p: &[char]) -> (r: Vec<char>)
    ensures
        r@ == strip_repeated(s@, p@),
{
    let mut s = s;
    if p.len() == 0 {
        return s;
    }
    let ghost orig = s@;
    while has_prefix(s.as_slice(), p)
        invariant
            p@.len() > 0,
            strip_repeated(s@, p@) == strip_repeated(orig, p@),
        decreases s@.len(),
    {
        let ghost before = s@;
        s = crate::text::slice_to_vec(s.as_slice(), p.len(), s.len());
        proof {
            assert(s@ == before.skip(p@.len() as int));
        }
    }
    s
}

/// Parses a colour (see [`parse_argb_spec`]).
pub fn parse_argb(s: &str) -> (r: Result<u32, ()>)
    ensures
        match parse_argb_spec(s@) {
            Some(v) => r == Ok::<u32, ()>(v),
            None => r is Err,
        },
{
    let t = trimmed(chars_of(s).as_slice());
    let t = strip_repeated_prefix(t, chars_of("0x").as_slice());
    let t = strip_repeated_prefix(t, chars_of("0X").as_slice());
    let t = strip_repeated_prefix(t, chars_of("#").as_slice());
    let n = utf8_len_at_most(t.as_slice(), 9);
    if n == 8 {
        match parse_hex_u32(t.as_slice()) {
            Some(v) => Ok(v),
            None => Err(()),
        }
    } else if n == 6 {
        match parse_hex_u32(t.as_slice()) {
            Some(v) => Ok(0xFF000000u32 | v),
            None => Err(()),
        }
    } else {
        Err(())
    }
}

// ───────────────────────── the code-table editor ─────────────────────────

/// One problem found in a code table.
#[derive(Debug, Clone)]
pub struct TableValidationIssue {
    /// The entry concerned, if any.
    pub entry_index: Option<usize>,
    pub message: String,
}

/// The problems found in a code table.
#[derive(Debug, Clone)]
pub struct TableValidationReport {
    pub issue_count: usize,
    pub issues: Vec<TableValidationIssue>,
}

impl Default for TableValidationReport {
    fn default() -> (r: Self)
        ensures
            r.issue_count == 0,
            r.issues@.len() == 0,
    {
        TableValidationReport { issue_count: 0, issues: Vec::new() }
    }
}


/// State of the code-table editor window.
pub struct TableEditor {
    pub open: bool,
    /// The table file.
    pub path: std::path::PathBuf,
    /// The table's settings as loaded.
    pub config: TableConfig,
    /// The wildcard key being edited (empty or one character).
    pub wildcard_key: String,
    pub entries: Vec<Entry>,
    /// The search box.
    pub search: String,
    /// Indices of the entries that match the search, best first; `None`
    /// when the search box is empty.
    pub filtered_indices: Option<Vec<usize>>,
    /// The entry loaded into the form.
    pub selected: Option<usize>,
    /// The form.
    pub code: String,
    pub word: String,
    pub weight: u32,
    pub save_as_name: String,
    pub validation: TableValidationReport,
    /// The validation report no longer describes the entries.
    pub validation_stale: bool,
    /// The entries were changed and not saved.
    pub dirty: bool,
    pub load_error: Option<String>,
}

/// The edited wildcard key is empty or one character (once trimmed).
pub open spec fn draft_is_valid(e: TableEditor) -> bool {
    trim(e.wildcard_key@).len() <= 1
}

/// The table settings being edited: the trimmed wildcard key (none when
/// empty) and the loaded extra code characters.
pub open spec fn draft_of(e: TableEditor) -> TableConfig {
    TableConfig {
        wildcard_key: if trim(e.wildcard_key@).len() == 0 {
            None
        } else {
            Some(trim(e.wildcard_key@)[0])
        },
        charset: e.config.charset,
    }
}

/// `report` is the validation of editor `e`: with an invalid wildcard key
/// one problem about no entry with that message, else a report that
/// `check` may return for the edited settings and the entries.
pub open spec fn validation_refreshed<F: Fn(&TableConfig, &Vec<Entry>) -> TableValidationReport>(
    e: TableEditor,
    report: TableValidationReport,
    check: &F,
) -> bool {
    if draft_is_valid(e) {
        check.ensures((&draft_of(e), &e.entries), report)
    } else {
        &&& report.issue_count == 1
        &&& report.issues@.len() == 1
        &&& report.issues@[0].entry_index is None
        &&& report.issues@[0].message@ == "wildcard_key 必须为空或单个字符"@
    }
}

impl Default for TableEditor {
    fn default() -> (r: Self)
        ensures
            !r.open,
            r.path == crate::config::path_of_text(""@),
            r.config.wildcard_key is None,
            r.config.charset@.len() == 0,
            r.wildcard_key@.len() == 0,
            r.entries@.len() == 0,
            r.search@.len() == 0,
            r.filtered_indices is None,
            r.selected is None,
            r.code@.len() == 0,
            r.word@.len() == 0,
            r.weight == 1,
            r.save_as_name@.len() == 0,
            r.validation.issue_count == 0,
            r.validation.issues@.len() == 0,
            !r.validation_stale,
            !r.dirty,
            r.load_error is None,
    {
        TableEditor {
            open: false,
            path: crate::config::path_from(""),
            config: TableConfig::default(),
            wildcard_key: String::new(),
            entries: Vec::new(),
            search: String::new(),
            filtered_indices: None,
            selected: None,
            code: String::new(),
            word: String::new(),
            weight: 1,
            save_as_name: String::new(),
            validation: TableValidationReport::default(),
            validation_stale: false,
            dirty: false,
            load_error: None,
        }
    }
}

/// The form and search of a freshly opened editor: closed, nothing
/// searched or selected, an empty form with weight 1, no save-as name,
/// nothing changed.
pub open spec fn fresh_form(e: TableEditor) -> bool {
    &&& !e.open
    &&& e.search@.len() == 0
    &&& e.filtered_indices is None
    &&& e.selected is None
    &&& e.code@.len() == 0
    &&& e.word@.len() == 0
    &&& e.weight == 1
    &&& e.save_as_name@.len() == 0
    &&& !e.dirty
}

/// Whether `q` occurs in `v` as a contiguous run.
pub open spec fn occurs_in(q: Seq<char>, v: Seq<char>) -> bool {
    exists|i: int| 0 <= i && i + q.len() <= v.len() && #[trigger] v.subrange(i, i + q.len()) == q
}

/// How well `v` matches the query `q`: 0 equal, 1 starts with it,
/// 2 contains it.
pub open spec fn match_rank(v: Seq<char>, q: Seq<char>) -> Option<u8> {
    if v == q {
        Some(0u8)
    } else if q.is_prefix_of(v) {
        Some(1u8)
    } else if occurs_in(q, v) {
        Some(2u8)
    } else {
        None
    }
}

/// A match's (rank, length in characters, weight).
pub type Relevance = (u8, usize, u32);

/// Better or equal: lower rank, then shorter, then heavier.
pub open spec fn relevance_le(a: Relevance, b: Relevance) -> bool {
    a.0 < b.0 || (a.0 == b.0 && (a.1 < b.1 || (a.1 == b.1 && a.2 >= b.2)))
}

pub open spec fn field_relevance(v: Seq<char>, q: Seq<char>, weight: u32) -> Option<Relevance> {
    match match_rank(v, q) {
        Some(r) => Some((r, v.len() as usize, weight)),
        None => None,
    }
}

/// The better of two matches (the first on a tie).
pub open spec fn better_of(a: Option<Relevance>, b: Option<Relevance>) -> Option<Relevance> {
    match (a, b) {
        (Some(x), Some(y)) => if relevance_le(x, y) {
            Some(x)
        } else {
            Some(y)
        },
        (Some(x), None) => Some(x),
        (None, y) => y,
    }
}

/// How well an entry matches the query: the better of its code's and its
/// word's match.
pub open spec fn relevance_spec(e: Entry, q: Seq<char>) -> Option<Relevance> {
    better_of(field_relevance(e.code@, q, e.weight), field_relevance(e.word@, q, e.weight))
}

/// An entry index with its match.
pub type Hit = (usize, Relevance);

pub open spec fn hit_order() -> spec_fn(Hit, Hit) -> bool {
    |a: Hit, b: Hit| relevance_le(a.1, b.1)
}

/// The matching entries, in table order.
pub open spec fn hits(es: Seq<Entry>, q: Seq<char>) -> Seq<Hit>
    decreases es.len(),
{
    if es.len() == 0 {
        Seq::empty()
    } else {
        let h = hits(es.drop_last(), q);
        match relevance_spec(es.last(), q) {
            Some(r) => h.push(((es.len() - 1) as usize, r)),
            None => h,
        }
    }
}

/// The search result for `search`: nothing when it is blank; otherwise
/// the indices of the matching entries, best match first, ties in table
/// order.
pub open spec fn filter_result(es: Seq<Entry>, search: Seq<char>) -> Option<Seq<usize>> {
    let q = trim(search);
    if q.len() == 0 {
        None
    } else {
        Some(stable_sorted(hits(es, q), hit_order()).map_values(|h: Hit| h.0))
    }
}

pub proof fn lemma_hit_order()
    ensures
        total_preorder(hit_order()),
{
}

/// Whether `q` occurs in `v`.
fn occurs(q: &[char], v: &[char]) -> (r: bool)
    ensures
        r == occurs_in(q@, v@),
{
    if q.len() > v.len() {
        return false;
    }
    if q.len() == 0 {
        assert(v@.subrange(0int, 0int + q@.len()) =~= q@);
        return true;
    }
    let vlen = v.len();
    let limit = vlen - q.len();
    let mut i: usize = 0;
    while i <= limit
        invariant
            vlen == v@.len(),
            limit == v@.len() - q@.len(),
            q@.len() >= 1,
            i <= limit + 1,
            forall|k: int| 0 <= k < i ==> #[trigger] v@.subrange(k, k + q@.len()) != q@,
        decreases limit + 1 - i,
    {
        let end = i + q.len();
        let mut k: usize = i;
        while k < end && v[k] == q[k - i]
            invariant
                i <= limit,
                limit == v@.len() - q@.len(),
                end == i + q@.len(),
                end <= v@.len(),
                i <= k <= end,
                forall|m: int| i <= m < k ==> v@[m] == q@[m - i],
            decreases end - k,
        {
            k += 1;
        }
        if k == end {
            assert(v@.subrange(i as int, i + q@.len()) =~= q@);
            return true;
        }
        assert(v@.subrange(i as int, i + q@.len())[k - i] != q@[k - i]);
        i += 1;
    }
    false
}

fn field_match(v: &[char], q: &[char], weight: u32) -> (r: Option<(u8, usize, u32)>)
    ensures
        r == field_relevance(v@, q@, weight),
{
    let rank: u8 = if chars_eq(v, q) {
        0
    } else if has_prefix(v, q) {
        1
    } else if occurs(q, v) {
        2
    } else {
        return None;
    };
    Some((rank, v.len(), weight))
}

/// How well `entry` matches `query` (see [`relevance_spec`]).
pub fn search_relevance(entry: &Entry, query: &str) -> (r: Option<(u8, usize, u32)>)
    ensures
        r == relevance_spec(*entry, query@),
{
    let q = chars_of(query);
    let a = field_match(chars_of(entry.code.as_str()).as_slice(), q.as_slice(), entry.weight);
    let b = field_match(chars_of(entry.word.as_str()).as_slice(), q.as_slice(), entry.weight);
    match (a, b) {
        (Some(x), Some(y)) => {
            if x.0 < y.0 || (x.0 == y.0 && (x.1 < y.1 || (x.1 == y.1 && x.2 >= y.2))) {
                Some(x)
            } else {
                Some(y)
            }
        },
        (Some(x), None) => Some(x),
        (None, y) => y,
    }
}

impl TableEditor {
    /// The table settings the form describes: the wildcard key must be
    /// blank or one character (after trimming).
    pub fn draft_config(&self) -> (r: Result<TableConfig, String>)
        ensures
            match r {
                Ok(c) => draft_is_valid(*self) && c == draft_of(*self),
                Err(m) => !draft_is_valid(*self) && m@ == "wildcard_key 必须为空或单个字符"@,
            },
    {
        let w = trimmed(chars_of(self.wildcard_key.as_str()).as_slice());
        let wildcard_key = if w.len() == 0 {
            None
        } else if w.len() == 1 {
            Some(w[0])
        } else {
            return Err("wildcard_key 必须为空或单个字符".to_owned());
        };
        Ok(TableConfig { wildcard_key, charset: self.config.charset.clone() })
    }

    /// Rebuilds the validation report and marks it current: when the
    /// edited wildcard key is not valid the report holds that one problem
    /// (about no entry); otherwise it is what `check` reports for the
    /// edited settings and the entries.  Nothing else changes.
    pub fn refresh_validation<F: Fn(&TableConfig, &Vec<Entry>) -> TableValidationReport>(&mut self, check: &F)
        requires
            forall|c: &TableConfig, es: &Vec<Entry>| #[trigger] check.requires((c, es)),
        ensures
            validation_refreshed(*old(self), final(self).validation, check),
            *final(self) == (TableEditor {
                validation: final(self).validation,
                validation_stale: false,
                ..*old(self)
            }),
    {
        match self.draft_config() {
            Ok(config) => {
                let report = check(&config, &self.entries);
                self.validation = report;
            },
            Err(message) => {
                let mut issues: Vec<TableValidationIssue> = Vec::new();
                issues.push(TableValidationIssue { entry_index: None, message });
                self.validation = TableValidationReport { issue_count: 1, issues };
            },
        }
        self.validation_stale = false;
    }

    /// An editor for the table file `path`, given what reading it gave:
    /// its settings and entries (the wildcard key goes into the form, and
    /// the validation is refreshed with `check`), or the reason it could not
    /// be read (kept as `load_error`, with an empty table).
    pub fn from_read<F: Fn(&TableConfig, &Vec<Entry>) -> TableValidationReport>(
        path: std::path::PathBuf,
        read: Result<(TableConfig, Vec<Entry>), String>,
        check: &F,
    ) -> (r: Self)
        requires
            forall|c: &TableConfig, es: &Vec<Entry>| #[trigger] check.requires((c, es)),
        ensures
            r.path == path,
            fresh_form(r),
            !r.validation_stale,
            match read {
                Ok((config, entries)) => {
                    &&& r.config == config
                    &&& r.entries == entries
                    &&& r.wildcard_key@ == wildcard_text(config.wildcard_key)
                    &&& r.load_error is None
                    &&& validation_refreshed(r, r.validation, check)
                },
                Err(m) => {
                    &&& r.load_error == Some(m)
                    &&& r.entries@.len() == 0
                    &&& r.config.wildcard_key is None
                    &&& r.config.charset@.len() == 0
                    &&& r.wildcard_key@.len() == 0
                    &&& r.validation.issue_count == 0
                    &&& r.validation.issues@.len() == 0
                },
            },
    {
        let mut editor = TableEditor {
            open: false,
            path,
            config: TableConfig::default(),
            wildcard_key: String::new(),
            entries: Vec::new(),
            search: String::new(),
            filtered_indices: None,
            selected: None,
            code: String::new(),
            word: String::new(),
            weight: 1,
            save_as_name: String::new(),
            validation: TableValidationReport::default(),
            validation_stale: false,
            dirty: false,
            load_error: None,
        };
        match read {
            Ok((config, entries)) => {
                let mut w = String::new();
                if let Some(c) = config.wildcard_key {
                    crate::text::string_push(&mut w, c);
                }
                proof {
                    assert(w@ =~= wildcard_text(config.wildcard_key));
                }
                editor.wildcard_key = w;
                editor.config = config;
                editor.entries = entries;
                editor.refresh_validation(check);
            },
            Err(m) => {
                editor.load_error = Some(m);
            },
        }
        editor
    }

    /// Records that the table was written to `path` with `config`: the
    /// editor now edits that file, the validation report is cleared and
    /// current, nothing is unsaved and there is no load error.
    pub fn saved(&mut self, path: std::path::PathBuf, config: TableConfig)
        ensures
            final(self).path == path,
            final(self).config == config,
            final(self).validation.issue_count == 0,
            final(self).validation.issues@.len() == 0,
            *final(self) == (TableEditor {
                path: final(self).path,
                config: final(self).config,
                validation: final(self).validation,
                validation_stale: false,
                dirty: false,
                load_error: None,
                ..*old(self)
            }),
    {
        self.path = path;
        self.config = config;
        self.validation = TableValidationReport::default();
        self.validation_stale = false;
        self.dirty = false;
        self.load_error = None;
    }

    /// Recomputes the search result (see [`filter_result`]).
    pub fn refresh_filter(&mut self)
        ensures
            match (final(self).filtered_indices, filter_result(old(self).entries@, old(self).search@)) {
                (Some(v), Some(t)) => v@ == t,
                (None, None) => true,
                _ => false,
            },
            *final(self) == (TableEditor { filtered_indices: final(self).filtered_indices, ..*old(self) }),
    {
        let q = trimmed(chars_of(self.search.as_str()).as_slice());
        if q.len() == 0 {
            self.filtered_indices = None;
            return;
        }
        let query = string_from_chars(q.as_slice());
        let mut matches: Vec<(usize, (u8, usize, u32))> = Vec::new();
        let mut i: usize = 0;
        while i < self.entries.len()
            invariant
                i <= self.entries@.len(),
                query@ == q@,
                matches@ == hits(self.entries@.take(i as int), q@),
            decreases self.entries@.len() - i,
        {
            proof {
                assert(self.entries@.take(i + 1).drop_last() =~= self.entries@.take(i as int));
                assert(self.entries@.take(i + 1).last() == self.entries@[i as int]);
            }
            match search_relevance(&self.entries[i], query.as_str()) {
                Some(r) => {
                    matches.push((i, r));
                },
                None => {},
            }
            i += 1;
        }
        proof {
            assert(self.entries@.take(self.entries@.len() as int) =~= self.entries@);
            lemma_hit_order();
        }
        let ghost unsorted = matches@;
        let le = |a: &(usize, (u8, usize, u32)), b: &(usize, (u8, usize, u32))| -> (r: bool)
            ensures
                r == hit_order()(*a, *b),
            {
                a.1.0 < b.1.0 || (a.1.0 == b.1.0 && (a.1.1 < b.1.1 || (a.1.1 == b.1.1 && a.1.2 >= b.1.2)))
            };
        stable_sort_by(&mut matches, &le, Ghost(hit_order()));
        proof {
            crate::sort::lemma_is_stable_sorted(matches@, unsorted, hit_order());
        }
        let mut out: Vec<usize> = Vec::new();
        let mut k: usize = 0;
        while k < matches.len()
            invariant
                k <= matches@.len(),
                out@ == matches@.take(k as int).map_values(|h: Hit| h.0),
            decreases matches@.len() - k,
        {
            out.push(matches[k].0);
            proof {
                assert(matches@.take(k + 1).map_values(|h: Hit| h.0) =~= matches@.take(k as int).map_values(
                    |h: Hit| h.0,
                ).push(matches@[k as int].0));
            }
            k += 1;
        }
        proof {
            assert(matches@.take(matches@.len() as int) =~= matches@);
        }
        self.filtered_indices = Some(out);
    }

    /// Number of rows shown: the matches when searching, else all entries.
    pub fn visible_len(&self) -> (r: usize)
        ensures
            r == match self.filtered_indices {
                Some(v) => v@.len(),
                None => self.entries@.len(),
            },
    {
        match &self.filtered_indices {
            Some(v) => v.len(),
            None => self.entries.len(),
        }
    }

    /// The entry index shown at `row`.
    pub fn visible_entry_index(&self, row: usize) -> (r: usize)
        requires
            self.filtered_indices is Some ==> row < self.filtered_indices->Some_0@.len(),
        ensures
            r == match self.filtered_indices {
                Some(v) => v@[row as int],
                None => row,
            },
    {
        match &self.filtered_indices {
            Some(v) => v[row],
            None => row,
        }
    }

    /// Loads the entry at `index` into the form; an index past the end
    /// changes nothing.
    pub fn select(&mut self, index: usize)
        ensures
            index < old(self).entries@.len() ==> final(self).code@ == old(self).entries@[index as int].code@
                && final(self).word@ == old(self).entries@[index as int].word@ && final(self).weight
                == old(self).entries@[index as int].weight && final(self).selected == Some(index),
            index < old(self).entries@.len() ==> *final(self) == (TableEditor {
                code: final(self).code,
                word: final(self).word,
                weight: final(self).weight,
                selected: final(self).selected,
                ..*old(self)
            }),
            index >= old(self).entries@.len() ==> *final(self) == *old(self),
    {
        if index >= self.entries.len() {
            return;
        }
        self.code = copy_string(&self.entries[index].code);
        self.word = copy_string(&self.entries[index].word);
        self.weight = self.entries[index].weight;
        self.selected = Some(index);
    }

    /// Writes the form (code and word trimmed) into the selected entry,
    /// marks the table changed, refreshes the search result and the
    /// validation report (see [`TableEditor::refresh_validation`]).  Without
    /// a selection, or with one past the end, nothing changes and the
    /// reason is returned.
    pub fn update_selected<F: Fn(&TableConfig, &Vec<Entry>) -> TableValidationReport>(&mut self, check: &F) -> (r: Result<(), String>)
        requires
            forall|c: &TableConfig, es: &Vec<Entry>| #[trigger] check.requires((c, es)),
        ensures
            match old(self).selected {
                None => r matches Err(m) && m@ == "请先选择词条"@ && *final(self) == *old(self),
                Some(i) => if i >= old(self).entries@.len() {
                    r matches Err(m) && m@ == "所选词条已不存在"@ && *final(self) == *old(self)
                } else {
                    &&& r is Ok
                    &&& final(self).entries@.len() == old(self).entries@.len()
                    &&& forall|k: int| 0 <= k < old(self).entries@.len() && k != i ==> #[trigger] final(self).entries@[k]
                        == old(self).entries@[k]
                    &&& final(self).entries@[i as int].code@ == trim(old(self).code@)
                    &&& final(self).entries@[i as int].word@ == trim(old(self).word@)
                    &&& final(self).entries@[i as int].weight == old(self).weight
                    &&& final(self).dirty
                    &&& !final(self).validation_stale
                    &&& *final(self) == (TableEditor {
                        entries: final(self).entries,
                        dirty: true,
                        validation: final(self).validation,
                        validation_stale: false,
                        filtered_indices: final(self).filtered_indices,
                        ..*old(self)
                    })
                    &&& match (final(self).filtered_indices, filter_result(final(self).entries@, old(self).search@)) {
                        (Some(v), Some(t)) => v@ == t,
                        (None, None) => true,
                        _ => false,
                    }
                    &&& validation_refreshed(*final(self), final(self).validation, check)
                },
            },
    {
        let index = match self.selected {
            Some(i) => i,
            None => return Err("请先选择词条".to_owned()),
        };
        if index >= self.entries.len() {
            return Err("所选词条已不存在".to_owned());
        }
        let code = string_from_chars(trimmed(chars_of(self.code.as_str()).as_slice()).as_slice());
        let word = string_from_chars(trimmed(chars_of(self.word.as_str()).as_slice()).as_slice());
        self.entries.set(index, Entry { code, word, weight: self.weight });
        self.dirty = true;
        self.refresh_filter();
        self.refresh_validation(check);
        Ok(())
    }
}

// ───────────────────────── the table directory ─────────────────────────

/// A file name names a code table: its extension is `dict` (it ends with
/// `.dict` and something comes before that dot).
pub open spec fn is_table_file(name: Seq<char>) -> bool {
    name.len() > 5 && name.skip(name.len() - 5) == ".dict"@
}

/// Whether a file name names a code table (see [`is_table_file`]).
pub fn table_file(name: &str) -> (r: bool)
    ensures
        r == is_table_file(name@),
{
    let cs = chars_of(name);
    if cs.len() <= 5 {
        return false;
    }
    let tail = crate::text::slice_to_vec(cs.as_slice(), cs.len() - 5, cs.len());
    let ext = chars_of(".dict");
    chars_eq(tail.as_slice(), ext.as_slice())
}

/// Name order: lexicographic (as `String`'s order).
pub open spec fn name_order() -> spec_fn(String, String) -> bool {
    |a: String, b: String| chars_le(a@, b@)
}

/// The code tables among the file names of a directory, sorted by name.
pub open spec fn table_names(files: Seq<String>) -> Seq<String> {
    stable_sorted(files.filter(|f: String| is_table_file(f@)), name_order())
}

/// The code tables among the file names of a directory, sorted by name.
pub fn scanned_tables(files: Vec<String>) -> (r: Vec<String>)
    ensures
        r@ == table_names(files@),
{
    let ghost p = |f: String| is_table_file(f@);
    let ghost orig = files@;
    let mut files = files;
    assert(orig.len() == files.len());
    let mut out: Vec<String> = Vec::new();
    let mut i: usize = 0;
    while files.len() > 0
        invariant
            i <= orig.len(),
            i + files@.len() == orig.len(),
            orig.len() <= usize::MAX,
            files@ == orig.skip(i as int),
            p == (|f: String| is_table_file(f@)),
            out@ == orig.take(i as int).filter(p),
        decreases files@.len(),
    {
        let f = files.remove(0);
        proof {
            assert(f == orig[i as int]);
            assert(orig.take(i + 1) =~= orig.take(i as int).push(orig[i as int]));
            orig.take(i as int).lemma_filter_push(orig[i as int], p);
            assert(files@ =~= orig.skip(i + 1));
        }
        if table_file(f.as_str()) {
            out.push(f);
        }
        i += 1;
    }
    proof {
        assert(orig.take(orig.len() as int) =~= orig);
        lemma_le_order();
        assert(total_preorder(name_order()));
    }
    let le = |a: &String, b: &String| -> (r: bool)
        ensures
            r == name_order()(*a, *b),
        {
            let ca = chars_of(a.as_str());
            let cb = chars_of(b.as_str());
            chars_eq(ca.as_slice(), cb.as_slice()) || chars_less(ca.as_slice(), cb.as_slice())
        };
    let ghost unsorted = out@;
    stable_sort_by(&mut out, &le, Ghost(name_order()));
    proof {
        crate::sort::lemma_is_stable_sorted(out@, unsorted, name_order());
    }
    out
}

/// The table to open after a rescan: none while the open table has unsaved
/// changes; otherwise the current table when it is still there, else the
/// first one found (none when none is).
pub fn table_to_open(scanned: &[String], current: Option<&str>, editor_dirty: bool) -> (r: Option<String>)
    ensures
        editor_dirty ==> r is None,
        !editor_dirty ==> match current {
            Some(c) if exists|i: int| 0 <= i < scanned@.len() && #[trigger] scanned@[i]@ == c@ => r
                matches Some(n) && n@ == c@,
            _ => if scanned@.len() > 0 {
                r matches Some(n) && n@ == scanned@[0]@
            } else {
                r is None
            },
        },
{
    if editor_dirty {
        return None;
    }
    if let Some(c) = current {
        let cc = chars_of(c);
        let mut i: usize = 0;
        while i < scanned.len()
            invariant
                i <= scanned@.len(),
                cc@ == c@,
                !editor_dirty,
                current == Some(c),
                forall|k: int| 0 <= k < i ==> #[trigger] scanned@[k]@ != c@,
            decreases scanned@.len() - i,
        {
            if chars_eq(chars_of(scanned[i].as_str()).as_slice(), cc.as_slice()) {
                return Some(string_from_chars(cc.as_slice()));
            }
            i += 1;
        }
    }
    if scanned.len() > 0 {
        Some(copy_string(&scanned[0]))
    } else {
        None
    }
}

/// The file name a table is saved as under a name typed by the user:
/// the name (trimmed) must not be empty, must be a single plain path part
/// (`single_part`, which the caller learns from the platform's path rules
/// for the trimmed name), and gets `.dict` appended unless it ends with it.
pub fn save_as_file_name(name: &str, single_part: bool) -> (r: Result<String, String>)
    ensures
        trim(name@).len() == 0 ==> (r matches Err(m) && m@ == "请输入自定义码表名称"@),
        trim(name@).len() > 0 && !single_part ==> (r matches Err(m) && m@ == "码表名称不能包含路径"@),
        trim(name@).len() > 0 && single_part ==> (r matches Ok(f) && f@ == (if trim(name@).len() >= 5
            && trim(name@).skip(trim(name@).len() - 5) == ".dict"@ {
            trim(name@)
        } else {
            trim(name@) + ".dict"@
        })),
{
    let t = trimmed(chars_of(name).as_slice());
    if t.len() == 0 {
        return Err("请输入自定义码表名称".to_owned());
    }
    if !single_part {
        return Err("码表名称不能包含路径".to_owned());
    }
    let ext = chars_of(".dict");
    let mut f = string_from_chars(t.as_slice());
    if t.len() >= 5 {
        let tail = crate::text::slice_to_vec(t.as_slice(), t.len() - 5, t.len());
        if chars_eq(tail.as_slice(), ext.as_slice()) {
            return Ok(f);
        }
    }
    crate::text::push_chars(&mut f, ext.as_slice());
    Ok(f)
}

// ───────────────────────── the user word list editor ─────────────────────────

/// State of the user word list window.
pub struct UserDictionaryEditor {
    pub open: bool,
    pub dictionary: Option<UserDictionary>,
    /// The form.
    pub code: String,
    pub word: String,
    pub weight: u32,
    /// The entry loaded into the form.
    pub selected: Option<usize>,
}

impl Default for UserDictionaryEditor {
    fn default() -> (r: Self)
        ensures
            !r.open,
            r.dictionary is None,
            r.code@.len() == 0,
            r.word@.len() == 0,
            r.weight == 1000,
            r.selected is None,
    {
        UserDictionaryEditor {
            open: false,
            dictionary: None,
            code: String::new(),
            word: String::new(),
            weight: 1000,
            selected: None,
        }
    }
}

impl UserDictionaryEditor {
    /// Empties the form (weight back to 1000) and drops the selection.
    pub fn clear_form(&mut self)
        ensures
            final(self).code@.len() == 0,
            final(self).word@.len() == 0,
            final(self).weight == 1000,
            final(self).selected is None,
            final(self).open == old(self).open,
            final(self).dictionary == old(self).dictionary,
    {
        self.code = String::new();
        self.word = String::new();
        self.weight = 1000;
        self.selected = None;
    }
}

} // verus!
