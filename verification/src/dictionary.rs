//! The code table: parsing of the `code<TAB>word[<TAB>weight]` text format
//! and lookup over a flat array kept sorted by code (ascending) and weight
//! (descending), so that every prefix selects one contiguous run.
use crate::order::{
    chars_le, chars_less, chars_lt, has_prefix, lemma_le_order, lemma_lt_irreflexive,
    lemma_prefix_interval, lemma_prefix_le,
};
use crate::sort::{
    is_stable_sort, lemma_filter_range, sorted_by_le, stable_sort_by, stable_sorted, total_preorder,
};
use crate::text::{
    strip_cr,
    chars_eq, chars_of, lines, lines_of, parse_u32, parse_u32_spec, split_fields, split_on,
    copy_string, decimal_digits, format_u32, is_digit, is_space, lemma_decimal_digits, lemma_parse_format_u32,
    lemma_split_append, lemma_split_no_sep, lemma_split_push_sep, lemma_trim_unchanged, push_chars, slice_to_vec, string_from_chars, string_push, trim, trimmed, views,
};
use vstd::prelude::*;

verus! {

broadcast use {vstd::seq_lib::group_seq_properties, vstd::seq::group_seq_axioms};

/// `std::path::PathBuf`, carried through as an opaque value.
#[verifier::external_type_specification]
#[verifier::external_body]
pub struct ExPathBuf(std::path::PathBuf);

/// `PathBuf::clone`: claimed, as `Clone` documents, that the result is a
/// copy of the path (equal to it).
pub assume_specification[ <std::path::PathBuf as Clone>::clone ](p: &std::path::PathBuf) -> (r: std::path::PathBuf)
    ensures
        r == *p,
;

/// Errors of loading or parsing a code table.
#[derive(Debug)]
pub enum DictError {
    /// The table file could not be read.
    Io(std::path::PathBuf, String),
    /// A line is malformed (1-based line number, reason).
    InvalidLine(usize, String),
    /// A required header declaration is missing.
    MissingHeader(String),
}

/// One table entry.
#[derive(Debug, Clone, PartialEq, Eq)]
pub struct Entry {
    /// The shape code, such as `"ggll"`.
    pub code: String,
    /// The word the code produces.
    pub word: String,
    /// Frequency weight; larger ranks first.
    pub weight: u32,
}

/// Kind of a match between a query and a code.
#[derive(Debug, Clone, Copy, PartialEq, Eq)]
pub enum MatchKind {
    /// The code equals the query.
    Exact,
    /// The code starts with the query.
    Prefix,
}

/// Options of a prefix search.
#[derive(Debug, Clone, Copy)]
pub struct SearchOptions {
    /// Collect the exact-code block first.
    pub prefer_exact: bool,
    /// Maximum number of results.
    pub limit: usize,
}

impl Default for SearchOptions {
    fn default() -> (r: Self)
        ensures
            r.prefer_exact,
            r.limit == 10,
    {
        SearchOptions { prefer_exact: true, limit: 10 }
    }
}

/// Options of building a table.
#[derive(Debug, Clone)]
pub struct LoadOptions {
    /// Keep the exact-code word index only below this many entries.
    pub trie_threshold: usize,
    /// Lines per parsing chunk.
    pub chunk_lines: usize,
}

impl Default for LoadOptions {
    fn default() -> (r: Self)
        ensures
            r.trie_threshold == 200_000,
            r.chunk_lines == 4096,
    {
        LoadOptions { trie_threshold: 200_000, chunk_lines: 4096 }
    }
}

/// Table-level settings: the wildcard key and extra code characters.
#[derive(Debug, Clone)]
pub struct TableConfig {
    /// A key that stands for any one code character.
    pub wildcard_key: Option<char>,
    /// Characters accepted as code characters besides ASCII letters and digits.
    pub charset: String,
}

impl Default for TableConfig {
    fn default() -> (r: Self)
        ensures
            r.wildcard_key is None,
            r.charset@ == Seq::<char>::empty(),
    {
        TableConfig { wildcard_key: None, charset: String::new() }
    }
}

/// A copy of an entry.
pub fn copy_entry(e: &Entry) -> (r: Entry)
    ensures
        r == *e,
{
    let code = e.code.clone();
    let word = e.word.clone();
    Entry { code, word, weight: e.weight }
}

// ───────────────────────── ordering ─────────────────────────

/// Table order: code ascending, then weight descending.
pub open spec fn entry_le(a: Entry, b: Entry) -> bool {
    chars_lt(a.code@, b.code@) || (a.code@ == b.code@ && a.weight >= b.weight)
}

pub open spec fn table_order() -> spec_fn(Entry, Entry) -> bool {
    |a: Entry, b: Entry| entry_le(a, b)
}

pub proof fn lemma_table_order()
    ensures
        total_preorder(table_order()),
{
    lemma_le_order();
    assert forall|a: Entry, b: Entry| #![trigger table_order()(a, b)]
        table_order()(a, b) || table_order()(b, a) by {
        assert(chars_le(a.code@, b.code@) || chars_le(b.code@, a.code@));
    }
    assert forall|a: Entry, b: Entry, c: Entry| #![trigger table_order()(a, b), table_order()(b, c)]
        table_order()(a, b) && table_order()(b, c) implies table_order()(a, c) by {
        assert(chars_le(a.code@, b.code@));
        assert(chars_le(b.code@, c.code@));
        assert(chars_le(a.code@, c.code@));
        if chars_lt(a.code@, b.code@) || chars_lt(b.code@, c.code@) {
            if a.code@ == c.code@ {
                assert(chars_le(c.code@, b.code@));
                assert(a.code@ == b.code@);
            }
        }
    }
}

/// Whether `a` comes no later than `b` in table order.
pub fn entry_before(a: &Entry, b: &Entry) -> (r: bool)
    ensures
        r == entry_le(*a, *b),
{
    let ca = chars_of(a.code.as_str());
    let cb = chars_of(b.code.as_str());
    if chars_less(ca.as_slice(), cb.as_slice()) {
        true
    } else if chars_eq(ca.as_slice(), cb.as_slice()) {
        a.weight >= b.weight
    } else {
        false
    }
}

/// The entries whose code is `code`.
pub open spec fn with_code(s: Seq<Entry>, code: Seq<char>) -> Seq<Entry> {
    s.filter(|e: Entry| e.code@ == code)
}

/// Search order: exact-code entries first, then weight descending.
pub open spec fn search_order(prefix: Seq<char>) -> spec_fn(Entry, Entry) -> bool {
    |a: Entry, b: Entry| a.code@ == prefix || (b.code@ != prefix && a.weight >= b.weight)
}

/// Weight descending.
pub open spec fn weight_desc() -> spec_fn(Entry, Entry) -> bool {
    |a: Entry, b: Entry| a.weight >= b.weight
}

/// The entries whose code starts with `prefix`, in table order.
pub open spec fn prefix_matches(s: Seq<Entry>, prefix: Seq<char>) -> Seq<Entry> {
    s.filter(|e: Entry| prefix.is_prefix_of(e.code@))
}

/// The ranking of a search: with `prefer_exact`, entries whose code equals
/// the prefix first, then weight descending; without it, weight
/// descending alone.
pub open spec fn search_rank(prefix: Seq<char>, prefer_exact: bool) -> spec_fn(Entry, Entry) -> bool {
    if prefer_exact {
        search_order(prefix)
    } else {
        weight_desc()
    }
}

/// The answer of a search: every entry whose code starts with the prefix,
/// ranked (ties kept in table order), then cut to `opts.limit`.
pub open spec fn search_result(s: Seq<Entry>, prefix: Seq<char>, opts: SearchOptions) -> Seq<Entry> {
    truncated(
        stable_sorted(prefix_matches(s, prefix), search_rank(prefix, opts.prefer_exact)),
        opts.limit as int,
    )
}

/// `code` fits `pattern` when both have the same length and every
/// character of the pattern is the wildcard or the code's character at that
/// place: the wildcard stands for exactly one code character.
pub open spec fn fits_pattern(code: Seq<char>, pattern: Seq<char>, wildcard: char) -> bool {
    &&& code.len() == pattern.len()
    &&& forall|i: int| 0 <= i < pattern.len() ==> #[trigger] pattern[i] == wildcard || code[i] == pattern[i]
}

/// The answer of a wildcard lookup: the entries whose code fits the
/// pattern, larger weights first (ties in table order).
pub open spec fn wildcard_result(s: Seq<Entry>, pattern: Seq<char>, wildcard: char) -> Seq<Entry> {
    stable_sorted(s.filter(|e: Entry| fits_pattern(e.code@, pattern, wildcard)), weight_desc())
}

/// Whether `code` fits `pattern` (see [`fits_pattern`]).
pub fn code_fits(code: &[char], pattern: &[char], wildcard: char) -> (r: bool)
    ensures
        r == fits_pattern(code@, pattern@, wildcard),
{
    if code.len() != pattern.len() {
        return false;
    }
    let mut i: usize = 0;
    while i < pattern.len()
        invariant
            code@.len() == pattern@.len(),
            i <= pattern@.len(),
            forall|k: int| 0 <= k < i ==> #[trigger] pattern@[k] == wildcard || code@[k] == pattern@[k],
        decreases pattern@.len() - i,
    {
        if pattern[i] != wildcard && code[i] != pattern[i] {
            assert(!(pattern@[i as int] == wildcard || code@[i as int] == pattern@[i as int]));
            return false;
        }
        i += 1;
    }
    true
}

/// The exact-code answer of the word index: for every exact entry, in
/// order, all exact entries with the same word.
pub open spec fn word_index_hits(ex: Seq<Entry>) -> Seq<Entry> {
    ex.map_values(|e: Entry| ex.filter(|f: Entry| f.word@ == e.word@)).flatten()
}

/// `s` cut to at most `n` elements.
pub open spec fn truncated<T>(s: Seq<T>, n: int) -> Seq<T> {
    if n < s.len() {
        s.take(n)
    } else {
        s
    }
}

pub proof fn lemma_search_order(prefix: Seq<char>)
    ensures
        total_preorder(search_order(prefix)),
        total_preorder(weight_desc()),
        total_preorder(search_rank(prefix, true)),
        total_preorder(search_rank(prefix, false)),
{
}

/// The entries behind a sequence of references.
pub open spec fn deref_all(r: Seq<&Entry>) -> Seq<Entry> {
    r.map_values(|e: &Entry| *e)
}

// ───────────────────────── the table ─────────────────────────

/// Immutable code table, shareable between threads.
#[derive(Debug)]
pub struct Dictionary {
    entries: Vec<Entry>,
    codes: Vec<Vec<char>>,
    word_index: bool,
    table_config: TableConfig,
    source: Option<std::path::PathBuf>,
}

impl View for Dictionary {
    type V = Seq<Entry>;

    closed spec fn view(&self) -> Seq<Entry> {
        self.entries@
    }
}

impl Dictionary {
    #[verifier::type_invariant]
    spec fn wf(self) -> bool {
        &&& self.codes@.len() == self.entries@.len()
        &&& forall|i: int| 0 <= i < self.codes@.len() ==> #[trigger] self.codes@[i]@ == self.entries@[i].code@
        &&& sorted_by_le(self.entries@, table_order())
    }

    /// Whether exact lookups go through the word index.
    pub closed spec fn has_word_index(self) -> bool {
        self.word_index
    }

    /// The table settings.
    pub closed spec fn spec_table_config(self) -> TableConfig {
        self.table_config
    }

    /// Where the table was read from.
    pub closed spec fn spec_source(self) -> Option<std::path::PathBuf> {
        self.source
    }

    /// A table over `entries` sorted stably by code (ascending) and weight
    /// (descending).
    fn build(
        entries: Vec<Entry>,
        table_config: TableConfig,
        source: Option<std::path::PathBuf>,
        opts: LoadOptions,
    ) -> (r: Self)
        ensures
            is_stable_sort(r@, entries@, table_order()),
            r.has_word_index() == (entries@.len() < opts.trie_threshold),
            r.spec_table_config() == table_config,
            r.spec_source() == source,
    {
        let mut entries = entries;
        proof {
            lemma_table_order();
        }
        let le = |a: &Entry, b: &Entry| -> (r: bool)
            ensures
                r == entry_le(*a, *b),
            { entry_before(a, b) };
        stable_sort_by(&mut entries, &le, Ghost(table_order()));
        let mut codes: Vec<Vec<char>> = Vec::new();
        let mut i: usize = 0;
        while i < entries.len()
            invariant
                i <= entries@.len(),
                codes@.len() == i,
                forall|k: int| 0 <= k < i ==> #[trigger] codes@[k]@ == entries@[k].code@,
            decreases entries@.len() - i,
        {
            codes.push(chars_of(entries[i].code.as_str()));
            i += 1;
        }
        let word_index = entries.len() < opts.trie_threshold;
        Dictionary { entries, codes, word_index, table_config, source }
    }

    /// Builds a table from entries: they are sorted stably by code
    /// (ascending) and weight (descending).  Always succeeds.
    pub fn from_entries(
        entries: Vec<Entry>,
        source: Option<std::path::PathBuf>,
        opts: LoadOptions,
    ) -> (r: Result<std::sync::Arc<Self>, DictError>)
        ensures
            r is Ok,
            r is Ok ==> is_stable_sort(r->Ok_0@, entries@, table_order()),
            r is Ok ==> r->Ok_0.has_word_index() == (entries@.len() < opts.trie_threshold),
            r is Ok ==> r->Ok_0.spec_table_config().wildcard_key is None,
            r is Ok ==> r->Ok_0.spec_table_config().charset@ == Seq::<char>::empty(),
            r is Ok ==> r->Ok_0.spec_source() == source,
    {
        Ok(std::sync::Arc::new(Self::build(entries, TableConfig::default(), source, opts)))
    }

    /// A table with the same settings (wildcard key, extra code
    /// characters) and source as this one, over other entries (sorted as
    /// in [`Dictionary::from_entries`]).  Always succeeds.
    pub fn rebuild_with_entries(&self, entries: Vec<Entry>, opts: LoadOptions) -> (r: Result<
        std::sync::Arc<Self>,
        DictError,
    >)
        ensures
            r is Ok,
            r is Ok ==> is_stable_sort(r->Ok_0@, entries@, table_order()),
            r is Ok ==> r->Ok_0.has_word_index() == (entries@.len() < opts.trie_threshold),
            r is Ok ==> r->Ok_0.spec_table_config().wildcard_key == self.spec_table_config().wildcard_key,
            r is Ok ==> r->Ok_0.spec_table_config().charset@ == self.spec_table_config().charset@,
            r is Ok ==> r->Ok_0.spec_source() == self.spec_source(),
    {
        let table_config = TableConfig {
            wildcard_key: self.table_config.wildcard_key,
            charset: self.table_config.charset.clone(),
        };
        let source = match &self.source {
            Some(p) => Some(p.clone()),
            None => None,
        };
        Ok(std::sync::Arc::new(Self::build(entries, table_config, source, opts)))
    }

    /// Reads a table text (see [`parse_table_text`]) and builds a table from
    /// its settings and entries, sorted as in [`Dictionary::from_entries`].
    pub fn from_text(text: &str, source: Option<std::path::PathBuf>, opts: LoadOptions) -> (r: Result<
        std::sync::Arc<Self>,
        DictError,
    >)
        ensures
            match (r, table_text(lines(text@))) {
                (Ok(d), Ok((h, t))) => exists|v: Seq<Entry>| #[trigger] fields_of_entries(v) == t
                    && is_stable_sort(d@, v, table_order()) && settings_of(d.spec_table_config()) == h
                    && d.spec_source() == source && d.has_word_index() == (t.len()
                    < opts.trie_threshold),
                (Err(e), Err(x)) => text_error(e, x),
                _ => false,
            },
    {
        match parse_table_text(text) {
            Ok((cfg, entries)) => {
                let ghost v = entries@;
                let d = Self::build(entries, cfg, source, opts);
                proof {
                    assert(fields_of_entries(v) == v.map_values(|e: Entry| entry_fields(e)));
                }
                Ok(std::sync::Arc::new(d))
            },
            Err(e) => Err(e),
        }
    }

    /// A table without entries or settings.
    pub(crate) fn empty() -> (r: Self)
        ensures
            r@.len() == 0,
    {
        Self::build(Vec::new(), TableConfig::default(), None, LoadOptions::default())
    }

    /// Number of entries.
    pub fn len(&self) -> (r: usize)
        ensures
            r == self@.len(),
    {
        self.entries.len()
    }

    /// Whether the table has no entries.
    pub fn is_empty(&self) -> (r: bool)
        ensures
            r == (self@.len() == 0),
    {
        self.entries.len() == 0
    }

    /// Where the table was read from, if anywhere.
    pub fn source(&self) -> (r: Option<&std::path::PathBuf>)
        ensures
            match r {
                Some(p) => self.spec_source() == Some(*p),
                None => self.spec_source() is None,
            },
    {
        match &self.source {
            Some(p) => Some(p),
            None => None,
        }
    }

    /// The table settings.
    pub fn table_config(&self) -> (r: &TableConfig)
        ensures
            *r == self.spec_table_config(),
    {
        &self.table_config
    }

    /// All entries, in table order (code ascending, weight descending).
    pub fn entries(&self) -> (r: &[Entry])
        ensures
            r@ == self@,
            sorted_by_le(r@, table_order()),
    {
        proof {
            use_type_invariant(self);
        }
        self.entries.as_slice()
    }

    /// First index whose code does not sort before `key`.
    fn lower_bound(&self, key: &[char]) -> (r: usize)
        ensures
            r <= self@.len(),
            forall|k: int| 0 <= k < r ==> chars_lt(#[trigger] self@[k].code@, key@),
            forall|k: int| r <= k < self@.len() ==> !chars_lt(#[trigger] self@[k].code@, key@),
    {
        proof {
            use_type_invariant(self);
            lemma_le_order();
        }
        let mut lo: usize = 0;
        let mut hi: usize = self.entries.len();
        while lo < hi
            invariant
                lo <= hi <= self@.len(),
                self.codes@.len() == self@.len(),
                forall|i: int| 0 <= i < self.codes@.len() ==> #[trigger] self.codes@[i]@ == self@[i].code@,
                sorted_by_le(self@, table_order()),
                forall|k: int| 0 <= k < lo ==> chars_lt(#[trigger] self@[k].code@, key@),
                forall|k: int| hi <= k < self@.len() ==> !chars_lt(#[trigger] self@[k].code@, key@),
            decreases hi - lo,
        {
            let mid = lo + (hi - lo) / 2;
            proof {
                assert(self.codes@[mid as int]@ == self@[mid as int].code@);
                lemma_le_order();
            }
            if chars_less(self.codes[mid].as_slice(), key) {
                proof {
                    assert forall|k: int| 0 <= k < mid + 1 implies chars_lt(
                        #[trigger] self@[k].code@,
                        key@,
                    ) by {
                        if k < mid {
                            assert(table_order()(self@[k], self@[mid as int]));
                            assert(chars_le(self@[k].code@, self@[mid as int].code@));
                        }
                    }
                }
                lo = mid + 1;
            } else {
                proof {
                    assert forall|k: int| mid <= k < self@.len() implies !chars_lt(
                        #[trigger] self@[k].code@,
                        key@,
                    ) by {
                        if k > mid {
                            assert(table_order()(self@[mid as int], self@[k]));
                            assert(chars_le(self@[mid as int].code@, self@[k].code@));
                            assert(chars_le(key@, self@[mid as int].code@));
                        }
                    }
                }
                hi = mid;
            }
        }
        lo
    }

    /// Entries `[lo, hi)` by reference.
    fn refs_in(&self, lo: usize, hi: usize) -> (r: Vec<&Entry>)
        requires
            lo <= hi <= self@.len(),
        ensures
            deref_all(r@) == self@.subrange(lo as int, hi as int),
    {
        let mut r: Vec<&Entry> = Vec::new();
        let mut i = lo;
        while i < hi
            invariant
                lo <= i <= hi <= self@.len(),
                r@.len() == i - lo,
                forall|k: int| 0 <= k < i - lo ==> *r@[k] == self@[lo + k],
            decreases hi - i,
        {
            r.push(&self.entries[i]);
            i += 1;
        }
        assert(deref_all(r@) =~= self@.subrange(lo as int, hi as int));
        r
    }

    /// The end of the run of entries with code `key` that starts at `lo`.
    fn run_end(&self, key: &[char], lo: usize) -> (r: usize)
        requires
            lo <= self@.len(),
        ensures
            lo <= r <= self@.len(),
            forall|k: int| lo <= k < r ==> #[trigger] self@[k].code@ == key@,
            r < self@.len() ==> self@[r as int].code@ != key@,
    {
        proof {
            use_type_invariant(self);
        }
        let mut hi = lo;
        while hi < self.entries.len() && chars_eq(self.codes[hi].as_slice(), key)
            invariant
                lo <= hi <= self@.len(),
                self.codes@.len() == self@.len(),
                forall|i: int| 0 <= i < self.codes@.len() ==> #[trigger] self.codes@[i]@ == self@[i].code@,
                forall|k: int| lo <= k < hi ==> #[trigger] self@[k].code@ == key@,
            decreases self@.len() - hi,
        {
            hi += 1;
        }
        proof {
            if hi < self@.len() {
                assert(self.codes@[hi as int]@ == self@[hi as int].code@);
            }
        }
        hi
    }

    /// The bounds of the entries with code `key`.
    fn code_range(&self, key: &[char]) -> (r: (usize, usize))
        ensures
            r.0 <= r.1 <= self@.len(),
            forall|k: int| 0 <= k < self@.len() ==> (#[trigger] self@[k].code@ == key@ <==> r.0 <= k < r.1),
    {
        proof {
            use_type_invariant(self);
            lemma_le_order();
        }
        let lo = self.lower_bound(key);
        let hi = self.run_end(key, lo);
        proof {
            assert forall|k: int| 0 <= k < self@.len() implies (#[trigger] self@[k].code@ == key@
                <==> lo <= k < hi) by {
                if k < lo {
                    assert(chars_lt(self@[k].code@, key@));
                    lemma_lt_irreflexive(key@);
                } else if k >= hi {
                    assert(hi < self@.len());
                    assert(self@[hi as int].code@ != key@);
                    assert(!chars_lt(self@[hi as int].code@, key@));
                    assert(chars_lt(key@, self@[hi as int].code@));
                    if k > hi {
                        assert(table_order()(self@[hi as int], self@[k]));
                        assert(chars_le(self@[hi as int].code@, self@[k].code@));
                        assert(chars_lt(key@, self@[k].code@));
                        lemma_lt_irreflexive(key@);
                    }
                }
            }
        }
        (lo, hi)
    }

    /// All entries whose code equals `code`, in table order (weight
    /// descending).
    pub fn exact(&self, code: &str) -> (r: Vec<&Entry>)
        ensures
            deref_all(r@) == with_code(self@, code@),
            forall|i: int, j: int| 0 <= i < j < r@.len() ==> r@[i].weight >= r@[j].weight,
    {
        let key = chars_of(code);
        let (lo, hi) = self.code_range(key.as_slice());
        let r = self.refs_in(lo, hi);
        proof {
            use_type_invariant(self);
            lemma_filter_range(self@, |e: Entry| e.code@ == code@, lo as int, hi as int);
            assert forall|i: int, j: int| 0 <= i < j < r@.len() implies r@[i].weight >= r@[j].weight by {
                assert(*r@[i] == deref_all(r@)[i]);
                assert(*r@[j] == deref_all(r@)[j]);
                assert(deref_all(r@)[i] == self@[lo + i]);
                assert(deref_all(r@)[j] == self@[lo + j]);
                assert(table_order()(self@[lo + i], self@[lo + j]));
                lemma_lt_irreflexive(key@);
            }
        }
        r
    }

    /// The bounds of the entries whose code starts with `key`.
    fn prefix_range(&self, key: &[char]) -> (r: (usize, usize))
        ensures
            r.0 <= r.1 <= self@.len(),
            forall|k: int| 0 <= k < self@.len() ==> (key@.is_prefix_of(#[trigger] self@[k].code@)
                <==> r.0 <= k < r.1),
    {
        proof {
            use_type_invariant(self);
            lemma_le_order();
        }
        let lo = self.lower_bound(key);
        let mut hi = lo;
        while hi < self.entries.len() && has_prefix(self.codes[hi].as_slice(), key)
            invariant
                lo <= hi <= self@.len(),
                self.codes@.len() == self@.len(),
                forall|i: int| 0 <= i < self.codes@.len() ==> #[trigger] self.codes@[i]@ == self@[i].code@,
                forall|k: int| lo <= k < hi ==> key@.is_prefix_of(#[trigger] self@[k].code@),
            decreases self@.len() - hi,
        {
            hi += 1;
        }
        proof {
            if hi < self@.len() {
                assert(self.codes@[hi as int]@ == self@[hi as int].code@);
                assert(!key@.is_prefix_of(self@[hi as int].code@));
            }
            assert forall|k: int| 0 <= k < self@.len() implies (key@.is_prefix_of(
                #[trigger] self@[k].code@,
            ) <==> lo <= k < hi) by {
                lemma_le_order();
                if k < lo {
                    assert(chars_lt(self@[k].code@, key@));
                    if key@.is_prefix_of(self@[k].code@) {
                        lemma_prefix_le(key@, self@[k].code@);
                    }
                } else if k >= hi {
                    if key@.is_prefix_of(self@[k].code@) && k > hi {
                        assert(table_order()(self@[hi as int], self@[k]));
                        assert(chars_le(self@[hi as int].code@, self@[k].code@));
                        assert(!chars_lt(self@[hi as int].code@, key@));
                        lemma_prefix_interval(key@, self@[hi as int].code@, self@[k].code@);
                    }
                }
            }
        }
        (lo, hi)
    }

    /// Entries whose code starts with `prefix`, ranked and then cut to
    /// `opts.limit`: with `opts.prefer_exact` the entries whose code equals
    /// the prefix come first, and otherwise (and within each group) larger
    /// weights come first; ties keep table order.  An empty prefix finds
    /// nothing.
    pub fn search(&self, prefix: &str, opts: SearchOptions) -> (r: Vec<&Entry>)
        ensures
            prefix@.len() == 0 ==> r@.len() == 0,
            prefix@.len() > 0 ==> deref_all(r@) == search_result(self@, prefix@, opts),
    {
        if prefix.is_empty() {
            return Vec::new();
        }
        let key = chars_of(prefix);
        let (lo, hi) = self.prefix_range(key.as_slice());
        let mut results = self.refs_in(lo, hi);
        proof {
            lemma_filter_range(self@, |e: Entry| prefix@.is_prefix_of(e.code@), lo as int, hi as int);
            assert(deref_all(results@) == prefix_matches(self@, prefix@));
            lemma_search_order(prefix@);
        }
        let ghost unsorted = results@;
        let ghost rank = search_rank(prefix@, opts.prefer_exact);
        let ghost le_ref = |a: &Entry, b: &Entry| rank(*a, *b);
        let prefer = opts.prefer_exact;
        let le = |a: &&Entry, b: &&Entry| -> (r: bool)
            ensures
                r == search_rank(prefix@, prefer)(**a, **b),
            {
                if prefer {
                    let a_exact = chars_eq(chars_of(a.code.as_str()).as_slice(), key.as_slice());
                    let b_exact = chars_eq(chars_of(b.code.as_str()).as_slice(), key.as_slice());
                    a_exact || (!b_exact && a.weight >= b.weight)
                } else {
                    a.weight >= b.weight
                }
            };
        stable_sort_by(&mut results, &le, Ghost(le_ref));
        proof {
            let f = |e: &Entry| *e;
            assert(le_ref =~= (|x: &Entry, y: &Entry| rank(f(x), f(y))));
            crate::sort::lemma_stable_sort_map(results@, unsorted, f, rank);
            assert(deref_all(results@) =~= results@.map_values(f));
            assert(deref_all(unsorted) =~= unsorted.map_values(f));
            crate::sort::lemma_is_stable_sorted(deref_all(results@), deref_all(unsorted), rank);
        }
        let ghost sorted = deref_all(results@);
        results.truncate(opts.limit);
        proof {
            assert(deref_all(results@) =~= truncated(sorted, opts.limit as int));
        }
        results
    }

    /// Entries whose code fits `pattern`, where `wildcard` stands for any
    /// one code character: codes of the pattern's length only, larger
    /// weights first, ties in table order.
    pub fn search_wildcard(&self, pattern: &str, wildcard: char) -> (r: Vec<&Entry>)
        ensures
            deref_all(r@) == wildcard_result(self@, pattern@, wildcard),
    {
        proof {
            use_type_invariant(self);
        }
        let pat = chars_of(pattern);
        let ghost s = self@;
        let ghost p = |e: Entry| fits_pattern(e.code@, pattern@, wildcard);
        let mut results: Vec<&Entry> = Vec::new();
        let mut i: usize = 0;
        proof {
            assert(s.take(0) =~= Seq::<Entry>::empty());
            assert(deref_all(results@) =~= Seq::<Entry>::empty());
        }
        while i < self.entries.len()
            invariant
                i <= s.len(),
                s == self@,
                pat@ == pattern@,
                p == (|e: Entry| fits_pattern(e.code@, pattern@, wildcard)),
                self.codes@.len() == s.len(),
                forall|j: int| 0 <= j < self.codes@.len() ==> #[trigger] self.codes@[j]@ == s[j].code@,
                deref_all(results@) == s.take(i as int).filter(p),
            decreases s.len() - i,
        {
            proof {
                assert(s.take(i + 1) =~= s.take(i as int).push(s[i as int]));
                s.take(i as int).lemma_filter_push(s[i as int], p);
                assert(self.codes@[i as int]@ == s[i as int].code@);
            }
            if code_fits(self.codes[i].as_slice(), pat.as_slice(), wildcard) {
                let ghost old_results = results@;
                results.push(&self.entries[i]);
                proof {
                    assert(deref_all(results@) =~= deref_all(old_results).push(s[i as int]));
                }
            }
            i += 1;
        }
        proof {
            assert(s.take(s.len() as int) =~= s);
        }
        let ghost unsorted = results@;
        let ghost rank = weight_desc();
        let ghost le_ref = |a: &Entry, b: &Entry| rank(*a, *b);
        let le = |a: &&Entry, b: &&Entry| -> (r: bool)
            ensures
                r == weight_desc()(**a, **b),
            { a.weight >= b.weight };
        stable_sort_by(&mut results, &le, Ghost(le_ref));
        proof {
            lemma_search_order(pattern@);
            let f = |e: &Entry| *e;
            assert(le_ref =~= (|x: &Entry, y: &Entry| rank(f(x), f(y))));
            crate::sort::lemma_stable_sort_map(results@, unsorted, f, rank);
            assert(deref_all(results@) =~= results@.map_values(f));
            assert(deref_all(unsorted) =~= unsorted.map_values(f));
            crate::sort::lemma_is_stable_sorted(deref_all(results@), deref_all(unsorted), rank);
        }
        results
    }

    /// Whether some code starts with `prefix` (never for an empty prefix).
    pub fn has_prefix(&self, prefix: &str) -> (r: bool)
        ensures
            r == (prefix@.len() > 0 && exists|k: int|
                0 <= k < self@.len() && prefix@.is_prefix_of(#[trigger] self@[k].code@)),
    {
        if prefix.is_empty() {
            return false;
        }
        let key = chars_of(prefix);
        let (lo, hi) = self.prefix_range(key.as_slice());
        proof {
            if lo < hi {
                assert(prefix@.is_prefix_of(self@[lo as int].code@));
            }
        }
        lo < hi
    }

    /// The entry whose code is `code`, when exactly one entry has that
    /// code (the test for committing a unique code at once); `None` when no
    /// entry or several entries have it.
    pub fn unique_exact(&self, code: &str) -> (r: Option<&Entry>)
        ensures
            r is Some == (with_code(self@, code@).len() == 1),
            r is Some ==> *r->Some_0 == with_code(self@, code@)[0],
    {
        let ex = self.exact(code);
        if ex.len() == 1 {
            proof {
                assert(deref_all(ex@)[0] == *ex@[0]);
            }
            Some(ex[0])
        } else {
            None
        }
    }

    /// Lookup through the exact-code word index: when the table keeps the
    /// index, `opts.prefer_exact` holds and some code equals `prefix`, the
    /// answer lists, for every exact entry in order, all exact entries with
    /// the same word, cut to `opts.limit`; otherwise it is `search`.
    pub fn search_trie(&self, prefix: &str, opts: SearchOptions) -> (r: Vec<&Entry>)
        ensures
            self.has_word_index() && opts.prefer_exact && with_code(self@, prefix@).len() > 0
                ==> deref_all(r@) == truncated(
                word_index_hits(with_code(self@, prefix@)),
                opts.limit as int,
            ),
            !(self.has_word_index() && opts.prefer_exact && with_code(self@, prefix@).len() > 0)
                ==> (prefix@.len() == 0 ==> r@.len() == 0),
            !(self.has_word_index() && opts.prefer_exact && with_code(self@, prefix@).len() > 0)
                ==> (prefix@.len() > 0 ==> deref_all(r@) == search_result(self@, prefix@, opts)),
    {
        if self.word_index && opts.prefer_exact {
            let ex = self.exact(prefix);
            if ex.len() > 0 {
                let ghost exs = deref_all(ex@);
                let ghost g = |e: Entry| exs.filter(|f: Entry| f.word@ == e.word@);
                let mut out: Vec<&Entry> = Vec::new();
                let mut i: usize = 0;
                while i < ex.len()
                    invariant
                        i <= ex@.len(),
                        exs == deref_all(ex@),
                        g == (|e: Entry| exs.filter(|f: Entry| f.word@ == e.word@)),
                        deref_all(out@) == exs.take(i as int).map_values(g).flatten_alt(),
                    decreases ex@.len() - i,
                {
                    let a = ex[i];
                    let ghost q = |f: Entry| f.word@ == a.word@;
                    let ghost base = deref_all(out@);
                    let mut j: usize = 0;
                    while j < ex.len()
                        invariant
                            j <= ex@.len(),
                            i < ex@.len(),
                            *a == exs[i as int],
                            exs == deref_all(ex@),
                            q == (|f: Entry| f.word@ == a.word@),
                            deref_all(out@) == base + exs.take(j as int).filter(q),
                        decreases ex@.len() - j,
                    {
                        let b = ex[j];
                        proof {
                            assert(exs.take(j + 1) =~= exs.take(j as int).push(*b));
                            exs.take(j as int).lemma_filter_push(*b, q);
                        }
                        if a.word == b.word {
                            let ghost old_out = out@;
                            out.push(b);
                            proof {
                                assert(deref_all(out@) =~= deref_all(old_out).push(*b));
                            }
                        }
                        j += 1;
                    }
                    proof {
                        assert(exs.take(ex@.len() as int) =~= exs);
                        let m = exs.take(i + 1).map_values(g);
                        assert(m.drop_last() =~= exs.take(i as int).map_values(g));
                        assert(m.last() == g(exs[i as int]));
                        assert(g(exs[i as int]) == exs.filter(q));
                        assert(m.flatten_alt() == m.drop_last().flatten_alt() + m.last());
                    }
                    i += 1;
                }
                proof {
                    assert(exs.take(ex@.len() as int) =~= exs);
                    exs.map_values(g).lemma_flatten_and_flatten_alt_are_equivalent();
                    assert(g == (|e: Entry| exs.filter(|f: Entry| f.word@ == e.word@)));
                    assert(exs.map_values(g) =~= exs.map_values(
                        |e: Entry| exs.filter(|f: Entry| f.word@ == e.word@),
                    ));
                }
                let ghost full = deref_all(out@);
                out.truncate(opts.limit);
                proof {
                    assert(deref_all(out@) =~= truncated(full, opts.limit as int));
                }
                return out;
            }
        }
        self.search(prefix, opts)
    }
}

// ───────────────────────── laws ─────────────────────────

/// A search answers `opts.limit` entries, or every entry with the prefix
/// when there are fewer; each answer's code starts with the prefix; the
/// answers are ranked (exact codes first when asked, then larger weights);
/// and an entry with the prefix that was left out ranks no higher than any
/// answer, so the limit cuts only after ranking.
pub proof fn lemma_search_answer(s: Seq<Entry>, prefix: Seq<char>, opts: SearchOptions)
    ensures
        ({
            let r = search_result(s, prefix, opts);
            let m = prefix_matches(s, prefix);
            let rank = search_rank(prefix, opts.prefer_exact);
            &&& r.len() == if m.len() < opts.limit {
                m.len() as int
            } else {
                opts.limit as int
            }
            &&& sorted_by_le(r, rank)
            &&& forall|k: int| 0 <= k < r.len() ==> prefix.is_prefix_of(#[trigger] r[k].code@)
            &&& forall|k: int| 0 <= k < r.len() ==> m.contains(#[trigger] r[k])
            &&& forall|k: int, e: Entry| #![trigger r[k], m.contains(e)]
                0 <= k < r.len() && m.contains(e) && !r.contains(e) ==> rank(r[k], e)
        }),
{
    broadcast use vstd::seq_lib::group_filter_ensures;

    let m = prefix_matches(s, prefix);
    let rank = search_rank(prefix, opts.prefer_exact);
    lemma_search_order(prefix);
    crate::sort::lemma_stable_sort_exists(m, rank);
    let sorted = stable_sorted(m, rank);
    crate::sort::lemma_stable_sort_members(sorted, m, rank);
    crate::sort::lemma_stable_sort_keeps(sorted, m, rank);
    let r = truncated(sorted, opts.limit as int);
    assert forall|k: int| 0 <= k < r.len() implies m.contains(#[trigger] r[k]) by {
        assert(r[k] == sorted[k]);
    }
    assert forall|k: int| 0 <= k < r.len() implies prefix.is_prefix_of(#[trigger] r[k].code@) by {
        assert(m.contains(r[k]));
        let j = choose|j: int| 0 <= j < m.len() && m[j] == r[k];
        assert(prefix.is_prefix_of(m[j].code@));
    }
    assert forall|k: int, e: Entry| #![trigger r[k], m.contains(e)]
        0 <= k < r.len() && m.contains(e) && !r.contains(e) implies rank(r[k], e) by {
        let i = choose|i: int| 0 <= i < m.len() && m[i] == e;
        assert(sorted.contains(m[i]));
        let j = choose|j: int| 0 <= j < sorted.len() && sorted[j] == e;
        if j < r.len() {
            assert(r[j] == sorted[j]);
            assert(r.contains(e));
        }
        assert(r[k] == sorted[k]);
        assert(k < j);
    }
}

// ───────────────────────── the text format ─────────────────────────

/// What one line of a table file is: `0` blank or comment (first non-blank
/// character `#`), `1` an entry, `2` a line without a word field, `3` a
/// line whose code or word is empty.
pub open spec fn table_line_kind(raw: Seq<char>) -> int {
    let line = trim(raw);
    let parts = split_fields(line, '\t');
    if line.len() == 0 || line[0] == '#' {
        0
    } else if parts.len() < 2 {
        2
    } else if trim(parts[0]).len() == 0 || trim(parts[1]).len() == 0 {
        3
    } else {
        1
    }
}

/// The (code, word, weight) of an entry line: tab-separated fields, each
/// trimmed; a third field that is not a `u32` (or its absence) gives
/// weight 1; further fields are ignored.
pub open spec fn table_line_entry(raw: Seq<char>) -> (Seq<char>, Seq<char>, u32) {
    let parts = split_fields(trim(raw), '\t');
    let weight = if parts.len() >= 3 {
        match parse_u32_spec(trim(parts[2])) {
            Some(w) => w,
            None => 1,
        }
    } else {
        1
    };
    (trim(parts[0]), trim(parts[1]), weight)
}

/// The entries of a table text given as lines, skipping the first `skip`
/// lines (the header), or the first bad line as (1-based line number,
/// kind).
pub open spec fn parse_table(ls: Seq<Seq<char>>, skip: int) -> Result<Seq<(Seq<char>, Seq<char>, u32)>, (int, int)>
    decreases ls.len(),
{
    if ls.len() == 0 {
        Ok(Seq::empty())
    } else {
        match parse_table(ls.drop_last(), skip) {
            Err(e) => Err(e),
            Ok(v) => {
                let k = table_line_kind(ls.last());
                if ls.len() - 1 < skip || k == 0 {
                    Ok(v)
                } else if k == 1 {
                    Ok(v.push(table_line_entry(ls.last())))
                } else {
                    Err((ls.len() as int, k))
                }
            },
        }
    }
}

/// Once a prefix of the lines is rejected, so is the whole text, with
/// the same error.
pub proof fn lemma_parse_table_error(ls: Seq<Seq<char>>, skip: int, j: int)
    requires
        0 <= j <= ls.len(),
        parse_table(ls.take(j), skip) is Err,
    ensures
        parse_table(ls, skip) == parse_table(ls.take(j), skip),
    decreases ls.len() - j,
{
    if j < ls.len() {
        assert(ls.take(j + 1).drop_last() =~= ls.take(j));
        lemma_parse_table_error(ls, skip, j + 1);
    } else {
        assert(ls.take(j) =~= ls);
    }
}

/// Skipped lines give no entries.
pub proof fn lemma_parse_table_skipped(ls: Seq<Seq<char>>, skip: int)
    requires
        ls.len() <= skip,
    ensures
        parse_table(ls, skip) == Ok::<Seq<(Seq<char>, Seq<char>, u32)>, (int, int)>(Seq::empty()),
    decreases ls.len(),
{
    if ls.len() > 0 {
        lemma_parse_table_skipped(ls.drop_last(), skip);
    }
}

/// The reason given for a bad line of the given kind.
pub open spec fn line_error_message(kind: int) -> Seq<char> {
    if kind == 2 {
        "缺少词条"@
    } else if kind == 4 {
        "头部声明格式非法"@
    } else if kind == 5 {
        "通配键必须是单个字符"@
    } else {
        "编码或词条为空"@
    }
}

/// The (code, word, weight) of an entry.
pub open spec fn entry_fields(e: Entry) -> (Seq<char>, Seq<char>, u32) {
    (e.code@, e.word@, e.weight)
}

// ───────────────────────── the table header ─────────────────────────

/// A table text may open with a header: a line `---`, settings lines
/// `key: value`, and a closing `---`.
pub open spec fn is_fence(raw: Seq<char>) -> bool {
    trim(raw) == "---"@
}

/// The first fence line at or after `j`, or the number of lines.
pub open spec fn fence_from(ls: Seq<Seq<char>>, j: int) -> int
    decreases ls.len() - j,
{
    if j < 0 || j >= ls.len() {
        ls.len() as int
    } else if is_fence(ls[j]) {
        j
    } else {
        fence_from(ls, j + 1)
    }
}

/// The text opens with a header.
pub open spec fn opens_header(ls: Seq<Seq<char>>) -> bool {
    ls.len() > 0 && is_fence(ls[0])
}

/// Position of the first `:` in `t`, or its length.
pub open spec fn colon_at(t: Seq<char>) -> nat
    decreases t.len(),
{
    if t.len() == 0 || t[0] == ':' {
        0
    } else {
        1 + colon_at(t.drop_first())
    }
}

/// Table settings as they are read: the wildcard key and the extra code
/// characters.
pub type HeaderSettings = (Option<char>, Seq<char>);

/// The settings after one header line, or its error kind: blank and `#`
/// lines change nothing; `wildcard_key: c` sets the wildcard (an empty
/// value clears it; longer values are kind 5); `charset: chars` sets the
/// extra code characters; other keys are ignored; a line without `:` is
/// kind 4.  Keys and values are trimmed.
pub open spec fn header_line(cfg: HeaderSettings, raw: Seq<char>) -> Result<HeaderSettings, int> {
    let t = trim(raw);
    if t.len() == 0 || t[0] == '#' {
        Ok(cfg)
    } else if colon_at(t) >= t.len() {
        Err(4)
    } else {
        let key = trim(t.take(colon_at(t) as int));
        let value = trim(t.skip(colon_at(t) + 1int));
        if key == "wildcard_key"@ {
            if value.len() == 0 {
                Ok((None, cfg.1))
            } else if value.len() == 1 {
                Ok((Some(value[0]), cfg.1))
            } else {
                Err(5)
            }
        } else if key == "charset"@ {
            Ok((cfg.0, value))
        } else {
            Ok(cfg)
        }
    }
}

/// The settings given by header lines `1..end`, or the first bad one as
/// (1-based line number, kind).
pub open spec fn header_settings(ls: Seq<Seq<char>>, end: int) -> Result<HeaderSettings, (int, int)>
    decreases end,
{
    if end <= 1 {
        Ok((None, Seq::empty()))
    } else {
        match header_settings(ls, end - 1) {
            Err(e) => Err(e),
            Ok(cfg) => match header_line(cfg, ls[end - 1]) {
                Ok(c) => Ok(c),
                Err(k) => Err((end, k)),
            },
        }
    }
}

/// A whole table text: its settings and entries, or the first error as
/// (1-based line number, kind); an unclosed header is `(0, 6)`.
pub open spec fn table_text(ls: Seq<Seq<char>>) -> Result<(HeaderSettings, Seq<(Seq<char>, Seq<char>, u32)>), (int, int)> {
    if opens_header(ls) {
        let c = fence_from(ls, 1);
        if c >= ls.len() {
            Err((0, 6))
        } else {
            match header_settings(ls, c) {
                Err(e) => Err(e),
                Ok(cfg) => match parse_table(ls, c + 1) {
                    Ok(v) => Ok((cfg, v)),
                    Err(e) => Err(e),
                },
            }
        }
    } else {
        match parse_table(ls, 0) {
            Ok(v) => Ok(((None, Seq::empty()), v)),
            Err(e) => Err(e),
        }
    }
}

/// The error that stands for an error (line, kind) of [`table_text`].
pub open spec fn text_error(r: DictError, e: (int, int)) -> bool {
    match r {
        DictError::MissingHeader(msg) => e.1 == 6 && msg@ == "缺少结束标记 ---"@,
        DictError::InvalidLine(n, msg) => e.1 != 6 && n == e.0 && msg@ == line_error_message(e.1),
        _ => false,
    }
}

/// The position of the first `:` in `t` (its length when there is none).
fn find_colon(t: &[char]) -> (r: usize)
    ensures
        r == colon_at(t@),
        r <= t@.len(),
{
    let mut i: usize = 0;
    assert(t@.skip(0) =~= t@);
    while i < t.len() && t[i] != ':'
        invariant
            i <= t@.len(),
            colon_at(t@) == i + colon_at(t@.skip(i as int)),
        decreases t@.len() - i,
    {
        assert(t@.skip(i as int).drop_first() =~= t@.skip(i + 1));
        i += 1;
    }
    i
}

/// Whether a line is a header fence.
fn fence_line(raw: &[char]) -> (r: bool)
    ensures
        r == is_fence(raw@),
{
    let t = trimmed(raw);
    let fence = chars_of("---");
    chars_eq(t.as_slice(), fence.as_slice())
}

/// Applies one header line to the settings read so far.
fn apply_header_line(wildcard: &mut Option<char>, charset: &mut Vec<char>, raw: &[char]) -> (r: Result<(), usize>)
    ensures
        match header_line((*old(wildcard), old(charset)@), raw@) {
            Ok(c) => r is Ok && c == (*final(wildcard), final(charset)@),
            Err(k) => r == Err::<(), usize>(k as usize),
        },
{
    let t = trimmed(raw);
    if t.len() == 0 || t[0] == '#' {
        return Ok(());
    }
    let c = find_colon(t.as_slice());
    if c >= t.len() {
        return Err(4);
    }
    let key_raw = slice_to_vec(t.as_slice(), 0, c);
    let key = trimmed(key_raw.as_slice());
    let value_raw = slice_to_vec(t.as_slice(), c + 1, t.len());
    let value = trimmed(value_raw.as_slice());
    proof {
        assert(key_raw@ == t@.take(c as int));
        assert(value_raw@ == t@.skip(c + 1));
    }
    let wk = chars_of("wildcard_key");
    let cs = chars_of("charset");
    if chars_eq(key.as_slice(), wk.as_slice()) {
        if value.len() == 0 {
            *wildcard = None;
            Ok(())
        } else if value.len() == 1 {
            *wildcard = Some(value[0]);
            Ok(())
        } else {
            Err(5)
        }
    } else if chars_eq(key.as_slice(), cs.as_slice()) {
        *charset = value;
        Ok(())
    } else {
        Ok(())
    }
}

/// The entry lines from `skip` on, continuing `parse_table`.
fn parse_entries(ls: &Vec<Vec<char>>, skip: usize) -> (r: Result<Vec<Entry>, DictError>)
    requires
        skip <= ls@.len(),
    ensures
        match (r, parse_table(views(ls@), skip as int)) {
            (Ok(v), Ok(t)) => v@.map_values(|e: Entry| entry_fields(e)) == t,
            (Err(e), Err(x)) => text_error(e, x) && x.1 != 6,
            _ => false,
        },
{
    let ghost lv = views(ls@);
    let mut out: Vec<Entry> = Vec::new();
    let mut i: usize = skip;
    proof {
        lemma_parse_table_skipped(lv.take(skip as int), skip as int);
        assert(out@.map_values(|e: Entry| entry_fields(e)) =~= Seq::<(Seq<char>, Seq<char>, u32)>::empty());
    }
    while i < ls.len()
        invariant
            skip <= i <= ls@.len(),
            lv == views(ls@),
            parse_table(lv.take(i as int), skip as int) == Ok::<Seq<(Seq<char>, Seq<char>, u32)>, (int, int)>(
                out@.map_values(|e: Entry| entry_fields(e)),
            ),
        decreases ls@.len() - i,
    {
        let raw = &ls[i];
        proof {
            assert(raw@ == lv[i as int]);
            assert(lv.take(i + 1).drop_last() =~= lv.take(i as int));
            assert(lv.take(i + 1).last() == raw@);
        }
        let line = trimmed(raw.as_slice());
        if line.len() == 0 || line[0] == '#' {
            i += 1;
            continue;
        }
        let parts = split_on(line.as_slice(), '\t');
        proof {
            crate::text::lemma_split_fields_nonempty(line@, '\t');
            assert(views(parts@)[0] == parts@[0]@);
        }
        let code = trimmed(parts[0].as_slice());
        if parts.len() < 2 {
            proof {
                lemma_parse_table_error(lv, skip as int, i + 1);
            }
            return Err(DictError::InvalidLine(i + 1, "缺少词条".to_owned()));
        }
        proof {
            assert(views(parts@)[1] == parts@[1]@);
        }
        let word = trimmed(parts[1].as_slice());
        let weight: u32 = if parts.len() >= 3 {
            proof {
                assert(views(parts@)[2] == parts@[2]@);
            }
            let w = trimmed(parts[2].as_slice());
            match parse_u32(w.as_slice()) {
                Some(v) => v,
                None => 1,
            }
        } else {
            1
        };
        if code.len() == 0 || word.len() == 0 {
            proof {
                lemma_parse_table_error(lv, skip as int, i + 1);
            }
            return Err(DictError::InvalidLine(i + 1, "编码或词条为空".to_owned()));
        }
        let entry = Entry {
            code: string_from_chars(code.as_slice()),
            word: string_from_chars(word.as_slice()),
            weight,
        };
        let ghost old_out = out@;
        out.push(entry);
        proof {
            assert(out@.map_values(|e: Entry| entry_fields(e)) =~= old_out.map_values(
                |e: Entry| entry_fields(e),
            ).push(table_line_entry(raw@)));
        }
        i += 1;
    }
    proof {
        assert(lv.take(ls@.len() as int) =~= lv);
    }
    Ok(out)
}

/// The (code, word, weight) of each entry.
pub open spec fn fields_of_entries(v: Seq<Entry>) -> Seq<(Seq<char>, Seq<char>, u32)> {
    v.map_values(|e: Entry| entry_fields(e))
}

/// The text of an optional wildcard key: the key, or nothing.
pub open spec fn wildcard_text(w: Option<char>) -> Seq<char> {
    match w {
        Some(c) => seq![c],
        None => Seq::empty(),
    }
}

/// The header a table is written with: `---`, the wildcard key and the
/// extra code characters, `---`.
pub open spec fn table_header(cfg: TableConfig) -> Seq<char> {
    "---\n"@ + "wildcard_key: "@ + wildcard_text(cfg.wildcard_key) + "\n"@ + "charset: "@ + cfg.charset@
        + "\n---\n"@
}

/// The entry lines of a table, in order.
pub open spec fn table_body(es: Seq<Entry>) -> Seq<char>
    decreases es.len(),
{
    if es.len() == 0 {
        Seq::empty()
    } else {
        table_body(es.drop_last()) + table_line(es.last())
    }
}

/// Writes a whole table: its header, then one line per entry.
pub fn render_table(config: &TableConfig, entries: &[Entry]) -> (r: String)
    ensures
        r@ == table_header(*config) + table_body(entries@),
{
    let mut text = "---\n".to_owned();
    push_chars(&mut text, chars_of("wildcard_key: ").as_slice());
    if let Some(c) = config.wildcard_key {
        string_push(&mut text, c);
    }
    push_chars(&mut text, chars_of("\n").as_slice());
    push_chars(&mut text, chars_of("charset: ").as_slice());
    push_chars(&mut text, chars_of(config.charset.as_str()).as_slice());
    push_chars(&mut text, chars_of("\n---\n").as_slice());
    proof {
        assert(text@ =~= table_header(*config));
    }
    let ghost head = text@;
    let mut i: usize = 0;
    while i < entries.len()
        invariant
            i <= entries@.len(),
            text@ == head + table_body(entries@.take(i as int)),
        decreases entries@.len() - i,
    {
        let line = render_table_line(&entries[i]);
        push_chars(&mut text, chars_of(line.as_str()).as_slice());
        proof {
            assert(entries@.take(i + 1).drop_last() =~= entries@.take(i as int));
            assert(entries@.take(i + 1).last() == entries@[i as int]);
            assert(text@ =~= head + table_body(entries@.take(i + 1)));
        }
        i += 1;
    }
    proof {
        assert(entries@.take(entries@.len() as int) =~= entries@);
    }
    text
}

/// A shared table without entries or settings.
pub(crate) fn empty_table() -> (r: std::sync::Arc<Dictionary>)
    ensures
        r@.len() == 0,
{
    std::sync::Arc::new(Dictionary::empty())
}

/// The table line of an entry: `code<TAB>word<TAB>weight`, then a newline.
pub open spec fn table_line(e: Entry) -> Seq<char> {
    e.code@ + seq!['\t'] + e.word@ + seq!['\t'] + decimal_digits(e.weight as nat) + seq!['\n']
}

/// Writes the table line of an entry (see [`table_line`]).
pub fn render_table_line(e: &Entry) -> (r: String)
    ensures
        r@ == table_line(*e),
{
    let mut line = copy_string(&e.code);
    string_push(&mut line, '\t');
    push_chars(&mut line, chars_of(e.word.as_str()).as_slice());
    string_push(&mut line, '\t');
    push_chars(&mut line, format_u32(e.weight).as_slice());
    string_push(&mut line, '\n');
    line
}

/// The settings of `cfg` as read.
pub open spec fn settings_of(cfg: TableConfig) -> HeaderSettings {
    (cfg.wildcard_key, cfg.charset@)
}

/// Parses a whole table text: an optional header (`---`, `key: value`
/// lines for `wildcard_key` and `charset`, `---`), then one
/// `code<TAB>word[<TAB>weight]` entry per line, blank lines and `#` lines
/// skipped.  An unclosed header gives `MissingHeader`; the first malformed
/// line gives `InvalidLine` with its 1-based number.
pub fn parse_table_text(text: &str) -> (r: Result<(TableConfig, Vec<Entry>), DictError>)
    ensures
        match (r, table_text(lines(text@))) {
            (Ok((cfg, v)), Ok((h, t))) => settings_of(cfg) == h && v@.map_values(
                |e: Entry| entry_fields(e),
            ) == t,
            (Err(e), Err(x)) => text_error(e, x),
            _ => false,
        },
{
    let chars = chars_of(text);
    let ls = lines_of(chars.as_slice());
    let ghost lv = views(ls@);
    assert(lv == lines(text@));
    if ls.len() > 0 && fence_line(ls[0].as_slice()) {
        proof {
            assert(lv[0] == ls@[0]@);
        }
        let mut c: usize = 1;
        while c < ls.len() && !fence_line(ls[c].as_slice())
            invariant
                1 <= c <= ls@.len(),
                lv == views(ls@),
                fence_from(lv, 1) == fence_from(lv, c as int),
            decreases ls@.len() - c,
        {
            proof {
                assert(lv[c as int] == ls@[c as int]@);
            }
            c += 1;
        }
        proof {
            if c < ls@.len() {
                assert(lv[c as int] == ls@[c as int]@);
            }
        }
        if c >= ls.len() {
            return Err(DictError::MissingHeader("缺少结束标记 ---".to_owned()));
        }
        let (wildcard, charset) = match read_header(&ls, c) {
            Ok(h) => h,
            Err(e) => return Err(e),
        };
        let entries = parse_entries(&ls, c + 1);
        match entries {
            Ok(v) => Ok((TableConfig { wildcard_key: wildcard, charset: string_from_chars(charset.as_slice()) }, v)),
            Err(e) => Err(e),
        }
    } else {
        proof {
            if ls@.len() > 0 {
                assert(lv[0] == ls@[0]@);
            }
        }
        match parse_entries(&ls, 0) {
            Ok(v) => Ok((TableConfig::default(), v)),
            Err(e) => Err(e),
        }
    }
}

/// The settings given by header lines `1..end`.
fn read_header(ls: &Vec<Vec<char>>, end: usize) -> (r: Result<(Option<char>, Vec<char>), DictError>)
    requires
        1 <= end <= ls@.len(),
    ensures
        match (r, header_settings(views(ls@), end as int)) {
            (Ok((w, cs)), Ok(h)) => h == (w, cs@),
            (Err(e), Err(x)) => text_error(e, x) && x.1 != 6,
            _ => false,
        },
{
    let ghost lv = views(ls@);
    let mut wildcard: Option<char> = None;
    let mut charset: Vec<char> = Vec::new();
    let mut j: usize = 1;
    proof {
        assert(charset@ =~= Seq::<char>::empty());
    }
    while j < end
        invariant
            1 <= j <= end <= ls@.len(),
            lv == views(ls@),
            header_settings(lv, j as int) == Ok::<HeaderSettings, (int, int)>((wildcard, charset@)),
        decreases end - j,
    {
        proof {
            assert(lv[j as int] == ls@[j as int]@);
        }
        let res = apply_header_line(&mut wildcard, &mut charset, ls[j].as_slice());
        match res {
            Ok(()) => {},
            Err(k) => {
                proof {
                    assert(header_settings(lv, j + 1) == Err::<HeaderSettings, (int, int)>((j + 1, k as int)));
                    lemma_header_error(lv, j + 1, end as int);
                }
                if k == 4 {
                    return Err(DictError::InvalidLine(j + 1, "头部声明格式非法".to_owned()));
                } else {
                    return Err(DictError::InvalidLine(j + 1, "通配键必须是单个字符".to_owned()));
                }
            },
        }
        j += 1;
    }
    Ok((wildcard, charset))
}

/// Once header lines up to `j` are rejected, so are those up to `end`.
proof fn lemma_header_error(ls: Seq<Seq<char>>, j: int, end: int)
    requires
        1 <= j <= end,
        header_settings(ls, j) is Err,
    ensures
        header_settings(ls, end) == header_settings(ls, j),
    decreases end - j,
{
    if j < end {
        lemma_header_error(ls, j, end - 1);
    }
}

/// Parses the entry lines of a table text (a leading header is read past;
/// see [`parse_table_text`]).
pub fn parse_lines(text: &str, chunk_lines: usize) -> (r: Result<Vec<Entry>, DictError>)
    ensures
        match (r, table_text(lines(text@))) {
            (Ok(v), Ok((h, t))) => v@.map_values(|e: Entry| entry_fields(e)) == t,
            (Err(e), Err(x)) => text_error(e, x),
            _ => false,
        },
{
    match parse_table_text(text) {
        Ok((_, v)) => Ok(v),
        Err(e) => Err(e),
    }
}

} // verus!
