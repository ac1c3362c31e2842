//! The user's own word list, kept apart from `config.toml`: validation of
//! entries, the text format (`code<TAB>word<TAB>weight` lines under a
//! header), and the in-memory edits (add, update, remove, merge of an
//! imported list).  Reading and writing the file is left to the caller,
//! which writes [`UserDictionary::render`] and keeps the old list when the
//! write fails.
use crate::dictionary::{copy_entry, entry_fields, Entry};
use crate::order::{chars_le, chars_less, chars_lt, lemma_le_order};
use crate::sort::{is_stable_sort, sorted_by_le, stable_sort_by, stable_sorted, total_preorder};
use crate::text::{
    chars_eq, chars_of, decimal_digits, format_u32, is_space, lemma_decimal_digits,
    lemma_parse_format_u32, lemma_split_append, lemma_split_no_sep, lemma_split_push_sep,
    lemma_trim_unchanged, lines, lines_of, parse_u32, parse_u32_spec, push_chars, split_fields,
    split_on, string_from_chars, string_push, strip_cr, trim, trimmed, views,
};
use vstd::prelude::*;

verus! {

/// The first line of a user word list file.
pub const HEADER: &'static str = "# mywubi-user-dict version=1";

/// Errors of the user word list.
#[derive(Debug)]
pub enum UserDictionaryError {
    /// The file could not be read or written (path, reason).
    Io(std::path::PathBuf, String),
    /// A line of the file is malformed (1-based line number, reason).
    InvalidLine(usize, String),
    /// An entry breaks the rules (reason).
    InvalidEntry(String),
    /// An entry with this code and word already exists.
    Duplicate(String, String),
    /// No entry has this index.
    Index(usize),
}

/// The (code, word, weight) of an entry.
pub type Fields = (Seq<char>, Seq<char>, u32);

// ───────────────────────── order and duplicates ─────────────────────────

/// File order: code ascending, then weight descending, then word ascending.
pub open spec fn field_le(a: Fields, b: Fields) -> bool {
    chars_lt(a.0, b.0) || (a.0 == b.0 && (a.2 > b.2 || (a.2 == b.2 && chars_le(a.1, b.1))))
}

pub open spec fn field_order() -> spec_fn(Fields, Fields) -> bool {
    |a: Fields, b: Fields| field_le(a, b)
}

/// File order on entries.
pub open spec fn user_order() -> spec_fn(Entry, Entry) -> bool {
    |a: Entry, b: Entry| field_le(entry_fields(a), entry_fields(b))
}

/// The fields of each entry.
pub open spec fn fields_of(s: Seq<Entry>) -> Seq<Fields> {
    s.map_values(|e: Entry| entry_fields(e))
}

pub proof fn lemma_field_order()
    ensures
        total_preorder(field_order()),
        total_preorder(user_order()),
{
    lemma_le_order();
    assert forall|a: Fields, b: Fields| #![trigger field_order()(a, b)]
        field_order()(a, b) || field_order()(b, a) by {
        assert(chars_le(a.0, b.0) || chars_le(b.0, a.0));
        assert(chars_le(a.1, b.1) || chars_le(b.1, a.1));
    }
    assert forall|a: Fields, b: Fields, c: Fields| #![trigger field_order()(a, b), field_order()(b, c)]
        field_order()(a, b) && field_order()(b, c) implies field_order()(a, c) by {
        assert(chars_le(a.0, b.0));
        assert(chars_le(b.0, c.0));
        assert(chars_le(a.0, c.0));
        if a.0 == c.0 {
            assert(chars_le(c.0, b.0));
            assert(a.0 == b.0);
            if a.2 == b.2 && b.2 == c.2 {
                assert(chars_le(a.1, b.1));
                assert(chars_le(b.1, c.1));
            }
        }
    }
    assert forall|a: Entry, b: Entry| #![trigger user_order()(a, b)]
        user_order()(a, b) || user_order()(b, a) by {
        assert(field_order()(entry_fields(a), entry_fields(b)) || field_order()(entry_fields(b), entry_fields(a)));
    }
    assert forall|a: Entry, b: Entry, c: Entry| #![trigger user_order()(a, b), user_order()(b, c)]
        user_order()(a, b) && user_order()(b, c) implies user_order()(a, c) by {
        assert(field_order()(entry_fields(a), entry_fields(b)));
        assert(field_order()(entry_fields(b), entry_fields(c)));
    }
}

/// Whether `a` comes no later than `b` in file order.
pub fn entry_le_in_file(a: &Entry, b: &Entry) -> (r: bool)
    ensures
        r == field_le(entry_fields(*a), entry_fields(*b)),
{
    let ca = chars_of(a.code.as_str());
    let cb = chars_of(b.code.as_str());
    if chars_less(ca.as_slice(), cb.as_slice()) {
        return true;
    }
    if !chars_eq(ca.as_slice(), cb.as_slice()) {
        return false;
    }
    if a.weight != b.weight {
        return a.weight > b.weight;
    }
    let wa = chars_of(a.word.as_str());
    let wb = chars_of(b.word.as_str());
    chars_less(wa.as_slice(), wb.as_slice()) || chars_eq(wa.as_slice(), wb.as_slice())
}

/// Same code and same word.
pub open spec fn same_key(a: Fields, b: Fields) -> bool {
    a.0 == b.0 && a.1 == b.1
}

/// `s` with every element dropped whose code and word equal those of the
/// element kept just before it (`Vec::dedup_by`).
pub open spec fn dedup_keys(s: Seq<Fields>) -> Seq<Fields>
    decreases s.len(),
{
    if s.len() == 0 {
        s
    } else {
        let r = dedup_keys(s.drop_last());
        if r.len() > 0 && same_key(r.last(), s.last()) {
            r
        } else {
            r.push(s.last())
        }
    }
}

/// Sorted in file order, then adjacent duplicates dropped.
pub open spec fn normalize(s: Seq<Fields>) -> Seq<Fields> {
    dedup_keys(stable_sorted(s, field_order()))
}

/// Whether two entries have the same code and word.
fn same_entry_key(a: &Entry, b: &Entry) -> (r: bool)
    ensures
        r == same_key(entry_fields(*a), entry_fields(*b)),
{
    chars_eq(chars_of(a.code.as_str()).as_slice(), chars_of(b.code.as_str()).as_slice())
        && chars_eq(chars_of(a.word.as_str()).as_slice(), chars_of(b.word.as_str()).as_slice())
}

/// Sorts `v` stably in file order.
fn sort_in_file_order(v: &mut Vec<Entry>)
    ensures
        is_stable_sort(final(v)@, old(v)@, user_order()),
        fields_of(final(v)@) == stable_sorted(fields_of(old(v)@), field_order()),
{
    proof {
        lemma_field_order();
    }
    let ghost before = v@;
    let le = |a: &Entry, b: &Entry| -> (r: bool)
        ensures
            r == user_order()(*a, *b),
        { entry_le_in_file(a, b) };
    stable_sort_by(v, &le, Ghost(user_order()));
    proof {
        let f = |e: Entry| entry_fields(e);
        assert(user_order() =~= (|x: Entry, y: Entry| field_order()(f(x), f(y))));
        crate::sort::lemma_stable_sort_map(v@, before, f, field_order());
        assert(fields_of(v@) =~= v@.map_values(f));
        assert(fields_of(before) =~= before.map_values(f));
        crate::sort::lemma_is_stable_sorted(fields_of(v@), fields_of(before), field_order());
    }
}

/// Drops every entry whose code and word equal those of the entry kept
/// just before it.
fn dedup_in_place(v: Vec<Entry>) -> (r: Vec<Entry>)
    requires
        sorted_by_le(v@, user_order()),
    ensures
        fields_of(r@) == dedup_keys(fields_of(v@)),
        sorted_by_le(r@, user_order()),
        forall|k: int| 0 <= k < r@.len() ==> v@.contains(#[trigger] r@[k]),
{
    proof {
        lemma_field_order();
    }
    let ghost fv = fields_of(v@);
    let mut out: Vec<Entry> = Vec::new();
    let mut i: usize = 0;
    let ghost mut last: int = 0;
    while i < v.len()
        invariant
            i <= v@.len(),
            fv == fields_of(v@),
            fields_of(out@) == dedup_keys(fv.take(i as int)),
            total_preorder(user_order()),
            sorted_by_le(v@, user_order()),
            sorted_by_le(out@, user_order()),
            forall|k: int| 0 <= k < out@.len() ==> v@.contains(#[trigger] out@[k]),
            out@.len() > 0 ==> 0 <= last < i && out@.last() == v@[last],
        decreases v@.len() - i,
    {
        proof {
            assert(fv.take(i + 1).drop_last() =~= fv.take(i as int));
            assert(fv.take(i + 1).last() == entry_fields(v@[i as int]));
        }
        let keep = if out.len() == 0 {
            true
        } else {
            proof {
                assert(fields_of(out@).last() == entry_fields(out@[out@.len() - 1]));
            }
            !same_entry_key(&out[out.len() - 1], &v[i])
        };
        if keep {
            let ghost before = out@;
            out.push(copy_entry(&v[i]));
            proof {
                assert(fields_of(out@) =~= fields_of(before).push(entry_fields(v@[i as int])));
                assert forall|a: int, b: int| 0 <= a < b < out@.len() implies user_order()(
                    #[trigger] out@[a],
                    #[trigger] out@[b],
                ) by {
                    if b == out@.len() - 1 && before.len() > 0 {
                        assert(user_order()(v@[last], v@[i as int]));
                        if a < before.len() - 1 {
                            assert(user_order()(before[a], before[before.len() - 1]));
                        }
                    }
                }
                assert forall|k: int| 0 <= k < out@.len() implies v@.contains(#[trigger] out@[k]) by {
                    if k == out@.len() - 1 {
                        assert(out@[k] == v@[i as int]);
                    } else {
                        assert(out@[k] == before[k]);
                    }
                }
                last = i as int;
            }
        }
        i += 1;
    }
    proof {
        assert(fv.take(v@.len() as int) =~= fv);
    }
    out
}

// ───────────────────────── validation ─────────────────────────

pub open spec fn is_ascii_alnum(c: char) -> bool {
    ('a' <= c && c <= 'z') || ('A' <= c && c <= 'Z') || ('0' <= c && c <= '9')
}

/// A code is one or more ASCII letters or digits.
pub open spec fn valid_code(code: Seq<char>) -> bool {
    code.len() > 0 && forall|i: int| 0 <= i < code.len() ==> is_ascii_alnum(#[trigger] code[i])
}

pub open spec fn is_line_break_char(c: char) -> bool {
    c == '\0' || c == '\t' || c == '\r' || c == '\n'
}

/// A word is not empty and holds no NUL, tab, CR or LF.
pub open spec fn valid_word(word: Seq<char>) -> bool {
    word.len() > 0 && forall|i: int| 0 <= i < word.len() ==> !is_line_break_char(#[trigger] word[i])
}

/// The reason a bad code is refused.
pub open spec fn bad_code_message() -> Seq<char> {
    "编码只能包含 ASCII 字母或数字"@
}

/// The reason a bad word is refused.
pub open spec fn bad_word_message() -> Seq<char> {
    "词条不能为空或包含制表/换行字符"@
}

/// An entry whose code and word are valid.
pub open spec fn valid_entry(e: Entry) -> bool {
    validation_error(e.code@, e.word@) is None
}

/// Why (code, word) is refused, if it is.
pub open spec fn validation_error(code: Seq<char>, word: Seq<char>) -> Option<Seq<char>> {
    if !valid_code(code) {
        Some(bad_code_message())
    } else if !valid_word(word) {
        Some(bad_word_message())
    } else {
        None
    }
}

fn check_code(code: &[char]) -> (r: bool)
    ensures
        r == valid_code(code@),
{
    if code.len() == 0 {
        return false;
    }
    let mut i: usize = 0;
    while i < code.len()
        invariant
            i <= code@.len(),
            forall|k: int| 0 <= k < i ==> is_ascii_alnum(#[trigger] code@[k]),
        decreases code@.len() - i,
    {
        let c = code[i];
        if !(('a' <= c && c <= 'z') || ('A' <= c && c <= 'Z') || ('0' <= c && c <= '9')) {
            return false;
        }
        i += 1;
    }
    true
}

fn check_word(word: &[char]) -> (r: bool)
    ensures
        r == valid_word(word@),
{
    if word.len() == 0 {
        return false;
    }
    let mut i: usize = 0;
    while i < word.len()
        invariant
            i <= word@.len(),
            forall|k: int| 0 <= k < i ==> !is_line_break_char(#[trigger] word@[k]),
        decreases word@.len() - i,
    {
        let c = word[i];
        if c == '\0' || c == '\t' || c == '\r' || c == '\n' {
            return false;
        }
        i += 1;
    }
    true
}

/// The reason `(code, word)` is refused, if it is.
fn validation_message(code: &[char], word: &[char]) -> (r: Option<String>)
    ensures
        match (r, validation_error(code@, word@)) {
            (Some(m), Some(t)) => m@ == t,
            (None, None) => true,
            _ => false,
        },
{
    if !check_code(code) {
        return Some("编码只能包含 ASCII 字母或数字".to_owned());
    }
    if !check_word(word) {
        return Some("词条不能为空或包含制表/换行字符".to_owned());
    }
    None
}

/// Checks an entry: its code and word must be valid.
fn validate(entry: &Entry) -> (r: Result<(), UserDictionaryError>)
    ensures
        match (r, validation_error(entry.code@, entry.word@)) {
            (Ok(()), None) => true,
            (Err(UserDictionaryError::InvalidEntry(m)), Some(t)) => m@ == t,
            _ => false,
        },
{
    match validation_message(chars_of(entry.code.as_str()).as_slice(), chars_of(entry.word.as_str()).as_slice()) {
        Some(m) => Err(UserDictionaryError::InvalidEntry(m)),
        None => Ok(()),
    }
}

// ───────────────────────── the file format ─────────────────────────

/// The reason a weight field is refused.
pub open spec fn bad_weight_message() -> Seq<char> {
    "词频必须是 u32"@
}

/// The text of an `InvalidEntry` error with reason `m`.
pub open spec fn invalid_entry_text(m: Seq<char>) -> Seq<char> {
    "词条非法: "@ + m
}

/// What one line of a word list is: `Ok(None)` for a blank or `#` line,
/// `Ok(Some(fields))` for an entry, `Err(reason)` for a bad line.  Fields
/// are tab-separated and trimmed; a missing word is empty; a missing
/// weight is 1, a present one must be a `u32`.
pub open spec fn user_line(raw: Seq<char>) -> Result<Option<Fields>, Seq<char>> {
    let line = trim(raw);
    if line.len() == 0 || line[0] == '#' {
        Ok(None)
    } else {
        let parts = split_fields(line, '\t');
        let code = trim(parts[0]);
        let word = if parts.len() >= 2 {
            trim(parts[1])
        } else {
            Seq::empty()
        };
        let weight = if parts.len() >= 3 {
            parse_u32_spec(trim(parts[2]))
        } else {
            Some(1u32)
        };
        match weight {
            None => Err(bad_weight_message()),
            Some(w) => match validation_error(code, word) {
                Some(m) => Err(invalid_entry_text(m)),
                None => Ok(Some((code, word, w))),
            },
        }
    }
}

/// The entries of the given lines in order, or the first bad line as
/// (1-based line number, reason).
pub open spec fn parse_user_lines(ls: Seq<Seq<char>>) -> Result<Seq<Fields>, (int, Seq<char>)>
    decreases ls.len(),
{
    if ls.len() == 0 {
        Ok(Seq::empty())
    } else {
        match parse_user_lines(ls.drop_last()) {
            Err(e) => Err(e),
            Ok(v) => match user_line(ls.last()) {
                Ok(None) => Ok(v),
                Ok(Some(f)) => Ok(v.push(f)),
                Err(m) => Err((ls.len() as int, m)),
            },
        }
    }
}

/// Once a prefix of the lines is rejected, so is the whole text.
pub proof fn lemma_parse_user_error(ls: Seq<Seq<char>>, j: int)
    requires
        0 <= j <= ls.len(),
        parse_user_lines(ls.take(j)) is Err,
    ensures
        parse_user_lines(ls) == parse_user_lines(ls.take(j)),
    decreases ls.len() - j,
{
    if j < ls.len() {
        assert(ls.take(j + 1).drop_last() =~= ls.take(j));
        lemma_parse_user_error(ls, j + 1);
    } else {
        assert(ls.take(j) =~= ls);
    }
}

/// A word list text: its entries in file order with adjacent duplicates
/// dropped, or the first bad line.
pub open spec fn parse_user(text: Seq<char>) -> Result<Seq<Fields>, (int, Seq<char>)> {
    match parse_user_lines(lines(text)) {
        Ok(v) => Ok(normalize(v)),
        Err(e) => Err(e),
    }
}

/// The line of one entry.
pub open spec fn entry_line(f: Fields) -> Seq<char> {
    f.0 + seq!['\t'] + f.1 + seq!['\t'] + decimal_digits(f.2 as nat) + seq!['\n']
}

/// The lines of the entries, in order.
pub open spec fn render_lines(s: Seq<Fields>) -> Seq<char>
    decreases s.len(),
{
    if s.len() == 0 {
        Seq::empty()
    } else {
        render_lines(s.drop_last()) + entry_line(s.last())
    }
}

/// The file text of a word list: the header line, then one line per entry.
pub open spec fn render_text(s: Seq<Fields>) -> Seq<char> {
    HEADER@ + seq!['\n'] + render_lines(s)
}

/// Parses a word list text (see [`parse_user`]).
pub fn parse_user_entries(text: &str) -> (r: Result<Vec<Entry>, UserDictionaryError>)
    ensures
        match (r, parse_user(text@)) {
            (Ok(v), Ok(t)) => fields_of(v@) == t && sorted_by_le(v@, user_order()) && forall|k: int|
                0 <= k < v@.len() ==> valid_entry(#[trigger] v@[k]),
            (Err(UserDictionaryError::InvalidLine(n, msg)), Err((m, why))) => n == m && msg@ == why,
            _ => false,
        },
{
    let chars = chars_of(text);
    let ls = lines_of(chars.as_slice());
    let ghost lv = views(ls@);
    let mut out: Vec<Entry> = Vec::new();
    let mut i: usize = 0;
    proof {
        assert(lv.take(0) =~= Seq::<Seq<char>>::empty());
        assert(fields_of(out@) =~= Seq::<Fields>::empty());
    }
    while i < ls.len()
        invariant
            i <= ls@.len(),
            lv == views(ls@),
            lv == lines(text@),
            parse_user_lines(lv.take(i as int)) == Ok::<Seq<Fields>, (int, Seq<char>)>(fields_of(out@)),
            forall|k: int| 0 <= k < out@.len() ==> valid_entry(#[trigger] out@[k]),
        decreases ls@.len() - i,
    {
        let raw = &ls[i];
        proof {
            assert(raw@ == lv[i as int]);
            assert(lv.take(i + 1).drop_last() =~= lv.take(i as int));
            assert(lv.take(i + 1).last() == raw@);
        }
        let line = trimmed(raw.as_slice());
        if line.len() == 0 || line[0] == '#' {
            i += 1;
            continue;
        }
        let parts = split_on(line.as_slice(), '\t');
        proof {
            crate::text::lemma_split_fields_nonempty(line@, '\t');
            assert(views(parts@)[0] == parts@[0]@);
        }
        let code = trimmed(parts[0].as_slice());
        let word: Vec<char> = if parts.len() >= 2 {
            proof {
                assert(views(parts@)[1] == parts@[1]@);
            }
            trimmed(parts[1].as_slice())
        } else {
            Vec::new()
        };
        let weight: Option<u32> = if parts.len() >= 3 {
            proof {
                assert(views(parts@)[2] == parts@[2]@);
            }
            parse_u32(trimmed(parts[2].as_slice()).as_slice())
        } else {
            Some(1)
        };
        let w = match weight {
            Some(w) => w,
            None => {
                proof {
                    lemma_parse_user_error(lv, i + 1);
                }
                return Err(UserDictionaryError::InvalidLine(i + 1, "词频必须是 u32".to_owned()));
            },
        };
        match validation_message(code.as_slice(), word.as_slice()) {
            Some(m) => {
                let mut msg = "词条非法: ".to_owned();
                push_chars(&mut msg, chars_of(m.as_str()).as_slice());
                proof {
                    lemma_parse_user_error(lv, i + 1);
                }
                return Err(UserDictionaryError::InvalidLine(i + 1, msg));
            },
            None => {},
        }
        let entry = Entry {
            code: string_from_chars(code.as_slice()),
            word: string_from_chars(word.as_slice()),
            weight: w,
        };
        let ghost old_out = out@;
        out.push(entry);
        proof {
            assert(fields_of(out@) =~= fields_of(old_out).push((code@, word@, w)));
        }
        i += 1;
    }
    proof {
        assert(lv.take(ls@.len() as int) =~= lv);
    }
    let ghost unsorted = out@;
    sort_in_file_order(&mut out);
    proof {
        lemma_field_order();
        crate::sort::lemma_stable_sort_members(out@, unsorted, user_order());
        assert forall|k: int| 0 <= k < out@.len() implies valid_entry(#[trigger] out@[k]) by {
            assert(unsorted.contains(out@[k]));
        }
    }
    let r = dedup_in_place(out);
    proof {
        assert forall|k: int| 0 <= k < r@.len() implies valid_entry(#[trigger] r@[k]) by {
            assert(out@.contains(r@[k]));
        }
    }
    Ok(r)
}

/// The file text of `entries` (see [`render_text`]).
pub fn render_entries(entries: &[Entry]) -> (r: String)
    ensures
        r@ == render_text(fields_of(entries@)),
{
    let mut text = String::new();
    push_chars(&mut text, chars_of(HEADER).as_slice());
    string_push(&mut text, '\n');
    let ghost head = text@;
    let mut i: usize = 0;
    while i < entries.len()
        invariant
            i <= entries@.len(),
            head == HEADER@ + seq!['\n'],
            text@ == head + render_lines(fields_of(entries@).take(i as int)),
        decreases entries@.len() - i,
    {
        let e = &entries[i];
        let ghost before = text@;
        push_chars(&mut text, chars_of(e.code.as_str()).as_slice());
        string_push(&mut text, '\t');
        push_chars(&mut text, chars_of(e.word.as_str()).as_slice());
        string_push(&mut text, '\t');
        push_chars(&mut text, format_u32(e.weight).as_slice());
        string_push(&mut text, '\n');
        proof {
            let f = fields_of(entries@);
            assert(f.take(i + 1).drop_last() =~= f.take(i as int));
            assert(f.take(i + 1).last() == entry_fields(*e));
            assert(text@ =~= before + entry_line(entry_fields(*e)));
        }
        i += 1;
    }
    proof {
        assert(fields_of(entries@).take(entries@.len() as int) =~= fields_of(entries@));
    }
    text
}

// ───────────────────────── the word list ─────────────────────────

/// Whether some element of `s` has the code and word of `f`.
pub open spec fn has_key(s: Seq<Entry>, f: Fields) -> bool {
    exists|k: int| 0 <= k < s.len() && same_key(entry_fields(#[trigger] s[k]), f)
}

/// Whether some element of `s` other than the one at `skip` has the code
/// and word of `f`.
pub open spec fn has_key_except(s: Seq<Entry>, f: Fields, skip: int) -> bool {
    exists|k: int| 0 <= k < s.len() && k != skip && same_key(entry_fields(#[trigger] s[k]), f)
}

/// Index of the first element of `s` with the code and word of `f`, or -1.
pub open spec fn key_index(s: Seq<Entry>, f: Fields) -> int
    decreases s.len(),
{
    if s.len() == 0 {
        -1
    } else {
        let k = key_index(s.drop_last(), f);
        if k >= 0 {
            k
        } else if same_key(entry_fields(s.last()), f) {
            s.len() - 1
        } else {
            -1
        }
    }
}

/// `s` after taking in `e`: the first entry with its code and word gets its
/// weight; without such an entry, `e` is appended.
pub open spec fn merge_one(s: Seq<Entry>, e: Entry) -> Seq<Entry> {
    let k = key_index(s, entry_fields(e));
    if k >= 0 {
        s.update(k, Entry { code: s[k].code, word: s[k].word, weight: e.weight })
    } else {
        s.push(e)
    }
}

/// `s` after taking in each element of `imported` in turn.
pub open spec fn merge_all(s: Seq<Entry>, imported: Seq<Entry>) -> Seq<Entry>
    decreases imported.len(),
{
    if imported.len() == 0 {
        s
    } else {
        merge_one(merge_all(s, imported.drop_last()), imported.last())
    }
}

/// The user's word list: a file path and entries kept in file order.
#[derive(Debug)]
pub struct UserDictionary {
    path: std::path::PathBuf,
    entries: Vec<Entry>,
}

impl View for UserDictionary {
    type V = Seq<Entry>;

    closed spec fn view(&self) -> Seq<Entry> {
        self.entries@
    }
}

impl UserDictionary {
    #[verifier::type_invariant]
    spec fn wf(self) -> bool {
        &&& sorted_by_le(self.entries@, user_order())
        &&& forall|k: int| 0 <= k < self.entries@.len() ==> valid_entry(#[trigger] self.entries@[k])
    }

    /// The file the list belongs to.
    pub closed spec fn spec_path(&self) -> std::path::PathBuf {
        self.path
    }

    /// An empty list for `path` (what a missing file holds).
    pub fn empty(path: std::path::PathBuf) -> (r: Self)
        ensures
            r@ == Seq::<Entry>::empty(),
            r.spec_path() == path,
    {
        UserDictionary { path, entries: Vec::new() }
    }

    /// The list held in `text`, for `path` (see [`parse_user`]).
    pub fn from_text(path: std::path::PathBuf, text: &str) -> (r: Result<Self, UserDictionaryError>)
        ensures
            match (r, parse_user(text@)) {
                (Ok(d), Ok(t)) => fields_of(d@) == t && d.spec_path() == path,
                (Err(UserDictionaryError::InvalidLine(n, msg)), Err((m, why))) => n == m && msg@ == why,
                _ => false,
            },
    {
        match parse_user_entries(text) {
            Ok(entries) => Ok(UserDictionary { path, entries }),
            Err(e) => Err(e),
        }
    }

    /// The file path.
    pub fn path(&self) -> (r: &std::path::PathBuf)
        ensures
            *r == self.spec_path(),
    {
        &self.path
    }

    /// The entries: in file order, each valid.
    pub fn entries(&self) -> (r: &[Entry])
        ensures
            r@ == self@,
            sorted_by_le(r@, user_order()),
            forall|k: int| 0 <= k < r@.len() ==> valid_entry(#[trigger] r@[k]),
    {
        proof {
            use_type_invariant(self);
        }
        self.entries.as_slice()
    }

    /// Puts `entries` in file order and keeps them.
    fn replace_entries(&mut self, entries: Vec<Entry>)
        requires
            forall|k: int| 0 <= k < entries@.len() ==> valid_entry(#[trigger] entries@[k]),
        ensures
            final(self)@ == stable_sorted(entries@, user_order()),
            final(self).spec_path() == old(self).spec_path(),
    {
        let mut entries = entries;
        let ghost unsorted = entries@;
        sort_in_file_order(&mut entries);
        proof {
            lemma_field_order();
            crate::sort::lemma_stable_sort_members(entries@, unsorted, user_order());
            assert forall|k: int| 0 <= k < entries@.len() implies valid_entry(#[trigger] entries@[k]) by {
                assert(unsorted.contains(entries@[k]));
            }
            crate::sort::lemma_is_stable_sorted(entries@, unsorted, user_order());
        }
        self.entries = entries;
    }

    /// A copy of the entries.
    fn copied(&self) -> (r: Vec<Entry>)
        ensures
            r@ == self@,
    {
        let mut r: Vec<Entry> = Vec::new();
        let mut i: usize = 0;
        while i < self.entries.len()
            invariant
                i <= self.entries@.len(),
                r@ == self.entries@.take(i as int),
            decreases self.entries@.len() - i,
        {
            r.push(copy_entry(&self.entries[i]));
            assert(self.entries@.take(i + 1) =~= self.entries@.take(i as int).push(self.entries@[i as int]));
            i += 1;
        }
        assert(self.entries@.take(self.entries@.len() as int) =~= self.entries@);
        r
    }

    /// A copy of the list, for the same file.
    pub fn duplicate(&self) -> (r: Self)
        ensures
            r@ == self@,
            r.spec_path() == self.spec_path(),
    {
        proof {
            use_type_invariant(self);
        }
        UserDictionary { path: self.path.clone(), entries: self.copied() }
    }

    /// Index of the first entry other than the one at `skip` with the code
    /// and word of `e`, if any.
    fn find_key(&self, e: &Entry, skip: usize) -> (r: Option<usize>)
        ensures
            match r {
                Some(k) => k < self@.len() && k != skip && same_key(entry_fields(self@[k as int]), entry_fields(*e))
                    && forall|j: int| 0 <= j < k && j != skip ==> !same_key(entry_fields(#[trigger] self@[j]), entry_fields(*e)),
                None => !has_key_except(self@, entry_fields(*e), skip as int),
            },
    {
        let mut i: usize = 0;
        while i < self.entries.len()
            invariant
                i <= self.entries@.len(),
                forall|j: int| 0 <= j < i && j != skip ==> !same_key(entry_fields(#[trigger] self.entries@[j]), entry_fields(*e)),
            decreases self.entries@.len() - i,
        {
            if i != skip && same_entry_key(&self.entries[i], e) {
                return Some(i);
            }
            i += 1;
        }
        None
    }

    /// Adds an entry, keeping file order.  Refused, with the list
    /// unchanged: an invalid entry (`InvalidEntry`), then one whose code and
    /// word are already present (`Duplicate`).
    pub fn add(&mut self, entry: Entry) -> (r: Result<(), UserDictionaryError>)
        ensures
            final(self).spec_path() == old(self).spec_path(),
            match r {
                Ok(()) => validation_error(entry.code@, entry.word@) is None && !has_key(old(self)@, entry_fields(entry))
                    && final(self)@ == stable_sorted(old(self)@.push(entry), user_order()),
                Err(UserDictionaryError::InvalidEntry(m)) => validation_error(entry.code@, entry.word@) == Some(m@)
                    && final(self)@ == old(self)@,
                Err(UserDictionaryError::Duplicate(c, w)) => validation_error(entry.code@, entry.word@) is None
                    && has_key(old(self)@, entry_fields(entry)) && c@ == entry.code@ && w@ == entry.word@
                    && final(self)@ == old(self)@,
                _ => false,
            },
    {
        proof {
            use_type_invariant(&*self);
        }
        match validate(&entry) {
            Err(e) => return Err(e),
            Ok(()) => {},
        }
        match self.find_key(&entry, usize::MAX) {
            Some(k) => {
                return Err(UserDictionaryError::Duplicate(entry.code, entry.word));
            },
            None => {
                proof {
                    if has_key(self@, entry_fields(entry)) {
                        let k = choose|k: int| 0 <= k < self@.len() && same_key(entry_fields(#[trigger] self@[k]), entry_fields(entry));
                        assert(self.entries.len() == self.entries@.len());
                        assert(k != usize::MAX);
                        assert(has_key_except(self@, entry_fields(entry), usize::MAX as int));
                    }
                }
            },
        }
        let mut entries = self.copied();
        entries.push(entry);
        self.replace_entries(entries);
        Ok(())
    }

    /// Replaces the entry at `index`, keeping file order.  Refused, with the
    /// list unchanged: an invalid entry (`InvalidEntry`), then an index
    /// past the end (`Index`), then a code and word held by another entry
    /// (`Duplicate`).
    pub fn update(&mut self, index: usize, entry: Entry) -> (r: Result<(), UserDictionaryError>)
        ensures
            final(self).spec_path() == old(self).spec_path(),
            match r {
                Ok(()) => validation_error(entry.code@, entry.word@) is None && index < old(self)@.len()
                    && !has_key_except(old(self)@, entry_fields(entry), index as int)
                    && final(self)@ == stable_sorted(old(self)@.update(index as int, entry), user_order()),
                Err(UserDictionaryError::InvalidEntry(m)) => validation_error(entry.code@, entry.word@) == Some(m@)
                    && final(self)@ == old(self)@,
                Err(UserDictionaryError::Index(i)) => validation_error(entry.code@, entry.word@) is None
                    && i == index && index >= old(self)@.len() && final(self)@ == old(self)@,
                Err(UserDictionaryError::Duplicate(c, w)) => validation_error(entry.code@, entry.word@) is None
                    && index < old(self)@.len() && has_key_except(old(self)@, entry_fields(entry), index as int)
                    && c@ == entry.code@ && w@ == entry.word@ && final(self)@ == old(self)@,
                _ => false,
            },
    {
        proof {
            use_type_invariant(&*self);
        }
        match validate(&entry) {
            Err(e) => return Err(e),
            Ok(()) => {},
        }
        if index >= self.entries.len() {
            return Err(UserDictionaryError::Index(index));
        }
        match self.find_key(&entry, index) {
            Some(k) => {
                return Err(UserDictionaryError::Duplicate(entry.code, entry.word));
            },
            None => {},
        }
        let mut entries = self.copied();
        entries.set(index, entry);
        self.replace_entries(entries);
        Ok(())
    }

    /// Removes and returns the entry at `index`; an index past the end is
    /// refused (`Index`) with the list unchanged.
    pub fn remove(&mut self, index: usize) -> (r: Result<Entry, UserDictionaryError>)
        ensures
            final(self).spec_path() == old(self).spec_path(),
            match r {
                Ok(e) => index < old(self)@.len() && e == old(self)@[index as int]
                    && final(self)@ == old(self)@.remove(index as int),
                Err(UserDictionaryError::Index(i)) => i == index && index >= old(self)@.len()
                    && final(self)@ == old(self)@,
                _ => false,
            },
    {
        proof {
            use_type_invariant(&*self);
        }
        if index >= self.entries.len() {
            return Err(UserDictionaryError::Index(index));
        }
        let mut entries = Vec::new();
        std::mem::swap(&mut entries, &mut self.entries);
        let ghost before = entries@;
        let removed = entries.remove(index);
        proof {
            assert forall|a: int, b: int| 0 <= a < b < entries@.len() implies user_order()(
                #[trigger] entries@[a],
                #[trigger] entries@[b],
            ) by {
                let a0 = if a < index { a } else { a + 1 };
                let b0 = if b < index { b } else { b + 1 };
                assert(entries@[a] == before[a0]);
                assert(entries@[b] == before[b0]);
            }
            assert forall|k: int| 0 <= k < entries@.len() implies valid_entry(#[trigger] entries@[k]) by {
                let k0 = if k < index { k } else { k + 1 };
                assert(entries@[k] == before[k0]);
            }
        }
        self.entries = entries;
        Ok(removed)
    }

    /// Takes in each imported entry in turn (see [`merge_one`]) and puts the
    /// result in file order; returns how many entries were added.
    fn merge(&mut self, imported: Vec<Entry>) -> (r: usize)
        requires
            forall|k: int| 0 <= k < imported@.len() ==> valid_entry(#[trigger] imported@[k]),
        ensures
            final(self)@ == stable_sorted(merge_all(old(self)@, imported@), user_order()),
            r == merge_all(old(self)@, imported@).len() - old(self)@.len(),
            final(self).spec_path() == old(self).spec_path(),
    {
        proof {
            use_type_invariant(&*self);
        }
        let before = self.entries.len();
        let mut entries = self.copied();
        let mut i: usize = 0;
        proof {
            assert(imported@.take(0) =~= Seq::<Entry>::empty());
        }
        while i < imported.len()
            invariant
                i <= imported@.len(),
                entries@ == merge_all(old(self)@, imported@.take(i as int)),
                before == old(self)@.len(),
                before <= entries@.len(),
                forall|k: int| 0 <= k < imported@.len() ==> valid_entry(#[trigger] imported@[k]),
                forall|k: int| 0 <= k < entries@.len() ==> valid_entry(#[trigger] entries@[k]),
            decreases imported@.len() - i,
        {
            let e = &imported[i];
            proof {
                assert(imported@.take(i + 1).drop_last() =~= imported@.take(i as int));
                assert(imported@.take(i + 1).last() == *e);
            }
            let mut j: usize = 0;
            let mut found = false;
            while j < entries.len() && !found
                invariant
                    j <= entries@.len(),
                    !found ==> forall|m: int| 0 <= m < j ==> !same_key(entry_fields(#[trigger] entries@[m]), entry_fields(*e)),
                    found ==> 0 < j && same_key(entry_fields(entries@[j - 1]), entry_fields(*e)) && forall|m: int| 0 <= m < j - 1 ==> !same_key(entry_fields(#[trigger] entries@[m]), entry_fields(*e)),
                decreases entries@.len() - j + if found { 0int } else { 1int },
            {
                if same_entry_key(&entries[j], e) {
                    found = true;
                }
                j += 1;
            }
            proof {
                lemma_key_index(entries@, entry_fields(*e));
            }
            if found {
                let k = j - 1;
                proof {
                    assert(key_index(entries@, entry_fields(*e)) == k);
                }
                let mut updated = copy_entry(&entries[k]);
                updated.weight = e.weight;
                let ghost old_entries = entries@;
                entries.set(k, updated);
                proof {
                    assert(valid_entry(old_entries[k as int]));
                    assert forall|m: int| 0 <= m < entries@.len() implies valid_entry(#[trigger] entries@[m]) by {
                        if m != k {
                            assert(entries@[m] == old_entries[m]);
                        }
                    }
                }
            } else {
                proof {
                    assert(key_index(entries@, entry_fields(*e)) == -1);
                }
                entries.push(copy_entry(e));
            }
            i += 1;
        }
        proof {
            assert(imported@.take(imported@.len() as int) =~= imported@);
        }
        let added = entries.len() - before;
        self.replace_entries(entries);
        added
    }

    /// Merges the word list held in `text` (see [`parse_user`]) into this
    /// one: an entry with a code and word already present only sets that
    /// entry's weight; the others are added.  Returns how many were added.
    /// A bad text is refused (`InvalidLine`) with the list unchanged.
    pub fn import_text(&mut self, text: &str) -> (r: Result<usize, UserDictionaryError>)
        ensures
            final(self).spec_path() == old(self).spec_path(),
            match (r, parse_user(text@)) {
                (Ok(n), Ok(t)) => exists|imported: Seq<Entry>| #[trigger] fields_of(imported) == t
                    && final(self)@ == stable_sorted(merge_all(old(self)@, imported), user_order())
                    && n == merge_all(old(self)@, imported).len() - old(self)@.len(),
                (Err(UserDictionaryError::InvalidLine(n, msg)), Err((m, why))) => n == m && msg@ == why
                    && final(self)@ == old(self)@,
                _ => false,
            },
    {
        match parse_user_entries(text) {
            Ok(imported) => {
                let ghost im = imported@;
                let n = self.merge(imported);
                Ok(n)
            },
            Err(e) => Err(e),
        }
    }

    /// The file text of the list (see [`render_text`]).
    pub fn render(&self) -> (r: String)
        ensures
            r@ == render_text(fields_of(self@)),
    {
        render_entries(self.entries.as_slice())
    }
}

/// `key_index` finds the first match, or none.
pub proof fn lemma_key_index(s: Seq<Entry>, f: Fields)
    ensures
        -1 <= key_index(s, f) < s.len(),
        key_index(s, f) >= 0 ==> same_key(entry_fields(s[key_index(s, f)]), f) && forall|m: int|
            0 <= m < key_index(s, f) ==> !same_key(entry_fields(#[trigger] s[m]), f),
        key_index(s, f) == -1 ==> forall|m: int| 0 <= m < s.len() ==> !same_key(entry_fields(#[trigger] s[m]), f),
    decreases s.len(),
{
    if s.len() > 0 {
        lemma_key_index(s.drop_last(), f);
        assert forall|m: int| 0 <= m < s.len() - 1 implies #[trigger] s[m] == s.drop_last()[m] by {}
    }
}

// ───────────────────────── merging with a code table ─────────────────────────

/// A code table's entries with the user's list in front: the user's
/// entries, then the table's entries whose code and word the user's list
/// does not hold (so no candidate appears twice from the two sources).
pub open spec fn merged_entries(user: Seq<Entry>, system: Seq<Entry>) -> Seq<Entry> {
    user + system.filter(|e: Entry| !has_key(user, entry_fields(e)))
}

/// Whether some element of `s` has the code and word of `e`.
fn holds_key(s: &[Entry], e: &Entry) -> (r: bool)
    ensures
        r == has_key(s@, entry_fields(*e)),
{
    let mut i: usize = 0;
    while i < s.len()
        invariant
            i <= s@.len(),
            forall|k: int| 0 <= k < i ==> !same_key(entry_fields(#[trigger] s@[k]), entry_fields(*e)),
        decreases s@.len() - i,
    {
        if same_entry_key(&s[i], e) {
            return true;
        }
        i += 1;
    }
    false
}

/// The user's list merged in front of a code table's entries (see
/// [`merged_entries`]).
pub fn merge_with_table(user: &[Entry], system: &[Entry]) -> (r: Vec<Entry>)
    ensures
        r@ == merged_entries(user@, system@),
{
    let ghost p = |e: Entry| !has_key(user@, entry_fields(e));
    let mut out: Vec<Entry> = Vec::new();
    let mut i: usize = 0;
    while i < user.len()
        invariant
            i <= user@.len(),
            out@ == user@.take(i as int),
        decreases user@.len() - i,
    {
        out.push(copy_entry(&user[i]));
        assert(user@.take(i + 1) =~= user@.take(i as int).push(user@[i as int]));
        i += 1;
    }
    assert(user@.take(user@.len() as int) =~= user@);
    let mut j: usize = 0;
    while j < system.len()
        invariant
            j <= system@.len(),
            p == (|e: Entry| !has_key(user@, entry_fields(e))),
            out@ == user@ + system@.take(j as int).filter(p),
        decreases system@.len() - j,
    {
        proof {
            assert(system@.take(j + 1) =~= system@.take(j as int).push(system@[j as int]));
            system@.take(j as int).lemma_filter_push(system@[j as int], p);
        }
        if !holds_key(user, &system[j]) {
            out.push(copy_entry(&system[j]));
        }
        j += 1;
    }
    assert(system@.take(system@.len() as int) =~= system@);
    out
}

// ───────────────────────── reading back what was written ─────────────────────────

/// An entry that reads back as itself: a valid code and word, the word
/// without surrounding whitespace.
pub open spec fn storable(f: Fields) -> bool {
    validation_error(f.0, f.1) is None && trim(f.1) == f.1
}

/// A list as the file keeps it: storable entries in file order, no two
/// neighbours with the same code and word.
pub open spec fn well_kept(es: Seq<Fields>) -> bool {
    &&& forall|i: int| 0 <= i < es.len() ==> storable(#[trigger] es[i])
    &&& sorted_by_le(es, field_order())
    &&& forall|i: int| 0 <= i < es.len() - 1 ==> !same_key(#[trigger] es[i], es[i + 1])
}

/// The line of an entry without its line break.
pub open spec fn entry_body(f: Fields) -> Seq<char> {
    f.0 + seq!['\t'] + f.1 + seq!['\t'] + decimal_digits(f.2 as nat)
}

proof fn lemma_body_fields(f: Fields)
    requires
        storable(f),
    ensures
        forall|i: int| 0 <= i < entry_body(f).len() ==> entry_body(f)[i] != '\n',
        entry_body(f).len() > 0,
        entry_body(f).last() != '\r',
        user_line(entry_body(f)) == Ok::<Option<Fields>, Seq<char>>(Some(f)),
{
    let (code, word, w) = f;
    let d = decimal_digits(w as nat);
    lemma_decimal_digits(w as nat);
    lemma_parse_format_u32(w);
    let b = entry_body(f);
    assert(forall|i: int| 0 <= i < code.len() ==> is_ascii_alnum(#[trigger] code[i]));
    assert(forall|i: int| 0 <= i < word.len() ==> !is_line_break_char(#[trigger] word[i]));
    assert forall|i: int| 0 <= i < b.len() implies b[i] != '\n' && b[i] != '\r' by {
        if i < code.len() {
            assert(b[i] == code[i]);
        } else if i == code.len() {
        } else if i < code.len() + 1 + word.len() {
            assert(b[i] == word[i - code.len() - 1]);
        } else if i == code.len() + 1 + word.len() {
        } else {
            assert(b[i] == d[i - code.len() - 2 - word.len()]);
        }
    }
    // the line is its own trim and does not start a comment
    assert(b[0] == code[0]);
    assert(b.last() == d.last());
    lemma_trim_unchanged(b);
    // the fields
    let tab = '\t';
    assert forall|i: int| 0 <= i < code.len() implies code[i] != tab by {}
    assert forall|i: int| 0 <= i < word.len() implies word[i] != tab by {}
    assert forall|i: int| 0 <= i < d.len() implies d[i] != tab by {}
    lemma_split_no_sep(code, tab);
    lemma_split_push_sep(code, tab);
    assert(code + seq![tab] =~= code.push(tab));
    lemma_split_append(code + seq![tab], word, tab);
    assert(seq![code].push(Seq::<char>::empty()).update(1, Seq::<char>::empty() + word) =~= seq![code, word]);
    lemma_split_push_sep(code + seq![tab] + word, tab);
    assert(code + seq![tab] + word + seq![tab] =~= (code + seq![tab] + word).push(tab));
    lemma_split_append(code + seq![tab] + word + seq![tab], d, tab);
    assert(seq![code, word].push(Seq::<char>::empty()).update(2, Seq::<char>::empty() + d) =~= seq![code, word, d]);
    let parts = split_fields(b, tab);
    assert(parts == seq![code, word, d]);
    lemma_trim_unchanged(code);
    lemma_trim_unchanged(d);
}

proof fn lemma_dedup_kept(es: Seq<Fields>)
    requires
        forall|i: int| 0 <= i < es.len() - 1 ==> !same_key(#[trigger] es[i], es[i + 1]),
    ensures
        dedup_keys(es) == es,
    decreases es.len(),
{
    if es.len() > 0 {
        let t = es.drop_last();
        assert forall|i: int| 0 <= i < t.len() - 1 implies !same_key(#[trigger] t[i], t[i + 1]) by {
            assert(t[i] == es[i]);
            assert(t[i + 1] == es[i + 1]);
        }
        lemma_dedup_kept(t);
        if t.len() > 0 {
            assert(!same_key(es[es.len() - 2], es[es.len() - 1]));
        }
        assert(t.push(es.last()) =~= es);
    }
}

/// A well-kept list is its own normal form.
proof fn lemma_normalize_kept(es: Seq<Fields>)
    requires
        well_kept(es),
    ensures
        normalize(es) == es,
{
    lemma_field_order();
    crate::sort::lemma_sorted_is_stable_sort(es, field_order());
    crate::sort::lemma_is_stable_sorted(es, es, field_order());
    lemma_dedup_kept(es);
}

proof fn lemma_header_text()
    ensures
        HEADER@.len() > 0,
        HEADER@[0] == '#',
        HEADER@.last() != '\r',
        !is_space(HEADER@.last()),
        forall|i: int| 0 <= i < HEADER@.len() ==> HEADER@[i] != '\n',
{
    reveal_strlit("# mywubi-user-dict version=1");
    assert(HEADER@ == "# mywubi-user-dict version=1"@);
}

/// The file text splits at line breaks into the header, the entry lines
/// and a final empty piece.
proof fn lemma_split_text(es: Seq<Fields>)
    requires
        forall|i: int| 0 <= i < es.len() ==> storable(#[trigger] es[i]),
    ensures
        split_fields(render_text(es), '\n') == seq![HEADER@] + es.map_values(|f: Fields| entry_body(f))
            + seq![Seq::<char>::empty()],
    decreases es.len(),
{
    let nl = '\n';
    if es.len() == 0 {
        lemma_header_text();
        lemma_split_no_sep(HEADER@, nl);
        lemma_split_push_sep(HEADER@, nl);
        assert(render_text(es) =~= HEADER@.push(nl));
        assert(es.map_values(|f: Fields| entry_body(f)) =~= Seq::<Seq<char>>::empty());
        assert(seq![HEADER@] + es.map_values(|f: Fields| entry_body(f)) + seq![Seq::<char>::empty()]
            =~= seq![HEADER@].push(Seq::<char>::empty()));
    } else {
        let t = es.drop_last();
        let f = es.last();
        assert(storable(es[es.len() - 1]));
        lemma_body_fields(f);
        lemma_split_text(t);
        let p = render_text(t);
        let b = entry_body(f);
        assert(render_text(es) =~= (p + b).push(nl));
        lemma_split_push_sep(p + b, nl);
        lemma_split_append(p, b, nl);
        let prev = split_fields(p, nl);
        let bodies = t.map_values(|g: Fields| entry_body(g));
        assert(prev == seq![HEADER@] + bodies + seq![Seq::<char>::empty()]);
        assert(prev.update(prev.len() - 1, prev.last() + b) =~= seq![HEADER@] + bodies.push(b));
        assert(es.map_values(|g: Fields| entry_body(g)) =~= bodies.push(b));
        assert((seq![HEADER@] + bodies.push(b)).push(Seq::<char>::empty()) =~= seq![HEADER@]
            + es.map_values(|g: Fields| entry_body(g)) + seq![Seq::<char>::empty()]);
    }
}

/// The lines of the file text: the header, then one line per entry.
proof fn lemma_lines_text(es: Seq<Fields>)
    requires
        forall|i: int| 0 <= i < es.len() ==> storable(#[trigger] es[i]),
    ensures
        lines(render_text(es)) == seq![HEADER@] + es.map_values(|f: Fields| entry_body(f)),
{
    lemma_split_text(es);
    lemma_header_text();
    let bodies = es.map_values(|f: Fields| entry_body(f));
    let fs = split_fields(render_text(es), '\n');
    assert(fs.last() == Seq::<char>::empty());
    assert(fs.drop_last() =~= seq![HEADER@] + bodies);
    assert forall|i: int| 0 <= i < fs.drop_last().len() implies strip_cr(#[trigger] fs.drop_last()[i])
        == fs.drop_last()[i] by {
        if i > 0 {
            assert(fs.drop_last()[i] == bodies[i - 1]);
            assert(storable(es[i - 1]));
            lemma_body_fields(es[i - 1]);
        }
    }
    assert(fs.drop_last().map_values(|l: Seq<char>| strip_cr(l)) =~= seq![HEADER@] + bodies);
}

/// Reading the header and the entry lines gives the entries back.
proof fn lemma_parse_lines_text(es: Seq<Fields>)
    requires
        forall|i: int| 0 <= i < es.len() ==> storable(#[trigger] es[i]),
    ensures
        parse_user_lines(seq![HEADER@] + es.map_values(|f: Fields| entry_body(f))) == Ok::<
            Seq<Fields>,
            (int, Seq<char>),
        >(es),
    decreases es.len(),
{
    let ls = seq![HEADER@] + es.map_values(|f: Fields| entry_body(f));
    if es.len() == 0 {
        lemma_header_text();
        lemma_trim_unchanged(HEADER@);
        assert(ls =~= seq![HEADER@]);
        assert(ls.drop_last() =~= Seq::<Seq<char>>::empty());
        assert(parse_user_lines(ls.drop_last()) == Ok::<Seq<Fields>, (int, Seq<char>)>(Seq::empty()));
        assert(trim(ls.last()) == HEADER@);
        assert(user_line(ls.last()) == Ok::<Option<Fields>, Seq<char>>(None));
        assert(es =~= Seq::<Fields>::empty());
    } else {
        let t = es.drop_last();
        lemma_parse_lines_text(t);
        assert(ls.drop_last() =~= seq![HEADER@] + t.map_values(|f: Fields| entry_body(f)));
        assert(parse_user_lines(ls.drop_last()) == Ok::<Seq<Fields>, (int, Seq<char>)>(t));
        assert(ls.last() == entry_body(es.last()));
        assert(storable(es[es.len() - 1]));
        lemma_body_fields(es.last());
        assert(user_line(ls.last()) == Ok::<Option<Fields>, Seq<char>>(Some(es.last())));
        assert(t.push(es.last()) =~= es);
    }
}

/// Reading back a written list gives the same entries.
pub proof fn lemma_render_parse_roundtrip(es: Seq<Fields>)
    requires
        well_kept(es),
    ensures
        parse_user(render_text(es)) == Ok::<Seq<Fields>, (int, Seq<char>)>(es),
{
    lemma_lines_text(es);
    lemma_parse_lines_text(es);
    lemma_normalize_kept(es);
}

/// An entry that was added is in the list afterwards, which has grown by
/// one entry.
pub proof fn lemma_added_entry_present(s: Seq<Entry>, e: Entry)
    ensures
        stable_sorted(s.push(e), user_order()).contains(e),
        stable_sorted(s.push(e), user_order()).len() == s.len() + 1,
{
    lemma_field_order();
    crate::sort::lemma_stable_sort_exists(s.push(e), user_order());
    crate::sort::lemma_stable_sort_keeps(stable_sorted(s.push(e), user_order()), s.push(e), user_order());
    assert(s.push(e)[s.len() as int] == e);
}

/// No two entries of `s` have the same code and word.
pub open spec fn distinct_keys(s: Seq<Entry>) -> bool {
    forall|i: int, j: int| 0 <= i < j < s.len() ==> !same_key(entry_fields(#[trigger] s[i]), entry_fields(#[trigger] s[j]))
}

/// `j` is the last position of `imported` with its code and word.
pub open spec fn last_of_key(imported: Seq<Entry>, j: int) -> bool {
    &&& 0 <= j < imported.len()
    &&& forall|j2: int| j < j2 < imported.len() ==> !same_key(
        entry_fields(#[trigger] imported[j2]),
        entry_fields(imported[j]),
    )
}

/// Importing into a list whose keys are distinct: the keys stay distinct;
/// every imported code and word is in the result, and carries the weight of
/// the last imported entry with that code and word (the imported weight
/// replaces the old one, whether larger or smaller); the entries whose code
/// and word are not imported keep their place and weight; nothing is
/// dropped.
pub proof fn lemma_import_weights(s: Seq<Entry>, imported: Seq<Entry>)
    requires
        distinct_keys(s),
    ensures
        ({
            let r = merge_all(s, imported);
            &&& distinct_keys(r)
            &&& r.len() >= s.len()
            &&& forall|j: int| #[trigger] last_of_key(imported, j) ==> exists|k: int|
                0 <= k < r.len() && same_key(entry_fields(#[trigger] r[k]), entry_fields(imported[j]))
                    && r[k].weight == imported[j].weight
            &&& forall|j: int, k: int| #![trigger last_of_key(imported, j), r[k]]
                last_of_key(imported, j) && 0 <= k < r.len() && same_key(entry_fields(r[k]), entry_fields(imported[j]))
                    ==> r[k].weight == imported[j].weight
            &&& forall|k: int| 0 <= k < s.len() && !has_key(imported, entry_fields(#[trigger] s[k])) ==> r[k] == s[k]
        }),
    decreases imported.len(),
{
    if imported.len() == 0 {
        return;
    }
    let t = imported.drop_last();
    let x = imported.last();
    let n = imported.len() - 1;
    lemma_import_weights(s, t);
    let p = merge_all(s, t);
    let r = merge_all(s, imported);
    assert(r == merge_one(p, x));
    lemma_key_index(p, entry_fields(x));
    let ki = key_index(p, entry_fields(x));
    // keys of r are those of p, plus x's when it was new
    assert forall|k: int| 0 <= k < r.len() implies #[trigger] entry_fields(r[k]).0 == (if k < p.len() {
        entry_fields(p[k]).0
    } else {
        entry_fields(x).0
    }) && entry_fields(r[k]).1 == (if k < p.len() {
        entry_fields(p[k]).1
    } else {
        entry_fields(x).1
    }) by {}
    assert forall|i: int, j: int| 0 <= i < j < r.len() implies !same_key(
        entry_fields(#[trigger] r[i]),
        entry_fields(#[trigger] r[j]),
    ) by {
        assert(entry_fields(r[i]).0 == (if i < p.len() { entry_fields(p[i]).0 } else { entry_fields(x).0 }));
        assert(entry_fields(r[j]).0 == (if j < p.len() { entry_fields(p[j]).0 } else { entry_fields(x).0 }));
        assert(entry_fields(r[i]).1 == (if i < p.len() { entry_fields(p[i]).1 } else { entry_fields(x).1 }));
        assert(entry_fields(r[j]).1 == (if j < p.len() { entry_fields(p[j]).1 } else { entry_fields(x).1 }));
        if j < p.len() {
            assert(!same_key(entry_fields(p[i]), entry_fields(p[j])));
        }
    }
    // the last import is present with its weight
    assert(last_of_key(imported, n));
    let kx = if ki >= 0 { ki } else { p.len() as int };
    assert(same_key(entry_fields(r[kx]), entry_fields(x)) && r[kx].weight == x.weight);
    assert forall|j: int| #[trigger] last_of_key(imported, j) implies exists|k: int|
        0 <= k < r.len() && same_key(entry_fields(#[trigger] r[k]), entry_fields(imported[j]))
            && r[k].weight == imported[j].weight by {
        if j == n {
            assert(imported[j] == x);
            assert(same_key(entry_fields(r[kx]), entry_fields(imported[j])));
        } else {
            assert(imported[j] == t[j]);
            assert(!same_key(entry_fields(imported[n]), entry_fields(imported[j])));
            assert forall|j2: int| j < j2 < t.len() implies !same_key(entry_fields(#[trigger] t[j2]), entry_fields(t[j])) by {
                assert(t[j2] == imported[j2]);
            }
            assert(last_of_key(t, j));
            let k = choose|k: int| 0 <= k < p.len() && same_key(entry_fields(#[trigger] p[k]), entry_fields(t[j]))
                && p[k].weight == t[j].weight;
            assert(k != kx);
            assert(r[k] == p[k]);
        }
    }
    assert forall|j: int, k: int| #![trigger last_of_key(imported, j), r[k]]
        last_of_key(imported, j) && 0 <= k < r.len() && same_key(entry_fields(r[k]), entry_fields(imported[j]))
            implies r[k].weight == imported[j].weight by {
        if j == n {
            assert(imported[j] == x);
            if k != kx {
                assert(same_key(entry_fields(r[k]), entry_fields(r[kx])));
                if k < kx {
                    assert(!same_key(entry_fields(r[k]), entry_fields(r[kx])));
                } else {
                    assert(!same_key(entry_fields(r[kx]), entry_fields(r[k])));
                }
            }
        } else {
            assert(imported[j] == t[j]);
            assert(!same_key(entry_fields(imported[n]), entry_fields(imported[j])));
            assert forall|j2: int| j < j2 < t.len() implies !same_key(entry_fields(#[trigger] t[j2]), entry_fields(t[j])) by {
                assert(t[j2] == imported[j2]);
            }
            assert(last_of_key(t, j));
            if k == kx {
                assert(same_key(entry_fields(r[kx]), entry_fields(x)));
                assert(false);
            }
            assert(k < p.len());
            assert(r[k] == p[k]);
        }
    }
    assert forall|k: int| 0 <= k < s.len() && !has_key(imported, entry_fields(#[trigger] s[k])) implies r[k] == s[k] by {
        if !has_key(t, entry_fields(s[k])) {
            assert(p[k] == s[k]);
            if k == kx {
                assert(same_key(entry_fields(x), entry_fields(s[k])));
                assert(imported[n] == x);
                assert(same_key(entry_fields(imported[n]), entry_fields(s[k])));
                assert(false);
            }
        } else {
            let m = choose|m: int| 0 <= m < t.len() && same_key(entry_fields(#[trigger] t[m]), entry_fields(s[k]));
            assert(imported[m] == t[m]);
        }
    }
}

/// Importing into the user's list (see [`UserDictionary::import_text`]):
/// every entry of the new list with an imported code and word carries the
/// weight of the last imported entry with that code and word.
pub proof fn lemma_import_list_weights(s: Seq<Entry>, imported: Seq<Entry>)
    requires
        distinct_keys(s),
    ensures
        forall|j: int, k: int| #![trigger last_of_key(imported, j), stable_sorted(merge_all(s, imported), user_order())[k]]
            last_of_key(imported, j) && 0 <= k < stable_sorted(merge_all(s, imported), user_order()).len()
                && same_key(
                entry_fields(stable_sorted(merge_all(s, imported), user_order())[k]),
                entry_fields(imported[j]),
            ) ==> stable_sorted(merge_all(s, imported), user_order())[k].weight == imported[j].weight,
{
    let r = merge_all(s, imported);
    lemma_import_weights(s, imported);
    lemma_field_order();
    crate::sort::lemma_stable_sort_exists(r, user_order());
    let q = stable_sorted(r, user_order());
    crate::sort::lemma_stable_sort_members(q, r, user_order());
    assert forall|j: int, k: int| #![trigger last_of_key(imported, j), q[k]]
        last_of_key(imported, j) && 0 <= k < q.len() && same_key(entry_fields(q[k]), entry_fields(imported[j]))
            implies q[k].weight == imported[j].weight by {
        assert(r.contains(q[k]));
        let m = choose|m: int| 0 <= m < r.len() && r[m] == q[k];
        assert(same_key(entry_fields(r[m]), entry_fields(imported[j])));
    }
}

} // verus!
