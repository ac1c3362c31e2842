//! Writing a code table and reading it back: the conditions under which
//! a table written by [`crate::dictionary::render_table`] is read by
//! [`crate::dictionary::parse_table_text`] as the same settings and
//! entries.
use crate::dictionary::{
    colon_at, entry_fields, fence_from, fields_of_entries, header_line, header_settings, is_fence,
    opens_header, parse_table, settings_of, table_body, table_header, table_line, table_line_entry,
    table_line_kind, table_text, wildcard_text, Entry, HeaderSettings, TableConfig,
};
use crate::text::{
    decimal_digits, is_digit, is_space, lemma_decimal_digits, lemma_parse_format_u32, lemma_split_append,
    lemma_split_no_sep, lemma_split_push_sep, lemma_trim_unchanged, lines, split_fields, strip_cr, trim,
};
use vstd::prelude::*;

verus! {

/// An entry that a table line carries unchanged: code and word are not
/// empty, hold no tab or line break, and neither starts nor ends with
/// whitespace; the code does not start with `#`.
pub open spec fn writable_entry(e: Entry) -> bool {
    &&& e.code@.len() > 0
    &&& e.word@.len() > 0
    &&& forall|i: int| 0 <= i < e.code@.len() ==> #[trigger] e.code@[i] != '\t' && e.code@[i] != '\n'
    &&& forall|i: int| 0 <= i < e.word@.len() ==> #[trigger] e.word@[i] != '\t' && e.word@[i] != '\n'
    &&& !is_space(e.code@[0]) && !is_space(e.code@.last())
    &&& !is_space(e.word@[0]) && !is_space(e.word@.last())
    &&& e.code@[0] != '#'
}

/// Settings that a header carries unchanged: the wildcard key is not
/// whitespace; the extra code characters hold no line break and neither
/// start nor end with whitespace.
pub open spec fn writable_settings(cfg: TableConfig) -> bool {
    &&& (cfg.wildcard_key matches Some(c) ==> !is_space(c))
    &&& forall|i: int| 0 <= i < cfg.charset@.len() ==> #[trigger] cfg.charset@[i] != '\n'
    &&& trim(cfg.charset@) == cfg.charset@
}

/// The line of an entry without its line break.
pub open spec fn line_body(e: Entry) -> Seq<char> {
    e.code@ + seq!['\t'] + e.word@ + seq!['\t'] + decimal_digits(e.weight as nat)
}

proof fn lemma_line_body(e: Entry)
    requires
        writable_entry(e),
    ensures
        forall|i: int| 0 <= i < line_body(e).len() ==> line_body(e)[i] != '\n',
        line_body(e).len() > 0,
        line_body(e).last() != '\r',
        table_line_kind(line_body(e)) == 1,
        table_line_entry(line_body(e)) == entry_fields(e),
        !is_fence(line_body(e)),
        table_line(e) == line_body(e).push('\n'),
{
    let code = e.code@;
    let word = e.word@;
    let d = decimal_digits(e.weight as nat);
    lemma_decimal_digits(e.weight as nat);
    lemma_parse_format_u32(e.weight);
    let b = line_body(e);
    assert forall|i: int| 0 <= i < b.len() implies b[i] != '\n' by {
        if i < code.len() {
            assert(b[i] == code[i]);
        } else if i == code.len() {
        } else if i < code.len() + 1 + word.len() {
            assert(b[i] == word[i - code.len() - 1]);
        } else if i == code.len() + 1 + word.len() {
        } else {
            assert(b[i] == d[i - code.len() - 2 - word.len()]);
        }
    }
    assert(b[0] == code[0]);
    assert(b.last() == d.last());
    assert(is_digit(d.last()));
    lemma_trim_unchanged(b);
    let tab = '\t';
    assert forall|i: int| 0 <= i < d.len() implies d[i] != tab by {
        assert(is_digit(d[i]));
    }
    lemma_split_no_sep(code, tab);
    lemma_split_push_sep(code, tab);
    assert(code + seq![tab] =~= code.push(tab));
    lemma_split_append(code + seq![tab], word, tab);
    assert(seq![code].push(Seq::<char>::empty()).update(1, Seq::<char>::empty() + word) =~= seq![code, word]);
    lemma_split_push_sep(code + seq![tab] + word, tab);
    assert(code + seq![tab] + word + seq![tab] =~= (code + seq![tab] + word).push(tab));
    lemma_split_append(code + seq![tab] + word + seq![tab], d, tab);
    assert(seq![code, word].push(Seq::<char>::empty()).update(2, Seq::<char>::empty() + d) =~= seq![code, word, d]);
    let parts = split_fields(b, tab);
    assert(parts == seq![code, word, d]);
    lemma_trim_unchanged(code);
    lemma_trim_unchanged(word);
    lemma_trim_unchanged(d);
    reveal_strlit("---");
    assert(trim(b) == b);
    if b == "---"@ {
        assert(b[0] == '-');
    }
    assert(table_line(e) =~= b.push('\n'));
}

/// A non-empty text that is its own trim starts and ends with
/// non-whitespace.
proof fn lemma_trimmed_ends(c: Seq<char>)
    requires
        c.len() > 0,
        trim(c) == c,
    ensures
        !is_space(c[0]),
        !is_space(c.last()),
{
    let l = crate::text::leading_spaces(c);
    let t = c.skip(l as int);
    assert(l <= c.len()) by {
        lemma_leading_le(c);
    }
    assert(trim(c).len() <= t.len()) by {
        lemma_trailing_le(t);
    }
    assert(t.len() == c.len() - l);
    if is_space(c[0]) {
        assert(l == 1 + crate::text::leading_spaces(c.drop_first()));
        assert(trim(c).len() < c.len());
    }
    assert(l == 0);
    assert(t =~= c);
    if is_space(c.last()) {
        let r = crate::text::trailing_spaces(c);
        assert(r == 1 + crate::text::trailing_spaces(c.drop_last()));
        lemma_trailing_le(c);
        assert(trim(c) == c.take(c.len() - r));
        assert(trim(c).len() < c.len());
    }
}

proof fn lemma_trailing_le(c: Seq<char>)
    ensures
        crate::text::trailing_spaces(c) <= c.len(),
    decreases c.len(),
{
    if c.len() > 0 {
        lemma_trailing_le(c.drop_last());
    }
}

proof fn lemma_joined_four(a: Seq<char>, b: Seq<char>, c: Seq<char>, d: Seq<char>)
    ensures
        joined(seq![a, b, c, d]) == a.push('\n') + b.push('\n') + c.push('\n') + d.push('\n'),
{
    let s4 = seq![a, b, c, d];
    assert(s4.drop_last() =~= seq![a, b, c]);
    assert(seq![a, b, c].drop_last() =~= seq![a, b]);
    assert(seq![a, b].drop_last() =~= seq![a]);
    assert(seq![a].drop_last() =~= Seq::<Seq<char>>::empty());
    assert(joined(Seq::<Seq<char>>::empty()) =~= Seq::<char>::empty());
    assert(seq![a].last() == a);
    assert(joined(seq![a]) =~= a.push('\n'));
    assert(joined(seq![a, b]) =~= a.push('\n') + b.push('\n'));
    assert(joined(seq![a, b, c]) =~= a.push('\n') + b.push('\n') + c.push('\n'));
}

proof fn lemma_leading_le(c: Seq<char>)
    ensures
        crate::text::leading_spaces(c) <= c.len(),
    decreases c.len(),
{
    if c.len() > 0 {
        lemma_leading_le(c.drop_first());
    }
}

/// `:` first occurs right after `p`.
proof fn lemma_colon_after(p: Seq<char>, q: Seq<char>)
    requires
        forall|i: int| 0 <= i < p.len() ==> #[trigger] p[i] != ':',
        q.len() > 0,
        q[0] == ':',
    ensures
        colon_at(p + q) == p.len(),
    decreases p.len(),
{
    if p.len() == 0 {
        assert(p + q =~= q);
    } else {
        assert((p + q).drop_first() =~= p.drop_first() + q);
        assert forall|i: int| 0 <= i < p.drop_first().len() implies #[trigger] p.drop_first()[i] != ':' by {
            assert(p.drop_first()[i] == p[i + 1]);
        }
        lemma_colon_after(p.drop_first(), q);
    }
}

/// A space before a text that does not start or end with whitespace is
/// trimmed away.
proof fn lemma_trim_after_space(v: Seq<char>)
    requires
        v.len() == 0 || (!is_space(v[0]) && !is_space(v.last())),
    ensures
        trim(seq![' '] + v) == v,
{
    let s = seq![' '] + v;
    crate::text::lemma_leading_spaces_is(s, 1);
    let t = s.skip(1);
    assert(t =~= v);
    if v.len() > 0 {
        crate::text::lemma_trailing_spaces_is(v, 0);
        assert(v.take(v.len() as int) =~= v);
    } else {
        assert(crate::text::trailing_spaces(v) == 0);
        assert(v.take(0) =~= v);
    }
}

/// The header line that holds a setting: the key, `:`, a space and the
/// value, which is read back unchanged.
#[verifier::rlimit(40)]
proof fn lemma_setting_line(key: Seq<char>, value: Seq<char>)
    requires
        key.len() > 0,
        !is_space(key[0]),
        !is_space(key.last()),
        key[0] != '#',
        forall|i: int| 0 <= i < key.len() ==> #[trigger] key[i] != ':' && key[i] != '\n',
        forall|i: int| 0 <= i < value.len() ==> #[trigger] value[i] != '\n',
        value.len() == 0 || (!is_space(value[0]) && !is_space(value.last())),
    ensures
        ({
            let l = key + seq![':', ' '] + value;
            let t = trim(l);
            &&& forall|i: int| 0 <= i < l.len() ==> #[trigger] l[i] != '\n'
            &&& l.last() != '\r'
            &&& t.len() > 0 && t[0] != '#'
            &&& colon_at(t) < t.len()
            &&& trim(t.take(colon_at(t) as int)) == key
            &&& trim(t.skip(colon_at(t) + 1int)) == value
            &&& !(t =~= "---"@) || key[0] == '-'
        }),
{
    let l = key + seq![':', ' '] + value;
    assert forall|i: int| 0 <= i < l.len() implies #[trigger] l[i] != '\n' by {
        if i < key.len() {
            assert(l[i] == key[i]);
        } else if i >= key.len() + 2 {
            assert(l[i] == value[i - key.len() - 2]);
        }
    }
    lemma_trim_unchanged(key);
    let head = key + seq![':'];
    if value.len() == 0 {
        assert(l =~= head + seq![' ']);
        crate::text::lemma_leading_spaces_is(l, 0);
        assert(l.skip(0) =~= l);
        crate::text::lemma_trailing_spaces_is(l, 1);
        assert(trim(l) =~= head);
        let t = head;
        lemma_colon_after(key, seq![':']);
        assert(t.take(key.len() as int) =~= key);
        assert(t.skip(key.len() + 1int) =~= Seq::<char>::empty());
        assert(crate::text::trailing_spaces(Seq::<char>::empty()) == 0);
        assert(crate::text::leading_spaces(Seq::<char>::empty()) == 0);
        assert(trim(Seq::<char>::empty()) =~= Seq::<char>::empty());
        assert(t[0] == key[0]);
    } else {
        assert(l[0] == key[0]);
        assert(l.last() == value.last());
        lemma_trim_unchanged(l);
        let t = l;
        assert(l =~= key + (seq![':', ' '] + value));
        lemma_colon_after(key, seq![':', ' '] + value);
        assert(t.take(key.len() as int) =~= key);
        assert(t.skip(key.len() + 1int) =~= seq![' '] + value);
        lemma_trim_after_space(value);
    }
    reveal_strlit("---");
}

/// Lines joined, each followed by a line break.
pub open spec fn joined(ls: Seq<Seq<char>>) -> Seq<char>
    decreases ls.len(),
{
    if ls.len() == 0 {
        Seq::empty()
    } else {
        joined(ls.drop_last()) + ls.last().push('\n')
    }
}

proof fn lemma_joined_add(a: Seq<Seq<char>>, b: Seq<Seq<char>>)
    ensures
        joined(a + b) == joined(a) + joined(b),
    decreases b.len(),
{
    if b.len() == 0 {
        assert(a + b =~= a);
        assert(joined(a) + joined(b) =~= joined(a));
    } else {
        assert((a + b).drop_last() =~= a + b.drop_last());
        lemma_joined_add(a, b.drop_last());
        assert(joined(a + b) =~= joined(a) + joined(b));
    }
}

/// Lines without line breaks, joined, read back as the same lines.
proof fn lemma_joined_lines(ls: Seq<Seq<char>>)
    requires
        forall|k: int, i: int| 0 <= k < ls.len() && 0 <= i < ls[k].len() ==> #[trigger] ls[k][i] != '\n',
        forall|k: int| 0 <= k < ls.len() ==> #[trigger] ls[k].len() == 0 || ls[k].last() != '\r',
    ensures
        split_fields(joined(ls), '\n') == ls.push(Seq::<char>::empty()),
        lines(joined(ls)) == ls,
    decreases ls.len(),
{
    let nl = '\n';
    if ls.len() == 0 {
        assert(joined(ls) =~= Seq::<char>::empty());
        assert(ls.push(Seq::<char>::empty()) =~= seq![Seq::<char>::empty()]);
    } else {
        let t = ls.drop_last();
        let l = ls.last();
        assert forall|k: int, i: int| 0 <= k < t.len() && 0 <= i < t[k].len() implies #[trigger] t[k][i] != nl by {
            assert(t[k] == ls[k]);
        }
        assert forall|k: int| 0 <= k < t.len() implies #[trigger] t[k].len() == 0 || t[k].last() != '\r' by {
            assert(t[k] == ls[k]);
        }
        lemma_joined_lines(t);
        let p = joined(t);
        assert forall|i: int| 0 <= i < l.len() implies l[i] != nl by {
            assert(ls[ls.len() - 1] == l);
        }
        assert(joined(ls) =~= (p + l).push(nl));
        lemma_split_push_sep(p + l, nl);
        lemma_split_append(p, l, nl);
        let prev = split_fields(p, nl);
        assert(prev == t.push(Seq::<char>::empty()));
        assert(prev.update(prev.len() - 1, prev.last() + l) =~= ls);
    }
    let f = split_fields(joined(ls), nl);
    assert(f.last() =~= Seq::<char>::empty());
    assert(f.drop_last() =~= ls);
    assert forall|k: int| 0 <= k < ls.len() implies strip_cr(#[trigger] ls[k]) == ls[k] by {}
    assert(f.drop_last().map_values(|l: Seq<char>| strip_cr(l)) =~= ls);
}

/// The header lines of a table: the fences and the two settings.
pub open spec fn header_lines(cfg: TableConfig) -> Seq<Seq<char>> {
    seq![
        "---"@,
        "wildcard_key"@ + seq![':', ' '] + wildcard_text(cfg.wildcard_key),
        "charset"@ + seq![':', ' '] + cfg.charset@,
        "---"@,
    ]
}

/// The entry lines of a table depend only on the entries' lines.
proof fn lemma_body_joined(es: Seq<Entry>)
    requires
        forall|i: int| 0 <= i < es.len() ==> writable_entry(#[trigger] es[i]),
    ensures
        table_body(es) == joined(es.map_values(|e: Entry| line_body(e))),
    decreases es.len(),
{
    if es.len() > 0 {
        let t = es.drop_last();
        assert forall|i: int| 0 <= i < t.len() implies writable_entry(#[trigger] t[i]) by {
            assert(t[i] == es[i]);
        }
        lemma_body_joined(t);
        assert(writable_entry(es[es.len() - 1]));
        lemma_line_body(es.last());
        let m = es.map_values(|e: Entry| line_body(e));
        assert(m.drop_last() =~= t.map_values(|e: Entry| line_body(e)));
        assert(m.last() == line_body(es.last()));
    } else {
        assert(es.map_values(|e: Entry| line_body(e)) =~= Seq::<Seq<char>>::empty());
    }
}

/// The entry lines after the header read back as the entries.
proof fn lemma_parse_written_entries(h: Seq<Seq<char>>, es: Seq<Entry>)
    requires
        h.len() == 4,
        forall|i: int| 0 <= i < es.len() ==> writable_entry(#[trigger] es[i]),
    ensures
        parse_table(h + es.map_values(|e: Entry| line_body(e)), 4) == Ok::<
            Seq<(Seq<char>, Seq<char>, u32)>,
            (int, int),
        >(fields_of_entries(es)),
    decreases es.len(),
{
    let ls = h + es.map_values(|e: Entry| line_body(e));
    if es.len() == 0 {
        assert(ls =~= h);
        crate::dictionary::lemma_parse_table_skipped(h, 4);
        assert(fields_of_entries(es) =~= Seq::<(Seq<char>, Seq<char>, u32)>::empty());
    } else {
        let t = es.drop_last();
        assert forall|i: int| 0 <= i < t.len() implies writable_entry(#[trigger] t[i]) by {
            assert(t[i] == es[i]);
        }
        lemma_parse_written_entries(h, t);
        assert(ls.drop_last() =~= h + t.map_values(|e: Entry| line_body(e)));
        assert(writable_entry(es[es.len() - 1]));
        lemma_line_body(es.last());
        assert(ls.last() == line_body(es.last()));
        assert(fields_of_entries(es) =~= fields_of_entries(t).push(entry_fields(es.last())));
    }
}

/// The written header and the settings line parts it is made of.
proof fn lemma_header_parts(cfg: TableConfig)
    requires
        writable_settings(cfg),
    ensures
        ({
            let h = header_lines(cfg);
            &&& table_header(cfg) == joined(h)
            &&& forall|k: int, i: int| 0 <= k < 4 && 0 <= i < h[k].len() ==> #[trigger] h[k][i] != '\n'
            &&& forall|k: int| 0 <= k < 4 ==> #[trigger] h[k].len() == 0 || h[k].last() != '\r'
            &&& is_fence(h[0]) && !is_fence(h[1]) && !is_fence(h[2]) && is_fence(h[3])
            &&& header_line((None, Seq::empty()), h[1]) == Ok::<HeaderSettings, int>((cfg.wildcard_key, Seq::empty()))
            &&& header_line((cfg.wildcard_key, Seq::empty()), h[2]) == Ok::<HeaderSettings, int>(
                (cfg.wildcard_key, cfg.charset@),
            )
        }),
{
    reveal_strlit("---");
    reveal_strlit("---\n");
    reveal_strlit("wildcard_key: ");
    reveal_strlit("wildcard_key");
    reveal_strlit("\n");
    reveal_strlit("charset: ");
    reveal_strlit("charset");
    reveal_strlit("\n---\n");
    let h = header_lines(cfg);
    let wk = "wildcard_key"@;
    let cs = "charset"@;
    let wt = wildcard_text(cfg.wildcard_key);
    let c = cfg.charset@;
    assert(wt.len() == 0 || (!is_space(wt[0]) && !is_space(wt.last())));
    assert forall|i: int| 0 <= i < wt.len() implies #[trigger] wt[i] != '\n' by {}
    if c.len() > 0 {
        lemma_trimmed_ends(c);
    }
    lemma_setting_line(wk, wt);
    lemma_setting_line(cs, c);
    lemma_joined_four(h[0], h[1], h[2], h[3]);
    assert(h =~= seq![h[0], h[1], h[2], h[3]]);
    assert(table_header(cfg) =~= joined(h));
    lemma_trim_unchanged("---"@);
    assert(wk != cs);
}

/// The lines of a written table: the header lines, then the entry lines.
proof fn lemma_written_lines(cfg: TableConfig, es: Seq<Entry>)
    requires
        writable_settings(cfg),
        forall|i: int| 0 <= i < es.len() ==> writable_entry(#[trigger] es[i]),
    ensures
        lines(table_header(cfg) + table_body(es)) == header_lines(cfg) + es.map_values(|e: Entry| line_body(e)),
{
    let h = header_lines(cfg);
    let bodies = es.map_values(|e: Entry| line_body(e));
    lemma_header_parts(cfg);
    lemma_body_joined(es);
    lemma_joined_add(h, bodies);
    let ls = h + bodies;
    assert forall|k: int, i: int| 0 <= k < ls.len() && 0 <= i < ls[k].len() implies #[trigger] ls[k][i] != '\n' by {
        if k >= 4 {
            assert(ls[k] == bodies[k - 4]);
            assert(writable_entry(es[k - 4]));
            lemma_line_body(es[k - 4]);
        } else {
            assert(ls[k] == h[k]);
        }
    }
    assert forall|k: int| 0 <= k < ls.len() implies #[trigger] ls[k].len() == 0 || ls[k].last() != '\r' by {
        if k >= 4 {
            assert(ls[k] == bodies[k - 4]);
            assert(writable_entry(es[k - 4]));
            lemma_line_body(es[k - 4]);
        } else {
            assert(ls[k] == h[k]);
        }
    }
    lemma_joined_lines(ls);
}

/// A table written with [`crate::dictionary::render_table`] reads back,
/// with [`crate::dictionary::parse_table_text`], as the same settings and
/// entries, when the settings and entries can be written unchanged.
pub proof fn lemma_table_roundtrip(cfg: TableConfig, es: Seq<Entry>)
    requires
        writable_settings(cfg),
        forall|i: int| 0 <= i < es.len() ==> writable_entry(#[trigger] es[i]),
    ensures
        table_text(lines(table_header(cfg) + table_body(es))) == Ok::<
            (HeaderSettings, Seq<(Seq<char>, Seq<char>, u32)>),
            (int, int),
        >((settings_of(cfg), fields_of_entries(es))),
{
    let h = header_lines(cfg);
    let ls = h + es.map_values(|e: Entry| line_body(e));
    lemma_written_lines(cfg, es);
    lemma_header_parts(cfg);
    assert(ls[0] == h[0] && ls[1] == h[1] && ls[2] == h[2] && ls[3] == h[3]);
    assert(opens_header(ls));
    assert(fence_from(ls, 3) == 3);
    assert(fence_from(ls, 2) == 3);
    assert(fence_from(ls, 1) == 3);
    assert(header_settings(ls, 1) == Ok::<HeaderSettings, (int, int)>((None, Seq::empty())));
    assert(header_settings(ls, 2) == Ok::<HeaderSettings, (int, int)>((cfg.wildcard_key, Seq::empty())));
    assert(header_settings(ls, 3) == Ok::<HeaderSettings, (int, int)>((cfg.wildcard_key, cfg.charset@)));
    lemma_parse_written_entries(h, es);
}

} // verus!
