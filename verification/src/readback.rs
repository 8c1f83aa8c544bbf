//! Reading canonical text back: the manifest and lockfile writers emit text
//! that the reader turns back into exactly the value written, for every
//! value whose strings the subset can carry verbatim.
//!
//! The reader takes a double-quoted string's characters up to the next `"`
//! as they stand — it does not undo escapes — so a string holding a `"` or
//! a `\` (which the writers escape) or a line break does not read back as
//! written. Every other string does.

use vstd::prelude::*;
use crate::text::{find_char, is_ws, lemma_find_char, lemma_ws_prefix_len, lemma_ws_suffix_len, trim};
use crate::assoc::{insert_sorted, keys, lemma_index_of_sorted, lemma_lower_bound, replace_value, sorted, value_of};
use crate::text::{lemma_seq_lt_asym, seq_lt};
use crate::manifest::{
    DepsModel, Edition, MErr, ManifestModel, dep_line, dep_source_spec, deps_of, deps_spec, deps_text, edition_field,
    edition_spec, edition_str, manifest_from_doc, module_root_spec, name_spec, string_field_spec,
    manifest_spec, manifest_text, name_char, valid_name,
};
use crate::toml::{
    CursorModel, DocModel, TModel, VModel, comment_cut, empty_doc, parse_from, parse_spec, cursor_table, entries_d, escape, escape_char,
    inline_table_d, is_key_char, key_error, lines_of, pair_d, push_array_table, set_cursor_table, split_scan,
    split_top_level_spec, step, strip_comment_spec, strip_cr, value_d, holds_at, lemma_cut_escaped,
    lemma_scan_escaped, lemma_escape_no_newline, law_escaped_string_reads_back,
};

verus! {

/// A string that fits on one line: no line break. Quotes and backslashes
/// are escaped by the writers and decoded by the reader.
pub open spec fn plain(s: Seq<char>) -> bool {
    forall|i: int| 0 <= i < s.len() ==> #[trigger] s[i] != '\n'
}

/// A string the writers emit as it is: no quote, no backslash, no line
/// break.
pub open spec fn verbatim(s: Seq<char>) -> bool {
    forall|i: int| 0 <= i < s.len() ==> #[trigger] s[i] != '"' && s[i] != '\\' && s[i] != '\n'
}

/// A verbatim string is its own escape.
pub proof fn lemma_escape_verbatim(s: Seq<char>)
    requires
        verbatim(s),
    ensures
        escape(s) == s,
        plain(s),
    decreases s.len(),
{
    if s.len() > 0 {
        assert(verbatim(s.drop_last())) by {
            assert forall|i: int| 0 <= i < s.drop_last().len() implies #[trigger] s.drop_last()[i] != '"'
                && s.drop_last()[i] != '\\' && s.drop_last()[i] != '\n' by {
                assert(s.drop_last()[i] == s[i]);
            }
        }
        lemma_escape_verbatim(s.drop_last());
        assert(s.last() == s[s.len() - 1]);
        assert(escape_char(s.last()) == seq![s.last()]);
        assert(s.drop_last() + seq![s.last()] =~= s);
    }
}

/// Trimming removes exactly the whitespace around a string that neither
/// starts nor ends with whitespace.
pub proof fn lemma_trim_pad(a: Seq<char>, t: Seq<char>, b: Seq<char>)
    requires
        forall|i: int| 0 <= i < a.len() ==> is_ws(#[trigger] a[i]),
        forall|i: int| 0 <= i < b.len() ==> is_ws(#[trigger] b[i]),
        t.len() == 0 || (!is_ws(t[0]) && !is_ws(t.last())),
    ensures
        trim(a + t + b) == t,
{
    let s = a + t + b;
    if t.len() > 0 {
        assert forall|j: int| 0 <= j < a.len() implies is_ws(#[trigger] s[j]) by {
            assert(s[j] == a[j]);
        }
        assert(s[a.len() as int] == t[0]);
        lemma_ws_prefix_len(s, a.len() as int);
        let u = s.skip(a.len() as int);
        assert(u =~= t + b);
        assert forall|j: int| t.len() <= j < u.len() implies is_ws(#[trigger] u[j]) by {
            assert(u[j] == b[j - t.len()]);
        }
        assert(u[t.len() - 1] == t.last());
        lemma_ws_suffix_len(u, t.len() as int);
        assert(u.take(t.len() as int) =~= t);
    } else {
        assert forall|j: int| 0 <= j < s.len() implies is_ws(#[trigger] s[j]) by {
            if j < a.len() {
                assert(s[j] == a[j]);
            } else {
                assert(s[j] == b[j - a.len()]);
            }
        }
        lemma_ws_prefix_len(s, s.len() as int);
        let u = s.skip(s.len() as int);
        assert(u.len() == 0);
        lemma_ws_suffix_len(u, 0);
        assert(trim(s) =~= t);
    }
}

/// A string that neither starts nor ends with whitespace is its own trim.
pub proof fn lemma_trim_id(t: Seq<char>)
    requires
        t.len() == 0 || (!is_ws(t[0]) && !is_ws(t.last())),
    ensures
        trim(t) == t,
{
    lemma_trim_pad(seq![], t, seq![]);
    assert(Seq::<char>::empty() + t + Seq::<char>::empty() =~= t);
}

/// What `find_char` finds.
pub proof fn lemma_find_char_props(s: Seq<char>, c: char)
    ensures
        find_char(s, c) <= s.len(),
        forall|j: int| 0 <= j < find_char(s, c) ==> #[trigger] s[j] != c,
        find_char(s, c) < s.len() ==> s[find_char(s, c) as int] == c,
    decreases s.len(),
{
    if s.len() > 0 && s[0] != c {
        lemma_find_char_props(s.drop_first(), c);
        assert forall|j: int| 0 <= j < find_char(s, c) implies #[trigger] s[j] != c by {
            if j > 0 {
                assert(s[j] == s.drop_first()[j - 1]);
            }
        }
    }
}

/// Searching past a prefix without `c`.
pub proof fn lemma_find_char_concat(a: Seq<char>, b: Seq<char>, c: char)
    requires
        forall|j: int| 0 <= j < a.len() ==> #[trigger] a[j] != c,
    ensures
        find_char(a + b, c) == a.len() + find_char(b, c),
{
    lemma_find_char_props(b, c);
    let s = a + b;
    let i = (a.len() + find_char(b, c)) as int;
    assert forall|j: int| 0 <= j < i implies #[trigger] s[j] != c by {
        if j < a.len() {
            assert(s[j] == a[j]);
        } else {
            assert(s[j] == b[j - a.len()]);
        }
    }
    if i < s.len() {
        assert(s[i] == b[find_char(b, c) as int]);
    }
    lemma_find_char(s, c, i);
}

/// Scanning for a comment across characters that open no string and start
/// no comment.
pub proof fn lemma_comment_cut_skip(s: Seq<char>, i: nat, j: nat, in_string: bool)
    requires
        i <= j <= s.len(),
        forall|k: int|
            i <= k < j ==> #[trigger] s[k] != '"' && (if in_string {
                s[k] != '\\'
            } else {
                s[k] != '#'
            }),
    ensures
        comment_cut(s, i, in_string) == comment_cut(s, j, in_string),
    decreases j - i,
{
    if i < j {
        lemma_comment_cut_skip(s, i + 1, j, in_string);
    }
}

/// The lines of a text: each line followed by a line break.
pub open spec fn unlines(ls: Seq<Seq<char>>) -> Seq<char>
    decreases ls.len(),
{
    if ls.len() == 0 {
        seq![]
    } else {
        ls[0] + seq!['\n'] + unlines(ls.drop_first())
    }
}

/// A line the reader sees as written: no line break inside, no carriage
/// return at the end.
pub open spec fn clean_line(l: Seq<char>) -> bool {
    (forall|i: int| 0 <= i < l.len() ==> #[trigger] l[i] != '\n') && (l.len() == 0 || l.last() != '\r')
}

/// Joined lines concatenate.
pub proof fn lemma_unlines_concat(a: Seq<Seq<char>>, b: Seq<Seq<char>>)
    ensures
        unlines(a + b) == unlines(a) + unlines(b),
    decreases a.len(),
{
    if a.len() > 0 {
        assert((a + b).drop_first() =~= a.drop_first() + b);
        lemma_unlines_concat(a.drop_first(), b);
        assert((a + b)[0] == a[0]);
        assert(unlines(a + b) =~= unlines(a) + unlines(b));
    } else {
        assert(a + b =~= b);
        assert(unlines(a) + unlines(b) =~= unlines(b));
    }
}

/// Reading the lines of joined clean lines gives them back.
pub proof fn lemma_lines_of_unlines(ls: Seq<Seq<char>>)
    requires
        forall|i: int| 0 <= i < ls.len() ==> clean_line(#[trigger] ls[i]),
    ensures
        lines_of(unlines(ls)) == ls,
    decreases ls.len(),
{
    if ls.len() > 0 {
        let a = ls[0];
        let rest = unlines(ls.drop_first());
        let s = unlines(ls);
        assert(clean_line(a));
        assert(s =~= a + (seq!['\n'] + rest));
        lemma_find_char_concat(a, seq!['\n'] + rest, '\n');
        assert(find_char(seq!['\n'] + rest, '\n') == 0);
        assert(s.take(a.len() as int) =~= a);
        assert(strip_cr(a) == a);
        assert(s.skip(a.len() + 1int) =~= rest);
        assert forall|i: int| 0 <= i < ls.drop_first().len() implies clean_line(#[trigger] ls.drop_first()[i]) by {
            assert(ls.drop_first()[i] == ls[i + 1]);
        }
        lemma_lines_of_unlines(ls.drop_first());
        assert(lines_of(s) =~= ls);
    }
}

/// A bare key: a non-empty run of key characters.
pub open spec fn bare_key(k: Seq<char>) -> bool {
    k.len() > 0 && forall|i: int| 0 <= i < k.len() ==> is_key_char(#[trigger] k[i])
}

/// A key character is no whitespace, quote, comment sign, bracket, brace,
/// comma, or equals sign.
pub proof fn lemma_key_char(c: char)
    requires
        is_key_char(c),
    ensures
        !is_ws(c),
        c != '"' && c != '#' && c != '=' && c != '[' && c != ']' && c != '{' && c != '}' && c != ','
            && c != '\n' && c != '\r',
{
}

/// The line `key = "s"`, with `s` escaped.
pub open spec fn str_line(key: Seq<char>, s: Seq<char>) -> Seq<char> {
    key + " = \""@ + escape(s) + "\""@
}

/// The line `key = "s"` is clean, is its own trimmed comment-free form, and
/// reads as the pair `(key, "s")`.
pub proof fn lemma_str_line(key: Seq<char>, s: Seq<char>, d: nat)
    requires
        bare_key(key),
        plain(s),
    ensures
        clean_line(str_line(key, s)),
        trim(strip_comment_spec(str_line(key, s))) == str_line(key, s),
        str_line(key, s)[0] != '[',
        pair_d(str_line(key, s), d) == Ok::<(Seq<char>, VModel), Seq<char>>((key, VModel::Str(s))),
{
    reveal_strlit(" = \"");
    reveal_strlit("\"");
    let e = escape(s);
    let line = str_line(key, s);
    let kl = key.len() as int;
    let el = e.len() as int;
    assert(line.len() == kl + 4 + el + 1);
    assert forall|i: int| 0 <= i < kl implies #[trigger] line[i] == key[i] by {}
    assert(line[kl] == ' ' && line[kl + 1] == '=' && line[kl + 2] == ' ' && line[kl + 3] == '"');
    assert forall|i: int| 0 <= i < el implies #[trigger] line[kl + 4 + i] == e[i] by {}
    assert(line[kl + 4 + el] == '"');
    assert forall|i: int| 0 <= i < kl implies !is_ws(#[trigger] key[i]) && key[i] != '"' && key[i] != '#'
        && key[i] != '=' && key[i] != '[' && key[i] != '\n' by {
        lemma_key_char(key[i]);
    }
    lemma_escape_no_newline(s);
    // Clean.
    assert forall|i: int| 0 <= i < line.len() implies #[trigger] line[i] != '\n' by {
        if i < kl {
        } else if i >= kl + 4 && i < kl + 4 + el {
            assert(line[kl + 4 + (i - kl - 4)] == e[i - kl - 4]);
        }
    }
    // No comment.
    lemma_comment_cut_skip(line, 0, (kl + 3) as nat, false);
    assert(holds_at(line, kl + 4, e)) by {
        assert forall|k: int| 0 <= k < e.len() implies #[trigger] line[kl + 4 + k] == e[k] by {}
    }
    lemma_cut_escaped(line, kl + 4, s);
    assert(comment_cut(line, (kl + 3) as nat, false) == comment_cut(line, (kl + 4) as nat, true));
    assert(comment_cut(line, (kl + 4 + el) as nat, true) == comment_cut(line, (kl + 5 + el) as nat, false));
    assert(comment_cut(line, 0, false) == line.len());
    assert(strip_comment_spec(line) =~= line);
    lemma_trim_id(line);
    // The pair.
    assert(line =~= key + (" = \""@ + e + "\""@));
    lemma_find_char_concat(key, " = \""@ + e + "\""@, '=');
    let tail = " = \""@ + e + "\""@;
    assert(tail[0] == ' ' && tail[1] == '=');
    lemma_find_char(tail, '=', 1);
    assert(line.take(kl + 1) =~= key + seq![' ']);
    lemma_trim_pad(seq![], key, seq![' ']);
    assert(Seq::<char>::empty() + key + seq![' '] =~= key + seq![' ']);
    assert(key_error(key) is None);
    let text = seq!['"'] + e + seq!['"'];
    assert(line.skip(kl + 2) =~= seq![' '] + text + Seq::<char>::empty());
    lemma_trim_pad(seq![' '], text, seq![]);
    law_escaped_string_reads_back(s, d);
}

/// A bare key is its own trim and draws no key error.
pub proof fn lemma_bare_key(k: Seq<char>)
    requires
        bare_key(k),
    ensures
        trim(k) == k,
        key_error(k) is None,
        forall|i: int| 0 <= i < k.len() ==> !is_ws(#[trigger] k[i]) && k[i] != '"' && k[i] != '#'
            && k[i] != '=' && k[i] != '[' && k[i] != ']' && k[i] != '{' && k[i] != '}' && k[i] != ','
            && k[i] != '\n' && k[i] != '\r',
{
    assert forall|i: int| 0 <= i < k.len() implies !is_ws(#[trigger] k[i]) && k[i] != '"' && k[i]
        != '#' && k[i] != '=' && k[i] != '[' && k[i] != ']' && k[i] != '{' && k[i] != '}' && k[i] != ','
        && k[i] != '\n' && k[i] != '\r' by {
        lemma_key_char(k[i]);
    }
    lemma_trim_id(k);
}

/// A blank line changes nothing.
pub proof fn lemma_step_blank(doc: DocModel, c: CursorModel, n: nat)
    ensures
        step(doc, c, seq![], n) == Ok::<(DocModel, CursorModel), (nat, Seq<char>)>((doc, c)),
        clean_line(seq![]),
{
    assert(comment_cut(seq![], 0, false) == 0);
    assert(strip_comment_spec(seq![]) =~= Seq::<char>::empty());
    lemma_trim_id(seq![]);
}

/// A `[name]` header for a new table opens it.
pub proof fn lemma_step_table_header(doc: DocModel, c: CursorModel, name: Seq<char>, n: nat)
    requires
        bare_key(name),
        !keys(doc.tables).contains(name),
    ensures
        clean_line("["@ + name + "]"@),
        step(doc, c, "["@ + name + "]"@, n) == Ok::<(DocModel, CursorModel), (nat, Seq<char>)>(
            (
                DocModel { tables: insert_sorted(doc.tables, name, seq![]), ..doc },
                CursorModel::Table(name),
            ),
        ),
{
    reveal_strlit("[");
    reveal_strlit("]");
    lemma_bare_key(name);
    let line = "["@ + name + "]"@;
    assert(line[0] == '[' && line[1] == name[0] && line.last() == ']');
    assert forall|i: int| 0 <= i < line.len() implies #[trigger] line[i] != '\n' && line[i] != '"' && line[i] != '#' by {
        if 0 < i < line.len() - 1 {
            assert(line[i] == name[i - 1]);
        }
    }
    lemma_comment_cut_skip(line, 0, line.len(), false);
    assert(strip_comment_spec(line) =~= line);
    lemma_trim_id(line);
    assert(line.skip(1).drop_last() =~= name);
}

/// A `[[name]]` header appends a fresh table to the array `name`.
pub proof fn lemma_step_array_header(doc: DocModel, c: CursorModel, name: Seq<char>, n: nat)
    requires
        bare_key(name),
    ensures
        clean_line("[["@ + name + "]]"@),
        step(doc, c, "[["@ + name + "]]"@, n) == Ok::<(DocModel, CursorModel), (nat, Seq<char>)>(
            (
                DocModel { array_tables: push_array_table(doc.array_tables, name), ..doc },
                CursorModel::ArrayTable(name),
            ),
        ),
{
    reveal_strlit("[[");
    reveal_strlit("]]");
    lemma_bare_key(name);
    let line = "[["@ + name + "]]"@;
    assert(line[0] == '[' && line[1] == '[' && line.last() == ']');
    assert forall|i: int| 0 <= i < line.len() implies #[trigger] line[i] != '\n' && line[i] != '"' && line[i] != '#' by {
        if 1 < i < line.len() - 2 {
            assert(line[i] == name[i - 2]);
        }
    }
    lemma_comment_cut_skip(line, 0, line.len(), false);
    assert(strip_comment_spec(line) =~= line);
    lemma_trim_id(line);
    let rest = line.skip(2);
    assert(rest =~= name + "]]"@);
    assert(rest.take(rest.len() - 2) =~= name);
}

/// A `key = "s"` line for a new key lands in the cursor's table.
pub proof fn lemma_step_str(doc: DocModel, c: CursorModel, key: Seq<char>, s: Seq<char>, n: nat)
    requires
        bare_key(key),
        plain(s),
        !keys(cursor_table(doc, c)).contains(key),
    ensures
        clean_line(str_line(key, s)),
        step(doc, c, str_line(key, s), n) == Ok::<(DocModel, CursorModel), (nat, Seq<char>)>(
            (set_cursor_table(doc, c, insert_sorted(cursor_table(doc, c), key, VModel::Str(s))), c),
        ),
{
    let line = str_line(key, s);
    lemma_str_line(key, s, line.len());
    lemma_bare_key(key);
    assert(line[0] == key[0]);
}

/// Scanning for commas across characters that change neither the string
/// nor the bracket state.
pub proof fn lemma_split_scan_skip(
    text: Seq<char>,
    i: nat,
    j: nat,
    depth: nat,
    in_string: bool,
    start: nat,
    parts: Seq<Seq<char>>,
)
    requires
        i <= j <= text.len(),
        forall|k: int|
            i <= k < j ==> #[trigger] text[k] != '"' && (if in_string {
                text[k] != '\\'
            } else {
                text[k] != '[' && text[k] != '{' && text[k] != ']' && text[k] != '}' && text[k] != ','
            }),
    ensures
        split_scan(text, i, depth, in_string, start, parts) == split_scan(text, j, depth, in_string, start, parts),
    decreases j - i,
{
    if i < j {
        lemma_split_scan_skip(text, i + 1, j, depth, in_string, start, parts);
    }
}

/// The line `key = { path = "p" }`, with `p` escaped.
pub open spec fn path_line(key: Seq<char>, p: Seq<char>) -> Seq<char> {
    key + " = { path = \""@ + escape(p) + "\" }"@
}

/// The line `key = { path = "p" }` is clean and its own trimmed
/// comment-free form.
pub proof fn lemma_path_line_shape(key: Seq<char>, p: Seq<char>)
    requires
        bare_key(key),
        plain(p),
    ensures
        clean_line(path_line(key, p)),
        trim(strip_comment_spec(path_line(key, p))) == path_line(key, p),
        path_line(key, p)[0] != '[',
{
    reveal_strlit(" = { path = \"");
    reveal_strlit("\" }");
    lemma_bare_key(key);
    let e = escape(p);
    let line = path_line(key, p);
    let kl = key.len() as int;
    let pl = e.len() as int;
    assert(line.len() == kl + 13 + pl + 3);
    assert forall|i: int| 0 <= i < kl implies #[trigger] line[i] == key[i] by {}
    assert forall|i: int| 0 <= i < pl implies #[trigger] line[kl + 13 + i] == e[i] by {}
    assert(line[kl + 12] == '"' && line[kl + 13 + pl] == '"');
    assert(line[kl + 14 + pl] == ' ' && line[kl + 15 + pl] == '}');
    lemma_escape_no_newline(p);
    assert forall|i: int| 0 <= i < line.len() implies #[trigger] line[i] != '\n' by {
        if kl + 13 <= i < kl + 13 + pl {
            assert(line[kl + 13 + (i - kl - 13)] == e[i - kl - 13]);
        }
    }
    assert forall|i: int| 0 <= i < kl + 12 implies #[trigger] line[i] != '"' && line[i] != '#' by {}
    lemma_comment_cut_skip(line, 0, (kl + 12) as nat, false);
    assert(holds_at(line, kl + 13, e)) by {
        assert forall|k: int| 0 <= k < e.len() implies #[trigger] line[kl + 13 + k] == e[k] by {}
    }
    lemma_cut_escaped(line, kl + 13, p);
    lemma_comment_cut_skip(line, (kl + 14 + pl) as nat, line.len(), false);
    assert(comment_cut(line, 0, false) == line.len());
    assert(strip_comment_spec(line) =~= line);
    assert(line[0] == key[0] && line.last() == '}');
    lemma_trim_id(line);
}

/// `{ path = "p" }` reads as an inline table holding the path.
proof fn lemma_path_value(p: Seq<char>, d: nat)
    requires
        plain(p),
        d >= 1,
    ensures
        value_d("{ path = \""@ + escape(p) + "\" }"@, d) == Ok::<VModel, Seq<char>>(
            VModel::Tab(seq![("path"@, VModel::Str(p))]),
        ),
{
    reveal_strlit("{ path = \"");
    reveal_strlit("\" }");
    reveal_strlit("path");
    reveal_strlit(" = \"");
    reveal_strlit("\"");
    let e = escape(p);
    let text = "{ path = \""@ + e + "\" }"@;
    assert(text[0] == '{' && text.last() == '}');
    let inner_raw = text.subrange(1, text.len() - 1);
    let inner = str_line("path"@, p);
    assert(inner_raw =~= seq![' '] + inner + seq![' ']);
    assert(bare_key("path"@));
    assert(inner[0] == 'p' && inner.last() == '"');
    lemma_trim_pad(seq![' '], inner, seq![' ']);
    lemma_str_line("path"@, p, (d - 1) as nat);
    let il = inner.len() as int;
    assert(inner =~= "path"@ + " = \""@ + e + "\""@);
    assert(inner[7] == '"' && inner[il - 1] == '"');
    assert forall|k: int| 0 <= k < 7 implies #[trigger] inner[k] != '"' && inner[k] != '[' && inner[k] != '{'
        && inner[k] != ']' && inner[k] != '}' && inner[k] != ',' by {}
    lemma_split_scan_skip(inner, 0, 7, 0, false, 0, seq![]);
    assert(holds_at(inner, 8, e)) by {
        assert forall|k: int| 0 <= k < e.len() implies #[trigger] inner[8 + k] == e[k] by {}
    }
    lemma_scan_escaped(inner, 8, p, 0, 0, seq![]);
    assert(inner.subrange(0, il) =~= inner);
    lemma_trim_id(inner);
    let es = Seq::<Seq<char>>::empty();
    assert(split_scan(inner, il as nat, 0, false, 0, es) == Ok::<Seq<Seq<char>>, Seq<char>>(seq![inner]));
    assert(split_scan(inner, (il - 1) as nat, 0, true, 0, es) == split_scan(inner, il as nat, 0, false, 0, es));
    assert(split_scan(inner, 7, 0, false, 0, es) == split_scan(inner, 8, 0, true, 0, es));
    assert(split_top_level_spec(inner) == Ok::<Seq<Seq<char>>, Seq<char>>(seq![inner]));
    let t1 = insert_sorted(Seq::<(Seq<char>, VModel)>::empty(), "path"@, VModel::Str(p));
    assert(keys(Seq::<(Seq<char>, VModel)>::empty()) =~= Seq::<Seq<char>>::empty());
    assert(t1 =~= seq![("path"@, VModel::Str(p))]);
    assert(entries_d(seq![inner], 1, d, t1) == Ok::<TModel, Seq<char>>(t1));
    assert(entries_d(seq![inner], 0, d, seq![]) == Ok::<TModel, Seq<char>>(seq![("path"@, VModel::Str(p))]));
    assert(inline_table_d(text, d) == Ok::<VModel, Seq<char>>(VModel::Tab(seq![("path"@, VModel::Str(p))])));
}

/// `key = { path = "p" }` reads as the pair `(key, { path = "p" })`.
proof fn lemma_path_pair(key: Seq<char>, p: Seq<char>, d: nat)
    requires
        bare_key(key),
        plain(p),
        d >= 1,
    ensures
        pair_d(path_line(key, p), d) == Ok::<(Seq<char>, VModel), Seq<char>>(
            (key, VModel::Tab(seq![("path"@, VModel::Str(p))])),
        ),
{
    reveal_strlit(" = { path = \"");
    reveal_strlit("{ path = \"");
    reveal_strlit("\" }");
    lemma_bare_key(key);
    let e = escape(p);
    let line = path_line(key, p);
    let kl = key.len() as int;
    let tail = " = { path = \""@ + e + "\" }"@;
    assert(line =~= key + tail);
    lemma_find_char_concat(key, tail, '=');
    assert(tail[0] == ' ' && tail[1] == '=');
    lemma_find_char(tail, '=', 1);
    assert(line.take(kl + 1) =~= key + seq![' ']);
    lemma_trim_pad(seq![], key, seq![' ']);
    assert(Seq::<char>::empty() + key + seq![' '] =~= key + seq![' ']);
    let text = "{ path = \""@ + e + "\" }"@;
    assert(line.skip(kl + 2) =~= seq![' '] + text + Seq::<char>::empty());
    assert(text[0] == '{' && text.last() == '}');
    lemma_trim_pad(seq![' '], text, seq![]);
    lemma_path_value(p, d);
}

/// A `key = { path = "p" }` line for a new key lands in the cursor's table
/// as an inline table holding the path.
pub proof fn lemma_step_path(doc: DocModel, c: CursorModel, key: Seq<char>, p: Seq<char>, n: nat)
    requires
        bare_key(key),
        plain(p),
        !keys(cursor_table(doc, c)).contains(key),
    ensures
        clean_line(path_line(key, p)),
        step(doc, c, path_line(key, p), n) == Ok::<(DocModel, CursorModel), (nat, Seq<char>)>(
            (
                set_cursor_table(
                    doc,
                    c,
                    insert_sorted(cursor_table(doc, c), key, VModel::Tab(seq![("path"@, VModel::Str(p))])),
                ),
                c,
            ),
        ),
{
    lemma_path_line_shape(key, p);
    let line = path_line(key, p);
    assert(line.len() >= 1) by {
        assert(line[0] == key[0]);
    }
    lemma_path_pair(key, p, line.len());
}
// ---------------------------------------------------------------------------
// Ordered tables with known contents.
// ---------------------------------------------------------------------------

/// A key stored at position `p` of a sorted table is found there.
pub proof fn lemma_value_at<V>(t: Seq<(Seq<char>, V)>, p: int)
    requires
        sorted(keys(t)),
        0 <= p < t.len(),
    ensures
        keys(t).contains(t[p].0),
        keys(t).index_of(t[p].0) == p,
        value_of(t, t[p].0) == t[p].1,
{
    assert(keys(t)[p] == t[p].0);
    lemma_index_of_sorted(keys(t), t[p].0, p);
}

/// Inserting a key that sorts after every key appends it.
pub proof fn lemma_insert_last<V>(t: Seq<(Seq<char>, V)>, k: Seq<char>, v: V)
    requires
        sorted(keys(t)),
        forall|i: int| 0 <= i < t.len() ==> seq_lt(#[trigger] t[i].0, k),
    ensures
        !keys(t).contains(k),
        insert_sorted(t, k, v) == t.push((k, v)),
{
    assert forall|j: int| 0 <= j < t.len() implies seq_lt(#[trigger] keys(t)[j], k) by {
        assert(keys(t)[j] == t[j].0);
    }
    lemma_lower_bound(keys(t), k, t.len() as int);
    if keys(t).contains(k) {
        let j = keys(t).index_of(k);
        assert(seq_lt(t[j].0, k));
        lemma_seq_lt_asym(k, k);
    }
    assert(t.take(t.len() as int) =~= t);
    assert(insert_sorted(t, k, v) =~= t.push((k, v)));
}

/// Inserting a key that sorts before every key prepends it.
pub proof fn lemma_insert_first<V>(t: Seq<(Seq<char>, V)>, k: Seq<char>, v: V)
    requires
        sorted(keys(t)),
        forall|i: int| 0 <= i < t.len() ==> seq_lt(k, #[trigger] t[i].0),
    ensures
        !keys(t).contains(k),
        insert_sorted(t, k, v) == seq![(k, v)] + t,
{
    if t.len() > 0 {
        lemma_seq_lt_asym(k, t[0].0);
        assert(keys(t)[0] == t[0].0);
    }
    lemma_lower_bound(keys(t), k, 0);
    if keys(t).contains(k) {
        let j = keys(t).index_of(k);
        assert(seq_lt(k, t[j].0));
        lemma_seq_lt_asym(k, k);
    }
    assert(t.skip(0) =~= t);
    assert(insert_sorted(t, k, v) =~= seq![(k, v)] + t);
}

// ---------------------------------------------------------------------------
// Manifests.
// ---------------------------------------------------------------------------

/// The `[dependencies]` lines of a dependency set, in key order.
pub open spec fn dep_lines(ds: DepsModel) -> Seq<Seq<char>> {
    Seq::new(ds.len(), |i: int| path_line(ds[i].1.0, ds[i].1.1))
}

/// The lines of a manifest's canonical text.
pub open spec fn manifest_lines(m: ManifestModel) -> Seq<Seq<char>> {
    seq![
        "[package]"@,
        str_line("name"@, m.name),
        str_line("version"@, m.version),
        str_line("edition"@, edition_str(m.edition)),
        seq![],
        "[modules]"@,
        str_line("root"@, m.module_root),
        seq![],
        "[dependencies]"@,
    ] + dep_lines(m.deps)
}

/// A manifest whose canonical text reads back as itself: valid names,
/// dependencies in key order each named by its key, and plain strings.
pub open spec fn readable_manifest(m: ManifestModel) -> bool {
    &&& valid_name(m.name)
    &&& plain(m.version)
    &&& plain(m.module_root)
    &&& sorted(keys(m.deps))
    &&& forall|i: int|
        0 <= i < m.deps.len() ==> valid_name(#[trigger] m.deps[i].0) && m.deps[i].1.0 == m.deps[i].0
            && plain(m.deps[i].1.1)
}

/// A valid package name is a bare key and a plain string.
pub proof fn lemma_valid_name(n: Seq<char>)
    requires
        valid_name(n),
    ensures
        bare_key(n),
        verbatim(n),
        plain(n),
        escape(n) == n,
{
    assert forall|i: int| 0 <= i < n.len() implies is_key_char(#[trigger] n[i]) by {
        if i > 0 {
            assert(name_char(n[i]));
        }
    }
    assert forall|i: int| 0 <= i < n.len() implies #[trigger] n[i] != '"' && n[i] != '\\' && n[i] != '\n' by {
        if i > 0 {
            assert(name_char(n[i]));
        }
    }
    lemma_escape_verbatim(n);
}

/// The dependency text is the dependency lines, joined.
proof fn lemma_deps_text(ds: DepsModel)
    requires
        forall|i: int| 0 <= i < ds.len() ==> plain(#[trigger] ds[i].1.1),
    ensures
        deps_text(ds) == unlines(dep_lines(ds)),
    decreases ds.len(),
{
    reveal_strlit(" = { path = \"");
    reveal_strlit("\" }\n");
    reveal_strlit("\" }");
    if ds.len() > 0 {
        let init = ds.drop_last();
        assert forall|i: int| 0 <= i < init.len() implies plain(#[trigger] init[i].1.1) by {
            assert(init[i] == ds[i]);
        }
        lemma_deps_text(init);
        assert(dep_lines(ds) =~= dep_lines(init) + seq![path_line(ds.last().1.0, ds.last().1.1)]);
        lemma_unlines_concat(dep_lines(init), seq![path_line(ds.last().1.0, ds.last().1.1)]);
        let l = path_line(ds.last().1.0, ds.last().1.1);
        lemma_unlines_one(l);
        assert(dep_line(ds.last()) =~= l + seq!['\n']);
    } else {
        assert(dep_lines(ds) =~= Seq::<Seq<char>>::empty());
    }
}

/// One line, joined.
pub proof fn lemma_unlines_one(l: Seq<char>)
    ensures
        unlines(seq![l]) == l + seq!['\n'],
{
    let one = seq![l];
    assert(one[0] == l);
    assert(one.drop_first() =~= Seq::<Seq<char>>::empty());
    assert(unlines(one.drop_first()) =~= Seq::<char>::empty());
    assert(unlines(one) =~= l + seq!['\n']);
}

/// Joining one more line appends it.
pub proof fn lemma_unlines_push(xs: Seq<Seq<char>>, l: Seq<char>)
    ensures
        unlines(xs.push(l)) == unlines(xs) + (l + seq!['\n']),
{
    assert(xs.push(l) =~= xs + seq![l]);
    lemma_unlines_concat(xs, seq![l]);
    lemma_unlines_one(l);
}

/// `key = "s"` followed by a line break, as the writers spell it.
pub proof fn lemma_str_line_text(kq: Seq<char>, key: Seq<char>, s: Seq<char>, pre: Seq<char>)
    requires
        kq == key + " = \""@,
    ensures
        pre + kq + escape(s) + "\"\n"@ == pre + (str_line(key, s) + seq!['\n']),
{
    reveal_strlit("\"\n");
    reveal_strlit("\"");
    assert(pre + kq + escape(s) + "\"\n"@ =~= pre + (str_line(key, s) + seq!['\n']));
}

/// A manifest's canonical text is its lines, joined.
proof fn lemma_manifest_text_lines(m: ManifestModel)
    requires
        readable_manifest(m),
    ensures
        manifest_text(m) == unlines(manifest_lines(m)),
{
    reveal_strlit("[package]\n");
    reveal_strlit("[package]");
    reveal_strlit("name = \"");
    reveal_strlit("name");
    reveal_strlit(" = \"");
    reveal_strlit("version = \"");
    reveal_strlit("version");
    reveal_strlit("edition = \"");
    reveal_strlit("edition");
    reveal_strlit("\n");
    reveal_strlit("[modules]\n");
    reveal_strlit("[modules]");
    reveal_strlit("root = \"");
    reveal_strlit("root");
    reveal_strlit("[dependencies]\n");
    reveal_strlit("[dependencies]");
    reveal_strlit("2024");
    assert(verbatim(edition_str(m.edition)));
    lemma_escape_verbatim(edition_str(m.edition));
    assert forall|i: int| 0 <= i < m.deps.len() implies plain(#[trigger] m.deps[i].1.1) by {
        assert(valid_name(m.deps[i].0));
    }
    lemma_deps_text(m.deps);
    let e = edition_str(m.edition);
    let l0 = "[package]"@;
    let l1 = str_line("name"@, m.name);
    let l2 = str_line("version"@, m.version);
    let l3 = str_line("edition"@, e);
    let l4 = Seq::<char>::empty();
    let l5 = "[modules]"@;
    let l6 = str_line("root"@, m.module_root);
    let l7 = Seq::<char>::empty();
    let l8 = "[dependencies]"@;
    // The writer's text, line by line.
    let x0 = "[package]\n"@;
    assert(x0 =~= l0 + seq!['\n']);
    lemma_unlines_one(l0);
    lemma_valid_name(m.name);
    let x1 = x0 + "name = \""@ + escape(m.name) + "\"\n"@;
    assert("name = \""@ =~= "name"@ + " = \""@);
    lemma_str_line_text("name = \""@, "name"@, m.name, x0);
    let x2 = x1 + "version = \""@ + escape(m.version) + "\"\n"@;
    assert("version = \""@ =~= "version"@ + " = \""@);
    lemma_str_line_text("version = \""@, "version"@, m.version, x1);
    let x3 = x2 + "edition = \""@ + escape(e) + "\"\n"@;
    assert("edition = \""@ =~= "edition"@ + " = \""@);
    lemma_str_line_text("edition = \""@, "edition"@, e, x2);
    let x4 = x3 + "\n"@;
    assert(x4 =~= x3 + (l4 + seq!['\n']));
    let x5 = x4 + "[modules]\n"@;
    assert(x5 =~= x4 + (l5 + seq!['\n']));
    let x6 = x5 + "root = \""@ + escape(m.module_root) + "\"\n"@;
    assert("root = \""@ =~= "root"@ + " = \""@);
    lemma_str_line_text("root = \""@, "root"@, m.module_root, x5);
    let x7 = x6 + "\n"@;
    assert(x7 =~= x6 + (l7 + seq!['\n']));
    let x8 = x7 + "[dependencies]\n"@;
    assert(x8 =~= x7 + (l8 + seq!['\n']));
    assert(manifest_text(m) == x8 + deps_text(m.deps));
    // The joined lines, line by line.
    let h0 = seq![l0];
    lemma_unlines_push(h0, l1);
    lemma_unlines_push(h0.push(l1), l2);
    lemma_unlines_push(h0.push(l1).push(l2), l3);
    lemma_unlines_push(h0.push(l1).push(l2).push(l3), l4);
    lemma_unlines_push(h0.push(l1).push(l2).push(l3).push(l4), l5);
    lemma_unlines_push(h0.push(l1).push(l2).push(l3).push(l4).push(l5), l6);
    lemma_unlines_push(h0.push(l1).push(l2).push(l3).push(l4).push(l5).push(l6), l7);
    lemma_unlines_push(h0.push(l1).push(l2).push(l3).push(l4).push(l5).push(l6).push(l7), l8);
    let head = h0.push(l1).push(l2).push(l3).push(l4).push(l5).push(l6).push(l7).push(l8);
    assert(unlines(head) == x8);
    assert(manifest_lines(m) =~= head + dep_lines(m.deps));
    lemma_unlines_concat(head, dep_lines(m.deps));
}
/// The order of the key names the manifest and lockfile use.
pub proof fn lemma_key_order()
    ensures
        seq_lt("edition"@, "name"@),
        seq_lt("name"@, "version"@),
        seq_lt("edition"@, "version"@),
        seq_lt("dependencies"@, "modules"@),
        seq_lt("modules"@, "package"@),
        seq_lt("dependencies"@, "package"@),
{
    reveal_strlit("edition");
    reveal_strlit("name");
    reveal_strlit("version");
    reveal_strlit("dependencies");
    reveal_strlit("modules");
    reveal_strlit("package");
}

/// The lines of a manifest's text are read back as written.
proof fn lemma_manifest_lines_clean(m: ManifestModel)
    requires
        readable_manifest(m),
    ensures
        forall|i: int| 0 <= i < manifest_lines(m).len() ==> clean_line(#[trigger] manifest_lines(m)[i]),
        lines_of(manifest_text(m)) == manifest_lines(m),
{
    reveal_strlit("[package]");
    reveal_strlit("[modules]");
    reveal_strlit("[dependencies]");
    reveal_strlit("name");
    reveal_strlit("version");
    reveal_strlit("edition");
    reveal_strlit("root");
    reveal_strlit("2024");
    lemma_valid_name(m.name);
    let ls = manifest_lines(m);
    lemma_str_line("name"@, m.name, 0);
    lemma_str_line("version"@, m.version, 0);
    assert(plain("2024"@));
    lemma_str_line("edition"@, edition_str(m.edition), 0);
    lemma_str_line("root"@, m.module_root, 0);
    assert forall|i: int| 0 <= i < ls.len() implies clean_line(#[trigger] ls[i]) by {
        if i >= 9 {
            let d = m.deps[i - 9];
            assert(valid_name(m.deps[i - 9].0));
            lemma_valid_name(d.0);
            assert(d.1.0 == d.0);
            lemma_path_line_shape(d.1.0, d.1.1);
            assert(ls[i] == path_line(d.1.0, d.1.1));
        }
    }
    lemma_manifest_text_lines(m);
    lemma_lines_of_unlines(ls);
}

/// The `[dependencies]` table a dependency set reads back as.
pub open spec fn dep_table(ds: DepsModel) -> TModel {
    Seq::new(ds.len(), |i: int| (ds[i].0, VModel::Tab(seq![("path"@, VModel::Str(ds[i].1.1))])))
}

/// The `[package]` table of a manifest.
pub open spec fn package_table(m: ManifestModel) -> TModel {
    seq![
        ("edition"@, VModel::Str(edition_str(m.edition))),
        ("name"@, VModel::Str(m.name)),
        ("version"@, VModel::Str(m.version)),
    ]
}

/// The document a manifest's text reads as, after its first `j`
/// dependencies.
pub open spec fn manifest_doc(m: ManifestModel, j: int) -> DocModel {
    DocModel {
        root: seq![],
        tables: seq![
            ("dependencies"@, dep_table(m.deps.take(j))),
            ("modules"@, seq![("root"@, VModel::Str(m.module_root))]),
            ("package"@, package_table(m)),
        ],
        array_tables: seq![],
    }
}

/// The table keys of a manifest document are in order.
proof fn lemma_manifest_doc_sorted(m: ManifestModel, j: int)
    ensures
        sorted(keys(manifest_doc(m, j).tables)),
{
    lemma_key_order();
    let ks = keys(manifest_doc(m, j).tables);
    assert(ks[0] == "dependencies"@ && ks[1] == "modules"@ && ks[2] == "package"@);
}

/// One line read: the fold moves to the next line with the line's effect.
pub proof fn lemma_parse_step(
    ls: Seq<Seq<char>>,
    k: nat,
    d: DocModel,
    c: CursorModel,
    d2: DocModel,
    c2: CursorModel,
)
    requires
        k < ls.len(),
        step(d, c, ls[k as int], k + 1) == Ok::<(DocModel, CursorModel), (nat, Seq<char>)>((d2, c2)),
    ensures
        parse_from(ls, k, d, c) == parse_from(ls, k + 1, d2, c2),
{
}

/// A document holding only `tables`.
pub open spec fn tables_doc(tables: Seq<(Seq<char>, TModel)>) -> DocModel {
    DocModel { root: seq![], tables, array_tables: seq![] }
}

/// The bare keys the manifest uses.
proof fn lemma_manifest_keys()
    ensures
        bare_key("package"@),
        bare_key("modules"@),
        bare_key("dependencies"@),
        bare_key("name"@),
        bare_key("version"@),
        bare_key("edition"@),
        bare_key("root"@),
        "[package]"@ == "["@ + "package"@ + "]"@,
        "[modules]"@ == "["@ + "modules"@ + "]"@,
        "[dependencies]"@ == "["@ + "dependencies"@ + "]"@,
{
    reveal_strlit("package");
    reveal_strlit("modules");
    reveal_strlit("dependencies");
    reveal_strlit("name");
    reveal_strlit("version");
    reveal_strlit("edition");
    reveal_strlit("root");
    reveal_strlit("[package]");
    reveal_strlit("[modules]");
    reveal_strlit("[dependencies]");
    reveal_strlit("[");
    reveal_strlit("]");
    assert("[package]"@ =~= "["@ + "package"@ + "]"@);
    assert("[modules]"@ =~= "["@ + "modules"@ + "]"@);
    assert("[dependencies]"@ =~= "["@ + "dependencies"@ + "]"@);
}

/// The cursor on a table at a known position reads and writes that table.
proof fn lemma_cursor_at(tables: Seq<(Seq<char>, TModel)>, idx: int, t: TModel)
    requires
        sorted(keys(tables)),
        0 <= idx < tables.len(),
    ensures
        cursor_table(tables_doc(tables), CursorModel::Table(tables[idx].0)) == tables[idx].1,
        set_cursor_table(tables_doc(tables), CursorModel::Table(tables[idx].0), t) == tables_doc(
            tables.update(idx, (tables[idx].0, t)),
        ),
{
    lemma_value_at(tables, idx);
}

/// The `[package]` block reads into the package table.
proof fn lemma_manifest_package_block(m: ManifestModel)
    requires
        readable_manifest(m),
    ensures
        parse_from(manifest_lines(m), 0, empty_doc(), CursorModel::Root) == parse_from(
            manifest_lines(m),
            4,
            tables_doc(seq![("package"@, package_table(m))]),
            CursorModel::Table("package"@),
        ),
{
    lemma_manifest_keys();
    lemma_key_order();
    lemma_valid_name(m.name);
    reveal_strlit("2024");
    assert(plain(edition_str(m.edition)));
    let ls = manifest_lines(m);
    let p = "package"@;
    let cp = CursorModel::Table(p);
    let empty_t = Seq::<(Seq<char>, VModel)>::empty();
    let empty_ts = Seq::<(Seq<char>, TModel)>::empty();
    // [package]
    let d0 = empty_doc();
    assert(keys(empty_ts) =~= Seq::<Seq<char>>::empty());
    lemma_step_table_header(d0, CursorModel::Root, p, 1);
    lemma_insert_last(empty_ts, p, empty_t);
    let d1 = tables_doc(seq![(p, empty_t)]);
    assert(DocModel { tables: insert_sorted(d0.tables, p, empty_t), ..d0 } == d1);
    assert(ls[0] == "["@ + p + "]"@);
    lemma_parse_step(ls, 0, d0, CursorModel::Root, d1, cp);
    // name = "..."
    lemma_cursor_at(d1.tables, 0, seq![("name"@, VModel::Str(m.name))]);
    assert(keys(empty_t) =~= Seq::<Seq<char>>::empty());
    lemma_step_str(d1, cp, "name"@, m.name, 2);
    lemma_insert_last(empty_t, "name"@, VModel::Str(m.name));
    let t2 = seq![("name"@, VModel::Str(m.name))];
    assert(empty_t.push(("name"@, VModel::Str(m.name))) =~= t2);
    let d2 = tables_doc(seq![(p, t2)]);
    assert(d1.tables.update(0, (p, t2)) =~= seq![(p, t2)]);
    lemma_parse_step(ls, 1, d1, cp, d2, cp);
    // version = "..."
    let t3 = seq![("name"@, VModel::Str(m.name)), ("version"@, VModel::Str(m.version))];
    lemma_cursor_at(d2.tables, 0, t3);
    assert(keys(t2)[0] == "name"@);
    lemma_insert_last(t2, "version"@, VModel::Str(m.version));
    lemma_step_str(d2, cp, "version"@, m.version, 3);
    assert(t2.push(("version"@, VModel::Str(m.version))) =~= t3);
    let d3 = tables_doc(seq![(p, t3)]);
    assert(d2.tables.update(0, (p, t3)) =~= seq![(p, t3)]);
    lemma_parse_step(ls, 2, d2, cp, d3, cp);
    // edition = "..."
    lemma_cursor_at(d3.tables, 0, package_table(m));
    assert(keys(t3)[0] == "name"@ && keys(t3)[1] == "version"@);
    lemma_insert_first(t3, "edition"@, VModel::Str(edition_str(m.edition)));
    lemma_step_str(d3, cp, "edition"@, edition_str(m.edition), 4);
    assert(seq![("edition"@, VModel::Str(edition_str(m.edition)))] + t3 =~= package_table(m));
    let d4 = tables_doc(seq![(p, package_table(m))]);
    assert(d3.tables.update(0, (p, package_table(m))) =~= seq![(p, package_table(m))]);
    lemma_parse_step(ls, 3, d3, cp, d4, cp);
}

/// The `[modules]` block and the `[dependencies]` header read into their
/// tables.
proof fn lemma_manifest_modules_block(m: ManifestModel)
    requires
        readable_manifest(m),
    ensures
        parse_from(
            manifest_lines(m),
            4,
            tables_doc(seq![("package"@, package_table(m))]),
            CursorModel::Table("package"@),
        ) == parse_from(manifest_lines(m), 9, manifest_doc(m, 0), CursorModel::Table("dependencies"@)),
{
    lemma_manifest_keys();
    lemma_key_order();
    let ls = manifest_lines(m);
    let p = "package"@;
    let mo = "modules"@;
    let de = "dependencies"@;
    let pkg = package_table(m);
    let empty_t = Seq::<(Seq<char>, VModel)>::empty();
    let d4 = tables_doc(seq![(p, pkg)]);
    // A blank line.
    lemma_step_blank(d4, CursorModel::Table(p), 5);
    assert(ls[4] == Seq::<char>::empty());
    lemma_parse_step(ls, 4, d4, CursorModel::Table(p), d4, CursorModel::Table(p));
    // [modules]
    assert(keys(d4.tables)[0] == p);
    lemma_insert_first(d4.tables, mo, empty_t);
    lemma_step_table_header(d4, CursorModel::Table(p), mo, 6);
    let ts5 = seq![(mo, empty_t), (p, pkg)];
    assert(seq![(mo, empty_t)] + d4.tables =~= ts5);
    let d5 = tables_doc(ts5);
    assert(ls[5] == "["@ + mo + "]"@);
    lemma_parse_step(ls, 5, d4, CursorModel::Table(p), d5, CursorModel::Table(mo));
    // root = "..."
    let modt = seq![("root"@, VModel::Str(m.module_root))];
    assert(keys(ts5)[0] == mo && keys(ts5)[1] == p);
    lemma_cursor_at(ts5, 0, modt);
    assert(keys(empty_t) =~= Seq::<Seq<char>>::empty());
    lemma_insert_last(empty_t, "root"@, VModel::Str(m.module_root));
    assert(empty_t.push(("root"@, VModel::Str(m.module_root))) =~= modt);
    lemma_step_str(d5, CursorModel::Table(mo), "root"@, m.module_root, 7);
    let ts6 = seq![(mo, modt), (p, pkg)];
    assert(ts5.update(0, (mo, modt)) =~= ts6);
    let d6 = tables_doc(ts6);
    lemma_parse_step(ls, 6, d5, CursorModel::Table(mo), d6, CursorModel::Table(mo));
    // A blank line.
    lemma_step_blank(d6, CursorModel::Table(mo), 8);
    assert(ls[7] == Seq::<char>::empty());
    lemma_parse_step(ls, 7, d6, CursorModel::Table(mo), d6, CursorModel::Table(mo));
    // [dependencies]
    assert(keys(ts6)[0] == mo && keys(ts6)[1] == p);
    lemma_insert_first(ts6, de, empty_t);
    lemma_step_table_header(d6, CursorModel::Table(mo), de, 9);
    assert(dep_table(m.deps.take(0)) =~= empty_t);
    assert(seq![(de, empty_t)] + ts6 =~= manifest_doc(m, 0).tables);
    assert(ls[8] == "["@ + de + "]"@);
    lemma_parse_step(ls, 8, d6, CursorModel::Table(mo), manifest_doc(m, 0), CursorModel::Table(de));
}

/// The dependency lines read into the `[dependencies]` table, one entry
/// each, in order.
proof fn lemma_manifest_deps(m: ManifestModel, j: int)
    requires
        readable_manifest(m),
        0 <= j <= m.deps.len(),
    ensures
        parse_from(manifest_lines(m), (9 + j) as nat, manifest_doc(m, j), CursorModel::Table("dependencies"@))
            == Ok::<DocModel, (nat, Seq<char>)>(manifest_doc(m, m.deps.len() as int)),
    decreases m.deps.len() - j,
{
    let ls = manifest_lines(m);
    let de = "dependencies"@;
    assert(ls.len() == 9 + m.deps.len());
    if j < m.deps.len() {
        let k = m.deps[j].0;
        let pth = m.deps[j].1.1;
        assert(valid_name(m.deps[j].0));
        lemma_valid_name(k);
        let tab = VModel::Tab(seq![("path"@, VModel::Str(pth))]);
        let t = dep_table(m.deps.take(j));
        let t2 = dep_table(m.deps.take(j + 1));
        assert(sorted(keys(t))) by {
            assert forall|a: int, b: int| 0 <= a < b < keys(t).len() implies seq_lt(
                #[trigger] keys(t)[a],
                #[trigger] keys(t)[b],
            ) by {
                assert(keys(t)[a] == keys(m.deps)[a] && keys(t)[b] == keys(m.deps)[b]);
            }
        }
        assert forall|i: int| 0 <= i < t.len() implies seq_lt(#[trigger] t[i].0, k) by {
            assert(t[i].0 == keys(m.deps)[i] && k == keys(m.deps)[j]);
        }
        lemma_insert_last(t, k, tab);
        assert(t.push((k, tab)) =~= t2);
        lemma_manifest_doc_sorted(m, j);
        let tables = manifest_doc(m, j).tables;
        assert(manifest_doc(m, j) == tables_doc(tables));
        lemma_cursor_at(tables, 0, t2);
        lemma_step_path(manifest_doc(m, j), CursorModel::Table(de), k, pth, (10 + j) as nat);
        assert(m.deps[j].1.0 == k);
        assert(ls[9 + j] == path_line(k, pth));
        assert(tables.update(0, (de, t2)) =~= manifest_doc(m, j + 1).tables);
        assert(tables_doc(tables.update(0, (de, t2))) == manifest_doc(m, j + 1));
        lemma_parse_step(
            ls,
            (9 + j) as nat,
            manifest_doc(m, j),
            CursorModel::Table(de),
            manifest_doc(m, j + 1),
            CursorModel::Table(de),
        );
        lemma_manifest_deps(m, j + 1);
    }
}

/// Reading the dependency table gives back the dependency set.
proof fn lemma_manifest_deps_spec(ds: DepsModel, j: int)
    requires
        0 <= j <= ds.len(),
        forall|i: int| 0 <= i < ds.len() ==> valid_name(#[trigger] ds[i].0) && ds[i].1.0 == ds[i].0,
    ensures
        deps_spec(dep_table(ds), j as nat, ds.take(j)) == Ok::<DepsModel, MErr>(ds),
    decreases ds.len() - j,
{
    reveal_strlit("path");
    if j < ds.len() {
        let k = ds[j].0;
        assert(valid_name(ds[j].0));
        let t = seq![("path"@, VModel::Str(ds[j].1.1))];
        assert(keys(t).len() == 1);
        lemma_value_at(t, 0);
        assert(dep_table(ds)[j] == (k, VModel::Tab(t)));
        assert(dep_source_spec(k, VModel::Tab(t)) == Ok::<Seq<char>, MErr>(ds[j].1.1));
        assert(ds.take(j).push((k, (k, ds[j].1.1))) =~= ds.take(j + 1));
        lemma_manifest_deps_spec(ds, j + 1);
    } else {
        assert(ds.take(j) =~= ds);
    }
}

/// The document a manifest's text reads as describes the manifest.
proof fn lemma_manifest_from_doc(m: ManifestModel)
    requires
        readable_manifest(m),
    ensures
        manifest_from_doc(manifest_doc(m, m.deps.len() as int)) == Ok::<ManifestModel, MErr>(m),
{
    lemma_key_order();
    reveal_strlit("2024");
    reveal_strlit("root");
    let doc = manifest_doc(m, m.deps.len() as int);
    lemma_manifest_doc_sorted(m, m.deps.len() as int);
    lemma_value_at(doc.tables, 0);
    lemma_value_at(doc.tables, 1);
    lemma_value_at(doc.tables, 2);
    let pkg = package_table(m);
    assert(sorted(keys(pkg))) by {
        assert(keys(pkg)[0] == "edition"@ && keys(pkg)[1] == "name"@ && keys(pkg)[2] == "version"@);
    }
    lemma_value_at(pkg, 0);
    lemma_value_at(pkg, 1);
    lemma_value_at(pkg, 2);
    let modt = seq![("root"@, VModel::Str(m.module_root))];
    assert(keys(modt).len() == 1);
    lemma_value_at(modt, 0);
    assert(m.edition == Edition::E2024);
    assert(edition_spec(edition_str(m.edition)) == Ok::<Edition, MErr>(m.edition));
    assert(m.deps.take(m.deps.len() as int) =~= m.deps);
    assert(forall|i: int| 0 <= i < m.deps.len() ==> valid_name(#[trigger] m.deps[i].0) && m.deps[i].1.0 == m.deps[i].0);
    lemma_manifest_deps_spec(m.deps, 0);
    assert(m.deps.take(0) =~= Seq::<(Seq<char>, (Seq<char>, Seq<char>))>::empty());
}

/// Round trip: reading a manifest's canonical text gives back the manifest,
/// for every manifest whose names are valid, whose dependencies are keyed
/// by their own names in name order, and whose version, module root, and
/// paths each fit on one line.
pub proof fn law_manifest_round_trip(m: ManifestModel)
    requires
        readable_manifest(m),
    ensures
        manifest_spec(manifest_text(m)) == Ok::<ManifestModel, MErr>(m),
{
    lemma_manifest_lines_clean(m);
    lemma_manifest_package_block(m);
    lemma_manifest_modules_block(m);
    lemma_manifest_deps(m, 0);
    lemma_manifest_from_doc(m);
}

} // verus!
