//! A deliberately small TOML reader for the package manifest and lockfile.
//!
//! `tdg.toml` and `tdg.lock` are TOML, but the package format uses only a
//! narrow, fixed subset of the language: top-level key/values, `[table]`
//! headers, `[[array-of-tables]]` headers, double-quoted strings, non-negative
//! integers, arrays, and inline tables (`{ path = "..." }`) as dependency
//! values. This module reads exactly that subset into a simple tree and
//! reports a precise [`TomlError`] on anything outside it.
//!
//! Tables are kept as association lists sorted by key, so iteration is in key
//! order and each key occurs once.

use vstd::prelude::*;
use crate::assoc::{
    find_key, insert_sorted, keys, lemma_contains_at_lower_bound, lemma_insert_sorted,
    lemma_replace_value_keys, lower_bound, replace_value, skeys, sorted, value_of,
};
use crate::text::{
    chars_of, ends_with, find_char, is_ws, lemma_trim_len, position_of, push_chars, push_vec,
    seq_lt, slice, starts_with, string_of, trim, trim_bounds, trimmed,
};

verus! {

/// A parsed TOML value, restricted to the subset the package format uses.
#[derive(Debug)]
pub enum Value {
    /// A double-quoted string.
    String(String),
    /// A non-negative integer.
    Integer(u64),
    /// An array.
    Array(Vec<Value>),
    /// An inline table, e.g. `{ path = "../util" }`, sorted by key.
    Table(Vec<(String, Value)>),
}

/// A table: key/value entries sorted by key.
pub type Table = Vec<(String, Value)>;

/// The mathematical content of a [`Value`].
pub enum VModel {
    Str(Seq<char>),
    Int(u64),
    Arr(Seq<VModel>),
    Tab(Seq<(Seq<char>, VModel)>),
}

/// The mathematical content of a table.
pub type TModel = Seq<(Seq<char>, VModel)>;

impl Value {
    /// The mathematical content of this value.
    pub open spec fn model(self) -> VModel
        decreases self,
    {
        match self {
            Value::String(s) => VModel::Str(s@),
            Value::Integer(n) => VModel::Int(n),
            Value::Array(items) => VModel::Arr(
                Seq::new(
                    items.len() as nat,
                    |i: int|
                        if 0 <= i < items.len() {
                            items@[i].model()
                        } else {
                            VModel::Int(0)
                        },
                ),
            ),
            Value::Table(entries) => VModel::Tab(
                Seq::new(
                    entries.len() as nat,
                    |i: int|
                        if 0 <= i < entries.len() {
                            (entries@[i].0@, entries@[i].1.model())
                        } else {
                            (Seq::empty(), VModel::Int(0))
                        },
                ),
            ),
        }
    }

    /// Borrow this value as a string, or `None` if it is another kind.
    pub fn as_str(&self) -> (r: Option<&str>)
        ensures
            match self {
                Value::String(s) => r matches Some(t) && t@ == s@,
                _ => r is None,
            },
    {
        match self {
            Value::String(s) => Some(s.as_str()),
            _ => None,
        }
    }

    /// Borrow this value as an integer, or `None` if it is another kind.
    pub fn as_integer(&self) -> (r: Option<u64>)
        ensures
            match self {
                Value::Integer(n) => r == Some(*n),
                _ => r is None,
            },
    {
        match self {
            Value::Integer(n) => Some(*n),
            _ => None,
        }
    }

    /// Borrow this value as an array, or `None` if it is another kind.
    pub fn as_array(&self) -> (r: Option<&Vec<Value>>)
        ensures
            match self {
                Value::Array(items) => r == Some(items),
                _ => r is None,
            },
    {
        match self {
            Value::Array(items) => Some(items),
            _ => None,
        }
    }

    /// Borrow this value as an inline table, or `None` if it is another kind.
    pub fn as_table(&self) -> (r: Option<&Table>)
        ensures
            match self {
                Value::Table(t) => r == Some(t),
                _ => r is None,
            },
    {
        match self {
            Value::Table(t) => Some(t),
            _ => None,
        }
    }
}

/// The content of a table of values.
pub open spec fn table_model(t: Seq<(String, Value)>) -> TModel {
    Seq::new(t.len(), |i: int| (t[i].0@, t[i].1.model()))
}

/// The content of a sequence of tables.
pub open spec fn tables_model(ts: Seq<Table>) -> Seq<TModel> {
    Seq::new(ts.len(), |j: int| table_model(ts[j]@))
}

/// Every table nested in the value is sorted by key.
pub open spec fn vwf(v: VModel) -> bool
    decreases v,
{
    match v {
        VModel::Arr(items) => forall|i: int| 0 <= i < items.len() ==> vwf(#[trigger] items[i]),
        VModel::Tab(t) => sorted(keys(t)) && forall|i: int| 0 <= i < t.len() ==> vwf(#[trigger] t[i].1),
        _ => true,
    }
}

/// A table is sorted and every value in it is well formed.
pub open spec fn twf(t: TModel) -> bool {
    sorted(keys(t)) && forall|i: int| 0 <= i < t.len() ==> vwf(#[trigger] t[i].1)
}

/// An inline table's value has the table's content.
pub proof fn lemma_table_value_model(t: Table)
    ensures
        Value::Table(t).model() == VModel::Tab(table_model(t@)),
{
    assert(Value::Table(t).model()->Tab_0 =~= table_model(t@));
}

/// An array's value has its items' content.
pub proof fn lemma_array_value_model(items: Vec<Value>)
    ensures
        Value::Array(items).model() == VModel::Arr(Seq::new(items@.len(), |i: int| items@[i].model())),
{
    assert(Value::Array(items).model()->Arr_0 =~= Seq::new(items@.len(), |i: int| items@[i].model()));
}

/// A table model has the key views of its entries.
pub proof fn lemma_table_model_keys(t: Seq<(String, Value)>)
    ensures
        keys(table_model(t)) == skeys(t),
{
    assert(keys(table_model(t)) =~= skeys(t));
}

/// Inserting an entry into a table inserts its content into the model.
pub proof fn lemma_table_model_insert(t: Seq<(String, Value)>, p: int, k: String, v: Value)
    requires
        0 <= p <= t.len(),
    ensures
        table_model(t.insert(p, (k, v))) == table_model(t).take(p) + seq![(k@, v.model())]
            + table_model(t).skip(p),
{
    assert(table_model(t.insert(p, (k, v))) =~= table_model(t).take(p) + seq![(k@, v.model())]
        + table_model(t).skip(p));
}

/// Every table of a document is sorted by key, nested ones too.
pub open spec fn doc_wf(d: DocModel) -> bool {
    &&& twf(d.root)
    &&& sorted(keys(d.tables))
    &&& forall|i: int| 0 <= i < d.tables.len() ==> twf(#[trigger] d.tables[i].1)
    &&& sorted(keys(d.array_tables))
    &&& forall|i: int, j: int|
        0 <= i < d.array_tables.len() && 0 <= j < d.array_tables[i].1.len() ==> twf(
            #[trigger] d.array_tables[i].1[j],
        )
}

/// A parsed document: top-level key/values, named tables, and arrays of
/// tables, each kept sorted by name.
#[derive(Debug)]
pub struct Document {
    /// Top-level key/values written before any table header.
    pub root: Table,
    /// Single tables (`[name]`).
    pub tables: Vec<(String, Table)>,
    /// Arrays of tables (`[[name]]`), preserving document order within each.
    pub array_tables: Vec<(String, Vec<Table>)>,
}

/// The mathematical content of a [`Document`].
pub struct DocModel {
    pub root: TModel,
    pub tables: Seq<(Seq<char>, TModel)>,
    pub array_tables: Seq<(Seq<char>, Seq<TModel>)>,
}

impl Document {
    /// The content of this document.
    pub open spec fn model(&self) -> DocModel {
        DocModel {
            root: table_model(self.root@),
            tables: Seq::new(
                self.tables@.len(),
                |i: int| (self.tables@[i].0@, table_model(self.tables@[i].1@)),
            ),
            array_tables: Seq::new(
                self.array_tables@.len(),
                |i: int| (self.array_tables@[i].0@, tables_model(self.array_tables@[i].1@)),
            ),
        }
    }

    /// Every table of the document is sorted by key, nested ones too.
    pub open spec fn wf(&self) -> bool {
        doc_wf(self.model())
    }

    /// The single table named `name`, if present.
    pub fn table(&self, name: &str) -> (r: Option<&Table>)
        requires
            self.wf(),
        ensures
            keys(self.model().tables).contains(name@) ==> (r matches Some(t) && table_model(t@)
                == value_of(self.model().tables, name@)),
            !keys(self.model().tables).contains(name@) ==> r is None,
    {
        let k = chars_of(name);
        proof {
            lemma_doc_model(self);
        }
        let (p, found) = find_key(&self.tables, &k);
        proof {
            assert(keys(self.model().tables) =~= skeys(self.tables@));
        }
        if found {
            Some(&self.tables[p].1)
        } else {
            None
        }
    }

    /// The array of tables named `name` (`[[name]]`), or an empty slice.
    pub fn array_table(&self, name: &str) -> (r: &[Table])
        requires
            self.wf(),
        ensures
            keys(self.model().array_tables).contains(name@) ==> tables_model(r@) == value_of(
                self.model().array_tables,
                name@,
            ),
            !keys(self.model().array_tables).contains(name@) ==> r@.len() == 0,
    {
        let k = chars_of(name);
        proof {
            lemma_doc_model(self);
        }
        let (p, found) = find_key(&self.array_tables, &k);
        proof {
            assert(keys(self.model().array_tables) =~= skeys(self.array_tables@));
        }
        if found {
            self.array_tables[p].1.as_slice()
        } else {
            &[]
        }
    }
}

/// Look up `key` in a sorted table.
pub fn table_get<'a>(t: &'a Table, key: &str) -> (r: Option<&'a Value>)
    requires
        twf(table_model(t@)),
    ensures
        keys(table_model(t@)).contains(key@) ==> (r matches Some(v) && v.model() == value_of(
            table_model(t@),
            key@,
        ) && vwf(v.model())),
        !keys(table_model(t@)).contains(key@) ==> r is None,
{
    let k = chars_of(key);
    proof {
        lemma_table_model_keys(t@);
    }
    let (p, found) = find_key(t, &k);
    if found {
        assert(table_model(t@)[p as int].1 == t@[p as int].1.model());
        Some(&t[p].1)
    } else {
        None
    }
}

/// A precise error from reading the manifest/lockfile TOML subset.
#[derive(Debug, PartialEq, Eq)]
pub struct TomlError {
    /// One-based line number where the error was detected.
    pub line: usize,
    /// A human-readable description of what went wrong.
    pub message: String,
}

impl TomlError {
    /// The error as `line N: message`.
    pub fn render(&self) -> (r: String)
        ensures
            r@ == "line "@ + crate::text::decimal(self.line as nat) + ": "@ + self.message@,
    {
        let mut out = "line ".to_owned();
        crate::text::push_decimal(&mut out, self.line as u64);
        crate::text::push_str(&mut out, ": ");
        crate::text::push_str(&mut out, self.message.as_str());
        out
    }
}

/// Build a [`TomlError`] at `line`.
pub fn err(line: usize, message: String) -> (r: TomlError)
    ensures
        r.line == line,
        r.message@ == message@,
{
    TomlError { line, message }
}

// ---------------------------------------------------------------------------
// The subset's grammar, stated over characters.
// ---------------------------------------------------------------------------

/// `str::lines`: split at `\n`, dropping a `\r` before it; a final line
/// ending is optional.
pub open spec fn lines_of(s: Seq<char>) -> Seq<Seq<char>>
    decreases s.len(),
{
    if s.len() == 0 {
        seq![]
    } else {
        let n = find_char(s, '\n');
        if n >= s.len() {
            seq![s]
        } else {
            seq![strip_cr(s.take(n as int))] + lines_of(s.skip(n + 1int))
        }
    }
}

/// A line without one trailing carriage return.
pub open spec fn strip_cr(l: Seq<char>) -> Seq<char> {
    if l.len() > 0 && l.last() == '\r' {
        l.drop_last()
    } else {
        l
    }
}

/// The position after an escape sequence starting at `i`: two characters
/// on, or the end of the text.
pub open spec fn past_escape(i: nat, len: nat) -> nat {
    if i + 2 <= len {
        i + 2
    } else {
        len
    }
}

/// Where a `#` comment starts in `s` (scanning from `i`, inside a string
/// when `in_string`), or `s.len()` when there is none. Inside a string a
/// backslash escapes the character after it.
pub open spec fn comment_cut(s: Seq<char>, i: nat, in_string: bool) -> nat
    decreases s.len() - i,
{
    if i >= s.len() {
        s.len()
    } else if in_string && s[i as int] == '\\' {
        comment_cut(s, past_escape(i, s.len()), in_string)
    } else if s[i as int] == '"' {
        comment_cut(s, i + 1, !in_string)
    } else if s[i as int] == '#' && !in_string {
        i
    } else {
        comment_cut(s, i + 1, in_string)
    }
}

/// A line without its trailing comment; a `#` inside a string is kept.
pub open spec fn strip_comment_spec(s: Seq<char>) -> Seq<char> {
    s.take(comment_cut(s, 0, false) as int)
}

/// A character allowed in a bare key.
pub open spec fn is_key_char(c: char) -> bool {
    ||| 'a' <= c <= 'z'
    ||| 'A' <= c <= 'Z'
    ||| '0' <= c <= '9'
    ||| c == '_'
    ||| c == '-'
}

/// The error a bare key draws, if any: keys are non-empty runs of
/// `[A-Za-z0-9_-]`.
pub open spec fn key_error(key: Seq<char>) -> Option<Seq<char>> {
    if key.len() == 0 {
        Some("empty key"@)
    } else if exists|i: int| 0 <= i < key.len() && !is_key_char(#[trigger] key[i]) {
        Some(
            "key `"@ + key
                + "` uses characters outside the supported subset (A-Za-z0-9_-)"@,
        )
    } else {
        None
    }
}

/// An ASCII decimal digit.
pub open spec fn is_digit(c: char) -> bool {
    '0' <= c <= '9'
}

/// The decimal value of a run of digits.
pub open spec fn digits_value(s: Seq<char>) -> nat
    decreases s.len(),
{
    if s.len() == 0 {
        0
    } else {
        digits_value(s.drop_last()) * 10 + ((s.last() as nat) - ('0' as nat)) as nat
    }
}

/// The digits of an integer literal: the text without one leading `+`.
pub open spec fn unsigned_digits(s: Seq<char>) -> Seq<char> {
    if s.len() > 0 && s[0] == '+' {
        s.drop_first()
    } else {
        s
    }
}

/// Every character is a decimal digit.
pub open spec fn all_digits(d: Seq<char>) -> bool {
    forall|i: int| 0 <= i < d.len() ==> is_digit(#[trigger] d[i])
}

/// `u64::from_str`: an optional `+`, then one or more digits whose value
/// fits in 64 bits.
pub open spec fn parse_u64_spec(s: Seq<char>) -> Option<u64> {
    let d = unsigned_digits(s);
    if d.len() > 0 && all_digits(d) && digits_value(d) <= u64::MAX {
        Some(digits_value(d) as u64)
    } else {
        None
    }
}

/// Scan `text` from `i` for top-level commas (outside strings and
/// brackets), collecting the pieces into `parts`.
pub open spec fn split_scan(
    text: Seq<char>,
    i: nat,
    depth: nat,
    in_string: bool,
    start: nat,
    parts: Seq<Seq<char>>,
) -> Result<Seq<Seq<char>>, Seq<char>>
    decreases text.len() - i,
{
    if i >= text.len() {
        let tail = trim(text.subrange(start as int, text.len() as int));
        if tail.len() > 0 {
            Ok(parts.push(tail))
        } else {
            Ok(parts)
        }
    } else {
        let ch = text[i as int];
        if in_string && ch == '\\' {
            split_scan(text, past_escape(i, text.len()), depth, in_string, start, parts)
        } else if ch == '"' {
            split_scan(text, i + 1, depth, !in_string, start, parts)
        } else if (ch == '[' || ch == '{') && !in_string {
            split_scan(text, i + 1, depth + 1, in_string, start, parts)
        } else if (ch == ']' || ch == '}') && !in_string {
            if depth == 0 {
                Err("unbalanced brackets"@)
            } else {
                split_scan(text, i + 1, (depth - 1) as nat, in_string, start, parts)
            }
        } else if ch == ',' && !in_string && depth == 0 {
            split_scan(
                text,
                i + 1,
                depth,
                in_string,
                i + 1,
                parts.push(text.subrange(start as int, i as int)),
            )
        } else {
            split_scan(text, i + 1, depth, in_string, start, parts)
        }
    }
}

/// Split a comma-separated list, ignoring commas inside strings, arrays,
/// or inline tables; the last piece is trimmed and dropped when empty.
pub open spec fn split_top_level_spec(text: Seq<char>) -> Result<Seq<Seq<char>>, Seq<char>> {
    split_scan(text, 0, 0, false, 0, seq![])
}

/// The message for a value the subset does not support.
pub open spec fn unsupported_value_msg(text: Seq<char>) -> Seq<char> {
    "`"@ + text
        + "` is not a supported value (expected a string, non-negative integer, array, or inline table)"@
}

/// Parse a `key = value` pair, nesting at most `d` deep.
pub open spec fn pair_d(line: Seq<char>, d: nat) -> Result<(Seq<char>, VModel), Seq<char>>
    decreases d, 3nat, 0nat,
{
    let eq = find_char(line, '=');
    if eq >= line.len() {
        Err("expected a `key = value` assignment"@)
    } else {
        let key = trim(line.take(eq as int));
        match key_error(key) {
            Some(m) => Err(m),
            None => match value_d(trim(line.skip(eq + 1int)), d) {
                Ok(v) => Ok((key, v)),
                Err(m) => Err(m),
            },
        }
    }
}

/// Read the body of a quoted string from `i`, after the characters `acc`
/// already read: a backslash stands for the character after it, and the
/// first other `"` closes the string. The decoded text and the position of
/// the closing quote, or `None` when the string is not closed.
pub open spec fn read_str(t: Seq<char>, i: nat, acc: Seq<char>) -> Option<(Seq<char>, nat)>
    decreases t.len() - i,
{
    if i >= t.len() {
        None
    } else if t[i as int] == '"' {
        Some((acc, i))
    } else if t[i as int] == '\\' {
        if i + 1 >= t.len() {
            None
        } else {
            read_str(t, i + 2, acc.push(t[i + 1int]))
        }
    } else {
        read_str(t, i + 1, acc.push(t[i as int]))
    }
}

/// Parse a value: string, integer, array, or inline table.
pub open spec fn value_d(text: Seq<char>, d: nat) -> Result<VModel, Seq<char>>
    decreases d, 2nat, 0nat,
{
    if text.len() > 0 && text[0] == '"' {
        match read_str(text, 1, seq![]) {
            None => Err("unterminated string literal"@),
            Some((v, close)) => if trim(text.skip(close + 1int)).len() == 0 {
                Ok(VModel::Str(v))
            } else {
                Err("trailing characters after string value"@)
            },
        }
    } else if text.len() > 0 && text[0] == '[' {
        array_d(text, d)
    } else if text.len() > 0 && text[0] == '{' {
        inline_table_d(text, d)
    } else {
        match parse_u64_spec(text) {
            Some(n) => Ok(VModel::Int(n)),
            None => Err(unsupported_value_msg(text)),
        }
    }
}

/// Parse `[ a, b ]` (the text starts with `[`).
pub open spec fn array_d(text: Seq<char>, d: nat) -> Result<VModel, Seq<char>>
    decreases d, 1nat, 0nat,
{
    if !(text.len() >= 2 && text.last() == ']') {
        Err("unterminated array"@)
    } else {
        let inner = trim(text.subrange(1, text.len() - 1));
        if inner.len() == 0 {
            Ok(VModel::Arr(seq![]))
        } else {
            match split_top_level_spec(inner) {
                Err(m) => Err(m),
                Ok(pieces) => match elems_d(pieces, 0, d, seq![]) {
                    Ok(vs) => Ok(VModel::Arr(vs)),
                    Err(m) => Err(m),
                },
            }
        }
    }
}

/// Parse the array elements `pieces[i..]`, after those already in `acc`.
pub open spec fn elems_d(pieces: Seq<Seq<char>>, i: nat, d: nat, acc: Seq<VModel>) -> Result<
    Seq<VModel>,
    Seq<char>,
>
    decreases d, 0nat, pieces.len() - i,
{
    if i >= pieces.len() {
        Ok(acc)
    } else if d == 0 {
        Err(seq![])
    } else {
        match value_d(trim(pieces[i as int]), (d - 1) as nat) {
            Err(m) => Err(m),
            Ok(v) => elems_d(pieces, i + 1, d, acc.push(v)),
        }
    }
}

/// Parse `{ k = v, ... }` (the text starts with `{`).
pub open spec fn inline_table_d(text: Seq<char>, d: nat) -> Result<VModel, Seq<char>>
    decreases d, 1nat, 0nat,
{
    if !(text.len() >= 2 && text.last() == '}') {
        Err("unterminated inline table"@)
    } else {
        let inner = trim(text.subrange(1, text.len() - 1));
        if inner.len() == 0 {
            Ok(VModel::Tab(seq![]))
        } else {
            match split_top_level_spec(inner) {
                Err(m) => Err(m),
                Ok(pieces) => match entries_d(pieces, 0, d, seq![]) {
                    Ok(t) => Ok(VModel::Tab(t)),
                    Err(m) => Err(m),
                },
            }
        }
    }
}

/// Parse the inline-table entries `pieces[i..]` into `acc`.
pub open spec fn entries_d(pieces: Seq<Seq<char>>, i: nat, d: nat, acc: TModel) -> Result<
    TModel,
    Seq<char>,
>
    decreases d, 0nat, pieces.len() - i,
{
    if i >= pieces.len() {
        Ok(acc)
    } else if d == 0 {
        Err(seq![])
    } else {
        match pair_d(trim(pieces[i as int]), (d - 1) as nat) {
            Err(m) => Err(m),
            Ok((k, v)) => if keys(acc).contains(k) {
                Err("duplicate key `"@ + k + "` in inline table"@)
            } else {
                entries_d(pieces, i + 1, d, insert_sorted(acc, k, v))
            },
        }
    }
}

/// Where `key = value` lines land.
pub enum CursorModel {
    Root,
    Table(Seq<char>),
    ArrayTable(Seq<char>),
}

/// The empty document.
pub open spec fn empty_doc() -> DocModel {
    DocModel { root: seq![], tables: seq![], array_tables: seq![] }
}

/// The table the cursor points into.
pub open spec fn cursor_table(doc: DocModel, c: CursorModel) -> TModel {
    match c {
        CursorModel::Root => doc.root,
        CursorModel::Table(n) => value_of(doc.tables, n),
        CursorModel::ArrayTable(n) => value_of(doc.array_tables, n).last(),
    }
}

/// The document with the cursor's table replaced by `t`.
pub open spec fn set_cursor_table(doc: DocModel, c: CursorModel, t: TModel) -> DocModel {
    match c {
        CursorModel::Root => DocModel { root: t, ..doc },
        CursorModel::Table(n) => DocModel { tables: replace_value(doc.tables, n, t), ..doc },
        CursorModel::ArrayTable(n) => DocModel {
            array_tables: replace_value(
                doc.array_tables,
                n,
                value_of(doc.array_tables, n).drop_last().push(t),
            ),
            ..doc
        },
    }
}

/// The cursor points at a table that exists.
pub open spec fn cursor_ok(doc: DocModel, c: CursorModel) -> bool {
    match c {
        CursorModel::Root => true,
        CursorModel::Table(n) => keys(doc.tables).contains(n),
        CursorModel::ArrayTable(n) => keys(doc.array_tables).contains(n) && value_of(
            doc.array_tables,
            n,
        ).len() > 0,
    }
}

/// `[[name]]`: append a fresh table to the array named `name`.
pub open spec fn push_array_table(ats: Seq<(Seq<char>, Seq<TModel>)>, name: Seq<char>) -> Seq<
    (Seq<char>, Seq<TModel>),
> {
    if keys(ats).contains(name) {
        replace_value(ats, name, value_of(ats, name).push(seq![]))
    } else {
        insert_sorted(ats, name, seq![seq![]])
    }
}

/// A `[[name]]` header line.
pub open spec fn array_header_step(doc: DocModel, line: Seq<char>, line_no: nat) -> Result<
    (DocModel, CursorModel),
    (nat, Seq<char>),
> {
    let rest = line.skip(2);
    if !(rest.len() >= 2 && rest[rest.len() - 2] == ']' && rest[rest.len() - 1] == ']') {
        Err((line_no, "unterminated `[[array-of-tables]]` header"@))
    } else {
        let name = trim(rest.take(rest.len() - 2));
        match key_error(name) {
            Some(m) => Err((line_no, m)),
            None => Ok(
                (
                    DocModel { array_tables: push_array_table(doc.array_tables, name), ..doc },
                    CursorModel::ArrayTable(name),
                ),
            ),
        }
    }
}

/// A `[name]` header line.
pub open spec fn table_header_step(doc: DocModel, line: Seq<char>, line_no: nat) -> Result<
    (DocModel, CursorModel),
    (nat, Seq<char>),
> {
    let rest = line.skip(1);
    if !(rest.len() >= 1 && rest.last() == ']') {
        Err((line_no, "unterminated `[table]` header"@))
    } else {
        let name = trim(rest.drop_last());
        match key_error(name) {
            Some(m) => Err((line_no, m)),
            None => if keys(doc.tables).contains(name) {
                Err((line_no, "duplicate table `["@ + name + "]`"@))
            } else {
                Ok(
                    (
                        DocModel { tables: insert_sorted(doc.tables, name, seq![]), ..doc },
                        CursorModel::Table(name),
                    ),
                )
            },
        }
    }
}

/// A `key = value` line, landing in the cursor's table.
pub open spec fn pair_step(doc: DocModel, c: CursorModel, line: Seq<char>, line_no: nat) -> Result<
    (DocModel, CursorModel),
    (nat, Seq<char>),
> {
    match pair_d(line, line.len()) {
        Err(m) => Err((line_no, m)),
        Ok((k, v)) => {
            let dest = cursor_table(doc, c);
            if keys(dest).contains(k) {
                Err((line_no, "duplicate key `"@ + k + "`"@))
            } else {
                Ok((set_cursor_table(doc, c, insert_sorted(dest, k, v)), c))
            }
        },
    }
}

/// The effect of one input line on the document and the cursor, or the
/// error it draws (with its line number).
pub open spec fn step(doc: DocModel, c: CursorModel, raw: Seq<char>, line_no: nat) -> Result<
    (DocModel, CursorModel),
    (nat, Seq<char>),
> {
    let line = trim(strip_comment_spec(raw));
    if line.len() == 0 {
        Ok((doc, c))
    } else if line.len() >= 2 && line[0] == '[' && line[1] == '[' {
        array_header_step(doc, line, line_no)
    } else if line[0] == '[' {
        table_header_step(doc, line, line_no)
    } else {
        pair_step(doc, c, line, line_no)
    }
}

/// Fold the lines `lines[i..]` into the document.
pub open spec fn parse_from(lines: Seq<Seq<char>>, i: nat, doc: DocModel, c: CursorModel) -> Result<
    DocModel,
    (nat, Seq<char>),
>
    decreases lines.len() - i,
{
    if i >= lines.len() {
        Ok(doc)
    } else {
        match step(doc, c, lines[i as int], i + 1) {
            Err(e) => Err(e),
            Ok((d2, c2)) => parse_from(lines, i + 1, d2, c2),
        }
    }
}

/// What reading `input` yields: the document, or the first error with its
/// one-based line number.
pub open spec fn parse_spec(input: Seq<char>) -> Result<DocModel, (nat, Seq<char>)> {
    parse_from(lines_of(input), 0, empty_doc(), CursorModel::Root)
}

// ---------------------------------------------------------------------------
// The reader.
// ---------------------------------------------------------------------------

/// The character views of a sequence of character vectors.
pub open spec fn seqs(v: Seq<Vec<char>>) -> Seq<Seq<char>> {
    Seq::new(v.len(), |i: int| v[i]@)
}

/// The contents of a sequence of values.
pub open spec fn models(v: Seq<Value>) -> Seq<VModel> {
    Seq::new(v.len(), |i: int| v[i].model())
}

/// An executable value result agrees with the grammar's result.
pub open spec fn value_agrees(r: Result<Value, TomlError>, s: Result<VModel, Seq<char>>, line: usize) -> bool {
    match r {
        Ok(v) => s == Ok::<VModel, Seq<char>>(v.model()) && vwf(v.model()),
        Err(e) => s == Err::<VModel, Seq<char>>(e.message@) && e.line == line,
    }
}

/// An executable pair result agrees with the grammar's result.
pub open spec fn pair_agrees(
    r: Result<(String, Value), TomlError>,
    s: Result<(Seq<char>, VModel), Seq<char>>,
    line: usize,
) -> bool {
    match r {
        Ok((k, v)) => s == Ok::<(Seq<char>, VModel), Seq<char>>((k@, v.model())) && vwf(v.model()),
        Err(e) => s == Err::<(Seq<char>, VModel), Seq<char>>(e.message@) && e.line == line,
    }
}

/// Remove a trailing `# comment`, respecting a `#` inside a quoted string.
fn strip_comment(line: &Vec<char>) -> (r: Vec<char>)
    ensures
        r@ == strip_comment_spec(line@),
{
    let mut in_string = false;
    let mut i: usize = 0;
    while i < line.len()
        invariant
            i <= line@.len(),
            comment_cut(line@, 0, false) == comment_cut(line@, i as nat, in_string),
        decreases line.len() - i,
    {
        let ch = line[i];
        if in_string && ch == '\\' {
            i = if i + 1 < line.len() {
                i + 2
            } else {
                line.len()
            };
        } else {
            if ch == '"' {
                in_string = !in_string;
            } else if ch == '#' && !in_string {
                return slice(line, 0, i);
            }
            i = i + 1;
        }
    }
    assert(line@.take(line@.len() as int) == line@);
    slice(line, 0, line.len())
}

/// A bare key must be a non-empty run of `[A-Za-z0-9_-]`. Dotted keys are not
/// part of the subset.
fn check_key(key: &Vec<char>, line_no: usize) -> (r: Result<(), TomlError>)
    ensures
        match key_error(key@) {
            None => r is Ok,
            Some(m) => r matches Err(e) && e.line == line_no && e.message@ == m,
        },
{
    if key.len() == 0 {
        return Err(err(line_no, "empty key".to_owned()));
    }
    let mut i: usize = 0;
    while i < key.len()
        invariant
            i <= key@.len(),
            forall|j: int| 0 <= j < i ==> is_key_char(#[trigger] key@[j]),
        decreases key.len() - i,
    {
        let c = key[i];
        if !(('a' <= c && c <= 'z') || ('A' <= c && c <= 'Z') || ('0' <= c && c <= '9') || c == '_'
            || c == '-') {
            let mut m = "key `".to_owned();
            push_vec(&mut m, key);
            crate::text::push_str(
                &mut m,
                "` uses characters outside the supported subset (A-Za-z0-9_-)",
            );
            assert(!is_key_char(key@[i as int]));
            return Err(err(line_no, m));
        }
        i = i + 1;
    }
    Ok(())
}

/// Digit values of prefixes never exceed the whole.
proof fn lemma_digits_prefix(s: Seq<char>, k: int)
    requires
        0 <= k <= s.len(),
    ensures
        digits_value(s.take(k)) <= digits_value(s),
    decreases s.len(),
{
    if k < s.len() {
        assert(s.drop_last().take(k) == s.take(k));
        lemma_digits_prefix(s.drop_last(), k);
    } else {
        assert(s.take(k) == s);
    }
}

/// Parse `u64` decimal text (an optional `+`, then digits).
#[verifier::loop_isolation(false)]
fn parse_u64(text: &Vec<char>) -> (r: Option<u64>)
    ensures
        r == parse_u64_spec(text@),
{
    let n = text.len();
    let start: usize = if n > 0 && text[0] == '+' {
        1
    } else {
        0
    };
    let ghost d = unsigned_digits(text@);
    assert(d == text@.skip(start as int));
    if start == n {
        return None;
    }
    let mut value: u64 = 0;
    let mut j = start;
    while j < n
        invariant
            start <= j <= n == text@.len(),
            d == text@.skip(start as int),
            forall|i: int| 0 <= i < j - start ==> is_digit(#[trigger] d[i]),
            value == digits_value(d.take(j - start)),
        decreases n - j,
    {
        let c = text[j];
        if !('0' <= c && c <= '9') {
            assert(!is_digit(d[j - start]));
            assert(!all_digits(d));
            assert(parse_u64_spec(text@) is None);
            return None;
        }
        let digit = (c as u32 - '0' as u32) as u64;
        assert(d.take(j - start + 1).drop_last() == d.take(j - start));
        let next = if value <= (u64::MAX - digit) / 10 {
            value * 10 + digit
        } else {
            proof {
                let k = j - start + 1;
                assert(digits_value(d.take(k)) > u64::MAX);
                if all_digits(d) {
                    lemma_digits_prefix(d, k);
                }
                assert(parse_u64_spec(text@) is None);
            }
            return None;
        };
        value = next;
        j = j + 1;
    }
    assert(d.take(n - start) == d);
    Some(value)
}

/// Split a comma-separated list, ignoring commas inside strings, arrays, or
/// inline tables. Enough for the nesting the subset allows.
fn split_top_level(text: &Vec<char>, line_no: usize) -> (r: Result<Vec<Vec<char>>, TomlError>)
    ensures
        match r {
            Ok(ps) => split_top_level_spec(text@) == Ok::<Seq<Seq<char>>, Seq<char>>(seqs(ps@))
                && forall|i: int| 0 <= i < ps@.len() ==> (#[trigger] ps@[i])@.len() <= text@.len(),
            Err(e) => split_top_level_spec(text@) == Err::<Seq<Seq<char>>, Seq<char>>(e.message@)
                && e.line == line_no,
        },
{
    let mut parts: Vec<Vec<char>> = Vec::new();
    let mut depth: usize = 0;
    let mut in_string = false;
    let mut start: usize = 0;
    let mut i: usize = 0;
    assert(seqs(parts@) =~= Seq::<Seq<char>>::empty());
    while i < text.len()
        invariant
            start <= i <= text@.len(),
            depth <= i,
            split_top_level_spec(text@) == split_scan(
                text@,
                i as nat,
                depth as nat,
                in_string,
                start as nat,
                seqs(parts@),
            ),
            forall|k: int| 0 <= k < parts@.len() ==> (#[trigger] parts@[k])@.len() <= text@.len(),
        decreases text.len() - i,
    {
        let ch = text[i];
        if in_string && ch == '\\' {
            i = if i + 1 < text.len() {
                i + 2
            } else {
                text.len()
            };
        } else {
            if ch == '"' {
                in_string = !in_string;
            } else if (ch == '[' || ch == '{') && !in_string {
                depth = depth + 1;
            } else if (ch == ']' || ch == '}') && !in_string {
                if depth == 0 {
                    return Err(err(line_no, "unbalanced brackets".to_owned()));
                }
                depth = depth - 1;
            } else if ch == ',' && !in_string && depth == 0 {
                let piece = slice(text, start, i);
                let ghost old_parts = parts@;
                parts.push(piece);
                assert(seqs(parts@) =~= seqs(old_parts).push(text@.subrange(start as int, i as int)));
                start = i + 1;
            }
            i = i + 1;
        }
    }
    let tail = trimmed(text, start, text.len());
    proof {
        lemma_trim_len(text@.subrange(start as int, text@.len() as int));
    }
    if tail.len() > 0 {
        let ghost old_parts = parts@;
        parts.push(tail);
        assert(seqs(parts@) =~= seqs(old_parts).push(tail@));
    }
    Ok(parts)
}

/// The message for a value outside the subset.
fn unsupported_value(text: &Vec<char>) -> (r: String)
    ensures
        r@ == unsupported_value_msg(text@),
{
    let mut m = "`".to_owned();
    push_vec(&mut m, text);
    crate::text::push_str(
        &mut m,
        "` is not a supported value (expected a string, non-negative integer, array, or inline table)",
    );
    m
}

/// Split and parse a `key = value` line.
fn parse_pair(line: &Vec<char>, line_no: usize, depth: usize) -> (r: Result<(String, Value), TomlError>)
    requires
        line@.len() <= depth,
    ensures
        pair_agrees(r, pair_d(line@, depth as nat), line_no),
    decreases depth, 3nat,
{
    let n = line.len();
    assert(line@.subrange(0, n as int) == line@);
    let eq = position_of(line, 0, n, '=');
    if eq == n {
        return Err(err(line_no, "expected a `key = value` assignment".to_owned()));
    }
    assert(line@.take(eq as int) == line@.subrange(0, eq as int));
    assert(line@.skip(eq + 1int) == line@.subrange(eq + 1, n as int));
    let key = trimmed(line, 0, eq);
    check_key(&key, line_no)?;
    let vtext = trimmed(line, eq + 1, n);
    proof {
        lemma_trim_len(line@.subrange(eq + 1, n as int));
    }
    let value = parse_value(&vtext, line_no, depth)?;
    let k = string_of(&key, 0, key.len());
    assert(key@.subrange(0, key@.len() as int) == key@);
    Ok((k, value))
}

/// Parse a value: string, integer, array, or inline table.
fn parse_value(text: &Vec<char>, line_no: usize, depth: usize) -> (r: Result<Value, TomlError>)
    requires
        text@.len() <= depth,
    ensures
        value_agrees(r, value_d(text@, depth as nat), line_no),
    decreases depth, 2nat,
{
    let n = text.len();
    if n > 0 && text[0] == '"' {
        let mut decoded: Vec<char> = Vec::new();
        let mut i: usize = 1;
        while i < n && text[i] != '"'
            invariant
                1 <= i <= n,
                n == text@.len(),
                text@[0] == '"',
                read_str(text@, 1, seq![]) == read_str(text@, i as nat, decoded@),
            decreases n - i,
        {
            if text[i] == '\\' {
                if i + 1 >= n {
                    assert(read_str(text@, i as nat, decoded@) is None);
                    return Err(err(line_no, "unterminated string literal".to_owned()));
                }
                decoded.push(text[i + 1]);
                i = i + 2;
            } else {
                decoded.push(text[i]);
                i = i + 1;
            }
        }
        if i >= n {
            return Err(err(line_no, "unterminated string literal".to_owned()));
        }
        assert(text@.skip(i + 1int) == text@.subrange(i + 1, n as int));
        let (a, b) = trim_bounds(text, i + 1, n);
        if a == b {
            let s = string_of(&decoded, 0, decoded.len());
            assert(decoded@.subrange(0, decoded@.len() as int) == decoded@);
            return Ok(Value::String(s));
        }
        return Err(err(line_no, "trailing characters after string value".to_owned()));
    }
    if n > 0 && text[0] == '[' {
        return parse_array(text, line_no, depth);
    }
    if n > 0 && text[0] == '{' {
        return parse_inline_table(text, line_no, depth);
    }
    match parse_u64(text) {
        Some(v) => Ok(Value::Integer(v)),
        None => Err(err(line_no, unsupported_value(text))),
    }
}

/// Parse `[ "a", "b" ]`.
#[verifier::loop_isolation(false)]
fn parse_array(text: &Vec<char>, line_no: usize, depth: usize) -> (r: Result<Value, TomlError>)
    requires
        text@.len() <= depth,
        text@.len() > 0,
        text@[0] == '[',
    ensures
        value_agrees(r, array_d(text@, depth as nat), line_no),
    decreases depth, 1nat,
{
    let n = text.len();
    if !(n >= 2 && text[n - 1] == ']') {
        return Err(err(line_no, "unterminated array".to_owned()));
    }
    let inner = trimmed(text, 1, n - 1);
    proof {
        lemma_trim_len(text@.subrange(1, n - 1));
    }
    if inner.len() == 0 {
        let items: Vec<Value> = Vec::new();
        proof {
            lemma_array_value_model(items);
            assert(Seq::new(items@.len(), |i: int| items@[i].model()) =~= Seq::<VModel>::empty());
        }
        return Ok(Value::Array(items));
    }
    let pieces = split_top_level(&inner, line_no)?;
    let mut items: Vec<Value> = Vec::new();
    let mut idx: usize = 0;
    assert(models(items@) =~= Seq::<VModel>::empty());
    while idx < pieces.len()
        invariant
            idx <= pieces@.len(),
            2 <= n <= depth,
            forall|i: int| 0 <= i < pieces@.len() ==> (#[trigger] pieces@[i])@.len() <= n - 2,
            forall|k: int| 0 <= k < items@.len() ==> vwf(#[trigger] items@[k].model()),
            elems_d(seqs(pieces@), 0, depth as nat, seq![]) == elems_d(
                seqs(pieces@),
                idx as nat,
                depth as nat,
                models(items@),
            ),
        decreases pieces.len() - idx,
    {
        let piece = &pieces[idx];
        let elem = trimmed(piece, 0, piece.len());
        proof {
            assert(piece@.subrange(0, piece@.len() as int) == piece@);
            assert(seqs(pieces@)[idx as int] == piece@);
            lemma_trim_len(piece@);
        }
        let v = match parse_value(&elem, line_no, depth - 1) {
            Ok(v) => v,
            Err(e) => {
                assert(elems_d(seqs(pieces@), idx as nat, depth as nat, models(items@)) == Err::<
                    Seq<VModel>,
                    Seq<char>,
                >(e.message@));
                return Err(e);
            },
        };
        let ghost old_items = items@;
        items.push(v);
        assert(models(items@) =~= models(old_items).push(v.model()));
        idx = idx + 1;
    }
    proof {
        lemma_array_value_model(items);
        assert(Seq::new(items@.len(), |i: int| items@[i].model()) =~= models(items@));
        let ms = Seq::new(items@.len(), |i: int| items@[i].model());
        assert forall|i: int| 0 <= i < ms.len() implies vwf(#[trigger] ms[i]) by {
            assert(ms[i] == items@[i].model());
        }
    }
    Ok(Value::Array(items))
}

/// Parse `{ key = "value", key2 = "value2" }` — an inline table.
#[verifier::loop_isolation(false)]
fn parse_inline_table(text: &Vec<char>, line_no: usize, depth: usize) -> (r: Result<Value, TomlError>)
    requires
        text@.len() <= depth,
        text@.len() > 0,
        text@[0] == '{',
    ensures
        value_agrees(r, inline_table_d(text@, depth as nat), line_no),
    decreases depth, 1nat,
{
    let n = text.len();
    if !(n >= 2 && text[n - 1] == '}') {
        return Err(err(line_no, "unterminated inline table".to_owned()));
    }
    let inner = trimmed(text, 1, n - 1);
    proof {
        lemma_trim_len(text@.subrange(1, n - 1));
    }
    let mut map: Table = Vec::new();
    if inner.len() == 0 {
        proof {
            lemma_table_value_model(map);
            assert(table_model(map@) =~= Seq::<(Seq<char>, VModel)>::empty());
            assert(keys(table_model(map@)) =~= Seq::<Seq<char>>::empty());
        }
        return Ok(Value::Table(map));
    }
    let pieces = split_top_level(&inner, line_no)?;
    let mut idx: usize = 0;
    assert(table_model(map@) =~= Seq::<(Seq<char>, VModel)>::empty());
    assert(keys(table_model(map@)) =~= Seq::<Seq<char>>::empty());
    while idx < pieces.len()
        invariant
            idx <= pieces@.len(),
            2 <= n <= depth,
            forall|i: int| 0 <= i < pieces@.len() ==> (#[trigger] pieces@[i])@.len() <= n - 2,
            twf(table_model(map@)),
            entries_d(seqs(pieces@), 0, depth as nat, seq![]) == entries_d(
                seqs(pieces@),
                idx as nat,
                depth as nat,
                table_model(map@),
            ),
        decreases pieces.len() - idx,
    {
        let piece = &pieces[idx];
        let entry = trimmed(piece, 0, piece.len());
        proof {
            assert(piece@.subrange(0, piece@.len() as int) == piece@);
            assert(seqs(pieces@)[idx as int] == piece@);
            lemma_trim_len(piece@);
        }
        let (key, value) = match parse_pair(&entry, line_no, depth - 1) {
            Ok(kv) => kv,
            Err(e) => {
                assert(entries_d(seqs(pieces@), idx as nat, depth as nat, table_model(map@)) == Err::<
                    TModel,
                    Seq<char>,
                >(e.message@));
                return Err(e);
            },
        };
        let kc = chars_of(key.as_str());
        proof {
            lemma_table_model_keys(map@);
        }
        let (p, found) = find_key(&map, &kc);
        proof {
            crate::assoc::lemma_lower_bound_split(skeys(map@), key@);
        }
        if found {
            let mut m = "duplicate key `".to_owned();
            crate::text::push_str(&mut m, key.as_str());
            crate::text::push_str(&mut m, "` in inline table");
            assert(entries_d(seqs(pieces@), idx as nat, depth as nat, table_model(map@)) == Err::<
                TModel,
                Seq<char>,
            >(m@));
            return Err(err(line_no, m));
        }
        let ghost old_map = map@;
        proof {
            lemma_twf_insert(table_model(old_map), key@, value.model());
            lemma_table_model_insert(old_map, p as int, key, value);
        }
        map.insert(p, (key, value));
        idx = idx + 1;
    }
    proof {
        lemma_table_value_model(map);
    }
    Ok(Value::Table(map))
}

/// `str::lines` over characters.
fn split_lines(s: &Vec<char>) -> (r: Vec<Vec<char>>)
    ensures
        seqs(r@) == lines_of(s@),
{
    let n = s.len();
    let mut out: Vec<Vec<char>> = Vec::new();
    let mut pos: usize = 0;
    assert(s@.skip(0) == s@);
    assert(seqs(out@) =~= Seq::<Seq<char>>::empty());
    while pos < n
        invariant
            pos <= n == s@.len(),
            seqs(out@) + lines_of(s@.skip(pos as int)) == lines_of(s@),
        decreases n - pos,
    {
        let ghost rest = s@.skip(pos as int);
        assert(rest == s@.subrange(pos as int, n as int));
        let k = position_of(s, pos, n, '\n');
        let ghost old_out = out@;
        if k == n - pos {
            let line = slice(s, pos, n);
            out.push(line);
            assert(seqs(out@) =~= seqs(old_out).push(rest));
            assert(lines_of(rest) == seq![rest]);
            assert(s@.skip(n as int) =~= Seq::<char>::empty());
            assert(lines_of(s@.skip(n as int)) =~= Seq::<Seq<char>>::empty());
            assert(seqs(out@) + lines_of(s@.skip(n as int)) =~= seqs(old_out) + lines_of(rest));
            pos = n;
        } else {
            let end = if k > 0 && s[pos + k - 1] == '\r' {
                pos + k - 1
            } else {
                pos + k
            };
            assert(rest.take(k as int) == s@.subrange(pos as int, pos + k));
            let line = slice(s, pos, end);
            assert(line@ == strip_cr(rest.take(k as int)));
            out.push(line);
            assert(rest.skip(k + 1int) == s@.skip(pos + k + 1));
            assert(seqs(out@) =~= seqs(old_out).push(line@));
            assert(seqs(out@) + lines_of(s@.skip(pos + k + 1)) =~= seqs(old_out) + lines_of(rest));
            pos = pos + k + 1;
        }
    }
    assert(s@.skip(n as int) =~= Seq::<char>::empty());
    assert(seqs(out@) + lines_of(s@.skip(n as int)) =~= seqs(out@));
    out
}

/// Where subsequent `key = value` lines land.
enum Cursor {
    Root,
    Table(Vec<char>),
    ArrayTable(Vec<char>),
}

impl Cursor {
    spec fn model(&self) -> CursorModel {
        match self {
            Cursor::Root => CursorModel::Root,
            Cursor::Table(n) => CursorModel::Table(n@),
            Cursor::ArrayTable(n) => CursorModel::ArrayTable(n@),
        }
    }
}

/// The content of named tables.
pub open spec fn tabs_model(x: Seq<(String, Table)>) -> Seq<(Seq<char>, TModel)> {
    Seq::new(x.len(), |i: int| (x[i].0@, table_model(x[i].1@)))
}

/// The content of named arrays of tables.
pub open spec fn arrays_model(x: Seq<(String, Vec<Table>)>) -> Seq<(Seq<char>, Seq<TModel>)> {
    Seq::new(x.len(), |i: int| (x[i].0@, tables_model(x[i].1@)))
}

proof fn lemma_doc_model(doc: &Document)
    ensures
        doc.model().root == table_model(doc.root@),
        doc.model().tables == tabs_model(doc.tables@),
        doc.model().array_tables == arrays_model(doc.array_tables@),
        keys(tabs_model(doc.tables@)) == skeys(doc.tables@),
        keys(arrays_model(doc.array_tables@)) == skeys(doc.array_tables@),
        keys(table_model(doc.root@)) == skeys(doc.root@),
{
    assert(doc.model().tables =~= tabs_model(doc.tables@));
    assert(doc.model().array_tables =~= arrays_model(doc.array_tables@));
    assert(keys(tabs_model(doc.tables@)) =~= skeys(doc.tables@));
    assert(keys(arrays_model(doc.array_tables@)) =~= skeys(doc.array_tables@));
    lemma_table_model_keys(doc.root@);
}

/// The root table's content and keys.
pub proof fn lemma_doc_root_model(doc: &Document)
    ensures
        doc.model().root == table_model(doc.root@),
{
}

/// Inserting a well-formed value under a new key keeps a table well formed.
proof fn lemma_twf_insert(t: TModel, k: Seq<char>, v: VModel)
    requires
        twf(t),
        !keys(t).contains(k),
        vwf(v),
    ensures
        twf(insert_sorted(t, k, v)),
{
    lemma_insert_sorted(t, k, v);
    let n = insert_sorted(t, k, v);
    let p = lower_bound(keys(t), k) as int;
    crate::assoc::lemma_lower_bound_split(keys(t), k);
    assert forall|i: int| 0 <= i < n.len() implies vwf(#[trigger] n[i].1) by {
        if i < p {
            assert(n[i] == t[i]);
        } else if i > p {
            assert(n[i] == t[i - 1]);
        }
    }
}

/// The message for a repeated `[table]` header.
fn duplicate_table(name: &Vec<char>) -> (r: String)
    ensures
        r@ == "duplicate table `["@ + name@ + "]`"@,
{
    let mut m = "duplicate table `[".to_owned();
    push_vec(&mut m, name);
    crate::text::push_str(&mut m, "]`");
    m
}

/// The message for a repeated key.
fn duplicate_key(key: &String) -> (r: String)
    ensures
        r@ == "duplicate key `"@ + key@ + "`"@,
{
    let mut m = "duplicate key `".to_owned();
    crate::text::push_str(&mut m, key.as_str());
    crate::text::push_str(&mut m, "`");
    m
}

/// Insert a new key into a table, or report it as a duplicate.
fn insert_new_key(t: &mut Table, key: String, value: Value, line_no: usize) -> (r: Result<
    (),
    TomlError,
>)
    requires
        twf(table_model(old(t)@)),
        vwf(value.model()),
    ensures
        keys(table_model(old(t)@)).contains(key@) ==> (r matches Err(e) && e.line == line_no
            && e.message@ == "duplicate key `"@ + key@ + "`"@),
        !keys(table_model(old(t)@)).contains(key@) ==> r is Ok && table_model(final(t)@)
            == insert_sorted(table_model(old(t)@), key@, value.model()) && twf(
            table_model(final(t)@),
        ),
{
    proof {
        lemma_table_model_keys(t@);
    }
    let kc = chars_of(key.as_str());
    let (p, found) = find_key(t, &kc);
    proof {
        crate::assoc::lemma_lower_bound_split(skeys(t@), key@);
    }
    if found {
        return Err(err(line_no, duplicate_key(&key)));
    }
    proof {
        lemma_twf_insert(table_model(t@), key@, value.model());
        lemma_table_model_insert(t@, p as int, key, value);
    }
    t.insert(p, (key, value));
    Ok(())
}

/// Apply a `[[name]]` header line.
fn apply_array_header(doc: &mut Document, line: &Vec<char>, line_no: usize) -> (r: Result<
    Vec<char>,
    TomlError,
>)
    requires
        old(doc).wf(),
        line@.len() >= 2,
        line@[0] == '[',
        line@[1] == '[',
    ensures
        match r {
            Ok(name) => array_header_step(old(doc).model(), line@, line_no as nat) == Ok::<
                (DocModel, CursorModel),
                (nat, Seq<char>),
            >((final(doc).model(), CursorModel::ArrayTable(name@))) && final(doc).wf() && cursor_ok(
                final(doc).model(),
                CursorModel::ArrayTable(name@),
            ),
            Err(e) => array_header_step(old(doc).model(), line@, line_no as nat) == Err::<
                (DocModel, CursorModel),
                (nat, Seq<char>),
            >((line_no as nat, e.message@)) && e.line == line_no,
        },
{
    let n = line.len();
    let ghost rest = line@.skip(2);
    if !(n >= 4 && line[n - 2] == ']' && line[n - 1] == ']') {
        return Err(err(line_no, "unterminated `[[array-of-tables]]` header".to_owned()));
    }
    assert(rest[rest.len() - 2] == line@[n - 2] && rest[rest.len() - 1] == line@[n - 1]);
    assert(rest.take(rest.len() - 2) == line@.subrange(2, n - 2));
    let name = trimmed(line, 2, n - 2);
    check_key(&name, line_no)?;
    proof {
        lemma_doc_model(doc);
    }
    let (p, found) = find_key(&doc.array_tables, &name);
    let ghost old_at = doc.array_tables@;
    let ghost old_m = doc.model();
    proof {
        crate::assoc::lemma_lower_bound_split(skeys(old_at), name@);
    }
    if found {
        let (k, mut ts) = doc.array_tables.remove(p);
        let ghost old_ts = ts@;
        let e: Table = Vec::new();
        assert(table_model(e@) =~= Seq::<(Seq<char>, VModel)>::empty());
        ts.push(e);
        assert(tables_model(ts@) =~= tables_model(old_ts).push(seq![]));
        doc.array_tables.insert(p, (k, ts));
        proof {
            assert(doc.array_tables@ =~= old_at.update(p as int, (k, ts)));
            assert(arrays_model(doc.array_tables@) =~= replace_value(
                arrays_model(old_at),
                name@,
                value_of(arrays_model(old_at), name@).push(seq![]),
            ));
            assert(skeys(doc.array_tables@) =~= skeys(old_at));
            lemma_doc_model(doc);
            let m = doc.model();
            assert(twf(Seq::<(Seq<char>, VModel)>::empty()));
            assert forall|i: int, j: int|
                0 <= i < m.array_tables.len() && 0 <= j < m.array_tables[i].1.len() implies twf(
                #[trigger] m.array_tables[i].1[j],
            ) by {
                if i == p && j == old_ts.len() {
                } else if i == p {
                    assert(m.array_tables[i].1[j] == old_m.array_tables[i].1[j]);
                } else {
                    assert(m.array_tables[i] == old_m.array_tables[i]);
                }
            }
        }
    } else {
        let mut ts: Vec<Table> = Vec::new();
        let e: Table = Vec::new();
        assert(table_model(e@) =~= Seq::<(Seq<char>, VModel)>::empty());
        ts.push(e);
        let k = string_of(&name, 0, name.len());
        assert(name@.subrange(0, name@.len() as int) == name@);
        assert(tables_model(ts@) =~= seq![Seq::<(Seq<char>, VModel)>::empty()]);
        proof {
            lemma_insert_sorted(arrays_model(old_at), name@, seq![seq![]]);
        }
        doc.array_tables.insert(p, (k, ts));
        proof {
            assert(arrays_model(doc.array_tables@) =~= insert_sorted(
                arrays_model(old_at),
                name@,
                seq![seq![]],
            ));
            lemma_doc_model(doc);
            let m = doc.model();
            assert(twf(Seq::<(Seq<char>, VModel)>::empty()));
            assert forall|i: int, j: int|
                0 <= i < m.array_tables.len() && 0 <= j < m.array_tables[i].1.len() implies twf(
                #[trigger] m.array_tables[i].1[j],
            ) by {
                if i < p {
                    assert(m.array_tables[i] == old_m.array_tables[i]);
                } else if i > p {
                    assert(m.array_tables[i] == old_m.array_tables[i - 1]);
                }
            }
        }
    }
    proof {
        lemma_doc_model(doc);
        assert(doc.array_tables@[p as int].0@ == name@);
        assert(skeys(doc.array_tables@)[p as int] == name@);
        crate::assoc::lemma_index_of_sorted(skeys(doc.array_tables@), name@, p as int);
        assert(doc.array_tables@[p as int].1@.len() > 0);
    }
    Ok(name)
}

/// Apply a `[name]` header line.
fn apply_table_header(doc: &mut Document, line: &Vec<char>, line_no: usize) -> (r: Result<
    Vec<char>,
    TomlError,
>)
    requires
        old(doc).wf(),
        line@.len() >= 1,
        line@[0] == '[',
    ensures
        match r {
            Ok(name) => table_header_step(old(doc).model(), line@, line_no as nat) == Ok::<
                (DocModel, CursorModel),
                (nat, Seq<char>),
            >((final(doc).model(), CursorModel::Table(name@))) && final(doc).wf() && cursor_ok(
                final(doc).model(),
                CursorModel::Table(name@),
            ),
            Err(e) => table_header_step(old(doc).model(), line@, line_no as nat) == Err::<
                (DocModel, CursorModel),
                (nat, Seq<char>),
            >((line_no as nat, e.message@)) && e.line == line_no,
        },
{
    let n = line.len();
    if !(n >= 2 && line[n - 1] == ']') {
        return Err(err(line_no, "unterminated `[table]` header".to_owned()));
    }
    assert(line@.skip(1).drop_last() == line@.subrange(1, n - 1));
    let name = trimmed(line, 1, n - 1);
    check_key(&name, line_no)?;
    proof {
        lemma_doc_model(doc);
    }
    let (p, found) = find_key(&doc.tables, &name);
    if found {
        return Err(err(line_no, duplicate_table(&name)));
    }
    let ghost old_t = doc.tables@;
    let ghost old_m = doc.model();
    proof {
        crate::assoc::lemma_lower_bound_split(skeys(old_t), name@);
        lemma_insert_sorted(tabs_model(old_t), name@, seq![]);
    }
    let k = string_of(&name, 0, name.len());
    assert(name@.subrange(0, name@.len() as int) == name@);
    let empty: Table = Vec::new();
    assert(table_model(empty@) =~= Seq::<(Seq<char>, VModel)>::empty());
    doc.tables.insert(p, (k, empty));
    proof {
        assert(tabs_model(doc.tables@) =~= insert_sorted(tabs_model(old_t), name@, seq![]));
        lemma_doc_model(doc);
        let m = doc.model();
        assert(twf(Seq::<(Seq<char>, VModel)>::empty()));
        assert forall|i: int| 0 <= i < m.tables.len() implies twf(#[trigger] m.tables[i].1) by {
            if i < p {
                assert(m.tables[i] == old_m.tables[i]);
            } else if i > p {
                assert(m.tables[i] == old_m.tables[i - 1]);
            }
        }
        assert(doc.tables@[p as int].0@ == name@);
        assert(skeys(doc.tables@)[p as int] == name@);
        crate::assoc::lemma_index_of_sorted(skeys(doc.tables@), name@, p as int);
    }
    Ok(name)
}

/// Insert a new key into the named table.
fn insert_into_table(doc: &mut Document, name: &Vec<char>, key: String, value: Value, line_no: usize) -> (r: Result<(), TomlError>)
    requires
        old(doc).wf(),
        keys(old(doc).model().tables).contains(name@),
        vwf(value.model()),
    ensures
        ({
            let c = CursorModel::Table(name@);
            let dest = cursor_table(old(doc).model(), c);
            match r {
                Ok(()) => !keys(dest).contains(key@) && final(doc).model() == set_cursor_table(
                    old(doc).model(),
                    c,
                    insert_sorted(dest, key@, value.model()),
                ) && final(doc).wf() && cursor_ok(final(doc).model(), c),
                Err(e) => keys(dest).contains(key@) && e.line == line_no && e.message@
                    == "duplicate key `"@ + key@ + "`"@,
            }
        }),
{
    proof {
        lemma_doc_model(doc);
    }
    let (p, found) = find_key(&doc.tables, name);
    let ghost old_t = doc.tables@;
    let ghost old_m = doc.model();
    let (tn, mut t) = doc.tables.remove(p);
    assert(t == old_t[p as int].1);
    assert(table_model(t@) == value_of(tabs_model(old_t), name@));
    assert(twf(old_m.tables[p as int].1));
    insert_new_key(&mut t, key, value, line_no)?;
    doc.tables.insert(p, (tn, t));
    proof {
        assert(doc.tables@ =~= old_t.update(p as int, (tn, t)));
        assert(tabs_model(doc.tables@) =~= replace_value(tabs_model(old_t), name@, table_model(t@)));
        assert(skeys(doc.tables@) =~= skeys(old_t));
        lemma_doc_model(doc);
        let m = doc.model();
        assert forall|i: int| 0 <= i < m.tables.len() implies twf(#[trigger] m.tables[i].1) by {
            if i != p {
                assert(m.tables[i] == old_m.tables[i]);
            }
        }
        lemma_replace_value_keys(tabs_model(old_t), name@, table_model(t@));
    }
    Ok(())
}

/// Insert a new key into the last table of the named array of tables.
fn insert_into_array_table(
    doc: &mut Document,
    name: &Vec<char>,
    key: String,
    value: Value,
    line_no: usize,
) -> (r: Result<(), TomlError>)
    requires
        old(doc).wf(),
        cursor_ok(old(doc).model(), CursorModel::ArrayTable(name@)),
        vwf(value.model()),
    ensures
        ({
            let c = CursorModel::ArrayTable(name@);
            let dest = cursor_table(old(doc).model(), c);
            match r {
                Ok(()) => !keys(dest).contains(key@) && final(doc).model() == set_cursor_table(
                    old(doc).model(),
                    c,
                    insert_sorted(dest, key@, value.model()),
                ) && final(doc).wf() && cursor_ok(final(doc).model(), c),
                Err(e) => keys(dest).contains(key@) && e.line == line_no && e.message@
                    == "duplicate key `"@ + key@ + "`"@,
            }
        }),
{
    proof {
        lemma_doc_model(doc);
    }
    let (p, found) = find_key(&doc.array_tables, name);
    let ghost old_at = doc.array_tables@;
    let ghost old_m = doc.model();
    let (an, mut ts) = doc.array_tables.remove(p);
    let ghost old_ts = ts@;
    assert(ts == old_at[p as int].1);
    assert(tables_model(ts@) == value_of(arrays_model(old_at), name@));
    let mut t = ts.pop().unwrap();
    assert(table_model(t@) == tables_model(old_ts).last());
    assert(twf(old_m.array_tables[p as int].1[old_ts.len() - 1]));
    insert_new_key(&mut t, key, value, line_no)?;
    ts.push(t);
    assert(tables_model(ts@) =~= tables_model(old_ts).drop_last().push(table_model(t@)));
    doc.array_tables.insert(p, (an, ts));
    proof {
        assert(doc.array_tables@ =~= old_at.update(p as int, (an, ts)));
        assert(arrays_model(doc.array_tables@) =~= replace_value(
            arrays_model(old_at),
            name@,
            tables_model(ts@),
        ));
        assert(skeys(doc.array_tables@) =~= skeys(old_at));
        lemma_doc_model(doc);
        let m = doc.model();
        assert forall|i: int, j: int|
            0 <= i < m.array_tables.len() && 0 <= j < m.array_tables[i].1.len() implies twf(
            #[trigger] m.array_tables[i].1[j],
        ) by {
            if i != p {
                assert(m.array_tables[i] == old_m.array_tables[i]);
            } else if j < old_ts.len() - 1 {
                assert(m.array_tables[i].1[j] == old_m.array_tables[i].1[j]);
            }
        }
        lemma_replace_value_keys(arrays_model(old_at), name@, tables_model(ts@));
    }
    Ok(())
}

/// Apply a `key = value` line.
fn apply_pair(doc: &mut Document, cursor: &Cursor, line: &Vec<char>, line_no: usize) -> (r: Result<
    (),
    TomlError,
>)
    requires
        old(doc).wf(),
        cursor_ok(old(doc).model(), cursor.model()),
    ensures
        match r {
            Ok(()) => pair_step(old(doc).model(), cursor.model(), line@, line_no as nat) == Ok::<
                (DocModel, CursorModel),
                (nat, Seq<char>),
            >((final(doc).model(), cursor.model())) && final(doc).wf() && cursor_ok(
                final(doc).model(),
                cursor.model(),
            ),
            Err(e) => pair_step(old(doc).model(), cursor.model(), line@, line_no as nat) == Err::<
                (DocModel, CursorModel),
                (nat, Seq<char>),
            >((line_no as nat, e.message@)) && e.line == line_no,
        },
{
    let (key, value) = parse_pair(line, line_no, line.len())?;
    match cursor {
        Cursor::Root => {
            proof {
                lemma_doc_model(doc);
            }
            insert_new_key(&mut doc.root, key, value, line_no)?;
            proof {
                lemma_doc_model(doc);
            }
            Ok(())
        },
        Cursor::Table(name) => insert_into_table(doc, name, key, value, line_no),
        Cursor::ArrayTable(name) => insert_into_array_table(doc, name, key, value, line_no),
    }
}

/// Apply one input line to the document under construction.
fn apply_line(doc: &mut Document, cursor: &mut Cursor, raw: &Vec<char>, line_no: usize) -> (r:
    Result<(), TomlError>)
    requires
        old(doc).wf(),
        cursor_ok(old(doc).model(), old(cursor).model()),
    ensures
        match r {
            Ok(()) => step(old(doc).model(), old(cursor).model(), raw@, line_no as nat) == Ok::<
                (DocModel, CursorModel),
                (nat, Seq<char>),
            >((final(doc).model(), final(cursor).model())) && final(doc).wf() && cursor_ok(
                final(doc).model(),
                final(cursor).model(),
            ),
            Err(e) => step(old(doc).model(), old(cursor).model(), raw@, line_no as nat) == Err::<
                (DocModel, CursorModel),
                (nat, Seq<char>),
            >((line_no as nat, e.message@)) && e.line == line_no,
        },
{
    let sc = strip_comment(raw);
    let line = trimmed(&sc, 0, sc.len());
    assert(sc@.subrange(0, sc@.len() as int) == sc@);
    let n = line.len();
    if n == 0 {
        return Ok(());
    }
    if n >= 2 && line[0] == '[' && line[1] == '[' {
        let name = apply_array_header(doc, &line, line_no)?;
        *cursor = Cursor::ArrayTable(name);
        return Ok(());
    }
    if line[0] == '[' {
        let name = apply_table_header(doc, &line, line_no)?;
        *cursor = Cursor::Table(name);
        return Ok(());
    }
    apply_pair(doc, cursor, &line, line_no)
}

/// Parse `input` as a TOML document restricted to the package-format subset.
///
/// Returns a [`TomlError`] (with a line number) on any syntax outside the
/// subset: an unterminated string, a malformed header, a value kind the format
/// does not use, or a duplicate `[table]` header.
pub fn parse(input: &str) -> (r: Result<Document, TomlError>)
    ensures
        match r {
            Ok(d) => parse_spec(input@) == Ok::<DocModel, (nat, Seq<char>)>(d.model()) && d.wf(),
            Err(e) => parse_spec(input@) == Err::<DocModel, (nat, Seq<char>)>(
                (e.line as nat, e.message@),
            ),
        },
{
    let chars = chars_of(input);
    let lines = split_lines(&chars);
    let mut doc = Document { root: Vec::new(), tables: Vec::new(), array_tables: Vec::new() };
    let mut cursor = Cursor::Root;
    proof {
        lemma_doc_model(&doc);
        assert(doc.model().root =~= Seq::<(Seq<char>, VModel)>::empty());
        assert(doc.model().tables =~= Seq::<(Seq<char>, TModel)>::empty());
        assert(doc.model().array_tables =~= Seq::<(Seq<char>, Seq<TModel>)>::empty());
        assert(skeys(doc.root@) =~= Seq::<Seq<char>>::empty());
        assert(skeys(doc.tables@) =~= Seq::<Seq<char>>::empty());
        assert(skeys(doc.array_tables@) =~= Seq::<Seq<char>>::empty());
    }
    let mut i: usize = 0;
    while i < lines.len()
        invariant
            i <= lines@.len(),
            seqs(lines@) == lines_of(input@),
            doc.wf(),
            cursor_ok(doc.model(), cursor.model()),
            parse_spec(input@) == parse_from(seqs(lines@), i as nat, doc.model(), cursor.model()),
        decreases lines.len() - i,
    {
        assert(seqs(lines@)[i as int] == lines@[i as int]@);
        apply_line(&mut doc, &mut cursor, &lines[i], i + 1)?;
        i = i + 1;
    }
    Ok(doc)
}

/// How one character is written inside a double-quoted value.
pub open spec fn escape_char(c: char) -> Seq<char> {
    if c == '"' {
        seq!['\\', '"']
    } else if c == '\\' {
        seq!['\\', '\\']
    } else {
        seq![c]
    }
}

/// `s` with every `"` and `\` escaped by a backslash.
pub open spec fn escape(s: Seq<char>) -> Seq<char>
    decreases s.len(),
{
    if s.len() == 0 {
        seq![]
    } else {
        escape(s.drop_last()) + escape_char(s.last())
    }
}

/// Escape a string for emission inside a double-quoted TOML value: a `"` or
/// `\` gets a backslash in front.
pub fn escape_string(value: &str) -> (r: String)
    ensures
        r@ == escape(value@),
{
    let v = chars_of(value);
    let mut out = String::new();
    let mut i: usize = 0;
    while i < v.len()
        invariant
            i <= v@.len(),
            v@ == value@,
            out@ == escape(v@.take(i as int)),
        decreases v.len() - i,
    {
        let ch = v[i];
        assert(v@.take(i + 1).drop_last() == v@.take(i as int));
        if ch == '"' {
            out.push('\\');
            out.push('"');
        } else if ch == '\\' {
            out.push('\\');
            out.push('\\');
        } else {
            out.push(ch);
        }
        assert(out@ == escape(v@.take(i as int)) + escape_char(ch));
        i = i + 1;
    }
    assert(v@.take(v@.len() as int) == v@);
    out
}


/// Escaping distributes over concatenation.
pub proof fn lemma_escape_concat(a: Seq<char>, b: Seq<char>)
    ensures
        escape(a + b) == escape(a) + escape(b),
    decreases b.len(),
{
    if b.len() == 0 {
        assert(a + b =~= a);
        assert(escape(a) + escape(b) =~= escape(a));
    } else {
        assert((a + b).drop_last() =~= a + b.drop_last());
        assert((a + b).last() == b.last());
        lemma_escape_concat(a, b.drop_last());
        assert(escape(a + b) =~= escape(a) + escape(b));
    }
}

/// Escaping from the front: the first character's escape, then the rest.
pub proof fn lemma_escape_front(s: Seq<char>)
    requires
        s.len() > 0,
    ensures
        escape(s) == escape_char(s[0]) + escape(s.drop_first()),
{
    assert(s =~= seq![s[0]] + s.drop_first());
    lemma_escape_concat(seq![s[0]], s.drop_first());
    let one = seq![s[0]];
    assert(one.drop_last() =~= Seq::<char>::empty());
    assert(one.last() == s[0]);
    assert(escape(one.drop_last()) == Seq::<char>::empty());
    assert(escape(one) =~= escape_char(s[0]));
}

/// The escaped text holds a line break exactly where the text does.
pub proof fn lemma_escape_no_newline(s: Seq<char>)
    requires
        forall|i: int| 0 <= i < s.len() ==> #[trigger] s[i] != '\n',
    ensures
        forall|i: int| 0 <= i < escape(s).len() ==> #[trigger] escape(s)[i] != '\n',
    decreases s.len(),
{
    if s.len() > 0 {
        assert forall|i: int| 0 <= i < s.drop_last().len() implies #[trigger] s.drop_last()[i] != '\n' by {
            assert(s.drop_last()[i] == s[i]);
        }
        lemma_escape_no_newline(s.drop_last());
        let e = escape(s.drop_last());
        let c = escape_char(s.last());
        assert(s[s.len() - 1] != '\n');
        assert forall|i: int| 0 <= i < escape(s).len() implies #[trigger] escape(s)[i] != '\n' by {
            if i >= e.len() {
                assert(escape(s)[i] == c[i - e.len()]);
            } else {
                assert(escape(s)[i] == e[i]);
            }
        }
    }
}

/// `t` holds `e` from position `o` on.
pub open spec fn holds_at(t: Seq<char>, o: int, e: Seq<char>) -> bool {
    0 <= o && o + e.len() <= t.len() && forall|k: int| 0 <= k < e.len() ==> #[trigger] t[o + k] == e[k]
}

/// Reading an escaped string followed by a quote gives back the string.
pub proof fn lemma_read_escaped(t: Seq<char>, o: int, s: Seq<char>, acc: Seq<char>)
    requires
        holds_at(t, o, escape(s)),
        o + escape(s).len() < t.len(),
        t[o + escape(s).len()] == '"',
    ensures
        read_str(t, o as nat, acc) == Some((acc + s, (o + escape(s).len()) as nat)),
    decreases s.len(),
{
    if s.len() == 0 {
        assert(acc + s =~= acc);
    } else {
        lemma_escape_front(s);
        let c = s[0];
        let ec = escape_char(c);
        let rest = s.drop_first();
        assert(holds_at(t, o + ec.len(), escape(rest))) by {
            assert forall|k: int| 0 <= k < escape(rest).len() implies #[trigger] t[o + ec.len() + k] == escape(rest)[k] by {
                assert(t[o + (ec.len() + k)] == escape(s)[ec.len() + k]);
            }
        }
        assert(t[o + 0] == escape(s)[0]);
        assert(acc.push(c) + rest =~= acc + s);
        if c == '"' || c == '\\' {
            assert(t[o + 1] == escape(s)[1]);
            lemma_read_escaped(t, o + 2, rest, acc.push(c));
        } else {
            lemma_read_escaped(t, o + 1, rest, acc.push(c));
        }
    }
}

/// Inside a string, no comment starts within an escaped string.
pub proof fn lemma_cut_escaped(t: Seq<char>, o: int, s: Seq<char>)
    requires
        holds_at(t, o, escape(s)),
    ensures
        comment_cut(t, o as nat, true) == comment_cut(t, (o + escape(s).len()) as nat, true),
    decreases s.len(),
{
    if s.len() > 0 {
        lemma_escape_front(s);
        let c = s[0];
        let ec = escape_char(c);
        let rest = s.drop_first();
        assert(holds_at(t, o + ec.len(), escape(rest))) by {
            assert forall|k: int| 0 <= k < escape(rest).len() implies #[trigger] t[o + ec.len() + k] == escape(rest)[k] by {
                assert(t[o + (ec.len() + k)] == escape(s)[ec.len() + k]);
            }
        }
        assert(t[o + 0] == escape(s)[0]);
        if c == '"' || c == '\\' {
            lemma_cut_escaped(t, o + 2, rest);
        } else {
            lemma_cut_escaped(t, o + 1, rest);
        }
    }
}

/// Inside a string, splitting moves past an escaped string unchanged.
pub proof fn lemma_scan_escaped(
    t: Seq<char>,
    o: int,
    s: Seq<char>,
    depth: nat,
    start: nat,
    parts: Seq<Seq<char>>,
)
    requires
        holds_at(t, o, escape(s)),
    ensures
        split_scan(t, o as nat, depth, true, start, parts) == split_scan(
            t,
            (o + escape(s).len()) as nat,
            depth,
            true,
            start,
            parts,
        ),
    decreases s.len(),
{
    if s.len() > 0 {
        lemma_escape_front(s);
        let c = s[0];
        let ec = escape_char(c);
        let rest = s.drop_first();
        assert(holds_at(t, o + ec.len(), escape(rest))) by {
            assert forall|k: int| 0 <= k < escape(rest).len() implies #[trigger] t[o + ec.len() + k] == escape(rest)[k] by {
                assert(t[o + (ec.len() + k)] == escape(s)[ec.len() + k]);
            }
        }
        assert(t[o + 0] == escape(s)[0]);
        if c == '"' || c == '\\' {
            lemma_scan_escaped(t, o + 2, rest, depth, start, parts);
        } else {
            lemma_scan_escaped(t, o + 1, rest, depth, start, parts);
        }
    }
}

/// Round trip: a quoted escaped string reads back as the string itself,
/// whatever it holds.
pub proof fn law_escaped_string_reads_back(s: Seq<char>, d: nat)
    ensures
        value_d(seq!['"'] + escape(s) + seq!['"'], d) == Ok::<VModel, Seq<char>>(VModel::Str(s)),
{
    let t = seq!['"'] + escape(s) + seq!['"'];
    let e = escape(s);
    assert(holds_at(t, 1, e)) by {
        assert forall|k: int| 0 <= k < e.len() implies #[trigger] t[1 + k] == e[k] by {}
    }
    lemma_read_escaped(t, 1, s, seq![]);
    assert(Seq::<char>::empty() + s =~= s);
    assert(t.skip(e.len() + 2int) =~= Seq::<char>::empty());
    assert(trim(Seq::<char>::empty()).len() == 0);
}

} // verus!
