//! Reading a lockfile's canonical text back gives the lockfile: every
//! package in name order, with one-line strings and dependency lists in
//! name order, reads back as written.

use vstd::prelude::*;
use crate::assoc::{insert_sorted, keys, lemma_lower_bound, sorted};
use crate::lockfile::{
    LErr, LockModel, PackageModel, SourceModel, banner, join_quoted, lemma_sort_by_name_id, lockfile_from_doc,
    lockfile_spec, lockfile_text, package_spec, package_text, packages_spec, packages_text, quoted, source_spec,
    wire,
};
use crate::readback::{
    bare_key, clean_line, lemma_bare_key, lemma_comment_cut_skip, lemma_find_char_concat,
    lemma_insert_first, lemma_insert_last, lemma_lines_of_unlines, lemma_parse_step, lemma_split_scan_skip,
    lemma_step_array_header, lemma_step_blank, lemma_step_str, lemma_str_line, lemma_str_line_text,
    lemma_trim_id, lemma_trim_pad, lemma_unlines_concat, lemma_unlines_one, lemma_unlines_push, lemma_value_at,
    plain, str_line, unlines,
};
use crate::text::{decimal, find_char, is_ws, lemma_find_char, lemma_seq_lt_asym, seq_lt, trim};
use crate::toml::{
    CursorModel, DocModel, TModel, VModel, array_d, comment_cut, cursor_table, elems_d, empty_doc, lines_of,
    pair_d, parse_from, push_array_table, set_cursor_table, split_scan, split_top_level_spec, step,
    strip_comment_spec, value_d, holds_at, lemma_cut_escaped, lemma_scan_escaped, lemma_escape_no_newline,
    law_escaped_string_reads_back, escape,
};
use crate::resolve::{lemma_sort_names_id, names_ordered, sort_names};

verus! {

/// Quoted strings joined by `, `, built from the front.
pub open spec fn join_front(ds: Seq<Seq<char>>) -> Seq<char>
    decreases ds.len(),
{
    if ds.len() == 0 {
        seq![]
    } else if ds.len() == 1 {
        quoted(ds[0])
    } else {
        quoted(ds[0]) + ", "@ + join_front(ds.drop_first())
    }
}

/// Joining from the back and from the front agree.
pub proof fn lemma_join_front(ds: Seq<Seq<char>>)
    ensures
        join_quoted(ds) == join_front(ds),
    decreases ds.len(),
{
    if ds.len() >= 2 {
        lemma_join_front(ds.drop_last());
        lemma_join_front(ds.drop_first());
        lemma_join_front(ds.drop_first().drop_last());
        assert(ds.drop_last().drop_first() =~= ds.drop_first().drop_last());
        assert(ds.drop_last()[0] == ds[0]);
        assert(ds.drop_first().last() == ds.last());
        if ds.len() == 2 {
            assert(ds.drop_last().len() == 1);
            assert(ds.drop_first().len() == 1);
            assert(ds.drop_first()[0] == ds.last());
            assert(join_quoted(ds.drop_last()) == quoted(ds[0]));
            assert(join_front(ds.drop_first()) == quoted(ds.last()));
        } else {
            assert(join_front(ds.drop_last()) == quoted(ds[0]) + ", "@ + join_front(ds.drop_last().drop_first()));
            assert(join_quoted(ds.drop_first()) == join_quoted(ds.drop_first().drop_last()) + ", "@ + quoted(
                ds.last(),
            ));
        }
        assert(join_quoted(ds) =~= join_front(ds));
    } else if ds.len() == 1 {
        assert(ds.drop_last().len() == 0);
    }
}

/// A quoted string reads as that string.
pub proof fn lemma_quoted_value(s: Seq<char>, d: nat)
    ensures
        value_d(quoted(s), d) == Ok::<VModel, Seq<char>>(VModel::Str(s)),
{
    lemma_quoted_plain(s);
    law_escaped_string_reads_back(s, d);
}

/// A quote toggles the string state of the scan.
proof fn lemma_scan_quote(t: Seq<char>, i: nat, in_string: bool, start: nat, parts: Seq<Seq<char>>)
    requires
        i < t.len(),
        t[i as int] == '"',
    ensures
        split_scan(t, i, 0, in_string, start, parts) == split_scan(t, i + 1, 0, !in_string, start, parts),
{
}

/// A top-level comma ends a piece.
proof fn lemma_scan_comma(t: Seq<char>, i: nat, start: nat, parts: Seq<Seq<char>>)
    requires
        i < t.len(),
        t[i as int] == ',',
    ensures
        split_scan(t, i, 0, false, start, parts) == split_scan(
            t,
            i + 1,
            0,
            false,
            i + 1,
            parts.push(t.subrange(start as int, i as int)),
        ),
{
}

/// At the end the trimmed rest is the last piece.
proof fn lemma_scan_end(t: Seq<char>, start: nat, parts: Seq<Seq<char>>)
    requires
        start <= t.len(),
        trim(t.subrange(start as int, t.len() as int)).len() > 0,
    ensures
        split_scan(t, t.len(), 0, false, start, parts) == Ok::<Seq<Seq<char>>, Seq<char>>(
            parts.push(trim(t.subrange(start as int, t.len() as int))),
        ),
{
}

/// Scanning one quoted string moves past it without splitting.
proof fn lemma_scan_one(t: Seq<char>, o: int, d0: Seq<char>, start: nat, parts: Seq<Seq<char>>)
    requires
        0 <= o,
        o + escape(d0).len() + 2 <= t.len(),
        t[o] == '"',
        t[o + escape(d0).len() + 1] == '"',
        holds_at(t, o + 1, escape(d0)),
    ensures
        split_scan(t, o as nat, 0, false, start, parts) == split_scan(
            t,
            (o + escape(d0).len() + 2) as nat,
            0,
            false,
            start,
            parts,
        ),
{
    lemma_scan_quote(t, o as nat, false, start, parts);
    lemma_scan_escaped(t, o + 1, d0, 0, start, parts);
    lemma_scan_quote(t, (o + 1 + escape(d0).len()) as nat, true, start, parts);
}

/// The quoted form of a string, character by character.
proof fn lemma_quoted_plain(s: Seq<char>)
    ensures
        quoted(s) == seq!['"'] + escape(s) + seq!['"'],
        quoted(s).len() == escape(s).len() + 2,
        quoted(s)[0] == '"',
        quoted(s)[escape(s).len() + 1int] == '"',
        forall|k: int| 0 <= k < escape(s).len() ==> #[trigger] quoted(s)[1 + k] == escape(s)[k],
{
    reveal_strlit("\"");
    let q = quoted(s);
    assert(q =~= seq!['"'] + escape(s) + seq!['"']);
}

/// Whitespace then a quoted string trims to the quoted string.
proof fn lemma_trim_quoted(pre: Seq<char>, d0: Seq<char>)
    requires
        forall|k: int| 0 <= k < pre.len() ==> is_ws(#[trigger] pre[k]),
    ensures
        trim(pre + quoted(d0)) == quoted(d0),
        trim(quoted(d0)) == quoted(d0),
{
    lemma_quoted_plain(d0);
    let q0 = quoted(d0);
    assert(q0.last() == '"');
    assert(pre + q0 =~= pre + q0 + Seq::<char>::empty());
    lemma_trim_pad(pre, q0, seq![]);
    lemma_trim_id(q0);
}

/// Scanning joined quoted strings for top-level commas finds one piece per
/// string, each trimming to the quoted string.
#[verifier::rlimit(50)]
pub proof fn lemma_scan_quoted(
    t: Seq<char>,
    o: int,
    ds: Seq<Seq<char>>,
    start: int,
    parts: Seq<Seq<char>>,
)
    requires
        ds.len() >= 1,
        forall|i: int| 0 <= i < ds.len() ==> plain(#[trigger] ds[i]),
        0 <= start <= o <= t.len(),
        t.skip(o) == join_front(ds),
        forall|k: int| start <= k < o ==> is_ws(#[trigger] t[k]),
    ensures
        split_scan(t, o as nat, 0, false, start as nat, parts) is Ok,
        split_scan(t, o as nat, 0, false, start as nat, parts)->Ok_0.len() == parts.len() + ds.len(),
        split_scan(t, o as nat, 0, false, start as nat, parts)->Ok_0.take(parts.len() as int) == parts,
        forall|i: int|
            0 <= i < ds.len() ==> trim(
                #[trigger] split_scan(t, o as nat, 0, false, start as nat, parts)->Ok_0[parts.len() + i],
            ) == quoted(ds[i]),
    decreases ds.len(),
{
    reveal_strlit(", ");
    let d0 = ds[0];
    lemma_quoted_plain(d0);
    let q0 = quoted(d0);
    let ql = q0.len() as int;
    let el = escape(d0).len() as int;
    let j = join_front(ds);
    let sp = start as nat;
    assert(j.len() >= ql) by {
        if ds.len() > 1 {
            assert(j == q0 + ", "@ + join_front(ds.drop_first()));
        }
    }
    assert forall|k: int| 0 <= k < ql implies #[trigger] t[o + k] == q0[k] by {
        assert(t.skip(o)[k] == t[o + k]);
        if ds.len() > 1 {
            assert(j == q0 + ", "@ + join_front(ds.drop_first()));
        }
    }
    assert(t[o + 0] == q0[0]);
    assert(t[o + (el + 1)] == q0[el + 1]);
    assert(holds_at(t, o + 1, escape(d0))) by {
        assert forall|k: int| 0 <= k < el implies #[trigger] t[o + 1 + k] == escape(d0)[k] by {
            assert(t[o + (1 + k)] == q0[1 + k]);
        }
    }
    lemma_scan_one(t, o, d0, sp, parts);
    let pre = t.subrange(start, o);
    assert forall|k: int| 0 <= k < pre.len() implies is_ws(#[trigger] pre[k]) by {
        assert(pre[k] == t[start + k]);
    }
    lemma_trim_quoted(pre, d0);
    let piece = t.subrange(start, o + ql);
    assert(piece =~= pre + q0) by {
        assert forall|k: int| 0 <= k < piece.len() implies piece[k] == (pre + q0)[k] by {
            if k >= pre.len() {
                assert(piece[k] == t[start + k]);
                assert(t[o + (k - pre.len())] == q0[k - pre.len()]);
            }
        }
    }
    if ds.len() == 1 {
        assert(j == q0);
        assert(t.len() == o + ql);
        lemma_scan_end(t, sp, parts);
        let r = parts.push(q0);
        assert(split_scan(t, (o + ql) as nat, 0, false, sp, parts) == Ok::<Seq<Seq<char>>, Seq<char>>(r));
        assert(r.take(parts.len() as int) =~= parts);
        assert(r[parts.len() as int] == q0);
    } else {
        let rest = ds.drop_first();
        assert(j == q0 + ", "@ + join_front(rest));
        assert(t[o + ql] == ',') by {
            assert(t.skip(o)[ql] == t[o + ql]);
        }
        assert(t[o + ql + 1] == ' ') by {
            assert(t.skip(o)[ql + 1] == t[o + ql + 1]);
        }
        let parts2 = parts.push(piece);
        lemma_scan_comma(t, (o + ql) as nat, sp, parts);
        lemma_split_scan_skip(t, (o + ql + 1) as nat, (o + ql + 2) as nat, 0, false, (o + ql + 1) as nat, parts2);
        assert(t.skip(o + ql + 2) =~= join_front(rest)) by {
            assert forall|k: int| 0 <= k < t.skip(o + ql + 2).len() implies t.skip(o + ql + 2)[k]
                == join_front(rest)[k] by {
                assert(t.skip(o)[ql + 2 + k] == t[o + ql + 2 + k]);
            }
        }
        assert forall|i: int| 0 <= i < rest.len() implies plain(#[trigger] rest[i]) by {
            assert(rest[i] == ds[i + 1]);
        }
        lemma_scan_quoted(t, o + ql + 2, rest, o + ql + 1, parts2);
        let r = split_scan(t, (o + ql + 2) as nat, 0, false, (o + ql + 1) as nat, parts2)->Ok_0;
        assert(r.take(parts.len() as int) =~= parts) by {
            assert forall|k: int| 0 <= k < parts.len() implies r[k] == parts[k] by {
                assert(r.take(parts2.len() as int)[k] == parts2[k]);
            }
        }
        assert(r[parts.len() as int] == piece) by {
            assert(r.take(parts2.len() as int)[parts.len() as int] == parts2[parts.len() as int]);
        }
        assert forall|i: int| 0 <= i < ds.len() implies trim(#[trigger] r[parts.len() + i]) == quoted(ds[i]) by {
            if i > 0 {
                assert(trim(r[parts2.len() + (i - 1)]) == quoted(rest[i - 1]));
                assert(rest[i - 1] == ds[i]);
            }
        }
    }
}

// ---------------------------------------------------------------------------
// The lines of a lockfile's text.
// ---------------------------------------------------------------------------

/// The `dependencies = [...]` line.
pub open spec fn deps_line(ds: Seq<Seq<char>>) -> Seq<char> {
    "dependencies = ["@ + join_quoted(ds) + "]"@
}

/// The lines of one `[[package]]` block, starting with its blank line.
pub open spec fn package_lines(p: PackageModel) -> Seq<Seq<char>> {
    seq![
        seq![],
        "[[package]]"@,
        str_line("name"@, p.name),
        str_line("version"@, p.version),
        str_line("source"@, wire(p.source)),
        str_line("checksum"@, p.checksum),
        deps_line(p.dependencies),
    ]
}

/// The lines of all package blocks, in order.
pub open spec fn packages_lines(ps: Seq<PackageModel>) -> Seq<Seq<char>>
    decreases ps.len(),
{
    if ps.len() == 0 {
        seq![]
    } else {
        packages_lines(ps.drop_last()) + package_lines(ps.last())
    }
}

/// The two banner lines.
pub open spec fn banner_lines() -> Seq<Seq<char>> {
    seq![
        "# This file is @generated by tuo."@,
        "# It is machine-maintained; edit tdg.toml and re-resolve instead."@,
    ]
}

/// The lines of a lockfile's canonical text.
pub open spec fn lock_lines(l: LockModel) -> Seq<Seq<char>> {
    banner_lines() + seq!["version = "@ + decimal(l.version as nat)] + packages_lines(l.packages)
}

/// A source whose wire form holds no line break.
pub open spec fn plain_source(s: SourceModel) -> bool {
    match s {
        SourceModel::Root => true,
        SourceModel::Path(p) => plain(p),
    }
}

/// A package record whose strings hold no line break and whose dependency
/// names are in name order.
pub open spec fn plain_package(p: PackageModel) -> bool {
    &&& plain(p.name)
    &&& plain(p.version)
    &&& plain_source(p.source)
    &&& plain(p.checksum)
    &&& forall|i: int| 0 <= i < p.dependencies.len() ==> plain(#[trigger] p.dependencies[i])
    &&& names_ordered(p.dependencies)
}

/// A lockfile whose canonical text reads back as itself: the current format
/// version, packages in name order, one-line strings, and dependency
/// names in name order.
pub open spec fn readable_lock(l: LockModel) -> bool {
    &&& l.version == crate::lockfile::LOCKFILE_VERSION
    &&& crate::lockfile::name_ordered(l.packages)
    &&& forall|i: int| 0 <= i < l.packages.len() ==> plain_package(#[trigger] l.packages[i])
}

/// A plain source has a plain wire form.
pub proof fn lemma_wire_plain(s: SourceModel)
    requires
        plain_source(s),
    ensures
        plain(wire(s)),
{
    reveal_strlit("root");
    reveal_strlit("path+");
    if let SourceModel::Path(p) = s {
        assert forall|i: int| 0 <= i < wire(s).len() implies #[trigger] wire(s)[i] != '\n' by {
            if i >= 5 {
                assert(wire(s)[i] == p[i - 5]);
            }
        }
    }
}

/// A package block's text is its lines, joined.
proof fn lemma_package_text_lines(p: PackageModel)
    requires
        plain_package(p),
    ensures
        package_text(p) == unlines(package_lines(p)),
{
    reveal_strlit("\n[[package]]\n");
    reveal_strlit("[[package]]");
    reveal_strlit("name = \"");
    reveal_strlit("name");
    reveal_strlit(" = \"");
    reveal_strlit("version = \"");
    reveal_strlit("version");
    reveal_strlit("source = \"");
    reveal_strlit("source");
    reveal_strlit("checksum = \"");
    reveal_strlit("checksum");
    reveal_strlit("dependencies = [");
    reveal_strlit("]\n");
    reveal_strlit("]");
    lemma_wire_plain(p.source);
    lemma_sort_names_id(p.dependencies);
    let l0 = Seq::<char>::empty();
    let l1 = "[[package]]"@;
    let l2 = str_line("name"@, p.name);
    let l3 = str_line("version"@, p.version);
    let l4 = str_line("source"@, wire(p.source));
    let l5 = str_line("checksum"@, p.checksum);
    let l6 = deps_line(p.dependencies);
    let x1 = "\n[[package]]\n"@;
    assert(x1 =~= (l0 + seq!['\n']) + (l1 + seq!['\n']));
    let x2 = x1 + "name = \""@ + escape(p.name) + "\"\n"@;
    assert("name = \""@ =~= "name"@ + " = \""@);
    lemma_str_line_text("name = \""@, "name"@, p.name, x1);
    let x3 = x2 + "version = \""@ + escape(p.version) + "\"\n"@;
    assert("version = \""@ =~= "version"@ + " = \""@);
    lemma_str_line_text("version = \""@, "version"@, p.version, x2);
    let x4 = x3 + "source = \""@ + escape(wire(p.source)) + "\"\n"@;
    assert("source = \""@ =~= "source"@ + " = \""@);
    lemma_str_line_text("source = \""@, "source"@, wire(p.source), x3);
    let x5 = x4 + "checksum = \""@ + escape(p.checksum) + "\"\n"@;
    assert("checksum = \""@ =~= "checksum"@ + " = \""@);
    lemma_str_line_text("checksum = \""@, "checksum"@, p.checksum, x4);
    let x6 = x5 + "dependencies = ["@ + join_quoted(p.dependencies) + "]\n"@;
    assert(x6 =~= x5 + (l6 + seq!['\n']));
    assert(package_text(p) == x6);
    let h0 = seq![l0];
    lemma_unlines_one(l0);
    lemma_unlines_push(h0, l1);
    lemma_unlines_push(h0.push(l1), l2);
    lemma_unlines_push(h0.push(l1).push(l2), l3);
    lemma_unlines_push(h0.push(l1).push(l2).push(l3), l4);
    lemma_unlines_push(h0.push(l1).push(l2).push(l3).push(l4), l5);
    lemma_unlines_push(h0.push(l1).push(l2).push(l3).push(l4).push(l5), l6);
    assert(package_lines(p) =~= h0.push(l1).push(l2).push(l3).push(l4).push(l5).push(l6));
}

/// All package blocks' text is their lines, joined.
proof fn lemma_packages_text_lines(ps: Seq<PackageModel>)
    requires
        forall|i: int| 0 <= i < ps.len() ==> plain_package(#[trigger] ps[i]),
    ensures
        packages_text(ps) == unlines(packages_lines(ps)),
    decreases ps.len(),
{
    if ps.len() > 0 {
        let init = ps.drop_last();
        assert forall|i: int| 0 <= i < init.len() implies plain_package(#[trigger] init[i]) by {
            assert(init[i] == ps[i]);
        }
        lemma_packages_text_lines(init);
        assert(plain_package(ps[ps.len() - 1]));
        lemma_package_text_lines(ps.last());
        lemma_unlines_concat(packages_lines(init), package_lines(ps.last()));
    } else {
        assert(unlines(packages_lines(ps)) =~= Seq::<char>::empty());
    }
}

/// A lockfile's canonical text is its lines, joined.
proof fn lemma_lock_text_lines(l: LockModel)
    requires
        forall|i: int| 0 <= i < l.packages.len() ==> plain_package(#[trigger] l.packages[i]),
    ensures
        lockfile_text(l) == unlines(lock_lines(l)),
{
    reveal_strlit("# This file is @generated by tuo.\n");
    reveal_strlit("# This file is @generated by tuo.");
    reveal_strlit("# It is machine-maintained; edit tdg.toml and re-resolve instead.\n");
    reveal_strlit("# It is machine-maintained; edit tdg.toml and re-resolve instead.");
    reveal_strlit("\n");
    let b = banner_lines();
    let v = "version = "@ + decimal(l.version as nat);
    lemma_unlines_one(b[0]);
    lemma_unlines_push(seq![b[0]], b[1]);
    assert(seq![b[0]].push(b[1]) =~= b);
    assert(banner() =~= unlines(b));
    lemma_unlines_push(b, v);
    lemma_packages_text_lines(l.packages);
    assert(lock_lines(l) =~= b.push(v) + packages_lines(l.packages));
    lemma_unlines_concat(b.push(v), packages_lines(l.packages));
    assert(lockfile_text(l) =~= unlines(b) + (v + seq!['\n']) + packages_text(l.packages));
}
/// Joined quoted one-line strings start and end with a quote and hold no line
/// break.
pub proof fn lemma_join_front_shape(ds: Seq<Seq<char>>)
    requires
        ds.len() >= 1,
        forall|i: int| 0 <= i < ds.len() ==> plain(#[trigger] ds[i]),
    ensures
        join_front(ds).len() >= 2,
        join_front(ds)[0] == '"',
        join_front(ds).last() == '"',
        forall|k: int| 0 <= k < join_front(ds).len() ==> #[trigger] join_front(ds)[k] != '\n',
    decreases ds.len(),
{
    reveal_strlit(", ");
    let d0 = ds[0];
    lemma_quoted_plain(d0);
    assert(plain(d0));
    lemma_escape_no_newline(d0);
    let q0 = quoted(d0);
    let j = join_front(ds);
    assert forall|k: int| 0 <= k < q0.len() implies #[trigger] q0[k] != '\n' by {
        if 1 <= k < q0.len() - 1 {
            assert(q0[1 + (k - 1)] == escape(d0)[k - 1]);
        }
    }
    if ds.len() > 1 {
        let rest = ds.drop_first();
        assert forall|i: int| 0 <= i < rest.len() implies plain(#[trigger] rest[i]) by {
            assert(rest[i] == ds[i + 1]);
        }
        lemma_join_front_shape(rest);
        let jr = join_front(rest);
        assert(j == q0 + ", "@ + jr);
        assert(j[0] == q0[0]);
        assert(j.last() == jr.last());
        assert forall|k: int| 0 <= k < j.len() implies #[trigger] j[k] != '\n' by {
            if k < q0.len() {
                assert(j[k] == q0[k]);
            } else if k >= q0.len() + 2 {
                assert(j[k] == jr[k - q0.len() - 2]);
            }
        }
    } else {
        assert(j == q0);
    }
}

/// No comment starts inside joined quoted one-line strings.
pub proof fn lemma_comment_cut_join(t: Seq<char>, o: int, ds: Seq<Seq<char>>)
    requires
        ds.len() >= 1,
        forall|i: int| 0 <= i < ds.len() ==> plain(#[trigger] ds[i]),
        0 <= o,
        o + join_front(ds).len() <= t.len(),
        forall|k: int| 0 <= k < join_front(ds).len() ==> #[trigger] t[o + k] == join_front(ds)[k],
    ensures
        comment_cut(t, o as nat, false) == comment_cut(t, (o + join_front(ds).len()) as nat, false),
    decreases ds.len(),
{
    reveal_strlit(", ");
    let d0 = ds[0];
    lemma_quoted_plain(d0);
    let q0 = quoted(d0);
    let ql = q0.len() as int;
    let j = join_front(ds);
    assert forall|k: int| 0 <= k < ql implies #[trigger] t[o + k] == q0[k] by {
        if ds.len() > 1 {
            assert(j == q0 + ", "@ + join_front(ds.drop_first()));
        }
        assert(t[o + k] == j[k]);
    }
    assert(t[o + 0] == '"');
    let el = escape(d0).len() as int;
    assert(holds_at(t, o + 1, escape(d0))) by {
        assert forall|k: int| 0 <= k < el implies #[trigger] t[o + 1 + k] == escape(d0)[k] by {
            assert(t[o + (1 + k)] == q0[1 + k]);
        }
    }
    lemma_cut_escaped(t, o + 1, d0);
    assert(t[o + (el + 1)] == q0[el + 1]);
    if ds.len() > 1 {
        let rest = ds.drop_first();
        let jr = join_front(rest);
        assert(j == q0 + ", "@ + jr);
        assert(t[o + ql] == j[ql]);
        assert(t[o + (ql + 1)] == j[ql + 1]);
        lemma_comment_cut_skip(t, (o + ql) as nat, (o + ql + 2) as nat, false);
        assert forall|i: int| 0 <= i < rest.len() implies plain(#[trigger] rest[i]) by {
            assert(rest[i] == ds[i + 1]);
        }
        assert forall|k: int| 0 <= k < jr.len() implies #[trigger] t[(o + ql + 2) + k] == jr[k] by {
            assert(t[o + (ql + 2 + k)] == j[ql + 2 + k]);
        }
        lemma_comment_cut_join(t, o + ql + 2, rest);
    } else {
        assert(j == q0);
    }
}
/// Strings as array items.
pub open spec fn str_items(ds: Seq<Seq<char>>) -> Seq<VModel> {
    Seq::new(ds.len(), |i: int| VModel::Str(ds[i]))
}

/// Pieces that trim to quoted one-line strings read as those strings.
proof fn lemma_elems_quoted(pieces: Seq<Seq<char>>, ds: Seq<Seq<char>>, i: nat, d: nat)
    requires
        pieces.len() == ds.len(),
        d >= 1,
        i <= ds.len(),
        forall|k: int| 0 <= k < ds.len() ==> plain(#[trigger] ds[k]),
        forall|k: int| 0 <= k < ds.len() ==> trim(#[trigger] pieces[k]) == quoted(ds[k]),
    ensures
        elems_d(pieces, i, d, str_items(ds.take(i as int))) == Ok::<Seq<VModel>, Seq<char>>(str_items(ds)),
    decreases ds.len() - i,
{
    if i < ds.len() {
        assert(plain(ds[i as int]));
        lemma_quoted_value(ds[i as int], (d - 1) as nat);
        assert(trim(pieces[i as int]) == quoted(ds[i as int]));
        assert(str_items(ds.take(i as int)).push(VModel::Str(ds[i as int])) =~= str_items(ds.take(i + 1int)));
        lemma_elems_quoted(pieces, ds, i + 1, d);
    } else {
        assert(ds.take(i as int) =~= ds);
    }
}

/// The key `dependencies`.
proof fn lemma_deps_key()
    ensures
        bare_key("dependencies"@),
        "dependencies = ["@ == "dependencies"@ + " = ["@,
{
    reveal_strlit("dependencies");
    reveal_strlit("dependencies = [");
    reveal_strlit(" = [");
    assert("dependencies = ["@ =~= "dependencies"@ + " = ["@);
}

/// The `dependencies = [...]` line is clean, its own trimmed comment-free
/// form, and reads as the array of the dependency names.
pub proof fn lemma_deps_line(ds: Seq<Seq<char>>, d: nat)
    requires
        d >= 1,
        forall|i: int| 0 <= i < ds.len() ==> plain(#[trigger] ds[i]),
    ensures
        clean_line(deps_line(ds)),
        trim(strip_comment_spec(deps_line(ds))) == deps_line(ds),
        deps_line(ds)[0] == 'd',
        pair_d(deps_line(ds), d) == Ok::<(Seq<char>, VModel), Seq<char>>(
            ("dependencies"@, VModel::Arr(str_items(ds))),
        ),
{
    reveal_strlit("dependencies = [");
    reveal_strlit(" = [");
    reveal_strlit("]");
    reveal_strlit("[");
    lemma_deps_key();
    lemma_bare_key("dependencies"@);
    lemma_join_front(ds);
    let key = "dependencies"@;
    let j = join_quoted(ds);
    let pre = "dependencies = ["@;
    let line = deps_line(ds);
    let n = line.len() as int;
    assert(pre.len() == 16);
    assert(line == pre + j + "]"@);
    assert(n == 17 + j.len());
    assert forall|k: int| 0 <= k < 16 implies #[trigger] line[k] == pre[k] by {}
    assert forall|k: int| 0 <= k < j.len() implies #[trigger] line[16 + k] == j[k] by {}
    assert(line[n - 1] == ']');
    if ds.len() > 0 {
        lemma_join_front_shape(ds);
    } else {
        assert(j.len() == 0);
    }
    // Clean.
    assert forall|k: int| 0 <= k < n implies #[trigger] line[k] != '\n' by {
        if 16 <= k < n - 1 {
            assert(line[16 + (k - 16)] == j[k - 16]);
        }
    }
    // No comment.
    lemma_comment_cut_skip(line, 0, 16, false);
    if ds.len() > 0 {
        lemma_comment_cut_join(line, 16, ds);
    }
    assert(comment_cut(line, n as nat, false) == n);
    assert(line[n - 1] != '"' && line[n - 1] != '#');
    assert(comment_cut(line, (n - 1) as nat, false) == n);
    assert(comment_cut(line, 0, false) == n);
    assert(strip_comment_spec(line) =~= line);
    lemma_trim_id(line);
    // The key.
    let tail = " = ["@ + j + "]"@;
    assert(line =~= key + tail);
    lemma_find_char_concat(key, tail, '=');
    assert(tail[0] == ' ' && tail[1] == '=');
    lemma_find_char(tail, '=', 1);
    assert(line.take(13) =~= key + seq![' ']);
    lemma_trim_pad(seq![], key, seq![' ']);
    assert(Seq::<char>::empty() + key + seq![' '] =~= key + seq![' ']);
    // The value.
    let text = "["@ + j + "]"@;
    assert(pre.skip(14) =~= seq![' ', '[']);
    assert(line.skip(14) =~= pre.skip(14) + j + "]"@);
    assert(line.skip(14) =~= seq![' '] + text + Seq::<char>::empty());
    assert(text[0] == '[' && text.last() == ']');
    lemma_trim_pad(seq![' '], text, seq![]);
    assert(text.subrange(1, text.len() - 1) =~= j);
    if ds.len() == 0 {
        lemma_trim_id(j);
        assert(str_items(ds) =~= Seq::<VModel>::empty());
        assert(array_d(text, d) == Ok::<VModel, Seq<char>>(VModel::Arr(str_items(ds))));
    } else {
        lemma_trim_id(j);
        assert(j.skip(0) =~= join_front(ds));
        lemma_scan_quoted(j, 0, ds, 0, seq![]);
        let pieces = split_top_level_spec(j)->Ok_0;
        assert forall|k: int| 0 <= k < ds.len() implies trim(#[trigger] pieces[k]) == quoted(ds[k]) by {
            assert(trim(pieces[0 + k]) == quoted(ds[k]));
        }
        assert(ds.take(0) =~= Seq::<Seq<char>>::empty());
        assert(str_items(ds.take(0)) =~= Seq::<VModel>::empty());
        lemma_elems_quoted(pieces, ds, 0, d);
        assert(array_d(text, d) == Ok::<VModel, Seq<char>>(VModel::Arr(str_items(ds))));
    }
    assert(value_d(text, d) == Ok::<VModel, Seq<char>>(VModel::Arr(str_items(ds))));
}
/// A `dependencies = [...]` line for a new key lands in the cursor's table
/// as the array of the dependency names.
pub proof fn lemma_step_deps(doc: DocModel, c: CursorModel, ds: Seq<Seq<char>>, n: nat)
    requires
        forall|i: int| 0 <= i < ds.len() ==> plain(#[trigger] ds[i]),
        !keys(cursor_table(doc, c)).contains("dependencies"@),
    ensures
        clean_line(deps_line(ds)),
        step(doc, c, deps_line(ds), n) == Ok::<(DocModel, CursorModel), (nat, Seq<char>)>(
            (
                set_cursor_table(
                    doc,
                    c,
                    insert_sorted(cursor_table(doc, c), "dependencies"@, VModel::Arr(str_items(ds))),
                ),
                c,
            ),
        ),
{
    let line = deps_line(ds);
    reveal_strlit("dependencies = [");
    assert(line.len() >= 1) by {
        assert(line[0] == "dependencies = ["@[0]);
    }
    lemma_deps_line(ds, line.len());
}

/// A line that starts with `#` is a comment and changes nothing.
pub proof fn lemma_step_comment(doc: DocModel, c: CursorModel, l: Seq<char>, n: nat)
    requires
        l.len() > 0,
        l[0] == '#',
    ensures
        step(doc, c, l, n) == Ok::<(DocModel, CursorModel), (nat, Seq<char>)>((doc, c)),
{
    assert(comment_cut(l, 0, false) == 0);
    assert(strip_comment_spec(l) =~= Seq::<char>::empty());
    lemma_trim_id(seq![]);
}

/// The banner lines are clean comments.
proof fn lemma_banner_lines()
    ensures
        banner_lines().len() == 2,
        forall|i: int| 0 <= i < 2 ==> clean_line(#[trigger] banner_lines()[i]) && banner_lines()[i].len() > 0
            && banner_lines()[i][0] == '#',
{
    reveal_strlit("# This file is @generated by tuo.");
    reveal_strlit("# It is machine-maintained; edit tdg.toml and re-resolve instead.");
    let b = banner_lines();
    assert(clean_line(b[0]));
    assert(clean_line(b[1]));
}

/// The version line of format version 1.
proof fn lemma_version_line(d: nat)
    requires
        d >= 1,
    ensures
        "version = "@ + decimal(1) == "version = 1"@,
        clean_line("version = 1"@),
        trim(strip_comment_spec("version = 1"@)) == "version = 1"@,
        "version = 1"@[0] == 'v',
        pair_d("version = 1"@, d) == Ok::<(Seq<char>, VModel), Seq<char>>(("version"@, VModel::Int(1))),
{
    reveal_strlit("version = ");
    reveal_strlit("version = 1");
    reveal_strlit("version");
    reveal_strlit("1");
    let line = "version = 1"@;
    assert(decimal(1) =~= seq!['1']);
    assert("version = "@ + decimal(1) =~= line);
    assert(clean_line(line));
    lemma_comment_cut_skip(line, 0, line.len(), false);
    assert(strip_comment_spec(line) =~= line);
    lemma_trim_id(line);
    lemma_find_char(line, '=', 8);
    assert(line.take(8) =~= "version"@ + seq![' ']);
    lemma_trim_pad(seq![], "version"@, seq![' ']);
    assert(Seq::<char>::empty() + "version"@ + seq![' '] =~= "version"@ + seq![' ']);
    assert(bare_key("version"@));
    lemma_bare_key("version"@);
    assert(line.skip(9) =~= seq![' '] + seq!['1'] + Seq::<char>::empty());
    lemma_trim_pad(seq![' '], seq!['1'], seq![]);
    let one = seq!['1'];
    assert(one.drop_last() =~= Seq::<char>::empty());
    assert(crate::toml::digits_value(one.drop_last()) == 0);
    assert(one.last() == '1');
    assert(('1' as nat) - ('0' as nat) == 1);
    assert(crate::toml::digits_value(one) == 1);
    assert(crate::toml::parse_u64_spec(one) == Some(1u64));
    assert(value_d(one, d) == Ok::<VModel, Seq<char>>(VModel::Int(1)));
}

/// Where each package's lines stand among all package lines.
proof fn lemma_packages_lines_index(ps: Seq<PackageModel>)
    ensures
        packages_lines(ps).len() == 7 * ps.len(),
        forall|k: int, j: int|
            0 <= k < ps.len() && 0 <= j < 7 ==> #[trigger] packages_lines(ps)[7 * k + j] == package_lines(
                ps[k],
            )[j],
    decreases ps.len(),
{
    if ps.len() > 0 {
        let init = ps.drop_last();
        lemma_packages_lines_index(init);
        assert forall|k: int, j: int| 0 <= k < ps.len() && 0 <= j < 7 implies #[trigger] packages_lines(
            ps,
        )[7 * k + j] == package_lines(ps[k])[j] by {
            if k < init.len() {
                assert(packages_lines(init)[7 * k + j] == package_lines(init[k])[j]);
                assert(init[k] == ps[k]);
            } else {
                assert(k == init.len());
            }
        }
    }
}

/// The lines of a readable lockfile's text are clean, and reading the
/// text's lines gives them back.
proof fn lemma_lock_lines_clean(l: LockModel)
    requires
        readable_lock(l),
    ensures
        forall|i: int| 0 <= i < lock_lines(l).len() ==> clean_line(#[trigger] lock_lines(l)[i]),
        lines_of(lockfile_text(l)) == lock_lines(l),
        lock_lines(l).len() == 3 + 7 * l.packages.len(),
{
    reveal_strlit("[[package]]");
    reveal_strlit("name");
    reveal_strlit("version");
    reveal_strlit("source");
    reveal_strlit("checksum");
    let ls = lock_lines(l);
    let ps = l.packages;
    lemma_banner_lines();
    lemma_version_line(1);
    lemma_packages_lines_index(ps);
    assert(bare_key("name"@));
    assert(bare_key("version"@));
    assert(bare_key("source"@));
    assert(bare_key("checksum"@));
    assert(bare_key("package"@)) by {
        reveal_strlit("package");
    }
    assert forall|i: int| 0 <= i < ls.len() implies clean_line(#[trigger] ls[i]) by {
        if i >= 3 {
            let k = (i - 3) / 7;
            let j = (i - 3) % 7;
            assert(i - 3 == 7 * k + j);
            let p = ps[k];
            assert(plain_package(ps[k]));
            assert(ls[i] == packages_lines(ps)[7 * k + j]);
            assert(ls[i] == package_lines(p)[j]);
            if j == 0 {
                lemma_step_blank(crate::toml::empty_doc(), CursorModel::Root, 0);
            } else if j == 1 {
                lemma_step_array_header(crate::toml::empty_doc(), CursorModel::Root, "package"@, 0);
                assert("[[package]]"@ =~= "[["@ + "package"@ + "]]"@) by {
                    reveal_strlit("[[");
                    reveal_strlit("]]");
                    reveal_strlit("package");
                }
            } else if j == 2 {
                lemma_str_line("name"@, p.name, 0);
            } else if j == 3 {
                lemma_str_line("version"@, p.version, 0);
            } else if j == 4 {
                lemma_wire_plain(p.source);
                lemma_str_line("source"@, wire(p.source), 0);
            } else if j == 5 {
                lemma_str_line("checksum"@, p.checksum, 0);
            } else {
                lemma_deps_line(p.dependencies, 1);
            }
        } else if i == 2 {
            assert(ls[2] == "version = "@ + decimal(l.version as nat));
        } else {
            assert(ls[i] == banner_lines()[i]);
        }
    }
    lemma_lock_text_lines(l);
    lemma_lines_of_unlines(ls);
}
// ---------------------------------------------------------------------------
// The document a lockfile's text reads as.
// ---------------------------------------------------------------------------

/// The `[[package]]` table of one package, in key order.
pub open spec fn pkg_table(p: PackageModel) -> TModel {
    seq![
        ("checksum"@, VModel::Str(p.checksum)),
        ("dependencies"@, VModel::Arr(str_items(p.dependencies))),
        ("name"@, VModel::Str(p.name)),
        ("source"@, VModel::Str(wire(p.source))),
        ("version"@, VModel::Str(p.version)),
    ]
}

/// The root table: the format version.
pub open spec fn lock_root() -> TModel {
    seq![("version"@, VModel::Int(1))]
}

/// The tables of the first `k` packages.
pub open spec fn pkg_tables(ps: Seq<PackageModel>, k: int) -> Seq<TModel> {
    Seq::new(k as nat, |i: int| pkg_table(ps[i]))
}

/// The document after the version line and the first `k` package blocks.
pub open spec fn lock_doc(ps: Seq<PackageModel>, k: int) -> DocModel {
    DocModel {
        root: lock_root(),
        tables: seq![],
        array_tables: if k == 0 {
            seq![]
        } else {
            seq![("package"@, pkg_tables(ps, k))]
        },
    }
}

/// The document inside the block of package `k`, whose table so far is `t`.
pub open spec fn open_doc(ps: Seq<PackageModel>, k: int, t: TModel) -> DocModel {
    DocModel { root: lock_root(), tables: seq![], array_tables: seq![("package"@, pkg_tables(ps, k).push(t))] }
}

/// Where `key = value` lines land after `k` package blocks.
pub open spec fn block_cursor(k: int) -> CursorModel {
    if k == 0 {
        CursorModel::Root
    } else {
        CursorModel::ArrayTable("package"@)
    }
}

/// The order of the keys of a `[[package]]` table.
proof fn lemma_lock_key_order()
    ensures
        seq_lt("checksum"@, "dependencies"@),
        seq_lt("checksum"@, "name"@),
        seq_lt("checksum"@, "source"@),
        seq_lt("checksum"@, "version"@),
        seq_lt("dependencies"@, "name"@),
        seq_lt("dependencies"@, "source"@),
        seq_lt("dependencies"@, "version"@),
        seq_lt("name"@, "source"@),
        seq_lt("name"@, "version"@),
        seq_lt("source"@, "version"@),
        bare_key("checksum"@),
        bare_key("dependencies"@),
        bare_key("name"@),
        bare_key("source"@),
        bare_key("version"@),
        bare_key("package"@),
{
    reveal_strlit("checksum");
    reveal_strlit("dependencies");
    reveal_strlit("name");
    reveal_strlit("source");
    reveal_strlit("version");
    reveal_strlit("package");
}

/// Inserting a key that sorts between the first `p` keys and the rest puts
/// it at position `p`.
proof fn lemma_insert_mid<V>(t: Seq<(Seq<char>, V)>, k: Seq<char>, v: V, p: int)
    requires
        sorted(keys(t)),
        0 <= p <= t.len(),
        forall|i: int| 0 <= i < p ==> seq_lt(#[trigger] t[i].0, k),
        forall|i: int| p <= i < t.len() ==> seq_lt(k, #[trigger] t[i].0),
    ensures
        !keys(t).contains(k),
        insert_sorted(t, k, v) == t.take(p) + seq![(k, v)] + t.skip(p),
{
    let ks = keys(t);
    assert forall|j: int| 0 <= j < p implies seq_lt(#[trigger] ks[j], k) by {
        assert(ks[j] == t[j].0);
    }
    if p < t.len() {
        assert(ks[p] == t[p].0);
        lemma_seq_lt_asym(k, ks[p]);
    }
    lemma_lower_bound(ks, k, p);
    if ks.contains(k) {
        let j = ks.index_of(k);
        assert(ks[j] == t[j].0);
        lemma_seq_lt_asym(k, k);
    }
}

/// The cursor in an open block reads and writes the block's table.
proof fn lemma_open_doc(ps: Seq<PackageModel>, k: int, t: TModel, t2: TModel)
    requires
        0 <= k,
    ensures
        cursor_table(open_doc(ps, k, t), CursorModel::ArrayTable("package"@)) == t,
        set_cursor_table(open_doc(ps, k, t), CursorModel::ArrayTable("package"@), t2) == open_doc(ps, k, t2),
{
    let ats = open_doc(ps, k, t).array_tables;
    assert(sorted(keys(ats)));
    lemma_value_at(ats, 0);
    assert(pkg_tables(ps, k).push(t).drop_last().push(t2) =~= pkg_tables(ps, k).push(t2));
    assert(ats.update(0, ("package"@, pkg_tables(ps, k).push(t2))) =~= open_doc(ps, k, t2).array_tables);
}

/// The blank line and `[[package]]` header open a fresh table.
proof fn lemma_block_head(l: LockModel, k: int)
    requires
        readable_lock(l),
        0 <= k < l.packages.len(),
        lock_lines(l).len() == 3 + 7 * l.packages.len(),
        forall|j: int| 0 <= j < 7 ==> #[trigger] lock_lines(l)[3 + 7 * k + j] == package_lines(l.packages[k])[j],
    ensures
        parse_from(lock_lines(l), (3 + 7 * k) as nat, lock_doc(l.packages, k), block_cursor(k)) == parse_from(
            lock_lines(l),
            (3 + 7 * k + 2) as nat,
            open_doc(l.packages, k, seq![]),
            CursorModel::ArrayTable("package"@),
        ),
{
    reveal_strlit("[[package]]");
    reveal_strlit("[[");
    reveal_strlit("]]");
    reveal_strlit("package");
    lemma_lock_key_order();
    let ls = lock_lines(l);
    let ps = l.packages;
    let b = 3 + 7 * k;
    let pk = "package"@;
    let d0 = lock_doc(ps, k);
    assert(ls[b + 0] == package_lines(ps[k])[0]);
    assert(ls[b + 1] == package_lines(ps[k])[1]);
    lemma_step_blank(d0, block_cursor(k), (b + 1) as nat);
    lemma_parse_step(ls, b as nat, d0, block_cursor(k), d0, block_cursor(k));
    lemma_step_array_header(d0, block_cursor(k), pk, (b + 2) as nat);
    assert("[[package]]"@ =~= "[["@ + pk + "]]"@);
    let empty_t = Seq::<(Seq<char>, VModel)>::empty();
    if k == 0 {
        let e = Seq::<(Seq<char>, Seq<TModel>)>::empty();
        assert(keys(e) =~= Seq::<Seq<char>>::empty());
        lemma_insert_last(e, pk, seq![empty_t]);
        assert(pkg_tables(ps, 0).push(empty_t) =~= seq![empty_t]);
        assert(push_array_table(d0.array_tables, pk) =~= open_doc(ps, k, empty_t).array_tables);
    } else {
        let ats = d0.array_tables;
        assert(sorted(keys(ats)));
        lemma_value_at(ats, 0);
        assert(push_array_table(ats, pk) =~= open_doc(ps, k, empty_t).array_tables);
    }
    assert(DocModel { array_tables: push_array_table(d0.array_tables, pk), ..d0 } == open_doc(ps, k, empty_t));
    lemma_parse_step(ls, (b + 1) as nat, d0, block_cursor(k), open_doc(ps, k, empty_t), CursorModel::ArrayTable(pk));
}
/// The five field lines fill the fresh table with the package's fields.
#[verifier::rlimit(40)]
proof fn lemma_block_fields(l: LockModel, k: int)
    requires
        readable_lock(l),
        0 <= k < l.packages.len(),
        lock_lines(l).len() == 3 + 7 * l.packages.len(),
        forall|j: int| 0 <= j < 7 ==> #[trigger] lock_lines(l)[3 + 7 * k + j] == package_lines(l.packages[k])[j],
    ensures
        parse_from(
            lock_lines(l),
            (3 + 7 * k + 2) as nat,
            open_doc(l.packages, k, seq![]),
            CursorModel::ArrayTable("package"@),
        ) == parse_from(lock_lines(l), (3 + 7 * k + 7) as nat, lock_doc(l.packages, k + 1), block_cursor(k + 1)),
{
    lemma_lock_key_order();
    let ls = lock_lines(l);
    let ps = l.packages;
    let p = ps[k];
    assert(plain_package(ps[k]));
    lemma_wire_plain(p.source);
    let b = 3 + 7 * k;
    let at = CursorModel::ArrayTable("package"@);
    let t0 = Seq::<(Seq<char>, VModel)>::empty();
    let vn = VModel::Str(p.name);
    let vv = VModel::Str(p.version);
    let vs = VModel::Str(wire(p.source));
    let vc = VModel::Str(p.checksum);
    let vd = VModel::Arr(str_items(p.dependencies));
    // name
    let t1 = seq![("name"@, vn)];
    assert(keys(t0) =~= Seq::<Seq<char>>::empty());
    lemma_insert_last(t0, "name"@, vn);
    assert(t0.push(("name"@, vn)) =~= t1);
    lemma_open_doc(ps, k, t0, t1);
    assert(ls[b + 2] == package_lines(p)[2]);
    lemma_step_str(open_doc(ps, k, t0), at, "name"@, p.name, (b + 3) as nat);
    lemma_parse_step(ls, (b + 2) as nat, open_doc(ps, k, t0), at, open_doc(ps, k, t1), at);
    // version
    let t2 = seq![("name"@, vn), ("version"@, vv)];
    assert(keys(t1)[0] == "name"@);
    lemma_insert_last(t1, "version"@, vv);
    assert(t1.push(("version"@, vv)) =~= t2);
    lemma_open_doc(ps, k, t1, t2);
    assert(ls[b + 3] == package_lines(p)[3]);
    lemma_step_str(open_doc(ps, k, t1), at, "version"@, p.version, (b + 4) as nat);
    lemma_parse_step(ls, (b + 3) as nat, open_doc(ps, k, t1), at, open_doc(ps, k, t2), at);
    // source
    let t3 = seq![("name"@, vn), ("source"@, vs), ("version"@, vv)];
    assert(keys(t2)[0] == "name"@ && keys(t2)[1] == "version"@);
    lemma_insert_mid(t2, "source"@, vs, 1);
    assert(t2.take(1) + seq![("source"@, vs)] + t2.skip(1) =~= t3);
    lemma_open_doc(ps, k, t2, t3);
    assert(ls[b + 4] == package_lines(p)[4]);
    lemma_step_str(open_doc(ps, k, t2), at, "source"@, wire(p.source), (b + 5) as nat);
    lemma_parse_step(ls, (b + 4) as nat, open_doc(ps, k, t2), at, open_doc(ps, k, t3), at);
    // checksum
    let t4 = seq![("checksum"@, vc), ("name"@, vn), ("source"@, vs), ("version"@, vv)];
    assert(keys(t3)[0] == "name"@ && keys(t3)[1] == "source"@ && keys(t3)[2] == "version"@);
    lemma_insert_first(t3, "checksum"@, vc);
    assert(seq![("checksum"@, vc)] + t3 =~= t4);
    lemma_open_doc(ps, k, t3, t4);
    assert(ls[b + 5] == package_lines(p)[5]);
    lemma_step_str(open_doc(ps, k, t3), at, "checksum"@, p.checksum, (b + 6) as nat);
    lemma_parse_step(ls, (b + 5) as nat, open_doc(ps, k, t3), at, open_doc(ps, k, t4), at);
    // dependencies
    let t5 = pkg_table(p);
    assert(keys(t4)[0] == "checksum"@ && keys(t4)[1] == "name"@ && keys(t4)[2] == "source"@ && keys(t4)[3]
        == "version"@);
    lemma_insert_mid(t4, "dependencies"@, vd, 1);
    assert(t4.take(1) + seq![("dependencies"@, vd)] + t4.skip(1) =~= t5);
    lemma_open_doc(ps, k, t4, t5);
    assert(ls[b + 6] == package_lines(p)[6]);
    assert(forall|i: int| 0 <= i < p.dependencies.len() ==> plain(#[trigger] p.dependencies[i]));
    lemma_step_deps(open_doc(ps, k, t4), at, p.dependencies, (b + 7) as nat);
    lemma_parse_step(ls, (b + 6) as nat, open_doc(ps, k, t4), at, open_doc(ps, k, t5), at);
    // The block is done.
    assert(pkg_tables(ps, k).push(t5) =~= pkg_tables(ps, k + 1));
    assert(open_doc(ps, k, t5) == lock_doc(ps, k + 1));
}
/// Every package block reads into its table, in order, to the end of the
/// text.
proof fn lemma_lock_blocks(l: LockModel, k: int)
    requires
        readable_lock(l),
        0 <= k <= l.packages.len(),
        lock_lines(l).len() == 3 + 7 * l.packages.len(),
        forall|kk: int, j: int|
            0 <= kk < l.packages.len() && 0 <= j < 7 ==> #[trigger] lock_lines(l)[3 + 7 * kk + j]
                == package_lines(l.packages[kk])[j],
    ensures
        parse_from(lock_lines(l), (3 + 7 * k) as nat, lock_doc(l.packages, k), block_cursor(k)) == Ok::<
            DocModel,
            (nat, Seq<char>),
        >(lock_doc(l.packages, l.packages.len() as int)),
    decreases l.packages.len() - k,
{
    if k < l.packages.len() {
        assert forall|j: int| 0 <= j < 7 implies #[trigger] lock_lines(l)[3 + 7 * k + j] == package_lines(
            l.packages[k],
        )[j] by {
            assert(lock_lines(l)[3 + 7 * k + j] == package_lines(l.packages[k])[j]);
        }
        lemma_block_head(l, k);
        lemma_block_fields(l, k);
        lemma_lock_blocks(l, k + 1);
    }
}

/// The banner and the version line read into the root table.
proof fn lemma_lock_head(l: LockModel)
    requires
        readable_lock(l),
    ensures
        parse_from(lock_lines(l), 0, empty_doc(), CursorModel::Root) == parse_from(
            lock_lines(l),
            3,
            lock_doc(l.packages, 0),
            CursorModel::Root,
        ),
{
    let ls = lock_lines(l);
    let e = empty_doc();
    lemma_banner_lines();
    assert(ls[0] == banner_lines()[0] && ls[1] == banner_lines()[1]);
    lemma_step_comment(e, CursorModel::Root, ls[0], 1);
    lemma_parse_step(ls, 0, e, CursorModel::Root, e, CursorModel::Root);
    lemma_step_comment(e, CursorModel::Root, ls[1], 2);
    lemma_parse_step(ls, 1, e, CursorModel::Root, e, CursorModel::Root);
    let line = "version = 1"@;
    reveal_strlit("version = 1");
    lemma_version_line(line.len());
    assert(ls[2] == line);
    let t0 = Seq::<(Seq<char>, VModel)>::empty();
    assert(keys(t0) =~= Seq::<Seq<char>>::empty());
    lemma_insert_last(t0, "version"@, VModel::Int(1));
    assert(t0.push(("version"@, VModel::Int(1))) =~= lock_root());
    assert(step(e, CursorModel::Root, line, 3) == Ok::<(DocModel, CursorModel), (nat, Seq<char>)>(
        (lock_doc(l.packages, 0), CursorModel::Root),
    ));
    lemma_parse_step(ls, 2, e, CursorModel::Root, lock_doc(l.packages, 0), CursorModel::Root);
}

/// A source's wire form reads back as the source.
pub proof fn lemma_source_wire(s: SourceModel)
    ensures
        source_spec(wire(s)) == Ok::<SourceModel, LErr>(s),
{
    reveal_strlit("root");
    reveal_strlit("path+");
    if let SourceModel::Path(q) = s {
        let w = wire(s);
        assert(w.len() != "root"@.len());
        assert(w.take(5) =~= "path+"@);
        assert(w.skip(5) =~= q);
    }
}

/// A package's table reads back as the package.
proof fn lemma_package_spec(p: PackageModel)
    ensures
        package_spec(pkg_table(p)) == Ok::<PackageModel, LErr>(p),
{
    lemma_lock_key_order();
    let t = pkg_table(p);
    assert(sorted(keys(t))) by {
        assert(keys(t)[0] == "checksum"@ && keys(t)[1] == "dependencies"@ && keys(t)[2] == "name"@ && keys(
            t,
        )[3] == "source"@ && keys(t)[4] == "version"@);
    }
    lemma_value_at(t, 0);
    lemma_value_at(t, 1);
    lemma_value_at(t, 2);
    lemma_value_at(t, 3);
    lemma_value_at(t, 4);
    lemma_source_wire(p.source);
    let items = str_items(p.dependencies);
    assert(crate::lockfile::all_str(items));
    assert(Seq::new(items.len(), |i: int| items[i]->Str_0) =~= p.dependencies);
}

/// The package tables read back as the packages, in order.
proof fn lemma_packages_spec(ps: Seq<PackageModel>, i: int)
    requires
        0 <= i <= ps.len(),
    ensures
        packages_spec(pkg_tables(ps, ps.len() as int), i as nat, ps.take(i)) == Ok::<Seq<PackageModel>, LErr>(ps),
    decreases ps.len() - i,
{
    if i < ps.len() {
        lemma_package_spec(ps[i]);
        assert(ps.take(i).push(ps[i]) =~= ps.take(i + 1));
        lemma_packages_spec(ps, i + 1);
    } else {
        assert(ps.take(i) =~= ps);
    }
}

/// The document a readable lockfile's text reads as describes the lockfile.
proof fn lemma_lock_from_doc(l: LockModel)
    requires
        readable_lock(l),
    ensures
        lockfile_from_doc(lock_doc(l.packages, l.packages.len() as int)) == Ok::<LockModel, LErr>(l),
{
    let ps = l.packages;
    let n = ps.len() as int;
    let doc = lock_doc(ps, n);
    reveal_strlit("version");
    lemma_value_at(doc.root, 0);
    assert(ps.take(0) =~= Seq::<PackageModel>::empty());
    lemma_packages_spec(ps, 0);
    lemma_sort_by_name_id(ps);
    if n == 0 {
        assert(keys(doc.array_tables) =~= Seq::<Seq<char>>::empty());
        assert(pkg_tables(ps, 0) =~= Seq::<TModel>::empty());
    } else {
        lemma_value_at(doc.array_tables, 0);
    }
}

/// Round trip: reading a lockfile's canonical text gives back the lockfile,
/// for every lockfile of the current format version whose packages are in
/// name order, whose dependency lists are in name order, and whose names,
/// versions, source paths, checksums and dependency names each fit on one
/// line.
pub proof fn law_lockfile_round_trip(l: LockModel)
    requires
        readable_lock(l),
    ensures
        lockfile_spec(lockfile_text(l)) == Ok::<LockModel, LErr>(l),
{
    lemma_lock_lines_clean(l);
    lemma_packages_lines_index(l.packages);
    let ls = lock_lines(l);
    assert forall|kk: int, j: int| 0 <= kk < l.packages.len() && 0 <= j < 7 implies #[trigger] ls[3 + 7 * kk + j]
        == package_lines(l.packages[kk])[j] by {
        assert(packages_lines(l.packages)[7 * kk + j] == package_lines(l.packages[kk])[j]);
    }
    lemma_lock_head(l);
    lemma_lock_blocks(l, 0);
    lemma_lock_from_doc(l);
    assert(crate::toml::parse_spec(lockfile_text(l)) == Ok::<DocModel, (nat, Seq<char>)>(
        lock_doc(l.packages, l.packages.len() as int),
    ));
}
} // verus!
