//! Writing records to a file and reading the file back.
use vstd::prelude::*;
use crate::text::{int_text, is_ws, split_on, trim, trim_end, trim_start, lemma_split_len_pos};
use crate::plugin::{
    PluginState, PluginView, admin_level_in_domain, block_lines, block_text, entry_text,
    field_line, lines_text, well_formed,
};
use crate::codec::{
    admin_level_of, all_digits, apply_line, blank_view, block_end, blocks_text, digits_value,
    field_value, file_title, has_no, header_text, is_close_line, is_digit, parse_lines,
    parse_text, render_text, scan_fields, small_int, trimmed_lines, value_or_empty,
};
use crate::registry::{entries_wf, key_index, lemma_key_index_bounds, upsert};
use crate::text::starts_with;
use crate::registry::Entries;

verus! {

pub proof fn lemma_split_push_sep(a: Seq<char>, c: char)
    ensures
        split_on(a + seq![c], c) == split_on(a, c).push(Seq::<char>::empty()),
{
    assert((a + seq![c]).drop_last() =~= a);
}

pub proof fn lemma_split_append_free(a: Seq<char>, x: Seq<char>, c: char)
    requires
        forall|j: int| 0 <= j < x.len() ==> x[j] != c,
    ensures
        split_on(a + x, c) == split_on(a, c).update(
            split_on(a, c).len() - 1,
            split_on(a, c).last() + x,
        ),
    decreases x.len(),
{
    lemma_split_len_pos(a, c);
    if x.len() == 0 {
        assert(a + x =~= a);
        assert(split_on(a, c).last() + x =~= split_on(a, c).last());
        assert(split_on(a, c).update(split_on(a, c).len() - 1, split_on(a, c).last() + x)
            =~= split_on(a, c));
    } else {
        let y = x.drop_last();
        lemma_split_append_free(a, y, c);
        assert((a + x).drop_last() =~= a + y);
        assert((a + x).last() == x.last());
        let r = split_on(a + y, c);
        assert(split_on(a + x, c) == r.update(r.len() - 1, r.last().push(x.last())));
        let sa = split_on(a, c);
        assert(r.len() == sa.len());
        assert(r.last() == sa.last() + y);
        assert(r.last().push(x.last()) =~= sa.last() + x);
        assert(r.update(r.len() - 1, r.last().push(x.last())) =~= split_on(a, c).update(
            split_on(a, c).len() - 1,
            split_on(a, c).last() + x,
        ));
    }
}

/// Whitespace at the start does not change the trimmed text.
pub proof fn lemma_trim_start_ws_prefix(w: Seq<char>, x: Seq<char>)
    requires
        forall|j: int| 0 <= j < w.len() ==> is_ws(w[j]),
    ensures
        trim_start(w + x) == trim_start(x),
    decreases w.len(),
{
    if w.len() > 0 {
        assert((w + x)[0] == w[0]);
        assert((w + x).drop_first() =~= w.drop_first() + x);
        lemma_trim_start_ws_prefix(w.drop_first(), x);
    } else {
        assert(w + x =~= x);
    }
}

/// A text that starts and ends with other than whitespace is its own trim.
pub proof fn lemma_trim_fixed(x: Seq<char>)
    requires
        x.len() > 0,
        !is_ws(x[0]),
        !is_ws(x.last()),
    ensures
        trim(x) == x,
{
}

/// Whitespace followed by a text that starts and ends with other than
/// whitespace trims to that text.
pub proof fn lemma_trim_indented(w: Seq<char>, x: Seq<char>)
    requires
        forall|j: int| 0 <= j < w.len() ==> is_ws(w[j]),
        x.len() > 0,
        !is_ws(x[0]),
        !is_ws(x.last()),
    ensures
        trim(w + x) == x,
{
    lemma_trim_start_ws_prefix(w, x);
}

/// Whitespace alone trims to nothing.
pub proof fn lemma_trim_blank(w: Seq<char>)
    requires
        forall|j: int| 0 <= j < w.len() ==> is_ws(w[j]),
    ensures
        trim(w) == Seq::<char>::empty(),
{
    lemma_trim_start_ws_prefix(w, Seq::empty());
    assert(w + Seq::<char>::empty() =~= w);
}

/// A value that a file holds as it is: no double quote, no line break.
pub open spec fn plain_value(v: Seq<char>) -> bool {
    has_no(v, '"') && has_no(v, '\n')
}

/// A record that a file holds exactly: plain values and a level in the
/// levels' domain.
pub open spec fn clean(p: PluginView) -> bool {
    &&& plain_value(p.name)
    &&& plain_value(p.script)
    &&& plain_value(p.concommandns)
    &&& plain_value(p.maps_included)
    &&& plain_value(p.maps_excluded)
    &&& admin_level_in_domain(p.adminlevel as int)
}

/// Whether the file for `st` holds a block for `p`.
pub open spec fn included(p: PluginView, st: PluginState) -> bool {
    p.state == st && well_formed(p)
}

/// The lines of the file for `st` before its closing brace; the last one
/// is the indentation that the closing brace follows.
pub open spec fn file_lines(s: Entries, st: PluginState) -> Seq<Seq<char>>
    decreases s.len(),
{
    if s.len() == 0 {
        seq![file_title(st), "{"@, Seq::<char>::empty()]
    } else {
        let g = file_lines(s.drop_last(), st);
        if included(s.last().1, st) {
            g + block_lines(s.last().1) + seq!["        "@]
        } else {
            g
        }
    }
}

pub proof fn lemma_has_no_concat(a: Seq<char>, b: Seq<char>, c: char)
    requires
        has_no(a, c),
        has_no(b, c),
    ensures
        has_no(a + b, c),
{
    assert forall|j: int| 0 <= j < (a + b).len() implies (a + b)[j] != c by {
        if j < a.len() {
            assert((a + b)[j] == a[j]);
        } else {
            assert((a + b)[j] == b[j - a.len()]);
        }
    }
}

/// The text of a level in the levels' domain.
pub proof fn lemma_level_text(v: int)
    requires
        admin_level_in_domain(v),
    ensures
        v == -1 ==> int_text(v) == seq!['-', '1'],
        v == 0 ==> int_text(v) == seq!['0'],
        v == 1 ==> int_text(v) == seq!['1'],
        v == 2 ==> int_text(v) == seq!['2'],
        has_no(int_text(v), '"'),
        has_no(int_text(v), '\n'),
{
    if v == -1 {
        assert(int_text(v) =~= seq!['-', '1']);
    }
}

/// No line of a clean record's block holds a line break.
pub proof fn lemma_block_lines_single(p: PluginView)
    requires
        clean(p),
    ensures
        forall|i: int| 0 <= i < block_lines(p).len() ==> has_no(#[trigger] block_lines(p)[i], '\n'),
{
    reveal_strlit("        ");
    reveal_strlit("            ");
    reveal_strlit("\"plugin\"");
    reveal_strlit("{");
    reveal_strlit("}");
    reveal_strlit("\"");
    reveal_strlit("\" \"");
    reveal_strlit("name");
    reveal_strlit("script");
    reveal_strlit("concommandns");
    reveal_strlit("adminlevel");
    reveal_strlit("maps_included");
    reveal_strlit("maps_excluded");
    lemma_level_text(p.adminlevel as int);
    let l = block_lines(p);
    lemma_has_no_concat("        "@, "\"plugin\""@, '\n');
    lemma_has_no_concat("        "@, "{"@, '\n');
    lemma_has_no_concat("        "@, "}"@, '\n');
    lemma_field_line_single("name"@, p.name);
    lemma_field_line_single("script"@, p.script);
    lemma_field_line_single("concommandns"@, p.concommandns);
    lemma_field_line_single("adminlevel"@, int_text(p.adminlevel as int));
    lemma_field_line_single("maps_included"@, p.maps_included);
    lemma_field_line_single("maps_excluded"@, p.maps_excluded);
}

proof fn lemma_field_line_single(k: Seq<char>, v: Seq<char>)
    requires
        has_no(k, '\n'),
        has_no(v, '\n'),
    ensures
        has_no(field_line(k, v), '\n'),
{
    reveal_strlit("            ");
    reveal_strlit("\"");
    reveal_strlit("\" \"");
    lemma_has_no_concat("            "@, "\""@, '\n');
    lemma_has_no_concat("            "@ + "\""@, k, '\n');
    lemma_has_no_concat("            "@ + "\""@ + k, "\" \""@, '\n');
    lemma_has_no_concat("            "@ + "\""@ + k + "\" \""@, v, '\n');
    lemma_has_no_concat("            "@ + "\""@ + k + "\" \""@ + v, "\""@, '\n');
}

/// Splitting after a line break and some lines gives those lines and an
/// empty last piece.
pub proof fn lemma_split_lines_text(a: Seq<char>, ls: Seq<Seq<char>>)
    requires
        forall|i: int| 0 <= i < ls.len() ==> has_no(#[trigger] ls[i], '\n'),
    ensures
        split_on(a + "\n"@ + lines_text(ls), '\n') == split_on(a, '\n') + ls + seq![
            Seq::<char>::empty(),
        ],
    decreases ls.len(),
{
    reveal_strlit("\n");
    lemma_split_len_pos(a, '\n');
    if ls.len() == 0 {
        assert(a + "\n"@ + lines_text(ls) =~= a + seq!['\n']);
        lemma_split_push_sep(a, '\n');
        assert(split_on(a, '\n') + ls + seq![Seq::<char>::empty()] =~= split_on(a, '\n').push(
            Seq::<char>::empty(),
        ));
    } else {
        let ls2 = ls.drop_last();
        let l = ls.last();
        assert(has_no(l, '\n'));
        lemma_split_lines_text(a, ls2);
        let b = a + "\n"@ + lines_text(ls2);
        assert(a + "\n"@ + lines_text(ls) =~= (b + l) + seq!['\n']);
        lemma_split_append_free(b, l, '\n');
        lemma_split_push_sep(b + l, '\n');
        let sb = split_on(b, '\n');
        assert(sb.last() + l =~= l);
        assert(sb.update(sb.len() - 1, l).push(Seq::<char>::empty()) =~= split_on(a, '\n') + ls
            + seq![Seq::<char>::empty()]);
    }
}

/// Splitting after a block adds the block's lines and the indentation that
/// follows them.
pub proof fn lemma_split_block(x: Seq<char>, p: PluginView)
    requires
        clean(p),
    ensures
        split_on(x + block_text(p), '\n') == split_on(x, '\n') + block_lines(p) + seq![
            "        "@,
        ],
{
    reveal_strlit("        ");
    lemma_block_lines_single(p);
    let bl = block_lines(p);
    let y = x + "\n"@ + lines_text(bl);
    assert(x + block_text(p) =~= y + "        "@);
    lemma_split_lines_text(x, bl);
    lemma_split_append_free(y, "        "@, '\n');
    let sy = split_on(y, '\n');
    assert(sy.last() + "        "@ =~= "        "@);
    assert(sy.update(sy.len() - 1, "        "@) =~= split_on(x, '\n') + bl + seq!["        "@]);
}

/// The lines of a file up to its closing brace.
pub proof fn lemma_split_file(s: Entries, st: PluginState)
    requires
        st != PluginState::Removed,
        forall|i: int| 0 <= i < s.len() && included(#[trigger] s[i].1, st) ==> clean(s[i].1),
    ensures
        split_on(header_text(st) + blocks_text(s, st), '\n') == file_lines(s, st),
    decreases s.len(),
{
    reveal_strlit("\n");
    reveal_strlit("{");
    reveal_strlit("\"plugins\"");
    reveal_strlit("\"disabled_plugins\"");
    if s.len() == 0 {
        let t = file_title(st);
        let e = Seq::<char>::empty();
        assert(split_on(e, '\n') == seq![e]);
        assert(e + t =~= t);
        lemma_split_append_free(e, t, '\n');
        assert(split_on(t, '\n') =~= seq![t]);
        lemma_split_push_sep(t, '\n');
        lemma_split_append_free(t + seq!['\n'], "{"@, '\n');
        lemma_split_push_sep(t + seq!['\n'] + "{"@, '\n');
        assert(header_text(st) + blocks_text(s, st) =~= t + seq!['\n'] + "{"@ + seq!['\n']);
        assert(split_on(t + seq!['\n'], '\n') =~= seq![t, e]);
        assert(seq![t, e].update(1, e + "{"@) =~= seq![t, "{"@]);
        assert(seq![t, "{"@].push(e) =~= file_lines(s, st));
    } else {
        let s2 = s.drop_last();
        assert forall|i: int| 0 <= i < s2.len() && included(#[trigger] s2[i].1, st) implies clean(
            s2[i].1,
        ) by {
            assert(s2[i] == s[i]);
        }
        lemma_split_file(s2, st);
        let p = s.last().1;
        let x = header_text(st) + blocks_text(s2, st);
        if included(p, st) {
            assert(entry_text(p) == block_text(p));
            assert(header_text(st) + blocks_text(s, st) =~= x + block_text(p));
            lemma_split_block(x, p);
        } else {
            assert(p.state == st ==> entry_text(p) == Seq::<char>::empty());
            assert(header_text(st) + blocks_text(s, st) =~= x);
        }
    }
}

/// A `"key" "value"` line without its indentation.
pub open spec fn bare_field_line(key: Seq<char>, value: Seq<char>) -> Seq<char> {
    "\""@ + key + "\" \""@ + value + "\""@
}

pub proof fn lemma_trim_field_line(k: Seq<char>, v: Seq<char>)
    ensures
        trim(field_line(k, v)) == bare_field_line(k, v),
{
    reveal_strlit("            ");
    reveal_strlit("\"");
    let b = bare_field_line(k, v);
    assert(field_line(k, v) =~= "            "@ + b);
    assert(b[0] == '"');
    assert(b.last() == '"');
    lemma_trim_indented("            "@, b);
}

pub proof fn lemma_field_value(k: Seq<char>, v: Seq<char>)
    requires
        has_no(k, '"'),
        has_no(v, '"'),
    ensures
        field_value(bare_field_line(k, v)) == Some(v),
        value_or_empty(bare_field_line(k, v)) == v,
{
    reveal_strlit("\"");
    reveal_strlit("\" \"");
    let e = Seq::<char>::empty();
    let q = seq!['"'];
    assert(split_on(e, '"') == seq![e]);
    lemma_split_push_sep(e, '"');
    assert(e + q =~= q);
    lemma_split_append_free(q, k, '"');
    let a1 = q + k;
    lemma_split_push_sep(a1, '"');
    let a2 = a1 + q;
    lemma_split_append_free(a2, seq![' '], '"');
    let a3 = a2 + seq![' '];
    lemma_split_push_sep(a3, '"');
    let a4 = a3 + q;
    lemma_split_append_free(a4, v, '"');
    let a5 = a4 + v;
    lemma_split_push_sep(a5, '"');
    assert(bare_field_line(k, v) =~= a5 + q);
    assert(split_on(q, '"') =~= seq![e, e]);
    assert(split_on(a1, '"') =~= seq![e, k]);
    assert(split_on(a2, '"') =~= seq![e, k, e]);
    assert(split_on(a3, '"') =~= seq![e, k, seq![' ']]);
    assert(split_on(a4, '"') =~= seq![e, k, seq![' '], e]);
    assert(split_on(a5, '"') =~= seq![e, k, seq![' '], v]);
    assert(split_on(a5 + q, '"') =~= seq![e, k, seq![' '], v, e]);
}

proof fn lemma_not_prefix(line: Seq<char>, lit: Seq<char>, j: int)
    requires
        0 <= j < lit.len(),
        j < line.len(),
        line[j] != lit[j],
    ensures
        !starts_with(line, lit),
{
    if starts_with(line, lit) {
        assert(line.subrange(0, lit.len() as int)[j] == line[j]);
    }
}

proof fn lemma_prefix_key(k: Seq<char>, v: Seq<char>)
    ensures
        starts_with(bare_field_line(k, v), "\""@ + k + "\""@),
        bare_field_line(k, v)[0] == '"',
        forall|m: int| 0 <= m < k.len() ==> #[trigger] bare_field_line(k, v)[1 + m] == k[m],
{
    reveal_strlit("\"");
    reveal_strlit("\" \"");
    let b = bare_field_line(k, v);
    assert(b.subrange(0, k.len() + 2int) =~= "\""@ + k + "\""@);
}

/// How each line of a block changes the record being read.
pub proof fn lemma_apply_block_lines(d: PluginView, v: Seq<char>)
    requires
        has_no(v, '"'),
    ensures
        apply_line(d, "{"@) == d,
        apply_line(d, bare_field_line("name"@, v)) == (PluginView { name: v, ..d }),
        apply_line(d, bare_field_line("script"@, v)) == (PluginView { script: v, ..d }),
        apply_line(d, bare_field_line("concommandns"@, v)) == (PluginView {
            concommandns: v,
            ..d
        }),
        apply_line(d, bare_field_line("adminlevel"@, v)) == (PluginView {
            adminlevel: admin_level_of(v),
            ..d
        }),
        apply_line(d, bare_field_line("maps_included"@, v)) == (PluginView {
            maps_included: v,
            ..d
        }),
        apply_line(d, bare_field_line("maps_excluded"@, v)) == (PluginView {
            maps_excluded: v,
            ..d
        }),
{
    reveal_strlit("{");
    reveal_strlit("\"");
    reveal_strlit("name");
    reveal_strlit("script");
    reveal_strlit("concommandns");
    reveal_strlit("adminlevel");
    reveal_strlit("maps_included");
    reveal_strlit("maps_excluded");
    reveal_strlit("\"name\"");
    reveal_strlit("\"script\"");
    reveal_strlit("\"concommandns\"");
    reveal_strlit("\"adminlevel\"");
    reveal_strlit("\"maps_included\"");
    reveal_strlit("\"maps_excluded\"");
    let pn = "\"name\""@;
    let ps = "\"script\""@;
    let pc = "\"concommandns\""@;
    let pa = "\"adminlevel\""@;
    let pi = "\"maps_included\""@;
    let pe = "\"maps_excluded\""@;
    assert(pn =~= "\""@ + "name"@ + "\""@);
    assert(ps =~= "\""@ + "script"@ + "\""@);
    assert(pc =~= "\""@ + "concommandns"@ + "\""@);
    assert(pa =~= "\""@ + "adminlevel"@ + "\""@);
    assert(pi =~= "\""@ + "maps_included"@ + "\""@);
    assert(pe =~= "\""@ + "maps_excluded"@ + "\""@);
    // the opening brace matches no key
    lemma_not_prefix("{"@, pn, 0);
    lemma_not_prefix("{"@, ps, 0);
    lemma_not_prefix("{"@, pc, 0);
    lemma_not_prefix("{"@, pa, 0);
    lemma_not_prefix("{"@, pi, 0);
    lemma_not_prefix("{"@, pe, 0);
    let ln = bare_field_line("name"@, v);
    let ls = bare_field_line("script"@, v);
    let lc = bare_field_line("concommandns"@, v);
    let la = bare_field_line("adminlevel"@, v);
    let li = bare_field_line("maps_included"@, v);
    let le = bare_field_line("maps_excluded"@, v);
    lemma_prefix_key("name"@, v);
    lemma_prefix_key("script"@, v);
    lemma_prefix_key("concommandns"@, v);
    lemma_prefix_key("adminlevel"@, v);
    lemma_prefix_key("maps_included"@, v);
    lemma_prefix_key("maps_excluded"@, v);
    lemma_field_value("name"@, v);
    lemma_field_value("script"@, v);
    lemma_field_value("concommandns"@, v);
    lemma_field_value("adminlevel"@, v);
    lemma_field_value("maps_included"@, v);
    lemma_field_value("maps_excluded"@, v);
    assert(ls[1] == 's');
    lemma_not_prefix(ls, pn, 1);
    assert(lc[1] == 'c');
    lemma_not_prefix(lc, pn, 1);
    lemma_not_prefix(lc, ps, 1);
    assert(la[1] == 'a');
    lemma_not_prefix(la, pn, 1);
    lemma_not_prefix(la, ps, 1);
    lemma_not_prefix(la, pc, 1);
    assert(li[1] == 'm');
    assert(li[1int + 5] == 'i');
    lemma_not_prefix(li, pn, 1);
    lemma_not_prefix(li, ps, 1);
    lemma_not_prefix(li, pc, 1);
    lemma_not_prefix(li, pa, 1);
    assert(le[1] == 'm');
    assert(le[1int + 5] == 'e');
    lemma_not_prefix(le, pn, 1);
    lemma_not_prefix(le, ps, 1);
    lemma_not_prefix(le, pc, 1);
    lemma_not_prefix(le, pa, 1);
    lemma_not_prefix(le, pi, 6);
}

/// A level in the levels' domain reads back as itself.
pub proof fn lemma_level_round_trip(v: i8)
    requires
        admin_level_in_domain(v as int),
    ensures
        admin_level_of(int_text(v as int)) == v,
{
    lemma_level_text(v as int);
    let t = int_text(v as int);
    if v == -1 {
        let d = t.drop_first();
        assert(d =~= seq!['1']);
        assert(d.drop_last() =~= Seq::<char>::empty());
        assert(is_digit(d[0]));
        assert(all_digits(d));
        assert(d.last() == '1');
        assert('1' as u32 == 49);
        assert('0' as u32 == 48);
        assert(digits_value(d.drop_last()) == 0);
        assert(digits_value(d) == digits_value(d.drop_last()) * 10 + (d.last() as u32 - '0' as u32) as nat);
        assert(digits_value(d) == 1);
        assert(small_int(t) == Some(-1int));
    } else {
        assert(t.drop_last() =~= Seq::<char>::empty());
        assert(is_digit(t[0]));
        assert(all_digits(t));
        assert('0' as u32 == 48 && '1' as u32 == 49 && '2' as u32 == 50);
        assert(t.last() == t[0]);
        assert(digits_value(t.drop_last()) == 0);
        assert(digits_value(t) == digits_value(t.drop_last()) * 10 + (t.last() as u32 - '0' as u32) as nat);
        assert(digits_value(t) == v as nat);
        assert(small_int(t) == Some(v as int));
    }
}

proof fn lemma_block_end_run(l: Seq<Seq<char>>, a: int, b: int)
    requires
        0 <= a <= b < l.len(),
        forall|j: int| a <= j < b ==> !is_close_line(#[trigger] l[j]),
        is_close_line(l[b]),
    ensures
        block_end(l, a) == b,
    decreases b - a,
{
    if a < b {
        lemma_block_end_run(l, a + 1, b);
    }
}

/// Reading the ten lines of a clean record's block, from the blank line
/// before it, stores the record under its name.
proof fn lemma_parse_block(
    l: Seq<Seq<char>>,
    i: int,
    st: PluginState,
    acc: Entries,
    u: nat,
    p: PluginView,
)
    requires
        0 <= i,
        i + 9 < l.len(),
        clean(p),
        p.name.len() > 0,
        l[i] == Seq::<char>::empty(),
        l[i + 1] == "\"plugin\""@,
        l[i + 2] == "{"@,
        l[i + 3] == bare_field_line("name"@, p.name),
        l[i + 4] == bare_field_line("script"@, p.script),
        l[i + 5] == bare_field_line("concommandns"@, p.concommandns),
        l[i + 6] == bare_field_line("adminlevel"@, int_text(p.adminlevel as int)),
        l[i + 7] == bare_field_line("maps_included"@, p.maps_included),
        l[i + 8] == bare_field_line("maps_excluded"@, p.maps_excluded),
        l[i + 9] == "}"@,
    ensures
        parse_lines(l, i, st, acc, u) == parse_lines(
            l,
            i + 10,
            st,
            upsert(acc, p.name, PluginView { state: st, ..p }),
            u,
        ),
{
    reveal_strlit("\"plugin\"");
    reveal_strlit("{");
    reveal_strlit("}");
    assert(!starts_with(l[i], "\"plugin\""@));
    assert(l[i + 1].subrange(0, 8) =~= l[i + 1]);
    assert(starts_with(l[i + 1], "\"plugin\""@));
    lemma_prefix_key("name"@, p.name);
    lemma_prefix_key("script"@, p.script);
    lemma_prefix_key("concommandns"@, p.concommandns);
    lemma_prefix_key("adminlevel"@, int_text(p.adminlevel as int));
    lemma_prefix_key("maps_included"@, p.maps_included);
    lemma_prefix_key("maps_excluded"@, p.maps_excluded);
    assert forall|j: int| i + 2 <= j < i + 9 implies !is_close_line(#[trigger] l[j]) by {
        if j > i + 2 {
            assert(l[j][0] == '"');
        }
    }
    lemma_block_end_run(l, i + 2, i + 9);
    let lv = int_text(p.adminlevel as int);
    lemma_level_text(p.adminlevel as int);
    lemma_level_round_trip(p.adminlevel);
    let d0 = blank_view(st);
    assert(scan_fields(l, i + 2, i + 2, st) == d0);
    lemma_apply_block_lines(d0, p.name);
    let d1 = apply_line(d0, l[i + 2]);
    assert(scan_fields(l, i + 2, i + 3, st) == d1);
    lemma_apply_block_lines(d1, p.name);
    let d2 = apply_line(d1, l[i + 3]);
    assert(scan_fields(l, i + 2, i + 4, st) == d2);
    lemma_apply_block_lines(d2, p.script);
    let d3 = apply_line(d2, l[i + 4]);
    assert(scan_fields(l, i + 2, i + 5, st) == d3);
    lemma_apply_block_lines(d3, p.concommandns);
    let d4 = apply_line(d3, l[i + 5]);
    assert(scan_fields(l, i + 2, i + 6, st) == d4);
    lemma_apply_block_lines(d4, lv);
    let d5 = apply_line(d4, l[i + 6]);
    assert(scan_fields(l, i + 2, i + 7, st) == d5);
    lemma_apply_block_lines(d5, p.maps_included);
    let d6 = apply_line(d5, l[i + 7]);
    assert(scan_fields(l, i + 2, i + 8, st) == d6);
    lemma_apply_block_lines(d6, p.maps_excluded);
    let d7 = apply_line(d6, l[i + 8]);
    assert(scan_fields(l, i + 2, i + 9, st) == d7);
    assert(d7 == PluginView { state: st, ..p });
    assert(parse_lines(l, i, st, acc, u) == parse_lines(l, i + 1, st, acc, u));
    assert(block_end(l, i + 1 + 1) == i + 9);
    assert(parse_lines(l, i + 1, st, acc, u) == parse_lines(
        l,
        i + 9 + 1,
        st,
        upsert(acc, d7.name, d7),
        u,
    ));
}

/// The records of `s` that the file for `st` holds, in storage order.
pub open spec fn kept(s: Entries, st: PluginState) -> Entries
    decreases s.len(),
{
    if s.len() == 0 {
        Seq::empty()
    } else if included(s.last().1, st) {
        kept(s.drop_last(), st).push(s.last())
    } else {
        kept(s.drop_last(), st)
    }
}

proof fn lemma_kept_from(s: Entries, st: PluginState, k: Seq<char>)
    requires
        forall|m: int| 0 <= m < s.len() ==> s[m].0 != k,
    ensures
        forall|j: int| 0 <= j < kept(s, st).len() ==> #[trigger] kept(s, st)[j].0 != k,
        forall|j: int| 0 <= j < kept(s, st).len() ==> included(#[trigger] kept(s, st)[j].1, st),
    decreases s.len(),
{
    if s.len() > 0 {
        let s2 = s.drop_last();
        assert forall|m: int| 0 <= m < s2.len() implies s2[m].0 != k by {
            assert(s2[m] == s[m]);
        }
        lemma_kept_from(s2, st, k);
        let k2 = kept(s2, st);
        if included(s.last().1, st) {
            assert(kept(s, st) == k2.push(s.last()));
            assert(s.last() == s[s.len() - 1]);
            assert forall|j: int| 0 <= j < kept(s, st).len() implies #[trigger] kept(s, st)[j].0
                != k && included(kept(s, st)[j].1, st) by {
                if j < k2.len() {
                    assert(kept(s, st)[j] == k2[j]);
                }
            }
        }
    }
}

proof fn lemma_file_lines_last_blank(s: Entries, st: PluginState)
    ensures
        file_lines(s, st).len() >= 3,
        forall|j: int|
            0 <= j < file_lines(s, st).last().len() ==> is_ws(#[trigger] file_lines(s, st).last()[j]),
    decreases s.len(),
{
    reveal_strlit("        ");
    if s.len() > 0 {
        lemma_file_lines_last_blank(s.drop_last(), st);
    }
}

proof fn lemma_file_lines_prefix(s: Entries, st: PluginState, n: int)
    requires
        0 <= n <= s.len(),
    ensures
        file_lines(s.subrange(0, n), st).len() <= file_lines(s, st).len(),
        forall|j: int|
            0 <= j < file_lines(s.subrange(0, n), st).len() ==> #[trigger] file_lines(s, st)[j]
                == file_lines(s.subrange(0, n), st)[j],
    decreases s.len(),
{
    if n == s.len() {
        assert(s.subrange(0, n) =~= s);
    } else {
        let s2 = s.drop_last();
        lemma_file_lines_prefix(s2, st, n);
        assert(s2.subrange(0, n) =~= s.subrange(0, n));
    }
}

/// The trimmed lines of the file for `st`: those before the closing brace,
/// the closing brace, and the empty piece after the last line break.
proof fn lemma_file_trimmed(s: Entries, st: PluginState)
    requires
        st != PluginState::Removed,
        forall|i: int| 0 <= i < s.len() && included(#[trigger] s[i].1, st) ==> clean(s[i].1),
    ensures
        trimmed_lines(render_text(s, st)).len() == file_lines(s, st).len() + 1,
        forall|j: int|
            0 <= j < file_lines(s, st).len() - 1 ==> #[trigger] trimmed_lines(render_text(s, st))[j]
                == trim(file_lines(s, st)[j]),
        trimmed_lines(render_text(s, st))[file_lines(s, st).len() - 1] == "}"@,
        trimmed_lines(render_text(s, st))[file_lines(s, st).len() as int] == Seq::<char>::empty(),
{
    reveal_strlit("}");
    reveal_strlit("\n");
    lemma_split_file(s, st);
    lemma_file_lines_last_blank(s, st);
    let fl = file_lines(s, st);
    let x = header_text(st) + blocks_text(s, st);
    assert(render_text(s, st) =~= (x + "}"@) + seq!['\n']);
    lemma_split_append_free(x, "}"@, '\n');
    lemma_split_push_sep(x + "}"@, '\n');
    let sp = fl.update(fl.len() - 1, fl.last() + "}"@).push(Seq::<char>::empty());
    assert(split_on(render_text(s, st), '\n') == sp);
    let t = trimmed_lines(render_text(s, st));
    assert(t == sp.map_values(|l: Seq<char>| trim(l)));
    assert(trim(fl.last() + "}"@) == "}"@) by {
        lemma_trim_indented(fl.last(), "}"@);
    }
    assert(t[fl.len() - 1] == trim(sp[fl.len() - 1]));
    assert(t[fl.len() as int] == trim(sp[fl.len() as int]));
}

proof fn lemma_trimmed_block_lines(p: PluginView)
    ensures
        trim(block_lines(p)[0]) == "\"plugin\""@,
        trim(block_lines(p)[1]) == "{"@,
        trim(block_lines(p)[2]) == bare_field_line("name"@, p.name),
        trim(block_lines(p)[3]) == bare_field_line("script"@, p.script),
        trim(block_lines(p)[4]) == bare_field_line("concommandns"@, p.concommandns),
        trim(block_lines(p)[5]) == bare_field_line("adminlevel"@, int_text(p.adminlevel as int)),
        trim(block_lines(p)[6]) == bare_field_line("maps_included"@, p.maps_included),
        trim(block_lines(p)[7]) == bare_field_line("maps_excluded"@, p.maps_excluded),
        trim(block_lines(p)[8]) == "}"@,
{
    reveal_strlit("        ");
    reveal_strlit("\"plugin\"");
    reveal_strlit("{");
    reveal_strlit("}");
    lemma_trim_indented("        "@, "\"plugin\""@);
    lemma_trim_indented("        "@, "{"@);
    lemma_trim_indented("        "@, "}"@);
    lemma_trim_field_line("name"@, p.name);
    lemma_trim_field_line("script"@, p.script);
    lemma_trim_field_line("concommandns"@, p.concommandns);
    lemma_trim_field_line("adminlevel"@, int_text(p.adminlevel as int));
    lemma_trim_field_line("maps_included"@, p.maps_included);
    lemma_trim_field_line("maps_excluded"@, p.maps_excluded);
}

proof fn lemma_parse_prefix(s: Entries, st: PluginState, n: int)
    requires
        entries_wf(s),
        st != PluginState::Removed,
        forall|i: int| 0 <= i < s.len() && included(#[trigger] s[i].1, st) ==> clean(s[i].1),
        0 <= n <= s.len(),
    ensures
        parse_text(render_text(s, st), st) == parse_lines(
            trimmed_lines(render_text(s, st)),
            file_lines(s.subrange(0, n), st).len() - 1,
            st,
            kept(s.subrange(0, n), st),
            0,
        ),
    decreases n,
{
    let t = trimmed_lines(render_text(s, st));
    let fl = file_lines(s, st);
    lemma_file_trimmed(s, st);
    lemma_file_lines_last_blank(s, st);
    reveal_strlit("\"plugin\"");
    reveal_strlit("\"plugins\"");
    reveal_strlit("\"disabled_plugins\"");
    reveal_strlit("{");
    if n == 0 {
        lemma_file_lines_prefix(s, st, 0);
        let f0 = file_lines(s.subrange(0, 0), st);
        assert(f0 == seq![file_title(st), "{"@, Seq::<char>::empty()]);
        assert(fl[0] == file_title(st) && fl[1] == "{"@);
        lemma_trim_fixed(file_title(st));
        lemma_trim_fixed("{"@);
        assert(t[0] == file_title(st));
        assert(t[1] == "{"@);
        if st == PluginState::Disabled {
            lemma_not_prefix(t[0], "\"plugin\""@, 1);
        } else {
            lemma_not_prefix(t[0], "\"plugin\""@, 7);
        }
        lemma_not_prefix(t[1], "\"plugin\""@, 0);
        assert(kept(s.subrange(0, 0), st) == Seq::<(Seq<char>, PluginView)>::empty());
        let e = Seq::<(Seq<char>, PluginView)>::empty();
        assert(parse_text(render_text(s, st), st) == parse_lines(t, 0, st, e, 0));
        assert(parse_lines(t, 0, st, e, 0) == parse_lines(t, 1, st, e, 0));
        assert(parse_lines(t, 1, st, e, 0) == parse_lines(t, 2, st, e, 0));
        assert(f0.len() - 1 == 2);
    } else {
        lemma_parse_prefix(s, st, n - 1);
        let sa = s.subrange(0, n - 1);
        let sb = s.subrange(0, n);
        assert(sb.drop_last() =~= sa);
        assert(sb.last() == s[n - 1]);
        let p = s[n - 1].1;
        if included(p, st) {
            let fa = file_lines(sa, st);
            let i = fa.len() - 1;
            lemma_file_lines_prefix(s, st, n - 1);
            lemma_file_lines_prefix(s, st, n);
            lemma_file_lines_last_blank(sa, st);
            assert(file_lines(sb, st) == fa + block_lines(p) + seq!["        "@]);
            assert(i + 10 <= fl.len() - 1);
            assert forall|k: int| 0 <= k < 9 implies #[trigger] t[i + 1 + k] == trim(
                block_lines(p)[k],
            ) by {
                assert(fl[i + 1 + k] == file_lines(sb, st)[i + 1 + k]);
                assert(file_lines(sb, st)[i + 1 + k] == block_lines(p)[k]);
            }
            assert(fl[i] == fa[i]);
            lemma_trim_blank(fa.last());
            assert(t[i] == Seq::<char>::empty());
            lemma_trimmed_block_lines(p);
            assert(t[i + 1 + 0] == trim(block_lines(p)[0]));
            assert(t[i + 1 + 1] == trim(block_lines(p)[1]));
            assert(t[i + 1 + 2] == trim(block_lines(p)[2]));
            assert(t[i + 1 + 3] == trim(block_lines(p)[3]));
            assert(t[i + 1 + 4] == trim(block_lines(p)[4]));
            assert(t[i + 1 + 5] == trim(block_lines(p)[5]));
            assert(t[i + 1 + 6] == trim(block_lines(p)[6]));
            assert(t[i + 1 + 7] == trim(block_lines(p)[7]));
            assert(t[i + 1 + 8] == trim(block_lines(p)[8]));
            assert(clean(p));
            assert(p.name.len() > 0) by {
                if p.name.len() == 0 {
                    assert(trim_start(p.name) == p.name);
                    assert(trim_end(p.name) == p.name);
                }
            }
            let ka = kept(sa, st);
            assert(s[n - 1].0 == p.name);
            assert forall|m: int| 0 <= m < sa.len() implies sa[m].0 != p.name by {
                assert(sa[m] == s[m]);
            }
            lemma_kept_from(sa, st, p.name);
            lemma_key_index_bounds(ka, p.name);
            assert(PluginView { state: st, ..p } == p);
            lemma_parse_block(t, i, st, ka, 0, p);
            assert(upsert(ka, p.name, p) == ka.push(s[n - 1]));
            assert(kept(sb, st) == ka.push(s[n - 1]));
            assert(file_lines(sb, st).len() - 1 == i + 10);
        } else {
            assert(file_lines(sb, st) == file_lines(sa, st));
            assert(kept(sb, st) == kept(sa, st));
        }
    }
}

/// Writing the records in state `st` to a file and reading the file back
/// gives exactly the well-formed records in that state, each under its
/// name and with every field as it was, provided no value holds a double
/// quote or a line break and each level lies in the levels' domain.
pub proof fn lemma_round_trip(s: Entries, st: PluginState)
    requires
        entries_wf(s),
        st != PluginState::Removed,
        forall|i: int| 0 <= i < s.len() && included(#[trigger] s[i].1, st) ==> clean(s[i].1),
    ensures
        parse_text(render_text(s, st), st) == kept(s, st),
{
    reveal_strlit("\"plugin\"");
    reveal_strlit("}");
    lemma_parse_prefix(s, st, s.len() as int);
    assert(s.subrange(0, s.len() as int) =~= s);
    let t = trimmed_lines(render_text(s, st));
    let fl = file_lines(s, st);
    lemma_file_trimmed(s, st);
    lemma_file_lines_last_blank(s, st);
    let i = fl.len() - 1;
    lemma_not_prefix(t[i], "\"plugin\""@, 0);
    assert(!starts_with(t[i + 1], "\"plugin\""@));
    let k = kept(s, st);
    assert(parse_lines(t, i, st, k, 0) == parse_lines(t, i + 1, st, k, 0));
    assert(parse_lines(t, i + 1, st, k, 0) == parse_lines(t, i + 2, st, k, 0));
    assert(parse_lines(t, i + 2, st, k, 0) == k);
}

proof fn lemma_blocks_of_kept(s: Entries, st: PluginState)
    requires
        st != PluginState::Removed,
    ensures
        blocks_text(kept(s, st), st) == blocks_text(s, st),
    decreases s.len(),
{
    if s.len() > 0 {
        lemma_blocks_of_kept(s.drop_last(), st);
        let k2 = kept(s.drop_last(), st);
        if included(s.last().1, st) {
            assert(k2.push(s.last()).drop_last() =~= k2);
        }
    }
}

/// Saving, reading the saved file back and saving again writes the same
/// bytes as the first save, under the conditions of `lemma_round_trip`.
pub proof fn lemma_save_reload_save(s: Entries, st: PluginState)
    requires
        entries_wf(s),
        st != PluginState::Removed,
        forall|i: int| 0 <= i < s.len() && included(#[trigger] s[i].1, st) ==> clean(s[i].1),
    ensures
        render_text(parse_text(render_text(s, st), st), st) == render_text(s, st),
{
    lemma_round_trip(s, st);
    lemma_blocks_of_kept(s, st);
}

} // verus!
