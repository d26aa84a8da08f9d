//! The plugin file format: parsing a file into a registry and writing a
//! registry back out, one file per state.
use vstd::prelude::*;
use crate::text::{
    chars_of, decimal, decimal_string, digit_char, lemma_split_len_pos, split_on, starts_with,
    string_of, trim, trim_end, trim_start, trimmed_range,
};
use crate::plugin::{
    PluginEntry, PluginState, PluginView, admin_level_in_domain, copy_string, entry_text,
    fresh_view,
};
use crate::registry::{Entries, PluginRegistry, lemma_lookup_upsert, lookup, upsert};

verus! {

/// The lines of a text, split at each newline and trimmed.
pub open spec fn trimmed_lines(t: Seq<char>) -> Seq<Seq<char>> {
    split_on(t, '\n').map_values(|l: Seq<char>| trim(l))
}

/// The value of a `"key" "value"` line: the fourth piece between double
/// quotes, if there is one.
pub open spec fn field_value(line: Seq<char>) -> Option<Seq<char>> {
    let p = split_on(line, '"');
    if p.len() > 3 {
        Some(p[3])
    } else {
        None
    }
}

pub open spec fn value_or_empty(line: Seq<char>) -> Seq<char> {
    match field_value(line) {
        Some(v) => v,
        None => Seq::empty(),
    }
}

pub open spec fn is_digit(c: char) -> bool {
    '0' as u32 <= c as u32 && c as u32 <= '9' as u32
}

pub open spec fn all_digits(s: Seq<char>) -> bool {
    s.len() > 0 && forall|i: int| 0 <= i < s.len() ==> is_digit(#[trigger] s[i])
}

/// The number that a string of decimal digits stands for.
pub open spec fn digits_value(s: Seq<char>) -> nat
    decreases s.len(),
{
    if s.len() == 0 {
        0
    } else {
        digits_value(s.drop_last()) * 10 + (s.last() as u32 - '0' as u32) as nat
    }
}

/// A decimal integer with an optional sign that fits in an `i8`, as
/// `str::parse::<i8>` accepts it.
pub open spec fn small_int(s: Seq<char>) -> Option<int> {
    if s.len() > 0 && s[0] == '-' {
        let d = s.drop_first();
        if all_digits(d) && digits_value(d) <= 128 {
            Some(-(digits_value(d) as int))
        } else {
            None
        }
    } else if s.len() > 0 && s[0] == '+' {
        let d = s.drop_first();
        if all_digits(d) && digits_value(d) <= 127 {
            Some(digits_value(d) as int)
        } else {
            None
        }
    } else if all_digits(s) && digits_value(s) <= 127 {
        Some(digits_value(s) as int)
    } else {
        None
    }
}

/// The admin level that a value stands for: the number when it lies in the
/// levels' domain, else 0.
pub open spec fn admin_level_of(s: Seq<char>) -> i8 {
    match small_int(s) {
        Some(v) => if admin_level_in_domain(v) { v as i8 } else { 0 },
        None => 0,
    }
}

/// The admin level that an `adminlevel` line sets.
pub open spec fn admin_level_of_line(line: Seq<char>) -> i8 {
    match field_value(line) {
        Some(v) => admin_level_of(v),
        None => 0,
    }
}

/// A record being read: `line` applied to `d`.
pub open spec fn apply_line(d: PluginView, line: Seq<char>) -> PluginView {
    if starts_with(line, "\"name\""@) {
        PluginView { name: value_or_empty(line), ..d }
    } else if starts_with(line, "\"script\""@) {
        PluginView { script: value_or_empty(line), ..d }
    } else if starts_with(line, "\"concommandns\""@) {
        PluginView { concommandns: value_or_empty(line), ..d }
    } else if starts_with(line, "\"adminlevel\""@) {
        PluginView { adminlevel: admin_level_of_line(line), ..d }
    } else if starts_with(line, "\"maps_included\""@) {
        PluginView { maps_included: value_or_empty(line), ..d }
    } else if starts_with(line, "\"maps_excluded\""@) {
        PluginView { maps_excluded: value_or_empty(line), ..d }
    } else {
        d
    }
}

/// A record with every field empty, level 0, in state `st`.
pub open spec fn blank_view(st: PluginState) -> PluginView {
    PluginView { state: st, ..fresh_view(Seq::empty(), Seq::empty()) }
}

/// The record that the lines `from..to` describe.
pub open spec fn scan_fields(l: Seq<Seq<char>>, from: int, to: int, st: PluginState) -> PluginView
    decreases to - from,
{
    if to <= from {
        blank_view(st)
    } else {
        apply_line(scan_fields(l, from, to - 1, st), l[to - 1])
    }
}

pub open spec fn is_close_line(line: Seq<char>) -> bool {
    line.len() > 0 && line[0] == '}'
}

/// The first line at or after `i` that closes a block, or the number of lines.
pub open spec fn block_end(l: Seq<Seq<char>>, i: int) -> int
    decreases l.len() - i,
{
    if i >= l.len() {
        l.len() as int
    } else if i >= 0 && is_close_line(l[i]) {
        i
    } else {
        block_end(l, i + 1)
    }
}

pub proof fn lemma_block_end_bounds(l: Seq<Seq<char>>, i: int)
    requires
        0 <= i,
    ensures
        i <= block_end(l, i) || block_end(l, i) == l.len(),
        block_end(l, i) <= l.len(),
        i <= l.len() ==> i <= block_end(l, i),
        block_end(l, i) < l.len() ==> is_close_line(l[block_end(l, i)]),
        forall|j: int| i <= j < block_end(l, i) ==> !is_close_line(#[trigger] l[j]),
    decreases l.len() - i,
{
    if i < l.len() && !is_close_line(l[i]) {
        lemma_block_end_bounds(l, i + 1);
    }
}

/// The key under which the `n`-th block without a name is kept. It holds
/// double quotes, which no name read from a file does.
pub open spec fn unnamed_key(n: nat) -> Seq<char> {
    "\"unnamed "@ + decimal(n) + "\""@
}

/// The registry that the trimmed lines from `i` on add to `acc`, where
/// `unnamed` blocks without a name were met before.
pub open spec fn parse_lines(
    l: Seq<Seq<char>>,
    i: int,
    st: PluginState,
    acc: Entries,
    unnamed: nat,
) -> Entries
    decreases l.len() + 1 - i,
{
    if i < 0 || i >= l.len() {
        acc
    } else if starts_with(l[i], "\"plugin\""@) {
        let end = block_end(l, i + 1);
        proof {
            lemma_block_end_bounds(l, i + 1);
        }
        let p = scan_fields(l, i + 1, end, st);
        if p.name.len() == 0 {
            parse_lines(l, end + 1, st, upsert(acc, unnamed_key(unnamed), p), unnamed + 1)
        } else {
            parse_lines(l, end + 1, st, upsert(acc, p.name, p), unnamed)
        }
    } else {
        parse_lines(l, i + 1, st, acc, unnamed)
    }
}

/// The registry that a plugin file's text describes, every record in state `st`.
pub open spec fn parse_text(t: Seq<char>, st: PluginState) -> Entries {
    parse_lines(trimmed_lines(t), 0, st, Seq::empty(), 0)
}

/// The opening of a file: the enabled list is `"plugins"`, the disabled one
/// `"disabled_plugins"`.
pub open spec fn header_text(st: PluginState) -> Seq<char> {
    file_title(st) + "\n"@ + "{"@ + "\n"@
}

/// The first line of a file.
pub open spec fn file_title(st: PluginState) -> Seq<char> {
    if st == PluginState::Disabled {
        "\"disabled_plugins\""@
    } else {
        "\"plugins\""@
    }
}

/// The blocks of the records of `s` in state `st`, in storage order.
pub open spec fn blocks_text(s: Entries, st: PluginState) -> Seq<char>
    decreases s.len(),
{
    if s.len() == 0 {
        Seq::empty()
    } else {
        blocks_text(s.drop_last(), st) + if s.last().1.state == st {
            entry_text(s.last().1)
        } else {
            Seq::empty()
        }
    }
}

/// The file that holds the records of `s` in state `st`.
pub open spec fn render_text(s: Entries, st: PluginState) -> Seq<char> {
    header_text(st) + blocks_text(s, st) + "}"@ + "\n"@
}

/// The bounds of each line of `v`, split at newlines.
fn line_bounds(v: &Vec<char>) -> (r: Vec<(usize, usize)>)
    ensures
        r@.len() == split_on(v@, '\n').len(),
        forall|j: int|
            #![trigger r@[j]]
            0 <= j < r@.len() ==> r@[j].0 <= r@[j].1 <= v@.len() && v@.subrange(
                r@[j].0 as int,
                r@[j].1 as int,
            ) == split_on(v@, '\n')[j],
{
    let mut r: Vec<(usize, usize)> = Vec::new();
    let mut start: usize = 0;
    let mut i: usize = 0;
    assert(v@.subrange(0, 0) =~= Seq::<char>::empty());
    while i < v.len()
        invariant
            start <= i <= v.len(),
            split_on(v@.subrange(0, i as int), '\n').len() == r@.len() + 1,
            forall|j: int|
                #![trigger r@[j]]
                0 <= j < r@.len() ==> r@[j].0 <= r@[j].1 <= v@.len() && v@.subrange(
                    r@[j].0 as int,
                    r@[j].1 as int,
                ) == split_on(v@.subrange(0, i as int), '\n')[j],
            v@.subrange(start as int, i as int) == split_on(v@.subrange(0, i as int), '\n').last(),
        decreases v.len() - i,
    {
        let ghost before = v@.subrange(0, i as int);
        let ghost sp = split_on(before, '\n');
        let ghost r0 = r@;
        assert(v@.subrange(0, i + 1).drop_last() =~= before);
        if v[i] == '\n' {
            assert(split_on(v@.subrange(0, i + 1), '\n') == sp.push(Seq::<char>::empty()));
            r.push((start, i));
            start = i + 1;
            assert(v@.subrange(start as int, i + 1) =~= Seq::<char>::empty());
            assert forall|j: int| 0 <= j < r@.len() implies r@[j].0 <= r@[j].1 <= v@.len()
                && v@.subrange(r@[j].0 as int, r@[j].1 as int) == split_on(
                v@.subrange(0, i + 1),
                '\n',
            )[j] by {
                assert(split_on(v@.subrange(0, i + 1), '\n')[j] == sp[j]);
                if j < r0.len() {
                    assert(r@[j] == r0[j]);
                    assert(v@.subrange(r0[j].0 as int, r0[j].1 as int) == sp[j]);
                } else {
                    assert(j == sp.len() - 1);
                }
            }
        } else {
            assert(split_on(v@.subrange(0, i + 1), '\n') == sp.update(
                sp.len() - 1,
                sp.last().push(v@[i as int]),
            ));
            assert(v@.subrange(start as int, i + 1) =~= v@.subrange(start as int, i as int).push(
                v@[i as int],
            ));
            assert forall|j: int| #![trigger r@[j]] 0 <= j < r@.len() implies r@[j].0 <= r@[j].1
                <= v@.len() && v@.subrange(r@[j].0 as int, r@[j].1 as int) == split_on(
                v@.subrange(0, i + 1),
                '\n',
            )[j] by {
                assert(split_on(v@.subrange(0, i + 1), '\n')[j] == sp[j]);
            }
        }
        i = i + 1;
    }
    assert(v@.subrange(0, i as int) =~= v@);
    let ghost r0 = r@;
    r.push((start, i));
    assert forall|j: int| 0 <= j < r@.len() implies r@[j].0 <= r@[j].1 <= v@.len()
        && v@.subrange(r@[j].0 as int, r@[j].1 as int) == split_on(v@, '\n')[j] by {
        if j < r0.len() {
            assert(r@[j] == r0[j]);
            assert(v@.subrange(r0[j].0 as int, r0[j].1 as int) == split_on(v@, '\n')[j]);
        }
    }
    r
}

/// The bounds of the value of the line `v[a..b]`.
fn field_value_range(v: &Vec<char>, a: usize, b: usize) -> (r: Option<(usize, usize)>)
    requires
        a <= b <= v.len(),
    ensures
        match r {
            Some((x, y)) => a <= x <= y <= b && field_value(v@.subrange(a as int, b as int))
                == Some(v@.subrange(x as int, y as int)),
            None => field_value(v@.subrange(a as int, b as int)) is None,
        },
{
    let mut q: usize = 0;
    let mut vs: usize = a;
    let mut ve: usize = a;
    let mut i: usize = a;
    assert(v@.subrange(a as int, a as int) =~= Seq::<char>::empty());
    while i < b
        invariant
            a <= i <= b <= v.len(),
            q <= i - a,
            a <= vs <= i,
            split_on(v@.subrange(a as int, i as int), '"').len() == q + 1,
            q == 3 ==> a <= vs <= i && split_on(v@.subrange(a as int, i as int), '"')[3]
                == v@.subrange(vs as int, i as int),
            q > 3 ==> a <= vs <= ve <= i && split_on(v@.subrange(a as int, i as int), '"')[3]
                == v@.subrange(vs as int, ve as int),
        decreases b - i,
    {
        assert(v@.subrange(a as int, i + 1).drop_last() =~= v@.subrange(a as int, i as int));
        if v[i] == '"' {
            if q == 2 {
                vs = i + 1;
                assert(v@.subrange(vs as int, i + 1) =~= Seq::<char>::empty());
            } else if q == 3 {
                ve = i;
            }
            q = q + 1;
        } else if q == 3 {
            assert(v@.subrange(vs as int, i + 1) =~= v@.subrange(vs as int, i as int).push(
                v@[i as int],
            ));
        }
        i = i + 1;
    }
    if q == 3 {
        Some((vs, b))
    } else if q > 3 {
        Some((vs, ve))
    } else {
        None
    }
}

/// The bounds of each trimmed line of `v`.
fn trimmed_line_bounds(v: &Vec<char>) -> (r: Vec<(usize, usize)>)
    ensures
        r@.len() == trimmed_lines(v@).len(),
        forall|j: int|
            #![trigger r@[j]]
            0 <= j < r@.len() ==> r@[j].0 <= r@[j].1 <= v@.len() && v@.subrange(
                r@[j].0 as int,
                r@[j].1 as int,
            ) == trimmed_lines(v@)[j],
{
    let lines = line_bounds(v);
    let mut r: Vec<(usize, usize)> = Vec::new();
    let mut j: usize = 0;
    while j < lines.len()
        invariant
            j <= lines@.len(),
            lines@.len() == split_on(v@, '\n').len(),
            forall|k: int|
                #![trigger lines@[k]]
                0 <= k < lines@.len() ==> lines@[k].0 <= lines@[k].1 <= v@.len() && v@.subrange(
                    lines@[k].0 as int,
                    lines@[k].1 as int,
                ) == split_on(v@, '\n')[k],
            r@.len() == j,
            forall|k: int|
                #![trigger r@[k]]
                0 <= k < j ==> r@[k].0 <= r@[k].1 <= v@.len() && v@.subrange(
                    r@[k].0 as int,
                    r@[k].1 as int,
                ) == trimmed_lines(v@)[k],
        decreases lines@.len() - j,
    {
        let (a, b) = lines[j];
        let t = trimmed_range(v, a, b);
        assert(trimmed_lines(v@)[j as int] == trim(split_on(v@, '\n')[j as int]));
        let ghost r0 = r@;
        r.push(t);
        assert forall|k: int| #![trigger r@[k]] 0 <= k < j + 1 implies r@[k].0 <= r@[k].1
            <= v@.len() && v@.subrange(r@[k].0 as int, r@[k].1 as int)
            == trimmed_lines(v@)[k] by {
            if k < j {
                assert(r@[k] == r0[k]);
            }
        }
        j = j + 1;
    }
    r
}

/// Whether the characters `v[a..b]` begin with `lit`.
fn range_starts_with(v: &Vec<char>, a: usize, b: usize, lit: &str) -> (r: bool)
    requires
        a <= b <= v.len(),
    ensures
        r == starts_with(v@.subrange(a as int, b as int), lit@),
{
    let p = chars_of(lit);
    if p.len() > b - a {
        return false;
    }
    let mut k: usize = 0;
    while k < p.len()
        invariant
            k <= p@.len() <= b - a,
            p@ == lit@,
            a + p@.len() <= b <= v.len(),
            forall|j: int| 0 <= j < k ==> v@[a + j] == p@[j],
        decreases p@.len() - k,
    {
        if v[a + k] != p[k] {
            assert(v@.subrange(a as int, b as int).subrange(0, p@.len() as int)[k as int] == v@[a
                + k]);
            assert(v@.subrange(a as int, b as int).subrange(0, p@.len() as int) != lit@);
            return false;
        }
        k = k + 1;
    }
    assert(v@.subrange(a as int, b as int).subrange(0, p@.len() as int) =~= p@);
    true
}

/// The admin level that the characters `v[x..y]` stand for.
fn admin_level_at(v: &Vec<char>, x: usize, y: usize) -> (r: i8)
    requires
        x <= y <= v.len(),
    ensures
        r == admin_level_of(v@.subrange(x as int, y as int)),
{
    let ghost s = v@.subrange(x as int, y as int);
    let mut k = x;
    let mut neg = false;
    if k < y && v[k] == '-' {
        neg = true;
        k = k + 1;
    } else if k < y && v[k] == '+' {
        k = k + 1;
    }
    let ghost d = v@.subrange(k as int, y as int);
    assert(k > x ==> d =~= s.drop_first());
    assert(k == x ==> d =~= s);
    assert(s.len() > 0 ==> s[0] == v@[x as int]);
    if k == y {
        return 0;
    }
    let mut val: u32 = 0;
    let mut j = k;
    assert(v@.subrange(k as int, k as int) =~= Seq::<char>::empty());
    while j < y
        invariant
            x <= k < y <= v.len(),
            k <= j <= y,
            d == v@.subrange(k as int, y as int),
            s == v@.subrange(x as int, y as int),
            neg ==> s.len() > 0 && s[0] == '-' && d == s.drop_first(),
            !neg && k > x ==> s.len() > 0 && s[0] == '+' && d == s.drop_first(),
            k == x ==> d == s && s[0] != '-' && s[0] != '+',
            forall|i: int| k <= i < j ==> is_digit(#[trigger] v@[i]),
            val <= 10009,
            val <= 1000 ==> val == digits_value(v@.subrange(k as int, j as int)),
            val > 1000 ==> digits_value(v@.subrange(k as int, j as int)) > 1000,
        decreases y - j,
    {
        let c = v[j];
        let cu = c as u32;
        if !('0' as u32 <= cu && cu <= '9' as u32) {
            assert(d[j - k] == v@[j as int]);
            assert(!is_digit(d[j - k]));
            assert(!all_digits(d));
            return 0;
        }
        let digit = cu - ('0' as u32);
        assert(v@.subrange(k as int, j + 1).drop_last() =~= v@.subrange(k as int, j as int));
        if val <= 1000 {
            val = val * 10 + digit;
        } else {
            val = 1001;
        }
        j = j + 1;
    }
    assert(v@.subrange(k as int, j as int) =~= d);
    assert forall|i: int| 0 <= i < d.len() implies is_digit(#[trigger] d[i]) by {
        assert(d[i] == v@[k + i]);
    }
    assert(all_digits(d));
    if neg {
        if val <= 1 {
            proof {
                assert(small_int(s) == Some(-(val as int)));
            }
            -(val as i8)
        } else {
            0
        }
    } else if val <= 2 {
        val as i8
    } else {
        0
    }
}

/// The value of the line `v[a..b]`, or an empty string.
fn value_string(v: &Vec<char>, a: usize, b: usize) -> (r: String)
    requires
        a <= b <= v.len(),
    ensures
        r@ == value_or_empty(v@.subrange(a as int, b as int)),
{
    match field_value_range(v, a, b) {
        Some((x, y)) => string_of(v, x, y),
        None => String::new(),
    }
}

/// The admin level that the line `v[a..b]` sets.
fn admin_level_line(v: &Vec<char>, a: usize, b: usize) -> (r: i8)
    requires
        a <= b <= v.len(),
    ensures
        r == admin_level_of_line(v@.subrange(a as int, b as int)),
{
    match field_value_range(v, a, b) {
        Some((x, y)) => admin_level_at(v, x, y),
        None => 0,
    }
}

/// Applies the line `v[a..b]` to the record being read.
fn apply_line_to(d: &mut PluginEntry, v: &Vec<char>, a: usize, b: usize)
    requires
        a <= b <= v.len(),
    ensures
        final(d)@ == apply_line(old(d)@, v@.subrange(a as int, b as int)),
{
    if range_starts_with(v, a, b, "\"name\"") {
        d.name = value_string(v, a, b);
    } else if range_starts_with(v, a, b, "\"script\"") {
        d.script = value_string(v, a, b);
    } else if range_starts_with(v, a, b, "\"concommandns\"") {
        d.concommandns = value_string(v, a, b);
    } else if range_starts_with(v, a, b, "\"adminlevel\"") {
        d.adminlevel = admin_level_line(v, a, b);
    } else if range_starts_with(v, a, b, "\"maps_included\"") {
        d.maps_included = value_string(v, a, b);
    } else if range_starts_with(v, a, b, "\"maps_excluded\"") {
        d.maps_excluded = value_string(v, a, b);
    }
}

/// `unnamed_key(n)` as a string.
fn unnamed_key_string(n: u64) -> (r: String)
    ensures
        r@ == unnamed_key(n as nat),
{
    let mut r = String::new();
    r.append("\"unnamed ");
    let digits = decimal_string(n);
    r.append(digits.as_str());
    r.append("\"");
    r
}

/// The text of the file that lists the records of `reg` in state `state`:
/// each well-formed record in that state in one block, in storage order,
/// inside the file's outer braces.
pub fn serialize_plugins(reg: &PluginRegistry, state: PluginState) -> (r: String)
    requires
        state != PluginState::Removed,
    ensures
        r@ == render_text(reg@, state),
{
    let mut r = String::new();
    if state == PluginState::Disabled {
        r.append("\"disabled_plugins\"");
    } else {
        r.append("\"plugins\"");
    }
    r.append("\n");
    r.append("{");
    r.append("\n");
    let n = reg.len();
    let mut i: usize = 0;
    assert(reg@.subrange(0, 0) =~= Seq::<(Seq<char>, PluginView)>::empty());
    while i < n
        invariant
            i <= n == reg@.len(),
            r@ == header_text(state) + blocks_text(reg@.subrange(0, i as int), state),
        decreases n - i,
    {
        let p = reg.plugin_at(i);
        assert(reg@.subrange(0, i + 1).drop_last() =~= reg@.subrange(0, i as int));
        if p.state == state {
            let t = p.write_plugin();
            r.append(t.as_str());
        }
        assert(r@ =~= header_text(state) + blocks_text(reg@.subrange(0, i + 1), state));
        i = i + 1;
    }
    assert(reg@.subrange(0, n as int) =~= reg@);
    r.append("}");
    r.append("\n");
    r
}

/// Reads a plugin file into a registry, every record in state `state`.
/// Never fails: unknown keys are ignored, missing values are empty, and a
/// level that is not a number in the levels' domain is 0. A block without a
/// name is kept under a key of its own; a later block replaces an earlier one
/// of the same name.
pub fn load_plugins(text: &str, state: PluginState) -> (r: PluginRegistry)
    ensures
        r.wf(),
        r@ == parse_text(text@, state),
{
    let v = chars_of(text);
    let tl = trimmed_line_bounds(&v);
    let ghost l = trimmed_lines(v@);
    let mut reg = PluginRegistry::new();
    let mut unnamed: u64 = 0;
    let mut i: usize = 0;
    while i < tl.len()
        invariant
            v@ == text@,
            l == trimmed_lines(v@),
            tl@.len() == l.len(),
            forall|j: int|
                #![trigger tl@[j]]
                0 <= j < tl@.len() ==> tl@[j].0 <= tl@[j].1 <= v@.len() && v@.subrange(
                    tl@[j].0 as int,
                    tl@[j].1 as int,
                ) == l[j],
            reg.wf(),
            unnamed <= i,
            i <= tl@.len(),
            parse_text(text@, state) == parse_lines(l, i as int, state, reg@, unnamed as nat),
        decreases tl@.len() - i,
    {
        let (a, b) = tl[i];
        let ghost reg0 = reg@;
        let ghost un0 = unnamed as nat;
        assert(l[i as int] == v@.subrange(a as int, b as int));
        if range_starts_with(&v, a, b, "\"plugin\"") {
            let ghost start = i as int;
            i = i + 1;
            let mut d = PluginEntry {
                name: String::new(),
                script: String::new(),
                state,
                concommandns: String::new(),
                adminlevel: 0,
                maps_included: String::new(),
                maps_excluded: String::new(),
            };
            proof {
                assert(d@ == scan_fields(l, start + 1, start + 1, state));
                lemma_block_end_bounds(l, start + 1);
            }
            while i < tl.len() && !(tl[i].0 < tl[i].1 && v[tl[i].0] == '}')
                invariant
                    v@ == text@,
                    tl@.len() == l.len(),
                    forall|j: int|
                        #![trigger tl@[j]]
                        0 <= j < tl@.len() ==> tl@[j].0 <= tl@[j].1 <= v@.len() && v@.subrange(
                            tl@[j].0 as int,
                            tl@[j].1 as int,
                        ) == l[j],
                    start + 1 <= i <= tl@.len(),
                    d@ == scan_fields(l, start + 1, i as int, state),
                    block_end(l, start + 1) == block_end(l, i as int),
                decreases tl@.len() - i,
            {
                proof {
                    assert(l[i as int] =~= v@.subrange(tl@[i as int].0 as int, tl@[i as int].1 as int));
                }
                apply_line_to(&mut d, &v, tl[i].0, tl[i].1);
                i = i + 1;
            }
            proof {
                if i < tl@.len() {
                    assert(l[i as int] =~= v@.subrange(tl@[i as int].0 as int, tl@[i as int].1 as int));
                    assert(is_close_line(l[i as int]));
                }
                assert(block_end(l, i as int) == i);
            }
            let ghost p = d@;
            let ghost end = i as int;
            if d.name.as_str().is_empty() {
                let key = unnamed_key_string(unnamed);
                reg.upsert(key, d);
                unnamed = unnamed + 1;
            } else {
                let key = copy_string(&d.name);
                reg.upsert(key, d);
            }
            assert(parse_lines(l, start, state, reg0, un0) == parse_lines(
                l,
                end + 1,
                state,
                reg@,
                unnamed as nat,
            ));
            if i < tl.len() {
                i = i + 1;
            } else {
                assert(parse_lines(l, end + 1, state, reg@, unnamed as nat) == reg@);
                assert(parse_lines(l, end, state, reg@, unnamed as nat) == reg@);
            }
        } else {
            i = i + 1;
        }
    }
    reg
}

/// A level that is not a decimal number, or a number outside the levels'
/// domain, reads as 0 wherever it stands in a block.
pub proof fn lemma_admin_level_default(d: PluginView, line: Seq<char>)
    requires
        starts_with(line, "\"adminlevel\""@),
        match field_value(line) {
            Some(v) => small_int(v) is None || !admin_level_in_domain(small_int(v)->Some_0),
            None => true,
        },
    ensures
        apply_line(d, line).adminlevel == 0,
{
    reveal_strlit("\"adminlevel\"");
    reveal_strlit("\"name\"");
    reveal_strlit("\"script\"");
    reveal_strlit("\"concommandns\"");
    assert(line[1] == line.subrange(0, 12)[1]);
    assert(!starts_with(line, "\"name\""@)) by {
        if starts_with(line, "\"name\""@) {
            assert(line.subrange(0, 6)[1] == line[1]);
        }
    }
    assert(!starts_with(line, "\"script\""@)) by {
        if starts_with(line, "\"script\""@) {
            assert(line.subrange(0, 8)[1] == line[1]);
        }
    }
    assert(!starts_with(line, "\"concommandns\""@)) by {
        if starts_with(line, "\"concommandns\""@) {
            assert(line.subrange(0, 14)[1] == line[1]);
        }
    }
}

/// Every record that a file is read into has a level in the levels' domain.
pub proof fn lemma_parsed_levels_in_domain(t: Seq<char>, st: PluginState)
    ensures
        forall|i: int|
            0 <= i < parse_text(t, st).len() ==> admin_level_in_domain(
                #[trigger] parse_text(t, st)[i].1.adminlevel as int,
            ),
{
    lemma_parse_levels(trimmed_lines(t), 0, st, Seq::empty(), 0);
}

proof fn lemma_scan_levels(l: Seq<Seq<char>>, from: int, to: int, st: PluginState)
    ensures
        admin_level_in_domain(scan_fields(l, from, to, st).adminlevel as int),
    decreases to - from,
{
    if to > from {
        lemma_scan_levels(l, from, to - 1, st);
    }
}

proof fn lemma_parse_levels(
    l: Seq<Seq<char>>,
    i: int,
    st: PluginState,
    acc: Entries,
    u: nat,
)
    requires
        forall|j: int| 0 <= j < acc.len() ==> admin_level_in_domain(#[trigger] acc[j].1.adminlevel as int),
    ensures
        forall|j: int|
            0 <= j < parse_lines(l, i, st, acc, u).len() ==> admin_level_in_domain(
                #[trigger] parse_lines(l, i, st, acc, u)[j].1.adminlevel as int,
            ),
    decreases l.len() + 1 - i,
{
    if 0 <= i < l.len() {
        if starts_with(l[i], "\"plugin\""@) {
            let end = block_end(l, i + 1);
            lemma_block_end_bounds(l, i + 1);
            let p = scan_fields(l, i + 1, end, st);
            lemma_scan_levels(l, i + 1, end, st);
            let k = if p.name.len() == 0 { unnamed_key(u) } else { p.name };
            let acc2 = upsert(acc, k, p);
            crate::registry::lemma_key_index_bounds(acc, k);
            assert forall|j: int| 0 <= j < acc2.len() implies admin_level_in_domain(
                #[trigger] acc2[j].1.adminlevel as int,
            ) by {
                if j < acc.len() && acc2[j] != (k, p) {
                    assert(acc2[j] == acc[j]);
                }
            }
            if p.name.len() == 0 {
                lemma_parse_levels(l, end + 1, st, acc2, u + 1);
            } else {
                lemma_parse_levels(l, end + 1, st, acc2, u);
            }
        } else {
            lemma_parse_levels(l, i + 1, st, acc, u);
        }
    }
}

/// A record without a name contributes nothing to a file.
pub proof fn lemma_unnamed_not_written(p: PluginView)
    requires
        p.name.len() == 0,
    ensures
        entry_text(p) == Seq::<char>::empty(),
{
    assert(trim_start(p.name) == p.name);
    assert(trim_end(p.name) == p.name);
}

/// The number of blocks without a name among the lines from `i` on.
pub open spec fn unnamed_blocks(l: Seq<Seq<char>>, i: int, st: PluginState) -> nat
    decreases l.len() + 1 - i,
{
    if i < 0 || i >= l.len() {
        0
    } else if starts_with(l[i], "\"plugin\""@) {
        let end = block_end(l, i + 1);
        proof {
            lemma_block_end_bounds(l, i + 1);
        }
        if scan_fields(l, i + 1, end, st).name.len() == 0 {
            unnamed_blocks(l, end + 1, st) + 1
        } else {
            unnamed_blocks(l, end + 1, st)
        }
    } else {
        unnamed_blocks(l, i + 1, st)
    }
}

pub open spec fn has_no(s: Seq<char>, c: char) -> bool {
    forall|j: int| 0 <= j < s.len() ==> s[j] != c
}

pub proof fn lemma_split_pieces_exclude(s: Seq<char>, c: char)
    ensures
        forall|i: int| 0 <= i < split_on(s, c).len() ==> has_no(#[trigger] split_on(s, c)[i], c),
    decreases s.len(),
{
    if s.len() > 0 {
        lemma_split_pieces_exclude(s.drop_last(), c);
        lemma_split_len_pos(s.drop_last(), c);
        let r = split_on(s.drop_last(), c);
        assert(has_no(r[r.len() - 1], c));
        if s.last() != c {
            assert(has_no(r.last().push(s.last()), c));
        } else {
            assert(has_no(Seq::<char>::empty(), c));
        }
    }
}

proof fn lemma_value_no_quote(line: Seq<char>)
    ensures
        has_no(value_or_empty(line), '"'),
{
    lemma_split_pieces_exclude(line, '"');
}

proof fn lemma_scan_name_no_quote(l: Seq<Seq<char>>, from: int, to: int, st: PluginState)
    ensures
        has_no(scan_fields(l, from, to, st).name, '"'),
    decreases to - from,
{
    if to > from {
        lemma_scan_name_no_quote(l, from, to - 1, st);
        lemma_value_no_quote(l[to - 1]);
    }
}

proof fn lemma_decimal_len(n: nat)
    ensures
        decimal(n).len() >= 1,
        n >= 10 ==> decimal(n).len() >= 2,
    decreases n,
{
    if n >= 10 {
        lemma_decimal_len(n / 10);
    }
}

proof fn lemma_decimal_injective(a: nat, b: nat)
    requires
        decimal(a) == decimal(b),
    ensures
        a == b,
    decreases a,
{
    lemma_decimal_len(a);
    lemma_decimal_len(b);
    if a < 10 && b < 10 {
        assert(decimal(a)[0] == digit_char(a) && decimal(b)[0] == digit_char(b));
    } else if a >= 10 && b >= 10 {
        assert(decimal(a).last() == digit_char(a % 10));
        assert(decimal(b).last() == digit_char(b % 10));
        assert(decimal(a / 10) == decimal(a).drop_last());
        assert(decimal(b / 10) == decimal(b).drop_last());
        lemma_decimal_injective(a / 10, b / 10);
    }
}

proof fn lemma_unnamed_key_injective(a: nat, b: nat)
    requires
        unnamed_key(a) == unnamed_key(b),
    ensures
        a == b,
{
    let pre = "\"unnamed "@;
    let da = decimal(a);
    let db = decimal(b);
    assert(unnamed_key(a).len() == pre.len() + da.len() + "\""@.len());
    assert(unnamed_key(b).len() == pre.len() + db.len() + "\""@.len());
    assert(da.len() == db.len());
    assert(da =~= unnamed_key(a).subrange(pre.len() as int, (pre.len() + da.len()) as int));
    assert(db =~= unnamed_key(b).subrange(pre.len() as int, (pre.len() + db.len()) as int));
    lemma_decimal_injective(a, b);
}

proof fn lemma_unnamed_key_quoted(n: nat)
    ensures
        unnamed_key(n).len() > 0 && unnamed_key(n)[0] == '"',
{
    reveal_strlit("\"unnamed ");
}

proof fn lemma_parse_keeps_unnamed(
    l: Seq<Seq<char>>,
    i: int,
    st: PluginState,
    acc: Entries,
    u: nat,
)
    requires
        forall|j: nat| j < u ==> #[trigger] lookup(acc, unnamed_key(j)) is Some && lookup(
            acc,
            unnamed_key(j),
        )->Some_0.name.len() == 0,
    ensures
        forall|j: nat|
            j < u + unnamed_blocks(l, i, st) ==> #[trigger] lookup(
                parse_lines(l, i, st, acc, u),
                unnamed_key(j),
            ) is Some && lookup(parse_lines(l, i, st, acc, u), unnamed_key(j))->Some_0.name.len()
                == 0,
    decreases l.len() + 1 - i,
{
    if 0 <= i < l.len() {
        if starts_with(l[i], "\"plugin\""@) {
            let end = block_end(l, i + 1);
            lemma_block_end_bounds(l, i + 1);
            let p = scan_fields(l, i + 1, end, st);
            if p.name.len() == 0 {
                let acc2 = upsert(acc, unnamed_key(u), p);
                assert forall|j: nat| j < u + 1 implies #[trigger] lookup(acc2, unnamed_key(j))
                    is Some && lookup(acc2, unnamed_key(j))->Some_0.name.len() == 0 by {
                    lemma_lookup_upsert(acc, unnamed_key(u), p, unnamed_key(j));
                    if j != u && unnamed_key(j) == unnamed_key(u) {
                        lemma_unnamed_key_injective(j, u);
                    }
                }
                lemma_parse_keeps_unnamed(l, end + 1, st, acc2, u + 1);
            } else {
                let acc2 = upsert(acc, p.name, p);
                lemma_scan_name_no_quote(l, i + 1, end, st);
                assert forall|j: nat| j < u implies #[trigger] lookup(acc2, unnamed_key(j))
                    is Some && lookup(acc2, unnamed_key(j))->Some_0.name.len() == 0 by {
                    lemma_lookup_upsert(acc, p.name, p, unnamed_key(j));
                    lemma_unnamed_key_quoted(j);
                    if p.name == unnamed_key(j) {
                        assert(p.name[0] == '"');
                    }
                }
                lemma_parse_keeps_unnamed(l, end + 1, st, acc2, u);
            }
        } else {
            lemma_parse_keeps_unnamed(l, i + 1, st, acc, u);
        }
    }
}

/// A block without a name is kept under a key of its own: with `n` such
/// blocks in a file, the keys `unnamed_key(0)` to `unnamed_key(n - 1)` each
/// hold a record without a name. Such keys hold a double quote, which no
/// name read from a file does, so no named block can displace them.
pub proof fn lemma_unnamed_blocks_kept(t: Seq<char>, st: PluginState, n: nat)
    requires
        n < unnamed_blocks(trimmed_lines(t), 0, st),
    ensures
        lookup(parse_text(t, st), unnamed_key(n)) is Some,
        lookup(parse_text(t, st), unnamed_key(n))->Some_0.name.len() == 0,
{
    lemma_parse_keeps_unnamed(trimmed_lines(t), 0, st, Seq::empty(), 0);
}

} // verus!
