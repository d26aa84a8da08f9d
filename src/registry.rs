//! The in-memory collection of plugin records, keyed by name.
use vstd::prelude::*;
use crate::plugin::{
    PluginEntry, PluginState, PluginView, ValidationError, admin_level_in_domain, copy_string,
    fresh_view, toggled,
};
use crate::text::trim;

verus! {

/// The registry as contracts speak of it: (key, record) pairs in storage order.
pub type Entries = Seq<(Seq<char>, PluginView)>;

/// Index of the last entry under `k`, or -1 when there is none.
pub open spec fn key_index(s: Entries, k: Seq<char>) -> int
    decreases s.len(),
{
    if s.len() == 0 {
        -1
    } else if s.last().0 == k {
        s.len() - 1
    } else {
        key_index(s.drop_last(), k)
    }
}

/// The record stored under `k`.
pub open spec fn lookup(s: Entries, k: Seq<char>) -> Option<PluginView> {
    let i = key_index(s, k);
    if i >= 0 {
        Some(s[i].1)
    } else {
        None
    }
}

/// `s` with `p` stored under `k`: in place when `k` is present, else at the end.
pub open spec fn upsert(s: Entries, k: Seq<char>, p: PluginView) -> Entries {
    let i = key_index(s, k);
    if i >= 0 {
        s.update(i, (k, p))
    } else {
        s.push((k, p))
    }
}

/// No key occurs twice, and a record with a name is stored under that name.
pub open spec fn entries_wf(s: Entries) -> bool {
    &&& forall|i: int, j: int| 0 <= i < j < s.len() ==> s[i].0 != s[j].0
    &&& forall|i: int| 0 <= i < s.len() && s[i].1.name.len() > 0 ==> s[i].0 == s[i].1.name
}

/// `s` with each of `t`'s entries stored in turn: later entries win.
pub open spec fn merged(s: Entries, t: Entries) -> Entries
    decreases t.len(),
{
    if t.len() == 0 {
        s
    } else {
        upsert(merged(s, t.drop_last()), t.last().0, t.last().1)
    }
}

/// `s` without the entry under `k`.
pub open spec fn without_key(s: Entries, k: Seq<char>) -> Entries {
    let i = key_index(s, k);
    if i >= 0 {
        s.remove(i)
    } else {
        s
    }
}


pub proof fn lemma_key_index_bounds(s: Entries, k: Seq<char>)
    ensures
        -1 <= key_index(s, k) < s.len(),
        key_index(s, k) >= 0 ==> s[key_index(s, k)].0 == k,
        key_index(s, k) == -1 <==> forall|i: int| 0 <= i < s.len() ==> s[i].0 != k,
    decreases s.len(),
{
    if s.len() > 0 {
        lemma_key_index_bounds(s.drop_last(), k);
        assert(forall|i: int| 0 <= i < s.len() - 1 ==> s.drop_last()[i] == s[i]);
    }
}

/// Storing under `k` changes what is found under `k` and nothing else.
pub proof fn lemma_lookup_upsert(s: Entries, k: Seq<char>, p: PluginView, k2: Seq<char>)
    ensures
        lookup(upsert(s, k, p), k2) == if k2 == k {
            Some(p)
        } else {
            lookup(s, k2)
        },
{
    lemma_key_index_bounds(s, k);
    lemma_key_index_bounds(s, k2);
    let i = key_index(s, k);
    let u = upsert(s, k, p);
    if i >= 0 {
        lemma_key_index_update(s, i, k, p, k2);
    } else {
        assert(u.drop_last() =~= s);
    }
}

proof fn lemma_key_index_update(s: Entries, i: int, k: Seq<char>, p: PluginView, k2: Seq<char>)
    requires
        0 <= i < s.len(),
        s[i].0 == k,
    ensures
        key_index(s.update(i, (k, p)), k2) == key_index(s, k2),
    decreases s.len(),
{
    let u = s.update(i, (k, p));
    if i < s.len() - 1 {
        assert(u.drop_last() =~= s.drop_last().update(i, (k, p)));
        lemma_key_index_update(s.drop_last(), i, k, p, k2);
    } else {
        assert(u.drop_last() =~= s.drop_last());
    }
}

pub proof fn lemma_upsert_wf(s: Entries, k: Seq<char>, p: PluginView)
    requires
        entries_wf(s),
        p.name.len() > 0 ==> k == p.name,
    ensures
        entries_wf(upsert(s, k, p)),
        upsert(s, k, p).len() == s.len() || upsert(s, k, p).len() == s.len() + 1,
{
    lemma_key_index_bounds(s, k);
}

pub proof fn lemma_remove_wf(s: Entries, k: Seq<char>)
    requires
        entries_wf(s),
    ensures
        entries_wf(without_key(s, k)),
{
    lemma_key_index_bounds(s, k);
    let i = key_index(s, k);
    if i >= 0 {
        let r = s.remove(i);
        assert forall|a: int, b: int| 0 <= a < b < r.len() implies r[a].0 != r[b].0 by {
            let a0 = if a < i { a } else { a + 1 };
            let b0 = if b < i { b } else { b + 1 };
            assert(r[a] == s[a0] && r[b] == s[b0]);
        }
    }
}

/// The fields of a record that an edit may overwrite.
#[derive(Debug, Clone)]
pub struct EditableFields {
    pub script: String,
    pub concommandns: String,
    pub adminlevel: i8,
    pub maps_included: String,
    pub maps_excluded: String,
}

/// `p` with the editable fields taken from `f`.
pub open spec fn edited(p: PluginView, f: EditableFields) -> PluginView {
    PluginView {
        script: f.script@,
        concommandns: f.concommandns@,
        adminlevel: f.adminlevel,
        maps_included: f.maps_included@,
        maps_excluded: f.maps_excluded@,
        ..p
    }
}

/// `p` with its state toggled.
pub open spec fn toggled_view(p: PluginView) -> PluginView {
    PluginView { state: toggled(p.state), ..p }
}

/// ASCII letters in lower case; every other character as it is.
pub open spec fn lower_ascii(c: char) -> char {
    if 'A' as u32 <= c as u32 && c as u32 <= 'Z' as u32 {
        ((c as u32) + 32) as char
    } else {
        c
    }
}

/// The sort key of a name: its ASCII letters in lower case.
pub open spec fn sort_key(name: Seq<char>) -> Seq<char> {
    name.map_values(|c: char| lower_ascii(c))
}

/// Lexicographic order of character sequences, by code point.
pub open spec fn lex_le(a: Seq<char>, b: Seq<char>) -> bool
    decreases a.len(),
{
    if a.len() == 0 {
        true
    } else if b.len() == 0 {
        false
    } else if a[0] as u32 != b[0] as u32 {
        (a[0] as u32) < (b[0] as u32)
    } else {
        lex_le(a.drop_first(), b.drop_first())
    }
}

/// Whether `p` comes no later than `q` when records are listed by name,
/// ignoring ASCII case.
pub open spec fn listed_before(p: PluginView, q: PluginView) -> bool {
    lex_le(sort_key(p.name), sort_key(q.name))
}

/// The records of `s`, without their keys.
pub open spec fn records(s: Entries) -> Seq<PluginView> {
    s.map_values(|e: (Seq<char>, PluginView)| e.1)
}

/// The views of a list of records.
pub open spec fn views(v: Seq<PluginEntry>) -> Seq<PluginView> {
    v.map_values(|p: PluginEntry| p@)
}

pub proof fn lemma_lex_total(a: Seq<char>, b: Seq<char>)
    ensures
        lex_le(a, b) || lex_le(b, a),
    decreases a.len(),
{
    if a.len() > 0 && b.len() > 0 && a[0] as u32 == b[0] as u32 {
        lemma_lex_total(a.drop_first(), b.drop_first());
    }
}

/// `sort_key(s)` as characters.
pub(crate) fn sort_key_chars(s: &str) -> (r: Vec<char>)
    ensures
        r@ == sort_key(s@),
{
    let v = crate::text::chars_of(s);
    let mut r: Vec<char> = Vec::new();
    let mut i: usize = 0;
    while i < v.len()
        invariant
            i <= v@.len(),
            v@ == s@,
            r@ == sort_key(v@.subrange(0, i as int)),
        decreases v@.len() - i,
    {
        let c = v[i];
        let u = c as u32;
        let l = if 'A' as u32 <= u && u <= 'Z' as u32 {
            ((u + 32) as u8) as char
        } else {
            c
        };
        r.push(l);
        assert(sort_key(v@.subrange(0, i + 1)) =~= sort_key(v@.subrange(0, i as int)).push(
            lower_ascii(c),
        ));
        i = i + 1;
    }
    assert(v@.subrange(0, v@.len() as int) =~= v@);
    r
}

/// Whether `a` comes no later than `b` in lexicographic order.
fn lex_le_exec(a: &Vec<char>, b: &Vec<char>) -> (r: bool)
    ensures
        r == lex_le(a@, b@),
{
    let mut i: usize = 0;
    assert(a@.subrange(0, a@.len() as int) =~= a@);
    assert(b@.subrange(0, b@.len() as int) =~= b@);
    while i < a.len()
        invariant
            i <= a@.len(),
            i <= b@.len(),
            lex_le(a@, b@) == lex_le(a@.subrange(i as int, a@.len() as int), b@.subrange(
                i as int,
                b@.len() as int,
            )),
        decreases a@.len() - i,
    {
        let ghost sa = a@.subrange(i as int, a@.len() as int);
        let ghost sb = b@.subrange(i as int, b@.len() as int);
        if i >= b.len() {
            return false;
        }
        assert(sa[0] == a@[i as int] && sb[0] == b@[i as int]);
        let x = a[i] as u32;
        let y = b[i] as u32;
        if x != y {
            return x < y;
        }
        assert(sa.drop_first() =~= a@.subrange(i + 1, a@.len() as int));
        assert(sb.drop_first() =~= b@.subrange(i + 1, b@.len() as int));
        i = i + 1;
    }
    true
}

/// One stored record with the key it is stored under.
#[derive(Debug, Clone)]
pub struct RegistryEntry {
    pub key: String,
    pub plugin: PluginEntry,
}

/// The plugin records of a session, keyed by name.
#[derive(Debug, Clone)]
pub struct PluginRegistry {
    entries: Vec<RegistryEntry>,
}

impl View for PluginRegistry {
    type V = Entries;

    closed spec fn view(&self) -> Entries {
        self.entries@.map_values(|e: RegistryEntry| (e.key@, e.plugin@))
    }
}

impl PluginRegistry {
    pub open spec fn wf(&self) -> bool {
        entries_wf(self@)
    }

    /// An empty registry.
    pub fn new() -> (r: PluginRegistry)
        ensures
            r.wf(),
            r@ == Seq::<(Seq<char>, PluginView)>::empty(),
    {
        let r = PluginRegistry { entries: Vec::new() };
        assert(r@ =~= Seq::<(Seq<char>, PluginView)>::empty());
        r
    }

    /// Number of stored records.
    pub fn len(&self) -> (r: usize)
        ensures
            r == self@.len(),
    {
        self.entries.len()
    }

    /// Position of the entry under `key`, if any.
    pub fn find(&self, key: &str) -> (r: Option<usize>)
        ensures
            match r {
                Some(i) => i as int == key_index(self@, key@) && i < self@.len(),
                None => key_index(self@, key@) == -1,
            },
    {
        let k = String::from_str(key);
        let mut i = self.entries.len();
        assert(self@.subrange(0, i as int) =~= self@);
        while i > 0
            invariant
                i <= self.entries.len(),
                k@ == key@,
                key_index(self@, key@) == key_index(self@.subrange(0, i as int), key@),
            decreases i,
        {
            let e = &self.entries[i - 1];
            assert(self@.subrange(0, i as int).last() == (e.key@, e.plugin@));
            if e.key == k {
                return Some(i - 1);
            }
            assert(self@.subrange(0, i as int).drop_last() =~= self@.subrange(0, i - 1));
            i = i - 1;
        }
        None
    }

    /// The record at position `i` in storage order.
    pub fn plugin_at(&self, i: usize) -> (r: &PluginEntry)
        requires
            i < self@.len(),
        ensures
            r@ == self@[i as int].1,
    {
        &self.entries[i].plugin
    }

    /// The key at position `i` in storage order.
    pub fn key_at(&self, i: usize) -> (r: &String)
        requires
            i < self@.len(),
        ensures
            r@ == self@[i as int].0,
    {
        &self.entries[i].key
    }

    /// Whether a record is stored under `key`.
    pub fn contains_key(&self, key: &str) -> (r: bool)
        ensures
            r == (lookup(self@, key@) is Some),
    {
        self.find(key).is_some()
    }

    /// The record stored under `key`.
    pub fn get(&self, key: &str) -> (r: Option<&PluginEntry>)
        ensures
            match r {
                Some(p) => lookup(self@, key@) == Some(p@),
                None => lookup(self@, key@) is None,
            },
    {
        match self.find(key) {
            Some(i) => Some(&self.entries[i].plugin),
            None => None,
        }
    }

    /// Adds a new enabled record from user input. Name and script are
    /// trimmed; either one empty, or a name already in use, is refused and
    /// leaves the registry as it was.
    pub fn add(&mut self, name: &str, script: &str) -> (r: Result<PluginEntry, ValidationError>)
        requires
            old(self).wf(),
        ensures
            final(self).wf(),
            trim(name@).len() == 0 ==> r == Err::<PluginEntry, ValidationError>(
                ValidationError::EmptyName,
            ),
            trim(name@).len() > 0 && trim(script@).len() == 0 ==> r == Err::<
                PluginEntry,
                ValidationError,
            >(ValidationError::EmptyScript),
            trim(name@).len() > 0 && trim(script@).len() > 0 && lookup(old(self)@, trim(name@))
                is Some ==> r == Err::<PluginEntry, ValidationError>(
                ValidationError::DuplicateName,
            ),
            r is Err ==> final(self)@ == old(self)@,
            trim(name@).len() > 0 && trim(script@).len() > 0 && lookup(old(self)@, trim(name@))
                is None ==> r is Ok && r->Ok_0@ == fresh_view(trim(name@), trim(script@))
                && final(self)@ == old(self)@.push((trim(name@), r->Ok_0@)),
    {
        let p = match PluginEntry::add_plugin(name, script) {
            Ok(p) => p,
            Err(e) => return Err(e),
        };
        if self.contains_key(p.name.as_str()) {
            return Err(ValidationError::DuplicateName);
        }
        let key = copy_string(&p.name);
        let out = p.duplicate();
        proof {
            lemma_key_index_bounds(self@, key@);
        }
        self.upsert(key, p);
        Ok(out)
    }

    /// Removes the record under `key`; says whether there was one.
    pub fn remove(&mut self, key: &str) -> (r: bool)
        requires
            old(self).wf(),
        ensures
            final(self).wf(),
            r == (lookup(old(self)@, key@) is Some),
            final(self)@ == without_key(old(self)@, key@),
    {
        proof {
            lemma_remove_wf(self@, key@);
        }
        match self.find(key) {
            Some(i) => {
                self.entries.remove(i);
                assert(self@ =~= old(self)@.remove(i as int));
                true
            },
            None => false,
        }
    }

    /// Toggles the record under `key` between Enabled and Disabled; a
    /// removed record stays removed. Says whether there was a record.
    pub fn toggle_state(&mut self, key: &str) -> (r: bool)
        requires
            old(self).wf(),
        ensures
            final(self).wf(),
            r == (key_index(old(self)@, key@) >= 0),
            r ==> final(self)@ == old(self)@.update(
                key_index(old(self)@, key@),
                (key@, toggled_view(old(self)@[key_index(old(self)@, key@)].1)),
            ),
            r && old(self)@[key_index(old(self)@, key@)].1.state == PluginState::Removed
                ==> final(self)@ == old(self)@,
            !r ==> final(self)@ == old(self)@,
    {
        proof {
            lemma_key_index_bounds(self@, key@);
        }
        match self.find(key) {
            Some(i) => {
                let mut p = self.entries[i].plugin.duplicate();
                let k = copy_string(&self.entries[i].key);
                p.toggle_state();
                self.entries.set(i, RegistryEntry { key: k, plugin: p });
                assert(self@ =~= old(self)@.update(
                    i as int,
                    (key@, toggled_view(old(self)@[i as int].1)),
                ));
                proof {
                    if old(self)@[i as int].1.state == PluginState::Removed {
                        assert(self@ =~= old(self)@);
                    }
                }
                true
            },
            None => false,
        }
    }

    /// Overwrites the editable fields of the record under `key`. Says
    /// whether there was a record.
    pub fn update_fields(&mut self, key: &str, fields: EditableFields) -> (r: bool)
        requires
            old(self).wf(),
            admin_level_in_domain(fields.adminlevel as int),
        ensures
            final(self).wf(),
            r == (key_index(old(self)@, key@) >= 0),
            r ==> final(self)@ == old(self)@.update(
                key_index(old(self)@, key@),
                (key@, edited(old(self)@[key_index(old(self)@, key@)].1, fields)),
            ),
            !r ==> final(self)@ == old(self)@,
    {
        proof {
            lemma_key_index_bounds(self@, key@);
        }
        match self.find(key) {
            Some(i) => {
                let old_p = &self.entries[i].plugin;
                let p = PluginEntry {
                    name: copy_string(&old_p.name),
                    script: fields.script,
                    state: old_p.state,
                    concommandns: fields.concommandns,
                    adminlevel: fields.adminlevel,
                    maps_included: fields.maps_included,
                    maps_excluded: fields.maps_excluded,
                };
                let k = copy_string(&self.entries[i].key);
                self.entries.set(i, RegistryEntry { key: k, plugin: p });
                assert(self@ =~= old(self)@.update(
                    i as int,
                    (key@, edited(old(self)@[i as int].1, fields)),
                ));
                true
            },
            None => false,
        }
    }

    /// Stores every record of `other` in turn: on a shared key, `other` wins.
    pub fn merge(&mut self, other: &PluginRegistry)
        requires
            old(self).wf(),
            other.wf(),
        ensures
            final(self).wf(),
            final(self)@ == merged(old(self)@, other@),
    {
        let n = other.len();
        let mut i: usize = 0;
        assert(other@.subrange(0, 0) =~= Seq::<(Seq<char>, PluginView)>::empty());
        while i < n
            invariant
                i <= n == other@.len(),
                other.wf(),
                self.wf(),
                self@ == merged(old(self)@, other@.subrange(0, i as int)),
            decreases n - i,
        {
            let k = copy_string(other.key_at(i));
            let p = other.plugin_at(i).duplicate();
            assert(other@.subrange(0, i + 1).drop_last() =~= other@.subrange(0, i as int));
            self.upsert(k, p);
            i = i + 1;
        }
        assert(other@.subrange(0, n as int) =~= other@);
    }

    /// Copies of all records, ordered by name with ASCII case ignored.
    pub fn list_sorted(&self) -> (r: Vec<PluginEntry>)
        ensures
            views(r@).to_multiset() == records(self@).to_multiset(),
            forall|i: int| 0 <= i < r@.len() - 1 ==> #[trigger] listed_before(r@[i]@, r@[i + 1]@),
    {
        let n = self.entries.len();
        let mut out: Vec<PluginEntry> = Vec::new();
        let mut keys: Vec<Vec<char>> = Vec::new();
        let mut i: usize = 0;
        assert(records(self@.subrange(0, 0)) =~= Seq::<PluginView>::empty());
        assert(views(out@) =~= Seq::<PluginView>::empty());
        while i < n
            invariant
                i <= n == self@.len(),
                out@.len() == keys@.len(),
                forall|j: int| 0 <= j < keys@.len() ==> #[trigger] keys@[j]@ == sort_key(out@[j].name@),
                views(out@).to_multiset() == records(self@.subrange(0, i as int)).to_multiset(),
                forall|j: int| 0 <= j < out@.len() - 1 ==> #[trigger] listed_before(out@[j]@, out@[j + 1]@),
            decreases n - i,
        {
            let p = self.plugin_at(i).duplicate();
            let k = sort_key_chars(p.name.as_str());
            let mut pos: usize = 0;
            while pos < out.len() && lex_le_exec(&keys[pos], &k)
                invariant
                    pos <= out@.len() == keys@.len(),
                    forall|j: int| 0 <= j < keys@.len() ==> #[trigger] keys@[j]@ == sort_key(out@[j].name@),
                    k@ == sort_key(p.name@),
                    pos > 0 ==> lex_le(keys@[pos - 1]@, k@),
                decreases out@.len() - pos,
            {
                pos = pos + 1;
            }
            proof {
                if pos < out@.len() {
                    assert(!lex_le(keys@[pos as int]@, k@));
                    lemma_lex_total(keys@[pos as int]@, k@);
                }
            }
            let ghost out0 = out@;
            let ghost keys0 = keys@;
            out.insert(pos, p);
            keys.insert(pos, k);
            assert(views(out@) =~= views(out0).insert(pos as int, p@));
            assert(self@.subrange(0, i + 1) =~= self@.subrange(0, i as int).push(self@[i as int]));
            assert(records(self@.subrange(0, i + 1)) =~= records(self@.subrange(0, i as int)).push(
                p@,
            ));
            assert(records(self@.subrange(0, i as int)).push(p@) =~= records(
                self@.subrange(0, i as int),
            ).insert(i as int, p@));
            proof {
                vstd::seq_lib::to_multiset_insert(views(out0), pos as int, p@);
                vstd::seq_lib::to_multiset_insert(records(self@.subrange(0, i as int)), i as int, p@);
            }
            assert(out@[pos as int] == p);
            assert forall|j: int| 0 <= j < keys@.len() implies #[trigger] keys@[j]@ == sort_key(
                out@[j].name@,
            ) by {
                if j < pos {
                    assert(keys@[j] == keys0[j]);
                } else if j > pos {
                    assert(keys@[j] == keys0[j - 1]);
                }
            }
            assert forall|j: int| 0 <= j < out@.len() - 1 implies #[trigger] listed_before(
                out@[j]@,
                out@[j + 1]@,
            ) by {
                if j + 1 < pos {
                    assert(out@[j] == out0[j] && out@[j + 1] == out0[j + 1]);
                    assert(listed_before(out0[j]@, out0[j + 1]@));
                } else if j + 1 == pos {
                    assert(out@[j] == out0[j]);
                    assert(keys0[j]@ == sort_key(out0[j].name@));
                } else if j == pos {
                    assert(out@[j + 1] == out0[j]);
                    assert(keys0[j]@ == sort_key(out0[j].name@));
                } else {
                    assert(out@[j] == out0[j - 1] && out@[j + 1] == out0[j]);
                    let jj = j - 1;
                    assert(0 <= jj < out0.len() - 1);
                    assert(listed_before(out0[jj]@, out0[jj + 1]@));
                    assert(jj + 1 == j);
                }
            }
            i = i + 1;
        }
        assert(self@.subrange(0, n as int) =~= self@);
        out
    }

    /// Stores `plugin` under `key`, replacing a record stored there.
    pub(crate) fn upsert(&mut self, key: String, plugin: PluginEntry)
        requires
            old(self).wf(),
            plugin.name@.len() > 0 ==> key@ == plugin.name@,
        ensures
            final(self).wf(),
            final(self)@ == upsert(old(self)@, key@, plugin@),
    {
        proof {
            lemma_upsert_wf(self@, key@, plugin@);
            lemma_key_index_bounds(self@, key@);
        }
        match self.find(key.as_str()) {
            Some(i) => {
                self.entries.set(i, RegistryEntry { key, plugin });
            },
            None => {
                self.entries.push(RegistryEntry { key, plugin });
            },
        }
        assert(self@ =~= upsert(old(self)@, key@, plugin@));
    }
}

} // verus!
