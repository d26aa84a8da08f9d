//! The plugin record and its text block.
use vstd::prelude::*;
use crate::text::{
    chars_of, ends_with, int_string, int_text, str_ends_with, trim, trimmed_range, trimmed_string,
};

verus! {

/// File name of the list of enabled plugins in the game directory.
pub const FILENAME_PLUGINS: &'static str = "default_plugins.txt";

/// File name of the list of disabled plugins in the game directory.
pub const FILENAME_DISABLED_PLUGINS: &'static str = "disabled_plugins.txt";

/// Administrator level that a plugin requires.
pub type AdminLevel = i8;

/// Reserved, unused: the level on connect.
pub const ADMIN_INIT: AdminLevel = -1;

/// Not an administrator.
pub const ADMIN_NO: AdminLevel = 0;

/// Server administrator.
pub const ADMIN_YES: AdminLevel = 1;

/// Server owner.
pub const ADMIN_OWNER: AdminLevel = 2;

/// Whether a level lies in the domain that the plugin files may hold.
pub open spec fn admin_level_in_domain(v: int) -> bool {
    ADMIN_INIT <= v <= ADMIN_OWNER
}

/// Why a new record was refused.
#[derive(Debug, Clone, Copy, PartialEq, Eq, Structural)]
pub enum ValidationError {
    /// The name is empty once surrounding whitespace is removed.
    EmptyName,
    /// The script is empty once surrounding whitespace is removed.
    EmptyScript,
    /// A record is already stored under the name.
    DuplicateName,
}

#[derive(Debug, Clone, Copy, PartialEq, Eq, Structural)]
pub enum PluginState {
    Enabled,
    Disabled,
    /// A tombstone: never written out.
    Removed,
}

/// The state after a toggle: Enabled and Disabled swap, Removed stays.
pub open spec fn toggled(s: PluginState) -> PluginState {
    match s {
        PluginState::Enabled => PluginState::Disabled,
        PluginState::Disabled => PluginState::Enabled,
        PluginState::Removed => PluginState::Removed,
    }
}

/// The value of a plugin record, as contracts speak of it.
pub struct PluginView {
    pub name: Seq<char>,
    pub script: Seq<char>,
    pub state: PluginState,
    pub concommandns: Seq<char>,
    pub adminlevel: i8,
    pub maps_included: Seq<char>,
    pub maps_excluded: Seq<char>,
}

#[derive(Debug, Clone)]
pub struct PluginEntry {
    pub name: String,
    pub script: String,
    pub state: PluginState,
    /// Command namespace; may be empty.
    pub concommandns: String,
    pub adminlevel: AdminLevel,
    /// Allow-list of maps; may be empty.
    pub maps_included: String,
    /// Deny-list of maps; may be empty.
    pub maps_excluded: String,
}

impl View for PluginEntry {
    type V = PluginView;

    open spec fn view(&self) -> PluginView {
        PluginView {
            name: self.name@,
            script: self.script@,
            state: self.state,
            concommandns: self.concommandns@,
            adminlevel: self.adminlevel,
            maps_included: self.maps_included@,
            maps_excluded: self.maps_excluded@,
        }
    }
}

/// A record is well formed when its name and its script are both non-empty
/// once surrounding whitespace is removed.
pub open spec fn well_formed(p: PluginView) -> bool {
    trim(p.name).len() > 0 && trim(p.script).len() > 0
}

/// A fresh, enabled record with the given name and script and every optional
/// field empty.
pub open spec fn fresh_view(name: Seq<char>, script: Seq<char>) -> PluginView {
    PluginView {
        name,
        script,
        state: PluginState::Enabled,
        concommandns: Seq::empty(),
        adminlevel: 0,
        maps_included: Seq::empty(),
        maps_excluded: Seq::empty(),
    }
}

/// A `"key" "value"` line of a block, indented.
pub open spec fn field_line(key: Seq<char>, value: Seq<char>) -> Seq<char> {
    "            "@ + "\""@ + key + "\" \""@ + value + "\""@
}

/// The lines of a record's block, indented as they are written.
pub open spec fn block_lines(p: PluginView) -> Seq<Seq<char>> {
    seq![
        "        "@ + "\"plugin\""@,
        "        "@ + "{"@,
        field_line("name"@, p.name),
        field_line("script"@, p.script),
        field_line("concommandns"@, p.concommandns),
        field_line("adminlevel"@, int_text(p.adminlevel as int)),
        field_line("maps_included"@, p.maps_included),
        field_line("maps_excluded"@, p.maps_excluded),
        "        "@ + "}"@,
    ]
}

/// Lines, each followed by a line break.
pub open spec fn lines_text(ls: Seq<Seq<char>>) -> Seq<char>
    decreases ls.len(),
{
    if ls.len() == 0 {
        Seq::empty()
    } else {
        lines_text(ls.drop_last()) + ls.last() + "\n"@
    }
}

/// The block that represents a record in a plugin file: a line break, the
/// block's lines, and the indentation that the next block continues.
pub open spec fn block_text(p: PluginView) -> Seq<char> {
    "\n"@ + lines_text(block_lines(p)) + "        "@
}

/// What a record contributes to a file: its block, or nothing when it is
/// removed or not well formed.
pub open spec fn entry_text(p: PluginView) -> Seq<char> {
    if well_formed(p) && p.state != PluginState::Removed {
        block_text(p)
    } else {
        Seq::empty()
    }
}

/// Whether a file name is that of a plugin script: it ends in `.as`.
pub fn is_script_file(file: &str) -> (r: bool)
    ensures
        r == ends_with(file@, ".as"@),
{
    str_ends_with(file, ".as")
}

/// Whether `s` is empty once surrounding whitespace is removed.
pub fn is_blank(s: &str) -> (r: bool)
    ensures
        r == (trim(s@).len() == 0),
{
    let v = chars_of(s);
    let (a, b) = trimmed_range(&v, 0, v.len());
    assert(v@.subrange(0, v@.len() as int) =~= s@);
    a == b
}

/// A copy of `s` whose contents are known to be equal.
pub fn copy_string(s: &String) -> (r: String)
    ensures
        r@ == s@,
{
    s.clone()
}

impl PluginEntry {
    /// An enabled record with the given name and script and empty optional
    /// fields.
    pub fn new(name: &str, script: &str) -> (r: PluginEntry)
        ensures
            r@ == fresh_view(name@, script@),
    {
        PluginEntry {
            name: name.to_owned(),
            script: script.to_owned(),
            state: PluginState::Enabled,
            concommandns: String::new(),
            adminlevel: ADMIN_NO,
            maps_included: String::new(),
            maps_excluded: String::new(),
        }
    }

    /// A new enabled record from user input: name and script are trimmed
    /// and must not be empty.
    pub fn add_plugin(name: &str, script: &str) -> (r: Result<PluginEntry, ValidationError>)
        ensures
            trim(name@).len() == 0 ==> r == Err::<PluginEntry, ValidationError>(
                ValidationError::EmptyName,
            ),
            trim(name@).len() > 0 && trim(script@).len() == 0 ==> r == Err::<
                PluginEntry,
                ValidationError,
            >(ValidationError::EmptyScript),
            trim(name@).len() > 0 && trim(script@).len() > 0 ==> r is Ok && r->Ok_0@
                == fresh_view(trim(name@), trim(script@)),
    {
        let n = trimmed_string(name);
        let s = trimmed_string(script);
        if n.as_str().is_empty() {
            return Err(ValidationError::EmptyName);
        }
        if s.as_str().is_empty() {
            return Err(ValidationError::EmptyScript);
        }
        Ok(PluginEntry {
            name: n,
            script: s,
            state: PluginState::Enabled,
            concommandns: String::new(),
            adminlevel: ADMIN_NO,
            maps_included: String::new(),
            maps_excluded: String::new(),
        })
    }

    /// A copy of this record.
    pub fn duplicate(&self) -> (r: PluginEntry)
        ensures
            r@ == self@,
    {
        PluginEntry {
            name: copy_string(&self.name),
            script: copy_string(&self.script),
            state: self.state,
            concommandns: copy_string(&self.concommandns),
            adminlevel: self.adminlevel,
            maps_included: copy_string(&self.maps_included),
            maps_excluded: copy_string(&self.maps_excluded),
        }
    }

    /// Swaps Enabled and Disabled; a removed record stays removed.
    pub fn toggle_state(&mut self)
        ensures
            final(self)@ == (PluginView { state: toggled(old(self).state), ..old(self)@ }),
            old(self).state == PluginState::Removed ==> final(self).state == PluginState::Removed,
    {
        self.state = match self.state {
            PluginState::Enabled => PluginState::Disabled,
            PluginState::Disabled => PluginState::Enabled,
            PluginState::Removed => PluginState::Removed,
        };
    }

    /// Whether the name and the script are both non-blank.
    pub fn is_well_formed(&self) -> (r: bool)
        ensures
            r == well_formed(self@),
    {
        !is_blank(self.name.as_str()) && !is_blank(self.script.as_str())
    }

    /// The record's block in a plugin file, or an empty string for a record
    /// that is removed or not well formed.
    pub fn write_plugin(&self) -> (r: String)
        ensures
            r@ == entry_text(self@),
    {
        if !self.is_well_formed() || self.state == PluginState::Removed {
            return String::new();
        }
        let level = int_string(self.adminlevel);
        let lines: Vec<String> = vec![
            concat2("        ", "\"plugin\""),
            concat2("        ", "{"),
            field_line_string("name", self.name.as_str()),
            field_line_string("script", self.script.as_str()),
            field_line_string("concommandns", self.concommandns.as_str()),
            field_line_string("adminlevel", level.as_str()),
            field_line_string("maps_included", self.maps_included.as_str()),
            field_line_string("maps_excluded", self.maps_excluded.as_str()),
            concat2("        ", "}"),
        ];
        let ghost ls = block_lines(self@);
        assert(lines@.map_values(|l: String| l@) =~= ls);
        let mut r = String::new();
        r.append("\n");
        let mut i: usize = 0;
        assert(ls.subrange(0, 0) =~= Seq::<Seq<char>>::empty());
        assert(r@ =~= "\n"@ + lines_text(ls.subrange(0, 0)));
        while i < lines.len()
            invariant
                i <= lines@.len() == ls.len(),
                forall|j: int| 0 <= j < ls.len() ==> #[trigger] lines@[j]@ == ls[j],
                r@ == "\n"@ + lines_text(ls.subrange(0, i as int)),
            decreases lines@.len() - i,
        {
            let ghost before = r@;
            r.append(lines[i].as_str());
            r.append("\n");
            assert(ls.subrange(0, i + 1).drop_last() =~= ls.subrange(0, i as int));
            assert(r@ =~= "\n"@ + lines_text(ls.subrange(0, i + 1)));
            i = i + 1;
        }
        assert(ls.subrange(0, 9) =~= ls);
        r.append("        ");
        r
    }
}

/// `a@ + b@` as a string.
fn concat2(a: &str, b: &str) -> (r: String)
    ensures
        r@ == a@ + b@,
{
    let mut r = String::from_str(a);
    r.append(b);
    r
}

/// `field_line(key@, value@)` as a string.
fn field_line_string(key: &str, value: &str) -> (r: String)
    ensures
        r@ == field_line(key@, value@),
{
    let mut r = String::from_str("            ");
    r.append("\"");
    r.append(key);
    r.append("\" \"");
    r.append(value);
    r.append("\"");
    r
}

} // verus!
