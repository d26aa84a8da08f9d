//! Locating the game's installation directory. Each probe of the file system
//! is made by the caller; this module decides, from what the last probe
//! found, what happens next.
use vstd::prelude::*;
use crate::registry::sort_key;

verus! {

/// Depth to which a volume is searched for the game's executable.
pub const SCAN_MAX_DEPTH: usize = 10;

/// File name of the game's executable, matched with ASCII case ignored.
pub const GAME_EXECUTABLE: &'static str = "svencoop.exe";

/// Name of the game directory beside the executable.
pub const GAME_DIR_NAME: &'static str = "svencoop";

/// Name of the directory that a volume search skips, ASCII case ignored.
pub const RECYCLE_BIN: &'static str = "$Recycle.Bin";

/// A probe that the caller is to make next.
#[derive(Debug, Clone, Copy, PartialEq, Eq, Structural)]
pub enum ResolveStep {
    /// Read the persisted settings.
    ReadConfig,
    /// Look for the enabled-plugins file in the working directory.
    ProbeWorkingDir,
    /// Search the volumes for the game's executable.
    ScanVolumes,
    /// Look for the enabled-plugins file beside the running program.
    ProbeProgramDir,
}

/// What a probe found.
#[derive(Debug, Clone, PartialEq, Eq)]
pub enum ResolveEvent {
    /// The directory that the settings hold, if they could be read and hold one.
    ConfigRead(Option<String>),
    /// The working directory, and whether the enabled-plugins file is in it.
    WorkingDirProbed { dir: String, has_marker: bool },
    /// The game directory beside the first executable found, if one was
    /// found, and whether that directory exists.
    VolumesScanned { target: Option<String>, target_exists: bool },
    /// The running program's directory, and whether the enabled-plugins
    /// file is in it.
    ProgramDirProbed { dir: String, has_marker: bool },
}

/// What happens next.
#[derive(Debug, Clone, PartialEq, Eq)]
pub enum ResolveAction {
    /// Make this probe and report what it found.
    Probe(ResolveStep),
    /// The directory from the settings, used as it is, unchecked.
    UseStored(String),
    /// A directory just found: the caller creates the two plugin files there
    /// if missing and persists the directory; a failure to persist is not
    /// fatal.
    UseDiscovered(String),
    /// No installation directory could be found.
    NotFound,
}

/// The step that every resolution starts with.
pub fn first_step() -> (r: ResolveStep)
    ensures
        r == ResolveStep::ReadConfig,
{
    ResolveStep::ReadConfig
}

/// The action after a probe. The sources are tried in order, the first
/// success wins: the settings, the working directory, a search of the
/// volumes, the program's own directory.
pub fn next_action(event: ResolveEvent) -> (r: ResolveAction)
    ensures
        match event {
            ResolveEvent::ConfigRead(Some(d)) => r == ResolveAction::UseStored(d),
            ResolveEvent::ConfigRead(None) => r == ResolveAction::Probe(ResolveStep::ProbeWorkingDir),
            ResolveEvent::WorkingDirProbed { dir, has_marker } => if has_marker {
                r == ResolveAction::UseDiscovered(dir)
            } else {
                r == ResolveAction::Probe(ResolveStep::ScanVolumes)
            },
            ResolveEvent::VolumesScanned { target, target_exists } => if target is Some
                && target_exists {
                r == ResolveAction::UseDiscovered(target->Some_0)
            } else {
                r == ResolveAction::Probe(ResolveStep::ProbeProgramDir)
            },
            ResolveEvent::ProgramDirProbed { dir, has_marker } => if has_marker {
                r == ResolveAction::UseDiscovered(dir)
            } else {
                r == ResolveAction::NotFound
            },
        },
{
    match event {
        ResolveEvent::ConfigRead(Some(d)) => ResolveAction::UseStored(d),
        ResolveEvent::ConfigRead(None) => ResolveAction::Probe(ResolveStep::ProbeWorkingDir),
        ResolveEvent::WorkingDirProbed { dir, has_marker } => {
            if has_marker {
                ResolveAction::UseDiscovered(dir)
            } else {
                ResolveAction::Probe(ResolveStep::ScanVolumes)
            }
        },
        ResolveEvent::VolumesScanned { target, target_exists } => match target {
            Some(t) if target_exists => ResolveAction::UseDiscovered(t),
            _ => ResolveAction::Probe(ResolveStep::ProbeProgramDir),
        },
        ResolveEvent::ProgramDirProbed { dir, has_marker } => {
            if has_marker {
                ResolveAction::UseDiscovered(dir)
            } else {
                ResolveAction::NotFound
            }
        },
    }
}

/// Whether two names are equal with ASCII case ignored.
pub fn names_match(a: &str, b: &str) -> (r: bool)
    ensures
        r == (sort_key(a@) == sort_key(b@)),
{
    let x = crate::registry::sort_key_chars(a);
    let y = crate::registry::sort_key_chars(b);
    if x.len() != y.len() {
        proof {
            assert(x@.len() != y@.len());
        }
        return false;
    }
    let mut i: usize = 0;
    while i < x.len()
        invariant
            i <= x@.len() == y@.len(),
            x@ == sort_key(a@),
            y@ == sort_key(b@),
            forall|j: int| 0 <= j < i ==> x@[j] == y@[j],
        decreases x@.len() - i,
    {
        if x[i] != y[i] {
            assert(x@[i as int] != y@[i as int]);
            return false;
        }
        i = i + 1;
    }
    assert(x@ =~= y@);
    true
}

/// Whether a volume search skips the directory entry `name`.
pub fn is_skipped_entry(name: &str) -> (r: bool)
    ensures
        r == (sort_key(name@) == sort_key(RECYCLE_BIN@)),
{
    names_match(name, RECYCLE_BIN)
}

/// Whether the directory entry `name` is the game's executable.
pub fn is_game_executable(name: &str) -> (r: bool)
    ensures
        r == (sort_key(name@) == sort_key(GAME_EXECUTABLE@)),
{
    names_match(name, GAME_EXECUTABLE)
}

/// The volume roots that a search walks, in order.
pub fn volume_roots() -> (r: Vec<&'static str>)
    ensures
        r@.map_values(|s: &str| s@) == seq!["A:/"@, "B:/"@, "C:/"@, "D:/"@, "E:/"@, "F:/"@],
{
    let r = vec!["A:/", "B:/", "C:/", "D:/", "E:/", "F:/"];
    assert(r@.map_values(|s: &str| s@) =~= seq!["A:/"@, "B:/"@, "C:/"@, "D:/"@, "E:/"@, "F:/"@]);
    r
}

} // verus!
