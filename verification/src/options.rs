//! Global options of the command line front end and the plan of one run.
//!
//! The front end parses the command line and the profile file, then asks
//! [`execute`] what to do: which loggers to start, how progress is shown, and
//! at which stage of opening the repository the command runs.

use vstd::prelude::*;
use vstd::string::*;

verus! {

/// How much is logged. The variants are ordered from silent to most verbose.
#[derive(Clone, Copy, Debug, PartialEq, Eq, Structural)]
pub enum LogLevel {
    Off,
    Error,
    Warn,
    Info,
    Debug,
    Trace,
}

impl LogLevel {
    /// Position in the order from `Off` (0) to `Trace` (5).
    pub open spec fn rank(self) -> nat {
        match self {
            LogLevel::Off => 0,
            LogLevel::Error => 1,
            LogLevel::Warn => 2,
            LogLevel::Info => 3,
            LogLevel::Debug => 4,
            LogLevel::Trace => 5,
        }
    }

    /// The more verbose of two levels.
    pub open spec fn spec_at_least(self, floor: LogLevel) -> LogLevel {
        if self.rank() >= floor.rank() {
            self
        } else {
            floor
        }
    }

    /// Position in the order from `Off` (0) to `Trace` (5).
    pub fn verbosity(self) -> (r: u8)
        ensures
            r == self.rank(),
    {
        match self {
            LogLevel::Off => 0,
            LogLevel::Error => 1,
            LogLevel::Warn => 2,
            LogLevel::Info => 3,
            LogLevel::Debug => 4,
            LogLevel::Trace => 5,
        }
    }

    /// Raises the level to `floor` where it is less verbose than `floor`.
    pub fn at_least(self, floor: LogLevel) -> (r: LogLevel)
        ensures
            r == self.spec_at_least(floor),
    {
        if self.verbosity() >= floor.verbosity() {
            self
        } else {
            floor
        }
    }
}

/// A span of time in whole seconds and nanoseconds.
#[derive(Clone, Copy, Debug, PartialEq, Eq, Structural)]
pub struct Interval {
    pub secs: u64,
    pub nanos: u32,
}

/// What `humantime::parse_duration` makes of a text: seconds and
/// nanoseconds of the duration, or `None` where it rejects the text.
pub uninterp spec fn parsed_duration(text: Seq<char>) -> Option<(u64, u32)>;

/// The most decimal digits that a text may hold to be read as a
/// duration.
pub const MAX_DIGITS: usize = 11;

/// How many of the bytes are decimal digits.
pub open spec fn digits(bytes: Seq<u8>) -> nat
    decreases bytes.len(),
{
    if bytes.len() == 0 {
        0
    } else {
        digits(bytes.drop_last()) + if 0x30 <= bytes.last() <= 0x39 {
            1nat
        } else {
            0nat
        }
    }
}

/// Counts the decimal digits among the bytes of a text, up to one more
/// than `MAX_DIGITS`.
fn few_digits(text: &str) -> (r: bool)
    ensures
        r == (digits(text.spec_bytes()) <= MAX_DIGITS),
{
    let bytes = text.as_bytes();
    let mut n: usize = 0;
    let mut i: usize = 0;
    while i < bytes.len()
        invariant
            i <= bytes@.len(),
            bytes@ == text.spec_bytes(),
            n == digits(bytes@.take(i as int)),
            n <= MAX_DIGITS,
        decreases bytes@.len() - i,
    {
        proof {
            assert(bytes@.take(i + 1).drop_last() == bytes@.take(i as int));
            lemma_digits_grow(bytes@, i + 1);
        }
        if bytes[i] >= 0x30 && bytes[i] <= 0x39 {
            if n == MAX_DIGITS {
                return false;
            }
            n += 1;
        }
        i += 1;
    }
    assert(bytes@.take(i as int) == bytes@);
    true
}

/// A longer piece of a text holds no fewer digits.
proof fn lemma_digits_grow(bytes: Seq<u8>, upto: int)
    requires
        0 <= upto <= bytes.len(),
    ensures
        digits(bytes.take(upto)) <= digits(bytes),
    decreases bytes.len() - upto,
{
    if upto < bytes.len() {
        assert(bytes.take(upto + 1).drop_last() == bytes.take(upto));
        lemma_digits_grow(bytes, upto + 1);
    } else {
        assert(bytes.take(upto) == bytes);
    }
}

/// Calls `humantime::parse_duration`. The contract names the result and
/// states that the nanoseconds of a duration stay below one second.
///
/// The call does not return where the seconds reach `u64::MAX` and the
/// nanoseconds come to a whole second. A text of at most `MAX_DIGITS`
/// digits cannot get there: its numbers add up to less than ten to the
/// power of `MAX_DIGITS`, and the longest unit, the year, has 31 557 600
/// seconds.
#[verifier::external_body]
fn parse_duration(text: &str) -> (r: Option<(u64, u32)>)
    requires
        digits(text.spec_bytes()) <= MAX_DIGITS,
    ensures
        r == parsed_duration(text@),
        r matches Some(d) ==> d.1 < 1_000_000_000,
{
    match humantime::parse_duration(text) {
        Ok(d) => Some((d.as_secs(), d.subsec_nanos())),
        Err(_) => None,
    }
}

impl Interval {
    /// The nanoseconds stay below one second.
    pub open spec fn wf(self) -> bool {
        self.nanos < 1_000_000_000
    }

    /// The interval that a parsed duration stands for.
    pub open spec fn of_parsed(parsed: Option<(u64, u32)>) -> Option<Interval> {
        match parsed {
            Some(d) => Some(Interval { secs: d.0, nanos: d.1 }),
            None => None,
        }
    }

    /// What reading a text gives: the duration that it spells, where it
    /// holds at most `MAX_DIGITS` digits and spells one.
    pub open spec fn spec_parse(text: &str) -> Option<Interval> {
        if digits(text.spec_bytes()) <= MAX_DIGITS {
            Self::of_parsed(parsed_duration(text@))
        } else {
            None
        }
    }

    /// Reads an interval written as `1hour 12min 5s`, `500ms` and the like.
    /// A text with more than `MAX_DIGITS` digits is refused.
    pub fn parse(text: &str) -> (r: Option<Interval>)
        ensures
            r == Self::spec_parse(text),
            r matches Some(i) ==> i.wf(),
    {
        if !few_digits(text) {
            return None;
        }
        match parse_duration(text) {
            Some(d) => Some(Interval { secs: d.0, nanos: d.1 }),
            None => None,
        }
    }

    /// The whole milliseconds of the interval, saturating at `u64::MAX`.
    pub open spec fn spec_millis(self) -> int {
        let exact = self.secs as int * 1000 + self.nanos as int / 1_000_000;
        if exact > u64::MAX as int {
            u64::MAX as int
        } else {
            exact
        }
    }

    /// The whole milliseconds of the interval, saturating at `u64::MAX`.
    pub fn millis(&self) -> (r: u64)
        ensures
            r == self.spec_millis(),
    {
        let sub: u64 = (self.nanos / 1_000_000) as u64;
        if self.secs > (u64::MAX - sub) / 1000 {
            u64::MAX
        } else {
            self.secs * 1000 + sub
        }
    }
}

/// `merge::bool::overwrite_false` replaces a `false` on the left by the right
/// value and keeps a `true`.
pub assume_specification[ merge::bool::overwrite_false ](left: &mut bool, right: bool)
    ensures
        *final(left) == (*old(left) || right),
;

/// Calls `merge::Merge::merge` on an `Option`: a `None` on the left is
/// replaced by the right value, a `Some` is kept.
#[verifier::external_body]
fn merge_option<T>(left: &mut Option<T>, right: Option<T>)
    ensures
        *final(left) == (if (*old(left)) is Some {
            *old(left)
        } else {
            right
        }),
{
    merge::Merge::merge(left, right)
}

/// Options that apply to every command.
#[derive(Clone, Debug)]
pub struct GlobalOpts {
    /// Only show what would be done without modifying anything.
    pub dry_run: bool,
    /// Log level; `Info` where none is given.
    pub log_level: Option<LogLevel>,
    /// Write log messages to this file instead of printing them.
    pub log_file: Option<String>,
    /// Do not show any progress bar.
    pub no_progress: bool,
    /// Interval between updates of the progress bars.
    pub progress_interval: Option<Interval>,
}

impl GlobalOpts {
    /// The options with nothing set.
    pub fn empty() -> (r: GlobalOpts)
        ensures
            r == (GlobalOpts {
                dry_run: false,
                log_level: None,
                log_file: None,
                no_progress: false,
                progress_interval: None,
            }),
    {
        GlobalOpts {
            dry_run: false,
            log_level: None,
            log_file: None,
            no_progress: false,
            progress_interval: None,
        }
    }

    /// What merging `other` into `self` gives: every value that `self` has
    /// set wins, every other one is taken from `other`.
    pub open spec fn merged(self, other: GlobalOpts) -> GlobalOpts {
        GlobalOpts {
            dry_run: self.dry_run || other.dry_run,
            log_level: if self.log_level is Some {
                self.log_level
            } else {
                other.log_level
            },
            log_file: if self.log_file is Some {
                self.log_file
            } else {
                other.log_file
            },
            no_progress: self.no_progress || other.no_progress,
            progress_interval: if self.progress_interval is Some {
                self.progress_interval
            } else {
                other.progress_interval
            },
        }
    }

    /// Fills what the command line left open from the profile.
    pub fn fill_from(&mut self, other: GlobalOpts)
        ensures
            *final(self) == old(self).merged(other),
    {
        merge::bool::overwrite_false(&mut self.dry_run, other.dry_run);
        merge_option(&mut self.log_level, other.log_level);
        merge_option(&mut self.log_file, other.log_file);
        merge::bool::overwrite_false(&mut self.no_progress, other.no_progress);
        merge_option(&mut self.progress_interval, other.progress_interval);
    }

    /// The level that messages are filtered by.
    pub open spec fn spec_level(self) -> LogLevel {
        match self.log_level {
            Some(l) => l,
            None => LogLevel::Info,
        }
    }

    /// The level that messages are filtered by.
    pub fn level(&self) -> (r: LogLevel)
        ensures
            r == self.spec_level(),
    {
        match self.log_level {
            Some(l) => l,
            None => LogLevel::Info,
        }
    }
}

/// The commands of the front end.
#[derive(Clone, Copy, Debug, PartialEq, Eq, Structural)]
pub enum CommandKind {
    Backup,
    Cat,
    Config,
    Completions,
    Check,
    Copy,
    Diff,
    Dump,
    Forget,
    Init,
    Key,
    List,
    Ls,
    Merge,
    Snapshots,
    SelfUpdate,
    Prune,
    Restore,
    Repair,
    Repoinfo,
    Tag,
}

/// How far the repository is brought up before a command runs.
#[derive(Clone, Copy, Debug, PartialEq, Eq, Structural)]
pub enum Stage {
    /// The command runs without any repository.
    Standalone,
    /// The backend is set up and its `Config` objects are listed, but the
    /// repository is not opened: there may be none yet.
    Unopened,
    /// The repository is unlocked and opened.
    Opened,
}

/// What the dispatcher hands to a command besides the opened repository and
/// the command's own options.
#[derive(Clone, Copy, Debug, PartialEq, Eq, Structural)]
pub struct Inputs {
    /// The merged global options.
    pub global: bool,
    /// The profile, for the command's own section of it.
    pub profile: bool,
    /// The command line as one text, recorded in new snapshots.
    pub invocation: bool,
}

impl CommandKind {
    /// The stage at which the command runs: no repository for the
    /// commands that need none, an unopened one for `Init`, an opened one else.
    pub open spec fn spec_stage(self) -> Stage {
        match self {
            CommandKind::SelfUpdate | CommandKind::Completions => Stage::Standalone,
            CommandKind::Init => Stage::Unopened,
            _ => Stage::Opened,
        }
    }

    /// The stage at which the command runs.
    pub fn stage(self) -> (r: Stage)
        ensures
            r == self.spec_stage(),
    {
        match self {
            CommandKind::SelfUpdate | CommandKind::Completions => Stage::Standalone,
            CommandKind::Init => Stage::Unopened,
            _ => Stage::Opened,
        }
    }

    /// What the command is handed when it runs.
    pub open spec fn spec_inputs(self) -> Inputs {
        match self {
            CommandKind::Backup => Inputs { global: true, profile: true, invocation: true },
            CommandKind::Merge => Inputs { global: false, profile: true, invocation: true },
            CommandKind::Copy | CommandKind::Forget | CommandKind::Restore | CommandKind::Repair
            | CommandKind::Tag => Inputs { global: true, profile: true, invocation: false },
            CommandKind::Prune => Inputs { global: true, profile: false, invocation: false },
            CommandKind::Cat | CommandKind::Diff | CommandKind::Dump | CommandKind::Ls
            | CommandKind::Snapshots => Inputs { global: false, profile: true, invocation: false },
            _ => Inputs { global: false, profile: false, invocation: false },
        }
    }

    /// What the command is handed when it runs.
    pub fn inputs(self) -> (r: Inputs)
        ensures
            r == self.spec_inputs(),
    {
        match self {
            CommandKind::Backup => Inputs { global: true, profile: true, invocation: true },
            CommandKind::Merge => Inputs { global: false, profile: true, invocation: true },
            CommandKind::Copy | CommandKind::Forget | CommandKind::Restore | CommandKind::Repair
            | CommandKind::Tag => Inputs { global: true, profile: true, invocation: false },
            CommandKind::Prune => Inputs { global: true, profile: false, invocation: false },
            CommandKind::Cat | CommandKind::Diff | CommandKind::Dump | CommandKind::Ls
            | CommandKind::Snapshots => Inputs { global: false, profile: true, invocation: false },
            _ => Inputs { global: false, profile: false, invocation: false },
        }
    }
}

/// A log file and the level that messages written to it are filtered by.
#[derive(Clone, Debug)]
pub struct FileLog {
    pub path: String,
    pub level: LogLevel,
}

/// The loggers of one run.
#[derive(Clone, Debug)]
pub struct LoggerPlan {
    /// Level of the logger that prints to the terminal.
    pub terminal: LogLevel,
    /// The logger that appends to a file, if any.
    pub file: Option<FileLog>,
}

impl LoggerPlan {
    /// Without a log file everything goes to the terminal at the chosen
    /// level. With one, the file takes the chosen level and the terminal
    /// shows warnings and errors at least, whatever the level.
    pub open spec fn of(opts: GlobalOpts) -> LoggerPlan {
        match opts.log_file {
            None => LoggerPlan { terminal: opts.spec_level(), file: None },
            Some(path) => LoggerPlan {
                terminal: opts.spec_level().spec_at_least(LogLevel::Warn),
                file: Some(FileLog { path, level: opts.spec_level() }),
            },
        }
    }

    /// The loggers that the options ask for.
    pub fn new(opts: &GlobalOpts) -> (r: LoggerPlan)
        ensures
            r == Self::of(*opts),
    {
        let level = opts.level();
        match &opts.log_file {
            None => LoggerPlan { terminal: level, file: None },
            Some(path) => LoggerPlan {
                terminal: level.at_least(LogLevel::Warn),
                file: Some(FileLog { path: path.clone(), level }),
            },
        }
    }
}

/// The parts of a text joined by single spaces.
pub open spec fn spaced(parts: Seq<Seq<char>>) -> Seq<char>
    decreases parts.len(),
{
    if parts.len() == 0 {
        Seq::empty()
    } else if parts.len() == 1 {
        parts[0]
    } else {
        spaced(parts.drop_last()) + seq![' '] + parts.last()
    }
}

/// The views of the texts of a vector.
pub open spec fn texts(parts: Seq<String>) -> Seq<Seq<char>> {
    parts.map_values(|p: String| p@)
}

/// Calls `join` of std's slices with one space as the separator: the
/// result holds the parts in order with the separator between neighbours.
#[verifier::external_body]
fn join_spaced(parts: &Vec<String>) -> (r: String)
    ensures
        r@ == spaced(texts(parts@)),
{
    parts.join(" ")
}

/// Everything that is settled before a command runs.
#[derive(Clone, Debug)]
pub struct RunPlan {
    /// The global options in force: the command line's, completed from the
    /// profile.
    pub global: GlobalOpts,
    pub logger: LoggerPlan,
    /// Whether progress bars are hidden.
    pub hide_progress: bool,
    /// The interval of progress updates, where one was chosen.
    pub progress_interval: Option<Interval>,
    pub stage: Stage,
    pub inputs: Inputs,
    /// The command line as one text.
    pub invocation: String,
}

impl RunPlan {
    /// Whether `self` is the plan of the given run: the global options are
    /// those of the command line completed from the profile, the loggers
    /// and the progress settings follow from them, stage and inputs are
    /// those of the command, and the invocation is the command line joined
    /// by spaces.
    pub open spec fn is_plan_of(
        self,
        kind: CommandKind,
        cli: GlobalOpts,
        profile: GlobalOpts,
        args: Seq<String>,
    ) -> bool {
        let global = cli.merged(profile);
        &&& self.global == global
        &&& self.logger == LoggerPlan::of(global)
        &&& self.hide_progress == global.no_progress
        &&& self.progress_interval == global.progress_interval
        &&& self.stage == kind.spec_stage()
        &&& self.inputs == kind.spec_inputs()
        &&& self.invocation@ == spaced(texts(args))
    }
}

/// Settles one run of the front end: merges the profile's global options
/// into those of the command line, chooses the loggers and the progress
/// settings, and says at which stage the command runs and what it is handed.
pub fn execute(kind: CommandKind, cli: GlobalOpts, profile: GlobalOpts, args: &Vec<String>) -> (r:
    RunPlan)
    ensures
        r.is_plan_of(kind, cli, profile, args@),
{
    let mut global = cli;
    global.fill_from(profile);
    let logger = LoggerPlan::new(&global);
    let hide_progress = global.no_progress;
    let progress_interval = global.progress_interval;
    RunPlan {
        global,
        logger,
        hide_progress,
        progress_interval,
        stage: kind.stage(),
        inputs: kind.inputs(),
        invocation: join_spaced(args),
    }
}

} // verus!
