use rustic::options::{
    execute, CommandKind, GlobalOpts, Interval, LogLevel, LoggerPlan, Stage,
};

fn opts(
    dry_run: bool,
    log_level: Option<LogLevel>,
    log_file: Option<&str>,
    no_progress: bool,
    progress_interval: Option<Interval>,
) -> GlobalOpts {
    GlobalOpts {
        dry_run,
        log_level,
        log_file: log_file.map(|s| s.to_string()),
        no_progress,
        progress_interval,
    }
}

#[test]
fn merge_keeps_what_the_command_line_set() {
    let mut cli = opts(true, Some(LogLevel::Debug), None, false, None);
    let profile = opts(
        false,
        Some(LogLevel::Error),
        Some("/var/log/backup.log"),
        true,
        Some(Interval { secs: 2, nanos: 0 }),
    );
    cli.fill_from(profile);
    assert!(cli.dry_run);
    assert_eq!(cli.log_level, Some(LogLevel::Debug));
    assert_eq!(cli.log_file.as_deref(), Some("/var/log/backup.log"));
    assert!(cli.no_progress);
    assert_eq!(cli.progress_interval, Some(Interval { secs: 2, nanos: 0 }));
}

#[test]
fn merge_of_empty_options_changes_nothing() {
    let mut cli = opts(false, None, Some("a.log"), false, None);
    cli.fill_from(GlobalOpts::empty());
    assert!(!cli.dry_run);
    assert_eq!(cli.log_level, None);
    assert_eq!(cli.log_file.as_deref(), Some("a.log"));
    assert!(!cli.no_progress);
    assert_eq!(cli.progress_interval, None);
}

#[test]
fn level_defaults_to_info() {
    assert_eq!(GlobalOpts::empty().level(), LogLevel::Info);
    assert_eq!(
        opts(false, Some(LogLevel::Trace), None, false, None).level(),
        LogLevel::Trace
    );
}

#[test]
fn levels_are_ordered_from_off_to_trace() {
    assert_eq!(LogLevel::Off.verbosity(), 0);
    assert_eq!(LogLevel::Error.verbosity(), 1);
    assert_eq!(LogLevel::Warn.verbosity(), 2);
    assert_eq!(LogLevel::Info.verbosity(), 3);
    assert_eq!(LogLevel::Debug.verbosity(), 4);
    assert_eq!(LogLevel::Trace.verbosity(), 5);
    assert_eq!(LogLevel::Error.at_least(LogLevel::Warn), LogLevel::Warn);
    assert_eq!(LogLevel::Debug.at_least(LogLevel::Warn), LogLevel::Debug);
    assert_eq!(LogLevel::Warn.at_least(LogLevel::Warn), LogLevel::Warn);
}

#[test]
fn terminal_takes_everything_without_a_log_file() {
    let plan = LoggerPlan::new(&opts(false, Some(LogLevel::Error), None, false, None));
    assert_eq!(plan.terminal, LogLevel::Error);
    assert!(plan.file.is_none());
}

#[test]
fn terminal_keeps_warnings_beside_a_log_file() {
    let plan = LoggerPlan::new(&opts(false, Some(LogLevel::Off), Some("x.log"), false, None));
    assert_eq!(plan.terminal, LogLevel::Warn);
    let file = plan.file.unwrap();
    assert_eq!(file.path, "x.log");
    assert_eq!(file.level, LogLevel::Off);

    let plan = LoggerPlan::new(&opts(false, Some(LogLevel::Trace), Some("x.log"), false, None));
    assert_eq!(plan.terminal, LogLevel::Trace);
    assert_eq!(plan.file.unwrap().level, LogLevel::Trace);
}

#[test]
fn interval_parses_human_durations() {
    assert_eq!(Interval::parse("2h 37min"), Some(Interval { secs: 9420, nanos: 0 }));
    assert_eq!(Interval::parse("32ms"), Some(Interval { secs: 0, nanos: 32_000_000 }));
    assert_eq!(Interval::parse("0"), Some(Interval { secs: 0, nanos: 0 }));
    assert_eq!(Interval::parse("soon"), None);
    assert_eq!(Interval::parse(""), None);
}

#[test]
fn interval_in_milliseconds() {
    assert_eq!(Interval { secs: 1, nanos: 500_000_000 }.millis(), 1500);
    assert_eq!(Interval { secs: 0, nanos: 999_999 }.millis(), 0);
    assert_eq!(Interval { secs: u64::MAX, nanos: 0 }.millis(), u64::MAX);
    assert_eq!(
        Interval { secs: u64::MAX / 1000, nanos: 615_000_000 }.millis(),
        u64::MAX
    );
    assert_eq!(
        Interval { secs: u64::MAX / 1000, nanos: 614_000_000 }.millis(),
        u64::MAX - 1
    );
}

#[test]
fn commands_run_at_their_stage() {
    assert_eq!(CommandKind::SelfUpdate.stage(), Stage::Standalone);
    assert_eq!(CommandKind::Completions.stage(), Stage::Standalone);
    assert_eq!(CommandKind::Init.stage(), Stage::Unopened);
    for kind in [
        CommandKind::Backup,
        CommandKind::Cat,
        CommandKind::Config,
        CommandKind::Check,
        CommandKind::Copy,
        CommandKind::Diff,
        CommandKind::Dump,
        CommandKind::Forget,
        CommandKind::Key,
        CommandKind::List,
        CommandKind::Ls,
        CommandKind::Merge,
        CommandKind::Snapshots,
        CommandKind::Prune,
        CommandKind::Restore,
        CommandKind::Repair,
        CommandKind::Repoinfo,
        CommandKind::Tag,
    ] {
        assert_eq!(kind.stage(), Stage::Opened);
    }
}

#[test]
fn commands_are_handed_what_they_use() {
    let backup = CommandKind::Backup.inputs();
    assert!(backup.global && backup.profile && backup.invocation);
    let merge = CommandKind::Merge.inputs();
    assert!(!merge.global && merge.profile && merge.invocation);
    let prune = CommandKind::Prune.inputs();
    assert!(prune.global && !prune.profile && !prune.invocation);
    let check = CommandKind::Check.inputs();
    assert!(!check.global && !check.profile && !check.invocation);
    let ls = CommandKind::Ls.inputs();
    assert!(!ls.global && ls.profile && !ls.invocation);
    let restore = CommandKind::Restore.inputs();
    assert!(restore.global && restore.profile && !restore.invocation);
}

#[test]
fn execute_plans_a_run() {
    let cli = opts(false, None, None, true, None);
    let profile = opts(true, Some(LogLevel::Debug), Some("run.log"), false, None);
    let args = vec!["rustic".to_string(), "backup".to_string(), "/home".to_string()];
    let plan = execute(CommandKind::Backup, cli, profile, &args);
    assert!(plan.global.dry_run);
    assert!(plan.hide_progress);
    assert_eq!(plan.progress_interval, None);
    assert_eq!(plan.logger.terminal, LogLevel::Debug);
    assert_eq!(plan.logger.file.as_ref().unwrap().path, "run.log");
    assert_eq!(plan.logger.file.as_ref().unwrap().level, LogLevel::Debug);
    assert_eq!(plan.stage, Stage::Opened);
    assert_eq!(plan.invocation, "rustic backup /home");
}

#[test]
fn execute_joins_the_command_line() {
    let none: Vec<String> = Vec::new();
    let plan = execute(CommandKind::Completions, GlobalOpts::empty(), GlobalOpts::empty(), &none);
    assert_eq!(plan.invocation, "");
    assert_eq!(plan.stage, Stage::Standalone);
    let one = vec!["rustic".to_string()];
    let plan = execute(CommandKind::Init, GlobalOpts::empty(), GlobalOpts::empty(), &one);
    assert_eq!(plan.invocation, "rustic");
    assert_eq!(plan.stage, Stage::Unopened);
    assert_eq!(plan.logger.terminal, LogLevel::Info);
}

#[test]
fn interval_refuses_texts_with_many_digits() {
    assert_eq!(Interval::parse("18446744073709551615s 1000ms"), None);
    assert_eq!(Interval::parse("584554049253y 27249215s 1000ms"), None);
    assert_eq!(Interval::parse("100000000000s"), None);
    assert_eq!(
        Interval::parse("99999999999s"),
        Some(Interval { secs: 99_999_999_999, nanos: 0 })
    );
    assert_eq!(
        Interval::parse("1hour 12min 5s 250ms 10us 1ns"),
        Some(Interval { secs: 4325, nanos: 250_010_001 })
    );
    assert_eq!(
        Interval::parse("99999999y 999ms"),
        Some(Interval { secs: 99_999_999 * 31_557_600, nanos: 999_000_000 })
    );
    assert_eq!(Interval::parse("999ms 1ms"), Some(Interval { secs: 1, nanos: 0 }));
}
