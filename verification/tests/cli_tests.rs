use clean_code::cli::{
    artifact_dir_names, default_artifact_dir_names, run, unit_multiplier, ByteSize, Cli, Command,
    CommonArgs, ConfigError, RunPlan, TuiArgs, DEFAULT_MIN_SIZE_BYTES, DEFAULT_STALE_DAYS,
};
use clean_code::tui::TuiOptions;
use clean_code::pending::PendingHeads;
use clean_code::git::GitHead;
use clean_code::path::FsPath;

#[test]
fn the_default_names_are_the_usual_build_directories() {
    let names = default_artifact_dir_names();
    assert_eq!(names.len(), 31);
    assert_eq!(names[0], b"target".to_vec());
    assert_eq!(names[1], b"node_modules".to_vec());
    assert_eq!(names[30], b"tmp".to_vec());
    assert!(names.contains(&b"__pycache__".to_vec()));
    assert!(names.contains(&b".venv".to_vec()));
    assert!(!names.contains(&b".git".to_vec()));
    assert_eq!(DEFAULT_MIN_SIZE_BYTES, 1_048_576);
}

#[test]
fn added_names_follow_the_defaults() {
    let names = artifact_dir_names(false, &vec!["vendor".to_string(), "caf\u{e9}".to_string()]).unwrap();
    assert_eq!(names.len(), 33);
    assert_eq!(names[..31], default_artifact_dir_names()[..]);
    assert_eq!(names[31], b"vendor".to_vec());
    assert_eq!(names[32], "caf\u{e9}".as_bytes().to_vec());
    assert_eq!(artifact_dir_names(false, &Vec::new()).unwrap(), default_artifact_dir_names());
}

#[test]
fn the_defaults_can_be_switched_off() {
    let names = artifact_dir_names(true, &vec!["vendor".to_string()]).unwrap();
    assert_eq!(names, vec![b"vendor".to_vec()]);
}

#[test]
fn a_run_without_names_is_refused() {
    let refused = artifact_dir_names(true, &Vec::new());
    assert_eq!(refused, Err(ConfigError::NoArtifactNames));
    assert_eq!(ConfigError::NoArtifactNames.message(), "no artifact directory names configured");
}

#[test]
fn units_count_in_thousands_or_in_powers_of_1024() {
    let cases: [(&str, Option<u64>); 24] = [
        ("", Some(1)),
        ("b", Some(1)),
        ("k", Some(1_000)),
        ("kb", Some(1_000)),
        ("m", Some(1_000_000)),
        ("mb", Some(1_000_000)),
        ("g", Some(1_000_000_000)),
        ("gb", Some(1_000_000_000)),
        ("t", Some(1_000_000_000_000)),
        ("tb", Some(1_000_000_000_000)),
        ("p", Some(1_000_000_000_000_000)),
        ("pb", Some(1_000_000_000_000_000)),
        ("kib", Some(1024)),
        ("mib", Some(1024 * 1024)),
        ("gib", Some(1024 * 1024 * 1024)),
        ("tib", Some(1024u64.pow(4))),
        ("pib", Some(1024u64.pow(5))),
        ("eib", None),
        ("e", None),
        ("KiB", None),
        ("bytes", None),
        (" kb", None),
        ("kbb", None),
        ("i", None),
    ];
    for (unit, expected) in cases {
        assert_eq!(unit_multiplier(&unit.to_string()), expected, "{unit:?}");
    }
}

#[test]
fn pending_heads_are_a_map() {
    let head = |n: i64| Some(GitHead { hash: format!("h{n}"), unix_seconds: n, iso8601: "d".to_string() });
    let mut map = PendingHeads::new();
    assert_eq!(map.remove(&FsPath::from_text("/a")), None);
    map.insert(FsPath::from_text("/a"), head(1));
    map.insert(FsPath::from_text("/b"), None);
    map.insert(FsPath::from_text("/a"), head(2));
    assert_eq!(map.remove(&FsPath::from_text("/c")), None);
    assert_eq!(map.remove(&FsPath::from_text("/a")), Some(head(2)));
    assert_eq!(map.remove(&FsPath::from_text("/a")), None);
    assert_eq!(map.remove(&FsPath::from_text("/b")), Some(None));
    assert_eq!(map.remove(&FsPath::from_text("/b")), None);
}

fn cli(no_default_artifacts: bool, artifacts: &[&str], command: Option<Command>) -> Cli {
    Cli {
        common: CommonArgs {
            root: FsPath::from_text("."),
            threads: Some(3),
            artifacts: artifacts.iter().map(|a| a.to_string()).collect(),
            no_default_artifacts,
        },
        command,
    }
}

#[test]
fn without_a_command_the_session_runs_with_its_defaults() {
    match run(cli(false, &[], None)) {
        Ok(RunPlan::Tui { artifact_dir_names, threads, options }) => {
            assert_eq!(artifact_dir_names, default_artifact_dir_names());
            assert_eq!(threads, Some(3));
            assert_eq!(options, TuiOptions { min_size_bytes: 1024 * 1024, dry_run: false });
        }
        other => panic!("not a session: {other:?}"),
    }
    assert_eq!(DEFAULT_STALE_DAYS, 30);
}

#[test]
fn the_session_takes_its_options_from_the_arguments() {
    let args = TuiArgs { stale_days: 7, min_size: ByteSize(5000), clean_all: true, dry_run: true };
    assert_eq!(args.min_size.as_u64(), 5000);
    match run(cli(true, &["vendor"], Some(Command::Tui(args)))) {
        Ok(RunPlan::Tui { artifact_dir_names, threads, options }) => {
            assert_eq!(artifact_dir_names, vec![b"vendor".to_vec()]);
            assert_eq!(threads, Some(3));
            assert_eq!(options, TuiOptions { min_size_bytes: 5000, dry_run: true });
        }
        other => panic!("not a session: {other:?}"),
    }
}

#[test]
fn the_scan_command_plans_a_scan() {
    match run(cli(false, &["vendor"], Some(Command::Scan))) {
        Ok(RunPlan::Scan { artifact_dir_names, threads }) => {
            assert_eq!(artifact_dir_names.len(), 32);
            assert_eq!(artifact_dir_names[31], b"vendor".to_vec());
            assert_eq!(threads, Some(3));
        }
        other => panic!("not a scan: {other:?}"),
    }
}

#[test]
fn a_command_line_without_names_is_refused() {
    assert!(matches!(run(cli(true, &[], Some(Command::Scan))), Err(ConfigError::NoArtifactNames)));
    assert!(matches!(run(cli(true, &[], None)), Err(ConfigError::NoArtifactNames)));
}
