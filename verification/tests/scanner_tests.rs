use disk_scout::cli::ScanArgs;
use disk_scout::ignore::{IgnoreConfig, IgnoreMatcher};
use disk_scout::output::OutputFormat;
use disk_scout::plan::plan_from_args;
use disk_scout::scanner::{
    normalize_rel_path, EntryAction, EntryKind, ScanInitError, ScanState, MAX_ERROR_SAMPLES,
};

fn no_rules() -> IgnoreMatcher {
    IgnoreMatcher::from_config(&IgnoreConfig::default(), None, None)
}

#[test]
fn walk_aggregates_dir_sizes_and_top_files() {
    // root/{d1/{a.bin: 10, b.bin: 30}, c.bin: 20}
    let ignore = no_rules();
    let mut st = ScanState::new(2, 10, 0);
    st.enter_dir();
    let a = st.visit_entry(&ignore, EntryKind::Dir, "d1", Some("d1"), "/r/d1".into(), 4096);
    assert_eq!(a, EntryAction::Descend);
    st.enter_dir();
    let f1 = st.visit_entry(&ignore, EntryKind::File, "d1/a.bin", Some("a.bin"), "/r/d1/a.bin".into(), 10);
    let f2 = st.visit_entry(&ignore, EntryKind::File, "d1/b.bin", Some("b.bin"), "/r/d1/b.bin".into(), 30);
    assert_eq!((f1, f2), (EntryAction::Counted, EntryAction::Counted));
    assert_eq!(st.leave_dir("/r/d1".into()), 40);
    st.visit_entry(&ignore, EntryKind::File, "c.bin", Some("c.bin"), "/r/c.bin".into(), 20);
    assert_eq!(st.leave_dir("/r".into()), 60);
    let r = st.finish("/r".into(), 5);

    assert_eq!(r.stats.files_seen, 3);
    assert_eq!(r.stats.dirs_seen, 2);
    assert_eq!(r.stats.bytes_total, 60);
    assert_eq!(r.stats.duration_ms, 5);
    assert_eq!(r.top_files.len(), 2);
    assert_eq!(r.top_files[0].size, 30);
    assert_eq!(r.top_files[1].size, 20);
    assert_eq!(r.top_dirs.len(), 2);
    assert_eq!((r.top_dirs[0].size, r.top_dirs[0].path.as_str()), (60, "/r"));
    assert_eq!((r.top_dirs[1].size, r.top_dirs[1].path.as_str()), (40, "/r/d1"));
}

#[test]
fn walk_applies_min_size_and_ignore_rules() {
    let config = IgnoreConfig {
        patterns: vec!["*.tmp".to_string()],
        ignore_file: Some("/r/.disk-scout-ignore".to_string()),
    };
    let ignore = IgnoreMatcher::from_config(&config, Some("# comment\nskip/*\n"), Some(".disk-scout-ignore"));
    let mut st = ScanState::new(10, 10, 1024);
    st.enter_dir();
    assert_eq!(
        st.visit_entry(&ignore, EntryKind::File, ".disk-scout-ignore", Some(".disk-scout-ignore"), "/r/.disk-scout-ignore".into(), 18),
        EntryAction::Skip
    );
    assert_eq!(
        st.visit_entry(&ignore, EntryKind::Dir, "skip", Some("skip"), "/r/skip".into(), 0),
        EntryAction::Descend
    );
    st.enter_dir();
    assert_eq!(
        st.visit_entry(&ignore, EntryKind::File, "skip/ignored.bin", Some("ignored.bin"), "/r/skip/ignored.bin".into(), 4096),
        EntryAction::Skip
    );
    assert_eq!(st.leave_dir("/r/skip".into()), 0);
    st.visit_entry(&ignore, EntryKind::File, "keep/small.bin", Some("small.bin"), "/r/keep/small.bin".into(), 10);
    st.visit_entry(&ignore, EntryKind::File, "keep/big.bin", Some("big.bin"), "/r/keep/big.bin".into(), 2048);
    st.leave_dir("/r".into());
    let r = st.finish("/r".into(), 0);

    assert_eq!(r.stats.files_seen, 2);
    assert_eq!(r.stats.bytes_total, 10 + 2048);
    assert_eq!(r.top_files.len(), 1);
    assert!(r.top_files[0].path.ends_with("big.bin"));
}

#[test]
fn walk_skips_symlinks_and_other_entries() {
    let ignore = no_rules();
    let mut st = ScanState::new(10, 10, 0);
    st.enter_dir();
    assert_eq!(
        st.visit_entry(&ignore, EntryKind::Symlink, "link", Some("link"), "/r/link".into(), 50),
        EntryAction::Skip
    );
    assert_eq!(
        st.visit_entry(&ignore, EntryKind::Other, "fifo", Some("fifo"), "/r/fifo".into(), 0),
        EntryAction::Skip
    );
    assert_eq!(st.open_sums, vec![0]);
    assert_eq!(st.stats.files_seen, 0);
    assert_eq!(st.leave_dir("/r".into()), 0);
}

#[test]
fn directory_totals_saturate() {
    let ignore = no_rules();
    let mut st = ScanState::new(1, 1, 0);
    st.enter_dir();
    st.enter_dir();
    st.visit_entry(&ignore, EntryKind::File, "d/a", Some("a"), "/r/d/a".into(), u64::MAX - 1);
    assert_eq!(st.leave_dir("/r/d".into()), u64::MAX - 1);
    st.visit_entry(&ignore, EntryKind::File, "b", Some("b"), "/r/b".into(), 10);
    assert_eq!(st.leave_dir("/r".into()), u64::MAX);
    assert_eq!(st.finish("/r".into(), 0).stats.bytes_total, u64::MAX);
}

#[test]
fn unreadable_directory_adds_nothing() {
    let ignore = no_rules();
    let mut st = ScanState::new(1, 5, 0);
    st.enter_dir();
    st.visit_entry(&ignore, EntryKind::File, "a", Some("a"), "/r/a".into(), 7);
    st.enter_dir();
    assert_eq!(st.dir_unreadable("/r/locked".into(), "denied".into()), 0);
    assert_eq!(st.leave_dir("/r".into()), 7);
    let r = st.finish("/r".into(), 0);
    assert_eq!(r.stats.bytes_total, 7);
    assert_eq!(r.stats.dirs_seen, 2);
    assert_eq!(r.errors.total, 1);
    assert_eq!(r.top_dirs.len(), 1);
}

#[test]
fn root_file_is_counted() {
    let mut st = ScanState::new(1, 1, 0);
    let total = st.root_file("/r/file".into(), 77);
    assert_eq!(total, 77);
    let r = st.finish("/r/file".into(), 0);
    assert_eq!(r.stats.files_seen, 1);
    assert_eq!(r.stats.bytes_total, 77);
    assert_eq!(r.top_files[0].size, 77);
}

#[test]
fn error_log_keeps_the_first_samples() {
    let mut st = ScanState::new(1, 1, 0);
    for i in 0..(MAX_ERROR_SAMPLES + 5) {
        st.record_error(format!("/p{i}"), "denied".to_string());
    }
    assert_eq!(st.errors.total, (MAX_ERROR_SAMPLES + 5) as u64);
    assert_eq!(st.errors.samples.len(), MAX_ERROR_SAMPLES);
    assert_eq!(st.errors.samples[0].path, "/p0");
    for (i, sample) in st.errors.samples.iter().enumerate() {
        assert_eq!(sample.path, format!("/p{i}"));
        assert_eq!(sample.message, "denied");
    }
    let r = st.finish("/r".into(), 0);
    assert_eq!(r.stats.errors_total, (MAX_ERROR_SAMPLES + 5) as u64);
}

#[test]
fn relative_paths_join_components() {
    let parts = |v: &[&str]| v.iter().map(|s| s.to_string()).collect::<Vec<String>>();
    assert_eq!(normalize_rel_path(&parts(&["a", "b", "c.txt"])), "a/b/c.txt");
    assert_eq!(normalize_rel_path(&parts(&["", "a", "", "b"])), "a/b");
    assert_eq!(normalize_rel_path(&parts(&[])), "");
}

#[test]
fn init_errors_carry_their_messages() {
    let e = ScanInitError::symlink_root("/r".into());
    assert_eq!(e.message, "root path is a symlink (not followed by default)");
    let e = ScanInitError::ignore_rules("/r".into(), "No such file");
    assert_eq!(e.message, "failed to read ignore rules: No such file");
    assert_eq!(e.root, "/r");
}

#[test]
fn plan_takes_the_scan_arguments() {
    let args = ScanArgs {
        path: "/data".into(),
        top_files: 3,
        top_dirs: 4,
        min_size: 5,
        format: OutputFormat::Json,
        ignore: vec!["*.log".into()],
        ignore_file: Some("/data/.ign".into()),
    };
    let plan = plan_from_args(args);
    assert_eq!(plan.root, "/data");
    assert_eq!((plan.top_files, plan.top_dirs, plan.min_size), (3, 4, 5));
    assert_eq!(plan.format, OutputFormat::Json);
    assert_eq!(plan.ignore.patterns, vec!["*.log".to_string()]);
    assert_eq!(plan.ignore.ignore_file.as_deref(), Some("/data/.ign"));
}
