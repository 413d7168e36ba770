use build_progress::logger::{
    finish_progress, log_bytes, set_progress_position, start_progress, LevelFilter, Opts,
    Progress,
};

#[test]
fn flags_select_the_verbosity() {
    let base = Opts { debug: false, trace: false, quiet: false };
    assert_eq!(base.level_filter(), LevelFilter::Info);
    assert_eq!(Opts { debug: true, ..base }.level_filter(), LevelFilter::Debug);
    assert_eq!(Opts { trace: true, ..base }.level_filter(), LevelFilter::Trace);
    assert_eq!(Opts { trace: true, debug: true, ..base }.level_filter(), LevelFilter::Trace);
    assert_eq!(Opts { quiet: true, debug: true, trace: true, ..base }.level_filter(),
        LevelFilter::Off);
}

#[test]
fn captured_lines_are_logged_from_info_up() {
    let line = b"captured".to_vec();
    assert_eq!(log_bytes(LevelFilter::Off, &line), None);
    assert_eq!(log_bytes(LevelFilter::Error, &line), None);
    assert_eq!(log_bytes(LevelFilter::Warn, &line), None);
    assert_eq!(log_bytes(LevelFilter::Info, &line), Some(line.clone()));
    assert_eq!(log_bytes(LevelFilter::Debug, &line), Some(line.clone()));
    assert_eq!(log_bytes(LevelFilter::Trace, &line), Some(line.clone()));
}

#[test]
fn progress_state_updates_are_idempotent() {
    let mut p = Progress::new();
    assert_eq!(p.len, None);
    start_progress(&mut p, 600);
    start_progress(&mut p, 600);
    assert_eq!(p.len, Some(600));
    set_progress_position(&mut p, 42);
    set_progress_position(&mut p, 42);
    assert_eq!(p.pos, 42);
    assert!(!p.finished);
    finish_progress(&mut p);
    finish_progress(&mut p);
    assert!(p.finished);
    assert_eq!(p.len, Some(600));
    assert_eq!(p.pos, 42);
}
