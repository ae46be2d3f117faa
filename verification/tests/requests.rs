use clam_onaccess::config::{AbsoluteDirPath, Config, Response};
use clam_onaccess::errno::{init_failure, InitFailure};
use clam_onaccess::job::{
    advance, begin, event_loop, holds_connection, holds_permit, job, link_status, watch_pid_file, write_link_path, LoopStep, Outcome,
    Phase, ReadOutcome, Report, Status, WatchError,
};
use clam_onaccess::scan::{ScanError, ScanOutcome, ScanPhase};

fn config(res_on_error: Response) -> Config {
    let dirs = ["/home", "/srv/data/"]
        .iter()
        .map(|d| AbsoluteDirPath::from_bytes(d.as_bytes().to_vec()).unwrap())
        .collect();
    Config {
        uids: vec![],
        my_pid: 100,
        clamd_pid: 200,
        dirs,
        ex_dirs: vec![],
        res_on_error,
        max_connection: 20,
        socket_path: vec![],
    }
}

fn answer(answer: Response) -> Phase {
    Phase::Answer { answer, mark_failure: None }
}

fn link(path: &[u8]) -> Outcome<'_> {
    Outcome::Link { buffer: path, len: path.len() as isize }
}

fn received(reply: &[u8]) -> Outcome<'static> {
    Outcome::Scanned(ScanOutcome::Received(reply.to_vec()))
}

/// Runs a request to its end and gives the answers that are written.
fn answers(cfg: &Config, pid: i32, outcomes: Vec<Outcome<'_>>) -> (Vec<Response>, Phase) {
    let mut phase = begin(cfg, pid);
    let mut written = vec![];
    for outcome in outcomes {
        if let Phase::Answer { answer, .. } = phase {
            written.push(answer);
        }
        phase = advance(cfg, phase, outcome).0;
    }
    (written, phase)
}

#[test]
fn requests_with_files_are_handled() {
    match event_loop(&ReadOutcome::Requests(vec![Some(3), None, Some(5), Some(6)])) {
        LoopStep::Handle { overflowed, pending } => {
            assert!(overflowed);
            assert_eq!(pending, vec![0, 2, 3]);
        }
        other => panic!("{other:?}"),
    }
    match event_loop(&ReadOutcome::Requests(vec![Some(3)])) {
        LoopStep::Handle { overflowed, pending } => {
            assert!(!overflowed);
            assert_eq!(pending, vec![0]);
        }
        other => panic!("{other:?}"),
    }
}

#[test]
fn only_an_empty_queue_is_waited_for() {
    let would_block = nix::errno::Errno::EWOULDBLOCK as i32;
    let interrupted = nix::errno::Errno::EINTR as i32;
    assert!(matches!(event_loop(&ReadOutcome::Failed(would_block)), LoopStep::Wait));
    assert!(matches!(event_loop(&ReadOutcome::Failed(interrupted)), LoopStep::Stop(4)));
    assert!(matches!(event_loop(&ReadOutcome::Failed(28)), LoopStep::Stop(28)));
}

#[test]
fn missing_privileges_are_told() {
    let denied = init_failure(nix::errno::Errno::EPERM as i32);
    assert_eq!(denied, InitFailure::NoPrivilege);
    assert_eq!(
        denied.message(),
        "Permission denied. This program must be run with root privileges (CAP_SYS_ADMIN)."
    );
    assert_eq!(init_failure(nix::errno::Errno::ENOSYS as i32), InitFailure::Other);
    assert_eq!(InitFailure::Other.message(), "Failed to initialize fanotify");
    assert_eq!(denied.describe("EPERM"), denied.message());
    assert_eq!(InitFailure::Other.describe("ENOSYS"), "Failed to initialize fanotify: ENOSYS");
}

#[test]
fn link_path_is_written_and_terminated() {
    for fd in [0, 7, 10, 12345, i32::MAX, -1, i32::MIN] {
        let mut buffer = [b'x'; 32];
        write_link_path(&mut buffer, fd);
        let text = format!("/proc/self/fd/{fd}\0");
        assert_eq!(&buffer[..text.len()], text.as_bytes());
        assert!(buffer[text.len()..].iter().all(|b| *b == b'x'));
    }
}

#[test]
fn shorter_link_path_replaces_a_longer_one() {
    let mut buffer = [0u8; 32];
    write_link_path(&mut buffer, 123456);
    write_link_path(&mut buffer, 7);
    let end = buffer.iter().position(|b| *b == 0).unwrap();
    assert_eq!(&buffer[..end], b"/proc/self/fd/7");
}

#[test]
fn files_are_told_apart_by_their_path() {
    let cfg = config(Response::Allow);
    let status = |path: &[u8]| link_status(&cfg, path, path.len() as isize);
    assert_eq!(status(b"/home/user/x"), Status::NeedScan);
    assert_eq!(status(b"/srv/data/x"), Status::NeedScan);
    assert_eq!(status(b"/srv/x"), Status::Ignored);
    assert_eq!(status(b"/homework"), Status::Ignored);
    assert_eq!(status(b"/home"), Status::Ignored);
    assert_eq!(link_status(&cfg, b"/home/x", 0), Status::Error);
    assert_eq!(link_status(&cfg, b"/home/x", -1), Status::Error);
    assert_eq!(link_status(&cfg, b"/home/user/stale", 5), Status::Ignored);
}

#[test]
fn reply_gives_the_answer() {
    assert_eq!(job(Some("fd[10]: OK")), Some(Response::Allow));
    assert_eq!(job(Some("fd[10]: Eicar FOUND")), Some(Response::Deny));
    assert_eq!(job(Some("fd[10]: ERROR")), None);
    assert_eq!(job(None), None);
}

#[test]
fn exempt_processes_are_answered_at_once() {
    let cfg = config(Response::Deny);
    assert_eq!(begin(&cfg, 100), answer(Response::Allow));
    assert_eq!(begin(&cfg, 200), answer(Response::Allow));
    assert_eq!(begin(&cfg, 300), Phase::Resolve);
    assert_eq!(begin(&cfg, -1), Phase::Resolve);
    let mut odd = config(Response::Deny);
    odd.clamd_pid = u32::MAX;
    assert_eq!(begin(&odd, -1), answer(Response::Allow));
    assert_eq!(
        answers(&cfg, 100, vec![Outcome::Completed]),
        (vec![Response::Allow], Phase::Done)
    );
}

#[test]
fn clean_file_is_marked_and_allowed() {
    let cfg = config(Response::Deny);
    let mut phase = begin(&cfg, 1);
    let mut seen = vec![phase];
    for outcome in [
        link(b"/home/x"),
        Outcome::Permitted,
        Outcome::Scanned(ScanOutcome::Completed),
        Outcome::Scanned(ScanOutcome::Completed),
        received(b"fd[10]: OK\0"),
        Outcome::Completed,
        Outcome::Completed,
    ] {
        let (next, report) = advance(&cfg, phase, outcome);
        assert!(report.is_none());
        phase = next;
        seen.push(phase);
    }
    assert_eq!(
        seen,
        vec![
            Phase::Resolve,
            Phase::Permit,
            Phase::Scan(ScanPhase::Connect),
            Phase::Scan(ScanPhase::Send),
            Phase::Scan(ScanPhase::Receive),
            Phase::Mark,
            answer(Response::Allow),
            Phase::Done,
        ]
    );
}

#[test]
fn threats_are_denied_and_reported() {
    let cfg = config(Response::Allow);
    let (phase, report) =
        advance(&cfg, Phase::Scan(ScanPhase::Receive), received(b"fd[10]: Eicar FOUND\0"));
    assert_eq!(phase, answer(Response::Deny));
    match report {
        Some(Report::Threat(text)) => assert_eq!(text, "fd[10]: Eicar FOUND"),
        other => panic!("{other:?}"),
    }
}

#[test]
fn failures_are_answered_as_configured() {
    for on_error in [Response::Allow, Response::Deny] {
        let cfg = config(on_error);
        let expected = answer(on_error);
        assert_eq!(advance(&cfg, Phase::Resolve, Outcome::Link { buffer: b"", len: -1 }).0, expected);
        assert_eq!(advance(&cfg, Phase::Permit, Outcome::Completed).0, expected);
        for step in [ScanPhase::Connect, ScanPhase::Send, ScanPhase::Receive] {
            for outcome in [ScanOutcome::TimedOut, ScanOutcome::Failed] {
                assert_eq!(
                    advance(&cfg, Phase::Scan(step), Outcome::Scanned(outcome)).0,
                    expected
                );
            }
        }
        let unclear = advance(&cfg, Phase::Scan(ScanPhase::Receive), received(b"fd[10]: ERROR\0"));
        assert_eq!(unclear.0, expected);
        assert!(matches!(unclear.1, Some(Report::ErrorReply(_))));
    }
}

#[test]
fn failures_are_reported() {
    let cfg = config(Response::Allow);
    let report = |phase, outcome| advance(&cfg, phase, outcome).1;
    assert!(matches!(
        report(Phase::Resolve, Outcome::Link { buffer: b"", len: 0 }),
        Some(Report::NoPath)
    ));
    assert!(matches!(report(Phase::Permit, Outcome::Failed(0)), Some(Report::NoPermit)));
    assert!(matches!(
        report(Phase::Scan(ScanPhase::Send), Outcome::Scanned(ScanOutcome::TimedOut)),
        Some(Report::ScanFailed(ScanError::SendTimeout))
    ));
    assert!(matches!(
        report(Phase::Scan(ScanPhase::Connect), Outcome::Completed),
        Some(Report::ScanFailed(ScanError::Connect))
    ));
    let failed = Phase::Answer { answer: Response::Allow, mark_failure: Some(13) };
    assert!(matches!(report(failed, Outcome::Completed), Some(Report::MarkFailed(13))));
}

#[test]
fn full_mark_table_is_flushed_after_the_answer() {
    let cfg = config(Response::Deny);
    let no_space = nix::errno::Errno::ENOSPC as i32;
    let (phase, _) = advance(&cfg, Phase::Mark, Outcome::Failed(no_space));
    assert_eq!(phase, Phase::Answer { answer: Response::Allow, mark_failure: Some(no_space) });
    let (phase, report) = advance(&cfg, phase, Outcome::Completed);
    assert_eq!(phase, Phase::Flush);
    assert!(report.is_none());
    assert_eq!(advance(&cfg, phase, Outcome::Completed).0, Phase::Done);
    let other = Phase::Answer { answer: Response::Allow, mark_failure: Some(1) };
    assert_eq!(advance(&cfg, other, Outcome::Completed).0, Phase::Done);
}

#[test]
fn every_request_is_answered_once() {
    let cfg = config(Response::Deny);
    let runs = [
        vec![link(b"/srv/x"), Outcome::Completed],
        vec![link(b"/home/x"), Outcome::Failed(0), Outcome::Completed],
        vec![
            link(b"/home/x"),
            Outcome::Permitted,
            Outcome::Scanned(ScanOutcome::Completed),
            Outcome::Scanned(ScanOutcome::Completed),
            received(b"x: OK\0"),
            Outcome::Failed(28),
            Outcome::Completed,
            Outcome::Completed,
        ],
    ];
    let expected = [Response::Allow, Response::Deny, Response::Allow];
    for (run, answer) in runs.into_iter().zip(expected) {
        assert_eq!(answers(&cfg, 1, run), (vec![answer], Phase::Done));
    }
}

#[test]
fn requests_end_after_eight_steps() {
    let cfg = config(Response::Allow);
    let outcomes = vec![
        link(b"/home/x"),
        Outcome::Permitted,
        Outcome::Scanned(ScanOutcome::Completed),
        Outcome::Scanned(ScanOutcome::Completed),
        received(b"OK"),
        Outcome::Failed(28),
        Outcome::Completed,
        Outcome::Completed,
    ];
    assert_eq!(answers(&cfg, 1, outcomes).1, Phase::Done);
}

#[test]
fn new_clamd_pid_does_not_touch_requests() {
    let cfg = config(Response::Deny);
    let mut changed = config(Response::Deny);
    assert!(changed.update_clamd_pid("5\n"));
    assert_eq!(
        advance(&cfg, Phase::Resolve, link(b"/home/x")).0,
        advance(&changed, Phase::Resolve, link(b"/home/x")).0
    );
}

#[test]
fn pid_file_is_watched_in_its_directory() {
    let watch = watch_pid_file(b"/run/clamav/clamd.pid").unwrap();
    assert_eq!(watch.dir, b"/run/clamav");
    assert_eq!(watch.name, b"clamd.pid");
    let watch = watch_pid_file(b"clamd.pid").unwrap();
    assert_eq!(watch.dir, b"");
    assert_eq!(watch_pid_file(b"/").unwrap_err(), WatchError::NoParent);
    assert_eq!(watch_pid_file(b"").unwrap_err(), WatchError::NoParent);
    assert_eq!(watch_pid_file(b"/run/..").unwrap_err(), WatchError::NoFileName);
    assert_eq!(WatchError::NoParent.message(), "Failed to get parent directory of");
    assert_eq!(WatchError::NoFileName.message(), "Failed to get filename of");
    assert_eq!(WatchError::NoParent.describe("/"), "Failed to get parent directory of /");
    assert_eq!(WatchError::NoFileName.describe("/run/.."), "Failed to get filename of /run/..");
}

#[test]
fn only_changes_of_the_pid_file_matter() {
    let watch = watch_pid_file(b"/run/clamav/clamd.pid").unwrap();
    let close_write = inotify::EventMask::CLOSE_WRITE.bits();
    let create = inotify::EventMask::CREATE.bits();
    let delete = inotify::EventMask::DELETE.bits();
    let name: &[u8] = b"clamd.pid";
    assert!(watch.concerns(Some(name), close_write));
    assert!(watch.concerns(Some(name), create));
    assert!(watch.concerns(Some(name), create | inotify::EventMask::ISDIR.bits()));
    assert!(!watch.concerns(Some(name), delete));
    assert!(!watch.concerns(Some(name), 0));
    assert!(!watch.concerns(Some(b"clamd.pid.tmp"), close_write));
    assert!(!watch.concerns(None, close_write));
}

/// All series of up to `depth` outcomes, each with the answers written in it.
fn explore(cfg: &Config, phase: Phase, written: &mut Vec<Response>, depth: u32) {
    assert!(written.len() <= 1);
    if phase == Phase::Done {
        assert_eq!(written.len(), 1);
        return;
    }
    assert!(depth > 0);
    let choices: [fn() -> Outcome<'static>; 9] = [
        || link(b"/home/x"),
        || link(b"/other"),
        || Outcome::Permitted,
        || Outcome::Scanned(ScanOutcome::Completed),
        || Outcome::Scanned(ScanOutcome::TimedOut),
        || received(b"OK\0"),
        || received(b"FOUND\0"),
        || Outcome::Failed(28),
        || Outcome::Completed,
    ];
    let mark = written.len();
    if let Phase::Answer { answer, .. } = phase {
        written.push(answer);
    }
    for choice in choices {
        explore(cfg, advance(cfg, phase, choice()).0, written, depth - 1);
    }
    written.truncate(mark);
}

#[test]
fn every_series_of_outcomes_ends_with_one_answer() {
    let cfg = config(Response::Deny);
    explore(&cfg, begin(&cfg, 1), &mut vec![], 8);
}

#[test]
fn denied_only_for_threats_where_errors_are_allowed() {
    let cfg = config(Response::Allow);
    let scanned = |reply: &[u8]| {
        answers(
            &cfg,
            1,
            vec![
                link(b"/home/x"),
                Outcome::Permitted,
                Outcome::Scanned(ScanOutcome::Completed),
                Outcome::Scanned(ScanOutcome::Completed),
                received(reply),
                Outcome::Completed,
                Outcome::Completed,
            ],
        )
    };
    assert_eq!(scanned(b"x: Eicar FOUND\0").0, vec![Response::Deny]);
    assert_eq!(scanned(b"x: ERROR\0").0, vec![Response::Allow]);
    assert_eq!(scanned(b"x: OK\0").0, vec![Response::Allow]);
}

#[test]
fn reports_are_told_in_a_line() {
    let line = |report: Report| report.line("why");
    assert_eq!(line(Report::NoPath), "Failed to get file path: why");
    assert_eq!(line(Report::NoPermit), "Failed to acquire semaphore: why");
    assert_eq!(line(Report::ScanFailed(ScanError::Send)), "Failed to scan: why");
    assert_eq!(line(Report::NotText(vec![0xff])), "Failed to scan: why");
    assert_eq!(line(Report::Threat("x FOUND".to_string())), "Threat detected: x FOUND");
    assert_eq!(line(Report::ErrorReply("x ERROR".to_string())), "Error Responce: x ERROR");
    assert_eq!(line(Report::MarkFailed(13)), "Falied to add ignored mask: why");
}

#[test]
fn reply_that_is_no_text_is_an_error() {
    let cfg = config(Response::Deny);
    let (phase, report) =
        advance(&cfg, Phase::Scan(ScanPhase::Receive), received(&[b'O', 0xff, b'K', 0]));
    assert_eq!(phase, answer(Response::Deny));
    match report {
        Some(Report::NotText(bytes)) => assert_eq!(bytes, vec![b'O', 0xff, b'K']),
        other => panic!("{other:?}"),
    }
}

#[test]
fn last_pid_event_that_counts_decides() {
    let watch = watch_pid_file(b"/run/clamav/clamd.pid").unwrap();
    let written = inotify::EventMask::CLOSE_WRITE.bits();
    let deleted = inotify::EventMask::DELETE.bits();
    let mut cfg = config(Response::Allow);
    let events: [(&[u8], u32, Option<&str>); 6] = [
        (b"other", written, Some("1\n")),
        (b"clamd.pid", written, Some("2\n")),
        (b"clamd.pid", written, Some("3\n")),
        (b"clamd.pid", deleted, Some("4\n")),
        (b"clamd.pid", written, Some("")),
        (b"clamd.pid", written, None),
    ];
    let expected = [200, 2, 3, 3, 3, 3];
    for ((name, mask, content), pid) in events.into_iter().zip(expected) {
        if watch.concerns(Some(name), mask) {
            if let Some(content) = content {
                cfg.update_clamd_pid(content);
            }
        }
        assert_eq!(cfg.clamd_pid, pid);
    }
}

#[test]
fn reports_name_the_error_of_the_scan() {
    assert_eq!(Report::ScanFailed(ScanError::Send).scan_error(), Some(ScanError::Send));
    assert_eq!(Report::NotText(vec![0xff]).scan_error(), Some(ScanError::Read));
    assert_eq!(Report::NoPermit.scan_error(), None);
    assert_eq!(Report::Threat("x FOUND".to_string()).scan_error(), None);
}

#[test]
fn permit_and_connection_are_held_during_the_scan() {
    let phases = [
        (Phase::Resolve, false, false),
        (Phase::Permit, false, false),
        (Phase::Scan(ScanPhase::Connect), true, false),
        (Phase::Scan(ScanPhase::Send), true, true),
        (Phase::Scan(ScanPhase::Receive), true, true),
        (Phase::Mark, false, false),
        (answer(Response::Deny), false, false),
        (Phase::Flush, false, false),
        (Phase::Done, false, false),
    ];
    for (phase, permit, connection) in phases {
        assert_eq!(holds_permit(phase), permit);
        assert_eq!(holds_connection(phase), connection);
    }
}

#[test]
fn no_more_scans_run_than_there_are_permits() {
    let cfg = config(Response::Allow);
    let permits = 2;
    let mut phases = vec![Phase::Resolve; 5];
    let held = |phases: &[Phase]| phases.iter().filter(|p| holds_permit(**p)).count();
    while phases.iter().any(|p| *p != Phase::Done) {
        for i in 0..phases.len() {
            let outcome = match phases[i] {
                Phase::Resolve => link(b"/home/x"),
                Phase::Permit if held(&phases) < permits => Outcome::Permitted,
                Phase::Permit => continue,
                Phase::Scan(ScanPhase::Receive) => received(b"OK\0"),
                Phase::Scan(_) => Outcome::Scanned(ScanOutcome::Completed),
                _ => Outcome::Completed,
            };
            phases[i] = advance(&cfg, phases[i], outcome).0;
            assert!(held(&phases) <= permits);
        }
    }
    assert_eq!(held(&phases), 0);
}
