use clam_onaccess::scan::{
    fildes_command, fildes_payload, judge, read_response, scan, send_fildes, ScanError, ScanOutcome,
    ScanPhase, ScanProgress, SendOutcome, SendPhase, Verdict, TIME_LIMIT_SECS,
};

#[test]
fn command_and_payload() {
    assert_eq!(fildes_command(), b"zFILDES\0");
    assert_eq!(fildes_payload(), [0u8; 1]);
}

#[test]
fn sending_goes_through_its_steps() {
    let mut phase = SendPhase::AwaitStart;
    let mut seen = vec![phase];
    for _ in 0..5 {
        phase = send_fildes(phase, SendOutcome::Completed);
        seen.push(phase);
    }
    assert_eq!(
        seen,
        vec![
            SendPhase::AwaitStart,
            SendPhase::WriteCommand,
            SendPhase::Flush,
            SendPhase::AwaitRoom,
            SendPhase::SendDescriptor,
            SendPhase::Sent,
        ]
    );
    assert_eq!(send_fildes(phase, SendOutcome::Failed), SendPhase::Sent);
}

#[test]
fn file_is_sent_again_only_after_waiting() {
    assert_eq!(
        send_fildes(SendPhase::SendDescriptor, SendOutcome::WouldBlock),
        SendPhase::AwaitRoom
    );
    assert_eq!(send_fildes(SendPhase::AwaitRoom, SendOutcome::Completed), SendPhase::SendDescriptor);
    assert_eq!(send_fildes(SendPhase::SendDescriptor, SendOutcome::Failed), SendPhase::Failed);
    assert_eq!(send_fildes(SendPhase::WriteCommand, SendOutcome::WouldBlock), SendPhase::Failed);
    assert_eq!(send_fildes(SendPhase::Failed, SendOutcome::Completed), SendPhase::Failed);
}

fn text(reply: &[u8]) -> String {
    read_response(reply.to_vec()).unwrap()
}

fn refused(reply: &[u8]) -> Vec<u8> {
    read_response(reply.to_vec()).unwrap_err().bytes
}

#[test]
fn final_zero_byte_is_not_part_of_the_reply() {
    assert_eq!(text(b"stream: OK\0"), "stream: OK");
    assert_eq!(text(b"a\0\0"), "a\0");
    assert_eq!(text(b""), "");
    assert_eq!(text(b"\0"), "");
}

#[test]
fn reply_may_end_with_the_connection() {
    assert_eq!(text(b"stream: OK"), "stream: OK");
    assert_eq!(text("caf\u{e9} \u{10ffff}".as_bytes()), "caf\u{e9} \u{10ffff}");
    assert_eq!(text(b"a\0"), "a");
}

#[test]
fn reply_has_to_be_text() {
    assert_eq!(refused(&[0xff, 0]), vec![0xff]);
    assert_eq!(refused(&[0xc0, 0x80]), vec![0xc0, 0x80]);
    assert_eq!(refused(&[0xed, 0xa0, 0x80, 0]), vec![0xed, 0xa0, 0x80]);
    assert_eq!(refused(&[0xf4, 0x90, 0x80, 0x80, 0]), vec![0xf4, 0x90, 0x80, 0x80]);
    assert_eq!(text("\u{e9}\u{10ffff}\0".as_bytes()), "\u{e9}\u{10ffff}");
}

#[test]
fn last_word_decides() {
    assert_eq!(judge("fd[10]: OK"), Verdict::Clean);
    assert_eq!(judge("fd[10]: Eicar-Test-Signature FOUND"), Verdict::Threat);
    assert_eq!(judge("fd[10]: OK FOUND"), Verdict::Threat);
    assert_eq!(judge("FOUND OK"), Verdict::Clean);
    assert_eq!(judge("fd[10]: lstat() failed: ERROR"), Verdict::Unclear);
    assert_eq!(judge("OK "), Verdict::Unclear);
    assert_eq!(judge(""), Verdict::Unclear);
}

#[test]
fn scan_goes_through_its_steps() {
    assert!(matches!(
        scan(ScanPhase::Connect, ScanOutcome::Completed),
        ScanProgress::Next(ScanPhase::Send)
    ));
    assert!(matches!(
        scan(ScanPhase::Send, ScanOutcome::Completed),
        ScanProgress::Next(ScanPhase::Receive)
    ));
    match scan(ScanPhase::Receive, ScanOutcome::Received(b"x: OK\0".to_vec())) {
        ScanProgress::Reply(text) => assert_eq!(text, "x: OK"),
        other => panic!("{other:?}"),
    }
}

#[test]
fn scan_errors() {
    let error = |phase, outcome| match scan(phase, outcome) {
        ScanProgress::Error(e) => e,
        other => panic!("{other:?}"),
    };
    assert_eq!(error(ScanPhase::Connect, ScanOutcome::Failed), ScanError::Connect);
    assert_eq!(error(ScanPhase::Send, ScanOutcome::TimedOut), ScanError::SendTimeout);
    assert_eq!(error(ScanPhase::Send, ScanOutcome::Failed), ScanError::Send);
    assert_eq!(error(ScanPhase::Receive, ScanOutcome::TimedOut), ScanError::ReadTimeout);
    assert_eq!(error(ScanPhase::Receive, ScanOutcome::Failed), ScanError::Read);
    match scan(ScanPhase::Receive, ScanOutcome::Received(vec![b'a', 0xff, 0])) {
        ScanProgress::NotText(bytes) => assert_eq!(bytes, vec![b'a', 0xff]),
        other => panic!("{other:?}"),
    }
    assert_eq!(ScanError::Connect.message(), "Failed to create connection");
    assert_eq!(ScanError::SendTimeout.message(), "Send timeout");
    assert_eq!(ScanError::Send.message(), "Send Error");
    assert_eq!(ScanError::ReadTimeout.message(), "Read timeout");
    assert_eq!(ScanError::Read.message(), "Read Error");
    assert_eq!(ScanError::SendTimeout.describe("Elapsed(())"), "Send timeout: Elapsed(())");
}

#[test]
fn file_is_sent_once_however_often_there_is_no_room() {
    let mut phase = SendPhase::AwaitStart;
    let mut refusals = 3;
    let mut written = 0;
    let mut sent = 0;
    while phase != SendPhase::Sent {
        let outcome = if phase == SendPhase::SendDescriptor && refusals > 0 {
            refusals -= 1;
            SendOutcome::WouldBlock
        } else {
            SendOutcome::Completed
        };
        if outcome == SendOutcome::Completed {
            written += (phase == SendPhase::WriteCommand) as u32;
            sent += (phase == SendPhase::SendDescriptor) as u32;
        }
        phase = send_fildes(phase, outcome);
    }
    assert_eq!((written, sent), (1, 1));
}

#[test]
fn steps_have_five_seconds() {
    assert_eq!(TIME_LIMIT_SECS, 5);
}

#[test]
fn reply_that_is_no_text_is_a_read_error() {
    let progress = scan(ScanPhase::Receive, ScanOutcome::Received(vec![0xff, 0]));
    let e = progress.error().unwrap();
    assert_eq!(e, ScanError::Read);
    assert_eq!(e.describe("why"), "Read Error: why");
    assert_eq!(
        scan(ScanPhase::Receive, ScanOutcome::TimedOut).error(),
        Some(ScanError::ReadTimeout)
    );
    assert_eq!(scan(ScanPhase::Receive, ScanOutcome::Received(b"OK".to_vec())).error(), None);
    assert_eq!(scan(ScanPhase::Connect, ScanOutcome::Completed).error(), None);
}
