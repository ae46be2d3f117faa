//! Answering the requests of other processes to open files.

use crate::config::{
    daemon_and_clamd_are_exempt, is_dir_path, is_exempt, pid_in, pid_round_trip, Config, Response,
};
use crate::errno::{errno_kind, kind_of_errno, ErrnoKind};
use crate::path::{
    byte_prefix_is_path_prefix, bytes_start_with, components, final_name, has_parent, is_name,
    path_file_name, path_parent, path_starts_with, plain_path, plain_prefix_is_containment,
    same_bytes, shortest_prefix, SLASH,
};
use crate::scan::{
    after_scan_step, judge, last_letters_decide, reply_text, scan, scan_failure, verdict, ScanError,
    ScanOutcome, ScanPhase, ScanProgress, ScanProgressView, Verdict,
};
use crate::text::{
    ascii, ascii_bytes, ascii_is_utf8, decimal, decimal_is_unique, decimal_round_trip, digit,
    joined, lemma_decimal_len, push_decimal, signed_decimal, signed_decimal_notation, value,
    white_space, NumberError,
};
use vstd::arithmetic::power::pow;
use vstd::prelude::*;

verus! {

/// What the kernel answers to an attempt to read requests.
#[derive(Debug)]
pub enum ReadOutcome {
    /// The open file of every request; where requests were lost, there is none.
    Requests(Vec<Option<i32>>),
    /// An error number.
    Failed(i32),
}

/// What follows an attempt to read requests.
#[derive(Debug)]
pub enum LoopStep {
    /// Handle these requests, and read on at once.
    Handle {
        /// Whether requests were lost.
        overflowed: bool,
        /// The places of the requests that have an open file.
        pending: Vec<usize>,
    },
    /// Wait until there is something to read.
    Wait,
    /// Give up, with this error number.
    Stop(i32),
}

/// Whether requests were lost.
pub open spec fn lost_requests(files: Seq<Option<i32>>) -> bool {
    exists|i: int| 0 <= i < files.len() && #[trigger] files[i] is None
}

/// The places of the requests that have an open file, in their order.
pub open spec fn answerable(files: Seq<Option<i32>>) -> Seq<int>
    decreases files.len(),
{
    if files.len() == 0 {
        seq![]
    } else if files.last() is Some {
        answerable(files.drop_last()).push(files.len() - 1)
    } else {
        answerable(files.drop_last())
    }
}

/// Whether there is only nothing to read yet, by the error number.
pub open spec fn is_pause(e: i32) -> bool {
    errno_kind(e) == ErrnoKind::WouldBlock
}

/// Decides what follows an attempt to read requests.
pub fn event_loop(read: &ReadOutcome) -> (res: LoopStep)
    ensures
        match *read {
            ReadOutcome::Requests(files) => res matches LoopStep::Handle { overflowed, pending }
                && overflowed == lost_requests(files@) && pending@.map_values(|i: usize| i as int)
                == answerable(files@),
            ReadOutcome::Failed(e) => if errno_kind(e) == ErrnoKind::WouldBlock {
                res is Wait
            } else {
                res matches LoopStep::Stop(n) && n == e
            },
        },
        res is Wait <==> (*read matches ReadOutcome::Failed(e) && is_pause(e)),
        res is Handle <==> *read is Requests,
{
    match read {
        ReadOutcome::Requests(files) => {
            let mut overflowed: bool = false;
            let mut pending: Vec<usize> = Vec::new();
            let mut i: usize = 0;
            let ghost place = |i: usize| i as int;
            assert(pending@.map_values(place) =~= answerable(files@.take(0)));
            while i < files.len()
                invariant
                    i <= files@.len(),
                    place == (|i: usize| i as int),
                    overflowed == exists|k: int| 0 <= k < i && #[trigger] files@[k] is None,
                    pending@.map_values(place) == answerable(files@.take(i as int)),
                decreases files@.len() - i,
            {
                let ghost before = pending@;
                assert(files@.take(i + 1).drop_last() =~= files@.take(i as int));
                match files[i] {
                    Some(_) => {
                        pending.push(i);
                        assert(pending@.map_values(place) =~= before.map_values(place).push(
                            i as int,
                        ));
                    },
                    None => {
                        assert(files@[i as int] is None);
                        overflowed = true;
                    },
                }
                i += 1;
            }
            assert(files@.take(i as int) =~= files@);
            LoopStep::Handle { overflowed, pending }
        },
        ReadOutcome::Failed(e) => match kind_of_errno(*e) {
            ErrnoKind::WouldBlock => LoopStep::Wait,
            _ => LoopStep::Stop(*e),
        },
    }
}

/// Every request that has an open file is handled, once and in its turn, and
/// no other.
pub proof fn answerable_requests_are_handled(files: Seq<Option<i32>>)
    ensures
        forall|i: int|
            answerable(files).contains(i) <==> 0 <= i < files.len() && #[trigger] files[i] is Some,
        forall|j: int, k: int|
            0 <= j < k < answerable(files).len() ==> #[trigger] answerable(files)[j]
                < #[trigger] answerable(files)[k],
    decreases files.len(),
{
    let list = answerable(files);
    if files.len() > 0 {
        let short = files.drop_last();
        let before = answerable(short);
        answerable_requests_are_handled(short);
        assert forall|k: int| 0 <= k < before.len() implies #[trigger] before[k] < short.len() by {
            assert(before.contains(before[k]));
            let i = before[k];
            assert(0 <= i < short.len() && short[i] is Some);
        }
        assert forall|i: int|
            list.contains(i) <==> 0 <= i < files.len() && #[trigger] files[i] is Some by {
            if list.contains(i) {
                let k = choose|k: int| 0 <= k < list.len() && list[k] == i;
                if k < before.len() {
                    assert(before[k] == i);
                    assert(before.contains(i));
                    assert(short[i] == files[i]);
                }
            }
            if 0 <= i < files.len() && files[i] is Some {
                if i < short.len() {
                    assert(short[i] == files[i]);
                    assert(before.contains(i));
                    let k = choose|k: int| 0 <= k < before.len() && before[k] == i;
                    assert(list[k] == i);
                } else {
                    assert(list[list.len() - 1] == i);
                }
            }
        }
    }
}

/// The path under which the kernel shows an open file of this process.
pub open spec fn link_path(fd: i32) -> Seq<u8> {
    ascii("/proc/self/fd/"@ + signed_decimal(fd as int))
}

/// The path of an open file always fits into the buffer, with the zero byte
/// behind it, and holds no zero byte itself.
pub proof fn link_path_fits(fd: i32)
    ensures
        link_path(fd).len() <= 25,
        forall|i: int| 0 <= i < link_path(fd).len() ==> #[trigger] link_path(fd)[i] != 0,
{
    reveal_strlit("/proc/self/fd/");
    let n: nat = if fd < 0 {
        (-(fd as int)) as nat
    } else {
        fd as nat
    };
    assert(n < pow(10, 10)) by {
        reveal_with_fuel(pow, 11);
        assert(pow(10, 10) == 10_000_000_000);
    }
    lemma_decimal_len(n, 10);
    decimal_round_trip(n);
    let digits = decimal(n);
    assert forall|i: int| 0 <= i < link_path(fd).len() implies #[trigger] link_path(fd)[i] != 0 by {
        let text = "/proc/self/fd/"@ + signed_decimal(fd as int);
        let start = text.len() - digits.len();
        if i >= start {
            assert(text[i] == digits[i - start]);
            assert(digit(digits[i - start]));
        }
    }
}

/// What is read from the buffer up to the first zero byte is the path that was
/// written last, whatever the buffer held before.
pub proof fn link_path_is_read_back(fd: i32, before: Seq<u8>)
    requires
        before.len() == 32,
    ensures
        ({
            let n = link_path(fd).len() as int;
            let buffer = link_path(fd).push(0) + before.skip(n + 1);
            &&& buffer.len() == 32
            &&& buffer.take(n) == link_path(fd)
            &&& buffer[n] == 0
            &&& forall|i: int| 0 <= i < n ==> #[trigger] buffer[i] != 0
        }),
{
    link_path_fits(fd);
    let n = link_path(fd).len() as int;
    let buffer = link_path(fd).push(0) + before.skip(n + 1);
    assert(buffer.take(n) =~= link_path(fd));
    assert forall|i: int| 0 <= i < n implies #[trigger] buffer[i] != 0 by {
        assert(buffer[i] == link_path(fd)[i]);
    }
}

/// Writes the path of an open file, and a zero byte behind it, to the beginning
/// of a buffer.
pub fn write_link_path(buffer: &mut [u8; 32], fd: i32)
    ensures
        final(buffer)@ == link_path(fd).push(0) + old(buffer)@.skip(link_path(fd).len() as int + 1),
{
    proof {
        reveal_strlit("/proc/self/fd/");
        link_path_fits(fd);
    }
    let mut text: Vec<u8> = ascii_bytes("/proc/self/fd/");
    if fd < 0 {
        text.push(45);
        push_decimal(&mut text, (-(fd as i64)) as u32);
    } else {
        push_decimal(&mut text, fd as u32);
    }
    assert(text@ =~= link_path(fd));
    text.push(0);
    let mut i: usize = 0;
    while i < text.len()
        invariant
            i <= text@.len() <= 32,
            buffer@ == text@.take(i as int) + old(buffer)@.skip(i as int),
            old(buffer)@.len() == 32,
        decreases text@.len() - i,
    {
        buffer[i] = text[i];
        i += 1;
        assert(buffer@ =~= text@.take(i as int) + old(buffer)@.skip(i as int));
    }
    assert(text@.take(i as int) =~= text@);
}

/// What is known of a request before anything is scanned.
#[derive(Clone, Copy, Debug, PartialEq, Eq, Structural)]
pub enum Status {
    /// It comes from a process that is never held up.
    Allowed,
    /// The file lies outside of the configured directories.
    Ignored,
    /// It is not known where the file lies.
    Error,
    /// The file has to be scanned.
    NeedScan,
}

/// A process number as the kernel reports it, read without a sign.
pub open spec fn unsigned_pid(pid: i32) -> u32 {
    if pid < 0 {
        (pid + 0x1_0000_0000) as u32
    } else {
        pid as u32
    }
}

/// Reads a process number without a sign.
fn to_unsigned_pid(pid: i32) -> (res: u32)
    ensures
        res == unsigned_pid(pid),
{
    if pid < 0 {
        (pid as i64 + 0x1_0000_0000) as u32
    } else {
        pid as u32
    }
}

/// Whether the path of a file begins with one of the configured directories.
pub open spec fn in_dirs(cfg: Config, file: Seq<u8>) -> bool {
    exists|k: int| 0 <= k < cfg.dirs@.len() && (#[trigger] cfg.dirs@[k])@.is_prefix_of(file)
}

/// What is known of a file by the outcome of asking for its path: the path in a
/// buffer and its length, which is not positive where there is none.
pub open spec fn file_status(cfg: Config, buffer: Seq<u8>, len: int) -> Status {
    if len <= 0 {
        Status::Error
    } else if in_dirs(cfg, buffer.take(len)) {
        Status::NeedScan
    } else {
        Status::Ignored
    }
}

/// Tells what is known of a file by the outcome of asking for its path.
pub fn link_status(cfg: &Config, buffer: &[u8], len: isize) -> (res: Status)
    requires
        len <= buffer@.len(),
    ensures
        res == file_status(*cfg, buffer@, len as int),
{
    if len <= 0 {
        return Status::Error;
    }
    let file = vstd::slice::slice_subrange(buffer, 0, len as usize);
    assert(file@ =~= buffer@.take(len as int));
    let mut i: usize = 0;
    while i < cfg.dirs.len()
        invariant
            len > 0,
            i <= cfg.dirs@.len(),
            file@ == buffer@.take(len as int),
            forall|k: int| 0 <= k < i ==> !(#[trigger] cfg.dirs@[k])@.is_prefix_of(file@),
        decreases cfg.dirs@.len() - i,
    {
        if bytes_start_with(file, cfg.dirs[i].as_bytes()) {
            assert(cfg.dirs@[i as int]@.is_prefix_of(file@));
            return Status::NeedScan;
        }
        i += 1;
    }
    Status::Ignored
}

/// A file is scanned only if it lies below one of the configured directories,
/// component by component.
pub proof fn scanned_files_lie_in_dirs(cfg: Config, buffer: Seq<u8>, len: int)
    requires
        forall|k: int| 0 <= k < cfg.dirs@.len() ==> is_dir_path((#[trigger] cfg.dirs@[k])@),
        file_status(cfg, buffer, len) == Status::NeedScan,
    ensures
        exists|k: int|
            0 <= k < cfg.dirs@.len() && path_starts_with(
                buffer.take(len),
                (#[trigger] cfg.dirs@[k])@,
            ),
{
    let file = buffer.take(len);
    let k = choose|k: int|
        0 <= k < cfg.dirs@.len() && (#[trigger] cfg.dirs@[k])@.is_prefix_of(file);
    byte_prefix_is_path_prefix(file, cfg.dirs@[k]@);
}

/// Where paths are written plainly, as the kernel writes them, a file is scanned
/// if and only if it lies strictly below one of the configured directories.
/// Here `file` and `dirs` are the names in these paths.
pub proof fn files_below_dirs_are_scanned(
    cfg: Config,
    buffer: Seq<u8>,
    len: int,
    file: Seq<Seq<u8>>,
    dirs: Seq<Seq<Seq<u8>>>,
)
    requires
        0 < len <= buffer.len(),
        buffer.take(len) == plain_path(file),
        forall|i: int| 0 <= i < file.len() ==> is_name(#[trigger] file[i]),
        dirs.len() == cfg.dirs@.len(),
        forall|k: int|
            0 <= k < dirs.len() ==> (#[trigger] cfg.dirs@[k])@ == plain_path(dirs[k]).push(SLASH),
        forall|k: int, i: int|
            0 <= k < dirs.len() && 0 <= i < dirs[k].len() ==> is_name(#[trigger] dirs[k][i]),
    ensures
        file_status(cfg, buffer, len) == Status::NeedScan <==> exists|k: int|
            0 <= k < dirs.len() && (#[trigger] dirs[k]).is_prefix_of(file) && dirs[k].len()
                < file.len(),
{
    assert forall|k: int| 0 <= k < dirs.len() implies (#[trigger] cfg.dirs@[k])@.is_prefix_of(
        buffer.take(len),
    ) == (dirs[k].is_prefix_of(file) && dirs[k].len() < file.len()) by {
        plain_prefix_is_containment(file, dirs[k]);
    }
    if exists|k: int|
        0 <= k < dirs.len() && (#[trigger] dirs[k]).is_prefix_of(file) && dirs[k].len()
            < file.len() {
        let k = choose|k: int|
            0 <= k < dirs.len() && (#[trigger] dirs[k]).is_prefix_of(file) && dirs[k].len()
                < file.len();
        assert(cfg.dirs@[k]@.is_prefix_of(buffer.take(len)));
    }
    if in_dirs(cfg, buffer.take(len)) {
        let k = choose|k: int|
            0 <= k < cfg.dirs@.len() && (#[trigger] cfg.dirs@[k])@.is_prefix_of(buffer.take(len));
        assert(dirs[k].is_prefix_of(file));
    }
}

/// The answer that a reply of `clamd` leads to. There is none where there is no
/// reply or where it does not say whether the file is clean.
pub open spec fn reply_answer(reply: Option<Seq<char>>) -> Option<Response> {
    match reply {
        Some(text) => match verdict(text) {
            Verdict::Clean => Some(Response::Allow),
            Verdict::Threat => Some(Response::Deny),
            Verdict::Unclear => None,
        },
        None => None,
    }
}

/// The answer that a reply of `clamd` leads to, if any.
pub fn job(reply: Option<&str>) -> (res: Option<Response>)
    ensures
        res == reply_answer(
            match reply {
                Some(text) => Some(text@),
                None => None,
            },
        ),
{
    match reply {
        Some(text) => match judge(text) {
            Verdict::Clean => Some(Response::Allow),
            Verdict::Threat => Some(Response::Deny),
            Verdict::Unclear => None,
        },
        None => None,
    }
}

/// What has to be done next for a request.
#[derive(Clone, Copy, Debug, PartialEq, Eq, Structural)]
pub enum Phase {
    /// Ask for the path of the file.
    Resolve,
    /// Wait, within the time that is allowed, until one more scan may run.
    Permit,
    /// Have the file scanned.
    Scan(ScanPhase),
    /// Tell the kernel not to ask again until the file is modified.
    Mark,
    /// Write the answer.
    Answer {
        /// The answer.
        answer: Response,
        /// The error number, where the kernel could not be told not to ask.
        mark_failure: Option<i32>,
    },
    /// Drop everything that the kernel was told not to ask for.
    Flush,
    /// Nothing.
    Done,
}

/// How a step for a request went.
#[derive(Debug)]
pub enum Outcome<'a> {
    /// The path of the file is in the buffer and has this length, which is not
    /// positive if there was an error.
    Link {
        /// The buffer.
        buffer: &'a [u8],
        /// The length of the path.
        len: isize,
    },
    /// One more scan may run.
    Permitted,
    /// The step of the scan went like this.
    Scanned(ScanOutcome),
    /// The step is done.
    Completed,
    /// The step failed, with this error number.
    Failed(i32),
}

impl<'a> Outcome<'a> {
    /// Whether a path is no longer than the buffer that it is in.
    pub open spec fn fits(self) -> bool {
        self matches Outcome::Link { buffer, len } ==> len <= buffer@.len()
    }
}

/// What a user is told about a request.
#[derive(Debug)]
pub enum Report {
    /// It is not known where the file lies.
    NoPath,
    /// Too many scans are running.
    NoPermit,
    /// The scan failed.
    ScanFailed(ScanError),
    /// The reply is not UTF-8.
    NotText(Vec<u8>),
    /// The file is infected, says this reply.
    Threat(String),
    /// The file could not be scanned, says this reply.
    ErrorReply(String),
    /// The kernel could not be told not to ask again.
    MarkFailed(i32),
}

/// What a report means.
#[verifier::ext_equal]
pub ghost enum ReportView {
    NoPath,
    NoPermit,
    ScanFailed(ScanError),
    NotText(Seq<u8>),
    Threat(Seq<char>),
    ErrorReply(Seq<char>),
    MarkFailed(i32),
}

impl View for Report {
    type V = ReportView;

    open spec fn view(&self) -> ReportView {
        match *self {
            Report::NoPath => ReportView::NoPath,
            Report::NoPermit => ReportView::NoPermit,
            Report::ScanFailed(e) => ReportView::ScanFailed(e),
            Report::NotText(bytes) => ReportView::NotText(bytes@),
            Report::Threat(text) => ReportView::Threat(text@),
            Report::ErrorReply(text) => ReportView::ErrorReply(text@),
            Report::MarkFailed(e) => ReportView::MarkFailed(e),
        }
    }
}

/// The line that a user is told. What is known of the cause stands behind the
/// words, or the reply of `clamd` where there is one.
pub open spec fn report_line(report: ReportView, detail: Seq<char>) -> Seq<char> {
    match report {
        ReportView::NoPath => "Failed to get file path: "@ + detail,
        ReportView::NoPermit => "Failed to acquire semaphore: "@ + detail,
        ReportView::ScanFailed(_) => "Failed to scan: "@ + detail,
        ReportView::NotText(_) => "Failed to scan: "@ + detail,
        ReportView::Threat(reply) => "Threat detected: "@ + reply,
        ReportView::ErrorReply(reply) => "Error Responce: "@ + reply,
        ReportView::MarkFailed(_) => "Falied to add ignored mask: "@ + detail,
    }
}

/// The error of the scan that a report is about, if it is about one.
pub open spec fn reported_error(report: ReportView) -> Option<ScanError> {
    match report {
        ReportView::ScanFailed(e) => Some(e),
        ReportView::NotText(_) => Some(ScanError::Read),
        _ => None,
    }
}

impl Report {
    /// The error of the scan that the report is about, if it is about one: a
    /// reply that is not UTF-8 could not be read.
    pub fn scan_error(&self) -> (res: Option<ScanError>)
        ensures
            res == reported_error(self@),
    {
        match self {
            Report::ScanFailed(e) => Some(*e),
            Report::NotText(_) => Some(ScanError::Read),
            _ => None,
        }
    }

    /// The line that a user is told.
    pub fn line(&self, detail: &str) -> (res: String)
        ensures
            res@ == report_line(self@, detail@),
    {
        let res: String = match self {
            Report::NoPath => joined("Failed to get file path: ", detail, ""),
            Report::NoPermit => joined("Failed to acquire semaphore: ", detail, ""),
            Report::ScanFailed(_) => joined("Failed to scan: ", detail, ""),
            Report::NotText(_) => joined("Failed to scan: ", detail, ""),
            Report::Threat(reply) => joined("Threat detected: ", reply.as_str(), ""),
            Report::ErrorReply(reply) => joined("Error Responce: ", reply.as_str(), ""),
            Report::MarkFailed(_) => joined("Falied to add ignored mask: ", detail, ""),
        };
        proof {
            reveal_strlit("");
            assert(res@ =~= report_line(self@, detail@));
        }
        res
    }
}

/// The phase in which an answer is written, with nothing else to remember.
pub open spec fn answering(answer: Response) -> Phase {
    Phase::Answer { answer, mark_failure: None }
}

/// Whether marks have to be dropped because there is no room for more.
pub open spec fn marks_are_full(mark_failure: Option<i32>) -> bool {
    mark_failure matches Some(e) && errno_kind(e) == ErrnoKind::NoSpace
}

/// Where a request goes by what is known of it.
pub open spec fn after_status(cfg: Config, status: Status) -> Phase {
    match status {
        Status::Allowed => answering(Response::Allow),
        Status::Ignored => answering(Response::Allow),
        Status::Error => answering(cfg.res_on_error),
        Status::NeedScan => Phase::Permit,
    }
}

/// What is done first for a request of a process.
pub open spec fn first_phase(cfg: Config, pid: i32) -> Phase {
    if cfg.exempt(unsigned_pid(pid)) {
        after_status(cfg, Status::Allowed)
    } else {
        Phase::Resolve
    }
}

/// Where a request goes once the scan is over, with or without an answer.
pub open spec fn after_job(cfg: Config, response: Option<Response>) -> Phase {
    match response {
        Some(Response::Allow) => Phase::Mark,
        Some(Response::Deny) => answering(Response::Deny),
        None => answering(cfg.res_on_error),
    }
}

/// What follows a step for a request. While the path is asked for, a permit is
/// waited for or the file is scanned, an outcome that does not belong to the
/// step counts as its failure. A mark fails only with an error number, and how
/// writing the answer or dropping the marks went does not matter.
pub open spec fn next_phase(cfg: Config, phase: Phase, outcome: Outcome) -> Phase {
    match phase {
        Phase::Resolve => match outcome {
            Outcome::Link { buffer, len } => after_status(
                cfg,
                file_status(cfg, buffer@, len as int),
            ),
            _ => after_status(cfg, Status::Error),
        },
        Phase::Permit => match outcome {
            Outcome::Permitted => Phase::Scan(ScanPhase::Connect),
            _ => after_job(cfg, None),
        },
        Phase::Scan(step) => match outcome {
            Outcome::Scanned(result) => match after_scan_step(step, result) {
                ScanProgressView::Next(further) => Phase::Scan(further),
                ScanProgressView::Reply(text) => after_job(cfg, reply_answer(Some(text))),
                ScanProgressView::NotText(_) => after_job(cfg, None),
                ScanProgressView::Error(_) => after_job(cfg, None),
            },
            _ => after_job(cfg, None),
        },
        Phase::Mark => Phase::Answer {
            answer: Response::Allow,
            mark_failure: match outcome {
                Outcome::Failed(e) => Some(e),
                _ => None,
            },
        },
        Phase::Answer { answer: _, mark_failure } => if marks_are_full(mark_failure) {
            Phase::Flush
        } else {
            Phase::Done
        },
        Phase::Flush => Phase::Done,
        Phase::Done => Phase::Done,
    }
}

/// What a user is told about a step for a request.
pub open spec fn report_of(cfg: Config, phase: Phase, outcome: Outcome) -> Option<ReportView> {
    match phase {
        Phase::Resolve => match outcome {
            Outcome::Link { buffer, len } => if len <= 0 {
                Some(ReportView::NoPath)
            } else {
                None
            },
            _ => Some(ReportView::NoPath),
        },
        Phase::Permit => match outcome {
            Outcome::Permitted => None,
            _ => Some(ReportView::NoPermit),
        },
        Phase::Scan(step) => match outcome {
            Outcome::Scanned(result) => match after_scan_step(step, result) {
                ScanProgressView::Next(_) => None,
                ScanProgressView::Reply(text) => match verdict(text) {
                    Verdict::Clean => None,
                    Verdict::Threat => Some(ReportView::Threat(text)),
                    Verdict::Unclear => Some(ReportView::ErrorReply(text)),
                },
                ScanProgressView::NotText(bytes) => Some(ReportView::NotText(bytes)),
                ScanProgressView::Error(e) => Some(ReportView::ScanFailed(e)),
            },
            _ => Some(ReportView::ScanFailed(broken(step))),
        },
        Phase::Answer { answer: _, mark_failure: Some(e) } => if errno_kind(e)
            == ErrnoKind::NoSpace {
            None
        } else {
            Some(ReportView::MarkFailed(e))
        },
        _ => None,
    }
}

/// The error of a scan that ends in a step for another reason.
pub open spec fn broken(step: ScanPhase) -> ScanError {
    match step {
        ScanPhase::Connect => ScanError::Connect,
        ScanPhase::Send => ScanError::Send,
        ScanPhase::Receive => ScanError::Read,
    }
}

/// Decides where a request goes by what is known of it.
fn sort_out(cfg: &Config, status: Status) -> (res: Phase)
    ensures
        res == after_status(*cfg, status),
{
    match status {
        Status::Allowed => Phase::Answer { answer: Response::Allow, mark_failure: None },
        Status::Ignored => Phase::Answer { answer: Response::Allow, mark_failure: None },
        Status::Error => Phase::Answer { answer: cfg.res_on_error, mark_failure: None },
        Status::NeedScan => Phase::Permit,
    }
}

/// Decides what is done first for a request of a process: the daemon itself and
/// `clamd` are answered at once.
pub fn begin(cfg: &Config, pid: i32) -> (res: Phase)
    ensures
        res == first_phase(*cfg, pid),
{
    let pids: Vec<u32> = cfg.pids();
    if is_exempt(pids.as_slice(), cfg.clamd_pid, to_unsigned_pid(pid)) {
        sort_out(cfg, Status::Allowed)
    } else {
        Phase::Resolve
    }
}

/// The answer of a request whose scan gave one or none, or the mark that comes
/// before it.
fn conclude(cfg: &Config, response: Option<Response>) -> (res: Phase)
    ensures
        res == after_job(*cfg, response),
{
    match response {
        Some(Response::Allow) => Phase::Mark,
        Some(Response::Deny) => Phase::Answer { answer: Response::Deny, mark_failure: None },
        None => Phase::Answer { answer: cfg.res_on_error, mark_failure: None },
    }
}

/// What a user is told about a report that may be missing.
pub open spec fn report_view(report: Option<Report>) -> Option<ReportView> {
    match report {
        Some(r) => Some(r@),
        None => None,
    }
}

/// Decides what follows a step for a request, and what a user is told about it.
pub fn advance(cfg: &Config, phase: Phase, outcome: Outcome) -> (res: (Phase, Option<Report>))
    requires
        outcome.fits(),
    ensures
        res.0 == next_phase(*cfg, phase, outcome),
        report_view(res.1) == report_of(*cfg, phase, outcome),
{
    match phase {
        Phase::Resolve => {
            let status: Status = match outcome {
                Outcome::Link { buffer, len } => link_status(cfg, buffer, len),
                _ => Status::Error,
            };
            let report: Option<Report> = match status {
                Status::Error => Some(Report::NoPath),
                _ => None,
            };
            (sort_out(cfg, status), report)
        },
        Phase::Permit => match outcome {
            Outcome::Permitted => (Phase::Scan(ScanPhase::Connect), None),
            _ => (conclude(cfg, None), Some(Report::NoPermit)),
        },
        Phase::Scan(step) => match outcome {
            Outcome::Scanned(result) => match scan(step, result) {
                ScanProgress::Next(further) => (Phase::Scan(further), None),
                ScanProgress::Reply(text) => {
                    let response: Option<Response> = job(Some(text.as_str()));
                    let report: Option<Report> = match response {
                        Some(Response::Allow) => None,
                        Some(Response::Deny) => Some(Report::Threat(text)),
                        None => Some(Report::ErrorReply(text)),
                    };
                    (conclude(cfg, response), report)
                },
                ScanProgress::NotText(bytes) => (
                    conclude(cfg, None),
                    Some(Report::NotText(bytes)),
                ),
                ScanProgress::Error(e) => (conclude(cfg, None), Some(Report::ScanFailed(e))),
            },
            _ => {
                let e: ScanError = match step {
                    ScanPhase::Connect => ScanError::Connect,
                    ScanPhase::Send => ScanError::Send,
                    ScanPhase::Receive => ScanError::Read,
                };
                (conclude(cfg, None), Some(Report::ScanFailed(e)))
            },
        },
        Phase::Mark => {
            let mark_failure: Option<i32> = match outcome {
                Outcome::Failed(e) => Some(e),
                _ => None,
            };
            (Phase::Answer { answer: Response::Allow, mark_failure }, None)
        },
        Phase::Answer { answer: _, mark_failure } => match mark_failure {
            Some(e) => match kind_of_errno(e) {
                ErrnoKind::NoSpace => (Phase::Flush, None),
                _ => (Phase::Done, Some(Report::MarkFailed(e))),
            },
            None => (Phase::Done, None),
        },
        Phase::Flush => (Phase::Done, None),
        Phase::Done => (Phase::Done, None),
    }
}

/// Tells whether a request holds one of the permits to scan in a phase: from
/// the moment it gets it until the scan has ended.
pub fn holds_permit(phase: Phase) -> (res: bool)
    ensures
        res == phase is Scan,
{
    match phase {
        Phase::Scan(_) => true,
        _ => false,
    }
}

/// Whether a request has a connection to `clamd` in a phase: from the moment it
/// is made until the scan has ended.
pub open spec fn connected(phase: Phase) -> bool {
    phase == Phase::Scan(ScanPhase::Send) || phase == Phase::Scan(ScanPhase::Receive)
}

/// Tells whether a request has a connection to `clamd` in a phase.
pub fn holds_connection(phase: Phase) -> (res: bool)
    ensures
        res == connected(phase),
{
    match phase {
        Phase::Scan(ScanPhase::Send) => true,
        Phase::Scan(ScanPhase::Receive) => true,
        _ => false,
    }
}

/// A scan begins only by getting a permit, and a connection is there only while
/// a permit is held.
pub proof fn scans_begin_with_a_permit(cfg: Config, phase: Phase, outcome: Outcome)
    ensures
        next_phase(cfg, phase, outcome) is Scan && !(phase is Scan) ==> phase == Phase::Permit
            && outcome is Permitted,
        phase == Phase::Permit && outcome is Permitted ==> next_phase(cfg, phase, outcome)
            == Phase::Scan(ScanPhase::Connect),
        connected(next_phase(cfg, phase, outcome)) && !connected(phase) ==> phase == Phase::Scan(
            ScanPhase::Connect,
        ) && (outcome matches Outcome::Scanned(result) && result is Completed),
        connected(phase) ==> phase is Scan,
{
}

/// Once a scan has ended it is over for good: where the file is marked or the
/// answer written, and ever after, neither a permit nor a connection is held.
pub proof fn scans_are_left_for_good(cfg: Config, phase: Phase, outcomes: Seq<Outcome>)
    requires
        phase is Mark || phase is Answer || phase is Flush || phase is Done,
    ensures
        !(phase is Scan) && !connected(phase),
        !(phase_after(cfg, phase, outcomes) is Scan),
        !connected(phase_after(cfg, phase, outcomes)),
    decreases outcomes.len(),
{
    if outcomes.len() > 0 {
        scans_are_left_for_good(cfg, next_phase(cfg, phase, outcomes[0]), outcomes.drop_first());
    }
}

/// How many of some requests hold a permit.
pub open spec fn permits_held(phases: Seq<Phase>) -> nat
    decreases phases.len(),
{
    if phases.len() == 0 {
        0
    } else {
        permits_held(phases.drop_last()) + (if phases.last() is Scan {
            1nat
        } else {
            0nat
        })
    }
}

/// Where some requests are after a series of steps, each of which is the step of
/// one of them.
pub open spec fn all_after(
    cfg: Config,
    phases: Seq<Phase>,
    steps: Seq<(int, Outcome)>,
) -> Seq<Phase>
    decreases steps.len(),
{
    if steps.len() == 0 {
        phases
    } else {
        let before = all_after(cfg, phases, steps.drop_last());
        let (i, outcome) = steps.last();
        before.update(i, next_phase(cfg, before[i], outcome))
    }
}

/// Whether a request that waits for a permit is given one only while there is
/// one left. Here `before` is where the requests are at that moment.
pub open spec fn is_fair_step(
    before: Seq<Phase>,
    step: (int, Outcome),
    permits: nat,
) -> bool {
    &&& 0 <= step.0 < before.len()
    &&& before[step.0] == Phase::Permit && step.1 is Permitted ==> permits_held(before) < permits
}

proof fn lemma_permits_held(phases: Seq<Phase>, i: int, phase: Phase)
    requires
        0 <= i < phases.len(),
    ensures
        permits_held(phases.update(i, phase)) + (if phases[i] is Scan {
            1int
        } else {
            0int
        }) == permits_held(phases) + (if phase is Scan {
            1int
        } else {
            0int
        }),
        phases[i] is Scan ==> permits_held(phases) > 0,
    decreases phases.len(),
{
    let changed = phases.update(i, phase);
    if i < phases.len() - 1 {
        lemma_permits_held(phases.drop_last(), i, phase);
        assert(changed.drop_last() =~= phases.drop_last().update(i, phase));
    } else {
        assert(changed.drop_last() =~= phases.drop_last());
    }
}

proof fn lemma_none_held(phases: Seq<Phase>)
    requires
        forall|k: int| 0 <= k < phases.len() ==> !(#[trigger] phases[k] is Scan),
    ensures
        permits_held(phases) == 0,
    decreases phases.len(),
{
    if phases.len() > 0 {
        assert(!(phases[phases.len() - 1] is Scan));
        lemma_none_held(phases.drop_last());
    }
}

/// However the steps of any number of requests follow each other, no more scans
/// run at a time than there are permits, as long as a permit is given only while
/// one is left; and once no request is being scanned all permits are back.
pub proof fn permits_bound_scans(
    cfg: Config,
    phases: Seq<Phase>,
    steps: Seq<(int, Outcome)>,
    permits: nat,
)
    requires
        forall|k: int| 0 <= k < phases.len() ==> !(#[trigger] phases[k] is Scan),
        forall|k: int|
            0 <= k < steps.len() ==> is_fair_step(
                all_after(cfg, phases, steps.take(k)),
                #[trigger] steps[k],
                permits,
            ),
    ensures
        all_after(cfg, phases, steps).len() == phases.len(),
        permits_held(all_after(cfg, phases, steps)) <= permits,
        (forall|k: int|
            0 <= k < phases.len() ==> !(#[trigger] all_after(cfg, phases, steps)[k] is Scan))
            ==> permits_held(all_after(cfg, phases, steps)) == 0,
    decreases steps.len(),
{
    let after = all_after(cfg, phases, steps);
    if steps.len() == 0 {
        lemma_none_held(phases);
    } else {
        let short = steps.drop_last();
        let last = steps.len() - 1;
        assert forall|k: int| 0 <= k < short.len() implies is_fair_step(
            all_after(cfg, phases, short.take(k)),
            #[trigger] short[k],
            permits,
        ) by {
            assert(short.take(k) =~= steps.take(k));
            assert(short[k] == steps[k]);
        }
        permits_bound_scans(cfg, phases, short, permits);
        let before = all_after(cfg, phases, short);
        assert(steps.take(last) =~= short);
        assert(is_fair_step(before, steps[last], permits));
        let (i, outcome) = steps[last];
        lemma_permits_held(before, i, next_phase(cfg, before[i], outcome));
        scans_begin_with_a_permit(cfg, before[i], outcome);
    }
    if forall|k: int| 0 <= k < phases.len() ==> !(#[trigger] after[k] is Scan) {
        lemma_none_held(after);
    }
}

/// Where a series of outcomes leads.
pub open spec fn phase_after(cfg: Config, phase: Phase, outcomes: Seq<Outcome>) -> Phase
    decreases outcomes.len(),
{
    if outcomes.len() == 0 {
        phase
    } else {
        phase_after(cfg, next_phase(cfg, phase, outcomes[0]), outcomes.drop_first())
    }
}

/// The answers that are written in a series of outcomes.
pub open spec fn answers(cfg: Config, phase: Phase, outcomes: Seq<Outcome>) -> Seq<Response>
    decreases outcomes.len(),
{
    if outcomes.len() == 0 {
        seq![]
    } else {
        (match phase {
            Phase::Answer { answer, mark_failure: _ } => seq![answer],
            _ => seq![],
        }) + answers(cfg, next_phase(cfg, phase, outcomes[0]), outcomes.drop_first())
    }
}

/// How many steps a request takes at most from a phase on.
pub open spec fn steps_left(phase: Phase) -> nat {
    match phase {
        Phase::Resolve => 8,
        Phase::Permit => 7,
        Phase::Scan(ScanPhase::Connect) => 6,
        Phase::Scan(ScanPhase::Send) => 5,
        Phase::Scan(ScanPhase::Receive) => 4,
        Phase::Mark => 3,
        Phase::Answer { answer: _, mark_failure: _ } => 2,
        Phase::Flush => 1,
        Phase::Done => 0,
    }
}

/// However its steps go, a request is done after at most eight of them.
pub proof fn requests_come_to_an_end(cfg: Config, phase: Phase, outcomes: Seq<Outcome>)
    ensures
        outcomes.len() >= steps_left(phase) ==> phase_after(cfg, phase, outcomes) == Phase::Done,
        steps_left(phase) <= 8,
    decreases outcomes.len(),
{
    if outcomes.len() > 0 {
        requests_come_to_an_end(
            cfg,
            next_phase(cfg, phase, outcomes[0]),
            outcomes.drop_first(),
        );
    }
}

/// How many answers are still to be written from a phase on.
spec fn answers_left(phase: Phase) -> nat {
    match phase {
        Phase::Flush | Phase::Done => 0,
        _ => 1,
    }
}

proof fn lemma_answers(cfg: Config, phase: Phase, outcomes: Seq<Outcome>)
    ensures
        answers(cfg, phase, outcomes).len() <= answers_left(phase),
        phase_after(cfg, phase, outcomes) == Phase::Done ==> answers(cfg, phase, outcomes).len()
            == answers_left(phase),
    decreases outcomes.len(),
{
    if outcomes.len() > 0 {
        lemma_answers(cfg, next_phase(cfg, phase, outcomes[0]), outcomes.drop_first());
    }
}

/// Every request is answered exactly once: never twice, however its steps go,
/// and never not at all once it is done.
pub proof fn requests_are_answered_once(cfg: Config, pid: i32, outcomes: Seq<Outcome>)
    ensures
        answers(cfg, first_phase(cfg, pid), outcomes).len() <= 1,
        phase_after(cfg, first_phase(cfg, pid), outcomes) == Phase::Done ==> answers(
            cfg,
            first_phase(cfg, pid),
            outcomes,
        ).len() == 1,
{
    lemma_answers(cfg, first_phase(cfg, pid), outcomes);
}

/// Whether an outcome is a reply of `clamd` with a certain verdict.
pub open spec fn is_reply(outcome: Outcome, expected: Verdict) -> bool {
    outcome matches Outcome::Scanned(ScanOutcome::Received(reply)) && (reply_text(reply@) matches Some(
        text,
    ) && verdict(text) == expected)
}

/// Whether an outcome is the path of a file outside of the configured
/// directories.
pub open spec fn is_outside(cfg: Config, outcome: Outcome) -> bool {
    outcome matches Outcome::Link { buffer, len } && file_status(cfg, buffer@, len as int)
        == Status::Ignored
}

proof fn lemma_denied(cfg: Config, phase: Phase, outcomes: Seq<Outcome>)
    requires
        cfg.res_on_error == Response::Allow,
        answers(cfg, phase, outcomes).contains(Response::Deny),
    ensures
        (phase matches Phase::Answer { answer, mark_failure: _ } && answer == Response::Deny)
            || exists|i: int|
            0 <= i < outcomes.len() && #[trigger] is_reply(outcomes[i], Verdict::Threat),
    decreases outcomes.len(),
{
    let next = next_phase(cfg, phase, outcomes[0]);
    let rest = outcomes.drop_first();
    let here: Seq<Response> = match phase {
        Phase::Answer { answer, mark_failure: _ } => seq![answer],
        _ => seq![],
    };
    let all = answers(cfg, phase, outcomes);
    let k = choose|k: int| 0 <= k < all.len() && all[k] == Response::Deny;
    if k >= here.len() {
        assert(answers(cfg, next, rest)[k - here.len()] == Response::Deny);
        lemma_denied(cfg, next, rest);
        if next == answering(Response::Deny) {
            assert(is_reply(outcomes[0], Verdict::Threat));
        } else {
            let i = choose|i: int|
                0 <= i < rest.len() && #[trigger] is_reply(rest[i], Verdict::Threat);
            assert(is_reply(outcomes[i + 1], Verdict::Threat));
        }
    }
}

/// Where files that cannot be scanned may be opened, a request is denied only
/// because `clamd` has reported a threat.
pub proof fn denied_only_for_threats(cfg: Config, pid: i32, outcomes: Seq<Outcome>)
    requires
        cfg.res_on_error == Response::Allow,
        answers(cfg, first_phase(cfg, pid), outcomes).contains(Response::Deny),
    ensures
        exists|i: int|
            0 <= i < outcomes.len() && #[trigger] is_reply(outcomes[i], Verdict::Threat),
{
    lemma_denied(cfg, first_phase(cfg, pid), outcomes);
}

proof fn lemma_allowed(cfg: Config, phase: Phase, outcomes: Seq<Outcome>)
    requires
        cfg.res_on_error == Response::Deny,
        answers(cfg, phase, outcomes).contains(Response::Allow),
    ensures
        phase == Phase::Mark || (phase matches Phase::Answer { answer, mark_failure: _ } && answer
            == Response::Allow) || exists|i: int|
            0 <= i < outcomes.len() && (is_outside(cfg, #[trigger] outcomes[i]) || is_reply(
                outcomes[i],
                Verdict::Clean,
            )),
    decreases outcomes.len(),
{
    let next = next_phase(cfg, phase, outcomes[0]);
    let rest = outcomes.drop_first();
    let here: Seq<Response> = match phase {
        Phase::Answer { answer, mark_failure: _ } => seq![answer],
        _ => seq![],
    };
    let all = answers(cfg, phase, outcomes);
    let k = choose|k: int| 0 <= k < all.len() && all[k] == Response::Allow;
    if k >= here.len() {
        assert(answers(cfg, next, rest)[k - here.len()] == Response::Allow);
        lemma_allowed(cfg, next, rest);
        if next == Phase::Mark {
            assert(is_reply(outcomes[0], Verdict::Clean));
        } else if next matches Phase::Answer { answer, mark_failure: _ } && answer
            == Response::Allow {
            assert(phase == Phase::Mark || is_outside(cfg, outcomes[0]));
        } else {
            let i = choose|i: int|
                0 <= i < rest.len() && (is_outside(cfg, #[trigger] rest[i]) || is_reply(
                    rest[i],
                    Verdict::Clean,
                ));
            assert(outcomes[i + 1] == rest[i]);
        }
    }
}

/// Where files that cannot be scanned stay closed, a request is allowed only
/// because the process is exempt, because the file lies outside of the
/// configured directories, or because `clamd` has reported that it is clean.
pub proof fn allowed_only_for_a_reason(cfg: Config, pid: i32, outcomes: Seq<Outcome>)
    requires
        cfg.res_on_error == Response::Deny,
        answers(cfg, first_phase(cfg, pid), outcomes).contains(Response::Allow),
    ensures
        cfg.exempt(unsigned_pid(pid)) || exists|i: int|
            0 <= i < outcomes.len() && (is_outside(cfg, #[trigger] outcomes[i]) || is_reply(
                outcomes[i],
                Verdict::Clean,
            )),
{
    lemma_allowed(cfg, first_phase(cfg, pid), outcomes);
}

/// A file that `clamd` reports as a threat is not opened, whatever is
/// configured and whatever happens afterwards.
pub proof fn threats_are_denied(cfg: Config, outcome: Outcome, later: Seq<Outcome>)
    requires
        is_reply(outcome, Verdict::Threat),
        later.len() > 0,
    ensures
        answers(cfg, Phase::Scan(ScanPhase::Receive), seq![outcome] + later) == seq![Response::Deny],
{
    let outcomes = seq![outcome] + later;
    assert(outcomes.drop_first() =~= later);
    let next = next_phase(cfg, Phase::Scan(ScanPhase::Receive), outcome);
    assert(next == answering(Response::Deny));
    lemma_answers(cfg, next_phase(cfg, next, later[0]), later.drop_first());
    assert(answers(cfg, next_phase(cfg, next, later[0]), later.drop_first()) =~= seq![]);
    assert(answers(cfg, next, later) =~= seq![Response::Deny]);
    assert(answers(cfg, Phase::Scan(ScanPhase::Receive), outcomes) =~= seq![Response::Deny]);
}

/// The requests of exempt processes are allowed, without a look at the file.
pub proof fn exempt_processes_are_allowed(cfg: Config, pid: i32, outcomes: Seq<Outcome>)
    requires
        cfg.exempt(unsigned_pid(pid)),
        outcomes.len() > 0,
    ensures
        answers(cfg, first_phase(cfg, pid), outcomes) == seq![Response::Allow],
        phase_after(cfg, first_phase(cfg, pid), outcomes) == Phase::Done,
{
    let next = next_phase(cfg, first_phase(cfg, pid), outcomes[0]);
    assert(next == Phase::Done);
    lemma_answers(cfg, next, outcomes.drop_first());
    requests_come_to_an_end(cfg, next, outcomes.drop_first());
    assert(answers(cfg, first_phase(cfg, pid), outcomes) =~= seq![Response::Allow]);
}

/// The kernel is told not to ask again only for a file that was just reported
/// as clean, and the marks are dropped only if there was no room for one more.
pub proof fn marks_follow_clean_replies(cfg: Config, phase: Phase, outcome: Outcome)
    ensures
        next_phase(cfg, phase, outcome) == Phase::Mark ==> phase == Phase::Scan(ScanPhase::Receive)
            && is_reply(outcome, Verdict::Clean),
        next_phase(cfg, phase, outcome) == Phase::Flush ==> (phase matches Phase::Answer {
            answer: _,
            mark_failure,
        } && marks_are_full(mark_failure)),
        phase == Phase::Mark ==> (next_phase(cfg, phase, outcome) matches Phase::Answer {
            answer,
            mark_failure: _,
        } && answer == Response::Allow),
{
}

/// A request that is being handled is not touched when the process number of
/// `clamd` changes.
pub proof fn clamd_pid_does_not_touch_requests(
    cfg: Config,
    clamd_pid: u32,
    phase: Phase,
    outcome: Outcome,
)
    ensures
        next_phase((Config { clamd_pid, ..cfg }), phase, outcome) == next_phase(
            cfg,
            phase,
            outcome,
        ),
        report_of((Config { clamd_pid, ..cfg }), phase, outcome) == report_of(cfg, phase, outcome),
{
    let changed = Config { clamd_pid, ..cfg };
    assert forall|file: Seq<u8>| in_dirs(changed, file) == in_dirs(cfg, file) by {
        assert(changed.dirs@ == cfg.dirs@);
    }
}

/// Why the pid file of `clamd` cannot be watched.
#[derive(Clone, Copy, Debug, PartialEq, Eq, Structural)]
pub enum WatchError {
    /// It lies in no directory.
    NoParent,
    /// It has no name.
    NoFileName,
}

/// The words that describe an error to a user.
pub open spec fn watch_error_words(e: WatchError) -> Seq<char> {
    match e {
        WatchError::NoParent => "Failed to get parent directory of"@,
        WatchError::NoFileName => "Failed to get filename of"@,
    }
}

impl WatchError {
    /// The whole sentence, with the path as it is shown to a user.
    pub fn describe(&self, shown: &str) -> (res: String)
        ensures
            res@ == watch_error_words(*self) + " "@ + shown@,
    {
        joined(self.message().as_str(), " ", shown)
    }

    /// The words that describe the error to a user.
    pub fn message(&self) -> (res: String)
        ensures
            res@ == watch_error_words(*self),
    {
        match self {
            WatchError::NoParent => "Failed to get parent directory of".to_owned(),
            WatchError::NoFileName => "Failed to get filename of".to_owned(),
        }
    }
}

/// A file and the directory in which it is watched.
#[derive(Debug)]
pub struct PidWatch {
    /// The directory.
    pub dir: Vec<u8>,
    /// The name of the file.
    pub name: Vec<u8>,
}

/// Finds the directory and the name by which a file is watched.
pub fn watch_pid_file(path: &[u8]) -> (res: Result<PidWatch, WatchError>)
    ensures
        match res {
            Ok(watch) => {
                &&& has_parent(path@)
                &&& watch.dir@.is_prefix_of(path@)
                &&& shortest_prefix(
                    path@,
                    watch.dir@.len() as int,
                    components(path@).drop_last(),
                )
                &&& final_name(path@) == Some(watch.name@)
            },
            Err(WatchError::NoParent) => !has_parent(path@),
            Err(WatchError::NoFileName) => has_parent(path@) && final_name(path@) is None,
        },
{
    match path_parent(path) {
        None => Err(WatchError::NoParent),
        Some(dir) => match path_file_name(path) {
            None => Err(WatchError::NoFileName),
            Some(name) => Ok(PidWatch { dir, name }),
        },
    }
}

/// The changes of a watched file that matter.
#[derive(Clone, Copy, Debug, PartialEq, Eq, Structural)]
pub enum Change {
    /// It was written and closed.
    CloseWrite,
    /// It was created.
    Create,
}

/// The bit of a change in an event of the kernel.
pub open spec fn change_bit(change: Change) -> u32 {
    match change {
        Change::CloseWrite => 0x8,
        Change::Create => 0x100,
    }
}

/// Calls `inotify::EventMask::contains`.
///
/// Trusted: it tells whether all bits of its argument are set, and the bits of
/// `EventMask::CLOSE_WRITE` and of `EventMask::CREATE` are the ones that
/// `change_bit` gives.
#[verifier::external_body]
fn mask_contains(mask: u32, change: Change) -> (res: bool)
    ensures
        res == (mask & change_bit(change) == change_bit(change)),
{
    inotify::EventMask::from_bits_retain(mask).contains(
        match change {
            Change::CloseWrite => inotify::EventMask::CLOSE_WRITE,
            Change::Create => inotify::EventMask::CREATE,
        },
    )
}

/// Whether an event says that a file was written or created.
pub open spec fn is_change(mask: u32) -> bool {
    mask & 0x8 == 0x8 || mask & 0x100 == 0x100
}

impl PidWatch {
    /// Whether an event in the directory means that the file has to be read
    /// again: it bears the name of the file, and says that it was written or
    /// created.
    pub open spec fn is_concerned(self, name: Option<Seq<u8>>, mask: u32) -> bool {
        name matches Some(n) && n == self.name@ && is_change(mask)
    }

    /// Tells whether an event in the directory means that the file has to be
    /// read again.
    pub fn concerns(&self, name: Option<&[u8]>, mask: u32) -> (res: bool)
        ensures
            res == self.is_concerned(
                match name {
                    Some(n) => Some(n@),
                    None => None,
                },
                mask,
            ),
    {
        match name {
            Some(n) => same_bytes(n, self.name.as_slice()) && (mask_contains(
                mask,
                Change::CloseWrite,
            ) || mask_contains(mask, Change::Create)),
            None => false,
        }
    }
}

/// An event in the directory of the pid file, and what the file would be read as
/// at that moment; there is no content where it cannot be read.
pub ghost struct PidEvent {
    /// The name that the event bears.
    pub name: Option<Seq<u8>>,
    /// The bits of the event.
    pub mask: u32,
    /// The content of the pid file.
    pub content: Option<Seq<char>>,
}

/// The configuration after an event: where the event concerns the pid file and
/// the file can be read, its content is taken over.
pub open spec fn after_pid_event(watch: PidWatch, cfg: Config, event: PidEvent) -> Config {
    match event.content {
        Some(content) => if watch.is_concerned(event.name, event.mask) {
            cfg.with_pid_file(content)
        } else {
            cfg
        },
        None => cfg,
    }
}

/// The configuration after a series of events.
pub open spec fn after_pid_events(
    watch: PidWatch,
    cfg: Config,
    events: Seq<PidEvent>,
) -> Config
    decreases events.len(),
{
    if events.len() == 0 {
        cfg
    } else {
        after_pid_event(
            watch,
            after_pid_events(watch, cfg, events.drop_last()),
            events.last(),
        )
    }
}

/// Whether an event counts: it concerns the pid file, and the file holds this
/// process number.
pub open spec fn gives_pid(watch: PidWatch, event: PidEvent, pid: u32) -> bool {
    &&& watch.is_concerned(event.name, event.mask)
    &&& event.content matches Some(content) && pid_in(content) == Ok::<u32, NumberError>(pid)
}

/// After any series of events the process number of `clamd` is that of the last
/// event that counts, and the one from before where none does. Nothing else of
/// the configuration changes.
pub proof fn last_pid_event_decides(watch: PidWatch, cfg: Config, events: Seq<PidEvent>)
    ensures
        after_pid_events(watch, cfg, events) == (Config {
            clamd_pid: after_pid_events(watch, cfg, events).clamd_pid,
            ..cfg
        }),
        forall|i: int, pid: u32|
            0 <= i < events.len() && #[trigger] gives_pid(watch, events[i], pid) && (forall|
                j: int,
                other: u32,
            |
                i < j < events.len() ==> !#[trigger] gives_pid(watch, events[j], other))
                ==> after_pid_events(watch, cfg, events).clamd_pid == pid,
        (forall|j: int, other: u32|
            0 <= j < events.len() ==> !#[trigger] gives_pid(watch, events[j], other))
            ==> after_pid_events(watch, cfg, events) == cfg,
    decreases events.len(),
{
    if events.len() > 0 {
        let short = events.drop_last();
        let last = events.len() - 1;
        let before = after_pid_events(watch, cfg, short);
        let after = after_pid_events(watch, cfg, events);
        last_pid_event_decides(watch, cfg, short);
        assert(forall|j: int, other: u32|
            0 <= j < last ==> gives_pid(watch, short[j], other) == #[trigger] gives_pid(
                watch,
                events[j],
                other,
            ));
        // without a number in the last event everything stays as it was before it
        if forall|other: u32| !#[trigger] gives_pid(watch, events[last], other) {
            assert(after == before) by {
                if let Some(content) = events[last].content {
                    if let Ok(pid) = pid_in(content) {
                        assert(!gives_pid(watch, events[last], pid));
                    }
                }
            }
        }
        assert forall|i: int, pid: u32|
            0 <= i < events.len() && #[trigger] gives_pid(watch, events[i], pid) && (forall|
                j: int,
                other: u32,
            |
                i < j < events.len() ==> !#[trigger] gives_pid(
                    watch,
                    events[j],
                    other,
                )) implies after.clamd_pid == pid by {
            if i < last {
                assert(gives_pid(watch, short[i], pid));
                assert forall|j: int, other: u32| i < j < short.len() implies !#[trigger] gives_pid(
                    watch,
                    short[j],
                    other,
                ) by {
                    assert(!gives_pid(watch, events[j], other));
                }
            }
        }
        if forall|j: int, other: u32|
            0 <= j < events.len() ==> !#[trigger] gives_pid(watch, events[j], other) {
            assert forall|j: int, other: u32| 0 <= j < short.len() implies !#[trigger] gives_pid(
                watch,
                short[j],
                other,
            ) by {
                assert(!gives_pid(watch, events[j], other));
            }
        }
    }
}

/// Requests were lost exactly if there are more of them than can be handled.
pub proof fn lost_requests_are_those_not_handled(files: Seq<Option<i32>>)
    ensures
        lost_requests(files) <==> answerable(files).len() < files.len(),
        lost_requests(files) <==> !(forall|i: int|
            0 <= i < files.len() ==> #[trigger] files[i] is Some),
        answerable(files).len() <= files.len(),
    decreases files.len(),
{
    if files.len() > 0 {
        let short = files.drop_last();
        lost_requests_are_those_not_handled(short);
        if lost_requests(short) {
            let i = choose|i: int| 0 <= i < short.len() && #[trigger] short[i] is None;
            assert(files[i] is None);
        }
        if lost_requests(files) && !lost_requests(short) {
            let i = choose|i: int| 0 <= i < files.len() && #[trigger] files[i] is None;
            if i < short.len() {
                assert(short[i] is None);
            }
            assert(i == files.len() - 1);
        }
        if files.last() is None {
            assert(files[files.len() - 1] is None);
        }
    }
}

/// The path of an open file is the directory in which the kernel shows them,
/// and behind it the number of the file, in digits without a needless zero and
/// with a sign where it is negative.
pub proof fn link_path_is_directory_and_number(fd: i32, digits: Seq<char>)
    requires
        digits.len() > 0,
        forall|i: int| 0 <= i < digits.len() ==> digit(#[trigger] digits[i]),
        digits.len() > 1 ==> digits[0] != '0',
        fd >= 0 ==> value(digits) == fd,
        fd < 0 ==> value(digits) == -(fd as int),
    ensures
        fd >= 0 ==> link_path(fd) == vstd::utf8::encode_utf8("/proc/self/fd/"@ + digits),
        fd < 0 ==> link_path(fd) == vstd::utf8::encode_utf8("/proc/self/fd/"@ + ("-"@ + digits)),
{
    reveal_strlit("/proc/self/fd/");
    reveal_strlit("-");
    decimal_is_unique(digits);
    signed_decimal_notation(fd as int);
    let text = "/proc/self/fd/"@ + signed_decimal(fd as int);
    assert forall|i: int| 0 <= i < text.len() implies 0 <= #[trigger] text[i] as nat <= 127 by {
        let start = text.len() - digits.len();
        if i >= start {
            assert(text[i] == digits[i - start]);
            assert(digit(digits[i - start]));
        }
    }
    assert(vstd::utf8::is_ascii_chars(text));
    ascii_is_utf8(text);
}

/// A process number is read as the number without a sign that has the same bits.
pub proof fn pids_keep_their_bits(pid: i32, id: u32)
    requires
        (id - pid) % 0x1_0000_0000 == 0,
    ensures
        unsigned_pid(pid) == id,
        pid >= 0 ==> id == pid,
{
}

/// Where the path of a file was not read, that is an error, whatever the buffer
/// holds. A file whose path was read has to be scanned if the path begins with
/// the bytes of a configured directory, and is ignored otherwise, however long
/// the path is.
pub proof fn path_decides_about_a_file(cfg: Config, buffer: Seq<u8>, len: int)
    ensures
        file_status(cfg, buffer, len) == Status::Error <==> len <= 0,
        file_status(cfg, buffer, len) == Status::NeedScan <==> len > 0 && exists|k: int|
            0 <= k < cfg.dirs@.len() && (#[trigger] cfg.dirs@[k])@.is_prefix_of(buffer.take(len)),
        file_status(cfg, buffer, len) == Status::Ignored <==> len > 0 && forall|k: int|
            0 <= k < cfg.dirs@.len() ==> !(#[trigger] cfg.dirs@[k])@.is_prefix_of(buffer.take(len)),
{
}

/// A reply leads to an answer exactly if it ends with one of two words. Without
/// a reply there is none.
pub proof fn last_letters_of_a_reply_answer(text: Seq<char>)
    ensures
        reply_answer(Some(text)) == Some(Response::Allow) <==> "OK"@.is_suffix_of(text),
        reply_answer(Some(text)) == Some(Response::Deny) <==> "FOUND"@.is_suffix_of(text),
        reply_answer(Some(text)) == None::<Response> <==> !"OK"@.is_suffix_of(text)
            && !"FOUND"@.is_suffix_of(text),
        reply_answer(None) == None::<Response>,
{
    reveal_strlit("OK");
    reveal_strlit("FOUND");
    last_letters_decide(text);
    let n = text.len() as int;
    if "OK"@.is_suffix_of(text) {
        assert("OK"@[1] == text.subrange(n - 2, n)[1]);
    }
    if "FOUND"@.is_suffix_of(text) {
        assert("FOUND"@[4] == text.subrange(n - 5, n)[4]);
    }
}

/// A process that is neither the daemon nor `clamd` has to wait until the path of
/// its file was asked for, whatever is configured for errors; the two others are
/// answered at once.
pub proof fn strangers_wait_for_the_path(cfg: Config, pid: i32, id: u32)
    requires
        (id - pid) % 0x1_0000_0000 == 0,
    ensures
        first_phase(cfg, pid) == Phase::Resolve <==> id != cfg.my_pid && id != cfg.clamd_pid,
        id == cfg.my_pid || id == cfg.clamd_pid ==> first_phase(cfg, pid) == (Phase::Answer {
            answer: Response::Allow,
            mark_failure: None,
        }),
        !cfg.exempt(unsigned_pid(pid)) ==> first_phase(cfg, pid) == Phase::Resolve,
{
    pids_keep_their_bits(pid, id);
    daemon_and_clamd_are_exempt(cfg);
}

/// Once an answer is to be written, it is the only one.
proof fn lemma_answered(cfg: Config, phase: Phase, outcomes: Seq<Outcome>)
    requires
        phase is Answer,
        outcomes.len() > 0,
    ensures
        answers(cfg, phase, outcomes) == seq![phase->answer],
{
    let next = next_phase(cfg, phase, outcomes[0]);
    lemma_answers(cfg, next, outcomes.drop_first());
    assert(answers(cfg, next, outcomes.drop_first()) =~= seq![]);
    assert(answers(cfg, phase, outcomes) =~= seq![phase->answer]);
}

/// Where no answer is to be written, a step writes none.
proof fn lemma_unanswered(cfg: Config, phase: Phase, outcomes: Seq<Outcome>)
    requires
        !(phase is Answer),
        outcomes.len() > 0,
    ensures
        answers(cfg, phase, outcomes) == answers(
            cfg,
            next_phase(cfg, phase, outcomes[0]),
            outcomes.drop_first(),
        ),
{
    let rest = answers(cfg, next_phase(cfg, phase, outcomes[0]), outcomes.drop_first());
    assert(Seq::<Response>::empty() + rest =~= rest);
}

/// A request of a process that is neither the daemon nor `clamd` is not answered
/// before the path of the file was asked for. Where there is no path, the answer
/// is the configured one. A file whose path begins with none of the configured
/// directories may be opened, whatever is configured for errors.
pub proof fn requests_are_answered_by_the_path(
    cfg: Config,
    pid: i32,
    id: u32,
    outcomes: Seq<Outcome>,
)
    requires
        (id - pid) % 0x1_0000_0000 == 0,
        id != cfg.my_pid,
        id != cfg.clamd_pid,
    ensures
        outcomes.len() <= 1 ==> answers(cfg, first_phase(cfg, pid), outcomes) == Seq::<
            Response,
        >::empty(),
        outcomes.len() >= 2 && !(outcomes[0] is Link) ==> answers(
            cfg,
            first_phase(cfg, pid),
            outcomes,
        ) == seq![cfg.res_on_error],
        outcomes.len() >= 2 ==> (outcomes[0] matches Outcome::Link { buffer, len } ==> (len <= 0
            ==> answers(cfg, first_phase(cfg, pid), outcomes) == seq![cfg.res_on_error])),
        outcomes.len() >= 2 ==> (outcomes[0] matches Outcome::Link { buffer, len } ==> (len > 0 && (
        forall|k: int|
            0 <= k < cfg.dirs@.len() ==> !(#[trigger] cfg.dirs@[k])@.is_prefix_of(
                buffer@.take(len as int),
            )) ==> answers(cfg, first_phase(cfg, pid), outcomes) == seq![Response::Allow])),
{
    strangers_wait_for_the_path(cfg, pid, id);
    if outcomes.len() > 0 {
        let rest = outcomes.drop_first();
        lemma_unanswered(cfg, Phase::Resolve, outcomes);
        let next = next_phase(cfg, Phase::Resolve, outcomes[0]);
        if outcomes.len() == 1 {
            assert(rest.len() == 0);
        } else if next is Answer {
            lemma_answered(cfg, next, rest);
        }
    }
}

/// A request of a process that is neither the daemon nor `clamd`, for a file
/// whose path begins with a configured directory, gets exactly one answer. It is
/// a denial if the scan gets a permit, a connection and the file across, and the
/// reply ends with the word for a threat; the file may be opened if the reply
/// ends with the word for a clean one; and in every other case the answer is the
/// configured one.
pub proof fn requests_are_answered_by_the_reply(
    cfg: Config,
    pid: i32,
    id: u32,
    outcomes: Seq<Outcome>,
)
    requires
        (id - pid) % 0x1_0000_0000 == 0,
        id != cfg.my_pid,
        id != cfg.clamd_pid,
        outcomes.len() >= 7,
        outcomes[0] matches Outcome::Link { buffer, len } && len > 0 && exists|k: int|
            0 <= k < cfg.dirs@.len() && (#[trigger] cfg.dirs@[k])@.is_prefix_of(
                buffer@.take(len as int),
            ),
    ensures
        ({
            let all = answers(cfg, first_phase(cfg, pid), outcomes);
            let permitted = outcomes[1] is Permitted;
            let connected = outcomes[2] matches Outcome::Scanned(r) && r is Completed;
            let sent = outcomes[3] matches Outcome::Scanned(r) && r is Completed;
            let reply: Option<Seq<char>> = match outcomes[4] {
                Outcome::Scanned(ScanOutcome::Received(bytes)) => reply_text(bytes@),
                _ => None,
            };
            let scanned = permitted && connected && sent && reply is Some;
            let found = scanned && "FOUND"@.is_suffix_of(reply->0);
            let ok = scanned && "OK"@.is_suffix_of(reply->0);
            &&& found ==> all == seq![Response::Deny]
            &&& ok ==> all == seq![Response::Allow]
            &&& !found && !ok ==> all == seq![cfg.res_on_error]
        }),
{
    strangers_wait_for_the_path(cfg, pid, id);
    let o1 = outcomes.drop_first();
    let o2 = o1.drop_first();
    let o3 = o2.drop_first();
    let o4 = o3.drop_first();
    let o5 = o4.drop_first();
    let o6 = o5.drop_first();
    assert(o1[0] == outcomes[1] && o2[0] == outcomes[2] && o3[0] == outcomes[3] && o4[0]
        == outcomes[4]);
    lemma_unanswered(cfg, Phase::Resolve, outcomes);
    path_decides_about_a_file(cfg, outcomes[0]->buffer@, outcomes[0]->len as int);
    let p1 = next_phase(cfg, Phase::Resolve, outcomes[0]);
    assert(p1 == Phase::Permit);
    lemma_unanswered(cfg, p1, o1);
    let p2 = next_phase(cfg, p1, o1[0]);
    if p2 is Answer {
        lemma_answered(cfg, p2, o2);
    } else {
        lemma_unanswered(cfg, p2, o2);
        let p3 = next_phase(cfg, p2, o2[0]);
        if p3 is Answer {
            lemma_answered(cfg, p3, o3);
        } else {
            lemma_unanswered(cfg, p3, o3);
            let p4 = next_phase(cfg, p3, o3[0]);
            if p4 is Answer {
                lemma_answered(cfg, p4, o4);
            } else {
                lemma_unanswered(cfg, p4, o4);
                let p5 = next_phase(cfg, p4, o4[0]);
                if let Outcome::Scanned(ScanOutcome::Received(bytes)) = outcomes[4] {
                    if let Some(text) = reply_text(bytes@) {
                        last_letters_of_a_reply_answer(text);
                    }
                }
                if p5 is Answer {
                    lemma_answered(cfg, p5, o5);
                } else {
                    assert(p5 == Phase::Mark);
                    lemma_unanswered(cfg, p5, o5);
                    lemma_answered(cfg, next_phase(cfg, p5, o5[0]), o6);
                }
            }
        }
    }
}

/// Every file that is reported as clean is marked before the answer. Where that
/// fails the answer is the same, and once it is written the error decides: where
/// there is no room for a mark, all of them are dropped, and any other error is
/// reported.
pub proof fn clean_files_are_marked(
    cfg: Config,
    reply: Vec<u8>,
    text: Seq<char>,
    outcome: Outcome,
    e: i32,
    answer: Response,
)
    requires
        reply_text(reply@) == Some(text),
        "OK"@.is_suffix_of(text),
    ensures
        next_phase(
            cfg,
            Phase::Scan(ScanPhase::Receive),
            Outcome::Scanned(ScanOutcome::Received(reply)),
        ) == Phase::Mark,
        !(outcome is Failed) ==> next_phase(cfg, Phase::Mark, outcome) == (Phase::Answer {
            answer: Response::Allow,
            mark_failure: None,
        }),
        next_phase(cfg, Phase::Mark, Outcome::Failed(e)) == (Phase::Answer {
            answer: Response::Allow,
            mark_failure: Some(e),
        }),
        next_phase(cfg, (Phase::Answer { answer, mark_failure: Some(e) }), outcome) == (if e == 28 {
            Phase::Flush
        } else {
            Phase::Done
        }),
        report_of(cfg, (Phase::Answer { answer, mark_failure: Some(e) }), outcome) == (if e == 28 {
            None
        } else {
            Some(ReportView::MarkFailed(e))
        }),
        next_phase(cfg, (Phase::Answer { answer, mark_failure: None }), outcome) == Phase::Done,
        next_phase(cfg, Phase::Flush, outcome) == Phase::Done,
        next_phase(cfg, Phase::Done, outcome) == Phase::Done,
{
    last_letters_of_a_reply_answer(text);
}

/// A user is told of a path that was not read, of a permit that was not given,
/// and of nothing else until the scan begins; nor of anything while a mark is
/// made, while marks are dropped, when no mark has failed, or afterwards.
pub proof fn missing_paths_and_permits_are_reported(cfg: Config, outcome: Outcome, answer: Response)
    ensures
        report_of(cfg, Phase::Resolve, outcome) == (if outcome is Link && outcome->len > 0 {
            None
        } else {
            Some(ReportView::NoPath)
        }),
        report_of(cfg, Phase::Permit, outcome) == (if outcome is Permitted {
            None
        } else {
            Some(ReportView::NoPermit)
        }),
        report_of(cfg, Phase::Mark, outcome) == None::<ReportView>,
        report_of(cfg, (Phase::Answer { answer, mark_failure: None }), outcome) == None::<ReportView>,
        report_of(cfg, Phase::Flush, outcome) == None::<ReportView>,
        report_of(cfg, Phase::Done, outcome) == None::<ReportView>,
{
}

/// Of a scan a user is told why it failed, or what the reply is unless the file
/// is clean: a threat where it ends with that word, and an error in any other
/// case. The error that is reported is the one that the scan ended with, and
/// while the scan goes on nothing is said.
pub proof fn scans_are_reported(cfg: Config, step: ScanPhase, result: ScanOutcome)
    ensures
        ({
            let report = report_of(cfg, Phase::Scan(step), Outcome::Scanned(result));
            let progress = after_scan_step(step, result);
            &&& match progress {
                ScanProgressView::Next(_) => report is None,
                ScanProgressView::Reply(text) => {
                    &&& "FOUND"@.is_suffix_of(text) ==> report == Some(ReportView::Threat(text))
                    &&& "OK"@.is_suffix_of(text) ==> report is None
                    &&& !"FOUND"@.is_suffix_of(text) && !"OK"@.is_suffix_of(text) ==> report == Some(
                        ReportView::ErrorReply(text),
                    )
                },
                ScanProgressView::NotText(bytes) => report == Some(ReportView::NotText(bytes)),
                ScanProgressView::Error(e) => report == Some(ReportView::ScanFailed(e)),
            }
            &&& scan_failure(progress) == (match report {
                Some(r) => reported_error(r),
                None => None,
            })
        }),
{
    if let ScanProgressView::Reply(text) = after_scan_step(step, result) {
        last_letters_of_a_reply_answer(text);
    }
}

/// A scan that is broken off fails with the error of the step that it was in, and
/// the answer is the configured one.
pub proof fn broken_scans_are_reported(cfg: Config, step: ScanPhase, outcome: Outcome)
    requires
        !(outcome is Scanned),
    ensures
        report_of(cfg, Phase::Scan(ScanPhase::Connect), outcome) == Some(
            ReportView::ScanFailed(ScanError::Connect),
        ),
        report_of(cfg, Phase::Scan(ScanPhase::Send), outcome) == Some(
            ReportView::ScanFailed(ScanError::Send),
        ),
        report_of(cfg, Phase::Scan(ScanPhase::Receive), outcome) == Some(
            ReportView::ScanFailed(ScanError::Read),
        ),
        next_phase(cfg, Phase::Scan(step), outcome) == (Phase::Answer {
            answer: cfg.res_on_error,
            mark_failure: None,
        }),
{
}

/// A scan that has failed, or whose reply is no text, is answered as configured,
/// and one that goes on takes its next step.
pub proof fn scans_lead_on(cfg: Config, step: ScanPhase, result: ScanOutcome)
    ensures
        scan_failure(after_scan_step(step, result)) is Some ==> next_phase(
            cfg,
            Phase::Scan(step),
            Outcome::Scanned(result),
        ) == (Phase::Answer { answer: cfg.res_on_error, mark_failure: None }),
        after_scan_step(step, result) matches ScanProgressView::Next(further) ==> next_phase(
            cfg,
            Phase::Scan(step),
            Outcome::Scanned(result),
        ) == Phase::Scan(further),
{
}

/// The line that a user is told begins with words of its own for each report. It
/// ends with the reply, whole, where there is one, and with the cause otherwise.
pub proof fn lines_end_with_the_reply_or_the_cause(
    detail: Seq<char>,
    reply: Seq<char>,
    bytes: Seq<u8>,
    e: ScanError,
    n: i32,
)
    ensures
        report_line(ReportView::NoPath, detail) == "Failed to get file path: "@ + detail,
        report_line(ReportView::NoPermit, detail) == "Failed to acquire semaphore: "@ + detail,
        report_line(ReportView::ScanFailed(e), detail) == "Failed to scan: "@ + detail,
        report_line(ReportView::NotText(bytes), detail) == "Failed to scan: "@ + detail,
        report_line(ReportView::Threat(reply), detail) == "Threat detected: "@ + reply,
        report_line(ReportView::ErrorReply(reply), detail) == "Error Responce: "@ + reply,
        report_line(ReportView::MarkFailed(n), detail) == "Falied to add ignored mask: "@ + detail,
{
}

/// A report is shown by its own kind, with the reply or the error that it holds.
pub proof fn reports_are_shown_as_they_are(
    report: Report,
    e: ScanError,
    bytes: Vec<u8>,
    text: String,
    n: i32,
)
    ensures
        report_view(Some(report)) == Some(report@),
        report_view(None) == None::<ReportView>,
        Report::NoPath@ == ReportView::NoPath,
        Report::NoPermit@ == ReportView::NoPermit,
        Report::ScanFailed(e)@ == ReportView::ScanFailed(e),
        Report::NotText(bytes)@ == ReportView::NotText(bytes@),
        Report::Threat(text)@ == ReportView::Threat(text@),
        Report::ErrorReply(text)@ == ReportView::ErrorReply(text@),
        Report::MarkFailed(n)@ == ReportView::MarkFailed(n),
        reported_error(ReportView::ScanFailed(e)) == Some(e),
        reported_error(ReportView::NotText(bytes@)) == Some(ScanError::Read),
        reported_error(ReportView::NoPath) == None::<ScanError>,
        reported_error(ReportView::NoPermit) == None::<ScanError>,
        reported_error(ReportView::Threat(text@)) == None::<ScanError>,
        reported_error(ReportView::ErrorReply(text@)) == None::<ScanError>,
        reported_error(ReportView::MarkFailed(n)) == None::<ScanError>,
{
}

/// A connection is held exactly while the file is handed over and while the
/// reply is read.
pub proof fn connections_are_held_to_send_and_receive(step: ScanPhase, phase: Phase)
    ensures
        connected(Phase::Scan(step)) <==> step != ScanPhase::Connect,
        !(phase is Scan) ==> !connected(phase),
{
}

/// An event counts exactly if it bears the name of the pid file and one of two
/// bits: the fourth, for a file that was written, or the ninth, for one that was
/// created. Other bits do not matter.
pub proof fn name_and_two_bits_decide(watch: PidWatch, name: Option<Seq<u8>>, mask: u32)
    ensures
        watch.is_concerned(name, mask) <==> name == Some(watch.name@) && ((mask / 8) % 2 == 1 || (
        mask / 256) % 2 == 1),
{
    assert(mask & 0x8 == 0x8 <==> (mask / 8) % 2 == 1) by (bit_vector);
    assert(mask & 0x100 == 0x100 <==> (mask / 256) % 2 == 1) by (bit_vector);
}

/// Once `clamd` has written its number to its pid file and the event was seen,
/// its requests are answered at once. An event with another name or without one
/// of the two bits, and a file that cannot be read, change nothing.
pub proof fn restarted_clamd_is_let_through(
    watch: PidWatch,
    cfg: Config,
    pid: i32,
    blank: Seq<char>,
    event: PidEvent,
)
    requires
        pid >= 0,
        forall|i: int| 0 <= i < blank.len() ==> white_space(#[trigger] blank[i]),
    ensures
        event.name == Some(watch.name@) && ((event.mask / 8) % 2 == 1 || (event.mask / 256) % 2 == 1)
            && event.content == Some(decimal(pid as nat) + blank) ==> after_pid_event(
            watch,
            cfg,
            event,
        ) == (Config { clamd_pid: pid as u32, ..cfg }) && first_phase(
            after_pid_event(watch, cfg, event),
            pid,
        ) == (Phase::Answer { answer: Response::Allow, mark_failure: None }),
        event.name != Some(watch.name@) || event.content is None || !((event.mask / 8) % 2 == 1 || (
        event.mask / 256) % 2 == 1) ==> after_pid_event(watch, cfg, event) == cfg,
{
    name_and_two_bits_decide(watch, event.name, event.mask);
    pid_round_trip(pid as u32, blank);
    daemon_and_clamd_are_exempt(Config { clamd_pid: pid as u32, ..cfg });
}

/// Reading requests pauses for one error number and stops for every other.
pub proof fn reading_pauses_for_one_number(e: i32)
    ensures
        is_pause(e) <==> e == 11,
{
}

} // verus!
