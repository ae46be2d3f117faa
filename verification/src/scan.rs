//! Talking to `clamd`: handing it an open file and reading what it says.

use crate::path::copy_range;
use crate::text::{ascii, ascii_bytes, ends_with, joined};
use vstd::prelude::*;
use vstd::utf8::{
    decode_utf8, encode_scalar, encode_utf8, has_width_1_encoding, last_continuation_byte,
    leading_byte_width_1, valid_utf8,
};

verus! {

/// The error of the standard library for bytes that are not UTF-8.
#[verifier::external_type_specification]
#[verifier::external_body]
pub struct ExFromUtf8Error(std::string::FromUtf8Error);

/// Trusted: `String::from_utf8` accepts exactly the byte strings that are valid
/// UTF-8, and gives the characters that they encode.
pub assume_specification[ String::from_utf8 ](vec: Vec<u8>) -> (res: Result<
    String,
    std::string::FromUtf8Error,
>)
    ensures
        res is Ok <==> valid_utf8(vec@),
        res matches Ok(s) ==> s@ == decode_utf8(vec@),
;

/// How many seconds each of these may take: waiting for a turn to scan, handing
/// over a file, reading a reply.
pub const TIME_LIMIT_SECS: u64 = 5;

/// The command that announces an open file: its name between the marks of a
/// command that ends with a zero byte.
pub open spec fn fildes_bytes() -> Seq<u8> {
    ascii("zFILDES"@).push(0)
}

/// The command that announces an open file.
pub fn fildes_command() -> (res: Vec<u8>)
    ensures
        res@ == fildes_bytes(),
{
    proof {
        reveal_strlit("zFILDES");
    }
    let mut res: Vec<u8> = ascii_bytes("zFILDES");
    res.push(0);
    res
}

/// The one byte that travels with an open file.
pub fn fildes_payload() -> (res: [u8; 1])
    ensures
        res@ == seq![0u8],
{
    let res: [u8; 1] = [0];
    assert(res@ =~= seq![0u8]);
    res
}

/// What has to be done next to hand over an open file.
#[derive(Clone, Copy, Debug, PartialEq, Eq, Structural)]
pub enum SendPhase {
    /// Wait until there is room to write.
    AwaitStart,
    /// Write the command.
    WriteCommand,
    /// Flush what was written.
    Flush,
    /// Wait until there is room for the file.
    AwaitRoom,
    /// Send the file.
    SendDescriptor,
    /// Nothing: the file is handed over.
    Sent,
    /// Nothing: it could not be handed over.
    Failed,
}

/// How a step of handing over an open file went.
#[derive(Clone, Copy, Debug, PartialEq, Eq, Structural)]
pub enum SendOutcome {
    /// It is done.
    Completed,
    /// There was no room after all.
    WouldBlock,
    /// It failed.
    Failed,
}

/// What follows a step: the next one, once more waiting for room where there
/// was none for the file, or failure.
pub open spec fn after_send(phase: SendPhase, outcome: SendOutcome) -> SendPhase {
    match (phase, outcome) {
        (SendPhase::AwaitStart, SendOutcome::Completed) => SendPhase::WriteCommand,
        (SendPhase::WriteCommand, SendOutcome::Completed) => SendPhase::Flush,
        (SendPhase::Flush, SendOutcome::Completed) => SendPhase::AwaitRoom,
        (SendPhase::AwaitRoom, SendOutcome::Completed) => SendPhase::SendDescriptor,
        (SendPhase::SendDescriptor, SendOutcome::Completed) => SendPhase::Sent,
        (SendPhase::SendDescriptor, SendOutcome::WouldBlock) => SendPhase::AwaitRoom,
        (SendPhase::Sent, _) => SendPhase::Sent,
        _ => SendPhase::Failed,
    }
}

/// Decides what follows a step of handing over an open file.
pub fn send_fildes(phase: SendPhase, outcome: SendOutcome) -> (res: SendPhase)
    ensures
        res == after_send(phase, outcome),
{
    match outcome {
        SendOutcome::Completed => match phase {
            SendPhase::AwaitStart => SendPhase::WriteCommand,
            SendPhase::WriteCommand => SendPhase::Flush,
            SendPhase::Flush => SendPhase::AwaitRoom,
            SendPhase::AwaitRoom => SendPhase::SendDescriptor,
            SendPhase::SendDescriptor => SendPhase::Sent,
            SendPhase::Sent => SendPhase::Sent,
            SendPhase::Failed => SendPhase::Failed,
        },
        SendOutcome::WouldBlock => match phase {
            SendPhase::SendDescriptor => SendPhase::AwaitRoom,
            SendPhase::Sent => SendPhase::Sent,
            _ => SendPhase::Failed,
        },
        SendOutcome::Failed => match phase {
            SendPhase::Sent => SendPhase::Sent,
            _ => SendPhase::Failed,
        },
    }
}

/// Where a series of outcomes leads.
pub open spec fn after_sends(phase: SendPhase, outcomes: Seq<SendOutcome>) -> SendPhase
    decreases outcomes.len(),
{
    if outcomes.len() == 0 {
        phase
    } else {
        after_sends(after_send(phase, outcomes[0]), outcomes.drop_first())
    }
}

/// How often a step is completed in a series of outcomes.
pub open spec fn completions(
    step: SendPhase,
    phase: SendPhase,
    outcomes: Seq<SendOutcome>,
) -> nat
    decreases outcomes.len(),
{
    if outcomes.len() == 0 {
        0
    } else {
        (if phase == step && outcomes[0] == SendOutcome::Completed {
            1nat
        } else {
            0nat
        }) + completions(step, after_send(phase, outcomes[0]), outcomes.drop_first())
    }
}

/// How often the command, a flush or the file can still be sent.
spec fn still_to_come(step: SendPhase, phase: SendPhase) -> nat {
    match phase {
        SendPhase::AwaitStart | SendPhase::WriteCommand => 1,
        SendPhase::Flush => if step == SendPhase::WriteCommand {
            0
        } else {
            1
        },
        SendPhase::AwaitRoom | SendPhase::SendDescriptor => if step == SendPhase::SendDescriptor {
            1
        } else {
            0
        },
        _ => 0,
    }
}

proof fn lemma_completions(step: SendPhase, phase: SendPhase, outcomes: Seq<SendOutcome>)
    requires
        step == SendPhase::WriteCommand || step == SendPhase::Flush || step
            == SendPhase::SendDescriptor,
    ensures
        completions(step, phase, outcomes) <= still_to_come(step, phase),
        after_sends(phase, outcomes) == SendPhase::Sent ==> completions(step, phase, outcomes)
            == still_to_come(step, phase),
        phase == SendPhase::Failed ==> after_sends(phase, outcomes) == SendPhase::Failed,
    decreases outcomes.len(),
{
    if outcomes.len() > 0 {
        lemma_completions(step, after_send(phase, outcomes[0]), outcomes.drop_first());
    }
}

/// The steps are completed in their order.
proof fn lemma_order(phase: SendPhase, outcomes: Seq<SendOutcome>)
    ensures
        completions(SendPhase::SendDescriptor, phase, outcomes) + still_to_come(
            SendPhase::Flush,
            phase,
        ) <= completions(SendPhase::Flush, phase, outcomes) + still_to_come(
            SendPhase::SendDescriptor,
            phase,
        ),
        completions(SendPhase::Flush, phase, outcomes) + still_to_come(
            SendPhase::WriteCommand,
            phase,
        ) <= completions(SendPhase::WriteCommand, phase, outcomes) + still_to_come(
            SendPhase::Flush,
            phase,
        ),
    decreases outcomes.len(),
{
    if outcomes.len() > 0 {
        let next = after_send(phase, outcomes[0]);
        let rest = outcomes.drop_first();
        lemma_order(next, rest);
        lemma_completions(SendPhase::WriteCommand, next, rest);
        lemma_completions(SendPhase::Flush, next, rest);
        lemma_completions(SendPhase::SendDescriptor, next, rest);
    }
}

/// However often there is no room, the command is never written twice and the
/// file never sent twice; the file is sent only after the command was written
/// and flushed; and it counts as handed over only if all of that was done.
pub proof fn file_is_sent_once(outcomes: Seq<SendOutcome>)
    ensures
        ({
            let written = completions(SendPhase::WriteCommand, SendPhase::AwaitStart, outcomes);
            let flushed = completions(SendPhase::Flush, SendPhase::AwaitStart, outcomes);
            let sent = completions(SendPhase::SendDescriptor, SendPhase::AwaitStart, outcomes);
            &&& sent <= flushed <= written <= 1
            &&& after_sends(SendPhase::AwaitStart, outcomes) == SendPhase::Sent ==> sent == 1
        }),
{
    lemma_order(SendPhase::AwaitStart, outcomes);
    lemma_completions(SendPhase::WriteCommand, SendPhase::AwaitStart, outcomes);
    lemma_completions(SendPhase::SendDescriptor, SendPhase::AwaitStart, outcomes);
}

/// A reply without the zero byte that ends it.
pub open spec fn reply_body(reply: Seq<u8>) -> Seq<u8> {
    if reply.len() > 0 && reply.last() == 0 {
        reply.drop_last()
    } else {
        reply
    }
}

/// The text of a reply, if it is one.
pub open spec fn reply_text(reply: Seq<u8>) -> Option<Seq<char>> {
    if valid_utf8(reply_body(reply)) {
        Some(decode_utf8(reply_body(reply)))
    } else {
        None
    }
}

/// A reply that is not UTF-8.
#[derive(Debug)]
pub struct NotUtf8 {
    /// The reply, without the zero byte that ends it.
    pub bytes: Vec<u8>,
}

/// The text of what was read of a reply, up to the zero byte that ends it or to
/// the end of the connection. Where it is not UTF-8, its bytes are handed back.
pub fn read_response(reply: Vec<u8>) -> (res: Result<String, NotUtf8>)
    ensures
        match (res, reply_text(reply@)) {
            (Ok(s), Some(text)) => s@ == text,
            (Err(e), None) => e.bytes@ == reply_body(reply@),
            _ => false,
        },
{
    let mut body: Vec<u8> = reply;
    if body.len() > 0 && body[body.len() - 1] == 0 {
        let _ = body.pop();
        assert(body@ =~= reply_body(reply@));
    }
    let bytes: Vec<u8> = copy_range(body.as_slice(), 0, body.len());
    assert(bytes@ =~= body@);
    match String::from_utf8(body) {
        Ok(s) => Ok(s),
        Err(_) => Err(NotUtf8 { bytes }),
    }
}

/// The encoding of a text ends with a zero byte only if the text ends with a
/// zero character.
proof fn lemma_last_byte(text: Seq<char>)
    requires
        text.len() > 0,
        text.last() != '\0',
    ensures
        encode_utf8(text).len() > 0,
        encode_utf8(text).last() != 0,
    decreases text.len(),
{
    let rest = text.drop_first();
    let c = text[0] as u32;
    let first = encode_scalar(c);
    assert(encode_utf8(text) == first + encode_utf8(rest));
    if text.len() > 1 {
        lemma_last_byte(rest);
        assert((first + encode_utf8(rest)).last() == encode_utf8(rest).last());
    } else {
        assert(encode_utf8(rest) =~= seq![]);
        assert(first + encode_utf8(rest) =~= first);
        assert(c != 0) by {
            vstd::utf8::char_u32_cast(text[0], c);
            assert(text.last() == text[0]);
        }
        assert(has_width_1_encoding(c) ==> leading_byte_width_1(c) != 0) by (bit_vector)
            requires
                c != 0,
        ;
        assert(last_continuation_byte(c) != 0) by (bit_vector);
    }
}

/// A text that is sent as a reply is the text that is read, with the zero byte
/// that ends a reply and, unless the text itself ends with a zero character,
/// without it too.
pub proof fn reply_round_trip(text: Seq<char>)
    ensures
        reply_text(encode_utf8(text).push(0)) == Some(text),
        text.len() == 0 || text.last() != '\0' ==> reply_text(encode_utf8(text)) == Some(text),
{
    let reply = encode_utf8(text).push(0);
    assert(reply_body(reply) =~= encode_utf8(text));
    vstd::utf8::encode_utf8_valid_utf8(text);
    vstd::utf8::encode_utf8_decode_utf8(text);
    if text.len() > 0 && text.last() != '\0' {
        lemma_last_byte(text);
    }
}

/// What has to be done next to have a file scanned.
#[derive(Clone, Copy, Debug, PartialEq, Eq, Structural)]
pub enum ScanPhase {
    /// Connect to `clamd`.
    Connect,
    /// Hand over the file, within the time that is allowed.
    Send,
    /// Read the reply, within the time that is allowed.
    Receive,
}

/// How a step of a scan went.
#[derive(Debug)]
pub enum ScanOutcome {
    /// It is done.
    Completed,
    /// These bytes were read.
    Received(Vec<u8>),
    /// It took too long.
    TimedOut,
    /// It failed.
    Failed,
}

/// Why a file was not scanned.
#[derive(Clone, Copy, Debug, PartialEq, Eq, Structural)]
pub enum ScanError {
    /// There was no connection.
    Connect,
    /// Handing over the file took too long.
    SendTimeout,
    /// The file could not be handed over.
    Send,
    /// The reply took too long.
    ReadTimeout,
    /// The reply could not be read.
    Read,
}

/// The words that describe an error to a user.
pub open spec fn scan_error_words(e: ScanError) -> Seq<char> {
    match e {
        ScanError::Connect => "Failed to create connection"@,
        ScanError::SendTimeout => "Send timeout"@,
        ScanError::Send => "Send Error"@,
        ScanError::ReadTimeout => "Read timeout"@,
        ScanError::Read => "Read Error"@,
    }
}

impl ScanError {
    /// The whole sentence, with what is known of the cause.
    pub fn describe(&self, detail: &str) -> (res: String)
        ensures
            res@ == scan_error_words(*self) + ": "@ + detail@,
    {
        joined(self.message().as_str(), ": ", detail)
    }

    /// The words that describe the error to a user.
    pub fn message(&self) -> (res: String)
        ensures
            res@ == scan_error_words(*self),
    {
        match self {
            ScanError::Connect => "Failed to create connection".to_owned(),
            ScanError::SendTimeout => "Send timeout".to_owned(),
            ScanError::Send => "Send Error".to_owned(),
            ScanError::ReadTimeout => "Read timeout".to_owned(),
            ScanError::Read => "Read Error".to_owned(),
        }
    }
}

/// What follows a step of a scan.
#[derive(Debug)]
pub enum ScanProgress {
    /// The scan goes on.
    Next(ScanPhase),
    /// The scan is over, with this reply.
    Reply(String),
    /// The scan is over, with a reply that is not UTF-8.
    NotText(Vec<u8>),
    /// The scan is over without a reply.
    Error(ScanError),
}

/// What a step of a scan means: a further step, a text, bytes that are no text,
/// or an error.
#[verifier::ext_equal]
pub ghost enum ScanProgressView {
    Next(ScanPhase),
    Reply(Seq<char>),
    NotText(Seq<u8>),
    Error(ScanError),
}

impl View for ScanProgress {
    type V = ScanProgressView;

    open spec fn view(&self) -> ScanProgressView {
        match *self {
            ScanProgress::Next(phase) => ScanProgressView::Next(phase),
            ScanProgress::Reply(text) => ScanProgressView::Reply(text@),
            ScanProgress::NotText(bytes) => ScanProgressView::NotText(bytes@),
            ScanProgress::Error(e) => ScanProgressView::Error(e),
        }
    }
}

/// The error that a scan ended with, if it did. A reply that is not UTF-8 could
/// not be read.
pub open spec fn scan_failure(progress: ScanProgressView) -> Option<ScanError> {
    match progress {
        ScanProgressView::Error(e) => Some(e),
        ScanProgressView::NotText(_) => Some(ScanError::Read),
        _ => None,
    }
}

impl ScanProgress {
    /// The error that the scan ended with, if it did.
    pub fn error(&self) -> (res: Option<ScanError>)
        ensures
            res == scan_failure(self@),
    {
        match self {
            ScanProgress::Error(e) => Some(*e),
            ScanProgress::NotText(_) => Some(ScanError::Read),
            _ => None,
        }
    }
}

/// What follows a step of a scan. An outcome that does not belong to the step
/// counts as its failure.
pub open spec fn after_scan_step(phase: ScanPhase, outcome: ScanOutcome) -> ScanProgressView {
    match phase {
        ScanPhase::Connect => match outcome {
            ScanOutcome::Completed => ScanProgressView::Next(ScanPhase::Send),
            _ => ScanProgressView::Error(ScanError::Connect),
        },
        ScanPhase::Send => match outcome {
            ScanOutcome::Completed => ScanProgressView::Next(ScanPhase::Receive),
            ScanOutcome::TimedOut => ScanProgressView::Error(ScanError::SendTimeout),
            _ => ScanProgressView::Error(ScanError::Send),
        },
        ScanPhase::Receive => match outcome {
            ScanOutcome::Received(reply) => match reply_text(reply@) {
                Some(text) => ScanProgressView::Reply(text),
                None => ScanProgressView::NotText(reply_body(reply@)),
            },
            ScanOutcome::TimedOut => ScanProgressView::Error(ScanError::ReadTimeout),
            _ => ScanProgressView::Error(ScanError::Read),
        },
    }
}

/// Decides what follows a step of a scan.
pub fn scan(phase: ScanPhase, outcome: ScanOutcome) -> (res: ScanProgress)
    ensures
        res@ == after_scan_step(phase, outcome),
{
    match phase {
        ScanPhase::Connect => match outcome {
            ScanOutcome::Completed => ScanProgress::Next(ScanPhase::Send),
            _ => ScanProgress::Error(ScanError::Connect),
        },
        ScanPhase::Send => match outcome {
            ScanOutcome::Completed => ScanProgress::Next(ScanPhase::Receive),
            ScanOutcome::TimedOut => ScanProgress::Error(ScanError::SendTimeout),
            _ => ScanProgress::Error(ScanError::Send),
        },
        ScanPhase::Receive => match outcome {
            ScanOutcome::Received(reply) => match read_response(reply) {
                Ok(text) => ScanProgress::Reply(text),
                Err(e) => ScanProgress::NotText(e.bytes),
            },
            ScanOutcome::TimedOut => ScanProgress::Error(ScanError::ReadTimeout),
            _ => ScanProgress::Error(ScanError::Read),
        },
    }
}

/// A scan ends with a reply only if the connection was made, the file handed
/// over, and the reply read in time and as text. Where reading it took too long,
/// the error says so; where it failed or brought no text, the error is that of
/// reading.
pub proof fn only_whole_replies_are_returned(phase: ScanPhase, outcome: ScanOutcome)
    ensures
        after_scan_step(phase, outcome) matches ScanProgressView::Reply(text) ==> phase
            == ScanPhase::Receive && (outcome matches ScanOutcome::Received(reply) && reply_text(
            reply@,
        ) == Some(text)),
        phase == ScanPhase::Receive ==> scan_failure(after_scan_step(phase, outcome)) == (
        match outcome {
            ScanOutcome::Received(reply) => if reply_text(reply@) is Some {
                None
            } else {
                Some(ScanError::Read)
            },
            ScanOutcome::TimedOut => Some(ScanError::ReadTimeout),
            _ => Some(ScanError::Read),
        }),
        after_scan_step(phase, outcome) == ScanProgressView::Next(ScanPhase::Send) ==> phase
            == ScanPhase::Connect && outcome is Completed,
        after_scan_step(phase, outcome) == ScanProgressView::Next(ScanPhase::Receive) ==> phase
            == ScanPhase::Send && outcome is Completed,
        after_scan_step(phase, outcome) != ScanProgressView::Next(ScanPhase::Connect),
{
}

/// What `clamd` says of a file.
#[derive(Clone, Copy, Debug, PartialEq, Eq, Structural)]
pub enum Verdict {
    /// Nothing was found in it.
    Clean,
    /// It is infected.
    Threat,
    /// It could not be scanned.
    Unclear,
}

/// What a reply says of a file.
pub open spec fn verdict(text: Seq<char>) -> Verdict {
    if "OK"@.is_suffix_of(text) {
        Verdict::Clean
    } else if "FOUND"@.is_suffix_of(text) {
        Verdict::Threat
    } else {
        Verdict::Unclear
    }
}

/// Tells what a reply says of a file.
pub fn judge(text: &str) -> (res: Verdict)
    ensures
        res == verdict(text@),
{
    if ends_with(text, "OK") {
        Verdict::Clean
    } else if ends_with(text, "FOUND") {
        Verdict::Threat
    } else {
        Verdict::Unclear
    }
}

/// A reply that ends with the word for an infected file is a threat, whatever
/// stands before it; one that ends with the word for a clean file is clean.
pub proof fn last_word_decides(before: Seq<char>)
    ensures
        verdict(before + "OK"@) == Verdict::Clean,
        verdict(before + "FOUND"@) == Verdict::Threat,
{
    reveal_strlit("OK");
    reveal_strlit("FOUND");
    let clean = before + "OK"@;
    let threat = before + "FOUND"@;
    assert(clean.subrange(before.len() as int, clean.len() as int) =~= "OK"@);
    assert(threat.subrange(before.len() as int, threat.len() as int) =~= "FOUND"@);
    assert(!"OK"@.is_suffix_of(threat)) by {
        let tail = threat.subrange(threat.len() - 2, threat.len() as int);
        assert(tail[1] == 'D');
        assert("OK"@[1] == 'K');
    }
}

/// A reply is clean exactly if its last letters are those of `OK`, a threat
/// exactly if they are those of `FOUND`, and unclear in every other case.
pub proof fn last_letters_decide(text: Seq<char>)
    ensures
        ({
            let n = text.len() as int;
            let ok = n >= 2 && text[n - 2] == 'O' && text[n - 1] == 'K';
            let found = n >= 5 && text[n - 5] == 'F' && text[n - 4] == 'O' && text[n - 3] == 'U'
                && text[n - 2] == 'N' && text[n - 1] == 'D';
            &&& verdict(text) == Verdict::Clean <==> ok
            &&& verdict(text) == Verdict::Threat <==> found
            &&& verdict(text) == Verdict::Unclear <==> !ok && !found
        }),
{
    reveal_strlit("OK");
    reveal_strlit("FOUND");
    let n = text.len() as int;
    if n >= 2 {
        let tail = text.subrange(n - 2, n);
        assert(tail[0] == text[n - 2] && tail[1] == text[n - 1]);
        if text[n - 2] == 'O' && text[n - 1] == 'K' {
            assert(tail =~= "OK"@);
        }
    }
    if n >= 5 {
        let tail = text.subrange(n - 5, n);
        assert(tail[0] == text[n - 5] && tail[1] == text[n - 4] && tail[2] == text[n - 3] && tail[3]
            == text[n - 2] && tail[4] == text[n - 1]);
        if text[n - 5] == 'F' && text[n - 4] == 'O' && text[n - 3] == 'U' && text[n - 2] == 'N'
            && text[n - 1] == 'D' {
            assert(tail =~= "FOUND"@);
        }
    }
}

/// A reply that ends with the word for an error is never clean and never a
/// threat, whatever stands before it.
pub proof fn errors_are_unclear(before: Seq<char>)
    ensures
        verdict(before + "ERROR"@) == Verdict::Unclear,
{
    reveal_strlit("ERROR");
    last_letters_decide(before + "ERROR"@);
}

/// Where the last word of a reply follows other text, that text does not matter:
/// two replies with the same last five letters say the same.
pub proof fn beginning_does_not_matter(a: Seq<char>, b: Seq<char>, tail: Seq<char>)
    requires
        tail.len() >= 5,
    ensures
        verdict(a + tail) == verdict(b + tail),
        verdict(a + tail) == verdict(tail),
{
    last_letters_decide(a + tail);
    last_letters_decide(b + tail);
    last_letters_decide(tail);
}

/// A reply is read as a text exactly if it is the encoding of that text, where
/// one zero byte at the end does not belong to it.
pub proof fn replies_are_read_as_utf8(bytes: Seq<u8>, text: Seq<char>)
    ensures
        reply_text(bytes.push(0)) == Some(text) <==> bytes == encode_utf8(text),
        bytes.len() == 0 || bytes.last() != 0 ==> (reply_text(bytes) == Some(text) <==> bytes
            == encode_utf8(text)),
        reply_body(bytes.push(0)) == bytes,
        bytes.len() == 0 || bytes.last() != 0 ==> reply_body(bytes) == bytes,
        reply_text(bytes) is None <==> !valid_utf8(reply_body(bytes)),
{
    assert(bytes.push(0).drop_last() =~= bytes);
    vstd::utf8::encode_utf8_valid_utf8(text);
    vstd::utf8::encode_utf8_decode_utf8(text);
    if valid_utf8(bytes) {
        vstd::utf8::decode_utf8_encode_utf8(bytes);
    }
}

/// A completed step leads to the one after it. Where there was no room for the
/// file, room is waited for again. Everything else that is not a completed step
/// is a failure, and neither a failure nor a file that was handed over changes
/// any more.
pub proof fn sending_goes_step_by_step(phase: SendPhase, outcome: SendOutcome)
    ensures
        ({
            let steps = seq![
                SendPhase::AwaitStart,
                SendPhase::WriteCommand,
                SendPhase::Flush,
                SendPhase::AwaitRoom,
                SendPhase::SendDescriptor,
                SendPhase::Sent,
            ];
            forall|i: int|
                0 <= i < 5 ==> after_send(#[trigger] steps[i], SendOutcome::Completed) == steps[i
                    + 1]
        }),
        after_send(phase, outcome) == SendPhase::Failed <==> phase == SendPhase::Failed || (phase
            != SendPhase::Sent && outcome == SendOutcome::Failed) || (phase != SendPhase::Sent
            && phase != SendPhase::SendDescriptor && outcome == SendOutcome::WouldBlock),
        after_send(SendPhase::SendDescriptor, SendOutcome::WouldBlock) == SendPhase::AwaitRoom,
        after_send(SendPhase::Sent, outcome) == SendPhase::Sent,
{
}

/// However often there is no room, a file is handed over once there is.
pub proof fn patience_hands_the_file_over(blocked: nat, outcomes: Seq<SendOutcome>)
    requires
        outcomes.len() == 2 * blocked + 2,
        forall|i: int|
            0 <= i < outcomes.len() ==> #[trigger] outcomes[i] == (if i % 2 == 1 && i < 2 * blocked {
                SendOutcome::WouldBlock
            } else {
                SendOutcome::Completed
            }),
    ensures
        after_sends(SendPhase::AwaitRoom, outcomes) == SendPhase::Sent,
    decreases blocked,
{
    reveal_with_fuel(after_sends, 3);
    let rest = outcomes.drop_first().drop_first();
    assert(outcomes[0] == SendOutcome::Completed);
    assert(outcomes.drop_first()[0] == outcomes[1]);
    if blocked > 0 {
        assert(outcomes[1] == SendOutcome::WouldBlock);
        assert forall|i: int| 0 <= i < rest.len() implies #[trigger] rest[i] == (if i % 2 == 1 && i
            < 2 * (blocked - 1) {
            SendOutcome::WouldBlock
        } else {
            SendOutcome::Completed
        }) by {
            assert(rest[i] == outcomes[i + 2]);
        }
        patience_hands_the_file_over((blocked - 1) as nat, rest);
    } else {
        assert(outcomes[1] == SendOutcome::Completed);
        assert(rest.len() == 0);
    }
}

/// A scan goes on only when a step is done. A step that is not done ends it with
/// the error of that step, and a time limit that was missed has an error of its
/// own.
pub proof fn scans_go_step_by_step(phase: ScanPhase, outcome: ScanOutcome)
    ensures
        outcome is Completed ==> after_scan_step(ScanPhase::Connect, outcome)
            == ScanProgressView::Next(ScanPhase::Send) && after_scan_step(ScanPhase::Send, outcome)
            == ScanProgressView::Next(ScanPhase::Receive),
        after_scan_step(phase, outcome) is Next <==> outcome is Completed && phase
            != ScanPhase::Receive,
        !(outcome is Completed) ==> after_scan_step(ScanPhase::Connect, outcome)
            == ScanProgressView::Error(ScanError::Connect),
        outcome is TimedOut ==> after_scan_step(ScanPhase::Send, outcome)
            == ScanProgressView::Error(ScanError::SendTimeout) && after_scan_step(
            ScanPhase::Receive,
            outcome,
        ) == ScanProgressView::Error(ScanError::ReadTimeout),
        outcome is Failed ==> after_scan_step(ScanPhase::Send, outcome) == ScanProgressView::Error(
            ScanError::Send,
        ) && after_scan_step(ScanPhase::Receive, outcome) == ScanProgressView::Error(
            ScanError::Read,
        ),
        outcome is Received ==> after_scan_step(ScanPhase::Send, outcome)
            == ScanProgressView::Error(ScanError::Send),
        outcome is Completed ==> after_scan_step(ScanPhase::Receive, outcome)
            == ScanProgressView::Error(ScanError::Read),
{
}

/// A reply ends the scan with its text, and one that is no text with its bytes,
/// in both cases without the zero byte at its end.
pub proof fn replies_end_the_scan(reply: Vec<u8>, bytes: Seq<u8>, text: Seq<char>)
    requires
        reply@ == bytes.push(0) || (reply@ == bytes && (bytes.len() == 0 || bytes.last() != 0)),
    ensures
        bytes == encode_utf8(text) ==> after_scan_step(
            ScanPhase::Receive,
            ScanOutcome::Received(reply),
        ) == ScanProgressView::Reply(text),
        !valid_utf8(bytes) ==> after_scan_step(ScanPhase::Receive, ScanOutcome::Received(reply))
            == ScanProgressView::NotText(bytes),
{
    replies_are_read_as_utf8(bytes, text);
}

/// What a scan has come to is told by its own kind, with the text or the bytes
/// that it holds.
pub proof fn progress_is_shown_as_it_is(
    phase: ScanPhase,
    text: String,
    bytes: Vec<u8>,
    e: ScanError,
)
    ensures
        ScanProgress::Next(phase)@ == ScanProgressView::Next(phase),
        ScanProgress::Reply(text)@ == ScanProgressView::Reply(text@),
        ScanProgress::NotText(bytes)@ == ScanProgressView::NotText(bytes@),
        ScanProgress::Error(e)@ == ScanProgressView::Error(e),
        scan_failure(ScanProgressView::Error(e)) == Some(e),
        scan_failure(ScanProgressView::NotText(bytes@)) == Some(ScanError::Read),
        scan_failure(ScanProgressView::Next(phase)) == None::<ScanError>,
        scan_failure(ScanProgressView::Reply(text@)) == None::<ScanError>,
{
}

} // verus!
