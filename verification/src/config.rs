//! The settings that an administrator writes and the configuration that the
//! daemon runs with.

use crate::path::{absolute, components, separators_at_the_end_do_not_matter, SLASH};
use crate::text::{
    ascii, ascii_bytes, decimal, decimal_round_trip, digit, digits_are_numbers, first_fault_decides,
    joined, number, number_error_text, parse_number, trim_end, trimmed, value, white_space,
    NumberError,
};
use vstd::prelude::*;

verus! {

/// The type of owned paths in the standard library, which is only handed
/// through.
#[verifier::external_type_specification]
#[verifier::external_body]
pub struct ExPathBuf(std::path::PathBuf);

/// What the kernel is told to do with a request to open a file.
#[derive(Clone, Copy, Debug, PartialEq, Eq, Structural)]
pub enum Response {
    /// The file may be opened.
    Allow,
    /// The request fails.
    Deny,
}

/// A path that does not begin at the root, where one that does is wanted.
#[derive(Debug)]
pub struct NotAbsolute {
    /// The path.
    pub path: Vec<u8>,
}

impl NotAbsolute {
    /// The words that describe the error to a user.
    pub fn message(&self) -> (res: String)
        ensures
            res@ == "Path must be absolute"@,
    {
        "Path must be absolute".to_owned()
    }

    /// The whole sentence, with the path as it is shown to a user.
    pub fn describe(&self, shown: &str) -> (res: String)
        ensures
            res@ == "Path must be absolute"@ + ": "@ + shown@,
    {
        joined(self.message().as_str(), ": ", shown)
    }
}

/// The absolute path of a directory, ending with a separator.
#[derive(Debug)]
pub struct AbsoluteDirPath {
    bytes: Vec<u8>,
}

/// What the bytes of an absolute directory path always are.
pub open spec fn is_dir_path(s: Seq<u8>) -> bool {
    absolute(s) && s.last() == SLASH
}

/// A path with a separator at its end.
pub open spec fn with_final_slash(s: Seq<u8>) -> Seq<u8> {
    if s.len() > 0 && s.last() == SLASH {
        s
    } else {
        s.push(SLASH)
    }
}

impl View for AbsoluteDirPath {
    type V = Seq<u8>;

    closed spec fn view(&self) -> Seq<u8> {
        self.bytes@
    }
}

impl AbsoluteDirPath {
    #[verifier::type_invariant]
    spec fn well_formed(self) -> bool {
        is_dir_path(self.bytes@)
    }

    /// Accepts the path of a directory if it is absolute, and adds the
    /// separator at its end if that is missing.
    pub fn from_bytes(path: Vec<u8>) -> (res: Result<AbsoluteDirPath, NotAbsolute>)
        ensures
            res is Ok <==> absolute(path@),
            res matches Ok(dir) ==> dir@ == with_final_slash(path@) && is_dir_path(dir@),
            res matches Err(e) ==> e.path == path,
    {
        if path.len() == 0 || path[0] != SLASH {
            return Err(NotAbsolute { path });
        }
        let mut bytes: Vec<u8> = path;
        if bytes[bytes.len() - 1] != SLASH {
            bytes.push(SLASH);
        }
        Ok(AbsoluteDirPath { bytes })
    }

    /// The bytes of the path.
    pub fn as_bytes(&self) -> (res: &[u8])
        ensures
            res@ == self@,
            is_dir_path(self@),
    {
        proof {
            use_type_invariant(self);
        }
        self.bytes.as_slice()
    }
}

/// A directory path that was accepted is accepted again, unchanged.
pub proof fn dir_path_is_stable(s: Seq<u8>)
    requires
        absolute(s),
    ensures
        is_dir_path(with_final_slash(s)),
        with_final_slash(with_final_slash(s)) == with_final_slash(s),
{
}

/// Two spellings of a path are the same directory path only if they differ in
/// the separator at the end.
pub proof fn dir_path_keeps_path(s: Seq<u8>, t: Seq<u8>)
    requires
        absolute(s),
        absolute(t),
        with_final_slash(s) == with_final_slash(t),
    ensures
        s == t || s == t.push(SLASH) || t == s.push(SLASH),
{
    if s.last() != SLASH && t.last() != SLASH {
        assert(s =~= s.push(SLASH).drop_last());
        assert(t =~= t.push(SLASH).drop_last());
    }
}

/// The arguments of the command line.
pub struct Args {
    /// The file that holds the settings.
    pub config: std::path::PathBuf,
}

/// What an administrator sets.
#[derive(Debug)]
pub struct Setting {
    /// Where `clamd` listens.
    pub socket_path: Vec<u8>,
    /// The file that holds the process number of `clamd`.
    pub pid_path: Vec<u8>,
    /// How many scans may run at a time.
    pub max_connection: usize,
    /// The directories whose files are scanned.
    pub directories: Vec<AbsoluteDirPath>,
    /// The directories whose mounts are not watched for a directory above them.
    pub exclude_directories: Vec<AbsoluteDirPath>,
    /// Whether a file that cannot be scanned stays closed.
    pub deny_on_error: bool,
    /// Numbers of users. The list is kept, and no decision depends on it.
    pub exclude_uids: Vec<u32>,
}

/// Where `clamd` listens unless something else is set.
pub fn socket_path() -> (res: Vec<u8>)
    ensures
        res@ == ascii("/run/clamav/clamd.ctl"@),
{
    proof {
        reveal_strlit("/run/clamav/clamd.ctl");
    }
    ascii_bytes("/run/clamav/clamd.ctl")
}

/// The file with the process number of `clamd` unless something else is set.
pub fn pid_path() -> (res: Vec<u8>)
    ensures
        res@ == ascii("/run/clamav/clamd.pid"@),
{
    proof {
        reveal_strlit("/run/clamav/clamd.pid");
    }
    ascii_bytes("/run/clamav/clamd.pid")
}

/// How many scans may run at a time unless something else is set.
pub fn max_connection() -> (res: usize)
    ensures
        res == 20,
{
    20
}

/// What an administrator has written: a value is missing where nothing was set.
#[derive(Debug)]
pub struct RawSetting {
    /// Where `clamd` listens.
    pub socket_path: Option<Vec<u8>>,
    /// The file that holds the process number of `clamd`.
    pub pid_path: Option<Vec<u8>>,
    /// How many scans may run at a time.
    pub max_connection: Option<usize>,
    /// The directories whose files are scanned.
    pub directories: Vec<AbsoluteDirPath>,
    /// The directories whose mounts are not watched for a directory above them.
    pub exclude_directories: Option<Vec<AbsoluteDirPath>>,
    /// Whether a file that cannot be scanned stays closed.
    pub deny_on_error: Option<bool>,
    /// Numbers of users. The list is kept, and no decision depends on it.
    pub exclude_uids: Option<Vec<u32>>,
}

impl Setting {
    /// The settings, with the usual values where nothing was set: the usual
    /// paths of `clamd`, twenty scans at a time, nothing excluded, and files
    /// that cannot be scanned may be opened.
    pub fn from_raw(raw: RawSetting) -> (res: Setting)
        ensures
            match raw.socket_path {
                Some(path) => res.socket_path == path,
                None => res.socket_path@ == ascii("/run/clamav/clamd.ctl"@),
            },
            match raw.pid_path {
                Some(path) => res.pid_path == path,
                None => res.pid_path@ == ascii("/run/clamav/clamd.pid"@),
            },
            res.max_connection == (match raw.max_connection {
                Some(n) => n,
                None => 20,
            }),
            res.directories == raw.directories,
            match raw.exclude_directories {
                Some(dirs) => res.exclude_directories == dirs,
                None => res.exclude_directories@.len() == 0,
            },
            res.deny_on_error == (raw.deny_on_error == Some(true)),
            match raw.exclude_uids {
                Some(uids) => res.exclude_uids == uids,
                None => res.exclude_uids@.len() == 0,
            },
    {
        Setting {
            socket_path: match raw.socket_path {
                Some(path) => path,
                None => socket_path(),
            },
            pid_path: match raw.pid_path {
                Some(path) => path,
                None => pid_path(),
            },
            max_connection: match raw.max_connection {
                Some(n) => n,
                None => max_connection(),
            },
            directories: raw.directories,
            exclude_directories: match raw.exclude_directories {
                Some(dirs) => dirs,
                None => Vec::new(),
            },
            deny_on_error: match raw.deny_on_error {
                Some(deny) => deny,
                None => false,
            },
            exclude_uids: match raw.exclude_uids {
                Some(uids) => uids,
                None => Vec::new(),
            },
        }
    }
}

/// What the daemon runs with.
#[derive(Debug)]
pub struct Config {
    /// Numbers of users. The list is kept, and no decision depends on it.
    pub uids: Vec<u32>,
    /// The process number of the daemon itself.
    pub my_pid: u32,
    /// The process number of `clamd`, as it was last read.
    pub clamd_pid: u32,
    /// The directories whose files are scanned.
    pub dirs: Vec<AbsoluteDirPath>,
    /// The directories whose mounts are not watched for a directory above them.
    pub ex_dirs: Vec<AbsoluteDirPath>,
    /// The answer where a file could not be scanned.
    pub res_on_error: Response,
    /// How many scans may run at a time.
    pub max_connection: usize,
    /// Where `clamd` listens.
    pub socket_path: Vec<u8>,
}

/// The process number that the content of a pid file stands for.
pub open spec fn pid_in(content: Seq<char>) -> Result<u32, NumberError> {
    number(trimmed(content))
}

/// Reads the process number in the content of a pid file. White space may
/// follow it.
pub fn parse_pid(content: &str) -> (res: Result<u32, NumberError>)
    ensures
        res == pid_in(content@),
{
    parse_number(&trim_end(content))
}

/// The sentence that tells a user that a pid file, shown under this path, does
/// not hold a process number.
pub fn describe_pid_error(shown: &str, e: NumberError) -> (res: String)
    ensures
        res@ == "Failed to parse PID from '"@ + shown@ + "': "@ + number_error_text(e),
{
    let head: String = joined("Failed to parse PID from '", shown, "': ");
    let res: String = joined(head.as_str(), e.message().as_str(), "");
    proof {
        reveal_strlit("");
        assert(res@ =~= head@ + number_error_text(e));
    }
    res
}

/// White space behind a text does not matter.
proof fn lemma_trimmed_concat(s: Seq<char>, blank: Seq<char>)
    requires
        forall|i: int| 0 <= i < blank.len() ==> white_space(#[trigger] blank[i]),
    ensures
        trimmed(s + blank) == trimmed(s),
    decreases blank.len(),
{
    if blank.len() == 0 {
        assert(s + blank =~= s);
    } else {
        assert(white_space(blank[blank.len() - 1]));
        assert((s + blank).drop_last() =~= s + blank.drop_last());
        lemma_trimmed_concat(s, blank.drop_last());
    }
}

/// A process number that was written to a pid file in decimal notation, with
/// any white space behind it, is the one that is read back.
pub proof fn pid_round_trip(pid: u32, blank: Seq<char>)
    requires
        forall|i: int| 0 <= i < blank.len() ==> white_space(#[trigger] blank[i]),
    ensures
        pid_in(decimal(pid as nat) + blank) == Ok::<u32, NumberError>(pid),
{
    let digits = decimal(pid as nat);
    lemma_trimmed_concat(digits, blank);
    decimal_round_trip(pid as nat);
    assert(digit(digits[digits.len() - 1]));
}

/// The answer for files that cannot be scanned.
pub open spec fn answer_on_error(deny: bool) -> Response {
    if deny {
        Response::Deny
    } else {
        Response::Allow
    }
}

impl Setting {
    /// The configuration that follows from the settings, from the process
    /// number of the daemon and from the content of the pid file of `clamd`.
    pub fn into_config(self, my_pid: u32, pid_content: &str) -> (res: Result<Config, NumberError>)
        ensures
            match (res, pid_in(pid_content@)) {
                (Ok(cfg), Ok(clamd_pid)) => {
                    &&& cfg.uids == self.exclude_uids
                    &&& cfg.my_pid == my_pid
                    &&& cfg.clamd_pid == clamd_pid
                    &&& cfg.dirs == self.directories
                    &&& cfg.ex_dirs == self.exclude_directories
                    &&& cfg.res_on_error == answer_on_error(self.deny_on_error)
                    &&& cfg.max_connection == self.max_connection
                    &&& cfg.socket_path == self.socket_path
                },
                (Err(e), Err(expected)) => e == expected,
                _ => false,
            },
    {
        match parse_pid(pid_content) {
            Err(e) => Err(e),
            Ok(clamd_pid) => Ok(
                Config {
                    uids: self.exclude_uids,
                    my_pid,
                    clamd_pid,
                    dirs: self.directories,
                    ex_dirs: self.exclude_directories,
                    res_on_error: if self.deny_on_error {
                        Response::Deny
                    } else {
                        Response::Allow
                    },
                    max_connection: self.max_connection,
                    socket_path: self.socket_path,
                },
            ),
        }
    }
}

/// Tells whether a process is never held up: it is one of the given ones or it
/// is `clamd`.
pub fn is_exempt(pids: &[u32], clamd_pid: u32, pid: u32) -> (res: bool)
    ensures
        res == (pids@.contains(pid) || pid == clamd_pid),
{
    let mut i: usize = 0;
    while i < pids.len()
        invariant
            i <= pids@.len(),
            forall|k: int| 0 <= k < i ==> pids@[k] != pid,
        decreases pids@.len() - i,
    {
        if pids[i] == pid {
            return true;
        }
        i += 1;
    }
    pid == clamd_pid
}

impl Config {
    /// The processes, besides `clamd`, that are never held up.
    pub open spec fn own_pids(self) -> Seq<u32> {
        seq![self.my_pid]
    }

    /// Whether the requests of a process are allowed at once.
    pub open spec fn exempt(self, pid: u32) -> bool {
        self.own_pids().contains(pid) || pid == self.clamd_pid
    }

    /// The configuration once a pid file with this content was read: with the
    /// process number in it, or unchanged where it holds none.
    pub open spec fn with_pid_file(self, content: Seq<char>) -> Config {
        match pid_in(content) {
            Ok(pid) => (Config { clamd_pid: pid, ..self }),
            Err(_) => self,
        }
    }

    /// The processes, besides `clamd`, that are never held up: the daemon
    /// itself, which has to open files while others wait for it.
    pub fn pids(&self) -> (res: Vec<u32>)
        ensures
            res@ == self.own_pids(),
    {
        let res: Vec<u32> = vec![self.my_pid];
        assert(res@ =~= self.own_pids());
        res
    }

    /// Takes over the process number in the pid file of `clamd`, and tells
    /// whether the content was one. Any other content changes nothing.
    pub fn update_clamd_pid(&mut self, content: &str) -> (res: bool)
        ensures
            res == pid_in(content@) is Ok,
            *final(self) == old(self).with_pid_file(content@),
    {
        match parse_pid(content) {
            Ok(pid) => {
                self.clamd_pid = pid;
                true
            },
            Err(_) => false,
        }
    }
}

/// The daemon itself and the `clamd` whose number was read are exempt, and
/// nobody else.
pub proof fn daemon_and_clamd_are_exempt(cfg: Config)
    ensures
        cfg.exempt(cfg.my_pid),
        cfg.exempt(cfg.clamd_pid),
        forall|pid: u32| cfg.exempt(pid) ==> pid == cfg.my_pid || pid == cfg.clamd_pid,
{
    assert(cfg.own_pids()[0] == cfg.my_pid);
}

/// Once the process number of `clamd` was written to its pid file and read, the
/// process is exempt; whether the daemon itself is exempt does not change.
pub proof fn written_pid_becomes_exempt(cfg: Config, pid: u32, blank: Seq<char>)
    requires
        forall|i: int| 0 <= i < blank.len() ==> white_space(#[trigger] blank[i]),
    ensures
        cfg.with_pid_file(decimal(pid as nat) + blank).clamd_pid == pid,
        cfg.with_pid_file(decimal(pid as nat) + blank).exempt(pid),
        cfg.with_pid_file(decimal(pid as nat) + blank).exempt(cfg.my_pid),
{
    pid_round_trip(pid, blank);
    daemon_and_clamd_are_exempt(Config { clamd_pid: pid, ..cfg });
}

/// An accepted path is the path that was given, with a separator behind it if it
/// did not end with one, and it leads to the same place.
pub proof fn dir_path_is_the_path_and_a_separator(s: Seq<u8>)
    ensures
        is_dir_path(s) <==> s.len() > 0 && s[0] == SLASH && s[s.len() - 1] == SLASH,
        s.is_prefix_of(with_final_slash(s)),
        with_final_slash(s).last() == SLASH,
        s.len() > 0 && s[s.len() - 1] == SLASH ==> with_final_slash(s).len() == s.len(),
        !(s.len() > 0 && s[s.len() - 1] == SLASH) ==> with_final_slash(s).len() == s.len() + 1,
        s.len() > 0 ==> components(with_final_slash(s)) == components(s),
{
    assert(with_final_slash(s).subrange(0, s.len() as int) =~= s);
    if s.len() > 0 {
        separators_at_the_end_do_not_matter(s);
    }
}

/// White space behind the number in a pid file does not matter, and nothing else
/// is left out of the file.
pub proof fn pid_file_is_read_up_to_white_space(text: Seq<char>, blank: Seq<char>)
    requires
        text.len() == 0 || !white_space(text.last()),
        forall|i: int| 0 <= i < blank.len() ==> white_space(#[trigger] blank[i]),
    ensures
        pid_in(text + blank) == number(text),
{
    lemma_trimmed_concat(text, blank);
}

/// A pid file with digits changes the process number of `clamd` to what they
/// stand for, if that is no more than 32 bits hold. Any other content changes
/// nothing, and the rest of the configuration stays as it is.
pub proof fn pid_file_changes_the_number_alone(cfg: Config, digits: Seq<char>, blank: Seq<char>)
    requires
        digits.len() > 0,
        forall|i: int| 0 <= i < digits.len() ==> digit(#[trigger] digits[i]),
        forall|i: int| 0 <= i < blank.len() ==> white_space(#[trigger] blank[i]),
    ensures
        value(digits) <= u32::MAX ==> cfg.with_pid_file(digits + blank) == (Config {
            clamd_pid: value(digits) as u32,
            ..cfg
        }),
        value(digits) > u32::MAX ==> cfg.with_pid_file(digits + blank) == cfg,
        cfg.with_pid_file(blank) == cfg,
{
    assert(digit(digits[digits.len() - 1]));
    pid_file_is_read_up_to_white_space(digits, blank);
    digits_are_numbers(false, digits);
    let nothing = Seq::<char>::empty();
    pid_file_is_read_up_to_white_space(nothing, blank);
    assert(nothing + blank =~= blank);
}

/// A pid file in which something else than digits follows the first digits holds
/// no process number.
pub proof fn faulty_pid_file_changes_nothing(
    cfg: Config,
    digits: Seq<char>,
    c: char,
    rest: Seq<char>,
    blank: Seq<char>,
)
    requires
        forall|i: int| 0 <= i < digits.len() ==> digit(#[trigger] digits[i]),
        !digit(c),
        digits.len() == 0 ==> c != '+',
        !white_space((digits.push(c) + rest).last()),
        forall|i: int| 0 <= i < blank.len() ==> white_space(#[trigger] blank[i]),
    ensures
        cfg.with_pid_file(digits.push(c) + rest + blank) == cfg,
{
    pid_file_is_read_up_to_white_space(digits.push(c) + rest, blank);
    first_fault_decides(false, digits, c, rest);
}

/// Files that cannot be scanned stay closed exactly if that is what was set.
pub proof fn answer_on_error_is_what_was_set(deny: bool)
    ensures
        answer_on_error(deny) == Response::Deny <==> deny,
        answer_on_error(deny) == Response::Allow <==> !deny,
{
}

} // verus!
