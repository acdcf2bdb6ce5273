//! The bounds on the subprocesses `trantor test` runs: the deadline a run
//! gets, the grace a process group gets between SIGTERM and SIGKILL, how
//! much of an output is kept, and how a run that did not succeed is told.
use vstd::prelude::*;

use crate::text::{chars_of, decimal_wide, dec, extend, str_debug, string_of, trim, trimmed};

verus! {

/// Seconds a suite, build or run may take unless `TRANTOR_TEST_TIMEOUT`
/// says otherwise.
pub const DEFAULT_TIMEOUT_SECS: u64 = 900;

/// A week: past this the value is a mistake, not a limit.
pub const MAX_TIMEOUT_SECS: u64 = 604800;

/// The most of a command's stdout or stderr kept: the end of it.
pub const OUTPUT_CAP: u64 = 16777216;

/// The deadline `TRANTOR_TEST_TIMEOUT` sets, given its value when it is
/// set: whole seconds from 1 to a week, surrounding whitespace allowed.
pub open spec fn timeout_spec(v: Option<Seq<char>>) -> Result<int, Seq<char>> {
    match v {
        None => Ok(DEFAULT_TIMEOUT_SECS as int),
        Some(s) => match crate::symbols::parse_u64_spec(trim(s)) {
            Some(n) if 1 <= n <= MAX_TIMEOUT_SECS => Ok(n),
            _ => Err(
                "TRANTOR_TEST_TIMEOUT="@ + str_debug(s) + ": expected whole seconds from 1 to 604800"@,
            ),
        },
    }
}

pub fn timeout_from(v: Option<String>) -> (r: Result<u64, String>)
    ensures
        match r {
            Ok(n) => timeout_spec(match v {
                Some(s) => Some(s@),
                None => None,
            }) == Ok::<int, Seq<char>>(n as int),
            Err(e) => timeout_spec(match v {
                Some(s) => Some(s@),
                None => None,
            }) == Err::<int, Seq<char>>(e@),
        },
{
    match v {
        None => Ok(DEFAULT_TIMEOUT_SECS),
        Some(s) => {
            match crate::symbols::parse_u64(&trimmed(&chars_of(s.as_str()))) {
                Some(n) => {
                    if 1 <= n && n <= MAX_TIMEOUT_SECS {
                        return Ok(n);
                    }
                },
                None => {},
            }
            let mut m = chars_of("TRANTOR_TEST_TIMEOUT=");
            extend(&mut m, &chars_of(crate::text::debug_str(s.as_str()).as_str()));
            extend(&mut m, &chars_of(": expected whole seconds from 1 to 604800"));
            Err(string_of(&m))
        },
    }
}

/// How deep in nested `trantor test` runs this process is, from
/// `TRANTOR_TEST_DEPTH`: its value as a `u32`, or 0.
pub open spec fn depth_spec(v: Option<Seq<char>>) -> int {
    match v {
        Some(s) => match crate::text::parse_usize_spec(s) {
            Some(n) if n <= u32::MAX => n,
            _ => 0,
        },
        None => 0,
    }
}

pub fn depth_from(v: Option<String>) -> (d: u32)
    ensures
        d as int == depth_spec(match v {
            Some(s) => Some(s@),
            None => None,
        }),
{
    match v {
        Some(s) => match crate::text::parse_usize(&chars_of(s.as_str())) {
            Some(n) => if n <= u32::MAX as usize {
                n as u32
            } else {
                0
            },
            None => 0,
        },
        None => 0,
    }
}

/// The seconds a group at nesting `depth` has between SIGTERM and SIGKILL:
/// ten at the top, three fewer at each level, never under one, so an
/// inner run ends its own groups before its parent kills it.
pub open spec fn grace_spec(depth: int) -> int {
    if 10 - 3 * depth >= 1 {
        10 - 3 * depth
    } else {
        1
    }
}

pub fn grace_secs(depth: u32) -> (s: u64)
    ensures
        s as int == grace_spec(depth as int),
{
    if depth <= 3 {
        let s: u64 = 10 - 3 * depth as u64;
        if s >= 1 {
            s
        } else {
            1
        }
    } else {
        1
    }
}

/// How many bytes of an output of `len` bytes are left out.
pub fn skipped_bytes(len: u64) -> (s: u64)
    ensures
        s as int == if len > OUTPUT_CAP { len - OUTPUT_CAP } else { 0 },
{
    if len > OUTPUT_CAP {
        len - OUTPUT_CAP
    } else {
        0
    }
}

/// The kept end of an output, noting what was left out.
pub open spec fn tail_spec(skipped: int, path: Seq<char>, text: Seq<char>) -> Seq<char> {
    if skipped == 0 {
        text
    } else {
        "[the first "@ + dec(skipped as nat) + " bytes of "@ + path + " are omitted]\n"@ + text
    }
}

pub fn tail_text(skipped: u64, path: &str, text: &str) -> (out: String)
    ensures
        out@ == tail_spec(skipped as int, path@, text@),
{
    if skipped == 0 {
        return string_of(&chars_of(text));
    }
    let mut o = chars_of("[the first ");
    extend(&mut o, &decimal_wide(skipped as u128));
    extend(&mut o, &chars_of(" bytes of "));
    extend(&mut o, &chars_of(path));
    extend(&mut o, &chars_of(" are omitted]\n"));
    extend(&mut o, &chars_of(text));
    string_of(&o)
}

/// How a run ended: its exit status (whether it succeeded, and how it
/// reads), when it exited; what it printed; and the deadline it was killed
/// at, when it was.
pub struct Ran {
    pub status: Option<(bool, String)>,
    pub stdout: String,
    pub stderr: String,
    pub timed_out_after: Option<u64>,
}

impl Ran {
    pub open spec fn succeeded(&self) -> bool {
        self.timed_out_after is None && match self.status {
            Some((ok, _)) => ok,
            None => false,
        }
    }

    pub fn ok(&self) -> (r: bool)
        ensures
            r == self.succeeded(),
    {
        self.timed_out_after.is_none() && match &self.status {
            Some((ok, _)) => *ok,
            None => false,
        }
    }

    pub open spec fn failure_spec(&self, what: Seq<char>) -> Seq<char> {
        let why = match self.timed_out_after {
            Some(secs) => what + ": killed after "@ + dec(secs as nat) + " s (TRANTOR_TEST_TIMEOUT)"@,
            None => match self.status {
                Some((_, shown)) => what + ": exited "@ + shown@,
                None => what + ": did not exit"@,
            },
        };
        why + "\n"@ + self.stdout@ + self.stderr@
    }

    /// Why it did not succeed, with everything it printed.
    pub fn failure(&self, what: &str) -> (out: String)
        ensures
            out@ == self.failure_spec(what@),
    {
        let mut o = chars_of(what);
        match self.timed_out_after {
            Some(secs) => {
                extend(&mut o, &chars_of(": killed after "));
                extend(&mut o, &decimal_wide(secs as u128));
                extend(&mut o, &chars_of(" s (TRANTOR_TEST_TIMEOUT)"));
            },
            None => match &self.status {
                Some((_, shown)) => {
                    extend(&mut o, &chars_of(": exited "));
                    extend(&mut o, &chars_of(shown.as_str()));
                },
                None => {
                    extend(&mut o, &chars_of(": did not exit"));
                },
            },
        }
        extend(&mut o, &chars_of("\n"));
        extend(&mut o, &chars_of(self.stdout.as_str()));
        extend(&mut o, &chars_of(self.stderr.as_str()));
        string_of(&o)
    }
}

/// What the run loop does next: the command exited; or the deadline is
/// past, so its group is ended; or it waits a poll interval.
pub enum Step {
    Exited,
    Kill,
    Wait,
}

pub fn next_step(exited: bool, past_deadline: bool) -> (s: Step)
    ensures
        exited ==> s is Exited,
        !exited && past_deadline ==> s is Kill,
        !exited && !past_deadline ==> s is Wait,
{
    if exited {
        Step::Exited
    } else if past_deadline {
        Step::Kill
    } else {
        Step::Wait
    }
}

/// A nested run has less grace than its parent, until both are at the
/// floor of one second: an inner `trantor test` ends its own groups before
/// its parent kills it.
pub proof fn lemma_nested_grace(parent: nat, child: nat)
    requires
        parent < child,
    ensures
        grace_spec(child as int) <= grace_spec(parent as int),
        grace_spec(parent as int) > 1 ==> grace_spec(child as int) < grace_spec(parent as int),
        grace_spec(child as int) >= 1,
{
}

} // verus!
