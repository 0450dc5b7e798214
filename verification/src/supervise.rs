//! Services: what is remembered about a started process, and the readiness rule.
//!
//! Spawning, signalling and probing happen in the application; this module holds the
//! decisions they feed.

use vstd::prelude::*;
use crate::text::{owned, push_text, decimal_chars, decimal, digit_char, string_of, chars_of, slice_chars};
use crate::instance::{tail, tail_of};

verus! {

/// A started service: its process group leader, and when it started.
#[derive(Debug, Clone, Copy, PartialEq, Eq, Structural)]
pub struct Handle {
    pub pid: u32,
    /// Unix seconds at spawn. Recorded rather than read back from `ps`, whose output
    /// format differs between macOS and Linux and would need parsing on both.
    pub started_at: u64,
}

/// Written to a service's log at each spawn, so `logs --since-restart` can find where
/// this run began amid the replayed build output.
pub const START_MARKER: &'static str = "=== grove: service started ===";

/// Why a service did not become ready. Two variants because they call for different
/// reactions: a timeout means wait longer or read the log, an exit means the port was
/// never this service's to answer on.
#[derive(Debug)]
pub enum NotReady {
    Exited { url: String },
    TimedOut { url: String, after_ms: u64 },
}

/// The fraction of a second in milliseconds, as up to three digits with trailing
/// zeros dropped.
pub open spec fn fraction_digits(f: nat) -> Seq<char> {
    let a = f / 100;
    let b = (f / 10) % 10;
    let c = f % 10;
    if c != 0 {
        seq![digit_char(a), digit_char(b), digit_char(c)]
    } else if b != 0 {
        seq![digit_char(a), digit_char(b)]
    } else {
        seq![digit_char(a)]
    }
}

/// A span of milliseconds as `Duration`'s `Debug` writes it: whole seconds with the
/// fraction's trailing zeros dropped (`1.5s`, `30s`), milliseconds under a second, and
/// nothing at all as `0ns`.
pub open spec fn millis_text(ms: nat) -> Seq<char> {
    if ms == 0 {
        seq!['0', 'n', 's']
    } else if ms < 1000 {
        decimal(ms) + seq!['m', 's']
    } else if ms % 1000 == 0 {
        decimal(ms / 1000) + seq!['s']
    } else {
        decimal(ms / 1000) + seq!['.'] + fraction_digits(ms % 1000) + seq!['s']
    }
}

fn digit(d: u64) -> (c: char)
    requires
        d < 10,
    ensures
        c == digit_char(d as nat),
{
    if d == 0 { '0' } else if d == 1 { '1' } else if d == 2 { '2' } else if d == 3 { '3' }
    else if d == 4 { '4' } else if d == 5 { '5' } else if d == 6 { '6' } else if d == 7 { '7' }
    else if d == 8 { '8' } else { '9' }
}

pub fn millis_debug(ms: u64) -> (s: String)
    ensures
        s@ == millis_text(ms as nat),
{
    let mut v = decimal_chars(if ms < 1000 { ms } else { ms / 1000 });
    if ms == 0 {
        v.push('n');
        v.push('s');
    } else if ms < 1000 {
        v.push('m');
        v.push('s');
    } else {
        let f = ms % 1000;
        if f != 0 {
            v.push('.');
            v.push(digit(f / 100));
            if f % 10 != 0 {
                v.push(digit((f / 10) % 10));
                v.push(digit(f % 10));
            } else if (f / 10) % 10 != 0 {
                v.push(digit((f / 10) % 10));
            }
        }
        v.push('s');
    }
    assert(v@ =~= millis_text(ms as nat));
    string_of(&v)
}

impl NotReady {
    pub open spec fn message_of(&self) -> Seq<char> {
        match self {
            NotReady::Exited { url } => "the process exited before "@ + url@ + " answered"@,
            NotReady::TimedOut { url, after_ms } => url@ + " never answered within "@ + millis_text(*after_ms as nat),
        }
    }

    /// What to tell the person waiting.
    pub fn message(&self) -> (m: String)
        ensures
            m@ == self.message_of(),
    {
        match self {
            NotReady::Exited { url } => {
                let mut m = owned("the process exited before ");
                push_text(&mut m, url.as_str());
                push_text(&mut m, " answered");
                m
            },
            NotReady::TimedOut { url, after_ms } => {
                let mut m = url.clone();
                push_text(&mut m, " never answered within ");
                let d = millis_debug(*after_ms);
                push_text(&mut m, d.as_str());
                m
            },
        }
    }
}

/// What to do after one readiness poll.
#[derive(Debug)]
pub enum ReadyStep {
    /// The URL answered.
    Ready,
    /// Give up, for this reason.
    Failed(NotReady),
    /// Sleep a moment and poll again.
    Wait,
}

/// One round of waiting for a service.
///
/// An answer counts first. Then the process: once it has exited, an answer on the port
/// belongs to someone else — a neighbour racing for the same block — and reporting it
/// as readiness would hand every later request to that someone. Only then the clock.
pub fn ready_step(answered: bool, alive: bool, past_deadline: bool, url: &str, timeout_ms: u64) -> (s: ReadyStep)
    ensures
        answered ==> s is Ready,
        !answered && !alive ==> (s matches ReadyStep::Failed(NotReady::Exited { url: u }) && u@ == url@),
        !answered && alive && past_deadline ==> (s matches ReadyStep::Failed(NotReady::TimedOut { url: u, after_ms })
            && u@ == url@ && after_ms == timeout_ms),
        !answered && alive && !past_deadline ==> s is Wait,
{
    if answered {
        ReadyStep::Ready
    } else if !alive {
        ReadyStep::Failed(NotReady::Exited { url: owned(url) })
    } else if past_deadline {
        ReadyStep::Failed(NotReady::TimedOut { url: owned(url), after_ms: timeout_ms })
    } else {
        ReadyStep::Wait
    }
}

/// `pat` occurs in `t` at `i`.
pub open spec fn occurs_at(t: Seq<char>, pat: Seq<char>, i: int) -> bool {
    0 <= i && i + pat.len() <= t.len() && t.subrange(i, i + pat.len()) == pat
}

/// Where `pat` last occurs in `t` (`str::rfind`).
pub open spec fn last_occurrence(t: Seq<char>, pat: Seq<char>) -> Option<int> {
    if exists|i: int| occurs_at(t, pat, i) {
        Some(choose|i: int| occurs_at(t, pat, i) && forall|j: int| j > i ==> !occurs_at(t, pat, j))
    } else {
        None
    }
}

/// What `logs` shows of a service's log: with `since_restart`, only what followed
/// the last start marker — the build log is replayed first otherwise, so the head of
/// `logs` shows dependency resolution rather than the service booting — and with
/// `lines`, only that many last lines, each ended by a newline.
pub open spec fn log_view(body: Seq<char>, since_restart: bool, lines: Option<usize>) -> Seq<char> {
    let b = if since_restart {
        match last_occurrence(body, START_MARKER@) {
            Some(at) => body.subrange(at, body.len() as int),
            None => body,
        }
    } else {
        body
    };
    match lines {
        Some(n) => tail_of(b, n as nat) + seq!['\n'],
        None => b,
    }
}

fn rfind(t: &Vec<char>, pat: &Vec<char>) -> (r: Option<usize>)
    ensures
        match r {
            Some(i) => last_occurrence(t@, pat@) == Some(i as int) && i + pat.len() <= t.len(),
            None => last_occurrence(t@, pat@) is None,
        },
{
    if pat.len() > t.len() {
        assert(forall|i: int| !occurs_at(t@, pat@, i));
        return None;
    }
    let mut at: usize = t.len() - pat.len();
    loop
        invariant
            at + pat.len() <= t.len(),
            forall|j: int| j > at ==> !occurs_at(t@, pat@, j),
        decreases at,
    {
        let mut k: usize = 0;
        while k < pat.len() && t[at + k] == pat[k]
            invariant
                k <= pat.len(),
                at + pat.len() <= t.len(),
                forall|q: int| 0 <= q < k ==> t@[at + q] == pat@[q],
            decreases pat.len() - k,
        {
            k += 1;
        }
        if k == pat.len() {
            assert(t@.subrange(at as int, at + pat.len()) =~= pat@);
            assert(occurs_at(t@, pat@, at as int));
            let ghost c = choose|c: int| occurs_at(t@, pat@, c) && forall|j: int| j > c ==> !occurs_at(t@, pat@, j);
            assert(c == at as int) by {
                if c < at as int { assert(!occurs_at(t@, pat@, at as int)); }
                if c > at as int { assert(!occurs_at(t@, pat@, c)); }
            }
            return Some(at);
        }
        assert(t@.subrange(at as int, at + pat.len())[k as int] != pat@[k as int]);
        assert(!occurs_at(t@, pat@, at as int));
        if at == 0 {
            assert(forall|j: int| !occurs_at(t@, pat@, j));
            return None;
        }
        at -= 1;
    }
}

/// The part of a service's log `logs` prints.
pub fn log_text(body: &str, since_restart: bool, lines: Option<usize>) -> (r: String)
    ensures
        r@ == log_view(body@, since_restart, lines),
{
    let t = chars_of(body);
    let b: String = if since_restart {
        let marker = chars_of(START_MARKER);
        match rfind(&t, &marker) {
            Some(at) => string_of(&slice_chars(&t, at, t.len())),
            None => owned(body),
        }
    } else {
        owned(body)
    };
    match lines {
        Some(n) => {
            let mut r = tail(b.as_str(), n);
            push_text(&mut r, "\n");
            proof { reveal_strlit("\n"); }
            r
        },
        None => b,
    }
}

/// Where a pattern occurs at all, it has a last occurrence.
proof fn lemma_last_exists(t: Seq<char>, pat: Seq<char>, i: int)
    requires
        occurs_at(t, pat, i),
    ensures
        exists|j: int| occurs_at(t, pat, j) && forall|k: int| k > j ==> !occurs_at(t, pat, k),
    decreases t.len() - i,
{
    if exists|k: int| k > i && occurs_at(t, pat, k) {
        let k = choose|k: int| k > i && occurs_at(t, pat, k);
        lemma_last_exists(t, pat, k);
    } else {
        assert(occurs_at(t, pat, i) && forall|k: int| k > i ==> !occurs_at(t, pat, k));
    }
}

/// `--since-restart` shows a suffix of the whole log: what followed the last start.
pub proof fn law_since_restart_is_a_suffix(body: Seq<char>)
    ensures
        ({
            let since = log_view(body, true, None);
            since.len() <= body.len() && body.subrange(body.len() - since.len(), body.len() as int) == since
        }),
{
    let since = log_view(body, true, None);
    let m = START_MARKER@;
    match last_occurrence(body, m) {
        Some(at) => {
            let i = choose|i: int| occurs_at(body, m, i);
            lemma_last_exists(body, m, i);
            assert(occurs_at(body, m, at));
            assert(body.subrange(body.len() - since.len(), body.len() as int) =~= since);
        },
        None => {
            assert(body.subrange(0, body.len() as int) =~= body);
        },
    }
}

} // verus!
