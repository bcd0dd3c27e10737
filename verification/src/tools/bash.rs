//! The bash tool's own logic: its limits, how captured output is cut to
//! the cap, and the report the model sees.
use vstd::prelude::*;

use core::time::Duration;

use crate::det_seam::clock::{duration_millis, duration_nanos, whole_millis};
use crate::act::tag::ToolTag;
use crate::act::tool::unbounded_tag;
use crate::text::{decimal, push_decimal, push_str, string_of};

verus! {

/// The default time limit of a command, in seconds.
pub const DEFAULT_TIMEOUT_SECS: u64 = 120;
/// The default cap on captured output, per stream, in bytes.
pub const DEFAULT_CAP: usize = 65536;

/// `Duration::from_secs`: a duration of exactly `secs` seconds.
#[verifier::external_body]
fn secs_duration(secs: u64) -> (r: Duration)
    ensures
        duration_nanos(r) == secs * 1_000_000_000,
{
    Duration::from_secs(secs)
}

/// Runs a shell command under a time limit, capturing each stream up to
/// a cap.
pub struct Bash {
    pub timeout: Duration,
    pub cap: usize,
}

impl Default for Bash {
    fn default() -> (r: Self)
        ensures
            duration_nanos(r.timeout) == DEFAULT_TIMEOUT_SECS * 1_000_000_000,
            r.cap == DEFAULT_CAP,
    {
        Bash { timeout: secs_duration(DEFAULT_TIMEOUT_SECS), cap: DEFAULT_CAP }
    }
}

impl Bash {
    pub fn with_timeout(timeout: Duration) -> (r: Self)
        ensures
            r.timeout == timeout,
            r.cap == DEFAULT_CAP,
    {
        Bash { timeout, cap: DEFAULT_CAP }
    }

    /// The tag a bash act runs under: any file, asking first.
    pub fn tag_seed(&self) -> (r: Option<ToolTag>)
        ensures
            r == Some(unbounded_tag()),
    {
        Some(ToolTag::unbounded())
    }

    /// Whole seconds of the time limit.
    pub fn timeout_secs(&self) -> (r: u64)
        ensures
            r == (duration_millis(self.timeout) / 1000) as u64,
    {
        let ms = whole_millis(self.timeout);
        let secs = ms / 1000;
        secs as u64
    }
}

/// The text `String::from_utf8_lossy` makes of bytes: invalid sequences
/// become U+FFFD.
pub uninterp spec fn utf8_lossy(bytes: Seq<u8>) -> Seq<char>;

/// `String::from_utf8_lossy`: the bytes as text; valid UTF-8 is decoded
/// as it is.
#[verifier::external_body]
fn lossy(bytes: &[u8]) -> (r: String)
    ensures
        r@ == utf8_lossy(bytes@),
        vstd::utf8::valid_utf8(bytes@) ==> r@ == vstd::utf8::decode_utf8(bytes@),
{
    String::from_utf8_lossy(bytes).into_owned()
}

/// Bytes as text: decoded as they are where they are valid UTF-8, else
/// with invalid sequences replaced as `from_utf8_lossy` does.
pub open spec fn text_of_bytes(b: Seq<u8>) -> Seq<char> {
    if vstd::utf8::valid_utf8(b) { vstd::utf8::decode_utf8(b) } else { utf8_lossy(b) }
}

/// Captured output cut to `cap` bytes, as text, and whether it was cut.
pub fn cap_bytes(buf: &[u8], cap: usize) -> (r: (String, bool))
    ensures
        buf@.len() <= cap ==> r.0@ == text_of_bytes(buf@) && !r.1,
        buf@.len() > cap ==> r.0@ == text_of_bytes(buf@.subrange(0, cap as int)) && r.1,
{
    if buf.len() <= cap {
        (lossy(buf), false)
    } else {
        let (head, _) = buf.split_at(cap);
        (lossy(head), true)
    }
}

/// Decimal text of a signed number.
pub open spec fn signed_decimal(n: i32) -> Seq<char> {
    if n < 0 { "-"@ + decimal((-n) as nat) } else { decimal(n as nat) }
}

/// What finished command output reports, in order: the exit code when
/// it failed (-1 when killed by a signal), its stdout, a stdout cut
/// notice, its stderr under a heading, a stderr cut notice; the parts
/// that apply, one per line.
pub open spec fn report_parts(success: bool, code: Option<i32>, out: Seq<char>, out_cut: bool, err: Seq<char>, err_cut: bool) -> Seq<Seq<char>> {
    (if !success { seq!["exit "@ + signed_decimal(match code { Some(c) => c, None => -1i32 })] } else { Seq::empty() })
        + (if out.len() > 0 { seq![out] } else { Seq::empty() })
        + (if out_cut { seq!["[stdout truncated]"@] } else { Seq::empty() })
        + (if err.len() > 0 { seq!["[stderr]\n"@ + err] } else { Seq::empty() })
        + (if err_cut { seq!["[stderr truncated]"@] } else { Seq::empty() })
}

/// Parts joined by newlines.
pub open spec fn join_lines(parts: Seq<Seq<char>>) -> Seq<char>
    decreases parts.len(),
{
    if parts.len() == 0 {
        Seq::empty()
    } else if parts.len() == 1 {
        parts[0]
    } else {
        join_lines(parts.drop_last()) + "\n"@ + parts.last()
    }
}

fn push_part(out: &mut Vec<char>, first: &mut bool, part: &str, parts: Ghost<Seq<Seq<char>>>)
    requires
        old(out)@ == join_lines(parts@),
        *old(first) == (parts@.len() == 0),
    ensures
        final(out)@ == join_lines(parts@.push(part@)),
        !*final(first),
{
    if !*first {
        push_str(out, "\n");
    }
    push_str(out, part);
    *first = false;
    assert(parts@.push(part@).drop_last() =~= parts@);
}

/// The report of a finished command.
pub fn report(success: bool, code: Option<i32>, stdout: &[u8], stderr: &[u8], cap: usize) -> (r: String)
    ensures
        ({
            let out = if stdout@.len() <= cap { text_of_bytes(stdout@) } else { text_of_bytes(stdout@.subrange(0, cap as int)) };
            let err = if stderr@.len() <= cap { text_of_bytes(stderr@) } else { text_of_bytes(stderr@.subrange(0, cap as int)) };
            r@ == join_lines(report_parts(success, code, out, stdout@.len() > cap, err, stderr@.len() > cap))
        }),
{
    let (out_s, out_t) = cap_bytes(stdout, cap);
    let (err_s, err_t) = cap_bytes(stderr, cap);
    let mut out: Vec<char> = Vec::new();
    let mut first = true;
    let ghost mut parts: Seq<Seq<char>> = Seq::empty();
    if !success {
        let c: i32 = match code { Some(c) => c, None => -1 };
        let mut line: Vec<char> = Vec::new();
        push_str(&mut line, "exit ");
        if c < 0 {
            line.push('-');
            let m: u64 = (0i64 - (c as i64)) as u64;
            push_decimal(m, &mut line);
            assert(line@ =~= "exit "@ + signed_decimal(c)) by { reveal_strlit("-"); }
        } else {
            push_decimal(c as u64, &mut line);
            assert(line@ =~= "exit "@ + signed_decimal(c));
        }
        let s = string_of(line.as_slice());
        push_part(&mut out, &mut first, s.as_str(), Ghost(parts));
        proof { parts = parts.push(s@); }
    }
    if !out_s.as_str().is_empty() {
        push_part(&mut out, &mut first, out_s.as_str(), Ghost(parts));
        proof { parts = parts.push(out_s@); }
    }
    if out_t {
        push_part(&mut out, &mut first, "[stdout truncated]", Ghost(parts));
        proof { parts = parts.push("[stdout truncated]"@); }
    }
    if !err_s.as_str().is_empty() {
        let mut line: Vec<char> = Vec::new();
        push_str(&mut line, "[stderr]\n");
        push_str(&mut line, err_s.as_str());
        let s = string_of(line.as_slice());
        push_part(&mut out, &mut first, s.as_str(), Ghost(parts));
        proof { parts = parts.push(s@); }
    }
    if err_t {
        push_part(&mut out, &mut first, "[stderr truncated]", Ghost(parts));
        proof { parts = parts.push("[stderr truncated]"@); }
    }
    assert(parts =~= report_parts(success, code, out_s@, out_t, err_s@, err_t));
    string_of(out.as_slice())
}

/// The report of a command that ran out of time.
pub fn timed_out(secs: u64) -> (r: String)
    ensures
        r@ == "timed out after "@ + decimal(secs as nat) + "s; process killed"@,
{
    let mut out: Vec<char> = Vec::new();
    push_str(&mut out, "timed out after ");
    push_decimal(secs, &mut out);
    push_str(&mut out, "s; process killed");
    string_of(out.as_slice())
}

/// The command a call names: required and not empty.
pub fn command_of(command: Option<&str>) -> (r: Result<&str, String>)
    ensures
        match command {
            Some(c) if c@.len() > 0 => r == Ok::<&str, String>(c),
            _ => (r matches Err(e) && e@ == "command is required"@),
        },
{
    match command {
        Some(c) => if c.is_empty() { Err("command is required".to_owned()) } else { Ok(c) },
        None => Err("command is required".to_owned()),
    }
}

} // verus!
