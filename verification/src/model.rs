//! Mathematical model of the frame parser.
//!
//! The wire format is: a command line ended by `\n` (a bare `\n` is a
//! heartbeat), zero or more `name:value` header lines, a blank line, and a
//! body that is either exactly `content-length` bytes followed by a `0x00`
//! sentinel, or all bytes up to the first `0x00` sentinel.
//!
//! `step` is the single-call semantics of the parser: starting from a parse
//! state and the buffered bytes, it either emits one transmission, fails on
//! a protocol violation, or reports that more bytes are needed, in every
//! case saying what the state and the buffer become.
use vstd::prelude::*;
use vstd::string::StringSliceAdditionalSpecFns;
use vstd::utf8::*;

verus! {

/// Line terminator for command and header lines.
pub const NEWLINE: u8 = 10;

/// Carriage return, stripped from line ends together with `NEWLINE`.
pub const CARRIAGE: u8 = 13;

/// Sentinel byte that terminates every frame body.
pub const NULL_OCTET: u8 = 0;

/// Separator between a header's name and its value.
pub const COLON: u8 = 58;

/// The phase the parser is in: which part of a frame it expects next.
#[derive(Clone, Copy, PartialEq, Eq, Structural, Debug)]
pub enum FrameSection {
    Command,
    Headers,
    Body,
}

/// A protocol violation found in the byte stream. Recoverable: the caller
/// decides whether to resynchronize or tear the connection down.
#[derive(Clone, Copy, PartialEq, Eq, Structural, Debug)]
pub enum FrameError {
    /// A command or header line was not valid UTF-8.
    InvalidUtf8,
    /// A header line had no `:` separator.
    MalformedHeader,
}

/// Model of one header: the bytes of its name and of its value.
#[verifier::ext_equal]
pub struct HeaderV {
    pub key: Seq<u8>,
    pub value: Seq<u8>,
}

/// Model of a complete frame.
#[verifier::ext_equal]
pub struct FrameV {
    pub command: Seq<u8>,
    pub headers: Seq<HeaderV>,
    pub body: Seq<u8>,
}

/// Model of one parsed transmission: a heartbeat or a complete frame.
#[verifier::ext_equal]
pub enum TransView {
    HeartBeat,
    CompleteFrame(FrameV),
}

/// Model of the parser's resumable state.
#[verifier::ext_equal]
pub struct StateV {
    pub section: FrameSection,
    pub command: Option<Seq<u8>>,
    pub headers: Seq<HeaderV>,
}

/// What one call of the parser does: each variant carries the state and the
/// unconsumed bytes left behind by the call.
#[verifier::ext_equal]
pub enum StepOutcome {
    /// Not enough bytes for the next transmission; progress is retained.
    Incomplete { state: StateV, rest: Seq<u8> },
    /// One transmission was produced.
    Emit { out: TransView, state: StateV, rest: Seq<u8> },
    /// A protocol violation; the offending line is already consumed.
    Fail { err: FrameError, state: StateV, rest: Seq<u8> },
}

/// The state of a parser with no frame in progress.
pub open spec fn init_state() -> StateV {
    StateV { section: FrameSection::Command, command: None, headers: Seq::empty() }
}

/// A state the parser can actually be in: a stored command exists exactly
/// when a frame is in progress.
pub open spec fn state_wf(s: StateV) -> bool {
    match s.section {
        FrameSection::Command => s.command is None && s.headers.len() == 0,
        FrameSection::Headers => s.command is Some,
        FrameSection::Body => s.command is Some,
    }
}

/// Index of the first occurrence of `b` in `s`, if any.
pub open spec fn find_byte(s: Seq<u8>, b: u8) -> Option<int>
    decreases s.len(),
{
    if s.len() == 0 {
        None
    } else if s[0] == b {
        Some(0int)
    } else {
        match find_byte(s.skip(1), b) {
            Some(i) => Some(i + 1),
            None => None,
        }
    }
}

/// `s` without its trailing run of carriage-return and line-feed bytes.
pub open spec fn chomp(s: Seq<u8>) -> Seq<u8>
    decreases s.len(),
{
    if s.len() > 0 && (s.last() == NEWLINE || s.last() == CARRIAGE) {
        chomp(s.drop_last())
    } else {
        s
    }
}

/// The bytes of the header name under which a body length is declared.
pub open spec fn content_length_key() -> Seq<u8> {
    "content-length".spec_bytes()
}

/// Splitting a chomped header line at its first `:` into name and value.
pub open spec fn decode_header_bytes(line: Seq<u8>) -> Result<HeaderV, FrameError> {
    match find_byte(line, COLON) {
        None => Err(FrameError::MalformedHeader),
        Some(i) => if valid_utf8(line.take(i)) && valid_utf8(line.skip(i + 1)) {
            Ok(HeaderV { key: line.take(i), value: line.skip(i + 1) })
        } else {
            Err(FrameError::InvalidUtf8)
        },
    }
}

/// Whether every byte of `s` is a decimal digit (and there is at least one).
pub open spec fn is_dec_digits(s: Seq<u8>) -> bool {
    s.len() > 0 && forall|k: int| 0 <= k < s.len() ==> 48 <= #[trigger] s[k] <= 57
}

/// The number written in decimal by the digit bytes of `s`.
pub open spec fn dec_val(s: Seq<u8>) -> int
    decreases s.len(),
{
    if s.len() == 0 {
        0
    } else {
        dec_val(s.drop_last()) * 10 + s.last() - 48
    }
}

/// The value of a content-length header: the digits of `s` read as a `u32`,
/// or nothing where `s` is not such a number.
pub open spec fn parse_dec_u32(s: Seq<u8>) -> Option<u32> {
    if is_dec_digits(s) && dec_val(s) <= u32::MAX {
        Some(dec_val(s) as u32)
    } else {
        None
    }
}

/// The declared body length: the parsed value of the first header named
/// `content-length`, if there is such a header and its value parses.
pub open spec fn content_length_of(hdrs: Seq<HeaderV>) -> Option<u32>
    decreases hdrs.len(),
{
    if hdrs.len() == 0 {
        None
    } else if hdrs[0].key == content_length_key() {
        parse_dec_u32(hdrs[0].value)
    } else {
        content_length_of(hdrs.skip(1))
    }
}

/// The body the buffered bytes hold, and what follows it, if it is all
/// there: `n` bytes plus a sentinel under a content-length of `n`, else
/// everything before the first sentinel byte.
pub open spec fn take_body(hdrs: Seq<HeaderV>, buf: Seq<u8>) -> Option<(Seq<u8>, Seq<u8>)> {
    match content_length_of(hdrs) {
        Some(n) => if buf.len() >= n + 1 {
            Some((buf.take(n as int), buf.skip(n + 1)))
        } else {
            None
        },
        None => match find_byte(buf, NULL_OCTET) {
            Some(i) => Some((buf.take(i), buf.skip(i + 1))),
            None => None,
        },
    }
}

/// One parser call starting in the body phase.
pub open spec fn step_body(cmd: Seq<u8>, hdrs: Seq<HeaderV>, buf: Seq<u8>) -> StepOutcome {
    match take_body(hdrs, buf) {
        Some(parts) => StepOutcome::Emit {
            out: TransView::CompleteFrame(
                FrameV { command: cmd, headers: hdrs, body: parts.0 },
            ),
            state: init_state(),
            rest: parts.1,
        },
        None => StepOutcome::Incomplete {
            state: StateV { section: FrameSection::Body, command: Some(cmd), headers: hdrs },
            rest: buf,
        },
    }
}

/// One parser call starting in the headers phase: header lines are consumed
/// until the blank line, a missing line, or a violation stops the call.
pub open spec fn step_headers(cmd: Seq<u8>, hdrs: Seq<HeaderV>, buf: Seq<u8>) -> StepOutcome
    decreases buf.len(),
    via step_headers_decreases
{
    match find_byte(buf, NEWLINE) {
        None => StepOutcome::Incomplete {
            state: StateV { section: FrameSection::Headers, command: Some(cmd), headers: hdrs },
            rest: buf,
        },
        Some(i) => {
            let line = chomp(buf.take(i + 1));
            let rest = buf.skip(i + 1);
            if line.len() == 0 {
                step_body(cmd, hdrs, rest)
            } else {
                match decode_header_bytes(line) {
                    Ok(h) => step_headers(cmd, hdrs.push(h), rest),
                    Err(e) => StepOutcome::Fail {
                        err: e,
                        state: StateV {
                            section: FrameSection::Headers,
                            command: Some(cmd),
                            headers: hdrs,
                        },
                        rest,
                    },
                }
            }
        },
    }
}

#[via_fn]
proof fn step_headers_decreases(cmd: Seq<u8>, hdrs: Seq<HeaderV>, buf: Seq<u8>) {
    lemma_find_byte(buf, NEWLINE);
}

/// One parser call starting in the command phase.
pub open spec fn step_command(buf: Seq<u8>) -> StepOutcome
    decreases buf.len(),
    via step_command_decreases
{
    match find_byte(buf, NEWLINE) {
        None => StepOutcome::Incomplete { state: init_state(), rest: buf },
        Some(i) => {
            let line = chomp(buf.take(i + 1));
            let rest = buf.skip(i + 1);
            if line.len() == 0 {
                StepOutcome::Emit { out: TransView::HeartBeat, state: init_state(), rest }
            } else if valid_utf8(line) {
                step_headers(line, Seq::empty(), rest)
            } else {
                StepOutcome::Fail { err: FrameError::InvalidUtf8, state: init_state(), rest }
            }
        },
    }
}

#[via_fn]
proof fn step_command_decreases(buf: Seq<u8>) {
    lemma_find_byte(buf, NEWLINE);
}

/// One parser call from an arbitrary state.
pub open spec fn step(s: StateV, buf: Seq<u8>) -> StepOutcome {
    match s.section {
        FrameSection::Command => step_command(buf),
        FrameSection::Headers => step_headers(s.command.unwrap(), s.headers, buf),
        FrameSection::Body => step_body(s.command.unwrap(), s.headers, buf),
    }
}

/// `find_byte` finds the first occurrence: the byte is there, and no
/// earlier position holds it; where it finds nothing, no position does.
pub proof fn lemma_find_byte(s: Seq<u8>, b: u8)
    ensures
        match find_byte(s, b) {
            Some(i) => 0 <= i < s.len() && s[i] == b && forall|k: int|
                0 <= k < i ==> #[trigger] s[k] != b,
            None => forall|k: int| 0 <= k < s.len() ==> #[trigger] s[k] != b,
        },
    decreases s.len(),
{
    if s.len() == 0 {
    } else if s[0] == b {
    } else {
        lemma_find_byte(s.skip(1), b);
        match find_byte(s.skip(1), b) {
            Some(j) => {
                assert(s[j + 1] == s.skip(1)[j]);
                assert forall|k: int| 0 <= k < j + 1 implies #[trigger] s[k] != b by {
                    if k > 0 {
                        assert(s[k] == s.skip(1)[k - 1]);
                    }
                }
            },
            None => {
                assert forall|k: int| 0 <= k < s.len() implies #[trigger] s[k] != b by {
                    if k > 0 {
                        assert(s[k] == s.skip(1)[k - 1]);
                    }
                }
            },
        }
    }
}

/// What repeatedly calling the parser yields: the emitted transmissions in
/// order, the state and bytes left when it stops, and the violation that
/// stopped it, if one did.
#[verifier::ext_equal]
pub struct DrainResult {
    pub outs: Seq<TransView>,
    pub state: StateV,
    pub rest: Seq<u8>,
    pub err: Option<FrameError>,
}

/// Stepping the parser until it wants more bytes or fails.
pub open spec fn drain(s: StateV, buf: Seq<u8>) -> DrainResult
    decreases buf.len(),
    via drain_decreases
{
    match step(s, buf) {
        StepOutcome::Incomplete { state, rest } => DrainResult {
            outs: Seq::empty(),
            state,
            rest,
            err: None,
        },
        StepOutcome::Fail { err, state, rest } => DrainResult {
            outs: Seq::empty(),
            state,
            rest,
            err: Some(err),
        },
        StepOutcome::Emit { out, state, rest } => {
            let d = drain(state, rest);
            DrainResult { outs: seq![out] + d.outs, state: d.state, rest: d.rest, err: d.err }
        },
    }
}

#[via_fn]
proof fn drain_decreases(s: StateV, buf: Seq<u8>) {
    lemma_step_consumes(s, buf);
}

/// A sequence of digit bytes denotes a non-negative number.
proof fn lemma_dec_val_nonneg(s: Seq<u8>)
    requires
        forall|k: int| 0 <= k < s.len() ==> #[trigger] s[k] >= 48,
    ensures
        dec_val(s) >= 0,
    decreases s.len(),
{
    if s.len() > 0 {
        assert forall|k: int| 0 <= k < s.drop_last().len() implies #[trigger] s.drop_last()[k]
            >= 48 by {
            assert(s.drop_last()[k] == s[k]);
        }
        lemma_dec_val_nonneg(s.drop_last());
    }
}

/// Reading one more digit multiplies the value so far by ten and adds it.
pub proof fn lemma_dec_val_take_succ(s: Seq<u8>, i: int)
    requires
        0 <= i < s.len(),
    ensures
        dec_val(s.take(i + 1)) == dec_val(s.take(i)) * 10 + s[i] - 48,
{
    assert(s.take(i + 1).drop_last() =~= s.take(i));
    assert(s.take(i + 1).last() == s[i]);
}

/// A prefix of a digit string never denotes more than the whole string.
pub proof fn lemma_dec_val_mono(s: Seq<u8>, j: int)
    requires
        0 <= j <= s.len(),
        forall|k: int| 0 <= k < s.len() ==> #[trigger] s[k] >= 48,
    ensures
        dec_val(s) >= dec_val(s.take(j)),
    decreases s.len() - j,
{
    if j == s.len() {
        assert(s.take(j) =~= s);
    } else {
        lemma_dec_val_take_succ(s, j);
        assert forall|k: int| 0 <= k < s.take(j).len() implies #[trigger] s.take(j)[k] >= 48 by {
            assert(s.take(j)[k] == s[k]);
        }
        lemma_dec_val_nonneg(s.take(j));
        lemma_dec_val_mono(s, j + 1);
    }
}

proof fn lemma_take_extend(a: Seq<u8>, ext: Seq<u8>, k: int)
    requires
        0 <= k <= a.len(),
    ensures
        (a + ext).take(k) == a.take(k),
{
    assert((a + ext).take(k) =~= a.take(k));
}

proof fn lemma_skip_extend(a: Seq<u8>, ext: Seq<u8>, k: int)
    requires
        0 <= k <= a.len(),
    ensures
        (a + ext).skip(k) == a.skip(k) + ext,
{
    assert((a + ext).skip(k) =~= a.skip(k) + ext);
}

/// A byte found in `a` is found at the same place however `a` is extended.
proof fn lemma_find_byte_extend(a: Seq<u8>, ext: Seq<u8>, b: u8)
    ensures
        find_byte(a, b) matches Some(i) ==> find_byte(a + ext, b) == Some(i),
{
    lemma_find_byte(a, b);
    lemma_find_byte(a + ext, b);
    match find_byte(a, b) {
        Some(i) => {
            assert((a + ext)[i] == a[i]);
            match find_byte(a + ext, b) {
                Some(j) => {
                    if j < i {
                        assert(a[j] == (a + ext)[j]);
                    }
                    assert(j == i);
                },
                None => {
                    assert(false);
                },
            }
        },
        None => {},
    }
}

proof fn lemma_step_body_consumes(cmd: Seq<u8>, hdrs: Seq<HeaderV>, buf: Seq<u8>)
    ensures
        match step_body(cmd, hdrs, buf) {
            StepOutcome::Emit { out, state, rest } => rest.len() < buf.len(),
            StepOutcome::Fail { err, state, rest } => rest.len() < buf.len(),
            StepOutcome::Incomplete { state, rest } => rest.len() <= buf.len(),
        },
{
    match content_length_of(hdrs) {
        Some(n) => {},
        None => {
            lemma_find_byte(buf, NULL_OCTET);
        },
    }
}

proof fn lemma_step_headers_consumes(cmd: Seq<u8>, hdrs: Seq<HeaderV>, buf: Seq<u8>)
    ensures
        match step_headers(cmd, hdrs, buf) {
            StepOutcome::Emit { out, state, rest } => rest.len() < buf.len(),
            StepOutcome::Fail { err, state, rest } => rest.len() < buf.len(),
            StepOutcome::Incomplete { state, rest } => rest.len() <= buf.len(),
        },
    decreases buf.len(),
{
    lemma_find_byte(buf, NEWLINE);
    match find_byte(buf, NEWLINE) {
        None => {},
        Some(i) => {
            let line = chomp(buf.take(i + 1));
            let rest = buf.skip(i + 1);
            if line.len() == 0 {
                lemma_step_body_consumes(cmd, hdrs, rest);
            } else {
                match decode_header_bytes(line) {
                    Ok(h) => {
                        lemma_step_headers_consumes(cmd, hdrs.push(h), rest);
                    },
                    Err(e) => {},
                }
            }
        },
    }
}

/// Emitting a transmission, or consuming an offending line, shortens the
/// buffer; an incomplete call never grows it.
pub proof fn lemma_step_consumes(s: StateV, buf: Seq<u8>)
    ensures
        match step(s, buf) {
            StepOutcome::Emit { out, state, rest } => rest.len() < buf.len(),
            StepOutcome::Fail { err, state, rest } => rest.len() < buf.len(),
            StepOutcome::Incomplete { state, rest } => rest.len() <= buf.len(),
        },
{
    match s.section {
        FrameSection::Command => {
            lemma_find_byte(buf, NEWLINE);
            match find_byte(buf, NEWLINE) {
                None => {},
                Some(i) => {
                    let line = chomp(buf.take(i + 1));
                    if line.len() == 0 {
                    } else if valid_utf8(line) {
                        lemma_step_headers_consumes(line, Seq::empty(), buf.skip(i + 1));
                    } else {
                    }
                },
            }
        },
        FrameSection::Headers => {
            lemma_step_headers_consumes(s.command.unwrap(), s.headers, buf);
        },
        FrameSection::Body => {
            lemma_step_body_consumes(s.command.unwrap(), s.headers, buf);
        },
    }
}

proof fn lemma_step_body_extend(cmd: Seq<u8>, hdrs: Seq<HeaderV>, buf: Seq<u8>, ext: Seq<u8>)
    ensures
        match step_body(cmd, hdrs, buf) {
            StepOutcome::Emit { out, state, rest } => step_body(cmd, hdrs, buf + ext)
                == (StepOutcome::Emit { out, state, rest: rest + ext }),
            _ => true,
        },
{
    match content_length_of(hdrs) {
        Some(n) => {
            if buf.len() >= n + 1 {
                lemma_take_extend(buf, ext, n as int);
                lemma_skip_extend(buf, ext, n + 1);
            }
        },
        None => {
            lemma_find_byte(buf, NULL_OCTET);
            match find_byte(buf, NULL_OCTET) {
                Some(i) => {
                    lemma_find_byte_extend(buf, ext, NULL_OCTET);
                    lemma_take_extend(buf, ext, i);
                    lemma_skip_extend(buf, ext, i + 1);
                },
                None => {},
            }
        },
    }
}

proof fn lemma_step_headers_extend(cmd: Seq<u8>, hdrs: Seq<HeaderV>, buf: Seq<u8>, ext: Seq<u8>)
    ensures
        match step_headers(cmd, hdrs, buf) {
            StepOutcome::Emit { out, state, rest } => step_headers(cmd, hdrs, buf + ext)
                == (StepOutcome::Emit { out, state, rest: rest + ext }),
            StepOutcome::Fail { err, state, rest } => step_headers(cmd, hdrs, buf + ext)
                == (StepOutcome::Fail { err, state, rest: rest + ext }),
            StepOutcome::Incomplete { .. } => true,
        },
    decreases buf.len(),
{
    lemma_find_byte(buf, NEWLINE);
    match find_byte(buf, NEWLINE) {
        None => {},
        Some(i) => {
            lemma_find_byte_extend(buf, ext, NEWLINE);
            lemma_take_extend(buf, ext, i + 1);
            lemma_skip_extend(buf, ext, i + 1);
            let line = chomp(buf.take(i + 1));
            let rest = buf.skip(i + 1);
            if line.len() == 0 {
                lemma_step_body_extend(cmd, hdrs, rest, ext);
            } else {
                match decode_header_bytes(line) {
                    Ok(h) => {
                        lemma_step_headers_extend(cmd, hdrs.push(h), rest, ext);
                    },
                    Err(e) => {},
                }
            }
        },
    }
}

/// Whatever one call consumes and emits, it consumes and emits just the
/// same when the buffer already holds more bytes after it.
pub proof fn lemma_step_extend(s: StateV, buf: Seq<u8>, ext: Seq<u8>)
    ensures
        match step(s, buf) {
            StepOutcome::Emit { out, state, rest } => step(s, buf + ext) == (StepOutcome::Emit {
                out,
                state,
                rest: rest + ext,
            }),
            StepOutcome::Fail { err, state, rest } => step(s, buf + ext) == (StepOutcome::Fail {
                err,
                state,
                rest: rest + ext,
            }),
            StepOutcome::Incomplete { .. } => true,
        },
{
    match s.section {
        FrameSection::Command => {
            lemma_find_byte(buf, NEWLINE);
            match find_byte(buf, NEWLINE) {
                None => {},
                Some(i) => {
                    lemma_find_byte_extend(buf, ext, NEWLINE);
                    lemma_take_extend(buf, ext, i + 1);
                    lemma_skip_extend(buf, ext, i + 1);
                    let line = chomp(buf.take(i + 1));
                    let rest = buf.skip(i + 1);
                    if line.len() == 0 {
                    } else if valid_utf8(line) {
                        lemma_step_headers_extend(line, Seq::empty(), rest, ext);
                    } else {
                    }
                },
            }
        },
        FrameSection::Headers => {
            lemma_step_headers_extend(s.command.unwrap(), s.headers, buf, ext);
        },
        FrameSection::Body => {
            lemma_step_body_extend(s.command.unwrap(), s.headers, buf, ext);
        },
    }
}

proof fn lemma_step_body_resume(cmd: Seq<u8>, hdrs: Seq<HeaderV>, buf: Seq<u8>, ext: Seq<u8>)
    ensures
        match step_body(cmd, hdrs, buf) {
            StepOutcome::Incomplete { state, rest } => step(state, rest + ext) == step_body(
                cmd,
                hdrs,
                buf + ext,
            ),
            _ => true,
        },
{
}

proof fn lemma_step_headers_resume(cmd: Seq<u8>, hdrs: Seq<HeaderV>, buf: Seq<u8>, ext: Seq<u8>)
    ensures
        match step_headers(cmd, hdrs, buf) {
            StepOutcome::Incomplete { state, rest } => step(state, rest + ext) == step_headers(
                cmd,
                hdrs,
                buf + ext,
            ),
            _ => true,
        },
    decreases buf.len(),
{
    lemma_find_byte(buf, NEWLINE);
    match find_byte(buf, NEWLINE) {
        None => {},
        Some(i) => {
            lemma_find_byte_extend(buf, ext, NEWLINE);
            lemma_take_extend(buf, ext, i + 1);
            lemma_skip_extend(buf, ext, i + 1);
            let line = chomp(buf.take(i + 1));
            let rest = buf.skip(i + 1);
            if line.len() == 0 {
                lemma_step_body_resume(cmd, hdrs, rest, ext);
            } else {
                match decode_header_bytes(line) {
                    Ok(h) => {
                        lemma_step_headers_resume(cmd, hdrs.push(h), rest, ext);
                    },
                    Err(e) => {},
                }
            }
        },
    }
}

/// Where one call stops for want of bytes, calling again on the retained
/// state and bytes plus anything newly arrived is the same as having had
/// the new bytes from the start: no progress is lost and nothing is
/// re-parsed.
pub proof fn lemma_step_resume(s: StateV, buf: Seq<u8>, ext: Seq<u8>)
    ensures
        match step(s, buf) {
            StepOutcome::Incomplete { state, rest } => step(state, rest + ext) == step(
                s,
                buf + ext,
            ),
            _ => true,
        },
{
    match s.section {
        FrameSection::Command => {
            lemma_find_byte(buf, NEWLINE);
            match find_byte(buf, NEWLINE) {
                None => {},
                Some(i) => {
                    lemma_find_byte_extend(buf, ext, NEWLINE);
                    lemma_take_extend(buf, ext, i + 1);
                    lemma_skip_extend(buf, ext, i + 1);
                    let line = chomp(buf.take(i + 1));
                    let rest = buf.skip(i + 1);
                    if line.len() == 0 {
                    } else if valid_utf8(line) {
                        lemma_step_headers_resume(line, Seq::empty(), rest, ext);
                    } else {
                    }
                },
            }
        },
        FrameSection::Headers => {
            lemma_step_headers_resume(s.command.unwrap(), s.headers, buf, ext);
        },
        FrameSection::Body => {
            lemma_step_body_resume(s.command.unwrap(), s.headers, buf, ext);
        },
    }
}

/// An incomplete read is idempotent: called again with nothing newly
/// appended, the parser again reports incomplete and changes nothing.
pub proof fn lemma_incomplete_read_idempotent(s: StateV, buf: Seq<u8>)
    ensures
        match step(s, buf) {
            StepOutcome::Incomplete { state, rest } => step(state, rest) == step(s, buf),
            _ => true,
        },
{
    lemma_step_resume(s, buf, Seq::empty());
    match step(s, buf) {
        StepOutcome::Incomplete { state, rest } => {
            assert(rest + Seq::<u8>::empty() =~= rest);
            assert(buf + Seq::<u8>::empty() =~= buf);
        },
        _ => {},
    }
}

proof fn lemma_step_headers_emit_reset(cmd: Seq<u8>, hdrs: Seq<HeaderV>, buf: Seq<u8>)
    ensures
        match step_headers(cmd, hdrs, buf) {
            StepOutcome::Emit { out, state, rest } => state == init_state(),
            _ => true,
        },
    decreases buf.len(),
{
    lemma_find_byte(buf, NEWLINE);
    match find_byte(buf, NEWLINE) {
        None => {},
        Some(i) => {
            let line = chomp(buf.take(i + 1));
            let rest = buf.skip(i + 1);
            if line.len() == 0 {
            } else {
                match decode_header_bytes(line) {
                    Ok(h) => {
                        lemma_step_headers_emit_reset(cmd, hdrs.push(h), rest);
                    },
                    Err(e) => {},
                }
            }
        },
    }
}

/// After any emission, heartbeat or complete frame, the parser is back in
/// the command phase with no stored command and no accumulated headers.
pub proof fn lemma_emission_resets_state(s: StateV, buf: Seq<u8>)
    ensures
        match step(s, buf) {
            StepOutcome::Emit { out, state, rest } => state == init_state(),
            _ => true,
        },
{
    match s.section {
        FrameSection::Command => {
            lemma_find_byte(buf, NEWLINE);
            match find_byte(buf, NEWLINE) {
                None => {},
                Some(i) => {
                    let line = chomp(buf.take(i + 1));
                    if line.len() == 0 {
                    } else if valid_utf8(line) {
                        lemma_step_headers_emit_reset(line, Seq::empty(), buf.skip(i + 1));
                    } else {
                    }
                },
            }
        },
        FrameSection::Headers => {
            lemma_step_headers_emit_reset(s.command.unwrap(), s.headers, buf);
        },
        FrameSection::Body => {},
    }
}

proof fn lemma_drain_congruence(s1: StateV, b1: Seq<u8>, s2: StateV, b2: Seq<u8>)
    requires
        step(s1, b1) == step(s2, b2),
    ensures
        drain(s1, b1) == drain(s2, b2),
{
    match step(s1, b1) {
        StepOutcome::Incomplete { state, rest } => {
            assert(drain(s1, b1) == drain(s2, b2));
        },
        StepOutcome::Fail { err, state, rest } => {
            assert(drain(s1, b1) == drain(s2, b2));
        },
        StepOutcome::Emit { out, state, rest } => {
            assert(drain(s1, b1) == drain(s2, b2));
        },
    }
}

/// Reassembly is independent of chunking: the transmissions drained from
/// `first` and then, after `more` arrives, from what the parser retained,
/// are exactly those drained when `first + more` is present from the
/// start, and the parser ends in the same state either way.
pub proof fn lemma_reassembly_independence(s: StateV, first: Seq<u8>, more: Seq<u8>)
    requires
        drain(s, first).err is None,
    ensures
        ({
            let d1 = drain(s, first);
            let d2 = drain(d1.state, d1.rest + more);
            let d = drain(s, first + more);
            d.outs == d1.outs + d2.outs && d.state == d2.state && d.rest == d2.rest && d.err
                == d2.err
        }),
    decreases first.len(),
{
    lemma_step_consumes(s, first);
    match step(s, first) {
        StepOutcome::Incomplete { state, rest } => {
            lemma_step_resume(s, first, more);
            lemma_drain_congruence(state, rest + more, s, first + more);
            assert(Seq::<TransView>::empty() + drain(state, rest + more).outs =~= drain(
                state,
                rest + more,
            ).outs);
        },
        StepOutcome::Fail { err, state, rest } => {
            assert(false);
        },
        StepOutcome::Emit { out, state, rest } => {
            lemma_step_extend(s, first, more);
            lemma_reassembly_independence(state, rest, more);
            let d1i = drain(state, rest);
            let d2i = drain(d1i.state, d1i.rest + more);
            assert(seq![out] + (d1i.outs + d2i.outs) =~= (seq![out] + d1i.outs) + d2i.outs);
        },
    }
}

} // verus!

