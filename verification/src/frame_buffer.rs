//! The incremental frame parser: a byte queue plus a resumable three-phase
//! state machine (command, headers, body).
//!
//! Every public operation is specified against the model in [`crate::model`]:
//! one call of [`FrameBuffer::read_transmission`] behaves exactly as
//! [`step`] says, starting from the buffer's current state and bytes.
use vstd::prelude::*;
use vstd::slice::slice_index_get;
use std::ops::Index;
use vstd::string::StringSliceAdditionalSpecFns;
use vstd::utf8::*;

use crate::frame::Frame;
use crate::frame::Transmission;
use crate::header::Header;
use crate::header::HeaderCodec;
use crate::header::HeaderList;
use crate::model::CARRIAGE;
use crate::model::FrameError;
use crate::model::FrameSection;
use crate::model::HeaderV;
use crate::model::NEWLINE;
use crate::model::NULL_OCTET;
use crate::model::StateV;
use crate::model::StepOutcome;
use crate::model::chomp;
use crate::model::decode_header_bytes;
use crate::model::find_byte;
use crate::model::init_state;
use crate::model::lemma_find_byte;
use crate::model::state_wf;
use crate::model::step;
use crate::model::step_body;
use crate::model::step_command;
use crate::model::step_headers;
use crate::model::take_body;
use crate::pool::StringPool;
use crate::pool::utf8_from;

verus! {

/// Warm entries kept in the command-string pool.
const DEFAULT_STRING_POOL_SIZE: usize = 4;

/// Most released strings the command-string pool retains.
const DEFAULT_STRING_POOL_MAX_SIZE: usize = 32;

/// Warm entries kept in the header codec's pool.
const DEFAULT_HEADER_CODEC_STRING_POOL_SIZE: usize = 16;

/// Most released strings the header codec's pool retains.
const DEFAULT_HEADER_CODEC_STRING_POOL_MAX_SIZE: usize = 64;

/// The in-progress reconstruction of one transmission.
struct ParseState {
    command: Option<String>,
    headers: HeaderList,
    section: FrameSection,
}

impl ParseState {
    fn new() -> (r: ParseState)
        ensures
            r.command is None,
            r.headers@ == Seq::<HeaderV>::empty(),
            r.section == FrameSection::Command,
    {
        ParseState { command: None, headers: HeaderList::new(), section: FrameSection::Command }
    }
}

/// What one attempt to read the command line found.
enum ReadCommandResult {
    HeartBeat,
    Command(String),
    Incomplete,
}

/// What one attempt to read a header line found.
enum ReadHeaderResult {
    Header(Header),
    EndOfHeaders,
    Incomplete,
}

/// One connection's receive buffer and resumable parser.
pub struct FrameBuffer {
    buffer: std::collections::VecDeque<u8>,
    parse_state: ParseState,
    string_pool: StringPool,
    header_codec: HeaderCodec,
}

impl FrameBuffer {
    /// The unconsumed buffered bytes.
    pub closed spec fn bytes(&self) -> Seq<u8> {
        self.buffer@
    }

    /// The parser's state, as the model sees it.
    pub closed spec fn state_view(&self) -> StateV {
        StateV {
            section: self.parse_state.section,
            command: match self.parse_state.command {
                Some(c) => Some(encode_utf8(c@)),
                None => None,
            },
            headers: self.parse_state.headers@,
        }
    }

    /// The buffer's invariant: its state is one the model allows.
    pub open spec fn wf(&self) -> bool {
        state_wf(self.state_view())
    }

    /// A buffer with the default initial capacity.
    pub fn new() -> (r: FrameBuffer)
        ensures
            r.wf(),
            r.bytes() == Seq::<u8>::empty(),
            r.state_view() == init_state(),
    {
        FrameBuffer::with_capacity(1024 * 64)
    }

    /// A buffer whose byte queue starts with room for `capacity` bytes.
    pub fn with_capacity(capacity: usize) -> (r: FrameBuffer)
        ensures
            r.wf(),
            r.bytes() == Seq::<u8>::empty(),
            r.state_view() == init_state(),
    {
        let r = FrameBuffer {
            buffer: std::collections::VecDeque::with_capacity(capacity),
            parse_state: ParseState::new(),
            string_pool: StringPool::with_size_and_max(
                DEFAULT_STRING_POOL_SIZE,
                DEFAULT_STRING_POOL_MAX_SIZE,
            ),
            header_codec: HeaderCodec::with_pool_size_and_max(
                DEFAULT_HEADER_CODEC_STRING_POOL_SIZE,
                DEFAULT_HEADER_CODEC_STRING_POOL_MAX_SIZE,
            ),
        };
        proof {
            assert(r.state_view() =~= init_state());
        }
        r
    }

    /// How many unconsumed bytes are buffered.
    pub fn len(&self) -> (n: usize)
        ensures
            n == self.bytes().len(),
    {
        self.buffer.len()
    }

    /// Discards all buffered bytes and all in-progress parse state.
    pub fn reset(&mut self)
        ensures
            final(self).wf(),
            final(self).bytes() == Seq::<u8>::empty(),
            final(self).state_view() == init_state(),
    {
        self.buffer.clear();
        self.reset_parse_state();
    }

    /// Enqueues `bytes` at the tail of the byte queue.
    pub fn append(&mut self, bytes: &[u8])
        ensures
            final(self).bytes() == old(self).bytes() + bytes@,
            final(self).state_view() == old(self).state_view(),
            old(self).wf() ==> final(self).wf(),
    {
        let n = bytes.len();
        let mut i: usize = 0;
        while i < n
            invariant
                0 <= i <= n,
                n == bytes@.len(),
                self.buffer@ == old(self).buffer@ + bytes@.take(i as int),
                self.parse_state == old(self).parse_state,
            decreases n - i,
        {
            let b = *slice_index_get(bytes, i);
            self.buffer.push_back(b);
            proof {
                assert((old(self).buffer@ + bytes@.take(i as int)).push(bytes@[i as int]) =~= old(self).buffer@ + bytes@.take(i as int + 1));
            }
            i = i + 1;
        }
        proof {
            assert(bytes@.take(n as int) =~= bytes@);
        }
    }

    /// Attempts to produce the next transmission from the buffered bytes.
    ///
    /// Behaves exactly as one [`step`] of the model: `Ok(None)` where the
    /// model says the input is incomplete, `Ok(Some(t))` where it emits `t`,
    /// and `Err(e)` on the protocol violation `e`; the buffer's bytes and
    /// state afterwards are those of the model's outcome.
    pub fn read_transmission(&mut self) -> (r: Result<Option<Transmission>, FrameError>)
        requires
            old(self).wf(),
        ensures
            final(self).wf(),
            match step(old(self).state_view(), old(self).bytes()) {
                StepOutcome::Incomplete { state, rest } => r matches Ok(t) && t is None && final(self).state_view() == state && final(self).bytes() == rest,
                StepOutcome::Emit { out, state, rest } => r matches Ok(t) && (t matches Some(tr)
                    && tr@ == out) && final(self).state_view() == state && final(self).bytes()
                    == rest,
                StepOutcome::Fail { err, state, rest } => r matches Err(e) && e == err && final(self).state_view() == state && final(self).bytes() == rest,
            },
    {
        match self.parse_state.section {
            FrameSection::Command => self.resume_parsing_at_command(),
            FrameSection::Headers => self.resume_parsing_at_headers(),
            FrameSection::Body => self.resume_parsing_at_body(),
        }
    }

    /// Returns an emitted frame's string storage to the pools for reuse.
    pub fn recycle_frame(&mut self, frame: Frame)
        ensures
            final(self).bytes() == old(self).bytes(),
            final(self).state_view() == old(self).state_view(),
            old(self).wf() ==> final(self).wf(),
    {
        let Frame { command, mut headers, .. } = frame;
        self.string_pool.attach(command);
        while headers.len() > 0
            invariant
                self == old(self),
            decreases headers@.len(),
        {
            match headers.pop() {
                Some(h) => self.header_codec.recycle(h),
                None => (),
            }
        }
    }

    fn resume_parsing_at_command(&mut self) -> (r: Result<Option<Transmission>, FrameError>)
        requires
            old(self).wf(),
            old(self).state_view().section == FrameSection::Command,
        ensures
            final(self).wf(),
            match step_command(old(self).bytes()) {
                StepOutcome::Incomplete { state, rest } => r matches Ok(t) && t is None && final(self).state_view() == state && final(self).bytes() == rest,
                StepOutcome::Emit { out, state, rest } => r matches Ok(t) && (t matches Some(tr)
                    && tr@ == out) && final(self).state_view() == state && final(self).bytes()
                    == rest,
                StepOutcome::Fail { err, state, rest } => r matches Err(e) && e == err && final(self).state_view() == state && final(self).bytes() == rest,
            },
    {
        match self.read_command() {
            Ok(ReadCommandResult::HeartBeat) => {
                proof {
                    assert(self.state_view() =~= init_state());
                }
                Ok(Some(Transmission::HeartBeat))
            },
            Ok(ReadCommandResult::Command(command_string)) => {
                self.parse_state.command = Some(command_string);
                self.parse_state.section = FrameSection::Headers;
                proof {
                    assert(self.state_view().headers =~= Seq::<HeaderV>::empty());
                }
                self.resume_parsing_at_headers()
            },
            Ok(ReadCommandResult::Incomplete) => {
                proof {
                    assert(self.state_view() =~= init_state());
                }
                Ok(None)
            },
            Err(e) => {
                proof {
                    assert(self.state_view() =~= init_state());
                }
                Err(e)
            },
        }
    }

    fn resume_parsing_at_headers(&mut self) -> (r: Result<Option<Transmission>, FrameError>)
        requires
            old(self).wf(),
            old(self).state_view().section == FrameSection::Headers,
        ensures
            final(self).wf(),
            match step_headers(
                old(self).state_view().command.unwrap(),
                old(self).state_view().headers,
                old(self).bytes(),
            ) {
                StepOutcome::Incomplete { state, rest } => r matches Ok(t) && t is None && final(self).state_view() == state && final(self).bytes() == rest,
                StepOutcome::Emit { out, state, rest } => r matches Ok(t) && (t matches Some(tr)
                    && tr@ == out) && final(self).state_view() == state && final(self).bytes()
                    == rest,
                StepOutcome::Fail { err, state, rest } => r matches Err(e) && e == err && final(self).state_view() == state && final(self).bytes() == rest,
            },
    {
        loop
            invariant
                self.wf(),
                self.parse_state.section == FrameSection::Headers,
                step_headers(
                    old(self).state_view().command.unwrap(),
                    old(self).state_view().headers,
                    old(self).bytes(),
                ) == step_headers(
                    self.state_view().command.unwrap(),
                    self.state_view().headers,
                    self.bytes(),
                ),
            decreases self.buffer@.len(),
        {
            let ghost pre_cmd = self.state_view().command.unwrap();
            let ghost pre_hdrs = self.state_view().headers;
            let ghost pre_bytes = self.bytes();
            match self.read_header() {
                Ok(ReadHeaderResult::Header(header)) => {
                    self.parse_state.headers.push(header);
                    proof {
                        lemma_find_byte(pre_bytes, NEWLINE);
                    }
                },
                Ok(ReadHeaderResult::EndOfHeaders) => {
                    self.parse_state.section = FrameSection::Body;
                    return self.resume_parsing_at_body();
                },
                Ok(ReadHeaderResult::Incomplete) => {
                    proof {
                        assert(self.state_view() =~= StateV {
                            section: FrameSection::Headers,
                            command: Some(pre_cmd),
                            headers: pre_hdrs,
                        });
                    }
                    return Ok(None);
                },
                Err(e) => {
                    proof {
                        assert(self.state_view() =~= StateV {
                            section: FrameSection::Headers,
                            command: Some(pre_cmd),
                            headers: pre_hdrs,
                        });
                    }
                    return Err(e);
                },
            }
        }
    }

    fn resume_parsing_at_body(&mut self) -> (r: Result<Option<Transmission>, FrameError>)
        requires
            old(self).wf(),
            old(self).state_view().section == FrameSection::Body,
        ensures
            final(self).wf(),
            match step_body(
                old(self).state_view().command.unwrap(),
                old(self).state_view().headers,
                old(self).bytes(),
            ) {
                StepOutcome::Incomplete { state, rest } => r matches Ok(t) && t is None && final(self).state_view() == state && final(self).bytes() == rest,
                StepOutcome::Emit { out, state, rest } => r matches Ok(t) && (t matches Some(tr)
                    && tr@ == out) && final(self).state_view() == state && final(self).bytes()
                    == rest,
                StepOutcome::Fail { .. } => false,
            },
    {
        match self.read_body() {
            Some(body_bytes) => {
                let command = match self.parse_state.command.take() {
                    Some(command) => command,
                    None => {
                        proof {
                            assert(false);
                        }
                        String::new()
                    },
                };
                let mut headers = HeaderList::new();
                core::mem::swap(&mut self.parse_state.headers, &mut headers);
                self.reset_parse_state();
                let frame = Frame { command, headers, body: body_bytes };
                proof {
                    assert(self.state_view() =~= init_state());
                    match step_body(
                        old(self).state_view().command.unwrap(),
                        old(self).state_view().headers,
                        old(self).bytes(),
                    ) {
                        StepOutcome::Emit { out, state, rest } => {
                            assert(Transmission::CompleteFrame(frame)@ =~= out);
                        },
                        _ => (),
                    }
                }
                Ok(Some(Transmission::CompleteFrame(frame)))
            },
            None => {
                proof {
                    assert(self.state_view() =~= StateV {
                        section: FrameSection::Body,
                        command: old(self).state_view().command,
                        headers: old(self).state_view().headers,
                    });
                }
                Ok(None)
            },
        }
    }

    /// Forgets the in-progress transmission: the parse state returns to the
    /// command phase with no stored command and no accumulated headers, the
    /// freed strings going back to the pools.
    fn reset_parse_state(&mut self)
        ensures
            final(self).bytes() == old(self).bytes(),
            final(self).state_view() == init_state(),
    {
        self.parse_state.section = FrameSection::Command;
        match self.parse_state.command.take() {
            Some(c) => self.string_pool.attach(c),
            None => (),
        }
        while self.parse_state.headers.len() > 0
            invariant
                self.buffer@ == old(self).buffer@,
                self.parse_state.section == FrameSection::Command,
                self.parse_state.command is None,
            decreases self.parse_state.headers@.len(),
        {
            match self.parse_state.headers.pop() {
                Some(h) => self.header_codec.recycle(h),
                None => (),
            }
        }
        proof {
            assert(self.state_view() =~= init_state());
        }
    }

    /// Removes the first `n` buffered bytes and returns them in order.
    fn read_into_vec(&mut self, n: usize) -> (r: Vec<u8>)
        requires
            n <= old(self).bytes().len(),
        ensures
            r@ == old(self).bytes().take(n as int),
            final(self).bytes() == old(self).bytes().skip(n as int),
            final(self).state_view() == old(self).state_view(),
    {
        let mut vec: Vec<u8> = Vec::new();
        let mut i: usize = 0;
        while i < n
            invariant
                0 <= i <= n,
                n <= old(self).buffer@.len(),
                vec@ == old(self).buffer@.take(i as int),
                self.buffer@ == old(self).buffer@.skip(i as int),
                self.parse_state == old(self).parse_state,
            decreases n - i,
        {
            let byte = self.buffer.pop_front();
            match byte {
                Some(byte) => vec.push(byte),
                None => {
                    proof {
                        assert(false);
                    }
                },
            }
            proof {
                assert(self.buffer@ =~= old(self).buffer@.skip(i as int + 1));
                assert(vec@ =~= old(self).buffer@.take(i as int + 1));
            }
            i = i + 1;
        }
        vec
    }

    /// Removes the trailing carriage-return and line-feed bytes of a line.
    fn chomp(line: Vec<u8>) -> (r: Vec<u8>)
        ensures
            r@ == chomp(line@),
    {
        let ghost orig = line@;
        let mut v = line;
        loop
            invariant_except_break
                chomp(v@) == chomp(orig),
            invariant
                true,
            ensures
                v@ == chomp(orig),
            decreases v@.len(),
        {
            let len = v.len();
            if len == 0 {
                break ;
            }
            let last = v[len - 1];
            if last != NEWLINE && last != CARRIAGE {
                break ;
            }
            let ghost prev = v@;
            v.pop();
            proof {
                assert(v@ =~= prev.drop_last());
            }
        }
        v
    }

    /// Reads `n` bytes off the queue into a pooled string; bytes that are
    /// not valid UTF-8 are a protocol violation.
    fn read_into_string(&mut self, line: Vec<u8>) -> (r: Result<String, FrameError>)
        ensures
            final(self).bytes() == old(self).bytes(),
            final(self).state_view() == old(self).state_view(),
            valid_utf8(line@) ==> (r matches Ok(s) && encode_utf8(s@) == line@),
            !valid_utf8(line@) ==> (r matches Err(e) && e == FrameError::InvalidUtf8),
    {
        match utf8_from(&line) {
            Some(s) => Ok(self.string_pool.string_from(s)),
            None => Err(FrameError::InvalidUtf8),
        }
    }

    /// Takes the command line off the queue: a blank line is a heartbeat, a
    /// missing terminator leaves everything as it was.
    fn read_command(&mut self) -> (r: Result<ReadCommandResult, FrameError>)
        ensures
            final(self).state_view() == old(self).state_view(),
            match find_byte(old(self).bytes(), NEWLINE) {
                None => r matches Ok(c) && (c matches ReadCommandResult::Incomplete) && final(self).bytes() == old(self).bytes(),
                Some(i) => ({
                    let line = chomp(old(self).bytes().take(i + 1));
                    final(self).bytes() == old(self).bytes().skip(i + 1) && if line.len() == 0 {
                        r matches Ok(c) && c matches ReadCommandResult::HeartBeat
                    } else if valid_utf8(line) {
                        r matches Ok(c) && (c matches ReadCommandResult::Command(s) && encode_utf8(
                            s@,
                        ) == line)
                    } else {
                        r matches Err(e) && e == FrameError::InvalidUtf8
                    }
                }),
            },
    {
        let index = match self.find_next(NEWLINE) {
            Some(index) => index,
            None => {
                return Ok(ReadCommandResult::Incomplete);
            },
        };
        proof {
            vstd::std_specs::vecdeque::axiom_spec_len(&self.buffer);
            lemma_find_byte(self.buffer@, NEWLINE);
        }
        let raw = self.read_into_vec(index + 1);
        let command = Self::chomp(raw);
        if command.len() == 0 {
            return Ok(ReadCommandResult::HeartBeat);
        }
        match self.read_into_string(command) {
            Ok(s) => Ok(ReadCommandResult::Command(s)),
            Err(e) => Err(e),
        }
    }

    /// Takes one header line off the queue: a blank line ends the headers, a
    /// missing terminator leaves everything as it was.
    fn read_header(&mut self) -> (r: Result<ReadHeaderResult, FrameError>)
        ensures
            final(self).state_view() == old(self).state_view(),
            match find_byte(old(self).bytes(), NEWLINE) {
                None => r matches Ok(h) && (h matches ReadHeaderResult::Incomplete) && final(self).bytes() == old(self).bytes(),
                Some(i) => ({
                    let line = chomp(old(self).bytes().take(i + 1));
                    final(self).bytes() == old(self).bytes().skip(i + 1) && if line.len() == 0 {
                        r matches Ok(h) && h matches ReadHeaderResult::EndOfHeaders
                    } else {
                        match decode_header_bytes(line) {
                            Ok(hv) => r matches Ok(h) && (h matches ReadHeaderResult::Header(hd)
                                && hd@ == hv),
                            Err(e) => r matches Err(e2) && e2 == e,
                        }
                    }
                }),
            },
    {
        let index = match self.find_next(NEWLINE) {
            Some(index) => index,
            None => {
                return Ok(ReadHeaderResult::Incomplete);
            },
        };
        proof {
            vstd::std_specs::vecdeque::axiom_spec_len(&self.buffer);
            lemma_find_byte(self.buffer@, NEWLINE);
        }
        let raw = self.read_into_vec(index + 1);
        let header_line = Self::chomp(raw);
        if header_line.len() == 0 {
            return Ok(ReadHeaderResult::EndOfHeaders);
        }
        match self.header_codec.decode(&header_line) {
            Ok(header) => Ok(ReadHeaderResult::Header(header)),
            Err(e) => Err(e),
        }
    }

    /// Takes the body off the queue, by declared content length where one is
    /// present, else up to the first sentinel byte.
    fn read_body(&mut self) -> (r: Option<Vec<u8>>)
        ensures
            final(self).state_view() == old(self).state_view(),
            match take_body(old(self).state_view().headers, old(self).bytes()) {
                Some(parts) => r matches Some(b) && b@ == parts.0 && final(self).bytes()
                    == parts.1,
                None => r is None && final(self).bytes() == old(self).bytes(),
            },
    {
        match self.parse_state.headers.get_content_length() {
            Some(num_bytes) => self.read_body_by_content_length(num_bytes as usize),
            None => self.read_body_by_null_octet(),
        }
    }

    /// Takes a body of exactly `content_length` bytes plus its sentinel.
    fn read_body_by_content_length(&mut self, content_length: usize) -> (r: Option<Vec<u8>>)
        ensures
            final(self).state_view() == old(self).state_view(),
            if old(self).bytes().len() >= content_length + 1 {
                r matches Some(b) && b@ == old(self).bytes().take(content_length as int) && final(self).bytes() == old(self).bytes().skip(content_length + 1)
            } else {
                r is None && final(self).bytes() == old(self).bytes()
            },
    {
        if self.buffer.len() <= content_length {
            return None;
        }
        let mut body = self.read_into_vec(content_length + 1);
        body.pop();
        proof {
            assert(body@ =~= old(self).bytes().take(content_length as int));
        }
        Some(body)
    }

    /// Takes a body delimited by the first sentinel byte in the queue.
    fn read_body_by_null_octet(&mut self) -> (r: Option<Vec<u8>>)
        ensures
            final(self).state_view() == old(self).state_view(),
            match find_byte(old(self).bytes(), NULL_OCTET) {
                Some(i) => r matches Some(b) && b@ == old(self).bytes().take(i) && final(self).bytes() == old(self).bytes().skip(i + 1),
                None => r is None && final(self).bytes() == old(self).bytes(),
            },
    {
        let index = match self.find_next(NULL_OCTET) {
            Some(index) => index,
            None => {
                return None;
            },
        };
        proof {
            vstd::std_specs::vecdeque::axiom_spec_len(&self.buffer);
            lemma_find_byte(self.buffer@, NULL_OCTET);
        }
        let mut body = self.read_into_vec(index + 1);
        body.pop();
        proof {
            assert(body@ =~= old(self).bytes().take(index as int));
        }
        Some(body)
    }

    /// Offset of the first occurrence of `needle` among the buffered bytes.
    fn find_next(&self, needle: u8) -> (r: Option<usize>)
        ensures
            match r {
                Some(i) => find_byte(self.bytes(), needle) == Some(i as int),
                None => find_byte(self.bytes(), needle) is None,
            },
    {
        let n = self.buffer.len();
        let mut step_idx: usize = 0;
        while step_idx < n
            invariant
                0 <= step_idx <= n,
                n == self.buffer@.len(),
                forall|k: int| 0 <= k < step_idx ==> #[trigger] self.buffer@[k] != needle,
            decreases n - step_idx,
        {
            if *self.buffer.index(step_idx) == needle {
                proof {
                    lemma_find_byte(self.buffer@, needle);
                }
                return Some(step_idx);
            }
            step_idx = step_idx + 1;
        }
        proof {
            lemma_find_byte(self.buffer@, needle);
        }
        None
    }
}

} // verus!
