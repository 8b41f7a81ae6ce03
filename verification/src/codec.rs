//! Stanza framing: one header line (`type arg1 arg2 ...`), zero or more body
//! lines each holding the base64 encoding of one 64-byte chunk of the body,
//! and exactly one terminating empty line.

use vstd::prelude::*;

use base64::Engine;

use vstd::string::StringSliceAdditionalSpecFns;

use crate::plugin::PluginError;
use crate::strutil::{
    header_of, join_header, lemma_split_join, lemma_split_len, no_space, split_header,
    split_spaces, str_eq,
};

verus! {

/// What the base64 encoder returns for a byte sequence.
pub uninterp spec fn b64_of(b: Seq<u8>) -> Seq<char>;

/// What the base64 decoder returns for a line: `None` when the line is not a
/// canonical base64 encoding.
pub uninterp spec fn b64_dec_of(s: Seq<char>) -> Option<Seq<u8>>;

/// Relies on base64's STANDARD engine encode: four characters for every three
/// input bytes (with padding), depending on the input bytes alone, and
/// inverted exactly by the same engine's decode.
#[verifier::external_body]
pub(crate) fn b64_encode(b: &Vec<u8>) -> (r: String)
    ensures
        r@ == b64_of(b@),
        r@.len() == 4 * ((b@.len() + 2) / 3),
        b64_dec_of(r@) == Some(b@),
{
    base64::engine::general_purpose::STANDARD.encode(b)
}

/// Relies on base64's STANDARD engine decode: strict, so it succeeds exactly
/// on canonical encodings (padding required, no stray trailing bits), an
/// empty line decodes to no bytes, and the result depends on the line alone.
#[verifier::external_body]
pub(crate) fn b64_decode(line: &str) -> (r: Option<Vec<u8>>)
    ensures
        r is Some <==> b64_dec_of(line@) is Some,
        r is Some ==> Some(r->Some_0@) == b64_dec_of(line@),
        r is Some ==> line@ == b64_of(r->Some_0@),
        line@.len() == 0 ==> r is Some && r->Some_0@.len() == 0,
        forall|b: Seq<u8>| line@ == b64_of(b) ==> r is Some && r->Some_0@ == b,
{
    match base64::engine::general_purpose::STANDARD.decode(line.as_bytes()) {
        Ok(v) => Some(v),
        Err(_) => None,
    }
}

/// A duplex line stream: the engine reads stanza lines from it and writes
/// response lines back. The ghost views give the lines still to be read and
/// the lines written so far.
pub trait Stream {
    spec fn inputs(&self) -> Seq<Seq<char>>;

    spec fn outputs(&self) -> Seq<Seq<char>>;

    fn read_line(&mut self) -> (r: Option<String>)
        ensures
            final(self).outputs() == old(self).outputs(),
            old(self).inputs().len() == 0 ==> r is None && final(self).inputs() == old(
                self,
            ).inputs(),
            old(self).inputs().len() > 0 ==> r is Some && r->Some_0@ == old(self).inputs()[0]
                && final(self).inputs() == old(self).inputs().skip(1),
    ;

    fn write_line(&mut self, line: &str)
        ensures
            final(self).inputs() == old(self).inputs(),
            final(self).outputs() == old(self).outputs().push(line@),
    ;
}

/// An in-memory stream: a fixed list of input lines and a growing list of
/// output lines.
pub struct MemStream {
    input: Vec<String>,
    pos: usize,
    output: Vec<String>,
}

impl MemStream {
    /// A stream that will yield the given lines and record what is written.
    pub fn new(lines: Vec<String>) -> (r: MemStream)
        ensures
            r.inputs() == lines.deep_view(),
            r.outputs() == Seq::<Seq<char>>::empty(),
    {
        let r = MemStream { input: lines, pos: 0, output: Vec::new() };
        proof {
            assert(r.input.deep_view().skip(0) =~~= r.input.deep_view());
            assert(r.output.deep_view() =~~= Seq::<Seq<char>>::empty());
        }
        r
    }

    /// The lines written so far.
    pub fn into_output(self) -> (r: Vec<String>)
        ensures
            r.deep_view() == self.outputs(),
    {
        self.output
    }
}

impl Stream for MemStream {
    closed spec fn inputs(&self) -> Seq<Seq<char>> {
        if self.pos <= self.input.deep_view().len() {
            self.input.deep_view().skip(self.pos as int)
        } else {
            Seq::empty()
        }
    }

    closed spec fn outputs(&self) -> Seq<Seq<char>> {
        self.output.deep_view()
    }

    fn read_line(&mut self) -> (r: Option<String>) {
        if self.pos < self.input.len() {
            let line = (&self.input[self.pos]).clone();
            proof {
                assert(self.input.deep_view()[self.pos as int] == self.input[self.pos as int]@);
                assert(self.input.deep_view().skip(self.pos as int).skip(1) =~~= self.input
                    .deep_view().skip(self.pos as int + 1));
            }
            self.pos = self.pos + 1;
            Some(line)
        } else {
            None
        }
    }

    fn write_line(&mut self, line: &str) {
        let ghost d0 = self.output.deep_view();
        self.output.push(line.to_owned());
        proof {
            assert(self.output.deep_view() =~~= d0.push(line@));
        }
    }
}

/// Where a line-by-line reader stands inside the collect phase: before a
/// header, inside a body (knowing whether the stanza was `done`), or past
/// the `done` stanza's terminator (or a malformed empty header), where the
/// collect phase is over and the engine should run.
#[derive(Debug, Clone, Copy, PartialEq, Eq, Structural)]
pub enum ReadPhase {
    Header,
    Body { ending: bool },
    Complete,
}

/// One line moves the reader one step: a header opens a body and notes
/// whether its type tag is `done`; an empty line closes a body, completing
/// the phase after `done`; an empty header line is malformed and also
/// completes the phase, so the engine can report it.
pub open spec fn phase_step(p: ReadPhase, line: Seq<char>) -> ReadPhase {
    match p {
        ReadPhase::Header => {
            if line.len() == 0 {
                ReadPhase::Complete
            } else {
                ReadPhase::Body { ending: split_spaces(line)[0] == "done"@ }
            }
        },
        ReadPhase::Body { ending } => {
            if line.len() == 0 {
                if ending {
                    ReadPhase::Complete
                } else {
                    ReadPhase::Header
                }
            } else {
                ReadPhase::Body { ending }
            }
        },
        ReadPhase::Complete => ReadPhase::Complete,
    }
}

/// Accumulates the collect phase of a session from a live stream, line by
/// line, and says when the phase is over: callers that own a blocking
/// stream feed lines in until then, and hand the collected lines to the
/// engine over a [`MemStream`].
pub struct SessionReader {
    lines: Vec<String>,
    phase: ReadPhase,
}

impl SessionReader {
    pub closed spec fn lines_view(&self) -> Seq<Seq<char>> {
        self.lines.deep_view()
    }

    pub closed spec fn phase_view(&self) -> ReadPhase {
        self.phase
    }

    pub fn new() -> (r: SessionReader)
        ensures
            r.lines_view() == Seq::<Seq<char>>::empty(),
            r.phase_view() == ReadPhase::Header,
    {
        let r = SessionReader { lines: Vec::new(), phase: ReadPhase::Header };
        proof {
            assert(r.lines_view() =~~= Seq::<Seq<char>>::empty());
        }
        r
    }

    /// Feed one line; the result says whether the collect phase is over.
    pub fn push_line(&mut self, line: String) -> (complete: bool)
        ensures
            final(self).lines_view() == old(self).lines_view().push(line@),
            final(self).phase_view() == phase_step(old(self).phase_view(), line@),
            complete == (final(self).phase_view() is Complete),
    {
        let ghost d0 = self.lines.deep_view();
        let next = match self.phase {
            ReadPhase::Header => {
                if line.as_str().is_empty() {
                    ReadPhase::Complete
                } else {
                    let parts = split_header(line.as_str());
                    proof {
                        lemma_split_len(line@);
                        assert((&parts[0])@ == parts.deep_view()[0]);
                    }
                    ReadPhase::Body { ending: str_eq((&parts[0]).as_str(), "done") }
                }
            },
            ReadPhase::Body { ending } => {
                if line.as_str().is_empty() {
                    if ending {
                        ReadPhase::Complete
                    } else {
                        ReadPhase::Header
                    }
                } else {
                    ReadPhase::Body { ending }
                }
            },
            ReadPhase::Complete => ReadPhase::Complete,
        };
        self.phase = next;
        self.lines.push(line);
        proof {
            assert(self.lines.deep_view() =~~= d0.push(self.lines@[self.lines@.len() - 1]@));
        }
        match self.phase {
            ReadPhase::Complete => true,
            _ => false,
        }
    }

    /// The collected lines, ready for a [`MemStream`].
    pub fn into_lines(self) -> (r: Vec<String>)
        ensures
            r.deep_view() == self.lines_view(),
    {
        self.lines
    }
}

/// One framed protocol message: a type tag, arguments, and a byte body.
pub struct Stanza {
    pub type_str: String,
    pub args: Vec<String>,
    pub body: Vec<u8>,
}

/// The mathematical model of a stanza.
pub struct StanzaModel {
    pub t: Seq<char>,
    pub args: Seq<Seq<char>>,
    pub body: Seq<u8>,
}

impl View for Stanza {
    type V = StanzaModel;

    open spec fn view(&self) -> StanzaModel {
        StanzaModel { t: self.type_str@, args: self.args.deep_view(), body: self.body@ }
    }
}

/// A stanza is representable on the wire when its type tag is non-empty and
/// neither the tag nor any argument contains a space.
pub open spec fn stanza_wf(m: StanzaModel) -> bool {
    &&& m.t.len() > 0
    &&& no_space(m.t)
    &&& forall|i: int| 0 <= i < m.args.len() ==> no_space(#[trigger] m.args[i])
}

impl Stanza {
    /// A stanza with the given type tag, arguments and body.
    pub fn new(type_str: &str, args: Vec<String>, body: Vec<u8>) -> (r: Stanza)
        ensures
            r@.t == type_str@,
            r@.args == args.deep_view(),
            r@.body == body@,
    {
        Stanza { type_str: type_str.to_owned(), args, body }
    }

    /// An error response stanza: the type is `error-` followed by the kind,
    /// and the body carries a human-readable message.
    pub fn as_error(error_type: &str, args: Vec<String>, message: &str) -> (r: Stanza)
        ensures
            r@.t == "error-"@ + error_type@,
            r@.args == args.deep_view(),
            r@.body == message.spec_bytes(),
    {
        let mut t = String::new();
        t.append("error-");
        t.append(error_type);
        let body = message.as_bytes_vec();
        proof {
            assert(t@ =~= "error-"@ + error_type@);
        }
        Stanza { type_str: t, args, body }
    }
}

/// The body lines a stanza's bytes are encoded to: one base64 line for each
/// 64-byte chunk, the last chunk possibly shorter.
pub open spec fn chunk_lines(b: Seq<u8>) -> Seq<Seq<char>>
    decreases b.len(),
{
    if b.len() == 0 {
        Seq::empty()
    } else if b.len() <= 64 {
        seq![b64_of(b)]
    } else {
        seq![b64_of(b.take(64))] + chunk_lines(b.skip(64))
    }
}

/// Every line a stanza is framed to: header, body lines, empty terminator.
pub open spec fn enc_lines(m: StanzaModel) -> Seq<Seq<char>> {
    seq![header_of(m.t, m.args)] + chunk_lines(m.body) + seq![Seq::<char>::empty()]
}

/// The outcome of reading body lines: the decoded bytes and the number of
/// lines consumed (terminator included), a bad base64 line, or end of stream.
pub enum BodyStep {
    Done { body: Seq<u8>, used: int },
    Bad { used: int },
    Eof,
}

/// Parse body lines: accumulate decoded chunks until an empty line.
pub open spec fn body_parse(lines: Seq<Seq<char>>) -> BodyStep
    decreases lines.len(),
{
    if lines.len() == 0 {
        BodyStep::Eof
    } else if lines[0].len() == 0 {
        BodyStep::Done { body: Seq::empty(), used: 1 }
    } else {
        match b64_dec_of(lines[0]) {
            None => BodyStep::Bad { used: 1 },
            Some(b) => match body_parse(lines.skip(1)) {
                BodyStep::Done { body, used } => BodyStep::Done { body: b + body, used: used + 1 },
                BodyStep::Bad { used } => BodyStep::Bad { used: used + 1 },
                BodyStep::Eof => BodyStep::Eof,
            },
        }
    }
}

/// The kinds of framing failure.
pub enum FrameError {
    Incomplete,
    Invalid,
    BadBase64,
}

/// The outcome of reading one stanza from the front of the input lines.
pub enum StanzaStep {
    Got { t: Seq<char>, args: Seq<Seq<char>>, body: Seq<u8>, used: int },
    Failed { kind: FrameError, used: int },
}

/// Parse one stanza: a non-empty header line split at spaces (the type tag
/// must be non-empty), then the body lines up to the empty terminator.
pub open spec fn stanza_parse(lines: Seq<Seq<char>>) -> StanzaStep {
    if lines.len() == 0 {
        StanzaStep::Failed { kind: FrameError::Incomplete, used: 0 }
    } else if lines[0].len() == 0 {
        StanzaStep::Failed { kind: FrameError::Incomplete, used: 1 }
    } else if split_spaces(lines[0])[0].len() == 0 {
        StanzaStep::Failed { kind: FrameError::Invalid, used: 1 }
    } else {
        match body_parse(lines.skip(1)) {
            BodyStep::Done { body, used } => StanzaStep::Got {
                t: split_spaces(lines[0])[0],
                args: split_spaces(lines[0]).skip(1),
                body,
                used: used + 1,
            },
            BodyStep::Bad { used } => StanzaStep::Failed {
                kind: FrameError::BadBase64,
                used: used + 1,
            },
            BodyStep::Eof => StanzaStep::Failed {
                kind: FrameError::Incomplete,
                used: lines.len() as int,
            },
        }
    }
}

/// How many lines a parse consumes, bounded by what is there.
pub proof fn lemma_body_parse_bounds(lines: Seq<Seq<char>>)
    ensures
        match body_parse(lines) {
            BodyStep::Done { used, .. } => 1 <= used <= lines.len(),
            BodyStep::Bad { used } => 1 <= used <= lines.len(),
            BodyStep::Eof => true,
        },
    decreases lines.len(),
{
    if lines.len() == 0 {
    } else if lines[0].len() == 0 {
    } else {
        lemma_body_parse_bounds(lines.skip(1));
    }
}

pub proof fn lemma_stanza_parse_bounds(lines: Seq<Seq<char>>)
    ensures
        match stanza_parse(lines) {
            StanzaStep::Got { used, .. } => 2 <= used <= lines.len(),
            StanzaStep::Failed { used, .. } => 0 <= used <= lines.len(),
        },
{
    if lines.len() > 0 {
        lemma_body_parse_bounds(lines.skip(1));
    }
}

/// Body lines made of canonical encodings of chunks, followed by the empty
/// terminator, parse back to exactly those chunks' bytes.
proof fn lemma_parse_encoded(lines: Seq<Seq<char>>, chunks: Seq<Seq<u8>>, extra: Seq<Seq<char>>)
    requires
        lines.len() == chunks.len(),
        forall|j: int| 0 <= j < lines.len() ==> (#[trigger] lines[j]).len() > 0,
        forall|j: int| 0 <= j < lines.len() ==> b64_dec_of(#[trigger] lines[j]) == Some(chunks[j]),
    ensures
        body_parse(lines + seq![Seq::<char>::empty()] + extra) == (BodyStep::Done {
            body: chunks.flatten(),
            used: lines.len() as int + 1,
        }),
    decreases lines.len(),
{
    let all = lines + seq![Seq::<char>::empty()] + extra;
    if lines.len() == 0 {
        assert(all[0].len() == 0);
        assert(chunks.flatten() =~= Seq::<u8>::empty());
    } else {
        assert(forall|j: int|
            0 <= j < lines.skip(1).len() ==> (#[trigger] lines.skip(1)[j]).len() > 0);
        assert(forall|j: int|
            0 <= j < lines.skip(1).len() ==> b64_dec_of(#[trigger] lines.skip(1)[j]) == Some(
                chunks.skip(1)[j],
            ));
        lemma_parse_encoded(lines.skip(1), chunks.skip(1), extra);
        assert(all.skip(1) =~~= lines.skip(1) + seq![Seq::<char>::empty()] + extra);
        assert(all[0] == lines[0]);
        assert(b64_dec_of(all[0]) == Some(chunks[0]));
        assert(chunks.drop_first() =~~= chunks.skip(1));
        assert(chunks.flatten() == chunks[0] + chunks.skip(1).flatten());
        assert(body_parse(all) == (BodyStep::Done {
            body: chunks[0] + chunks.skip(1).flatten(),
            used: (lines.skip(1).len() as int + 1) + 1,
        }));
    }
}

/// Read one stanza. The outcome and the lines consumed follow
/// [`stanza_parse`] on the pending input exactly.
pub fn read_stanza<S: Stream>(stream: &mut S) -> (r: Result<Stanza, PluginError>)
    ensures
        final(stream).outputs() == old(stream).outputs(),
        ({
            let inp = old(stream).inputs();
            match stanza_parse(inp) {
                StanzaStep::Got { t, args, body, used } => {
                    &&& r is Ok
                    &&& r->Ok_0@.t == t
                    &&& r->Ok_0@.args == args
                    &&& r->Ok_0@.body == body
                    &&& final(stream).inputs() == inp.skip(used)
                },
                StanzaStep::Failed { kind, used } => {
                    &&& r is Err
                    &&& (kind is Incomplete ==> r->Err_0 is IncompleteStanza)
                    &&& (kind is Invalid ==> r->Err_0 is InvalidStanza)
                    &&& (kind is BadBase64 ==> r->Err_0 is Base64Error)
                    &&& final(stream).inputs() == inp.skip(used)
                },
            }
        }),
{
    let ghost inp = stream.inputs();
    let header = match stream.read_line() {
        None => {
            proof {
                assert(inp.skip(0) =~~= inp);
            }
            return Err(PluginError::IncompleteStanza);
        },
        Some(l) => l,
    };
    if header.as_str().is_empty() {
        return Err(PluginError::IncompleteStanza);
    }
    let mut parts = split_header(header.as_str());
    proof {
        lemma_split_len(header@);
    }
    let type_str = parts.remove(0);
    let args = parts;
    proof {
        assert(type_str@ == split_spaces(header@)[0]);
        assert(args.deep_view() =~~= split_spaces(header@).skip(1));
    }
    if type_str.as_str().is_empty() {
        return Err(PluginError::InvalidStanza);
    }
    let mut body: Vec<u8> = Vec::new();
    let ghost mut j: int = 0;
    proof {
        assert(body_cont(body@, 0, body_parse(inp.skip(1))) == body_parse(inp.skip(1))) by {
            match body_parse(inp.skip(1)) {
                BodyStep::Done { body: bb, used } => {
                    assert(Seq::<u8>::empty() + bb =~= bb);
                },
                _ => {},
            }
        }
    }
    loop
        invariant_except_break
            stream.inputs() == inp.skip(1 + j),
        invariant
            inp == old(stream).inputs(),
            inp.len() > 0,
            inp[0].len() > 0,
            split_spaces(inp[0])[0].len() > 0,
            stream.outputs() == old(stream).outputs(),
            0 <= j,
            1 + j <= inp.len(),
            body_cont(body@, j, body_parse(inp.skip(1 + j))) == body_parse(inp.skip(1)),
        ensures
            stream.outputs() == old(stream).outputs(),
            body_parse(inp.skip(1)) == (BodyStep::Done { body: body@, used: j + 1 }),
            stream.inputs() == inp.skip(2 + j),
        decreases inp.len() - j,
    {
        match stream.read_line() {
            None => {
                proof {
                    assert(inp.skip(1 + j).len() == 0);
                    assert(1 + j == inp.len());
                    assert(body_parse(inp.skip(1)) is Eof);
                    assert(inp.skip(inp.len() as int).len() == 0);
                    assert(stream.inputs() =~~= inp.skip(inp.len() as int));
                }
                return Err(PluginError::IncompleteStanza);
            },
            Some(line) => {
                proof {
                    assert(line@ == inp.skip(1 + j)[0]);
                    assert(inp.skip(1 + j)[0] == inp[1 + j]);
                    assert(inp.skip(1 + j).skip(1) =~~= inp.skip(2 + j));
                }
                if line.as_str().is_empty() {
                    proof {
                        assert(body_parse(inp.skip(1 + j)) == (BodyStep::Done {
                            body: Seq::<u8>::empty(),
                            used: 1,
                        }));
                        assert(body@ + Seq::<u8>::empty() =~= body@);
                    }
                    break;
                }
                match b64_decode(line.as_str()) {
                    Some(mut bytes) => {
                        let ghost b0 = body@;
                        let ghost dec = bytes@;
                        body.append(&mut bytes);
                        proof {
                            assert(b64_dec_of(line@) == Some(dec));
                            lemma_body_parse_bounds(inp.skip(2 + j));
                            assert(body_parse(inp.skip(1 + j)) == body_cont(
                                dec,
                                1,
                                body_parse(inp.skip(2 + j)),
                            ));
                            assert(body_cont(b0 + dec, j + 1, body_parse(inp.skip(2 + j)))
                                == body_cont(b0, j, body_parse(inp.skip(1 + j)))) by {
                                match body_parse(inp.skip(2 + j)) {
                                    BodyStep::Done { body: bb, used } => {
                                        assert((b0 + dec) + bb =~= b0 + (dec + bb));
                                    },
                                    _ => {},
                                }
                            }
                            j = j + 1;
                        }
                    },
                    None => {
                        proof {
                            assert(body_parse(inp.skip(1 + j)) == (BodyStep::Bad { used: 1 }));
                            assert(body_parse(inp.skip(1)) == (BodyStep::Bad { used: j + 1 }));
                            assert(stanza_parse(inp) == (StanzaStep::Failed {
                                kind: FrameError::BadBase64,
                                used: j + 2,
                            }));
                            assert(stream.inputs() =~~= inp.skip(j + 2));
                        }
                        return Err(PluginError::Base64Error);
                    },
                }
            },
        }
    }
    proof {
        assert(stanza_parse(inp) == (StanzaStep::Got {
            t: split_spaces(inp[0])[0],
            args: split_spaces(inp[0]).skip(1),
            body: body@,
            used: j + 2,
        }));
    }
    Ok(Stanza { type_str, args, body })
}

/// Continue a body parse: what the parse of the whole body is, given bytes
/// and lines already consumed and the parse of the remainder.
pub open spec fn body_cont(pre: Seq<u8>, j: int, step: BodyStep) -> BodyStep {
    match step {
        BodyStep::Done { body, used } => BodyStep::Done { body: pre + body, used: used + j },
        BodyStep::Bad { used } => BodyStep::Bad { used: used + j },
        BodyStep::Eof => BodyStep::Eof,
    }
}

/// Write one stanza: the header line, one base64 line per 64-byte chunk of
/// the body, and the empty terminator. For a representable stanza the
/// emitted lines parse back to the same stanza, whatever follows them.
#[verifier::loop_isolation(false)]
pub fn write_stanza<S: Stream>(stream: &mut S, stanza: Stanza)
    ensures
        final(stream).inputs() == old(stream).inputs(),
        final(stream).outputs() == old(stream).outputs() + enc_lines(stanza@),
        stanza_wf(stanza@) ==> forall|extra: Seq<Seq<char>>|
            stanza_parse(#[trigger] (enc_lines(stanza@) + extra)) == (StanzaStep::Got {
                t: stanza@.t,
                args: stanza@.args,
                body: stanza@.body,
                used: enc_lines(stanza@).len() as int,
            }),
{
    let ghost m = stanza@;
    let header = join_header(stanza.type_str.as_str(), &stanza.args);
    stream.write_line(header.as_str());
    let body = stanza.body;
    let n = body.len();
    let mut i: usize = 0;
    let ghost mut lines: Seq<Seq<char>> = Seq::empty();
    let ghost mut chunks: Seq<Seq<u8>> = Seq::empty();
    proof {
        assert(m.body.skip(0) =~= m.body);
        assert(lines + chunk_lines(m.body) =~~= chunk_lines(m.body));
        assert(chunks.flatten() =~= m.body.take(0));
        assert(stream.outputs() =~~= old(stream).outputs() + seq![header_of(m.t, m.args)] + lines);
    }
    while i < n
        invariant
            i <= n,
            n == m.body.len(),
            lines.len() == chunks.len(),
            chunk_lines(m.body) == lines + chunk_lines(m.body.skip(i as int)),
            chunks.flatten() == m.body.take(i as int),
            forall|k: int| 0 <= k < lines.len() ==> (#[trigger] lines[k]).len() > 0,
            forall|k: int| 0 <= k < lines.len() ==> b64_dec_of(#[trigger] lines[k]) == Some(
                chunks[k],
            ),
            stream.inputs() == old(stream).inputs(),
            stream.outputs() == old(stream).outputs() + seq![header_of(m.t, m.args)] + lines,
        decreases n - i,
    {
        let j = if n - i < 64 {
            n
        } else {
            i + 64
        };
        let mut chunk: Vec<u8> = Vec::new();
        let mut ii = i;
        while ii < j
            invariant
                i <= ii <= j <= n,
                chunk@ == m.body.subrange(i as int, ii as int),
            decreases j - ii,
        {
            let b = body[ii];
            chunk.push(b);
            proof {
                assert(chunk@ =~= m.body.subrange(i as int, ii as int + 1));
            }
            ii += 1;
        }
        let line = b64_encode(&chunk);
        stream.write_line(line.as_str());
        proof {
            let rem = m.body.skip(i as int);
            assert(rem.len() == n - i);
            if n - i < 64 {
                assert(chunk@ =~= rem);
                assert(chunk_lines(rem) == seq![b64_of(rem)]);
            } else {
                assert(chunk@ =~= rem.take(64));
                assert(rem.skip(64) =~= m.body.skip(j as int));
            }
            assert(line@.len() > 0);
            chunks.lemma_flatten_push(chunk@);
            let lines0 = lines;
            let chunks0 = chunks;
            lines = lines.push(line@);
            chunks = chunks.push(chunk@);
            assert(chunks0.push(chunk@).flatten() =~= chunks0.flatten() + chunk@);
            assert(chunks.flatten() =~= m.body.take(j as int));
            if n - i < 64 {
                assert(chunk_lines(m.body.skip(j as int)) =~~= Seq::<Seq<char>>::empty());
                assert(lines + chunk_lines(m.body.skip(j as int)) =~~= lines0 + seq![b64_of(rem)]);
                assert(chunk_lines(m.body) =~~= lines + chunk_lines(m.body.skip(j as int)));
            } else {
                assert(chunk_lines(rem) =~~= seq![b64_of(rem.take(64))] + chunk_lines(rem.skip(64)));
                assert(lines0 + chunk_lines(rem) =~~= lines + chunk_lines(m.body.skip(j as int)));
            }
            assert(stream.outputs() =~~= old(stream).outputs() + seq![header_of(m.t, m.args)]
                + lines);
        }
        i = j;
    }
    stream.write_line("");
    proof {
        reveal_strlit("");
        assert(""@ =~= Seq::<char>::empty());
        assert(m.body.skip(n as int).len() == 0);
        assert(chunk_lines(m.body.skip(n as int)) =~~= Seq::<Seq<char>>::empty());
        assert(lines =~~= chunk_lines(m.body));
        assert(m.body.take(n as int) =~= m.body);
        assert(stream.outputs() =~~= old(stream).outputs() + enc_lines(m));
        if stanza_wf(m) {
            assert forall|extra: Seq<Seq<char>>|
                stanza_parse(#[trigger] (enc_lines(m) + extra)) == (StanzaStep::Got {
                    t: m.t,
                    args: m.args,
                    body: m.body,
                    used: enc_lines(m).len() as int,
                }) by {
                let all = enc_lines(m) + extra;
                let hdr = header_of(m.t, m.args);
                assert(all[0] == hdr);
                assert(hdr.len() >= m.t.len()) by {
                    lemma_join_len(m.t, m.args);
                }
                lemma_split_join(m.t, m.args);
                assert(split_spaces(hdr)[0] == m.t);
                assert(split_spaces(hdr).skip(1) =~~= m.args);
                lemma_parse_encoded(lines, chunks, extra);
                assert(all.skip(1) =~~= lines + seq![Seq::<char>::empty()] + extra);
                assert(body_parse(all.skip(1)) == (BodyStep::Done {
                    body: chunks.flatten(),
                    used: lines.len() as int + 1,
                }));
                assert(chunks.flatten() == m.body);
                assert(enc_lines(m).len() == lines.len() + 2);
            }
        }
    }
}

/// The header is at least as long as the type tag it starts with.
proof fn lemma_join_len(t: Seq<char>, args: Seq<Seq<char>>)
    ensures
        header_of(t, args).len() >= t.len(),
{
}

} // verus!
