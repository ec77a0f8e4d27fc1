use vstd::prelude::*;
use vstd::string::{StrSliceExecFns, StringExecFns, StringSliceAdditionalSpecFns};
use crate::bitmap::{Bitmap, png_pixels};
use crate::block::{
    block_step, copy_range, decode_block, decode_line, has_newline, is_line_end, line_end, line_step,
};
use crate::command::NEWLINE;
use crate::command::{
    command_line, format_command, free_of, lemma_command_round_trip, parse_bool, parse_command,
    render_arg, rendered, Argument, COMMA, SPACE,
};
use crate::error::ScopeError;

verus! {

/// The mnemonic of the identity query.
pub const IDENTITY_QUERY: &'static str = ":*IDN?";

/// The mnemonic of the screen capture request.
pub const CAPTURE_QUERY: &'static str = ":DISPlay:DATA?";

/// The outcome of a step: a result, or the need for more input first.
#[derive(Clone, Debug)]
pub enum Step<T> {
    /// The operation is complete.
    Ready(T),
    /// More input is needed; nothing was consumed.
    Pending,
}

/// Which reply the session is waiting for.
#[derive(Clone, Copy, Debug, PartialEq, Eq, Structural)]
pub enum Awaiting {
    Idle,
    Line,
    Block,
}

/// The arguments of the screen capture request: display on, no inversion,
/// PNG format.
pub open spec fn capture_args() -> Seq<Argument> {
    seq![Argument::Discrete("ON"), Argument::Bool(false), Argument::Discrete("PNG")]
}

/// `c` is white space in Unicode's sense, as `char::is_whitespace` says.
pub open spec fn is_white(c: char) -> bool {
    let u = c as u32;
    (9 <= u <= 13) || u == 32 || u == 0x85 || u == 0xa0 || u == 0x1680 || (0x2000 <= u <= 0x200a)
        || u == 0x2028 || u == 0x2029 || u == 0x202f || u == 0x205f || u == 0x3000
}

/// `s` without its leading white space.
pub open spec fn trim_start(s: Seq<char>) -> Seq<char>
    decreases s.len(),
{
    if s.len() > 0 && is_white(s[0]) {
        trim_start(s.drop_first())
    } else {
        s
    }
}

/// `s` without its trailing white space.
pub open spec fn trim_end(s: Seq<char>) -> Seq<char>
    decreases s.len(),
{
    if s.len() > 0 && is_white(s.last()) {
        trim_end(s.drop_last())
    } else {
        s
    }
}

/// `s` without white space at either end, as `str::trim` gives it.
pub open spec fn trim(s: Seq<char>) -> Seq<char> {
    trim_end(trim_start(s))
}

/// A line of bytes read as text: an `Io` error unless it is valid UTF-8.
pub open spec fn as_text(r: Result<Seq<u8>, ScopeError>) -> Result<Seq<char>, ScopeError> {
    match r {
        Ok(b) => if vstd::utf8::valid_utf8(b) {
            Ok(vstd::utf8::decode_utf8(b))
        } else {
            Err(ScopeError::Io)
        },
        Err(e) => Err(e),
    }
}

/// A line of text with white space removed at both ends.
pub open spec fn trimmed(r: Result<Seq<char>, ScopeError>) -> Result<Seq<char>, ScopeError> {
    match r {
        Ok(t) => Ok(trim(t)),
        Err(e) => Err(e),
    }
}

/// A PNG payload decoded into pixels: width, height and RGB bytes.
pub open spec fn as_image(r: Result<Seq<u8>, ScopeError>) -> Result<(u32, u32, Seq<u8>), ScopeError> {
    match r {
        Ok(b) => match png_pixels(b) {
            Some(img) => Ok(img),
            None => Err(ScopeError::Decode),
        },
        Err(e) => Err(e),
    }
}

/// The view of a text step.
pub open spec fn text_view(r: Step<Result<String, ScopeError>>) -> Option<Result<Seq<char>, ScopeError>> {
    match r {
        Step::Ready(Ok(s)) => Some(Ok(s@)),
        Step::Ready(Err(e)) => Some(Err(e)),
        Step::Pending => None,
    }
}

/// The view of a byte step.
pub open spec fn bytes_view(r: Step<Result<Vec<u8>, ScopeError>>) -> Option<Result<Seq<u8>, ScopeError>> {
    match r {
        Step::Ready(Ok(v)) => Some(Ok(v@)),
        Step::Ready(Err(e)) => Some(Err(e)),
        Step::Pending => None,
    }
}

/// The view of an image step.
pub open spec fn image_view(r: Step<Result<Bitmap, ScopeError>>) -> Option<Result<(u32, u32, Seq<u8>), ScopeError>> {
    match r {
        Step::Ready(Ok(b)) => Some(Ok((b.spec_width(), b.spec_height(), b.spec_data()))),
        Step::Ready(Err(e)) => Some(Err(e)),
        Step::Pending => None,
    }
}

/// Maps the result inside an optional step.
pub open spec fn map_text(o: Option<Result<Seq<u8>, ScopeError>>) -> Option<Result<Seq<char>, ScopeError>> {
    match o {
        Some(r) => Some(as_text(r)),
        None => None,
    }
}

/// Relies on `String::from_utf8`: it accepts exactly the valid UTF-8 byte
/// sequences and keeps the characters they encode.
#[verifier::external_body]
fn utf8_string(bytes: Vec<u8>) -> (r: Option<String>)
    ensures
        match r {
            Some(s) => vstd::utf8::valid_utf8(bytes@) && s@ == vstd::utf8::decode_utf8(bytes@),
            None => !vstd::utf8::valid_utf8(bytes@),
        },
{
    String::from_utf8(bytes).ok()
}

fn white_char(c: char) -> (r: bool)
    ensures
        r == is_white(c),
{
    let u = c as u32;
    (9 <= u && u <= 13) || u == 32 || u == 0x85 || u == 0xa0 || u == 0x1680 || (0x2000 <= u && u
        <= 0x200a) || u == 0x2028 || u == 0x2029 || u == 0x202f || u == 0x205f || u == 0x3000
}

/// `s` with white space removed at both ends.
pub fn trim_text(s: &str) -> (r: String)
    ensures
        r@ == trim(s@),
{
    let n = s.unicode_len();
    let mut lo: usize = 0;
    assert(s@.subrange(0, n as int) == s@);
    while lo < n && white_char(s.get_char(lo))
        invariant
            lo <= n,
            n == s@.len(),
            trim_start(s@) == trim_start(s@.subrange(lo as int, n as int)),
        decreases n - lo,
    {
        proof {
            let p = s@.subrange(lo as int, n as int);
            assert(p.drop_first() == s@.subrange(lo + 1, n as int));
            assert(p[0] == s@[lo as int]);
        }
        lo = lo + 1;
    }
    proof {
        let p = s@.subrange(lo as int, n as int);
        if lo < n {
            assert(p[0] == s@[lo as int]);
        }
        assert(trim_start(s@) == p);
    }
    let mut hi: usize = n;
    while hi > lo && white_char(s.get_char(hi - 1))
        invariant
            lo <= hi <= n,
            n == s@.len(),
            trim(s@) == trim_end(s@.subrange(lo as int, hi as int)),
        decreases hi,
    {
        proof {
            let p = s@.subrange(lo as int, hi as int);
            assert(p.drop_last() == s@.subrange(lo as int, hi - 1));
            assert(p.last() == s@[hi - 1]);
        }
        hi = hi - 1;
    }
    proof {
        let p = s@.subrange(lo as int, hi as int);
        if hi > lo {
            assert(p.last() == s@[hi - 1]);
        }
    }
    let sub = s.substring_char(lo, hi);
    <String as StringExecFns>::from_str(sub)
}

/// A protocol session with the instrument, without the socket.
///
/// The session holds the bytes received and not yet consumed, whether the
/// stream has ended, the bytes waiting to be sent, and which reply it waits
/// for. Each read consumes whole replies from the buffered bytes, or nothing
/// and reports `Step::Pending` until more bytes are received.
pub struct Scope {
    input: Vec<u8>,
    closed: bool,
    output: Vec<u8>,
    awaiting: Awaiting,
}

impl Scope {
    pub closed spec fn buffered(&self) -> Seq<u8> {
        self.input@
    }

    pub closed spec fn is_closed(&self) -> bool {
        self.closed
    }

    pub closed spec fn outgoing(&self) -> Seq<u8> {
        self.output@
    }

    pub closed spec fn state(&self) -> Awaiting {
        self.awaiting
    }

    /// A fresh session: nothing buffered, nothing to send, no reply awaited.
    pub fn new() -> (r: Scope)
        ensures
            r.buffered() == Seq::<u8>::empty(),
            !r.is_closed(),
            r.outgoing() == Seq::<u8>::empty(),
            r.state() == Awaiting::Idle,
    {
        Scope { input: Vec::new(), closed: false, output: Vec::new(), awaiting: Awaiting::Idle }
    }

    /// Appends bytes received from the stream.
    pub fn receive(&mut self, bytes: &[u8])
        ensures
            final(self).buffered() == old(self).buffered() + bytes@,
            final(self).is_closed() == old(self).is_closed(),
            final(self).outgoing() == old(self).outgoing(),
            final(self).state() == old(self).state(),
    {
        let mut i: usize = 0;
        while i < bytes.len()
            invariant
                0 <= i <= bytes@.len(),
                self.input@ == old(self).input@ + bytes@.subrange(0, i as int),
                self.closed == old(self).closed,
                self.output@ == old(self).output@,
                self.awaiting == old(self).awaiting,
            decreases bytes@.len() - i,
        {
            self.input.push(bytes[i]);
            i = i + 1;
            assert(bytes@.subrange(0, i as int) == bytes@.subrange(0, i - 1) + seq![bytes@[i - 1]]);
        }
        assert(bytes@.subrange(0, bytes@.len() as int) == bytes@);
    }

    /// Records that the stream has ended: no more bytes will be received.
    pub fn end_of_stream(&mut self)
        ensures
            final(self).buffered() == old(self).buffered(),
            final(self).is_closed(),
            final(self).outgoing() == old(self).outgoing(),
            final(self).state() == old(self).state(),
    {
        self.closed = true;
    }

    /// Hands out the bytes waiting to be sent, all of them.
    pub fn take_output(&mut self) -> (r: Vec<u8>)
        ensures
            r@ == old(self).outgoing(),
            final(self).outgoing() == Seq::<u8>::empty(),
            final(self).buffered() == old(self).buffered(),
            final(self).is_closed() == old(self).is_closed(),
            final(self).state() == old(self).state(),
    {
        let mut out: Vec<u8> = Vec::new();
        std::mem::swap(&mut out, &mut self.output);
        out
    }

    /// Queues a command for sending.
    pub fn write_fmt(&mut self, mnemonic: &str, args: &[Argument])
        ensures
            final(self).outgoing() == old(self).outgoing() + command_line(mnemonic.spec_bytes(), args@),
            final(self).buffered() == old(self).buffered(),
            final(self).is_closed() == old(self).is_closed(),
            final(self).state() == old(self).state(),
    {
        let line = format_command(mnemonic, args);
        let mut i: usize = 0;
        while i < line.len()
            invariant
                0 <= i <= line@.len(),
                self.output@ == old(self).output@ + line@.subrange(0, i as int),
                self.input@ == old(self).input@,
                self.closed == old(self).closed,
                self.awaiting == old(self).awaiting,
            decreases line@.len() - i,
        {
            self.output.push(line[i]);
            i = i + 1;
            assert(line@.subrange(0, i as int) == line@.subrange(0, i - 1) + seq![line@[i - 1]]);
        }
        assert(line@.subrange(0, line@.len() as int) == line@);
    }

    /// Drops the first `n` buffered bytes.
    fn consume(&mut self, n: usize)
        requires
            n <= old(self).input@.len(),
        ensures
            final(self).input@ == old(self).input@.subrange(n as int, old(self).input@.len() as int),
            final(self).closed == old(self).closed,
            final(self).output@ == old(self).output@,
            final(self).awaiting == old(self).awaiting,
    {
        if n > 0 {
            self.input = copy_range(self.input.as_slice(), n, self.input.len());
        }
    }

    /// Reads one line of bytes, without its newline.
    fn read_line_bytes(&mut self) -> (r: Option<Result<Vec<u8>, ScopeError>>)
        ensures
            final(self).input@ == old(self).input@.subrange(
                line_step(old(self).input@, old(self).closed).1,
                old(self).input@.len() as int,
            ),
            match r {
                None => line_step(old(self).input@, old(self).closed).0 is None,
                Some(Ok(v)) => line_step(old(self).input@, old(self).closed).0 == Some(
                    Ok::<Seq<u8>, ScopeError>(v@),
                ),
                Some(Err(e)) => line_step(old(self).input@, old(self).closed).0 == Some(
                    Err::<Seq<u8>, ScopeError>(e),
                ),
            },
            final(self).closed == old(self).closed,
            final(self).output@ == old(self).output@,
            final(self).awaiting == old(self).awaiting,
    {
        let (r, used) = decode_line(self.input.as_slice(), self.closed);
        proof {
            if line_step(self.input@, self.closed).0 is None {
                assert(self.input@.subrange(0, self.input@.len() as int) == self.input@);
            }
        }
        self.consume(used);
        r
    }

    /// Reads one line of text, without its newline. A stream that ends in
    /// the middle of a line, or a line that is not UTF-8, is an `Io` error;
    /// a stream that has ended with nothing buffered gives an empty line.
    pub fn read_line(&mut self) -> (r: Step<Result<String, ScopeError>>)
        ensures
            text_view(r) == map_text(line_step(old(self).buffered(), old(self).is_closed()).0),
            final(self).buffered() == old(self).buffered().subrange(
                line_step(old(self).buffered(), old(self).is_closed()).1,
                old(self).buffered().len() as int,
            ),
            final(self).is_closed() == old(self).is_closed(),
            final(self).outgoing() == old(self).outgoing(),
            final(self).state() == old(self).state(),
    {
        match self.read_line_bytes() {
            None => Step::Pending,
            Some(Err(e)) => Step::Ready(Err(e)),
            Some(Ok(v)) => match utf8_string(v) {
                Some(s) => Step::Ready(Ok(s)),
                None => Step::Ready(Err(ScopeError::Io)),
            },
        }
    }

    /// Reads one block `#D<D digits: length><length bytes>` and the line
    /// after it, and gives the payload.
    pub fn read_tmc(&mut self) -> (r: Step<Result<Vec<u8>, ScopeError>>)
        ensures
            bytes_view(r) == block_step(old(self).buffered(), old(self).is_closed()).0,
            final(self).buffered() == old(self).buffered().subrange(
                block_step(old(self).buffered(), old(self).is_closed()).1,
                old(self).buffered().len() as int,
            ),
            final(self).is_closed() == old(self).is_closed(),
            final(self).outgoing() == old(self).outgoing(),
            final(self).state() == old(self).state(),
    {
        let (r, used) = decode_block(self.input.as_slice(), self.closed);
        proof {
            if block_step(self.input@, self.closed).0 is None {
                assert(self.input@.subrange(0, self.input@.len() as int) == self.input@);
            }
        }
        self.consume(used);
        match r {
            None => Step::Pending,
            Some(Ok(v)) => Step::Ready(Ok(v)),
            Some(Err(e)) => Step::Ready(Err(e)),
        }
    }

    /// Asks for the instrument's identity and reads the reply line, with
    /// white space removed at both ends. The query is queued unless the session
    /// already waits for a line; the session waits for a line until the
    /// reply is complete.
    pub fn info(&mut self) -> (r: Step<Result<String, ScopeError>>)
        ensures
            final(self).outgoing() == old(self).outgoing() + (if old(self).state() == Awaiting::Line {
                Seq::<u8>::empty()
            } else {
                command_line(IDENTITY_QUERY.spec_bytes(), seq![])
            }),
            text_view(r) == match line_step(old(self).buffered(), old(self).is_closed()).0 {
                Some(l) => Some(trimmed(as_text(l))),
                None => None::<Result<Seq<char>, ScopeError>>,
            },
            final(self).buffered() == old(self).buffered().subrange(
                line_step(old(self).buffered(), old(self).is_closed()).1,
                old(self).buffered().len() as int,
            ),
            final(self).is_closed() == old(self).is_closed(),
            final(self).state() == if r is Pending { Awaiting::Line } else { Awaiting::Idle },
    {
        if self.awaiting != Awaiting::Line {
            let args: Vec<Argument> = Vec::new();
            self.write_fmt(IDENTITY_QUERY, args.as_slice());
            self.awaiting = Awaiting::Line;
            assert(args@ == Seq::<Argument>::empty());
        }
        match self.read_line_bytes() {
            None => Step::Pending,
            Some(Err(e)) => {
                self.awaiting = Awaiting::Idle;
                Step::Ready(Err(e))
            },
            Some(Ok(v)) => {
                self.awaiting = Awaiting::Idle;
                match utf8_string(v) {
                    Some(s) => Step::Ready(Ok(trim_text(s.as_str()))),
                    None => Step::Ready(Err(ScopeError::Io)),
                }
            },
        }
    }

    /// Asks for a PNG capture of the screen, reads the block that carries it
    /// and decodes it. The request is queued unless the session already
    /// waits for a block; the session waits for a block until the reply is
    /// complete. A payload that is not a valid PNG is a `Decode` error.
    pub fn grab_screen(&mut self) -> (r: Step<Result<Bitmap, ScopeError>>)
        ensures
            final(self).outgoing() == old(self).outgoing() + (if old(self).state() == Awaiting::Block {
                Seq::<u8>::empty()
            } else {
                command_line(CAPTURE_QUERY.spec_bytes(), capture_args())
            }),
            image_view(r) == match block_step(old(self).buffered(), old(self).is_closed()).0 {
                Some(b) => Some(as_image(b)),
                None => None::<Result<(u32, u32, Seq<u8>), ScopeError>>,
            },
            r matches Step::Ready(Ok(b)) ==> b.wf(),
            final(self).buffered() == old(self).buffered().subrange(
                block_step(old(self).buffered(), old(self).is_closed()).1,
                old(self).buffered().len() as int,
            ),
            final(self).is_closed() == old(self).is_closed(),
            final(self).state() == if r is Pending { Awaiting::Block } else { Awaiting::Idle },
    {
        if self.awaiting != Awaiting::Block {
            let args: Vec<Argument> = vec![
                Argument::Discrete("ON"),
                Argument::Bool(false),
                Argument::Discrete("PNG"),
            ];
            assert(args@ == capture_args());
            self.write_fmt(CAPTURE_QUERY, args.as_slice());
            self.awaiting = Awaiting::Block;
        }
        match self.read_tmc() {
            Step::Pending => Step::Pending,
            Step::Ready(Err(e)) => {
                self.awaiting = Awaiting::Idle;
                Step::Ready(Err(e))
            },
            Step::Ready(Ok(data)) => {
                self.awaiting = Awaiting::Idle;
                match Bitmap::new_from_png(data) {
                    Some(b) => Step::Ready(Ok(b)),
                    None => Step::Ready(Err(ScopeError::Decode)),
                }
            },
        }
    }
}

/// A line without a newline, followed by its newline and then anything,
/// reads as exactly that line and leaves exactly what follows.
pub proof fn lemma_line_then_rest(line: Seq<u8>, rest: Seq<u8>, closed: bool)
    requires
        !has_newline(line),
    ensures
        line_step(line + seq![NEWLINE] + rest, closed) == (
            Some(Ok::<Seq<u8>, ScopeError>(line)),
            line.len() as int + 1,
        ),
        (line + seq![NEWLINE] + rest).subrange(line.len() as int + 1, (line + seq![NEWLINE] + rest).len() as int)
            == rest,
{
    let s = line + seq![NEWLINE] + rest;
    assert(s[line.len() as int] == NEWLINE);
    assert forall|k: int| 0 <= k < line.len() implies s[k] != NEWLINE by {
        assert(s[k] == line[k]);
    }
    assert(is_line_end(s, line.len() as int));
    let j = line_end(s);
    assert(is_line_end(s, j));
    if j < line.len() {
        assert(s[j] != NEWLINE);
    } else if j > line.len() {
        assert(s[line.len() as int] != NEWLINE);
    }
    assert(s.subrange(0, line.len() as int) == line);
    assert(s.subrange(line.len() as int + 1, s.len() as int) == rest);
}

/// Two replies buffered one after the other are read independently: the
/// first read gives the first line and leaves the second reply and what
/// follows it, and the next read gives the second line. Nothing of the
/// first reply carries over to the second.
pub proof fn lemma_replies_independent(first: Seq<u8>, second: Seq<u8>, rest: Seq<u8>, closed: bool)
    requires
        !has_newline(first),
        !has_newline(second),
    ensures
        ({
            let s = first + seq![NEWLINE] + second + seq![NEWLINE] + rest;
            let after = s.subrange(line_step(s, closed).1, s.len() as int);
            &&& line_step(s, closed).0 == Some(Ok::<Seq<u8>, ScopeError>(first))
            &&& after == second + seq![NEWLINE] + rest
            &&& line_step(after, closed).0 == Some(Ok::<Seq<u8>, ScopeError>(second))
            &&& after.subrange(line_step(after, closed).1, after.len() as int) == rest
        }),
{
    let tail = second + seq![NEWLINE] + rest;
    assert(first + seq![NEWLINE] + second + seq![NEWLINE] + rest == first + seq![NEWLINE] + tail);
    lemma_line_then_rest(first, tail, closed);
    lemma_line_then_rest(second, rest, closed);
}

/// The capture request that `grab_screen` queues reads back as the mnemonic
/// `:DISPlay:DATA?` and the fields `ON`, `0` and `PNG`, in that order, and its
/// flag field reads back as `false`.
pub proof fn lemma_capture_request_parses()
    ensures
        parse_command(command_line(CAPTURE_QUERY.spec_bytes(), capture_args())) == (
            CAPTURE_QUERY.spec_bytes(),
            seq!["ON".spec_bytes(), seq![48u8], "PNG".spec_bytes()],
        ),
        parse_bool(rendered(capture_args())[1]) == Some(false),
{
    broadcast use vstd::string::is_ascii_spec_bytes;
    reveal_strlit(":DISPlay:DATA?");
    reveal_strlit("ON");
    reveal_strlit("PNG");
    let m = CAPTURE_QUERY.spec_bytes();
    let on = "ON".spec_bytes();
    let png = "PNG".spec_bytes();
    assert(vstd::string::is_ascii(CAPTURE_QUERY));
    assert(vstd::string::is_ascii("ON"));
    assert(vstd::string::is_ascii("PNG"));
    assert(free_of(m, SPACE) && free_of(m, COMMA) && free_of(m, NEWLINE));
    assert(free_of(on, COMMA) && free_of(on, NEWLINE));
    assert(free_of(png, COMMA) && free_of(png, NEWLINE));
    let args = capture_args();
    assert forall|i: int| 0 <= i < args.len() implies free_of(#[trigger] render_arg(args[i]), COMMA)
        && free_of(render_arg(args[i]), NEWLINE) by {
        if i == 1 {
            assert(render_arg(args[i]) == seq![48u8]);
        }
    }
    lemma_command_round_trip(m, args);
    assert(rendered(args) =~= seq![on, seq![48u8], png]);
}

} // verus!
