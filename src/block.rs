use vstd::prelude::*;
use crate::command::NEWLINE;
use crate::error::ScopeError;

verus! {

/// Byte that opens a block: `#`.
pub const BLOCK_MARKER: u8 = 35;

/// The ASCII digit zero.
pub const DIGIT_ZERO: u8 = 48;

/// `b` is an ASCII decimal digit.
pub open spec fn is_digit(b: u8) -> bool {
    48 <= b <= 57
}

/// Every byte of `s` is an ASCII decimal digit.
pub open spec fn all_digits(s: Seq<u8>) -> bool {
    forall|i: int| 0 <= i < s.len() ==> is_digit(#[trigger] s[i])
}

/// The number that a run of ASCII digits spells in base ten.
pub open spec fn digits_value(s: Seq<u8>) -> nat
    decreases s.len(),
{
    if s.len() == 0 {
        0
    } else {
        digits_value(s.drop_last()) * 10 + (s.last() - DIGIT_ZERO) as nat
    }
}

/// Ten to the power `n`.
pub open spec fn pow10(n: nat) -> nat
    decreases n,
{
    if n == 0 {
        1
    } else {
        10 * pow10((n - 1) as nat)
    }
}

/// `i` is the position of the first newline in `s`.
pub open spec fn is_line_end(s: Seq<u8>, i: int) -> bool {
    0 <= i < s.len() && s[i] == NEWLINE && forall|k: int| 0 <= k < i ==> s[k] != NEWLINE
}

/// `s` holds a newline.
pub open spec fn has_newline(s: Seq<u8>) -> bool {
    exists|i: int| 0 <= i < s.len() && s[i] == NEWLINE
}

/// The position of the first newline in `s`, if there is one.
pub open spec fn line_end(s: Seq<u8>) -> int {
    choose|i: int| is_line_end(s, i)
}

/// What reading one line from the buffered bytes `s` gives, and how many
/// bytes it takes; `None` while more bytes are needed. `closed` says that the
/// stream has ended, so that no more bytes will come.
pub open spec fn line_step(s: Seq<u8>, closed: bool) -> (Option<Result<Seq<u8>, ScopeError>>, int) {
    if has_newline(s) {
        (Some(Ok(s.subrange(0, line_end(s)))), line_end(s) + 1)
    } else if !closed {
        (None, 0)
    } else if s.len() == 0 {
        (Some(Ok(seq![])), 0)
    } else {
        (Some(Err(ScopeError::Io)), s.len() as int)
    }
}

/// The result of a read that needs more bytes than the buffered `s`: an
/// `Io` error taking all of `s` once the stream has ended, else a wait.
pub open spec fn short_read(s: Seq<u8>, closed: bool) -> (Option<Result<Seq<u8>, ScopeError>>, int) {
    if closed {
        (Some(Err(ScopeError::Io)), s.len() as int)
    } else {
        (None, 0)
    }
}

/// What reading one block `#D<D digits: length><length bytes><line>` from the
/// buffered bytes `s` gives, and how many bytes it takes; `None` while more
/// bytes are needed.
pub open spec fn block_step(s: Seq<u8>, closed: bool) -> (Option<Result<Seq<u8>, ScopeError>>, int) {
    if s.len() < 2 {
        short_read(s, closed)
    } else if s[0] != BLOCK_MARKER || !is_digit(s[1]) {
        (Some(Err(ScopeError::Format)), 2)
    } else {
        let h = 2 + (s[1] - DIGIT_ZERO);
        if s.len() < h {
            short_read(s, closed)
        } else if h == 2 || !all_digits(s.subrange(2, h)) {
            (Some(Err(ScopeError::Format)), h)
        } else {
            let n = digits_value(s.subrange(2, h));
            if s.len() < h + n {
                short_read(s, closed)
            } else {
                let payload = s.subrange(h, h + n);
                let (trailer, used) = line_step(s.subrange(h + n, s.len() as int), closed);
                match trailer {
                    None => (None, 0),
                    Some(Ok(_)) => (Some(Ok(payload)), h + n + used),
                    Some(Err(e)) => (Some(Err(e)), h + n + used),
                }
            }
        }
    }
}

/// Finds the first newline of `s` at or after `start`.
pub fn find_newline(s: &[u8], start: usize) -> (r: Option<usize>)
    requires
        start <= s@.len(),
    ensures
        match r {
            Some(i) => start <= i < s.len() && is_line_end(s@.subrange(start as int, s@.len() as int), i - start),
            None => !has_newline(s@.subrange(start as int, s@.len() as int)),
        },
{
    let mut i: usize = start;
    while i < s.len()
        invariant
            start <= i <= s@.len(),
            forall|k: int| start <= k < i ==> s@[k] != NEWLINE,
        decreases s@.len() - i,
    {
        if s[i] == NEWLINE {
            return Some(i);
        }
        i = i + 1;
    }
    None
}

proof fn lemma_line_end_unique(s: Seq<u8>, i: int)
    requires
        is_line_end(s, i),
    ensures
        has_newline(s),
        line_end(s) == i,
{
    let j = line_end(s);
    assert(is_line_end(s, j));
    if j < i {
        assert(s[j] != NEWLINE);
    } else if i < j {
        assert(s[i] != NEWLINE);
    }
}

proof fn lemma_digits_bound(s: Seq<u8>)
    requires
        all_digits(s),
    ensures
        digits_value(s) < pow10(s.len()),
    decreases s.len(),
{
    if s.len() > 0 {
        let p = s.drop_last();
        assert(all_digits(p)) by {
            assert forall|i: int| 0 <= i < p.len() implies is_digit(#[trigger] p[i]) by {
                assert(p[i] == s[i]);
            }
        }
        lemma_digits_bound(p);
        let v = digits_value(p);
        let d = (s.last() - DIGIT_ZERO) as nat;
        let q = pow10(p.len());
        assert(s.last() == s[s.len() - 1]);
        assert(v * 10 + d < 10 * q) by (nonlinear_arith)
            requires v < q, d < 10;
    }
}

/// Reads the decimal length field `s[lo..hi]`; `None` unless it is one or
/// more ASCII digits.
fn parse_length(s: &[u8], lo: usize, hi: usize) -> (r: Option<usize>)
    requires
        lo <= hi <= s@.len(),
        hi - lo <= 9,
    ensures
        match r {
            Some(n) => hi > lo && all_digits(s@.subrange(lo as int, hi as int))
                && n == digits_value(s@.subrange(lo as int, hi as int)),
            None => hi == lo || !all_digits(s@.subrange(lo as int, hi as int)),
        },
{
    if hi == lo {
        return None;
    }
    let mut v: usize = 0;
    let mut i: usize = lo;
    while i < hi
        invariant
            lo <= i <= hi <= s@.len(),
            hi - lo <= 9,
            all_digits(s@.subrange(lo as int, i as int)),
            v == digits_value(s@.subrange(lo as int, i as int)),
            v < pow10((i - lo) as nat),
        decreases hi - i,
    {
        let b = s[i];
        if b < 48 || b > 57 {
            assert(s@.subrange(lo as int, hi as int)[i - lo] == b);
            return None;
        }
        let ghost prev = s@.subrange(lo as int, i as int);
        let ghost next = s@.subrange(lo as int, i + 1);
        proof {
            assert(next.drop_last() == prev);
            assert(next.last() == b);
            assert(all_digits(next)) by {
                assert forall|k: int| 0 <= k < next.len() implies is_digit(#[trigger] next[k]) by {
                    if k < prev.len() {
                        assert(next[k] == prev[k]);
                    }
                }
            }
            lemma_digits_bound(next);
            lemma_pow10_le((i + 1 - lo) as nat, 9);
        }
        v = v * 10 + (b - DIGIT_ZERO) as usize;
        i = i + 1;
    }
    Some(v)
}

proof fn lemma_pow10_le(a: nat, b: nat)
    requires
        a <= b,
    ensures
        pow10(a) <= pow10(b),
        pow10(9) == 1_000_000_000,
    decreases b,
{
    reveal_with_fuel(pow10, 10);
    if a < b {
        lemma_pow10_le(a, (b - 1) as nat);
    }
}

/// Copies `s[lo..hi]` into a new vector.
pub fn copy_range(s: &[u8], lo: usize, hi: usize) -> (r: Vec<u8>)
    requires
        lo <= hi <= s@.len(),
    ensures
        r@ == s@.subrange(lo as int, hi as int),
{
    let mut out: Vec<u8> = Vec::new();
    let mut i: usize = lo;
    while i < hi
        invariant
            lo <= i <= hi <= s@.len(),
            out@ == s@.subrange(lo as int, i as int),
        decreases hi - i,
    {
        out.push(s[i]);
        i = i + 1;
        assert(s@.subrange(lo as int, i as int) == s@.subrange(lo as int, i - 1) + seq![s@[i - 1]]);
    }
    out
}

/// Decodes one line from the buffered bytes `s`: the bytes before the first
/// newline, and how many bytes the line takes with its newline.
pub fn decode_line(s: &[u8], closed: bool) -> (r: (Option<Result<Vec<u8>, ScopeError>>, usize))
    ensures
        r.1 == line_step(s@, closed).1,
        r.1 <= s@.len(),
        match r.0 {
            None => line_step(s@, closed).0 is None,
            Some(Ok(v)) => line_step(s@, closed).0 == Some(Ok::<Seq<u8>, ScopeError>(v@)),
            Some(Err(e)) => line_step(s@, closed).0 == Some(Err::<Seq<u8>, ScopeError>(e)),
        },
{
    match find_newline(s, 0) {
        Some(i) => {
            proof {
                assert(s@.subrange(0, s@.len() as int) == s@);
                lemma_line_end_unique(s@, i as int);
            }
            (Some(Ok(copy_range(s, 0, i))), i + 1)
        },
        None => {
            assert(s@.subrange(0, s@.len() as int) == s@);
            if !closed {
                (None, 0)
            } else if s.len() == 0 {
                (Some(Ok(Vec::new())), 0)
            } else {
                (Some(Err(ScopeError::Io)), s.len())
            }
        },
    }
}

/// Decodes one block from the buffered bytes `s`: the payload, and how many
/// bytes the block takes with the line that follows it. A malformed header
/// is a `Format` error; a stream that ends inside the block or inside the
/// line after it is an `Io` error.
pub fn decode_block(s: &[u8], closed: bool) -> (r: (Option<Result<Vec<u8>, ScopeError>>, usize))
    ensures
        r.1 == block_step(s@, closed).1,
        r.1 <= s@.len(),
        match r.0 {
            None => block_step(s@, closed).0 is None,
            Some(Ok(v)) => block_step(s@, closed).0 == Some(Ok::<Seq<u8>, ScopeError>(v@)),
            Some(Err(e)) => block_step(s@, closed).0 == Some(Err::<Seq<u8>, ScopeError>(e)),
        },
{
    let len = s.len();
    if len < 2 {
        return if closed { (Some(Err(ScopeError::Io)), len) } else { (None, 0) };
    }
    if s[0] != BLOCK_MARKER || s[1] < 48 || s[1] > 57 {
        return (Some(Err(ScopeError::Format)), 2);
    }
    let h: usize = 2 + (s[1] - DIGIT_ZERO) as usize;
    if len < h {
        return if closed { (Some(Err(ScopeError::Io)), len) } else { (None, 0) };
    }
    let n = match parse_length(s, 2, h) {
        Some(n) => n,
        None => return (Some(Err(ScopeError::Format)), h),
    };
    if len - h < n {
        return if closed { (Some(Err(ScopeError::Io)), len) } else { (None, 0) };
    }
    let end = h + n;
    let ghost rest = s@.subrange(end as int, len as int);
    let trailer = find_newline(s, end);
    match trailer {
        Some(i) => {
            proof {
                lemma_line_end_unique(rest, i - end);
            }
            (Some(Ok(copy_range(s, h, end))), i + 1)
        },
        None => {
            if !closed {
                (None, 0)
            } else if end == len {
                (Some(Ok(copy_range(s, h, end))), len)
            } else {
                (Some(Err(ScopeError::Io)), len)
            }
        },
    }
}

/// The bytes of a block: marker, digit count, length digits, payload.
pub open spec fn block_bytes(digits: Seq<u8>, payload: Seq<u8>) -> Seq<u8> {
    seq![BLOCK_MARKER, (DIGIT_ZERO + digits.len()) as u8] + digits + payload
}

/// A block whose length field has one to nine digits that spell the
/// payload's length, followed by a line, decodes to exactly its payload and
/// takes the block and the line through its newline, whatever follows.
pub proof fn lemma_block_decodes(
    digits: Seq<u8>,
    payload: Seq<u8>,
    line: Seq<u8>,
    rest: Seq<u8>,
    closed: bool,
)
    requires
        1 <= digits.len() <= 9,
        all_digits(digits),
        digits_value(digits) == payload.len(),
        !has_newline(line),
    ensures
        ({
            let s = block_bytes(digits, payload) + line + seq![NEWLINE] + rest;
            block_step(s, closed) == (
                Some(Ok::<Seq<u8>, ScopeError>(payload)),
                (block_bytes(digits, payload).len() + line.len() + 1) as int,
            )
        }),
{
    let b = block_bytes(digits, payload);
    let s = b + line + seq![NEWLINE] + rest;
    let h: int = 2 + digits.len() as int;
    let n: int = payload.len() as int;
    assert(s[0] == BLOCK_MARKER);
    assert(s[1] == (DIGIT_ZERO + digits.len()) as u8);
    assert(s.subrange(2, h) == digits);
    assert(s.subrange(h, h + n) == payload);
    let t = s.subrange(h + n, s.len() as int);
    assert(t == line + seq![NEWLINE] + rest);
    assert(t[line.len() as int] == NEWLINE);
    assert forall|k: int| 0 <= k < line.len() implies t[k] != NEWLINE by {
        assert(t[k] == line[k]);
        if line[k] == NEWLINE {
            assert(has_newline(line));
        }
    }
    lemma_line_end_unique(t, line.len() as int);
}

/// A header whose second byte is not a digit is a `Format` error that takes
/// the two header bytes and nothing more.
pub proof fn lemma_bad_digit_count(s: Seq<u8>, closed: bool)
    requires
        s.len() >= 2,
        s[0] == BLOCK_MARKER,
        !is_digit(s[1]),
    ensures
        block_step(s, closed) == (Some(Err::<Seq<u8>, ScopeError>(ScopeError::Format)), 2int),
{
}

/// A length field that holds a byte other than a digit is a `Format` error
/// that takes the header and the length field.
pub proof fn lemma_bad_length_field(s: Seq<u8>, i: int, closed: bool)
    requires
        s.len() >= 2,
        s[0] == BLOCK_MARKER,
        is_digit(s[1]),
        s.len() >= 2 + (s[1] - DIGIT_ZERO),
        2 <= i < 2 + (s[1] - DIGIT_ZERO),
        !is_digit(s[i]),
    ensures
        block_step(s, closed) == (
            Some(Err::<Seq<u8>, ScopeError>(ScopeError::Format)),
            2 + (s[1] - DIGIT_ZERO),
        ),
{
    let h = 2 + (s[1] - DIGIT_ZERO);
    assert(s.subrange(2, h)[i - 2] == s[i]);
}

} // verus!
