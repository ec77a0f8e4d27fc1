use vstd::prelude::*;
use vstd::string::StringSliceAdditionalSpecFns;

verus! {

/// Byte that separates the arguments of a command.
pub const COMMA: u8 = 44;

/// Byte that separates the mnemonic from its arguments.
pub const SPACE: u8 = 32;

/// Byte that ends every line of the protocol.
pub const NEWLINE: u8 = 10;

/// An argument of a command, rendered as text on the wire.
#[derive(Clone, Debug)]
pub enum Argument {
    /// An enumerated symbolic value, sent unquoted as it is.
    Discrete(&'static str),
    /// A flag, sent as `1` or `0`.
    Bool(bool),
    /// A number, sent in decimal without leading zeros.
    Number(u64),
    /// A plain string, sent as it is.
    Text(String),
}

/// The decimal digits of `n`, without leading zeros.
pub open spec fn decimal(n: nat) -> Seq<u8>
    decreases n,
{
    if n < 10 {
        seq![(48 + n) as u8]
    } else {
        decimal(n / 10).push((48 + n % 10) as u8)
    }
}

/// The text of an argument on the wire.
pub open spec fn render_arg(a: Argument) -> Seq<u8> {
    match a {
        Argument::Discrete(s) => s.spec_bytes(),
        Argument::Bool(b) => if b { seq![49u8] } else { seq![48u8] },
        Argument::Number(n) => decimal(n as nat),
        Argument::Text(s) => vstd::utf8::encode_utf8(s@),
    }
}

/// The arguments rendered and joined by commas.
pub open spec fn join_args(args: Seq<Argument>) -> Seq<u8>
    decreases args.len(),
{
    if args.len() == 0 {
        seq![]
    } else if args.len() == 1 {
        render_arg(args[0])
    } else {
        join_args(args.drop_last()) + seq![COMMA] + render_arg(args.last())
    }
}

/// The line sent for a mnemonic and its arguments: the mnemonic, then a
/// space and the comma-joined arguments if there are any, then a newline.
pub open spec fn command_line(mnemonic: Seq<u8>, args: Seq<Argument>) -> Seq<u8> {
    if args.len() == 0 {
        mnemonic + seq![NEWLINE]
    } else {
        mnemonic + seq![SPACE] + join_args(args) + seq![NEWLINE]
    }
}

fn push_bytes(out: &mut Vec<u8>, b: &[u8])
    ensures
        final(out)@ == old(out)@ + b@,
{
    let mut i: usize = 0;
    while i < b.len()
        invariant
            0 <= i <= b@.len(),
            out@ == old(out)@ + b@.subrange(0, i as int),
        decreases b@.len() - i,
    {
        out.push(b[i]);
        i = i + 1;
        assert(b@.subrange(0, i as int) == b@.subrange(0, i - 1) + seq![b@[i - 1]]);
    }
    assert(b@.subrange(0, b@.len() as int) == b@);
}

fn push_decimal(out: &mut Vec<u8>, n: u64)
    ensures
        final(out)@ == old(out)@ + decimal(n as nat),
    decreases n,
{
    if n >= 10 {
        push_decimal(out, n / 10);
    }
    out.push(48u8 + (n % 10) as u8);
}

fn push_arg(out: &mut Vec<u8>, a: &Argument)
    ensures
        final(out)@ == old(out)@ + render_arg(*a),
{
    match a {
        Argument::Discrete(s) => push_bytes(out, s.as_bytes()),
        Argument::Bool(b) => {
            if *b {
                out.push(49u8);
            } else {
                out.push(48u8);
            }
        },
        Argument::Number(n) => push_decimal(out, *n),
        Argument::Text(s) => push_bytes(out, s.as_str().as_bytes()),
    }
}

/// Renders a command into the bytes the instrument expects.
///
/// No quoting is done: the caller keeps commas, spaces and newlines out of
/// the mnemonic and the arguments.
pub fn format_command(mnemonic: &str, args: &[Argument]) -> (r: Vec<u8>)
    ensures
        r@ == command_line(mnemonic.spec_bytes(), args@),
{
    let mut out: Vec<u8> = Vec::new();
    push_bytes(&mut out, mnemonic.as_bytes());
    if args.len() > 0 {
        out.push(SPACE);
        let mut i: usize = 0;
        while i < args.len()
            invariant
                0 <= i <= args@.len(),
                args@.len() > 0,
                i == 0 ==> out@ == mnemonic.spec_bytes() + seq![SPACE],
                i > 0 ==> out@ == mnemonic.spec_bytes() + seq![SPACE] + join_args(
                    args@.subrange(0, i as int),
                ),
            decreases args@.len() - i,
        {
            if i > 0 {
                out.push(COMMA);
            }
            push_arg(&mut out, &args[i]);
            proof {
                let p = args@.subrange(0, i + 1);
                assert(p.drop_last() == args@.subrange(0, i as int));
                assert(p.last() == args@[i as int]);
            }
            i = i + 1;
        }
        assert(args@.subrange(0, args@.len() as int) == args@);
    }
    out.push(NEWLINE);
    out
}

/// `s` holds no byte `b`.
pub open spec fn free_of(s: Seq<u8>, b: u8) -> bool {
    forall|k: int| 0 <= k < s.len() ==> s[k] != b
}

/// `i` is the position of the last comma in `s`.
pub open spec fn is_last_comma(s: Seq<u8>, i: int) -> bool {
    0 <= i < s.len() && s[i] == COMMA && forall|k: int| i < k < s.len() ==> s[k] != COMMA
}

/// `i` is the position of the first space in `s`.
pub open spec fn is_first_space(s: Seq<u8>, i: int) -> bool {
    0 <= i < s.len() && s[i] == SPACE && forall|k: int| 0 <= k < i ==> s[k] != SPACE
}

/// The fields of `s` between commas.
pub open spec fn split_commas(s: Seq<u8>) -> Seq<Seq<u8>>
    decreases s.len(),
{
    if exists|i: int| is_last_comma(s, i) {
        let i = choose|i: int| is_last_comma(s, i);
        split_commas(s.subrange(0, i)).push(s.subrange(i + 1, s.len() as int))
    } else {
        seq![s]
    }
}

/// Reads a command line back: the mnemonic before the first space, and the
/// comma-separated argument fields after it, without the final newline.
pub open spec fn parse_command(line: Seq<u8>) -> (Seq<u8>, Seq<Seq<u8>>) {
    let body = line.drop_last();
    if exists|i: int| is_first_space(body, i) {
        let i = choose|i: int| is_first_space(body, i);
        (body.subrange(0, i), split_commas(body.subrange(i + 1, body.len() as int)))
    } else {
        (body, seq![])
    }
}

/// Reads a flag field back.
pub open spec fn parse_bool(f: Seq<u8>) -> Option<bool> {
    if f == seq![49u8] {
        Some(true)
    } else if f == seq![48u8] {
        Some(false)
    } else {
        None
    }
}

/// The fields that the arguments render to.
pub open spec fn rendered(args: Seq<Argument>) -> Seq<Seq<u8>> {
    args.map_values(|a: Argument| render_arg(a))
}

proof fn lemma_split_join(args: Seq<Argument>)
    requires
        args.len() > 0,
        forall|i: int| 0 <= i < args.len() ==> free_of(#[trigger] render_arg(args[i]), COMMA),
    ensures
        split_commas(join_args(args)) == rendered(args),
    decreases args.len(),
{
    let s = join_args(args);
    if args.len() == 1 {
        assert(free_of(render_arg(args[0]), COMMA));
        assert(!exists|i: int| is_last_comma(s, i));
        assert(rendered(args) == seq![render_arg(args[0])]);
    } else {
        let p = args.drop_last();
        let j = join_args(p);
        let r = render_arg(args.last());
        assert(free_of(r, COMMA)) by {
            assert(r == render_arg(args[args.len() - 1]));
        }
        assert(s == j + seq![COMMA] + r);
        let n = j.len() as int;
        assert(is_last_comma(s, n)) by {
            assert forall|k: int| n < k < s.len() implies s[k] != COMMA by {
                assert(s[k] == r[k - n - 1]);
            }
        }
        let i = choose|i: int| is_last_comma(s, i);
        if i < n {
            assert(s[n] != COMMA);
        } else if i > n {
            assert(s[i] == r[i - n - 1]);
        }
        assert(s.subrange(0, n) == j);
        assert(s.subrange(n + 1, s.len() as int) == r);
        assert forall|k: int| 0 <= k < p.len() implies free_of(#[trigger] render_arg(p[k]), COMMA) by {
            assert(p[k] == args[k]);
        }
        lemma_split_join(p);
        assert(rendered(args) == rendered(p).push(r));
    }
}

/// A command line reads back as its mnemonic and the rendered arguments, as
/// long as the mnemonic holds no space, comma or newline and no argument
/// holds a comma or a newline; a flag field reads back as the flag.
pub proof fn lemma_command_round_trip(mnemonic: Seq<u8>, args: Seq<Argument>)
    requires
        args.len() > 0,
        free_of(mnemonic, SPACE),
        free_of(mnemonic, COMMA),
        free_of(mnemonic, NEWLINE),
        forall|i: int| 0 <= i < args.len() ==> free_of(#[trigger] render_arg(args[i]), COMMA),
        forall|i: int| 0 <= i < args.len() ==> free_of(#[trigger] render_arg(args[i]), NEWLINE),
    ensures
        parse_command(command_line(mnemonic, args)) == (mnemonic, rendered(args)),
        forall|i: int|
            0 <= i < args.len() ==> match #[trigger] args[i] {
                Argument::Bool(b) => parse_bool(rendered(args)[i]) == Some(b),
                _ => true,
            },
{
    let line = command_line(mnemonic, args);
    let j = join_args(args);
    let body = line.drop_last();
    assert(body == mnemonic + seq![SPACE] + j);
    let n = mnemonic.len() as int;
    assert(is_first_space(body, n)) by {
        assert forall|k: int| 0 <= k < n implies body[k] != SPACE by {
            assert(body[k] == mnemonic[k]);
        }
    }
    let i = choose|i: int| is_first_space(body, i);
    if i < n {
        assert(body[i] == mnemonic[i]);
    } else if i > n {
        assert(body[n] != SPACE);
    }
    assert(body.subrange(0, n) == mnemonic);
    assert(body.subrange(n + 1, body.len() as int) == j);
    lemma_split_join(args);
    assert forall|i: int| 0 <= i < args.len() implies match #[trigger] args[i] {
        Argument::Bool(b) => parse_bool(rendered(args)[i]) == Some(b),
        _ => true,
    } by {
        if let Argument::Bool(b) = args[i] {
            assert(rendered(args)[i] == render_arg(args[i]));
            if !b {
                assert(seq![48u8][0] != seq![49u8][0]);
            }
        }
    }
}

} // verus!
