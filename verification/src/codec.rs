//! The wire codec: percent-encoding of protocol arguments, line framing,
//! and the splitting of an input line into a verb and decoded arguments.
//!
//! Every byte outside a small literal set (ASCII letters, digits, `-`,
//! `.`, `_`, `~`, and the path separator `/`) is written as `%HH` with
//! uppercase hex digits; in particular the space (the argument separator)
//! and the percent byte are always escaped. Decoding never fails: a `%`
//! not followed by two hex digits is taken literally.

use vstd::prelude::*;

use crate::bytes::{clone_bytes, extend_bytes, is_sep, split_by, split_bytes, Sep};

verus! {

/// Bytes that ride the wire unescaped: ASCII letters, digits, `-`, `.`,
/// `_`, `~`, and the path separator `/`, which stays readable inside path
/// arguments.
pub open spec fn is_unreserved(b: u8) -> bool {
    ||| 0x41 <= b && b <= 0x5a  // A-Z
    ||| 0x61 <= b && b <= 0x7a  // a-z
    ||| 0x30 <= b && b <= 0x39  // 0-9
    ||| b == 0x2d  // -
    ||| b == 0x2e  // .
    ||| b == 0x2f  // /
    ||| b == 0x5f  // _
    ||| b == 0x7e  // ~
}

/// The uppercase hex digit for a value below 16.
pub open spec fn hex_digit(n: u8) -> u8 {
    if n < 10 {
        (0x30 + n) as u8
    } else {
        (0x41 + (n - 10)) as u8
    }
}

/// Whether `b` is an ASCII hex digit, either case.
pub open spec fn is_hex_digit(b: u8) -> bool {
    ||| 0x30 <= b && b <= 0x39
    ||| 0x41 <= b && b <= 0x46
    ||| 0x61 <= b && b <= 0x66
}

/// The value of an ASCII hex digit.
pub open spec fn hex_val(b: u8) -> u8 {
    if 0x30 <= b && b <= 0x39 {
        (b - 0x30) as u8
    } else if 0x41 <= b && b <= 0x46 {
        (b - 0x41 + 10) as u8
    } else {
        (b - 0x61 + 10) as u8
    }
}

/// The encoding of one byte: itself if unreserved, else `%HH`.
pub open spec fn enc_byte(b: u8) -> Seq<u8> {
    if is_unreserved(b) {
        seq![b]
    } else {
        seq![0x25u8, hex_digit(b / 16), hex_digit(b % 16)]
    }
}

/// The percent-encoding of a byte string.
pub open spec fn enc(s: Seq<u8>) -> Seq<u8>
    decreases s.len(),
{
    if s.len() == 0 {
        Seq::empty()
    } else {
        enc_byte(s[0]) + enc(s.skip(1))
    }
}

/// The percent-decoding of a byte string. A `%` followed by two hex digits
/// becomes that byte; every other byte stands for itself.
pub open spec fn dec(s: Seq<u8>) -> Seq<u8>
    decreases s.len(),
{
    if s.len() == 0 {
        Seq::empty()
    } else if s[0] == 0x25 && s.len() >= 3 && is_hex_digit(s[1]) && is_hex_digit(s[2]) {
        seq![(hex_val(s[1]) * 16 + hex_val(s[2])) as u8] + dec(s.skip(3))
    } else {
        seq![s[0]] + dec(s.skip(1))
    }
}

/// Percent-encodes a byte string.
pub fn encode(s: &Vec<u8>) -> (r: Vec<u8>)
    ensures
        r@ == enc(s@),
{
    let mut r: Vec<u8> = Vec::new();
    let mut i: usize = 0;
    proof {
        assert(s@.skip(0) =~= s@);
        assert(r@ + enc(s@) =~= enc(s@));
    }
    while i < s.len()
        invariant
            i <= s.len(),
            enc(s@) == r@ + enc(s@.skip(i as int)),
        decreases s.len() - i,
    {
        let b = s[i];
        let ghost pre = r@;
        proof {
            assert(s@.skip(i as int)[0] == s@[i as int]);
            assert(s@.skip(i as int).skip(1) =~= s@.skip(i + 1 as int));
        }
        if is_unreserved_byte(b) {
            r.push(b);
        } else {
            r.push(0x25);
            r.push(hex_digit_byte(b / 16));
            r.push(hex_digit_byte(b % 16));
        }
        proof {
            assert(r@ =~= pre + enc_byte(b));
            assert(pre + (enc_byte(b) + enc(s@.skip(i + 1 as int))) =~= (pre + enc_byte(b)) + enc(
                s@.skip(i + 1 as int),
            ));
        }
        i += 1;
    }
    proof {
        assert(s@.skip(s@.len() as int) =~= Seq::<u8>::empty());
        assert(r@ =~= r@ + enc(s@.skip(s@.len() as int)));
    }
    r
}

/// Percent-decodes a byte string. Never fails.
pub fn decode(s: &Vec<u8>) -> (r: Vec<u8>)
    ensures
        r@ == dec(s@),
{
    let mut r: Vec<u8> = Vec::new();
    let mut i: usize = 0;
    proof {
        assert(s@.skip(0) =~= s@);
        assert(r@ + dec(s@) =~= dec(s@));
    }
    while i < s.len()
        invariant
            i <= s.len(),
            dec(s@) == r@ + dec(s@.skip(i as int)),
        decreases s.len() - i,
    {
        let ghost pre = r@;
        proof {
            assert(s@.skip(i as int)[0] == s@[i as int]);
        }
        if s[i] == 0x25 && s.len() - i > 2 && is_hex_digit_byte(s[i + 1]) && is_hex_digit_byte(
            s[i + 2],
        ) {
            proof {
                assert(s@.skip(i as int)[1] == s@[i + 1 as int]);
                assert(s@.skip(i as int)[2] == s@[i + 2 as int]);
                assert(s@.skip(i as int).skip(3) =~= s@.skip(i + 3 as int));
            }
            let hi = hex_val_byte(s[i + 1]);
            let lo = hex_val_byte(s[i + 2]);
            r.push(hi * 16 + lo);
            proof {
                assert(r@ =~= pre + seq![(hex_val(s@[i + 1 as int]) * 16 + hex_val(
                    s@[i + 2 as int],
                )) as u8]);
                assert(pre + (seq![(hex_val(s@[i + 1 as int]) * 16 + hex_val(
                    s@[i + 2 as int],
                )) as u8] + dec(s@.skip(i + 3 as int))) =~= r@ + dec(s@.skip(i + 3 as int)));
            }
            i += 3;
        } else {
            proof {
                assert(s@.skip(i as int).skip(1) =~= s@.skip(i + 1 as int));
            }
            let b = s[i];
            r.push(b);
            proof {
                assert(r@ =~= pre + seq![b]);
                assert(pre + (seq![b] + dec(s@.skip(i + 1 as int))) =~= r@ + dec(
                    s@.skip(i + 1 as int),
                ));
            }
            i += 1;
        }
    }
    proof {
        assert(s@.skip(s@.len() as int) =~= Seq::<u8>::empty());
        assert(r@ =~= r@ + dec(s@.skip(s@.len() as int)));
    }
    r
}

/// Executable test of [`is_unreserved`].
pub fn is_unreserved_byte(b: u8) -> (r: bool)
    ensures
        r == is_unreserved(b),
{
    (0x41 <= b && b <= 0x5a) || (0x61 <= b && b <= 0x7a) || (0x30 <= b && b <= 0x39) || b == 0x2d
        || b == 0x2e || b == 0x2f || b == 0x5f || b == 0x7e
}

/// Executable [`hex_digit`].
pub fn hex_digit_byte(n: u8) -> (r: u8)
    requires
        n < 16,
    ensures
        r == hex_digit(n),
{
    if n < 10 {
        0x30 + n
    } else {
        0x41 + (n - 10)
    }
}

/// Executable test of [`is_hex_digit`].
pub fn is_hex_digit_byte(b: u8) -> (r: bool)
    ensures
        r == is_hex_digit(b),
{
    (0x30 <= b && b <= 0x39) || (0x41 <= b && b <= 0x46) || (0x61 <= b && b <= 0x66)
}

/// Executable [`hex_val`].
pub fn hex_val_byte(b: u8) -> (r: u8)
    requires
        is_hex_digit(b),
    ensures
        r == hex_val(b),
        r < 16,
{
    if 0x30 <= b && b <= 0x39 {
        b - 0x30
    } else if 0x41 <= b && b <= 0x46 {
        b - 0x41 + 10
    } else {
        b - 0x61 + 10
    }
}

/// A hex digit produced by [`hex_digit`] is one, and decodes back.
proof fn lemma_hex_round_trip(n: u8)
    requires
        n < 16,
    ensures
        is_hex_digit(hex_digit(n)),
        hex_val(hex_digit(n)) == n,
{
}

/// Percent-decoding undoes percent-encoding, for every byte string.
pub proof fn lemma_decode_encode(s: Seq<u8>)
    ensures
        dec(enc(s)) == s,
    decreases s.len(),
{
    if s.len() == 0 {
        assert(dec(enc(s)) =~= s);
    } else {
        let b = s[0];
        let rest = enc(s.skip(1));
        lemma_decode_encode(s.skip(1));
        if is_unreserved(b) {
            assert(enc(s) == seq![b] + rest);
            assert(enc(s)[0] == b);
            assert(b != 0x25);
            assert(enc(s).skip(1) =~= rest);
            assert(dec(enc(s)) == seq![b] + dec(rest));
            assert(seq![b] + s.skip(1) =~= s);
        } else {
            lemma_hex_round_trip(b / 16);
            lemma_hex_round_trip(b % 16);
            let e = seq![0x25u8, hex_digit(b / 16), hex_digit(b % 16)];
            assert(enc(s) == e + rest);
            assert(enc(s)[0] == 0x25 && enc(s).len() >= 3);
            assert(enc(s)[1] == hex_digit(b / 16) && enc(s)[2] == hex_digit(b % 16));
            assert(enc(s).skip(3) =~= rest);
            assert(hex_val(enc(s)[1]) * 16 + hex_val(enc(s)[2]) == (b / 16) * 16 + b % 16);
            assert((b / 16) * 16 + b % 16 == b) by (nonlinear_arith);
            assert(dec(enc(s)) == seq![b] + dec(rest));
            assert(seq![b] + s.skip(1) =~= s);
        }
    }
}

/// Decoding a non-empty byte string gives a non-empty byte string.
pub proof fn lemma_dec_nonempty(s: Seq<u8>)
    ensures
        s.len() > 0 ==> dec(s).len() > 0,
{
}

/// Nothing percent-encoded contains a separator byte, and encoding a
/// non-empty string gives a non-empty token.
pub proof fn lemma_enc_token(s: Seq<u8>)
    ensures
        forall|i: int| 0 <= i < enc(s).len() ==> !is_sep(Sep::Whitespace, #[trigger] enc(s)[i]),
        s.len() > 0 ==> enc(s).len() > 0,
    decreases s.len(),
{
    if s.len() > 0 {
        lemma_enc_token(s.skip(1));
        let b = s[0];
        assert forall|i: int| 0 <= i < enc(s).len() implies !is_sep(
            Sep::Whitespace,
            #[trigger] enc(s)[i],
        ) by {
            if i < enc_byte(b).len() {
                assert(enc(s)[i] == enc_byte(b)[i]);
                if !is_unreserved(b) {
                    lemma_hex_round_trip(b / 16);
                    lemma_hex_round_trip(b % 16);
                }
            } else {
                assert(enc(s)[i] == enc(s.skip(1))[i - enc_byte(b).len()]);
            }
        }
    }
}

/// The whitespace-separated tokens of an input or output line.
pub open spec fn tokens_of(s: Seq<u8>) -> Seq<Seq<u8>> {
    split_by(Sep::Whitespace, s)
}

/// The verb of a line: its first token, or the empty byte string when the
/// line holds none.
pub open spec fn cmd_of(line: Seq<u8>) -> Seq<u8> {
    if tokens_of(line).len() == 0 {
        Seq::empty()
    } else {
        tokens_of(line)[0]
    }
}

/// The decoded arguments of a line: every token after the verb, each
/// percent-decoded.
pub open spec fn args_of(line: Seq<u8>) -> Seq<Seq<u8>> {
    if tokens_of(line).len() == 0 {
        Seq::empty()
    } else {
        tokens_of(line).skip(1).map_values(|t: Seq<u8>| dec(t))
    }
}

/// A wire line: the verb, then each argument preceded by one space.
pub open spec fn line_of(cmd: Seq<u8>, args: Seq<Seq<u8>>) -> Seq<u8>
    decreases args.len(),
{
    if args.len() == 0 {
        cmd
    } else {
        line_of(cmd, args.drop_last()) + seq![0x20u8] + args.last()
    }
}

/// Builds the wire line for a verb and raw arguments, percent-encoding each
/// argument.
pub fn build_line(cmd: &Vec<u8>, args: &Vec<Vec<u8>>) -> (r: Vec<u8>)
    ensures
        r@ == line_of(cmd@, args.deep_view().map_values(|a: Seq<u8>| enc(a))),
{
    let ghost eargs = args.deep_view().map_values(|a: Seq<u8>| enc(a));
    let mut r = clone_bytes(cmd);
    let mut j: usize = 0;
    proof {
        assert(eargs.take(0) =~= Seq::<Seq<u8>>::empty());
    }
    while j < args.len()
        invariant
            j <= args.len(),
            eargs == args.deep_view().map_values(|a: Seq<u8>| enc(a)),
            eargs.len() == args@.len(),
            r@ == line_of(cmd@, eargs.take(j as int)),
        decreases args.len() - j,
    {
        let ghost pre = r@;
        r.push(0x20);
        let e = encode(&args[j]);
        extend_bytes(&mut r, &e);
        proof {
            assert(eargs.take(j + 1 as int).drop_last() =~= eargs.take(j as int));
            assert(eargs.take(j + 1 as int).last() == enc(args.deep_view()[j as int]));
            assert(args.deep_view()[j as int] =~= args@[j as int]@);
            assert(r@ =~= pre + seq![0x20u8] + enc(args.deep_view()[j as int]));
        }
        j += 1;
    }
    proof {
        assert(eargs.take(eargs.len() as int) =~= eargs);
    }
    r
}

/// Splits a line into its verb (raw) and its arguments (percent-decoded),
/// as [`cmd_of`] and [`args_of`] give them. Never fails.
pub fn parse_input(line: &Vec<u8>) -> (r: (Vec<u8>, Vec<Vec<u8>>))
    ensures
        r.0@ == cmd_of(line@),
        r.1.deep_view() == args_of(line@),
{
    let toks = split_bytes(Sep::Whitespace, line);
    if toks.len() == 0 {
        let r = (Vec::new(), Vec::new());
        proof {
            assert(r.1.deep_view() =~= args_of(line@));
        }
        return r;
    }
    let cmd = clone_bytes(&toks[0]);
    let mut args: Vec<Vec<u8>> = Vec::new();
    let mut j: usize = 1;
    let ghost dargs = tokens_of(line@).skip(1).map_values(|t: Seq<u8>| dec(t));
    proof {
        assert(args.deep_view() =~= dargs.take(0));
    }
    while j < toks.len()
        invariant
            1 <= j <= toks.len(),
            toks.deep_view() == tokens_of(line@),
            toks@.len() == tokens_of(line@).len(),
            dargs == tokens_of(line@).skip(1).map_values(|t: Seq<u8>| dec(t)),
            args.deep_view() == dargs.take(j - 1),
        decreases toks.len() - j,
    {
        let d = decode(&toks[j]);
        let ghost pre = args.deep_view();
        args.push(d);
        proof {
            assert(tokens_of(line@).skip(1)[j - 1] == tokens_of(line@)[j as int]);
            assert(toks.deep_view()[j as int] == toks@[j as int]@);
            assert(dargs.take(j as int).drop_last() =~= dargs.take(j - 1));
            assert(dargs.take(j as int).last() == dec(tokens_of(line@)[j as int]));
            assert(args.deep_view() =~~= pre.push(dec(toks@[j as int]@)));
            assert(args.deep_view() =~= dargs.take(j as int));
        }
        j += 1;
    }
    proof {
        assert(dargs.take(dargs.len() as int) =~= dargs);
    }
    (cmd, args)
}

/// Appending one separator byte to a line leaves its tokens unchanged.
proof fn lemma_tokens_push_sep(s: Seq<u8>, c: u8)
    requires
        is_sep(Sep::Whitespace, c),
    ensures
        tokens_of(s.push(c)) == tokens_of(s),
{
    assert(s.push(c).drop_last() =~= s);
    assert(s.push(c).last() == c);
}

/// Appending one whole token after a separator (or to an empty line)
/// appends it to the token list.
proof fn lemma_tokens_append_tok(s: Seq<u8>, t: Seq<u8>)
    requires
        t.len() > 0,
        forall|i: int| 0 <= i < t.len() ==> !is_sep(Sep::Whitespace, #[trigger] t[i]),
        s.len() == 0 || is_sep(Sep::Whitespace, s.last()),
    ensures
        tokens_of(s + t) == tokens_of(s).push(t),
    decreases t.len(),
{
    let u = s + t;
    if t.len() == 1 {
        assert(u.drop_last() =~= s);
        assert(u.last() == t[0]);
        if s.len() == 0 {
            assert(u.len() == 1);
            assert(tokens_of(u) == tokens_of(s).push(seq![t[0]]));
        } else {
            assert(u[u.len() - 2] == s.last());
            assert(tokens_of(u) == tokens_of(s).push(seq![t[0]]));
        }
        assert(seq![t[0]] =~= t);
    } else {
        let t0 = t.drop_last();
        let c = t.last();
        lemma_tokens_append_tok(s, t0);
        assert(u.drop_last() =~= s + t0);
        assert(u.last() == c);
        assert(u[u.len() - 2] == t0.last());
        assert(u.len() > 1);
        let rest = tokens_of(s + t0);
        assert(rest == tokens_of(s).push(t0));
        assert(rest.last() == t0);
        assert(tokens_of(u) == rest.update(rest.len() - 1, t0.push(c)));
        assert(rest.update(rest.len() - 1, t0.push(c)) =~= tokens_of(s).push(t0.push(c)));
        assert(t0.push(c) =~= t);
    }
}

/// A line built from a whitespace-free verb and non-empty whitespace-free
/// argument tokens splits back into exactly that verb and those tokens.
pub proof fn lemma_line_tokens(cmd: Seq<u8>, args: Seq<Seq<u8>>)
    requires
        cmd.len() > 0,
        forall|i: int| 0 <= i < cmd.len() ==> !is_sep(Sep::Whitespace, #[trigger] cmd[i]),
        forall|j: int| 0 <= j < args.len() ==> #[trigger] args[j].len() > 0,
        forall|j: int, i: int|
            0 <= j < args.len() && 0 <= i < args[j].len() ==> !is_sep(
                Sep::Whitespace,
                #[trigger] args[j][i],
            ),
    ensures
        tokens_of(line_of(cmd, args)) == seq![cmd] + args,
    decreases args.len(),
{
    if args.len() == 0 {
        lemma_tokens_append_tok(Seq::empty(), cmd);
        assert(Seq::<u8>::empty() + cmd =~= cmd);
        assert(tokens_of(cmd) == Seq::<Seq<u8>>::empty().push(cmd));
        assert(Seq::<Seq<u8>>::empty().push(cmd) =~= seq![cmd] + args);
    } else {
        let args0 = args.drop_last();
        let t = args.last();
        lemma_line_tokens(cmd, args0);
        let a = line_of(cmd, args0) + seq![0x20u8];
        assert(a =~= line_of(cmd, args0).push(0x20u8));
        lemma_tokens_push_sep(line_of(cmd, args0), 0x20u8);
        assert(a.last() == 0x20u8);
        lemma_tokens_append_tok(a, t);
        assert(line_of(cmd, args) =~= a + t);
        assert(tokens_of(line_of(cmd, args)) == (seq![cmd] + args0).push(t));
        assert((seq![cmd] + args0).push(t) =~= seq![cmd] + args);
    }
}

/// A line the monitor produces — a whitespace-free verb plus
/// percent-encoded non-empty arguments — reparses to that verb and those
/// arguments, and re-encoding the parsed arguments rebuilds the identical
/// line.
pub proof fn lemma_line_round_trip(cmd: Seq<u8>, args: Seq<Seq<u8>>)
    requires
        cmd.len() > 0,
        forall|i: int| 0 <= i < cmd.len() ==> !is_sep(Sep::Whitespace, #[trigger] cmd[i]),
        forall|j: int| 0 <= j < args.len() ==> #[trigger] args[j].len() > 0,
    ensures
        cmd_of(line_of(cmd, args.map_values(|a: Seq<u8>| enc(a)))) == cmd,
        args_of(line_of(cmd, args.map_values(|a: Seq<u8>| enc(a)))) == args,
        line_of(
            cmd_of(line_of(cmd, args.map_values(|a: Seq<u8>| enc(a)))),
            args_of(line_of(cmd, args.map_values(|a: Seq<u8>| enc(a)))).map_values(
                |a: Seq<u8>| enc(a),
            ),
        ) == line_of(cmd, args.map_values(|a: Seq<u8>| enc(a))),
{
    let eargs = args.map_values(|a: Seq<u8>| enc(a));
    assert forall|j: int| 0 <= j < eargs.len() implies #[trigger] eargs[j].len() > 0 by {
        lemma_enc_token(args[j]);
    }
    assert forall|j: int, i: int|
        0 <= j < eargs.len() && 0 <= i < eargs[j].len() implies !is_sep(
        Sep::Whitespace,
        #[trigger] eargs[j][i],
    ) by {
        lemma_enc_token(args[j]);
    }
    lemma_line_tokens(cmd, eargs);
    let line = line_of(cmd, eargs);
    assert(tokens_of(line) == seq![cmd] + eargs);
    assert(tokens_of(line)[0] == cmd);
    assert(tokens_of(line).skip(1) =~= eargs);
    assert forall|j: int| 0 <= j < args.len() implies #[trigger] args_of(line)[j] == args[j] by {
        lemma_decode_encode(args[j]);
    }
    assert(args_of(line) =~= args);
}

} // verus!
