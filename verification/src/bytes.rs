//! Helpers on byte vectors: ASCII literals, equality, concatenation, and
//! splitting a byte string into the non-empty runs between separator bytes.

use vstd::prelude::*;

verus! {

/// The bytes of an ASCII character sequence, one byte per character.
pub open spec fn ascii_seq(s: Seq<char>) -> Seq<u8> {
    Seq::new(s.len(), |i: int| s[i] as u8)
}

/// The bytes of an ASCII string literal, as a vector.
pub fn lit_bytes(s: &str) -> (r: Vec<u8>)
    requires
        s.is_ascii(),
    ensures
        r@ == ascii_seq(s@),
{
    proof {
        broadcast use vstd::string::is_ascii_spec_bytes;

    }
    let r = vstd::string::StrSliceExecFns::as_bytes_vec(s);
    proof {
        assert(r@ =~= ascii_seq(s@));
    }
    r
}

/// Whether a byte vector holds exactly the bytes of an ASCII literal.
pub fn tok_is(tok: &Vec<u8>, lit: &str) -> (r: bool)
    ensures
        r == (lit.is_ascii() && tok@ == ascii_seq(lit@)),
{
    if !lit.is_ascii() {
        return false;
    }
    let lb = lit_bytes(lit);
    bytes_eq(tok, &lb)
}

/// Byte-vector equality, decided byte by byte.
pub fn bytes_eq(a: &Vec<u8>, b: &Vec<u8>) -> (r: bool)
    ensures
        r == (a@ == b@),
{
    if a.len() != b.len() {
        proof {
            assert(a@ != b@);
        }
        return false;
    }
    let mut i: usize = 0;
    while i < a.len()
        invariant
            i <= a.len(),
            a@.len() == b@.len(),
            forall|j: int| 0 <= j < i ==> a@[j] == b@[j],
        decreases a.len() - i,
    {
        if a[i] != b[i] {
            return false;
        }
        i += 1;
    }
    proof {
        assert(a@ =~= b@);
    }
    true
}

/// A copy of a byte vector.
pub fn clone_bytes(v: &Vec<u8>) -> (r: Vec<u8>)
    ensures
        r@ == v@,
{
    let mut r: Vec<u8> = Vec::new();
    let mut i: usize = 0;
    while i < v.len()
        invariant
            i <= v.len(),
            r@ == v@.take(i as int),
        decreases v.len() - i,
    {
        r.push(v[i]);
        proof {
            assert(r@ =~= v@.take(i + 1 as int));
        }
        i += 1;
    }
    proof {
        assert(v@.take(v@.len() as int) =~= v@);
    }
    r
}

/// Appends the bytes of `src` to `dst`.
pub fn extend_bytes(dst: &mut Vec<u8>, src: &Vec<u8>)
    ensures
        final(dst)@ == old(dst)@ + src@,
{
    let mut i: usize = 0;
    while i < src.len()
        invariant
            i <= src.len(),
            dst@ == old(dst)@ + src@.take(i as int),
        decreases src.len() - i,
    {
        dst.push(src[i]);
        proof {
            assert(old(dst)@ + src@.take(i + 1 as int) =~= (old(dst)@ + src@.take(i as int)).push(
                src@[i as int],
            ));
        }
        i += 1;
    }
    proof {
        assert(old(dst)@ + src@.take(src@.len() as int) =~= old(dst)@ + src@);
    }
}

/// The separator classes a byte string can be split on.
#[derive(Clone, Copy, PartialEq, Eq, Structural)]
pub enum Sep {
    /// ASCII whitespace: space, tab, line feed, vertical tab, form feed,
    /// carriage return. Protocol tokens are split on these.
    Whitespace,
    /// The path separator `/`.
    Slash,
}

/// Whether `b` is a separator byte of class `m`.
pub open spec fn is_sep(m: Sep, b: u8) -> bool {
    match m {
        Sep::Whitespace => b == 0x20 || (0x09 <= b && b <= 0x0d),
        Sep::Slash => b == 0x2f,
    }
}

/// Executable test of [`is_sep`].
pub fn is_sep_byte(m: Sep, b: u8) -> (r: bool)
    ensures
        r == is_sep(m, b),
{
    match m {
        Sep::Whitespace => b == 0x20 || (0x09 <= b && b <= 0x0d),
        Sep::Slash => b == 0x2f,
    }
}

/// The non-empty runs of non-separator bytes in `s`, in order. Consecutive
/// separators produce nothing; separators at either end are dropped.
pub open spec fn split_by(m: Sep, s: Seq<u8>) -> Seq<Seq<u8>>
    decreases s.len(),
{
    if s.len() == 0 {
        Seq::empty()
    } else {
        let rest = split_by(m, s.drop_last());
        let c = s.last();
        if is_sep(m, c) {
            rest
        } else if s.len() == 1 || is_sep(m, s[s.len() - 2]) {
            rest.push(seq![c])
        } else {
            rest.update(rest.len() - 1, rest.last().push(c))
        }
    }
}

/// A byte string whose first byte is no separator splits into at least one
/// run.
pub proof fn lemma_split_head_nonsep(m: Sep, s: Seq<u8>)
    requires
        s.len() > 0,
        !is_sep(m, s[0]),
    ensures
        split_by(m, s).len() > 0,
    decreases s.len(),
{
    if s.len() > 1 {
        lemma_split_head_nonsep(m, s.drop_last());
        assert(s.drop_last()[0] == s[0]);
    }
}

/// A byte string ending in a non-separator splits into at least one run.
pub proof fn lemma_split_last_nonsep(m: Sep, s: Seq<u8>)
    requires
        s.len() > 0,
        !is_sep(m, s.last()),
    ensures
        split_by(m, s).len() > 0,
    decreases s.len(),
{
    if !(s.len() == 1 || is_sep(m, s[s.len() - 2])) {
        assert(s.drop_last().last() == s[s.len() - 2]);
        lemma_split_last_nonsep(m, s.drop_last());
    }
}

/// Every run a split produces is non-empty.
pub proof fn lemma_split_runs_nonempty(m: Sep, s: Seq<u8>)
    ensures
        forall|i: int| 0 <= i < split_by(m, s).len() ==> #[trigger] split_by(m, s)[i].len() > 0,
    decreases s.len(),
{
    if s.len() > 0 {
        lemma_split_runs_nonempty(m, s.drop_last());
        let rest = split_by(m, s.drop_last());
        let c = s.last();
        if is_sep(m, c) {
            assert(split_by(m, s) == rest);
        } else if s.len() == 1 || is_sep(m, s[s.len() - 2]) {
            assert(split_by(m, s) == rest.push(seq![c]));
            assert forall|i: int|
                0 <= i < split_by(m, s).len() implies #[trigger] split_by(m, s)[i].len() > 0 by {
                if i < rest.len() {
                    assert(split_by(m, s)[i] == rest[i]);
                    assert(rest[i].len() > 0);
                } else {
                    assert(split_by(m, s)[i] == seq![c]);
                }
            }
        } else {
            assert(s.drop_last().last() == s[s.len() - 2]);
            lemma_split_last_nonsep(m, s.drop_last());
            assert(rest.len() > 0);
            assert(split_by(m, s) == rest.update(rest.len() - 1, rest.last().push(c)));
            assert forall|i: int|
                0 <= i < split_by(m, s).len() implies #[trigger] split_by(m, s)[i].len() > 0 by {
                if i == rest.len() - 1 {
                    assert(split_by(m, s)[i] == rest.last().push(c));
                } else {
                    assert(split_by(m, s)[i] == rest[i]);
                    assert(rest[i].len() > 0);
                }
            }
        }
    }
}

/// Splits `b` into the non-empty runs between separator bytes of class `m`.
pub fn split_bytes(m: Sep, b: &Vec<u8>) -> (r: Vec<Vec<u8>>)
    ensures
        r.deep_view() == split_by(m, b@),
{
    let mut toks: Vec<Vec<u8>> = Vec::new();
    let mut cur: Vec<u8> = Vec::new();
    let mut i: usize = 0;
    while i < b.len()
        invariant
            i <= b.len(),
            (cur@.len() == 0) <==> (i == 0 || is_sep(m, b@[i - 1])),
            cur@.len() == 0 ==> toks.deep_view() == split_by(m, b@.take(i as int)),
            cur@.len() > 0 ==> toks.deep_view().push(cur@) == split_by(m, b@.take(i as int)),
        decreases b.len() - i,
    {
        let c = b[i];
        proof {
            assert(b@.take(i + 1 as int).drop_last() =~= b@.take(i as int));
            assert(b@.take(i + 1 as int).last() == b@[i as int]);
        }
        let ghost prev_toks = toks.deep_view();
        let ghost prev_cur = cur@;
        if is_sep_byte(m, c) {
            if cur.len() > 0 {
                toks.push(cur);
                cur = Vec::new();
                proof {
                    assert(toks.deep_view() =~~= prev_toks.push(prev_cur));
                }
            }
        } else {
            cur.push(c);
            proof {
                if prev_cur.len() == 0 {
                    assert(split_by(m, b@.take(i + 1 as int)) == prev_toks.push(seq![c]));
                    assert(toks.deep_view().push(cur@) =~~= prev_toks.push(seq![c]));
                } else {
                    let rest = split_by(m, b@.take(i as int));
                    assert(rest == prev_toks.push(prev_cur));
                    assert(rest.len() > 0 && rest.last() == prev_cur);
                    assert(split_by(m, b@.take(i + 1 as int)) == rest.update(
                        rest.len() - 1,
                        rest.last().push(c),
                    ));
                    assert(rest.update(rest.len() - 1, rest.last().push(c)) =~= prev_toks.push(
                        prev_cur.push(c),
                    ));
                    assert(toks.deep_view().push(cur@) =~~= prev_toks.push(prev_cur.push(c)));
                }
            }
        }
        i += 1;
    }
    if cur.len() > 0 {
        let ghost prev_toks = toks.deep_view();
        let ghost prev_cur = cur@;
        toks.push(cur);
        proof {
            assert(toks.deep_view() =~~= prev_toks.push(prev_cur));
        }
    }
    proof {
        assert(b@.take(b@.len() as int) =~= b@);
    }
    toks
}

} // verus!
