//! Byte-level primitives of the cache image format: little-endian
//! integers, characters as scalar values, and length-prefixed text.
//! Every parser is total over arbitrary bytes and undoes the matching
//! encoder exactly.

use vstd::prelude::*;

use crate::text::char_from_u32;
use crate::text::push_char;

verus! {

pub open spec fn enc_u64(n: u64) -> Seq<u8> {
    seq![
        (n & 0xff) as u8,
        ((n >> 8) & 0xff) as u8,
        ((n >> 16) & 0xff) as u8,
        ((n >> 24) & 0xff) as u8,
        ((n >> 32) & 0xff) as u8,
        ((n >> 40) & 0xff) as u8,
        ((n >> 48) & 0xff) as u8,
        ((n >> 56) & 0xff) as u8,
    ]
}

pub open spec fn combine_u64(
    b0: u8,
    b1: u8,
    b2: u8,
    b3: u8,
    b4: u8,
    b5: u8,
    b6: u8,
    b7: u8,
) -> u64 {
    (b0 as u64) | (b1 as u64) << 8 | (b2 as u64) << 16 | (b3 as u64) << 24 | (b4 as u64)
        << 32 | (b5 as u64) << 40 | (b6 as u64) << 48 | (b7 as u64) << 56
}

pub open spec fn parse_u64(b: Seq<u8>, pos: int) -> Option<(u64, int)> {
    if 0 <= pos && pos + 8 <= b.len() {
        Some(
            (
                combine_u64(
                    b[pos],
                    b[pos + 1],
                    b[pos + 2],
                    b[pos + 3],
                    b[pos + 4],
                    b[pos + 5],
                    b[pos + 6],
                    b[pos + 7],
                ),
                pos + 8,
            ),
        )
    } else {
        None
    }
}

proof fn lemma_u64_bytes_roundtrip(n: u64)
    by (bit_vector)
    ensures
        combine_u64(
            (n & 0xff) as u8,
            ((n >> 8) & 0xff) as u8,
            ((n >> 16) & 0xff) as u8,
            ((n >> 24) & 0xff) as u8,
            ((n >> 32) & 0xff) as u8,
            ((n >> 40) & 0xff) as u8,
            ((n >> 48) & 0xff) as u8,
            ((n >> 56) & 0xff) as u8,
        ) == n,
{
}

pub proof fn lemma_parse_enc_u64(n: u64, b: Seq<u8>, pos: int)
    requires
        0 <= pos,
        pos + 8 <= b.len(),
        b.subrange(pos, pos + 8) == enc_u64(n),
    ensures
        parse_u64(b, pos) == Some((n, pos + 8)),
{
    lemma_u64_bytes_roundtrip(n);
    assert forall|k: int| 0 <= k < 8 implies b[pos + k] == enc_u64(n)[k] by {
        assert(b.subrange(pos, pos + 8)[k] == b[pos + k]);
    }
}

pub open spec fn enc_u32(n: u32) -> Seq<u8> {
    seq![
        (n & 0xff) as u8,
        ((n >> 8) & 0xff) as u8,
        ((n >> 16) & 0xff) as u8,
        ((n >> 24) & 0xff) as u8,
    ]
}

pub open spec fn combine_u32(b0: u8, b1: u8, b2: u8, b3: u8) -> u32 {
    (b0 as u32) | (b1 as u32) << 8 | (b2 as u32) << 16 | (b3 as u32) << 24
}

proof fn lemma_u32_bytes_roundtrip(n: u32)
    by (bit_vector)
    ensures
        combine_u32(
            (n & 0xff) as u8,
            ((n >> 8) & 0xff) as u8,
            ((n >> 16) & 0xff) as u8,
            ((n >> 24) & 0xff) as u8,
        ) == n,
{
}

/// A character is stored as its scalar value; parsing rejects the values
/// that are no character.
pub open spec fn enc_char(c: char) -> Seq<u8> {
    enc_u32(c as u32)
}

pub open spec fn parse_char(b: Seq<u8>, pos: int) -> Option<(char, int)> {
    if 0 <= pos && pos + 4 <= b.len() {
        let v = combine_u32(b[pos], b[pos + 1], b[pos + 2], b[pos + 3]);
        if vstd::utf8::is_scalar(v) {
            Some((v as char, pos + 4))
        } else {
            None
        }
    } else {
        None
    }
}

pub proof fn lemma_parse_enc_char(c: char, b: Seq<u8>, pos: int)
    requires
        0 <= pos,
        pos + 4 <= b.len(),
        b.subrange(pos, pos + 4) == enc_char(c),
    ensures
        parse_char(b, pos) == Some((c, pos + 4)),
{
    lemma_u32_bytes_roundtrip(c as u32);
    assert forall|k: int| 0 <= k < 4 implies b[pos + k] == enc_char(c)[k] by {
        assert(b.subrange(pos, pos + 4)[k] == b[pos + k]);
    }
    vstd::utf8::char_is_scalar(c);
    vstd::utf8::char_u32_cast(c, c as u32);
}

pub open spec fn enc_chars_body(s: Seq<char>) -> Seq<u8>
    decreases s.len(),
{
    if s.len() == 0 {
        Seq::<u8>::empty()
    } else {
        enc_char(s[0]) + enc_chars_body(s.drop_first())
    }
}

/// Length-prefixed text.
pub open spec fn enc_chars(s: Seq<char>) -> Seq<u8> {
    enc_u64(s.len() as u64) + enc_chars_body(s)
}

pub open spec fn parse_chars_n(b: Seq<u8>, pos: int, n: nat) -> Option<(Seq<char>, int)>
    decreases n,
{
    if n == 0 {
        Some((Seq::<char>::empty(), pos))
    } else {
        match parse_char(b, pos) {
            None => None,
            Some((c, p1)) => match parse_chars_n(b, p1, (n - 1) as nat) {
                None => None,
                Some((s, p2)) => Some((seq![c] + s, p2)),
            },
        }
    }
}

pub open spec fn parse_chars(b: Seq<u8>, pos: int) -> Option<(Seq<char>, int)> {
    match parse_u64(b, pos) {
        None => None,
        Some((n, p1)) => parse_chars_n(b, p1, n as nat),
    }
}

pub proof fn lemma_enc_chars_body_len(s: Seq<char>)
    ensures
        enc_chars_body(s).len() == 4 * s.len(),
    decreases s.len(),
{
    if s.len() != 0 {
        lemma_enc_chars_body_len(s.drop_first());
    }
}

pub proof fn lemma_parse_enc_chars_n(s: Seq<char>, b: Seq<u8>, pos: int)
    requires
        0 <= pos,
        pos + 4 * s.len() <= b.len(),
        b.subrange(pos, pos + 4 * s.len()) == enc_chars_body(s),
    ensures
        parse_chars_n(b, pos, s.len() as nat) == Some((s, pos + 4 * s.len())),
    decreases s.len(),
{
    lemma_enc_chars_body_len(s);
    if s.len() == 0 {
        assert(s =~= Seq::<char>::empty());
    } else {
        let rest = s.drop_first();
        lemma_enc_chars_body_len(rest);
        assert(b.subrange(pos, pos + 4) =~= enc_char(s[0])) by {
            assert forall|k: int| 0 <= k < 4 implies #[trigger] b.subrange(pos, pos + 4)[k]
                == enc_char(s[0])[k] by {
                assert(b.subrange(pos, pos + 4 * s.len())[k] == b[pos + k]);
                assert((enc_char(s[0]) + enc_chars_body(rest))[k] == enc_char(s[0])[k]);
            }
        }
        lemma_parse_enc_char(s[0], b, pos);
        assert(b.subrange(pos + 4, pos + 4 + 4 * rest.len()) =~= enc_chars_body(rest)) by {
            assert forall|k: int| 0 <= k < 4 * rest.len() implies #[trigger] b.subrange(
                pos + 4,
                pos + 4 + 4 * rest.len(),
            )[k] == enc_chars_body(rest)[k] by {
                assert(b.subrange(pos, pos + 4 * s.len())[k + 4] == b[pos + 4 + k]);
                assert((enc_char(s[0]) + enc_chars_body(rest))[k + 4] == enc_chars_body(
                    rest,
                )[k]);
            }
        }
        lemma_parse_enc_chars_n(rest, b, pos + 4);
        assert(seq![s[0]] + rest =~= s);
    }
}

pub proof fn lemma_parse_enc_chars(s: Seq<char>, b: Seq<u8>, pos: int)
    requires
        0 <= pos,
        s.len() <= u64::MAX,
        pos + enc_chars(s).len() <= b.len(),
        b.subrange(pos, pos + enc_chars(s).len() as int) == enc_chars(s),
    ensures
        parse_chars(b, pos) == Some((s, pos + enc_chars(s).len())),
{
    lemma_enc_chars_body_len(s);
    let e = enc_chars(s);
    assert(e.len() == 8 + 4 * s.len());
    assert(b.subrange(pos, pos + 8) =~= enc_u64(s.len() as u64)) by {
        assert forall|k: int| 0 <= k < 8 implies #[trigger] b.subrange(pos, pos + 8)[k]
            == enc_u64(s.len() as u64)[k] by {
            assert(b.subrange(pos, pos + e.len() as int)[k] == b[pos + k]);
            assert((enc_u64(s.len() as u64) + enc_chars_body(s))[k] == enc_u64(
                s.len() as u64,
            )[k]);
        }
    }
    lemma_parse_enc_u64(s.len() as u64, b, pos);
    assert(b.subrange(pos + 8, pos + 8 + 4 * s.len()) =~= enc_chars_body(s)) by {
        assert forall|k: int| 0 <= k < 4 * s.len() implies #[trigger] b.subrange(
            pos + 8,
            pos + 8 + 4 * s.len(),
        )[k] == enc_chars_body(s)[k] by {
            assert(b.subrange(pos, pos + e.len() as int)[k + 8] == b[pos + 8 + k]);
            assert((enc_u64(s.len() as u64) + enc_chars_body(s))[k + 8] == enc_chars_body(
                s,
            )[k]);
        }
    }
    lemma_parse_enc_chars_n(s, b, pos + 8);
}

/// A window that holds a concatenation splits into windows that hold
/// the parts.
pub proof fn lemma_concat_parts(b: Seq<u8>, pos: int, x: Seq<u8>, y: Seq<u8>)
    requires
        0 <= pos,
        pos + x.len() + y.len() <= b.len(),
        b.subrange(pos, pos + x.len() + y.len()) == x + y,
    ensures
        b.subrange(pos, pos + x.len()) == x,
        b.subrange(pos + x.len(), pos + x.len() + y.len()) == y,
{
    let w = b.subrange(pos, pos + x.len() + y.len());
    assert(b.subrange(pos, pos + x.len()) =~= x) by {
        assert forall|k: int| 0 <= k < x.len() implies #[trigger] b.subrange(
            pos,
            pos + x.len(),
        )[k] == x[k] by {
            assert(w[k] == b[pos + k]);
            assert((x + y)[k] == x[k]);
        }
    }
    assert(b.subrange(pos + x.len(), pos + x.len() + y.len()) =~= y) by {
        assert forall|k: int| 0 <= k < y.len() implies #[trigger] b.subrange(
            pos + x.len(),
            pos + x.len() + y.len(),
        )[k] == y[k] by {
            assert(w[k + x.len()] == b[pos + x.len() + k]);
            assert((x + y)[k + x.len()] == y[k]);
        }
    }
}

/// Appends the little-endian bytes of `n`.
pub fn emit_u64(out: &mut Vec<u8>, n: u64)
    ensures
        final(out)@ == old(out)@ + enc_u64(n),
{
    let ghost pre = out@;
    out.push((n & 0xff) as u8);
    out.push(((n >> 8) & 0xff) as u8);
    out.push(((n >> 16) & 0xff) as u8);
    out.push(((n >> 24) & 0xff) as u8);
    out.push(((n >> 32) & 0xff) as u8);
    out.push(((n >> 40) & 0xff) as u8);
    out.push(((n >> 48) & 0xff) as u8);
    out.push(((n >> 56) & 0xff) as u8);
    proof {
        assert(out@ =~= pre + enc_u64(n));
    }
}

/// Appends the scalar value of `c`.
pub fn emit_char(out: &mut Vec<u8>, c: char)
    ensures
        final(out)@ == old(out)@ + enc_char(c),
{
    let ghost pre = out@;
    let n = c as u32;
    out.push((n & 0xff) as u8);
    out.push(((n >> 8) & 0xff) as u8);
    out.push(((n >> 16) & 0xff) as u8);
    out.push(((n >> 24) & 0xff) as u8);
    proof {
        assert(out@ =~= pre + enc_char(c));
    }
}

/// Appends the length-prefixed text of `s`.
pub fn emit_chars(out: &mut Vec<u8>, s: &str)
    ensures
        final(out)@ == old(out)@ + enc_chars(s@),
        s@.len() <= u64::MAX,
{
    let ghost pre = out@;
    let n = vstd::string::StrSliceExecFns::unicode_len(s);
    emit_u64(out, n as u64);
    let mut i: usize = 0;
    proof {
        assert(enc_chars_body(s@.take(0)) =~= Seq::<u8>::empty());
        assert(out@ =~= pre + enc_u64(n as u64) + enc_chars_body(s@.take(0)));
    }
    while i < n
        invariant
            0 <= i <= n,
            n == s@.len(),
            out@ == pre + enc_u64(n as u64) + enc_chars_body(s@.take(i as int)),
        decreases n - i,
    {
        let c = vstd::string::StrSliceExecFns::get_char(s, i);
        emit_char(out, c);
        proof {
            lemma_enc_chars_body_snoc(s@.take(i as int), c);
            assert(s@.take(i + 1) =~= s@.take(i as int).push(c));
            assert(out@ =~= pre + enc_u64(n as u64) + enc_chars_body(s@.take(i + 1)));
        }
        i = i + 1;
    }
    proof {
        assert(s@.take(n as int) =~= s@);
        assert(out@ =~= pre + enc_chars(s@));
    }
}

pub proof fn lemma_enc_chars_body_snoc(s: Seq<char>, c: char)
    ensures
        enc_chars_body(s.push(c)) == enc_chars_body(s) + enc_char(c),
    decreases s.len(),
{
    if s.len() == 0 {
        let e = Seq::<char>::empty();
        assert(s.push(c)[0] == c);
        assert(s.push(c).drop_first() =~= e);
        assert(enc_chars_body(e) == Seq::<u8>::empty());
        assert(enc_chars_body(s.push(c)) == enc_char(c) + enc_chars_body(e));
        assert(enc_chars_body(s.push(c)) =~= enc_char(c));
        assert(enc_chars_body(s) + enc_char(c) =~= enc_char(c));
    } else {
        assert(s.push(c).drop_first() =~= s.drop_first().push(c));
        assert(s.push(c)[0] == s[0]);
        lemma_enc_chars_body_snoc(s.drop_first(), c);
        assert(enc_chars_body(s.push(c)) == enc_char(s[0]) + enc_chars_body(
            s.drop_first().push(c),
        ));
        assert(enc_chars_body(s) == enc_char(s[0]) + enc_chars_body(s.drop_first()));
        assert(enc_chars_body(s.push(c)) =~= enc_chars_body(s) + enc_char(c));
    }
}

/// Reads back what `emit_u64` wrote.
pub fn take_u64(b: &Vec<u8>, pos: usize) -> (r: Option<(u64, usize)>)
    ensures
        r is Some <==> parse_u64(b@, pos as int) is Some,
        r matches Some((v, p)) ==> parse_u64(b@, pos as int) == Some((v, p as int)),
{
    if pos > b.len() || b.len() - pos < 8 {
        return None;
    }
    let v = (b[pos] as u64) | (b[pos + 1] as u64) << 8 | (b[pos + 2] as u64) << 16 | (b[pos
        + 3] as u64) << 24 | (b[pos + 4] as u64) << 32 | (b[pos + 5] as u64) << 40 | (b[pos
        + 6] as u64) << 48 | (b[pos + 7] as u64) << 56;
    Some((v, pos + 8))
}

/// Reads back what `emit_char` wrote, rejecting non-characters.
pub fn take_char(b: &Vec<u8>, pos: usize) -> (r: Option<(char, usize)>)
    ensures
        r is Some <==> parse_char(b@, pos as int) is Some,
        r matches Some((c, p)) ==> parse_char(b@, pos as int) == Some((c, p as int)),
{
    if pos > b.len() || b.len() - pos < 4 {
        return None;
    }
    let v = (b[pos] as u32) | (b[pos + 1] as u32) << 8 | (b[pos + 2] as u32) << 16 | (b[pos
        + 3] as u32) << 24;
    match char_from_u32(v) {
        Some(c) => Some((c, pos + 4)),
        None => None,
    }
}

/// Reads back what `emit_chars` wrote.
pub fn take_chars(b: &Vec<u8>, pos: usize) -> (r: Option<(String, usize)>)
    ensures
        r is Some <==> parse_chars(b@, pos as int) is Some,
        r matches Some((s, p)) ==> parse_chars(b@, pos as int) == Some((s@, p as int)),
{
    let (n, p1) = match take_u64(b, pos) {
        None => {
            return None;
        },
        Some(x) => x,
    };
    let mut s = String::new();
    let mut cur = p1;
    let mut i: u64 = 0;
    while i < n
        invariant
            0 <= i <= n,
            parse_u64(b@, pos as int) == Some((n, p1 as int)),
            parse_chars_n(b@, p1 as int, n as nat) == (match parse_chars_n(
                b@,
                cur as int,
                (n - i) as nat,
            ) {
                None => None::<(Seq<char>, int)>,
                Some((t, p)) => Some((s@ + t, p)),
            }),
        decreases n - i,
    {
        let (c, p2) = match take_char(b, cur) {
            None => {
                return None;
            },
            Some(x) => x,
        };
        proof {
            let ghost tail = parse_chars_n(b@, p2 as int, (n - i - 1) as nat);
            if tail is Some {
                assert(seq![c] + (tail->0).0 =~= (s@.push(c) + (tail->0).0).skip(s@.len() as int));
                assert(s@ + (seq![c] + (tail->0).0) =~= s@.push(c) + (tail->0).0);
            }
        }
        push_char(&mut s, c);
        cur = p2;
        i = i + 1;
    }
    proof {
        assert(parse_chars_n(b@, cur as int, 0) == Some((Seq::<char>::empty(), cur as int)));
        assert(s@ + Seq::<char>::empty() =~= s@);
    }
    Some((s, cur))
}

} // verus!
