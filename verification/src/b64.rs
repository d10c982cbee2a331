use vstd::prelude::*;

use crate::ascii::{COMMA, D0, D9, DOLLAR, LC_A, LC_Z, PLUS, SLASH, UC_A, UC_Z};

verus! {

// Unpadded standard base64, the textual form of the salt and of the derived
// output inside an encoded hash string.  Decoding is strict: it rejects
// non-alphabet characters, impossible lengths, and non-canonical final
// characters (trailing bits that are not zero), so that every byte string
// has exactly one accepted encoding.

/// The alphabet character for a six-bit value.
pub open spec fn b64_char(v: u8) -> u8 {
    if v < 26 {
        (UC_A + v) as u8
    } else if v < 52 {
        (LC_A + v - 26) as u8
    } else if v < 62 {
        (D0 + v - 52) as u8
    } else if v == 62 {
        PLUS
    } else if v == 63 {
        SLASH
    } else {
        0
    }
}

/// The six-bit value of an alphabet character, or 64 for anything else.
pub open spec fn b64_val(c: u8) -> u8 {
    if UC_A <= c <= UC_Z {
        (c - UC_A) as u8
    } else if LC_A <= c <= LC_Z {
        (c - LC_A + 26) as u8
    } else if D0 <= c <= D9 {
        (c - D0 + 52) as u8
    } else if c == PLUS {
        62
    } else if c == SLASH {
        63
    } else {
        64
    }
}

pub open spec fn is_b64_char(c: u8) -> bool {
    b64_val(c) < 64
}

/// The unpadded base64 encoding of a byte string, as ASCII codes.
pub open spec fn b64_encode(s: Seq<u8>) -> Seq<u8>
    decreases s.len(),
{
    if s.len() == 0 {
        Seq::empty()
    } else if s.len() == 1 {
        seq![b64_char(s[0] >> 2), b64_char((s[0] & 3) << 4)]
    } else if s.len() == 2 {
        seq![
            b64_char(s[0] >> 2),
            b64_char(((s[0] & 3) << 4) | (s[1] >> 4)),
            b64_char((s[1] & 15) << 2),
        ]
    } else {
        seq![
            b64_char(s[0] >> 2),
            b64_char(((s[0] & 3) << 4) | (s[1] >> 4)),
            b64_char(((s[1] & 15) << 2) | (s[2] >> 6)),
            b64_char(s[2] & 63),
        ] + b64_encode(s.skip(3))
    }
}

/// Strict base64 decoding: the bytes encoded by an ASCII string, or `None`
/// when the string is not the canonical encoding of any byte string.
pub open spec fn b64_decode(s: Seq<u8>) -> Option<Seq<u8>>
    decreases s.len(),
{
    if s.len() == 0 {
        Some(Seq::empty())
    } else if s.len() == 1 {
        None
    } else if s.len() == 2 {
        let v0 = b64_val(s[0]);
        let v1 = b64_val(s[1]);
        if v0 < 64 && v1 < 64 && v1 & 15 == 0 {
            Some(seq![(v0 << 2) | (v1 >> 4)])
        } else {
            None
        }
    } else if s.len() == 3 {
        let v0 = b64_val(s[0]);
        let v1 = b64_val(s[1]);
        let v2 = b64_val(s[2]);
        if v0 < 64 && v1 < 64 && v2 < 64 && v2 & 3 == 0 {
            Some(seq![(v0 << 2) | (v1 >> 4), ((v1 & 15) << 4) | (v2 >> 2)])
        } else {
            None
        }
    } else {
        let v0 = b64_val(s[0]);
        let v1 = b64_val(s[1]);
        let v2 = b64_val(s[2]);
        let v3 = b64_val(s[3]);
        if v0 < 64 && v1 < 64 && v2 < 64 && v3 < 64 {
            match b64_decode(s.skip(4)) {
                Some(rest) => Some(
                    seq![
                        (v0 << 2) | (v1 >> 4),
                        ((v1 & 15) << 4) | (v2 >> 2),
                        ((v2 & 3) << 6) | v3,
                    ] + rest,
                ),
                None => None,
            }
        } else {
            None
        }
    }
}

/// The alphabet maps six-bit values to distinct characters that are neither
/// `$` nor `,` and are plain ASCII; `b64_val` inverts it.
pub proof fn lemma_b64_char_val(v: u8)
    requires
        v < 64,
    ensures
        b64_val(b64_char(v)) == v,
        is_b64_char(b64_char(v)),
        b64_char(v) != DOLLAR,
        b64_char(v) != COMMA,
        0 < b64_char(v) < 128,
{
}

/// Every alphabet character is the character of its own value.
pub proof fn lemma_b64_val_char(c: u8)
    requires
        is_b64_char(c),
    ensures
        b64_char(b64_val(c)) == c,
{
}

/// Everything base64 encoding emits is in the alphabet, so never `$`, `,`
/// or a byte outside ASCII.
pub proof fn lemma_b64_encode_chars(s: Seq<u8>)
    ensures
        forall|i: int|
            0 <= i < b64_encode(s).len() ==> {
                &&& is_b64_char(#[trigger] b64_encode(s)[i])
                &&& b64_encode(s)[i] != DOLLAR
                &&& b64_encode(s)[i] != COMMA
                &&& b64_encode(s)[i] < 128
            },
    decreases s.len(),
{
    let e = b64_encode(s);
    if s.len() == 0 {
    } else if s.len() == 1 {
        let a = s[0];
        assert(a >> 2 < 64 && (a & 3) << 4 < 64) by (bit_vector);
        lemma_b64_char_val(a >> 2);
        lemma_b64_char_val((a & 3) << 4);
    } else if s.len() == 2 {
        let a = s[0];
        let b = s[1];
        assert(a >> 2 < 64 && ((a & 3) << 4) | (b >> 4) < 64 && (b & 15) << 2 < 64)
            by (bit_vector);
        lemma_b64_char_val(a >> 2);
        lemma_b64_char_val(((a & 3) << 4) | (b >> 4));
        lemma_b64_char_val((b & 15) << 2);
    } else {
        let a = s[0];
        let b = s[1];
        let c = s[2];
        assert(a >> 2 < 64 && ((a & 3) << 4) | (b >> 4) < 64 && ((b & 15) << 2) | (c >> 6) < 64
            && c & 63 < 64) by (bit_vector);
        lemma_b64_char_val(a >> 2);
        lemma_b64_char_val(((a & 3) << 4) | (b >> 4));
        lemma_b64_char_val(((b & 15) << 2) | (c >> 6));
        lemma_b64_char_val(c & 63);
        lemma_b64_encode_chars(s.skip(3));
        assert forall|i: int| 0 <= i < e.len() implies {
            &&& is_b64_char(#[trigger] e[i])
            &&& e[i] != DOLLAR
            &&& e[i] != COMMA
            &&& e[i] < 128
        } by {
            if i >= 4 {
                assert(e[i] == b64_encode(s.skip(3))[i - 4]);
            }
        }
    }
}

/// Decoding inverts encoding: base64 round-trips on every byte string.
pub proof fn lemma_b64_round_trip(s: Seq<u8>)
    ensures
        b64_decode(b64_encode(s)) == Some(s),
    decreases s.len(),
{
    let e = b64_encode(s);
    if s.len() == 0 {
        assert(s =~= Seq::<u8>::empty());
    } else if s.len() == 1 {
        let a = s[0];
        assert(a >> 2 < 64 && (a & 3) << 4 < 64) by (bit_vector);
        lemma_b64_char_val(a >> 2);
        lemma_b64_char_val((a & 3) << 4);
        assert(((a & 3) << 4) & 15 == 0) by (bit_vector);
        assert(((a >> 2) << 2) | (((a & 3) << 4) >> 4) == a) by (bit_vector);
        assert(b64_decode(e) == Some(seq![a]));
        assert(seq![a] =~= s);
    } else if s.len() == 2 {
        let a = s[0];
        let b = s[1];
        let c1 = ((a & 3) << 4) | (b >> 4);
        assert(a >> 2 < 64 && ((a & 3) << 4) | (b >> 4) < 64 && (b & 15) << 2 < 64)
            by (bit_vector);
        lemma_b64_char_val(a >> 2);
        lemma_b64_char_val(c1);
        lemma_b64_char_val((b & 15) << 2);
        assert(((b & 15) << 2) & 3 == 0) by (bit_vector);
        assert(((a >> 2) << 2) | ((((a & 3) << 4) | (b >> 4)) >> 4) == a) by (bit_vector);
        assert((((((a & 3) << 4) | (b >> 4)) & 15) << 4) | (((b & 15) << 2) >> 2) == b)
            by (bit_vector);
        assert(b64_decode(e) == Some(seq![a, b]));
        assert(seq![a, b] =~= s);
    } else {
        let a = s[0];
        let b = s[1];
        let c = s[2];
        let c1 = ((a & 3) << 4) | (b >> 4);
        let c2 = ((b & 15) << 2) | (c >> 6);
        assert(a >> 2 < 64 && ((a & 3) << 4) | (b >> 4) < 64 && ((b & 15) << 2) | (c >> 6) < 64
            && c & 63 < 64) by (bit_vector);
        lemma_b64_char_val(a >> 2);
        lemma_b64_char_val(c1);
        lemma_b64_char_val(c2);
        lemma_b64_char_val(c & 63);
        lemma_b64_round_trip(s.skip(3));
        assert(e.len() >= 4);
        assert(e.skip(4) =~= b64_encode(s.skip(3)));
        assert(((a >> 2) << 2) | ((((a & 3) << 4) | (b >> 4)) >> 4) == a) by (bit_vector);
        assert((((((a & 3) << 4) | (b >> 4)) & 15) << 4) | (((((b & 15) << 2) | (c >> 6))) >> 2)
            == b) by (bit_vector);
        assert((((((b & 15) << 2) | (c >> 6)) & 3) << 6) | (c & 63) == c) by (bit_vector);
        assert(b64_decode(e) == Some(seq![a, b, c] + s.skip(3)));
        assert(seq![a, b, c] + s.skip(3) =~= s);
    }
}

/// Strictness: whatever decodes was the canonical encoding of its bytes, so
/// decoding is injective and accepts exactly the image of `b64_encode`.
pub proof fn lemma_b64_canonical(s: Seq<u8>, b: Seq<u8>)
    requires
        b64_decode(s) == Some(b),
    ensures
        b64_encode(b) == s,
    decreases s.len(),
{
    if s.len() == 0 {
        assert(b =~= Seq::<u8>::empty());
        assert(b64_encode(b) =~= s);
    } else if s.len() == 2 {
        let v0 = b64_val(s[0]);
        let v1 = b64_val(s[1]);
        let x = (v0 << 2) | (v1 >> 4);
        assert(b =~= seq![x]);
        assert(((v0 << 2) | (v1 >> 4)) >> 2 == v0 && ((((v0 << 2) | (v1 >> 4)) & 3) << 4) == v1)
            by (bit_vector)
            requires
                v0 < 64,
                v1 < 64,
                v1 & 15 == 0,
        ;
        lemma_b64_val_char(s[0]);
        lemma_b64_val_char(s[1]);
        assert(b64_encode(b) == seq![b64_char(x >> 2), b64_char((x & 3) << 4)]);
        assert(b64_encode(b) =~= s);
    } else if s.len() == 3 {
        let v0 = b64_val(s[0]);
        let v1 = b64_val(s[1]);
        let v2 = b64_val(s[2]);
        let x = (v0 << 2) | (v1 >> 4);
        let y = ((v1 & 15) << 4) | (v2 >> 2);
        assert(b =~= seq![x, y]);
        assert({
            &&& ((v0 << 2) | (v1 >> 4)) >> 2 == v0
            &&& (((v0 << 2) | (v1 >> 4)) & 3) << 4 | ((((v1 & 15) << 4) | (v2 >> 2)) >> 4) == v1
            &&& (((((v1 & 15) << 4) | (v2 >> 2)) & 15) << 2) == v2
        }) by (bit_vector)
            requires
                v0 < 64,
                v1 < 64,
                v2 < 64,
                v2 & 3 == 0,
        ;
        lemma_b64_val_char(s[0]);
        lemma_b64_val_char(s[1]);
        lemma_b64_val_char(s[2]);
        assert(b64_encode(b) == seq![
            b64_char(x >> 2),
            b64_char(((x & 3) << 4) | (y >> 4)),
            b64_char((y & 15) << 2),
        ]);
        assert(b64_encode(b) =~= s);
    } else {
        let v0 = b64_val(s[0]);
        let v1 = b64_val(s[1]);
        let v2 = b64_val(s[2]);
        let v3 = b64_val(s[3]);
        let rest = b64_decode(s.skip(4));
        assert(rest is Some);
        let r = rest->Some_0;
        let x = (v0 << 2) | (v1 >> 4);
        let y = ((v1 & 15) << 4) | (v2 >> 2);
        let z = ((v2 & 3) << 6) | v3;
        assert(b =~= seq![x, y, z] + r);
        lemma_b64_canonical(s.skip(4), r);
        assert({
            &&& ((v0 << 2) | (v1 >> 4)) >> 2 == v0
            &&& ((((v0 << 2) | (v1 >> 4)) & 3) << 4) | (((((v1 & 15) << 4) | (v2 >> 2))) >> 4)
                == v1
            &&& ((((((v1 & 15) << 4) | (v2 >> 2))) & 15) << 2) | (((((v2 & 3) << 6) | v3)) >> 6)
                == v2
            &&& ((((v2 & 3) << 6) | v3)) & 63 == v3
        }) by (bit_vector)
            requires
                v0 < 64,
                v1 < 64,
                v2 < 64,
                v3 < 64,
        ;
        lemma_b64_val_char(s[0]);
        lemma_b64_val_char(s[1]);
        lemma_b64_val_char(s[2]);
        lemma_b64_val_char(s[3]);
        assert(b.len() >= 3);
        assert(b[0] == x && b[1] == y && b[2] == z);
        assert(b.skip(3) =~= r);
        assert(b64_encode(b) == seq![
            b64_char(b[0] >> 2),
            b64_char(((b[0] & 3) << 4) | (b[1] >> 4)),
            b64_char(((b[1] & 15) << 2) | (b[2] >> 6)),
            b64_char(b[2] & 63),
        ] + b64_encode(b.skip(3)));
        assert(b64_encode(b) =~= s);
    }
}

/// The alphabet character for a six-bit value.
pub fn encode_sextet(v: u8) -> (r: u8)
    ensures
        r == b64_char(v),
{
    if v < 26 {
        UC_A + v
    } else if v < 52 {
        LC_A + (v - 26)
    } else if v < 62 {
        D0 + (v - 52)
    } else if v == 62 {
        PLUS
    } else if v == 63 {
        SLASH
    } else {
        0
    }
}

/// The six-bit value of an alphabet character, or 64 for anything else.
pub fn char_value(c: u8) -> (r: u8)
    ensures
        r == b64_val(c),
{
    if UC_A <= c && c <= UC_Z {
        c - UC_A
    } else if LC_A <= c && c <= LC_Z {
        c - LC_A + 26
    } else if D0 <= c && c <= D9 {
        c - D0 + 52
    } else if c == PLUS {
        62
    } else if c == SLASH {
        63
    } else {
        64
    }
}

/// Unpadded base64 encoding of a byte string.
pub fn b64_encode_exec(s: &[u8]) -> (r: Vec<u8>)
    ensures
        r@ == b64_encode(s@),
{
    let n = s.len();
    let mut out: Vec<u8> = Vec::new();
    let mut i: usize = 0;
    proof {
        assert(s@.skip(0) =~= s@);
        assert(out@ + b64_encode(s@) =~= b64_encode(s@));
    }
    while n - i >= 3
        invariant
            0 <= i <= n,
            n == s@.len(),
            b64_encode(s@) == out@ + b64_encode(s@.skip(i as int)),
        decreases n - i,
    {
        let a = s[i];
        let b = s[i + 1];
        let c = s[i + 2];
        let ghost prev = out@;
        out.push(encode_sextet(a >> 2));
        out.push(encode_sextet(((a & 3) << 4) | (b >> 4)));
        out.push(encode_sextet(((b & 15) << 2) | (c >> 6)));
        out.push(encode_sextet(c & 63));
        proof {
            let t = s@.skip(i as int);
            assert(t.len() == n - i >= 3);
            assert(t[0] == a && t[1] == b && t[2] == c);
            assert(t.skip(3) =~= s@.skip((i + 3) as int));
            assert(out@ =~= prev + seq![
                b64_char(a >> 2),
                b64_char(((a & 3) << 4) | (b >> 4)),
                b64_char(((b & 15) << 2) | (c >> 6)),
                b64_char(c & 63),
            ]);
            assert(b64_encode(s@) =~= out@ + b64_encode(s@.skip((i + 3) as int)));
        }
        i = i + 3;
    }
    let rem = n - i;
    if rem == 1 {
        let a = s[i];
        let ghost prev = out@;
        out.push(encode_sextet(a >> 2));
        out.push(encode_sextet((a & 3) << 4));
        proof {
            let t = s@.skip(i as int);
            assert(t.len() == 1 && t[0] == a);
            assert(out@ =~= prev + seq![b64_char(a >> 2), b64_char((a & 3) << 4)]);
            assert(b64_encode(s@) =~= out@);
        }
    } else if rem == 2 {
        let a = s[i];
        let b = s[i + 1];
        let ghost prev = out@;
        out.push(encode_sextet(a >> 2));
        out.push(encode_sextet(((a & 3) << 4) | (b >> 4)));
        out.push(encode_sextet((b & 15) << 2));
        proof {
            let t = s@.skip(i as int);
            assert(t.len() == 2 && t[0] == a && t[1] == b);
            assert(out@ =~= prev + seq![
                b64_char(a >> 2),
                b64_char(((a & 3) << 4) | (b >> 4)),
                b64_char((b & 15) << 2),
            ]);
            assert(b64_encode(s@) =~= out@);
        }
    } else {
        proof {
            assert(s@.skip(i as int).len() == 0);
            assert(b64_encode(s@) =~= out@ + Seq::<u8>::empty());
            assert(b64_encode(s@) =~= out@);
        }
    }
    out
}

/// Strict unpadded base64 decoding; `None` on anything that is not the
/// canonical encoding of some byte string.
pub fn b64_decode_exec(s: &[u8]) -> (r: Option<Vec<u8>>)
    ensures
        match r {
            Some(v) => b64_decode(s@) == Some(v@),
            None => b64_decode(s@) is None,
        },
{
    let n = s.len();
    let mut out: Vec<u8> = Vec::new();
    let mut i: usize = 0;
    proof {
        assert(s@.skip(0) =~= s@);
        assert forall|t: Seq<u8>| b64_decode(s@.skip(0)) == Some(t) implies b64_decode(s@)
            == Some(out@ + t) by {
            assert(out@ + t =~= t);
        }
    }
    while n - i >= 4
        invariant
            0 <= i <= n,
            n == s@.len(),
            b64_decode(s@) is Some <==> b64_decode(s@.skip(i as int)) is Some,
            forall|t: Seq<u8>|
                b64_decode(s@.skip(i as int)) == Some(t) ==> b64_decode(s@) == Some(out@ + t),
        decreases n - i,
    {
        let v0 = char_value(s[i]);
        let v1 = char_value(s[i + 1]);
        let v2 = char_value(s[i + 2]);
        let v3 = char_value(s[i + 3]);
        proof {
            let t = s@.skip(i as int);
            assert(t.len() == n - i >= 4);
            assert(t[0] == s@[i as int] && t[1] == s@[i + 1] && t[2] == s@[i + 2]);
            assert(t[3] == s@[i + 3]);
            assert(t.skip(4) =~= s@.skip((i + 4) as int));
        }
        if v0 >= 64 || v1 >= 64 || v2 >= 64 || v3 >= 64 {
            proof {
                assert(b64_decode(s@.skip(i as int)) is None);
            }
            return None;
        }
        let ghost prev = out@;
        out.push((v0 << 2u8) | (v1 >> 4u8));
        out.push(((v1 & 15) << 4u8) | (v2 >> 2u8));
        out.push(((v2 & 3) << 6u8) | v3);
        proof {
            let t = s@.skip(i as int);
            let g = seq![(v0 << 2) | (v1 >> 4), ((v1 & 15) << 4) | (v2 >> 2), ((v2 & 3) << 6) | v3];
            assert(out@ =~= prev + g);
            assert forall|u: Seq<u8>|
                b64_decode(s@.skip((i + 4) as int)) == Some(u) implies b64_decode(s@) == Some(
                out@ + u,
            ) by {
                assert(b64_decode(t) == Some(g + u));
                assert(prev + (g + u) =~= out@ + u);
            }
        }
        i = i + 4;
    }
    let rem = n - i;
    if rem == 0 {
        proof {
            assert(s@.skip(i as int).len() == 0);
            assert(b64_decode(s@.skip(i as int)) == Some(Seq::<u8>::empty()));
            assert(out@ + Seq::<u8>::empty() =~= out@);
        }
        Some(out)
    } else if rem == 1 {
        proof {
            assert(s@.skip(i as int).len() == 1);
        }
        None
    } else if rem == 2 {
        let v0 = char_value(s[i]);
        let v1 = char_value(s[i + 1]);
        proof {
            let t = s@.skip(i as int);
            assert(t.len() == 2);
            assert(t[0] == s@[i as int] && t[1] == s@[i + 1]);
        }
        if v0 < 64 && v1 < 64 && v1 & 15 == 0 {
            let ghost prev = out@;
            out.push((v0 << 2u8) | (v1 >> 4u8));
            proof {
                let t = s@.skip(i as int);
                assert(b64_decode(t) == Some(seq![(v0 << 2) | (v1 >> 4)]));
                assert(prev + seq![(v0 << 2) | (v1 >> 4)] =~= out@);
            }
            Some(out)
        } else {
            proof {
                assert(b64_decode(s@.skip(i as int)) is None);
            }
            None
        }
    } else {
        let v0 = char_value(s[i]);
        let v1 = char_value(s[i + 1]);
        let v2 = char_value(s[i + 2]);
        proof {
            let t = s@.skip(i as int);
            assert(t.len() == 3);
            assert(t[0] == s@[i as int] && t[1] == s@[i + 1] && t[2] == s@[i + 2]);
        }
        if v0 < 64 && v1 < 64 && v2 < 64 && v2 & 3 == 0 {
            let ghost prev = out@;
            out.push((v0 << 2u8) | (v1 >> 4u8));
            out.push(((v1 & 15) << 4u8) | (v2 >> 2u8));
            proof {
                let t = s@.skip(i as int);
                assert(b64_decode(t) == Some(seq![(v0 << 2) | (v1 >> 4), ((v1 & 15) << 4) | (v2
                    >> 2)]));
                assert(prev + seq![(v0 << 2) | (v1 >> 4), ((v1 & 15) << 4) | (v2 >> 2)] =~= out@);
            }
            Some(out)
        } else {
            proof {
                assert(b64_decode(s@.skip(i as int)) is None);
            }
            None
        }
    }
}

} // verus!
