use vstd::prelude::*;

use crate::ascii::{COMMA, D0, D2, D9, DOLLAR, EQUALS, LC_A, LC_D, LC_G, LC_I, LC_M, LC_N, LC_O, LC_P, LC_R, LC_T, LC_V};
use crate::b64::{
    b64_decode, b64_decode_exec, b64_encode, b64_encode_exec, is_b64_char, lemma_b64_canonical,
    lemma_b64_encode_chars, lemma_b64_round_trip,
};
use crate::dec::{
    all_digits, dec_digits, is_digit, lemma_dec_canonical, lemma_dec_digits, lemma_val_nonneg,
    parse_u32, parse_u32_exec, u32_to_dec,
};
use vstd::slice::slice_subrange;
use crate::params::{Params, Variant, Version};

verus! {

// The encoded hash string:
//
//   $<variant>$v=<version>$m=<memory_kib>,t=<time_cost>,p=<parallelism>$<salt_b64>$<output_b64>
//
// `encode_bytes` is the canonical printer and `decode_bytes` the strict
// parser; the two are proved inverse to each other below.

/// The abstract content of an encoded hash string.
pub ghost struct HashParts {
    pub variant: Variant,
    pub version: Version,
    pub params: Params,
    pub salt: Seq<u8>,
    pub output: Seq<u8>,
}

impl HashParts {
    /// What the format can carry: legal cost parameters, a salt of 8 to 48
    /// bytes, and an output of 10 to 64 bytes.
    pub open spec fn wf(self) -> bool {
        &&& self.params.valid()
        &&& 8 <= self.salt.len() <= 48
        &&& 10 <= self.output.len() <= 64
    }
}

/// Index of the first occurrence of `c` in `s`, or -1.
pub open spec fn find_byte(s: Seq<u8>, c: u8) -> int
    decreases s.len(),
{
    if s.len() == 0 {
        -1
    } else if s[0] == c {
        0
    } else {
        let f = find_byte(s.skip(1), c);
        if f == -1 {
            -1
        } else {
            f + 1
        }
    }
}

pub proof fn lemma_find_byte(s: Seq<u8>, c: u8)
    ensures
        find_byte(s, c) == -1 ==> forall|i: int| 0 <= i < s.len() ==> s[i] != c,
        find_byte(s, c) != -1 ==> {
            &&& 0 <= find_byte(s, c) < s.len()
            &&& s[find_byte(s, c)] == c
            &&& forall|i: int| 0 <= i < find_byte(s, c) ==> s[i] != c
        },
    decreases s.len(),
{
    if s.len() == 0 {
    } else if s[0] == c {
    } else {
        lemma_find_byte(s.skip(1), c);
        let f = find_byte(s.skip(1), c);
        if f == -1 {
            assert forall|i: int| 0 <= i < s.len() implies s[i] != c by {
                if i > 0 {
                    assert(s[i] == s.skip(1)[i - 1]);
                }
            }
        } else {
            assert(s[f + 1] == s.skip(1)[f]);
            assert forall|i: int| 0 <= i < f + 1 implies s[i] != c by {
                if i > 0 {
                    assert(s[i] == s.skip(1)[i - 1]);
                }
            }
        }
    }
}

/// The pieces of `s` between occurrences of `c`.
pub open spec fn split_bytes(s: Seq<u8>, c: u8) -> Seq<Seq<u8>>
    decreases s.len(),
{
    let f = find_byte(s, c);
    if f < 0 || f >= s.len() {
        seq![s]
    } else {
        seq![s.take(f)] + split_bytes(s.skip(f + 1), c)
    }
}

/// A separator-free string is a single piece.
pub proof fn lemma_split_no_sep(s: Seq<u8>, c: u8)
    requires
        forall|i: int| 0 <= i < s.len() ==> s[i] != c,
    ensures
        split_bytes(s, c) == seq![s],
{
    lemma_find_byte(s, c);
    let f = find_byte(s, c);
    if f != -1 {
        assert(s[f] == c);
        assert(false);
    }
}

/// Splitting takes off one separator-free piece at a time.
pub proof fn lemma_split_prepend(a: Seq<u8>, b: Seq<u8>, c: u8)
    requires
        forall|i: int| 0 <= i < a.len() ==> a[i] != c,
    ensures
        split_bytes(a + seq![c] + b, c) == seq![a] + split_bytes(b, c),
{
    let s = a + seq![c] + b;
    lemma_find_byte(s, c);
    let f = find_byte(s, c);
    assert(s[a.len() as int] == c);
    if f == -1 {
        assert(false);
    }
    if f < a.len() {
        assert(s[f] == a[f]);
        assert(false);
    }
    if f > a.len() {
        assert(s[a.len() as int] != c);
        assert(false);
    }
    assert(f == a.len());
    assert(s.take(f) =~= a);
    assert(s.skip(f + 1) =~= b);
    assert(split_bytes(s, c) == seq![s.take(f)] + split_bytes(b, c));
    assert(seq![s.take(f)] =~= seq![a]);
}

/// Joining the pieces with the separator restores the string, there is at
/// least one piece, and no piece contains the separator.
pub proof fn lemma_split_join(s: Seq<u8>, c: u8)
    ensures
        split_bytes(s, c).len() >= 1,
        join_bytes(split_bytes(s, c), c) == s,
        forall|k: int, i: int|
            0 <= k < split_bytes(s, c).len() && 0 <= i < split_bytes(s, c)[k].len()
                ==> #[trigger] split_bytes(s, c)[k][i] != c,
    decreases s.len(),
{
    lemma_find_byte(s, c);
    let f = find_byte(s, c);
    if f < 0 || f >= s.len() {
        assert(join_bytes(seq![s], c) == s);
    } else {
        lemma_split_join(s.skip(f + 1), c);
        let head = s.take(f);
        let rest = split_bytes(s.skip(f + 1), c);
        let parts = split_bytes(s, c);
        assert(parts == seq![head] + rest);
        assert(parts.len() >= 2);
        assert(parts.skip(1) =~= rest);
        assert(join_bytes(parts, c) == parts[0] + seq![c] + join_bytes(rest, c));
        assert(parts[0] == head);
        assert(head + seq![c] + s.skip(f + 1) =~= s);
        assert forall|k: int, i: int|
            0 <= k < parts.len() && 0 <= i < parts[k].len() implies #[trigger] parts[k][i]
            != c by {
            if k == 0 {
                assert(parts[0][i] == s[i]);
            } else {
                assert(parts[k] == rest[k - 1]);
                assert(rest[k - 1][i] != c);
            }
        }
    }
}

/// The pieces, reassembled around the separator.
pub open spec fn join_bytes(parts: Seq<Seq<u8>>, c: u8) -> Seq<u8>
    decreases parts.len(),
{
    if parts.len() == 0 {
        Seq::empty()
    } else if parts.len() == 1 {
        parts[0]
    } else {
        parts[0] + seq![c] + join_bytes(parts.skip(1), c)
    }
}

/// The `v=<decimal>` field.
pub open spec fn version_field(v: Version) -> Seq<u8> {
    seq![LC_V, EQUALS] + dec_digits(v.num() as nat)
}

/// The `m=<decimal>,t=<decimal>,p=<decimal>` field.
pub open spec fn params_field(p: Params) -> Seq<u8> {
    seq![LC_M, EQUALS] + dec_digits(p.memory_cost_kib as nat) + seq![COMMA, LC_T, EQUALS]
        + dec_digits(p.time_cost as nat) + seq![COMMA, LC_P, EQUALS] + dec_digits(
        p.parallelism as nat,
    )
}

/// The canonical encoded hash string, as ASCII codes.
pub open spec fn encode_bytes(x: HashParts) -> Seq<u8> {
    seq![DOLLAR] + x.variant.tag() + seq![DOLLAR] + version_field(x.version) + seq![DOLLAR]
        + params_field(x.params) + seq![DOLLAR] + b64_encode(x.salt) + seq![DOLLAR] + b64_encode(
        x.output,
    )
}

pub open spec fn parse_variant(f: Seq<u8>) -> Option<Variant> {
    if f == Variant::Argon2d.tag() {
        Some(Variant::Argon2d)
    } else if f == Variant::Argon2i.tag() {
        Some(Variant::Argon2i)
    } else if f == Variant::Argon2id.tag() {
        Some(Variant::Argon2id)
    } else {
        None
    }
}

pub open spec fn parse_version_field(f: Seq<u8>) -> Option<Version> {
    if f.len() <= 2 || f[0] != LC_V || f[1] != EQUALS {
        None
    } else if parse_u32(f.skip(2)) == Some(16u32) {
        Some(Version::V0x10)
    } else if parse_u32(f.skip(2)) == Some(19u32) {
        Some(Version::V0x13)
    } else {
        None
    }
}

/// A `<letter>=<decimal>` piece of the params field.
pub open spec fn parse_tagged_u32(f: Seq<u8>, letter: u8) -> Option<u32> {
    if f.len() <= 2 || f[0] != letter || f[1] != EQUALS {
        None
    } else {
        parse_u32(f.skip(2))
    }
}

pub open spec fn parse_params_field(f: Seq<u8>) -> Option<Params> {
    let ps = split_bytes(f, COMMA);
    if ps.len() != 3 {
        None
    } else {
        let om = parse_tagged_u32(ps[0], LC_M);
        let ot = parse_tagged_u32(ps[1], LC_T);
        let op = parse_tagged_u32(ps[2], LC_P);
        if om is Some && ot is Some && op is Some {
            Some(
                Params {
                    memory_cost_kib: om->Some_0,
                    time_cost: ot->Some_0,
                    parallelism: op->Some_0,
                },
            )
        } else {
            None
        }
    }
}

/// The strict parser: accepts exactly the canonical encodings of
/// well-formed tuples, as the lemmas below prove.
pub open spec fn decode_bytes(s: Seq<u8>) -> Option<HashParts> {
    if s.len() == 0 || s[0] != DOLLAR {
        None
    } else {
        let fields = split_bytes(s.skip(1), DOLLAR);
        if fields.len() != 5 {
            None
        } else {
            let ov = parse_variant(fields[0]);
            let over = parse_version_field(fields[1]);
            let opar = parse_params_field(fields[2]);
            let osalt = b64_decode(fields[3]);
            let oout = b64_decode(fields[4]);
            if ov is Some && over is Some && opar is Some && osalt is Some && oout is Some {
                let x = HashParts {
                    variant: ov->Some_0,
                    version: over->Some_0,
                    params: opar->Some_0,
                    salt: osalt->Some_0,
                    output: oout->Some_0,
                };
                if x.wf() {
                    Some(x)
                } else {
                    None
                }
            } else {
                None
            }
        }
    }
}

/// Every byte of `s` is plain ASCII.
pub open spec fn ascii_ok(s: Seq<u8>) -> bool {
    forall|i: int| 0 <= i < s.len() ==> #[trigger] s[i] < 128
}

/// The byte `c` does not occur in `s`.
pub open spec fn no_byte(s: Seq<u8>, c: u8) -> bool {
    forall|i: int| 0 <= i < s.len() ==> #[trigger] s[i] != c
}

proof fn lemma_chars_concat(a: Seq<u8>, b: Seq<u8>, c: u8)
    requires
        ascii_ok(a),
        ascii_ok(b),
        no_byte(a, c),
        no_byte(b, c),
    ensures
        ascii_ok(a + b),
        no_byte(a + b, c),
{
    assert forall|i: int| 0 <= i < (a + b).len() implies #[trigger] (a + b)[i] < 128 && (a + b)[i]
        != c by {
        if i < a.len() {
            assert((a + b)[i] == a[i]);
        } else {
            assert((a + b)[i] == b[i - a.len()]);
        }
    }
}

/// No tag character is a separator, and every tag byte is plain ASCII.
proof fn lemma_tag_chars(v: Variant)
    ensures
        ascii_ok(v.tag()),
        no_byte(v.tag(), DOLLAR),
{
    let t = v.tag();
    assert forall|i: int| 0 <= i < t.len() implies #[trigger] t[i] < 128 && t[i] != DOLLAR by {
        match v {
            Variant::Argon2d => assert(t.len() == 7),
            Variant::Argon2i => assert(t.len() == 7),
            Variant::Argon2id => assert(t.len() == 8),
        }
    }
}

/// Digit strings contain no separator and are plain ASCII.
proof fn lemma_digits_chars(s: Seq<u8>, c: u8)
    requires
        all_digits(s),
        c < D0 || c > D9,
    ensures
        ascii_ok(s),
        no_byte(s, c),
{
    assert forall|i: int| 0 <= i < s.len() implies #[trigger] s[i] < 128 && s[i] != c by {
        assert(is_digit(s[i]));
    }
}

/// Base64 output contains no separator and is plain ASCII.
proof fn lemma_b64_chars(s: Seq<u8>, c: u8)
    requires
        c == DOLLAR || c == COMMA,
    ensures
        ascii_ok(b64_encode(s)),
        no_byte(b64_encode(s), c),
{
    lemma_b64_encode_chars(s);
    let e = b64_encode(s);
    assert forall|i: int| 0 <= i < e.len() implies #[trigger] e[i] < 128 && e[i] != c by {
        assert(is_b64_char(e[i]) && e[i] != DOLLAR && e[i] != COMMA && e[i] < 128);
    }
}

/// The version field parses back, is dollar-free and plain ASCII.
proof fn lemma_version_field_props(v: Version)
    ensures
        parse_version_field(version_field(v)) == Some(v),
        ascii_ok(version_field(v)),
        no_byte(version_field(v), DOLLAR),
{
    let dv = dec_digits(v.num() as nat);
    let vf = version_field(v);
    lemma_dec_digits(v.num() as nat);
    lemma_digits_chars(dv, DOLLAR);
    assert(ascii_ok(seq![LC_V, EQUALS]) && no_byte(seq![LC_V, EQUALS], DOLLAR)) by {
        assert(seq![LC_V, EQUALS][0] == LC_V && seq![LC_V, EQUALS][1] == EQUALS);
    }
    lemma_chars_concat(seq![LC_V, EQUALS], dv, DOLLAR);
    assert(vf.take(2) =~= seq![LC_V, EQUALS]);
    assert(vf.skip(2) =~= dv);
    assert(vf[0] == LC_V && vf[1] == EQUALS);
    assert(parse_u32(dv) == Some(v.num()));
    assert(parse_version_field(vf) == Some(v));
}

/// A `<letter>=<decimal>` piece parses back and stays comma- and
/// dollar-free ASCII.
proof fn lemma_piece_props(n: u32, letter: u8)
    requires
        letter == LC_M || letter == LC_T || letter == LC_P,
    ensures
        parse_tagged_u32(seq![letter, EQUALS] + dec_digits(n as nat), letter) == Some(n),
        ascii_ok(seq![letter, EQUALS] + dec_digits(n as nat)),
        no_byte(seq![letter, EQUALS] + dec_digits(n as nat), DOLLAR),
        no_byte(seq![letter, EQUALS] + dec_digits(n as nat), COMMA),
{
    let d = dec_digits(n as nat);
    let q = seq![letter, EQUALS] + d;
    lemma_dec_digits(n as nat);
    lemma_digits_chars(d, DOLLAR);
    lemma_digits_chars(d, COMMA);
    assert(ascii_ok(seq![letter, EQUALS]) && no_byte(seq![letter, EQUALS], DOLLAR) && no_byte(
        seq![letter, EQUALS],
        COMMA,
    )) by {
        assert(seq![letter, EQUALS][0] == letter && seq![letter, EQUALS][1] == EQUALS);
    }
    lemma_chars_concat(seq![letter, EQUALS], d, DOLLAR);
    lemma_chars_concat(seq![letter, EQUALS], d, COMMA);
    assert(q.skip(2) =~= d);
    assert(q[0] == letter && q[1] == EQUALS);
    assert(parse_u32(d) == Some(n));
}

/// The params field parses back, is dollar-free and plain ASCII.
proof fn lemma_params_field_props(p: Params)
    ensures
        parse_params_field(params_field(p)) == Some(p),
        ascii_ok(params_field(p)),
        no_byte(params_field(p), DOLLAR),
{
    let q0 = seq![LC_M, EQUALS] + dec_digits(p.memory_cost_kib as nat);
    let q1 = seq![LC_T, EQUALS] + dec_digits(p.time_cost as nat);
    let q2 = seq![LC_P, EQUALS] + dec_digits(p.parallelism as nat);
    let pf = params_field(p);
    lemma_piece_props(p.memory_cost_kib, LC_M);
    lemma_piece_props(p.time_cost, LC_T);
    lemma_piece_props(p.parallelism, LC_P);
    assert(ascii_ok(seq![COMMA]) && no_byte(seq![COMMA], DOLLAR)) by {
        assert(seq![COMMA][0] == COMMA);
    }
    assert(pf =~= q0 + seq![COMMA] + (q1 + seq![COMMA] + q2));
    lemma_split_prepend(q0, q1 + seq![COMMA] + q2, COMMA);
    lemma_split_prepend(q1, q2, COMMA);
    lemma_split_no_sep(q2, COMMA);
    let ps = split_bytes(pf, COMMA);
    assert(ps == seq![q0] + (seq![q1] + seq![q2]));
    assert(ps.len() == 3 && ps[0] == q0 && ps[1] == q1 && ps[2] == q2);
    assert(parse_params_field(pf) == Some(p));
    lemma_chars_concat(q1, q2, DOLLAR);
    lemma_chars_concat(seq![COMMA], q1 + q2, DOLLAR);
    assert forall|i: int| 0 <= i < pf.len() implies #[trigger] pf[i] < 128 && pf[i] != DOLLAR by {
        if i < q0.len() {
            assert(pf[i] == q0[i]);
        } else if i == q0.len() {
            assert(pf[i] == COMMA);
        } else if i < q0.len() + 1 + q1.len() {
            assert(pf[i] == q1[i - q0.len() - 1]);
        } else if i == q0.len() + 1 + q1.len() {
            assert(pf[i] == COMMA);
        } else {
            assert(pf[i] == q2[i - q0.len() - 1 - q1.len() - 1]);
        }
    }
}

/// The three variant tags are pairwise distinct.
proof fn lemma_tags_distinct()
    ensures
        Variant::Argon2d.tag() != Variant::Argon2i.tag(),
        Variant::Argon2d.tag() != Variant::Argon2id.tag(),
        Variant::Argon2i.tag() != Variant::Argon2id.tag(),
{
    assert(Variant::Argon2d.tag()[6] == 100);
    assert(Variant::Argon2i.tag()[6] == 105);
    assert(Variant::Argon2d.tag().len() == 7);
    assert(Variant::Argon2id.tag().len() == 8);
    assert(Variant::Argon2i.tag().len() == 7);
}

/// The five dollar-separated fields of a canonical encoding.
#[verifier::rlimit(100)]
proof fn lemma_encode_fields(x: HashParts)
    ensures
        encode_bytes(x).len() > 0,
        encode_bytes(x)[0] == DOLLAR,
        split_bytes(encode_bytes(x).skip(1), DOLLAR) == seq![
            x.variant.tag(),
            version_field(x.version),
            params_field(x.params),
            b64_encode(x.salt),
            b64_encode(x.output),
        ],
{
    let s = encode_bytes(x);
    let tag = x.variant.tag();
    let vf = version_field(x.version);
    let pf = params_field(x.params);
    let sb = b64_encode(x.salt);
    let ob = b64_encode(x.output);
    lemma_tag_chars(x.variant);
    lemma_version_field_props(x.version);
    lemma_params_field_props(x.params);
    lemma_b64_chars(x.salt, DOLLAR);
    lemma_b64_chars(x.output, DOLLAR);
    let rest2 = pf + seq![DOLLAR] + sb + seq![DOLLAR] + ob;
    let rest3 = sb + seq![DOLLAR] + ob;
    assert(s.skip(1) =~= tag + seq![DOLLAR] + (vf + seq![DOLLAR] + rest2));
    lemma_split_prepend(tag, vf + seq![DOLLAR] + rest2, DOLLAR);
    lemma_split_prepend(vf, rest2, DOLLAR);
    assert(rest2 =~= pf + seq![DOLLAR] + rest3);
    lemma_split_prepend(pf, rest3, DOLLAR);
    lemma_split_prepend(sb, ob, DOLLAR);
    lemma_split_no_sep(ob, DOLLAR);
    let fields = split_bytes(s.skip(1), DOLLAR);
    assert(fields == seq![tag] + (seq![vf] + (seq![pf] + (seq![sb] + seq![ob]))));
    assert(fields =~= seq![tag, vf, pf, sb, ob]);
}

/// ASCII survives concatenation.
proof fn lemma_ascii_concat(a: Seq<u8>, b: Seq<u8>)
    requires
        ascii_ok(a),
        ascii_ok(b),
    ensures
        ascii_ok(a + b),
{
    assert forall|i: int| 0 <= i < (a + b).len() implies #[trigger] (a + b)[i] < 128 by {
        if i < a.len() {
            assert((a + b)[i] == a[i]);
        } else {
            assert((a + b)[i] == b[i - a.len()]);
        }
    }
}

/// Every byte of a canonical encoding is plain ASCII.
pub proof fn lemma_encode_ascii(x: HashParts)
    ensures
        ascii_ok(encode_bytes(x)),
{
    let tag = x.variant.tag();
    let vf = version_field(x.version);
    let pf = params_field(x.params);
    let sb = b64_encode(x.salt);
    let ob = b64_encode(x.output);
    lemma_tag_chars(x.variant);
    lemma_version_field_props(x.version);
    lemma_params_field_props(x.params);
    lemma_b64_chars(x.salt, DOLLAR);
    lemma_b64_chars(x.output, DOLLAR);
    let d = seq![DOLLAR];
    assert(ascii_ok(d)) by {
        assert(d[0] == DOLLAR);
    }
    lemma_ascii_concat(d, tag);
    lemma_ascii_concat(d + tag, d);
    lemma_ascii_concat(d + tag + d, vf);
    lemma_ascii_concat(d + tag + d + vf, d);
    lemma_ascii_concat(d + tag + d + vf + d, pf);
    lemma_ascii_concat(d + tag + d + vf + d + pf, d);
    lemma_ascii_concat(d + tag + d + vf + d + pf + d, sb);
    lemma_ascii_concat(d + tag + d + vf + d + pf + d + sb, d);
    lemma_ascii_concat(d + tag + d + vf + d + pf + d + sb + d, ob);
}

/// Decoding inverts encoding: the codec round-trips on every well-formed
/// tuple.
pub proof fn lemma_codec_round_trip(x: HashParts)
    requires
        x.wf(),
    ensures
        decode_bytes(encode_bytes(x)) == Some(x),
{
    let s = encode_bytes(x);
    lemma_encode_fields(x);
    let fields = split_bytes(s.skip(1), DOLLAR);
    lemma_tags_distinct();
    assert(parse_variant(fields[0]) == Some(x.variant));
    lemma_version_field_props(x.version);
    lemma_params_field_props(x.params);
    lemma_b64_round_trip(x.salt);
    lemma_b64_round_trip(x.output);
    assert(decode_bytes(s) == Some(x));
}

proof fn lemma_version_field_canonical(f: Seq<u8>, v: Version)
    requires
        parse_version_field(f) == Some(v),
    ensures
        f == version_field(v),
{
    let dv = f.skip(2);
    lemma_val_nonneg(dv);
    lemma_dec_canonical(dv);
    assert(dec_digits(v.num() as nat) == dv);
    assert(f =~= seq![LC_V, EQUALS] + dv);
}

proof fn lemma_piece_canonical(f: Seq<u8>, letter: u8, n: u32)
    requires
        parse_tagged_u32(f, letter) == Some(n),
    ensures
        f == seq![letter, EQUALS] + dec_digits(n as nat),
{
    let d = f.skip(2);
    lemma_val_nonneg(d);
    lemma_dec_canonical(d);
    assert(dec_digits(n as nat) == d);
    assert(f =~= seq![letter, EQUALS] + d);
}

#[verifier::rlimit(100)]
proof fn lemma_params_field_canonical(f: Seq<u8>, p: Params)
    requires
        parse_params_field(f) == Some(p),
    ensures
        f == params_field(p),
{
    lemma_split_join(f, COMMA);
    let ps = split_bytes(f, COMMA);
    let q0 = ps[0];
    let q1 = ps[1];
    let q2 = ps[2];
    assert(ps.skip(1).skip(1) =~= ps.skip(2));
    assert(ps.skip(2).len() == 1);
    assert(ps.skip(1)[0] == q1 && ps.skip(2)[0] == q2);
    assert(join_bytes(ps.skip(2), COMMA) == q2);
    assert(join_bytes(ps.skip(1), COMMA) == q1 + seq![COMMA] + q2);
    assert(f == q0 + seq![COMMA] + (q1 + seq![COMMA] + q2));
    lemma_piece_canonical(q0, LC_M, p.memory_cost_kib);
    lemma_piece_canonical(q1, LC_T, p.time_cost);
    lemma_piece_canonical(q2, LC_P, p.parallelism);
    assert(f =~= params_field(p));
}

/// Strictness: whatever decodes was the canonical encoding of its own
/// content.  Decoding is injective; no two distinct accepted strings carry
/// the same tuple, and no accepted string carries an ill-formed one.
#[verifier::rlimit(100)]
pub proof fn lemma_decode_canonical(s: Seq<u8>, x: HashParts)
    requires
        decode_bytes(s) == Some(x),
    ensures
        x.wf(),
        encode_bytes(x) == s,
{
    lemma_split_join(s.skip(1), DOLLAR);
    let fields = split_bytes(s.skip(1), DOLLAR);
    let f0 = fields[0];
    let f1 = fields[1];
    let f2 = fields[2];
    let f3 = fields[3];
    let f4 = fields[4];
    assert(fields.skip(1).skip(1) =~= fields.skip(2));
    assert(fields.skip(2).skip(1) =~= fields.skip(3));
    assert(fields.skip(3).skip(1) =~= fields.skip(4));
    assert(fields.skip(1)[0] == f1 && fields.skip(2)[0] == f2 && fields.skip(3)[0] == f3
        && fields.skip(4)[0] == f4);
    assert(fields.skip(4).len() == 1);
    assert(join_bytes(fields.skip(4), DOLLAR) == f4);
    assert(join_bytes(fields.skip(3), DOLLAR) == f3 + seq![DOLLAR] + f4);
    assert(join_bytes(fields.skip(2), DOLLAR) == f2 + seq![DOLLAR] + (f3 + seq![DOLLAR] + f4));
    assert(join_bytes(fields.skip(1), DOLLAR) == f1 + seq![DOLLAR] + (f2 + seq![DOLLAR] + (f3
        + seq![DOLLAR] + f4)));
    assert(s.skip(1) == f0 + seq![DOLLAR] + (f1 + seq![DOLLAR] + (f2 + seq![DOLLAR] + (f3
        + seq![DOLLAR] + f4))));
    assert(f0 == x.variant.tag());
    lemma_version_field_canonical(f1, x.version);
    lemma_params_field_canonical(f2, x.params);
    lemma_b64_canonical(f3, x.salt);
    lemma_b64_canonical(f4, x.output);
    assert(seq![DOLLAR] + s.skip(1) =~= s);
    assert(encode_bytes(x) =~= seq![DOLLAR] + s.skip(1));
}

/// An encoded hash string, decoded into plain values.
pub struct Decoded {
    pub variant: Variant,
    pub version: Version,
    pub params: Params,
    pub salt: Vec<u8>,
    pub output: Vec<u8>,
}

impl View for Decoded {
    type V = HashParts;

    open spec fn view(&self) -> HashParts {
        HashParts {
            variant: self.variant,
            version: self.version,
            params: self.params,
            salt: self.salt@,
            output: self.output@,
        }
    }
}

/// The canonical encoded hash string of the given content, as ASCII bytes.
#[verifier::rlimit(100)]
pub fn encode_to_bytes(
    variant: Variant,
    version: Version,
    params: &Params,
    salt: &[u8],
    output: &[u8],
) -> (r: Vec<u8>)
    ensures
        r@ == encode_bytes(
            HashParts { variant, version, params: *params, salt: salt@, output: output@ },
        ),
{
    let ghost x = HashParts { variant, version, params: *params, salt: salt@, output: output@ };
    let mut out: Vec<u8> = Vec::new();
    out.push(DOLLAR);
    match variant {
        Variant::Argon2d => {
            out.push(LC_A);
            out.push(LC_R);
            out.push(LC_G);
            out.push(LC_O);
            out.push(LC_N);
            out.push(D2);
            out.push(LC_D);
        },
        Variant::Argon2i => {
            out.push(LC_A);
            out.push(LC_R);
            out.push(LC_G);
            out.push(LC_O);
            out.push(LC_N);
            out.push(D2);
            out.push(LC_I);
        },
        Variant::Argon2id => {
            out.push(LC_A);
            out.push(LC_R);
            out.push(LC_G);
            out.push(LC_O);
            out.push(LC_N);
            out.push(D2);
            out.push(LC_I);
            out.push(LC_D);
        },
    }
    proof {
        assert(out@ =~= seq![DOLLAR] + x.variant.tag());
    }
    let ghost pre1 = out@;
    out.push(DOLLAR);
    out.push(LC_V);
    out.push(EQUALS);
    let vnum: u32 = match version {
        Version::V0x10 => 16,
        Version::V0x13 => 19,
    };
    let mut dv = u32_to_dec(vnum);
    out.append(&mut dv);
    proof {
        assert(out@ =~= pre1 + seq![DOLLAR] + version_field(version));
    }
    let ghost pre2 = out@;
    out.push(DOLLAR);
    out.push(LC_M);
    out.push(EQUALS);
    let mut dm = u32_to_dec(params.memory_cost_kib);
    out.append(&mut dm);
    out.push(COMMA);
    out.push(LC_T);
    out.push(EQUALS);
    let mut dt = u32_to_dec(params.time_cost);
    out.append(&mut dt);
    out.push(COMMA);
    out.push(LC_P);
    out.push(EQUALS);
    let mut dp = u32_to_dec(params.parallelism);
    out.append(&mut dp);
    proof {
        assert(out@ =~= pre2 + seq![DOLLAR] + params_field(*params));
    }
    let ghost pre3 = out@;
    out.push(DOLLAR);
    let mut sb = b64_encode_exec(salt);
    out.append(&mut sb);
    let ghost pre4 = out@;
    out.push(DOLLAR);
    let mut ob = b64_encode_exec(output);
    out.append(&mut ob);
    proof {
        assert(out@ =~= pre3 + seq![DOLLAR] + b64_encode(salt@) + seq![DOLLAR] + b64_encode(
            output@,
        ));
        assert(out@ =~= encode_bytes(x));
    }
    out
}

/// First occurrence of `sep` in `b` at or after `from`.
fn find_from(b: &[u8], from: usize, sep: u8) -> (r: Option<usize>)
    requires
        from <= b@.len(),
    ensures
        match r {
            Some(j) => {
                &&& from <= j < b@.len()
                &&& b@[j as int] == sep
                &&& forall|k: int| from <= k < j ==> b@[k] != sep
            },
            None => forall|k: int| from <= k < b@.len() ==> b@[k] != sep,
        },
{
    let n = b.len();
    let mut i = from;
    while i < n
        invariant
            from <= i <= n,
            n == b@.len(),
            forall|k: int| from <= k < i ==> b@[k] != sep,
        decreases n - i,
    {
        if b[i] == sep {
            return Some(i);
        }
        i = i + 1;
    }
    None
}

fn parse_variant_exec(f: &[u8]) -> (r: Option<Variant>)
    ensures
        r == parse_variant(f@),
{
    if f.len() == 7 {
        if f[0] == LC_A && f[1] == LC_R && f[2] == LC_G && f[3] == LC_O && f[4] == LC_N && f[5]
            == D2 && f[6] == LC_D {
            proof {
                assert(f@ =~= Variant::Argon2d.tag());
            }
            return Some(Variant::Argon2d);
        }
        if f[0] == LC_A && f[1] == LC_R && f[2] == LC_G && f[3] == LC_O && f[4] == LC_N && f[5]
            == D2 && f[6] == LC_I {
            proof {
                assert(f@ =~= Variant::Argon2i.tag());
            }
            return Some(Variant::Argon2i);
        }
        return None;
    }
    if f.len() == 8 {
        if f[0] == LC_A && f[1] == LC_R && f[2] == LC_G && f[3] == LC_O && f[4] == LC_N && f[5]
            == D2 && f[6] == LC_I && f[7] == LC_D {
            proof {
                assert(f@ =~= Variant::Argon2id.tag());
            }
            return Some(Variant::Argon2id);
        }
        return None;
    }
    None
}

fn parse_version_exec(f: &[u8]) -> (r: Option<Version>)
    ensures
        r == parse_version_field(f@),
{
    if f.len() <= 2 || f[0] != LC_V || f[1] != EQUALS {
        return None;
    }
    let d = slice_subrange(f, 2, f.len());
    proof {
        assert(d@ =~= f@.skip(2));
    }
    match parse_u32_exec(d) {
        Some(16u32) => Some(Version::V0x10),
        Some(19u32) => Some(Version::V0x13),
        _ => None,
    }
}

fn parse_tagged_exec(f: &[u8], letter: u8) -> (r: Option<u32>)
    ensures
        r == parse_tagged_u32(f@, letter),
{
    if f.len() <= 2 || f[0] != letter || f[1] != EQUALS {
        return None;
    }
    let d = slice_subrange(f, 2, f.len());
    proof {
        assert(d@ =~= f@.skip(2));
    }
    parse_u32_exec(d)
}

#[verifier::rlimit(100)]
fn parse_params_exec(f: &[u8]) -> (r: Option<Params>)
    ensures
        r == parse_params_field(f@),
{
    let n = f.len();
    let q1 = match find_from(f, 0, COMMA) {
        Some(j) => j,
        None => {
            proof {
                lemma_split_no_sep(f@, COMMA);
            }
            return None;
        },
    };
    let ghost a0 = f@.subrange(0, q1 as int);
    let q2 = match find_from(f, q1 + 1, COMMA) {
        Some(j) => j,
        None => {
            proof {
                let rest = f@.skip(q1 + 1);
                assert(f@ =~= a0 + seq![COMMA] + rest);
                lemma_split_prepend(a0, rest, COMMA);
                assert forall|i: int| 0 <= i < rest.len() implies rest[i] != COMMA by {
                    assert(rest[i] == f@[q1 + 1 + i]);
                }
                lemma_split_no_sep(rest, COMMA);
            }
            return None;
        },
    };
    let ghost a1 = f@.subrange(q1 + 1, q2 as int);
    let ghost a2 = f@.skip(q2 + 1);
    match find_from(f, q2 + 1, COMMA) {
        Some(j) => {
            proof {
                assert(f@ =~= a0 + seq![COMMA] + (a1 + seq![COMMA] + a2));
                lemma_split_prepend(a0, a1 + seq![COMMA] + a2, COMMA);
                lemma_split_prepend(a1, a2, COMMA);
                lemma_find_byte(a2, COMMA);
                let fb = find_byte(a2, COMMA);
                if fb == -1 {
                    assert(a2[j - q2 - 1] == COMMA);
                }
                lemma_split_join(a2.skip(fb + 1), COMMA);
                assert(split_bytes(a2, COMMA).len() >= 2);
                assert(split_bytes(f@, COMMA).len() >= 4);
            }
            return None;
        },
        None => {
            proof {
                assert(f@ =~= a0 + seq![COMMA] + (a1 + seq![COMMA] + a2));
                lemma_split_prepend(a0, a1 + seq![COMMA] + a2, COMMA);
                lemma_split_prepend(a1, a2, COMMA);
                assert forall|i: int| 0 <= i < a2.len() implies a2[i] != COMMA by {
                    assert(a2[i] == f@[q2 + 1 + i]);
                }
                lemma_split_no_sep(a2, COMMA);
                assert(split_bytes(f@, COMMA) =~= seq![a0, a1, a2]);
            }
        },
    }
    let s0 = slice_subrange(f, 0, q1);
    let s1 = slice_subrange(f, q1 + 1, q2);
    let s2 = slice_subrange(f, q2 + 1, n);
    let om = parse_tagged_exec(s0, LC_M);
    let ot = parse_tagged_exec(s1, LC_T);
    let op = parse_tagged_exec(s2, LC_P);
    match (om, ot, op) {
        (Some(m), Some(t), Some(p)) => Some(
            Params { memory_cost_kib: m, time_cost: t, parallelism: p },
        ),
        _ => None,
    }
}

/// The strict parser over ASCII bytes; agrees with `decode_bytes` exactly.
#[verifier::rlimit(100)]
pub fn decode_core(b: &[u8]) -> (r: Option<Decoded>)
    ensures
        match r {
            Some(d) => decode_bytes(b@) == Some(d@),
            None => decode_bytes(b@) is None,
        },
{
    let n = b.len();
    if n == 0 {
        return None;
    }
    if b[0] != DOLLAR {
        return None;
    }
    let p1 = match find_from(b, 1, DOLLAR) {
        Some(j) => j,
        None => {
            proof {
                assert forall|i: int| 0 <= i < b@.skip(1).len() implies b@.skip(1)[i]
                    != DOLLAR by {
                    assert(b@.skip(1)[i] == b@[i + 1]);
                }
                lemma_split_no_sep(b@.skip(1), DOLLAR);
            }
            return None;
        },
    };
    let ghost a0 = b@.subrange(1, p1 as int);
    proof {
        assert forall|i: int| 0 <= i < a0.len() implies a0[i] != DOLLAR by {
            assert(a0[i] == b@[1 + i]);
        }
    }
    let p2 = match find_from(b, p1 + 1, DOLLAR) {
        Some(j) => j,
        None => {
            proof {
                let rest = b@.skip(p1 + 1);
                assert(b@.skip(1) =~= a0 + seq![DOLLAR] + rest);
                lemma_split_prepend(a0, rest, DOLLAR);
                assert forall|i: int| 0 <= i < rest.len() implies rest[i] != DOLLAR by {
                    assert(rest[i] == b@[p1 + 1 + i]);
                }
                lemma_split_no_sep(rest, DOLLAR);
            }
            return None;
        },
    };
    let ghost a1 = b@.subrange(p1 + 1, p2 as int);
    proof {
        assert forall|i: int| 0 <= i < a1.len() implies a1[i] != DOLLAR by {
            assert(a1[i] == b@[p1 + 1 + i]);
        }
    }
    let p3 = match find_from(b, p2 + 1, DOLLAR) {
        Some(j) => j,
        None => {
            proof {
                let rest = b@.skip(p2 + 1);
                assert(b@.skip(1) =~= a0 + seq![DOLLAR] + (a1 + seq![DOLLAR] + rest));
                lemma_split_prepend(a0, a1 + seq![DOLLAR] + rest, DOLLAR);
                lemma_split_prepend(a1, rest, DOLLAR);
                assert forall|i: int| 0 <= i < rest.len() implies rest[i] != DOLLAR by {
                    assert(rest[i] == b@[p2 + 1 + i]);
                }
                lemma_split_no_sep(rest, DOLLAR);
            }
            return None;
        },
    };
    let ghost a2 = b@.subrange(p2 + 1, p3 as int);
    proof {
        assert forall|i: int| 0 <= i < a2.len() implies a2[i] != DOLLAR by {
            assert(a2[i] == b@[p2 + 1 + i]);
        }
    }
    let p4 = match find_from(b, p3 + 1, DOLLAR) {
        Some(j) => j,
        None => {
            proof {
                let rest = b@.skip(p3 + 1);
                assert(b@.skip(1) =~= a0 + seq![DOLLAR] + (a1 + seq![DOLLAR] + (a2 + seq![DOLLAR]
                    + rest)));
                lemma_split_prepend(a0, a1 + seq![DOLLAR] + (a2 + seq![DOLLAR] + rest), DOLLAR);
                lemma_split_prepend(a1, a2 + seq![DOLLAR] + rest, DOLLAR);
                lemma_split_prepend(a2, rest, DOLLAR);
                assert forall|i: int| 0 <= i < rest.len() implies rest[i] != DOLLAR by {
                    assert(rest[i] == b@[p3 + 1 + i]);
                }
                lemma_split_no_sep(rest, DOLLAR);
            }
            return None;
        },
    };
    let ghost a3 = b@.subrange(p3 + 1, p4 as int);
    let ghost a4 = b@.skip(p4 + 1);
    proof {
        assert forall|i: int| 0 <= i < a3.len() implies a3[i] != DOLLAR by {
            assert(a3[i] == b@[p3 + 1 + i]);
        }
        assert(b@.skip(1) =~= a0 + seq![DOLLAR] + (a1 + seq![DOLLAR] + (a2 + seq![DOLLAR] + (a3
            + seq![DOLLAR] + a4))));
        lemma_split_prepend(a0, a1 + seq![DOLLAR] + (a2 + seq![DOLLAR] + (a3 + seq![DOLLAR] + a4)),
            DOLLAR);
        lemma_split_prepend(a1, a2 + seq![DOLLAR] + (a3 + seq![DOLLAR] + a4), DOLLAR);
        lemma_split_prepend(a2, a3 + seq![DOLLAR] + a4, DOLLAR);
        lemma_split_prepend(a3, a4, DOLLAR);
    }
    match find_from(b, p4 + 1, DOLLAR) {
        Some(j) => {
            proof {
                lemma_find_byte(a4, DOLLAR);
                let fb = find_byte(a4, DOLLAR);
                if fb == -1 {
                    assert(a4[j - p4 - 1] == DOLLAR);
                }
                lemma_split_join(a4.skip(fb + 1), DOLLAR);
                assert(split_bytes(a4, DOLLAR).len() >= 2);
                assert(split_bytes(b@.skip(1), DOLLAR).len() >= 6);
            }
            return None;
        },
        None => {
            proof {
                assert forall|i: int| 0 <= i < a4.len() implies a4[i] != DOLLAR by {
                    assert(a4[i] == b@[p4 + 1 + i]);
                }
                lemma_split_no_sep(a4, DOLLAR);
                assert(split_bytes(b@.skip(1), DOLLAR) =~= seq![a0, a1, a2, a3, a4]);
            }
        },
    }
    let f0 = slice_subrange(b, 1, p1);
    let f1 = slice_subrange(b, p1 + 1, p2);
    let f2 = slice_subrange(b, p2 + 1, p3);
    let f3 = slice_subrange(b, p3 + 1, p4);
    let f4 = slice_subrange(b, p4 + 1, n);
    let variant = match parse_variant_exec(f0) {
        Some(v) => v,
        None => {
            return None;
        },
    };
    let version = match parse_version_exec(f1) {
        Some(v) => v,
        None => {
            return None;
        },
    };
    let params = match parse_params_exec(f2) {
        Some(p) => p,
        None => {
            return None;
        },
    };
    let salt = match b64_decode_exec(f3) {
        Some(v) => v,
        None => {
            return None;
        },
    };
    let output = match b64_decode_exec(f4) {
        Some(v) => v,
        None => {
            return None;
        },
    };
    if !params.is_valid() {
        return None;
    }
    if salt.len() < 8 || salt.len() > 48 {
        return None;
    }
    if output.len() < 10 || output.len() > 64 {
        return None;
    }
    let d = Decoded { variant, version, params, salt, output };
    proof {
        assert(decode_bytes(b@) == Some(d@));
    }
    Some(d)
}

/// Encodings of different tuples never collide: the printer is injective
/// on well-formed content.
pub proof fn lemma_encode_injective(x1: HashParts, x2: HashParts)
    requires
        x1.wf(),
        x2.wf(),
        encode_bytes(x1) == encode_bytes(x2),
    ensures
        x1 == x2,
{
    lemma_codec_round_trip(x1);
    lemma_codec_round_trip(x2);
}

/// No two distinct strings decode to the same content: with
/// `lemma_codec_round_trip`, decoding accepts exactly one string per
/// well-formed tuple, so corrupting an encoded hash string can never
/// leave its decoded content unchanged.
pub proof fn lemma_decode_injective(s1: Seq<u8>, s2: Seq<u8>, x: HashParts)
    requires
        decode_bytes(s1) == Some(x),
        decode_bytes(s2) == Some(x),
    ensures
        s1 == s2,
{
    lemma_decode_canonical(s1, x);
    lemma_decode_canonical(s2, x);
}

} // verus!
