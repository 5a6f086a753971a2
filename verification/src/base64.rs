use vstd::prelude::*;

use crate::text::chars_of;

verus! {

/// The 6-bit value of a base64 character. Both the URL-safe alphabet
/// (`-`, `_`) and the standard one (`+`, `/`) are accepted; any other
/// character has no value.
pub open spec fn sextet_of(c: char) -> Option<u8> {
    let n = c as int;
    if 65 <= n <= 90 {
        Some((n - 65) as u8)
    } else if 97 <= n <= 122 {
        Some((n - 97 + 26) as u8)
    } else if 48 <= n <= 57 {
        Some((n - 48 + 52) as u8)
    } else if c == '+' || c == '-' {
        Some(62u8)
    } else if c == '/' || c == '_' {
        Some(63u8)
    } else {
        None
    }
}

/// The characters before the first padding character `=`.
pub open spec fn before_padding(s: Seq<char>) -> Seq<char>
    decreases s.len(),
{
    if s.len() == 0 {
        s
    } else if s[0] == '=' {
        Seq::empty()
    } else {
        seq![s[0]] + before_padding(s.drop_first())
    }
}

/// Every character of `s` is a base64 character.
pub open spec fn all_sextets(s: Seq<char>) -> bool {
    forall|i: int| 0 <= i < s.len() ==> (#[trigger] sextet_of(s[i])) is Some
}

/// The 6-bit values of the characters of `s`.
pub open spec fn sextets(s: Seq<char>) -> Seq<u8> {
    s.map_values(|c: char| sextet_of(c)->0)
}

/// Bytes of a sequence of 6-bit values: every group of four values gives
/// three bytes; a final group of two or three values gives one or two bytes,
/// and a lone final value gives none.
pub open spec fn decode_sextets(v: Seq<u8>) -> Seq<u8>
    decreases v.len(),
{
    if v.len() < 2 {
        Seq::empty()
    } else if v.len() == 2 {
        seq![((v[0] << 2u8) | (v[1] >> 4u8)) as u8]
    } else if v.len() == 3 {
        seq![((v[0] << 2u8) | (v[1] >> 4u8)) as u8, ((v[1] << 4u8) | (v[2] >> 2u8)) as u8]
    } else {
        seq![
            ((v[0] << 2u8) | (v[1] >> 4u8)) as u8,
            ((v[1] << 4u8) | (v[2] >> 2u8)) as u8,
            ((v[2] << 6u8) | v[3]) as u8,
        ] + decode_sextets(v.skip(4))
    }
}

/// Decoding of base64 text: what stands before the first `=` must consist of
/// base64 characters, and it is decoded; what follows is ignored.
pub open spec fn base64_decoded(s: Seq<char>) -> Option<Seq<u8>> {
    let p = before_padding(s);
    if all_sextets(p) {
        Some(decode_sextets(sextets(p)))
    } else {
        None
    }
}

proof fn lemma_decode_push(v: Seq<u8>, x: u8)
    ensures
        decode_sextets(v.push(x)) == decode_sextets(v) + (if v.len() % 4 == 1 {
            seq![((v[v.len() - 1] << 2u8) | (x >> 4u8)) as u8]
        } else if v.len() % 4 == 2 {
            seq![((v[v.len() - 1] << 4u8) | (x >> 2u8)) as u8]
        } else if v.len() % 4 == 3 {
            seq![((v[v.len() - 1] << 6u8) | x) as u8]
        } else {
            Seq::<u8>::empty()
        }),
    decreases v.len(),
{
    let w = v.push(x);
    if v.len() >= 4 {
        assert(w.skip(4) =~= v.skip(4).push(x));
        lemma_decode_push(v.skip(4), x);
        assert(w[0] == v[0] && w[1] == v[1] && w[2] == v[2] && w[3] == v[3]);
        if v.len() > 4 {
            assert(v.skip(4)[v.skip(4).len() - 1] == v[v.len() - 1]);
        }
        let tail = decode_sextets(v.skip(4).push(x));
        assert(decode_sextets(w) == seq![
            ((v[0] << 2u8) | (v[1] >> 4u8)) as u8,
            ((v[1] << 4u8) | (v[2] >> 2u8)) as u8,
            ((v[2] << 6u8) | v[3]) as u8,
        ] + tail);
        assert(decode_sextets(v) == seq![
            ((v[0] << 2u8) | (v[1] >> 4u8)) as u8,
            ((v[1] << 4u8) | (v[2] >> 2u8)) as u8,
            ((v[2] << 6u8) | v[3]) as u8,
        ] + decode_sextets(v.skip(4)));
        assert(decode_sextets(w) =~= decode_sextets(v) + (decode_sextets(w).skip(
            decode_sextets(v).len() as int,
        )));
    } else {
        if v.len() == 3 {
            assert(w.skip(4) =~= Seq::<u8>::empty());
            assert(decode_sextets(w.skip(4)) =~= Seq::<u8>::empty());
        }
        assert(w[v.len() as int] == x);
        assert(forall|i: int| 0 <= i < v.len() ==> w[i] == v[i]);
        assert(decode_sextets(w) =~= decode_sextets(v) + (if v.len() % 4 == 1 {
            seq![((v[v.len() - 1] << 2u8) | (x >> 4u8)) as u8]
        } else if v.len() % 4 == 2 {
            seq![((v[v.len() - 1] << 4u8) | (x >> 2u8)) as u8]
        } else if v.len() % 4 == 3 {
            seq![((v[v.len() - 1] << 6u8) | x) as u8]
        } else {
            Seq::<u8>::empty()
        }));
    }
}


proof fn lemma_before_padding(s: Seq<char>, j: int)
    requires
        0 <= j <= s.len(),
        forall|k: int| 0 <= k < j ==> s[k] != '=',
    ensures
        before_padding(s).len() >= j,
        forall|k: int| 0 <= k < j ==> before_padding(s)[k] == s[k],
        j < s.len() && s[j] == '=' ==> before_padding(s) == s.take(j),
        j == s.len() ==> before_padding(s) == s,
    decreases s.len(),
{
    if s.len() > 0 && j > 0 {
        let t = s.drop_first();
        assert forall|k: int| 0 <= k < j - 1 implies t[k] != '=' by {
            assert(t[k] == s[k + 1]);
        }
        lemma_before_padding(t, j - 1);
        assert(s[0] != '=');
        assert(before_padding(s) == seq![s[0]] + before_padding(t));
        assert forall|k: int| 0 <= k < j implies before_padding(s)[k] == s[k] by {
            if k > 0 {
                assert(before_padding(s)[k] == before_padding(t)[k - 1]);
                assert(t[k - 1] == s[k]);
            }
        }
        if j < s.len() && s[j] == '=' {
            assert(t[j - 1] == '=');
            assert(s.take(j) =~= seq![s[0]] + t.take(j - 1));
        }
        if j == s.len() {
            assert(s =~= seq![s[0]] + t);
        }
    } else if s.len() > 0 && s[0] == '=' {
        assert(s.take(0) =~= Seq::<char>::empty());
    } else if s.len() == 0 {
        assert(s.take(0) =~= s);
    }
}

proof fn lemma_first_group_byte(a: u8, x: u8)
    by (bit_vector)
    requires
        a < 64,
        x < 64,
    ensures
        ((((a as u32) << 6u32) | (x as u32)) >> 4u32) as u8 == ((a << 2u8) | (x >> 4u8)),
        (((a as u32) << 6u32) | (x as u32)) & (((1u32 << 4u32) - 1u32) as u32) == (x & 15u8) as u32,
        (1u32 << 4u32) == 16u32,
{
}

proof fn lemma_second_group_byte(a: u8, x: u8)
    by (bit_vector)
    requires
        a < 64,
        x < 64,
    ensures
        (((((a & 15u8) as u32) << 6u32) | (x as u32)) >> 2u32) as u8 == ((a << 4u8) | (x >> 2u8)),
        ((((a & 15u8) as u32) << 6u32) | (x as u32)) & (((1u32 << 2u32) - 1u32) as u32) == (x & 3u8) as u32,
        (1u32 << 2u32) == 4u32,
{
}

proof fn lemma_third_group_byte(a: u8, x: u8)
    by (bit_vector)
    requires
        a < 64,
        x < 64,
    ensures
        (((((a & 3u8) as u32) << 6u32) | (x as u32)) >> 0u32) as u8 == ((a << 6u8) | x),
        ((((a & 3u8) as u32) << 6u32) | (x as u32)) & (((1u32 << 0u32) - 1u32) as u32) == 0u32,
        (1u32 << 0u32) == 1u32,
{
}

proof fn lemma_start_group(x: u8)
    by (bit_vector)
    requires
        x < 64,
    ensures
        ((0u32 << 6u32) | (x as u32)) == x as u32,
{
}

/// Padding never changes what base64 text decodes to: appending text that
/// starts with `=` (such as the `=` or `==` that pads a JWT segment to a
/// multiple of four characters) leaves the decoded bytes, or the failure,
/// as they were.
pub proof fn lemma_padding_is_ignored(s: Seq<char>, pad: Seq<char>)
    requires
        pad.len() == 0 || pad[0] == '=',
    ensures
        base64_decoded(s + pad) == base64_decoded(s),
{
    let t = s + pad;
    if pad.len() == 0 {
        assert(t =~= s);
    } else if exists|k: int| 0 <= k < s.len() && s[k] == '=' {
        let k0 = first_padding_index(s);
        lemma_before_padding(s, k0);
        lemma_before_padding(t, k0);
        assert(t[k0] == s[k0]);
        assert(t.take(k0) =~= s.take(k0));
    } else {
        lemma_before_padding(s, s.len() as int);
        lemma_before_padding(t, s.len() as int);
        assert(t.take(s.len() as int) =~= s);
    }
}

/// The position of the first `=` in a text that holds one.
proof fn first_padding_index(s: Seq<char>) -> (k: int)
    requires
        exists|k: int| 0 <= k < s.len() && s[k] == '=',
    ensures
        0 <= k < s.len(),
        s[k] == '=',
        forall|j: int| 0 <= j < k ==> s[j] != '=',
    decreases s.len(),
{
    if s[0] == '=' {
        0
    } else {
        let t = s.drop_first();
        let w = choose|k: int| 0 <= k < s.len() && s[k] == '=';
        assert(t[w - 1] == '=');
        let k = first_padding_index(t);
        assert forall|j: int| 0 <= j < k + 1 implies s[j] != '=' by {
            if j > 0 {
                assert(s[j] == t[j - 1]);
            }
        }
        k + 1
    }
}

/// The URL-safe base64 character of a 6-bit value.
pub open spec fn sextet_char(v: u8) -> char {
    if v < 26 {
        (65 + v) as char
    } else if v < 52 {
        (97 + v - 26) as char
    } else if v < 62 {
        (48 + v - 52) as char
    } else if v == 62 {
        '-'
    } else {
        '_'
    }
}

/// The 6-bit values that encode bytes: each group of three bytes gives four
/// values; a final group of one or two bytes gives two or three, the unused
/// low bits being zero.
pub open spec fn encode_sextets(b: Seq<u8>) -> Seq<u8>
    decreases b.len(),
{
    if b.len() == 0 {
        Seq::empty()
    } else if b.len() == 1 {
        seq![b[0] >> 2u8, (b[0] & 3u8) << 4u8]
    } else if b.len() == 2 {
        seq![b[0] >> 2u8, ((b[0] & 3u8) << 4u8) | (b[1] >> 4u8), (b[1] & 15u8) << 2u8]
    } else {
        seq![
            b[0] >> 2u8,
            ((b[0] & 3u8) << 4u8) | (b[1] >> 4u8),
            ((b[1] & 15u8) << 2u8) | (b[2] >> 6u8),
            b[2] & 63u8,
        ] + encode_sextets(b.skip(3))
    }
}

/// The URL-safe base64 text of bytes, without padding.
pub open spec fn base64url_encoded(b: Seq<u8>) -> Seq<char> {
    encode_sextets(b).map_values(|v: u8| sextet_char(v))
}

proof fn lemma_group_roundtrip(b0: u8, b1: u8, b2: u8)
    by (bit_vector)
    ensures
        ((b0 >> 2u8) << 2u8) | ((((b0 & 3u8) << 4u8) | (b1 >> 4u8)) >> 4u8) == b0,
        ((((b0 & 3u8) << 4u8) | (b1 >> 4u8)) << 4u8) | ((((b1 & 15u8) << 2u8) | (b2 >> 6u8))
            >> 2u8) == b1,
        ((((b1 & 15u8) << 2u8) | (b2 >> 6u8)) << 6u8) | (b2 & 63u8) == b2,
        ((b0 >> 2u8) << 2u8) | (((b0 & 3u8) << 4u8) >> 4u8) == b0,
        ((((b0 & 3u8) << 4u8) | (b1 >> 4u8)) << 4u8) | (((b1 & 15u8) << 2u8) >> 2u8) == b1,
        b0 >> 2u8 < 64,
        ((b0 & 3u8) << 4u8) | (b1 >> 4u8) < 64,
        ((b1 & 15u8) << 2u8) | (b2 >> 6u8) < 64,
        b2 & 63u8 < 64,
        (b0 & 3u8) << 4u8 < 64,
        (b1 & 15u8) << 2u8 < 64,
{
}

proof fn lemma_encode_sextets(b: Seq<u8>)
    ensures
        forall|i: int| 0 <= i < encode_sextets(b).len() ==> #[trigger] encode_sextets(b)[i] < 64,
        decode_sextets(encode_sextets(b)) == b,
    decreases b.len(),
{
    let e = encode_sextets(b);
    if b.len() == 0 {
    } else if b.len() == 1 {
        lemma_group_roundtrip(b[0], 0, 0);
        assert(decode_sextets(e) =~= b);
    } else if b.len() == 2 {
        lemma_group_roundtrip(b[0], b[1], 0);
        assert(decode_sextets(e) =~= b);
    } else {
        lemma_group_roundtrip(b[0], b[1], b[2]);
        let rest = encode_sextets(b.skip(3));
        lemma_encode_sextets(b.skip(3));
        assert(e.skip(4) =~= rest);
        assert forall|i: int| 0 <= i < e.len() implies #[trigger] e[i] < 64 by {
            if i >= 4 {
                assert(e[i] == rest[i - 4]);
            }
        }
        assert(decode_sextets(e) == seq![
            ((e[0] << 2u8) | (e[1] >> 4u8)) as u8,
            ((e[1] << 4u8) | (e[2] >> 2u8)) as u8,
            ((e[2] << 6u8) | e[3]) as u8,
        ] + decode_sextets(rest));
        assert(decode_sextets(e) =~= b);
    }
}

/// Decoding undoes encoding: the URL-safe base64 text of any bytes decodes
/// to those bytes.
pub proof fn lemma_decode_inverts_encode(b: Seq<u8>)
    ensures
        base64_decoded(base64url_encoded(b)) == Some(b),
{
    let e = encode_sextets(b);
    let t = base64url_encoded(b);
    lemma_encode_sextets(b);
    assert forall|i: int| 0 <= i < t.len() implies t[i] != '=' && sextet_of(t[i]) == Some(e[i]) by {
        assert(e[i] < 64);
        assert(t[i] == sextet_char(e[i]));
    }
    lemma_before_padding(t, t.len() as int);
    assert(all_sextets(t));
    assert(sextets(t) =~= e);
}

/// The standard base64 character of a 6-bit value (`+` and `/` for the
/// last two values).
pub open spec fn standard_sextet_char(v: u8) -> char {
    if v == 62 {
        '+'
    } else if v == 63 {
        '/'
    } else {
        sextet_char(v)
    }
}

/// The `=` characters that pad the encoding of `n` bytes to a multiple of
/// four characters.
pub open spec fn padding_for(n: nat) -> Seq<char> {
    if n % 3 == 1 {
        seq!['=', '=']
    } else if n % 3 == 2 {
        seq!['=']
    } else {
        Seq::empty()
    }
}

/// The standard base64 text of bytes, with `=` padding.
pub open spec fn base64_standard_encoded(b: Seq<u8>) -> Seq<char> {
    encode_sextets(b).map_values(|v: u8| standard_sextet_char(v)) + padding_for(b.len())
}

/// Decoding undoes standard encoding too: the padded standard base64 text
/// of any bytes decodes to those bytes.
pub proof fn lemma_decode_inverts_standard_encode(b: Seq<u8>)
    ensures
        base64_decoded(base64_standard_encoded(b)) == Some(b),
{
    let e = encode_sextets(b);
    let t = e.map_values(|v: u8| standard_sextet_char(v));
    lemma_encode_sextets(b);
    assert forall|i: int| 0 <= i < t.len() implies t[i] != '=' && sextet_of(t[i]) == Some(e[i]) by {
        assert(e[i] < 64);
        assert(t[i] == standard_sextet_char(e[i]));
    }
    lemma_before_padding(t, t.len() as int);
    assert(all_sextets(t));
    assert(sextets(t) =~= e);
    lemma_padding_is_ignored(t, padding_for(b.len()));
}

/// The 6-bit value of one character.
fn sextet(c: char) -> (r: Option<u8>)
    ensures
        r == sextet_of(c),
        r matches Some(v) ==> v < 64,
{
    let n = c as u32;
    if 65 <= n && n <= 90 {
        Some((n - 65) as u8)
    } else if 97 <= n && n <= 122 {
        Some((n - 97 + 26) as u8)
    } else if 48 <= n && n <= 57 {
        Some((n - 48 + 52) as u8)
    } else if c == '+' || c == '-' {
        Some(62)
    } else if c == '/' || c == '_' {
        Some(63)
    } else {
        None
    }
}

/// Decodes base64 characters, six bits at a time, into bytes; stops at the
/// first `=`.
pub(crate) fn decode_chars(s: &Vec<char>) -> (r: Option<Vec<u8>>)
    ensures
        base64_decoded(s@) == (match r {
            Some(v) => Some(v@),
            None => None,
        }),
{
    let mut out: Vec<u8> = Vec::new();
    let mut buf: u32 = 0;
    let mut bits: u32 = 0;
    let mut i: usize = 0;
    let n = s.len();
    while i < n
        invariant
            n == s@.len(),
            0 <= i <= n,
            forall|k: int| 0 <= k < i ==> s@[k] != '=',
            all_sextets(s@.take(i as int)),
            out@ == decode_sextets(sextets(s@.take(i as int))),
            i % 4 == 0 ==> bits == 0 && buf == 0,
            i % 4 == 1 ==> bits == 6 && buf == (sextet_of(s@[i - 1])->0) as u32,
            i % 4 == 2 ==> bits == 4 && buf == ((sextet_of(s@[i - 1])->0) & 15u8) as u32,
            i % 4 == 3 ==> bits == 2 && buf == ((sextet_of(s@[i - 1])->0) & 3u8) as u32,
        decreases n - i,
    {
        let c = s[i];
        if c == '=' {
            proof {
                lemma_before_padding(s@, i as int);
            }
            return Some(out);
        }
        let ghost prefix = s@.take(i as int);
        let ghost next = s@.take(i + 1);
        assert(next =~= prefix.push(c));
        let v = match sextet(c) {
            Some(v) => v,
            None => {
                proof {
                    lemma_before_padding(s@, i + 1);
                    assert(sextet_of(before_padding(s@)[i as int]) is None);
                }
                return None;
            },
        };
        assert(sextets(next) =~= sextets(prefix).push(v));
        proof {
            lemma_decode_push(sextets(prefix), v);
            if i > 0 {
                assert(sextets(prefix)[i - 1] == sextet_of(s@[i - 1])->0);
                assert(sextet_of(s@[i - 1]) is Some);
            }
            let a = if i > 0 { sextet_of(s@[i - 1])->0 } else { 0u8 };
            if i > 0 {
                assert(a < 64);
            }
            if i % 4 == 0 {
                lemma_start_group(v);
            } else if i % 4 == 1 {
                lemma_first_group_byte(a, v);
            } else if i % 4 == 2 {
                lemma_second_group_byte(a, v);
            } else {
                lemma_third_group_byte(a, v);
            }
        }
        buf = (buf << 6) | (v as u32);
        bits = bits + 6;
        if bits >= 8 {
            bits = bits - 8;
            out.push((buf >> bits) as u8);
            buf = buf & ((1u32 << bits) - 1);
        }
        i = i + 1;
        assert forall|k: int| 0 <= k < next.len() implies (#[trigger] sextet_of(next[k])) is Some by {
            if k < i - 1 {
                assert(next[k] == prefix[k]);
                assert(sextet_of(prefix[k]) is Some);
            }
        }
    }
    proof {
        lemma_before_padding(s@, n as int);
        assert(s@.take(n as int) =~= s@);
    }
    Some(out)
}

/// Decodes base64 text, URL-safe or standard, with or without padding.
/// Decoding stops at the first `=`; everything before it must be base64
/// characters, else the result is `None`.
pub fn base64_decode(input: &str) -> (r: Option<Vec<u8>>)
    ensures
        base64_decoded(input@) == (match r {
            Some(v) => Some(v@),
            None => None,
        }),
{
    let chars = chars_of(input);
    decode_chars(&chars)
}

} // verus!
