//! Reading the claims of a JWT without checking its signature.

use vstd::prelude::*;

use crate::base64::{base64_decoded, decode_chars};
use crate::clock::now_secs;
use crate::json::{json_document, json_string_member, json_string_members, json_u64_member, json_u64_members, parse_json};
use crate::text::{chars_of, opt_string_view};

verus! {

/// The token has exactly two dots, at positions `i < j`.
pub open spec fn dots_at(s: Seq<char>, i: int, j: int) -> bool {
    &&& 0 <= i < j < s.len()
    &&& s[i] == '.'
    &&& s[j] == '.'
    &&& forall|k: int| 0 <= k < s.len() && k != i && k != j ==> s[k] != '.'
}

/// The payload segment of a JWT: the text between its two dots, when the
/// token splits on `.` into exactly three parts.
pub open spec fn jwt_payload_segment(s: Seq<char>) -> Option<Seq<char>> {
    if exists|i: int, j: int| dots_at(s, i, j) {
        let (i, j) = choose|i: int, j: int| dots_at(s, i, j);
        Some(s.subrange(i + 1, j))
    } else {
        None
    }
}

/// The claims of a JWT: its payload segment, base64url-decoded, read as JSON.
/// (The decoder ignores padding, so padding the segment first changes
/// nothing; see `lemma_padding_is_ignored`.)
pub open spec fn jwt_claims(token: Seq<char>) -> Option<
    (Map<Seq<char>, Seq<char>>, Map<Seq<char>, u64>),
> {
    match jwt_payload_segment(token) {
        Some(seg) => match base64_decoded(seg) {
            Some(bytes) => json_document(bytes),
            None => None,
        },
        None => None,
    }
}

/// The string claim `name` of a JWT, if the token has claims and that claim
/// is a string.
pub open spec fn jwt_string_claim(token: Seq<char>, name: Seq<char>) -> Option<Seq<char>> {
    match jwt_claims(token) {
        Some(c) => if c.0.contains_key(name) {
            Some(c.0[name])
        } else {
            None
        },
        None => None,
    }
}

/// A JWT counts as expired at Unix time `now` unless its `exp` claim is a
/// number more than 60 seconds after `now`.
pub open spec fn jwt_expired_at(token: Seq<char>, now: u64) -> bool {
    match jwt_claims(token) {
        Some(c) => !c.1.contains_key("exp"@) || now + 60 >= c.1["exp"@],
        None => true,
    }
}

/// Once a token counts as expired, it stays expired: it counts as expired at
/// every later time too.
pub proof fn lemma_expiry_is_monotonic(token: Seq<char>, earlier: u64, later: u64)
    requires
        earlier <= later,
        jwt_expired_at(token, earlier),
    ensures
        jwt_expired_at(token, later),
{
}

/// A token with an `exp` claim counts as expired from 60 seconds before its
/// `exp` on, and not before: at any time up to `exp - 61` it is still valid,
/// and at `exp - 60` and at every later time it is expired (so a token whose
/// `exp` lies in the past is expired).
pub proof fn lemma_expired_from_sixty_seconds_before_exp(token: Seq<char>, now: u64)
    requires
        jwt_claims(token) matches Some(c) && c.1.contains_key("exp"@),
    ensures
        jwt_expired_at(token, now) <==> now + 60 >= jwt_claims(token).unwrap().1["exp"@],
        now >= jwt_claims(token).unwrap().1["exp"@] ==> jwt_expired_at(token, now),
        jwt_claims(token).unwrap().1["exp"@] >= 61 ==> !jwt_expired_at(
            token,
            (jwt_claims(token).unwrap().1["exp"@] - 61) as u64,
        ),
{
}

/// A token that does not split on `.` into exactly three parts has no
/// claims: no user id, no email, and it counts as expired at any time.
pub proof fn lemma_token_needs_three_parts(token: Seq<char>, now: u64)
    requires
        !(exists|i: int, j: int| dots_at(token, i, j)),
    ensures
        jwt_claims(token) is None,
        jwt_string_claim(token, "sub"@) is None,
        jwt_string_claim(token, "email"@) is None,
        jwt_expired_at(token, now),
{
}

/// The payload segment of the characters of a token.
fn payload_segment(s: &Vec<char>) -> (r: Option<Vec<char>>)
    ensures
        match r {
            Some(p) => jwt_payload_segment(s@) == Some(p@),
            None => jwt_payload_segment(s@) is None,
        },
{
    let n = s.len();
    let mut dots: usize = 0;
    let mut first: usize = 0;
    let mut second: usize = 0;
    let mut third: usize = 0;
    let mut k: usize = 0;
    while k < n
        invariant
            n == s@.len(),
            k <= n,
            dots <= 3,
            dots == 0 ==> forall|m: int| 0 <= m < k ==> s@[m] != '.',
            dots == 1 ==> first < k && s@[first as int] == '.' && forall|m: int|
                0 <= m < k && m != first ==> s@[m] != '.',
            dots == 2 ==> first < second < k && s@[first as int] == '.' && s@[second as int]
                == '.' && forall|m: int| 0 <= m < k && m != first && m != second ==> s@[m] != '.',
            dots == 3 ==> first < second < third < n && s@[first as int] == '.'
                && s@[second as int] == '.' && s@[third as int] == '.',
        decreases n - k,
    {
        if s[k] == '.' {
            if dots == 0 {
                first = k;
                dots = 1;
            } else if dots == 1 {
                second = k;
                dots = 2;
            } else if dots == 2 {
                third = k;
                dots = 3;
            }
        }
        k = k + 1;
    }
    if dots == 2 {
        let mut seg: Vec<char> = Vec::new();
        let mut m: usize = first + 1;
        while m < second
            invariant
                first < second < n == s@.len(),
                first + 1 <= m <= second,
                seg@ == s@.subrange(first + 1, m as int),
            decreases second - m,
        {
            seg.push(s[m]);
            m = m + 1;
            assert(seg@ =~= s@.subrange(first + 1, m as int));
        }
        proof {
            assert(dots_at(s@, first as int, second as int));
            let (i, j) = choose|i: int, j: int| dots_at(s@, i, j);
            assert(dots_at(s@, i, j));
            assert(i == first && j == second);
        }
        Some(seg)
    } else {
        proof {
            if exists|i: int, j: int| dots_at(s@, i, j) {
                let (i, j) = choose|i: int, j: int| dots_at(s@, i, j);
                assert(dots_at(s@, i, j));
                assert(s@[i] == '.' && s@[j] == '.');
                if dots == 3 {
                    assert(first == i || first == j);
                    assert(second == i || second == j);
                    assert(third == i || third == j);
                }
                assert(false);
            }
        }
        None
    }
}

/// The decoded JSON payload of a JWT. The payload segment is decoded as it
/// stands: padding it to a multiple of four characters first would change
/// nothing, since decoding stops at the first `=`
/// (`lemma_padding_is_ignored`).
fn jwt_payload(token: &str) -> (r: Option<serde_json::Value>)
    ensures
        r is Some <==> jwt_claims(token@) is Some,
        r matches Some(v) ==> jwt_claims(token@) == Some(
            (json_string_members(v), json_u64_members(v)),
        ),
{
    let chars = chars_of(token);
    let seg = match payload_segment(&chars) {
        Some(seg) => seg,
        None => return None,
    };
    let bytes = match decode_chars(&seg) {
        Some(bytes) => bytes,
        None => return None,
    };
    parse_json(bytes.as_slice())
}

/// The `sub` (user id) claim of a JWT, read without checking the signature.
/// `None` when the token does not split into three parts, its payload is
/// not base64 JSON, or it has no string `sub` claim.
pub fn user_id_from_jwt(token: &str) -> (r: Option<String>)
    ensures
        opt_string_view(r) == jwt_string_claim(token@, "sub"@),
{
    match jwt_payload(token) {
        Some(payload) => json_string_member(&payload, "sub"),
        None => None,
    }
}

/// The `email` claim of a JWT, read without checking the signature.
pub fn email_from_jwt(token: &str) -> (r: Option<String>)
    ensures
        opt_string_view(r) == jwt_string_claim(token@, "email"@),
{
    match jwt_payload(token) {
        Some(payload) => json_string_member(&payload, "email"),
        None => None,
    }
}

/// Whether a JWT counts as expired at Unix time `now`: true when the token
/// has no readable payload or no numeric `exp` claim, and otherwise when
/// `exp` is no more than 60 seconds after `now`.
pub fn is_jwt_expired_at(token: &str, now: u64) -> (r: bool)
    ensures
        r == jwt_expired_at(token@, now),
{
    let payload = match jwt_payload(token) {
        Some(payload) => payload,
        None => return true,
    };
    match json_u64_member(&payload, "exp") {
        Some(exp) => exp <= 60 || now >= exp - 60,
        None => true,
    }
}

/// Whether a JWT's `exp` claim is in the past, with a 60-second buffer, at
/// the current time of the machine's clock.
pub fn is_jwt_expired(token: &str) -> (r: bool)
    ensures
        exists|now: u64| r == jwt_expired_at(token@, now),
        jwt_claims(token@) is None ==> r,
{
    let now = now_secs();
    is_jwt_expired_at(token, now)
}

} // verus!
