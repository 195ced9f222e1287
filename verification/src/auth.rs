//! The bearer guard in front of everything the process serves.
//!
//! The guard fails closed: with no token configured it rejects every request. That matters
//! because the process reads files off the disk by path.

use crate::text;
use vstd::prelude::*;

verus! {

/// The port served on when none is set.
pub const DEFAULT_PORT: u16 = 8013;

/// The prefix of everything that is served behind the guard.
pub const MOUNT: &'static str = "/api/subtitles";

/// Compares bytes without stopping at the first that differ, so that how long it takes tells
/// nothing about where they do.
pub fn ct_eq(a: &[u8], b: &[u8]) -> (r: bool)
    ensures
        r == (a@ == b@),
{
    if a.len() != b.len() {
        return false;
    }
    let mut diff: u8 = 0;
    let mut i: usize = 0;
    while i < a.len()
        invariant
            i <= a@.len(),
            a@.len() == b@.len(),
            diff == 0 <==> forall|j: int| 0 <= j < i ==> a@[j] == b@[j],
        decreases a@.len() - i,
    {
        let x: u8 = a[i];
        let y: u8 = b[i];
        let before: u8 = diff;
        diff = diff | (x ^ y);
        assert((before | (x ^ y)) == 0 <==> (before == 0 && x == y)) by (bit_vector);
        i += 1;
    }
    if diff == 0 {
        assert(a@ =~= b@);
    }
    diff == 0
}

/// Whether a bearer opens the way: only where a token is configured, and only that token.
pub open spec fn opens(provided: Option<Seq<char>>, expected: Option<Seq<char>>) -> bool {
    match expected {
        Some(e) => e.len() > 0 && provided == Some(e),
        None => false,
    }
}

/// The text of an optional string slice.
pub open spec fn opt_text(s: Option<&str>) -> Option<Seq<char>> {
    match s {
        Some(t) => Some(t@),
        None => None,
    }
}

/// Whether the bearer that came with a request opens the way.
pub fn bearer_ok(provided: Option<&str>, expected: Option<&str>) -> (r: bool)
    ensures
        r == opens(opt_text(provided), opt_text(expected)),
{
    match expected {
        None => false,
        Some(e) => {
            if e.is_empty() {
                return false;
            }
            let given = match provided {
                Some(p) => p,
                None => "",
            };
            proof {
                reveal_strlit("");
                vstd::utf8::encode_utf8_decode_utf8(given@);
                vstd::utf8::encode_utf8_decode_utf8(e@);
                assert(provided is None ==> given@ != e@);
            }
            ct_eq(given.as_bytes(), e.as_bytes())
        },
    }
}

/// What stands behind `Bearer ` in a header.
pub open spec fn bearer_text(header: Seq<char>) -> Option<Seq<char>> {
    if header.len() >= 7 && header.take(7) == "Bearer "@ {
        Some(header.skip(7))
    } else {
        None
    }
}

/// What stands behind `Bearer ` in the header of a request.
pub fn bearer_in(header: &str) -> (r: Option<String>)
    ensures
        text::opt(r) == bearer_text(header@),
{
    let cs = text::chars_of(header);
    if cs.len() < 7 {
        return None;
    }
    assert(cs@.take(7) =~= cs@.subrange(0, 7));
    assert(cs@.skip(7) =~= cs@.subrange(7, cs@.len() as int));
    if text::spells(vstd::slice::slice_subrange(cs.as_slice(), 0, 7), "Bearer ") {
        Some(text::string_of(vstd::slice::slice_subrange(cs.as_slice(), 7, cs.len())))
    } else {
        None
    }
}

/// Whether a request with this header may pass.
pub fn authorized(header: Option<&str>, expected: Option<&str>) -> (r: bool)
    ensures
        r == opens(
            match header {
                Some(h) => bearer_text(h@),
                None => None,
            },
            opt_text(expected),
        ),
{
    match header {
        None => bearer_ok(None, expected),
        Some(h) => match bearer_in(h) {
            None => bearer_ok(None, expected),
            Some(b) => bearer_ok(Some(b.as_str()), expected),
        },
    }
}

/// Without a token, or with an empty one, nothing opens the way; with one, only itself does,
/// behind `Bearer ` in the header.
pub proof fn the_guard_fails_closed(provided: Option<Seq<char>>, expected: Option<Seq<char>>)
    ensures
        expected is None ==> !opens(provided, expected),
        expected == Some(Seq::<char>::empty()) ==> !opens(provided, expected),
        provided is None ==> !opens(provided, expected),
        opens(provided, expected) ==> provided == expected,
        expected is Some && expected->0.len() > 0 ==> bearer_text("Bearer "@ + expected->0)
            == expected && opens(bearer_text("Bearer "@ + expected->0), expected),
{
    if expected is Some {
        reveal_strlit("Bearer ");
        let h = "Bearer "@ + expected->0;
        assert(h.take(7) =~= "Bearer "@);
        assert(h.skip(7) =~= expected->0);
    }
}

/// The port to serve on: the one that is set, or the usual one.
pub fn port(set: &Option<String>) -> (r: u16)
    ensures
        r == match crate::stt::port_in(text::opt(*set)) {
            Some(p) => p,
            None => DEFAULT_PORT as nat,
        },
{
    match crate::stt::port_of(set) {
        Some(p) => p,
        None => DEFAULT_PORT,
    }
}

/// A bearer is what stands behind `Bearer ` in a header that begins with it, and nothing else
/// has one; it opens the way exactly when it is the token.
pub proof fn only_the_token_opens_the_way(header: Seq<char>, token: Seq<char>)
    requires
        token.len() > 0,
    ensures
        bearer_text(header) is Some <==> "Bearer "@.is_prefix_of(header),
        bearer_text(header) matches Some(t) ==> header == "Bearer "@ + t,
        opens(bearer_text(header), Some(token)) <==> header == "Bearer "@ + token,
{
    reveal_strlit("Bearer ");
    if header.len() >= 7 {
        assert(header.take(7) =~= header.subrange(0, 7));
        assert(header =~= header.take(7) + header.skip(7));
    }
    let h = "Bearer "@ + token;
    assert(h.take(7) =~= "Bearer "@);
    assert(h.skip(7) =~= token);
}

/// A port is set by its number in decimal, with whitespace around it or without; what is no
/// number, or too large for a port, sets none.
pub proof fn a_port_is_set_by_its_number(s: Seq<char>, p: nat)
    ensures
        text::trim(s) == text::decimal(p) && p <= 65535 ==> crate::stt::port_in(Some(s)) == Some(p),
        text::trim(s) == text::decimal(p) && p > 65535 ==> crate::stt::port_in(Some(s)) is None,
        text::blank(s) ==> crate::stt::port_in(Some(s)) is None,
        crate::stt::port_in(None) is None,
        DEFAULT_PORT == 8013,
{
    text::lemma_trim(s);
    text::numbers_are_written_in_decimal(p, 1);
    text::numbers_are_read_from_digits(text::trim(s), 65535);
}

} // verus!
