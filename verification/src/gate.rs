//! The shared-secret gate in front of every route but the health probe, and the
//! settings the process starts with.
//!
//! The store holds a digest of the user's work, so no route may answer a caller that
//! does not present the node's secret. With no secret configured, every caller is
//! turned away.

use crate::model::opt_view;
use crate::text::{
    a_numeral_stands_for_its_number, chars_of, is_blank, numeral, same_text, trim, trimmed,
    trimming_takes_what_is_put_around, white_space,
};
use vstd::prelude::*;
use vstd::string::*;
use vstd::utf8::encode_utf8_decode_utf8;

verus! {

/// The loopback port where none is configured.
pub const DEFAULT_PORT: u16 = 8010;

/// Whether two byte strings are equal. Every byte is looked at, whatever the ones before
/// it say.
pub fn constant_time_eq(a: &[u8], b: &[u8]) -> (r: bool)
    ensures
        r == (a@ == b@),
{
    if a.len() != b.len() {
        return false;
    }
    let mut difference: u8 = 0;
    let mut i: usize = 0;
    while i < a.len()
        invariant
            i <= a.len(),
            a.len() == b.len(),
            difference == 0 <==> (forall|j: int| 0 <= j < i ==> a[j] == b[j]),
        decreases a.len() - i,
    {
        let x: u8 = a[i];
        let y: u8 = b[i];
        assert((difference | (x ^ y)) == 0 <==> difference == 0 && x == y) by (bit_vector);
        difference = difference | (x ^ y);
        i = i + 1;
    }
    if difference == 0 {
        assert(a@ =~= b@);
    }
    difference == 0
}

/// Whether a caller that presents `provided` may pass where `expected` is configured:
/// something is configured, and it is what the caller presents.
pub open spec fn may_pass(provided: Option<Seq<char>>, expected: Option<Seq<char>>) -> bool {
    match expected {
        Some(e) => e.len() > 0 && provided == Some(e),
        None => false,
    }
}

/// The view of an optional text.
pub open spec fn text_view(o: Option<&str>) -> Option<Seq<char>> {
    match o {
        Some(s) => Some(s@),
        None => None,
    }
}

/// Whether the caller's secret is the configured one. With none configured, or an
/// empty one, nobody passes.
pub fn bearer_ok(provided: Option<&str>, expected: Option<&str>) -> (r: bool)
    ensures
        r == may_pass(text_view(provided), text_view(expected)),
{
    match (provided, expected) {
        (Some(p), Some(e)) => {
            proof {
                encode_utf8_decode_utf8(p@);
                encode_utf8_decode_utf8(e@);
            }
            !e.is_empty() && constant_time_eq(p.as_bytes(), e.as_bytes())
        },
        _ => false,
    }
}

/// What an `Authorization` header presents: what stands behind `Bearer `.
pub open spec fn presented(header: Option<Seq<char>>) -> Option<Seq<char>> {
    match header {
        Some(h) => if "Bearer "@.is_prefix_of(h) {
            Some(h.skip("Bearer "@.len() as int))
        } else {
            None
        },
        None => None,
    }
}

/// Whether a request with this `Authorization` header may pass where `expected` is
/// configured.
pub fn require_token(header: Option<&str>, expected: Option<&str>) -> (r: bool)
    ensures
        r == may_pass(presented(text_view(header)), text_view(expected)),
{
    let scheme: &str = "Bearer ";
    let provided: Option<&str> = match header {
        Some(h) => {
            let n: usize = scheme.unicode_len();
            let len: usize = h.unicode_len();
            if n <= len && same_text(h.substring_char(0, n), scheme) {
                assert(scheme@.is_prefix_of(h@)) by {
                    assert(h@.take(n as int) =~= h@.subrange(0, n as int));
                }
                assert(h@.skip(n as int) =~= h@.subrange(n as int, len as int));
                Some(h.substring_char(n, len))
            } else {
                assert(!scheme@.is_prefix_of(h@)) by {
                    if scheme@.is_prefix_of(h@) {
                        assert(h@.take(n as int) =~= h@.subrange(0, n as int));
                    }
                }
                None
            }
        },
        None => None,
    };
    bearer_ok(provided, expected)
}

/// The secret that is configured: the setting without the white space around it,
/// unless nothing is left.
pub open spec fn token_setting(raw: Option<Seq<char>>) -> Option<Seq<char>> {
    match raw {
        Some(s) => if trimmed(s).len() == 0 {
            None
        } else {
            Some(trimmed(s))
        },
        None => None,
    }
}

/// The secret that is configured: the setting without the white space around it,
/// unless nothing is left.
pub fn configured_token(raw: Option<&str>) -> (r: Option<String>)
    ensures
        opt_view(r) == token_setting(text_view(raw)),
{
    match raw {
        Some(s) => {
            let t: &str = trim(s);
            if t.is_empty() {
                None
            } else {
                Some(t.to_owned())
            }
        },
        None => None,
    }
}

/// Whether `c` is a decimal digit.
pub open spec fn is_digit(c: char) -> bool {
    '0' <= c <= '9'
}

/// Whether there is nothing but decimal digits.
pub open spec fn all_digits(s: Seq<char>) -> bool {
    forall|i: int| 0 <= i < s.len() ==> is_digit(#[trigger] s[i])
}

/// The number that decimal digits stand for.
pub open spec fn digits_value(s: Seq<char>) -> nat
    decreases s.len(),
{
    if s.len() == 0 {
        0
    } else {
        10 * digits_value(s.drop_last()) + (s.last() as nat - 48) as nat
    }
}

/// The port that a text names: decimal digits, with a plus sign in front or not, for
/// a number of 16 bits.
pub open spec fn port_named(s: Seq<char>) -> Option<nat> {
    let d = if s.len() > 0 && s[0] == '+' {
        s.skip(1)
    } else {
        s
    };
    if d.len() > 0 && all_digits(d) && digits_value(d) <= 65535 {
        Some(digits_value(d))
    } else {
        None
    }
}

/// More digits never make a smaller number.
proof fn a_prefix_is_no_larger(s: Seq<char>, n: int)
    requires
        0 <= n <= s.len(),
    ensures
        digits_value(s.take(n)) <= digits_value(s),
    decreases s.len(),
{
    if n == s.len() {
        assert(s.take(n) =~= s);
    } else {
        assert(s.drop_last().take(n) =~= s.take(n));
        a_prefix_is_no_larger(s.drop_last(), n);
    }
}

/// The port that a text names, if it names one.
pub fn parse_port(text: &str) -> (r: Option<u16>)
    ensures
        match r {
            Some(p) => port_named(text@) == Some(p as nat),
            None => port_named(text@) is None,
        },
{
    let v: Vec<char> = chars_of(text);
    let start: usize = if v.len() > 0 && v[0] == '+' {
        1
    } else {
        0
    };
    let ghost d = text@.skip(start as int);
    assert(text@.skip(0) =~= text@);
    if v.len() == start {
        return None;
    }
    let mut value: u32 = 0;
    let mut i: usize = start;
    assert(d.take(0) =~= seq![]);
    while i < v.len()
        invariant
            start <= i <= v.len(),
            v@ == text@,
            d == text@.skip(start as int),
            d == (if text@.len() > 0 && text@[0] == '+' {
                text@.skip(1)
            } else {
                text@
            }),
            value <= 65535,
            value == digits_value(d.take(i - start)),
            forall|j: int| 0 <= j < i - start ==> is_digit(#[trigger] d[j]),
        decreases v.len() - i,
    {
        let c: char = v[i];
        assert(d[i - start] == c);
        if !('0' <= c && c <= '9') {
            return None;
        }
        assert(d.take(i - start + 1).drop_last() =~= d.take(i - start));
        value = 10 * value + (c as u32 - 48);
        if value > 65535 {
            proof {
                a_prefix_is_no_larger(d, i - start + 1);
            }
            return None;
        }
        i = i + 1;
    }
    assert(d.take(i - start) =~= d);
    Some(value as u16)
}

/// The port that a setting names, without the white space around it, or the default.
pub open spec fn port_setting(raw: Option<Seq<char>>) -> nat {
    match raw {
        Some(s) => match port_named(trimmed(s)) {
            Some(p) => p,
            None => DEFAULT_PORT as nat,
        },
        None => DEFAULT_PORT as nat,
    }
}

/// The port to listen on: what the setting names, or the default.
pub fn configured_port(raw: Option<&str>) -> (r: u16)
    ensures
        r == port_setting(text_view(raw)),
{
    match raw {
        Some(s) => match parse_port(trim(s)) {
            Some(p) => p,
            None => DEFAULT_PORT,
        },
        None => DEFAULT_PORT,
    }
}

/// Nobody passes where no secret is configured, whatever a caller presents; where one
/// is, it passes and nothing else does.
pub proof fn only_the_configured_secret_passes(
    raw: Option<Seq<char>>,
    provided: Option<Seq<char>>,
)
    ensures
        token_setting(raw) is None ==> !may_pass(provided, token_setting(raw)),
        token_setting(raw) matches Some(secret) ==> (may_pass(provided, Some(secret)) <==> provided
            == Some(secret)),
        !may_pass(provided, Some(seq![])),
{
}

/// A header with the scheme and a token passes where that token is the configured secret,
/// which is not empty, and a header without the scheme, or none, never does.
pub proof fn a_bearer_passes_with_the_secret(
    token: Seq<char>,
    header: Option<Seq<char>>,
    secret: Seq<char>,
)
    ensures
        may_pass(presented(Some("Bearer "@ + token)), Some(secret)) <==> token == secret
            && secret.len() > 0,
        header is None || header->0.len() < 7 || header->0.take(7) != "Bearer "@ ==> !may_pass(
            presented(header),
            Some(secret),
        ),
        !may_pass(presented(header), None),
{
    reveal_strlit("Bearer ");
    let h = "Bearer "@ + token;
    assert(h.take(7) =~= "Bearer "@);
    assert(h.subrange(0, 7) =~= "Bearer "@);
    assert("Bearer "@.is_prefix_of(h));
    assert(h.skip(7) =~= token);
    if let Some(g) = header {
        if "Bearer "@.is_prefix_of(g) {
            assert(g.take(7) =~= g.subrange(0, 7));
        }
    }
}

/// The secret that is configured is the setting without the white space around it; a blank
/// setting, or none, configures none.
pub proof fn a_secret_is_configured_as_it_reads(
    before: Seq<char>,
    secret: Seq<char>,
    after: Seq<char>,
)
    requires
        is_blank(before),
        is_blank(after),
        secret.len() > 0 ==> !white_space(secret.first()) && !white_space(secret.last()),
    ensures
        token_setting(Some(before + secret + after)) == (if secret.len() == 0 {
            None
        } else {
            Some(secret)
        }),
        token_setting(None) is None,
{
    trimming_takes_what_is_put_around(before, secret, after);
}

/// A port is named by its numeral, with a plus sign in front or not, and a setting may have
/// white space around it.
pub proof fn a_port_is_named_by_its_numeral(port: nat, before: Seq<char>, after: Seq<char>)
    requires
        port <= 65535,
        is_blank(before),
        is_blank(after),
    ensures
        port_named(numeral(port)) == Some(port),
        port_named(seq!['+'] + numeral(port)) == Some(port),
        port_setting(Some(before + numeral(port) + after)) == port,
{
    let n = numeral(port);
    a_numeral_stands_for_its_number(port);
    assert(is_digit(n[0]) && is_digit(n[n.len() - 1]));
    assert((seq!['+'] + n).skip(1) =~= n);
    trimming_takes_what_is_put_around(before, n, after);
}

/// What names a port is digits, behind a plus sign or not, for a number of 16 bits, and it
/// names that number; a setting that names none gives the default.
pub proof fn only_digits_name_a_port(s: Seq<char>)
    ensures
        port_named(s) matches Some(p) ==> p <= 65535 && ((all_digits(s) && s.len() > 0
            && digits_value(s) == p) || (s.len() > 1 && s[0] == '+' && all_digits(s.skip(1))
            && digits_value(s.skip(1)) == p)),
        port_named(s) is None ==> !(all_digits(s) && s.len() > 0 && digits_value(s) <= 65535),
        port_named(trimmed(s)) is None ==> port_setting(Some(s)) == 8010,
        port_setting(None) == 8010,
{
    if s.len() > 0 && s[0] == '+' {
        assert(!is_digit(s[0]));
    }
}

} // verus!
