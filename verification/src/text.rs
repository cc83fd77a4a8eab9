//! Characters, trimming, decimal numerals and the order of texts.

use crate::gate::{all_digits, digits_value, is_digit};
use std::str::Chars;
use vstd::prelude::*;
use vstd::std_specs::iter::IteratorSpec;
use vstd::string::*;
use vstd::utf8::encode_utf8_decode_utf8;

verus! {

/// The Unicode `White_Space` property.
pub open spec fn white_space(c: char) -> bool {
    ||| '\u{9}' <= c <= '\u{d}'
    ||| c == ' '
    ||| c == '\u{85}'
    ||| c == '\u{a0}'
    ||| c == '\u{1680}'
    ||| '\u{2000}' <= c <= '\u{200a}'
    ||| '\u{2028}' <= c <= '\u{2029}'
    ||| c == '\u{202f}'
    ||| c == '\u{205f}'
    ||| c == '\u{3000}'
}

/// Whether `c` has the Unicode `White_Space` property.
pub fn is_white_space(c: char) -> (r: bool)
    ensures
        r == white_space(c),
{
    ('\u{9}' <= c && c <= '\u{d}') || c == ' ' || c == '\u{85}' || c == '\u{a0}' || c == '\u{1680}' || (
    '\u{2000}' <= c && c <= '\u{200a}') || ('\u{2028}' <= c && c <= '\u{2029}') || c == '\u{202f}'
        || c == '\u{205f}' || c == '\u{3000}'
}

/// `s` without the white space it begins with.
pub open spec fn without_leading(s: Seq<char>) -> Seq<char>
    decreases s.len(),
{
    if s.len() > 0 && white_space(s.first()) {
        without_leading(s.drop_first())
    } else {
        s
    }
}

/// `s` without the white space it ends with.
pub open spec fn without_trailing(s: Seq<char>) -> Seq<char>
    decreases s.len(),
{
    if s.len() > 0 && white_space(s.last()) {
        without_trailing(s.drop_last())
    } else {
        s
    }
}

/// `s` without the white space at either end.
pub open spec fn trimmed(s: Seq<char>) -> Seq<char> {
    without_trailing(without_leading(s))
}

/// The characters of `s`, in order.
pub fn chars_of(s: &str) -> (v: Vec<char>)
    ensures
        v@ == s@,
{
    let mut v: Vec<char> = Vec::new();
    for c in it: s.chars()
        invariant
            it.seq() == s@,
            v@ == s@.take(it.index() as int),
    {
        assert(s@.take(it.index() as int).push(c) == s@.take(it.index() + 1));
        v.push(c);
    }
    assert(s@.take(s@.len() as int) == s@);
    v
}

/// `s` without the white space it ends with.
pub fn trim_end<'a>(s: &'a str) -> (r: &'a str)
    ensures
        r@ == without_trailing(s@),
{
    let v: Vec<char> = chars_of(s);
    let mut end: usize = v.len();
    assert(s@.take(end as int) == s@);
    while end > 0 && is_white_space(v[end - 1])
        invariant
            end <= v.len(),
            v@ == s@,
            without_trailing(s@) == without_trailing(s@.take(end as int)),
        decreases end,
    {
        assert(s@.take(end as int).drop_last() == s@.take(end - 1));
        end = end - 1;
    }
    assert(s@.take(end as int) == s@.subrange(0, end as int));
    s.substring_char(0, end)
}

/// `s` without the white space it begins with.
pub fn trim_start<'a>(s: &'a str) -> (r: &'a str)
    ensures
        r@ == without_leading(s@),
{
    let v: Vec<char> = chars_of(s);
    let mut start: usize = 0;
    assert(s@.skip(0) == s@);
    while start < v.len() && is_white_space(v[start])
        invariant
            start <= v.len(),
            v@ == s@,
            without_leading(s@) == without_leading(s@.skip(start as int)),
        decreases v.len() - start,
    {
        assert(s@.skip(start as int).drop_first() == s@.skip(start + 1));
        start = start + 1;
    }
    assert(s@.skip(start as int) == s@.subrange(start as int, s@.len() as int));
    s.substring_char(start, v.len())
}

/// `s` without the white space at either end.
pub fn trim<'a>(s: &'a str) -> (r: &'a str)
    ensures
        r@ == trimmed(s@),
{
    trim_end(trim_start(s))
}

/// The character of the decimal digit `d`.
pub open spec fn digit(d: nat) -> char {
    (48 + d) as char
}

/// The decimal numeral of `n`, without leading zeros.
pub open spec fn numeral(n: nat) -> Seq<char>
    decreases n,
{
    if n < 10 {
        seq![digit(n)]
    } else {
        numeral(n / 10).push(digit(n % 10))
    }
}

/// The decimal numeral of `n`, with a minus sign where it is negative.
pub open spec fn decimal(n: int) -> Seq<char> {
    if n < 0 {
        seq!['-'] + numeral((-n) as nat)
    } else {
        numeral(n as nat)
    }
}

/// The text of one decimal digit.
fn digit_text(d: u64) -> (r: &'static str)
    requires
        d < 10,
    ensures
        r@ == seq![digit(d as nat)],
{
    proof {
        reveal_strlit("0");
        reveal_strlit("1");
        reveal_strlit("2");
        reveal_strlit("3");
        reveal_strlit("4");
        reveal_strlit("5");
        reveal_strlit("6");
        reveal_strlit("7");
        reveal_strlit("8");
        reveal_strlit("9");
    }
    match d {
        0 => "0",
        1 => "1",
        2 => "2",
        3 => "3",
        4 => "4",
        5 => "5",
        6 => "6",
        7 => "7",
        8 => "8",
        _ => "9",
    }
}

/// Appends the decimal numeral of `n`.
pub fn push_numeral(out: &mut String, n: u64)
    ensures
        final(out)@ == old(out)@ + numeral(n as nat),
    decreases n,
{
    if n >= 10 {
        push_numeral(out, n / 10);
    }
    out.append(digit_text(n % 10));
}

/// Appends the decimal numeral of `n`, with a minus sign where it is negative.
pub fn push_decimal(out: &mut String, n: i64)
    ensures
        final(out)@ == old(out)@ + decimal(n as int),
{
    if n < 0 {
        proof {
            reveal_strlit("-");
        }
        out.append("-");
        let magnitude: u64 = (-(n as i128)) as u64;
        push_numeral(out, magnitude);
    } else {
        push_numeral(out, n as u64);
    }
}

/// Whether two texts hold the same characters.
pub fn same_text(a: &str, b: &str) -> (r: bool)
    ensures
        r == (a@ == b@),
{
    let x: &[u8] = a.as_bytes();
    let y: &[u8] = b.as_bytes();
    proof {
        encode_utf8_decode_utf8(a@);
        encode_utf8_decode_utf8(b@);
    }
    if x.len() != y.len() {
        return false;
    }
    let mut i: usize = 0;
    while i < x.len()
        invariant
            i <= x.len(),
            x.len() == y.len(),
            x@ == a.spec_bytes(),
            y@ == b.spec_bytes(),
            forall|j: int| 0 <= j < i ==> x[j] == y[j],
        decreases x.len() - i,
    {
        if x[i] != y[i] {
            return false;
        }
        i = i + 1;
    }
    assert(x@ =~= y@);
    true
}

/// The order of texts by their characters' code points, a prefix first: the
/// order of their UTF-8 bytes.
pub open spec fn precedes(a: Seq<char>, b: Seq<char>) -> bool
    decreases a.len(),
{
    if b.len() == 0 {
        false
    } else if a.len() == 0 {
        true
    } else if a[0] != b[0] {
        a[0] < b[0]
    } else {
        precedes(a.drop_first(), b.drop_first())
    }
}

/// Whether `a` stands before `b` in the order of texts.
pub fn text_precedes(a: &str, b: &str) -> (r: bool)
    ensures
        r == precedes(a@, b@),
{
    let mut x: Chars = a.chars();
    let mut y: Chars = b.chars();
    loop
        invariant
            x.decrease() is Some,
            precedes(a@, b@) == precedes(x.remaining(), y.remaining()),
        decreases x.decrease()->0,
    {
        match (x.next(), y.next()) {
            (_, None) => {
                return false;
            },
            (None, Some(_)) => {
                return true;
            },
            (Some(c), Some(d)) => {
                if c != d {
                    return c < d;
                }
            },
        }
    }
}

/// No text stands before itself.
pub proof fn precedes_is_irreflexive(a: Seq<char>)
    ensures
        !precedes(a, a),
    decreases a.len(),
{
    if a.len() > 0 {
        precedes_is_irreflexive(a.drop_first());
    }
}

/// The order of texts is transitive.
pub proof fn precedes_is_transitive(a: Seq<char>, b: Seq<char>, c: Seq<char>)
    requires
        precedes(a, b),
        precedes(b, c),
    ensures
        precedes(a, c),
    decreases a.len(),
{
    if a.len() > 0 && a[0] == b[0] && b[0] == c[0] {
        precedes_is_transitive(a.drop_first(), b.drop_first(), c.drop_first());
    }
}

/// Of two different texts one stands before the other.
pub proof fn precedes_is_total(a: Seq<char>, b: Seq<char>)
    requires
        a != b,
    ensures
        precedes(a, b) || precedes(b, a),
    decreases a.len(),
{
    if a.len() > 0 && b.len() > 0 && a[0] == b[0] {
        if a.drop_first() == b.drop_first() {
            assert(a == seq![a[0]] + a.drop_first());
            assert(b == seq![b[0]] + b.drop_first());
        }
        precedes_is_total(a.drop_first(), b.drop_first());
    } else if a.len() == 0 && b.len() == 0 {
        assert(a == b);
    }
}

/// Trimming adds no character: what is left is a part of what was there, and no longer.
pub proof fn trimming_adds_nothing(s: Seq<char>)
    ensures
        without_leading(s).len() <= s.len(),
        without_trailing(s).len() <= s.len(),
        trimmed(s).len() <= s.len(),
        forall|c: char| #[trigger] without_leading(s).contains(c) ==> s.contains(c),
        forall|c: char| #[trigger] without_trailing(s).contains(c) ==> s.contains(c),
        forall|c: char| #[trigger] trimmed(s).contains(c) ==> s.contains(c),
{
    leading_is_left_out(s);
    trailing_is_left_out(s);
    trailing_is_left_out(without_leading(s));
}

proof fn leading_is_left_out(s: Seq<char>)
    ensures
        without_leading(s).len() <= s.len(),
        forall|c: char| #[trigger] without_leading(s).contains(c) ==> s.contains(c),
    decreases s.len(),
{
    if s.len() > 0 && white_space(s.first()) {
        let rest = s.drop_first();
        leading_is_left_out(rest);
        assert forall|c: char| #[trigger] without_leading(s).contains(c) implies s.contains(c) by {
            assert(rest.contains(c));
            let i = choose|i: int| 0 <= i < rest.len() && rest[i] == c;
            assert(s[i + 1] == c);
        }
    }
}

proof fn trailing_is_left_out(s: Seq<char>)
    ensures
        without_trailing(s).len() <= s.len(),
        forall|c: char| #[trigger] without_trailing(s).contains(c) ==> s.contains(c),
    decreases s.len(),
{
    if s.len() > 0 && white_space(s.last()) {
        let rest = s.drop_last();
        trailing_is_left_out(rest);
        assert forall|c: char| #[trigger] without_trailing(s).contains(c) implies s.contains(c) by {
            assert(rest.contains(c));
            let i = choose|i: int| 0 <= i < rest.len() && rest[i] == c;
            assert(s[i] == c);
        }
    }
}

/// A trimmed text has white space at neither end.
pub proof fn a_trimmed_text_has_bare_ends(s: Seq<char>)
    ensures
        trimmed(s).len() > 0 ==> !white_space(trimmed(s).first()) && !white_space(trimmed(s).last()),
{
    let t = without_leading(s);
    bare_start(s);
    bare_end(t);
}

proof fn bare_start(s: Seq<char>)
    ensures
        without_leading(s).len() > 0 ==> !white_space(without_leading(s).first()),
    decreases s.len(),
{
    if s.len() > 0 && white_space(s.first()) {
        bare_start(s.drop_first());
    }
}

proof fn bare_end(s: Seq<char>)
    ensures
        without_trailing(s).len() > 0 ==> !white_space(without_trailing(s).last())
            && without_trailing(s).first() == s.first(),
    decreases s.len(),
{
    if s.len() > 0 && white_space(s.last()) {
        bare_end(s.drop_last());
    }
}

/// Whether `part` stands in `text` from character `i` on.
pub open spec fn is_part_at(text: Seq<char>, part: Seq<char>, i: int) -> bool {
    0 <= i <= i + part.len() <= text.len() && text.subrange(i, i + part.len()) == part
}

/// Whether `part` stands somewhere in `text`.
pub open spec fn has_part(text: Seq<char>, part: Seq<char>) -> bool {
    exists|i: int| #[trigger] is_part_at(text, part, i)
}

/// Ten to the power of `k`.
pub open spec fn power_of_ten(k: nat) -> nat
    decreases k,
{
    if k == 0 {
        1
    } else {
        10 * power_of_ten((k - 1) as nat)
    }
}

/// A number below ten to the power of `k` has at most `k` digits.
pub proof fn a_numeral_is_short(n: nat, k: nat)
    requires
        k > 0,
        n < power_of_ten(k),
    ensures
        1 <= numeral(n).len() <= k,
    decreases n,
{
    if n >= 10 {
        assert(k > 1) by {
            if k == 1 {
                reveal_with_fuel(power_of_ten, 2);
            }
        }
        a_numeral_is_short(n / 10, (k - 1) as nat);
    }
}

/// The numeral of a number of 64 bits has at most 20 characters, its sign counted.
pub proof fn a_decimal_is_short(n: int)
    requires
        i64::MIN <= n <= u64::MAX,
    ensures
        1 <= decimal(n).len() <= 20,
{
    reveal_with_fuel(power_of_ten, 21);
    if n < 0 {
        a_numeral_is_short((-n) as nat, 19);
    } else {
        a_numeral_is_short(n as nat, 20);
    }
}

/// Whether there is nothing but white space.
pub open spec fn is_blank(s: Seq<char>) -> bool {
    forall|i: int| 0 <= i < s.len() ==> white_space(#[trigger] s[i])
}

/// Trimming takes the white space around a text, all of it, and nothing else: a text that
/// begins and ends with other characters is what is left of it, whatever white space was
/// put around it.
pub proof fn trimming_takes_what_is_put_around(before: Seq<char>, t: Seq<char>, after: Seq<char>)
    requires
        is_blank(before),
        is_blank(after),
        t.len() > 0 ==> !white_space(t.first()) && !white_space(t.last()),
    ensures
        trimmed(before + t + after) == t,
        t.len() > 0 ==> without_leading(before + t + after) == t + after && without_trailing(
            before + t + after,
        ) == before + t,
{
    let s = before + t + after;
    assert(s =~= before + (t + after));
    if t.len() > 0 {
        leading_white_space_goes(before, t + after);
        trailing_white_space_goes(before + t, after);
        trailing_white_space_goes(t, after);
    } else {
        assert(is_blank(s)) by {
            assert forall|i: int| 0 <= i < s.len() implies white_space(#[trigger] s[i]) by {
                if i < before.len() {
                    assert(s[i] == before[i]);
                } else {
                    assert(s[i] == after[i - before.len()]);
                }
            }
        }
        assert(s + Seq::<char>::empty() =~= s);
        leading_white_space_goes(s, Seq::<char>::empty());
        assert(t =~= Seq::<char>::empty());
    }
}

proof fn leading_white_space_goes(before: Seq<char>, t: Seq<char>)
    requires
        is_blank(before),
        t.len() > 0 ==> !white_space(t.first()),
    ensures
        without_leading(before + t) == t,
    decreases before.len(),
{
    if before.len() == 0 {
        assert(before + t =~= t);
    } else {
        assert(white_space(before[0]));
        assert((before + t).drop_first() =~= before.drop_first() + t);
        assert(is_blank(before.drop_first())) by {
            assert forall|i: int| 0 <= i < before.drop_first().len() implies white_space(
                #[trigger] before.drop_first()[i],
            ) by {
                assert(white_space(before[i + 1]));
            }
        }
        leading_white_space_goes(before.drop_first(), t);
    }
}

/// White space that is put behind a text is what trimming takes from the end.
pub proof fn trailing_white_space_goes(t: Seq<char>, after: Seq<char>)
    requires
        is_blank(after),
        t.len() > 0 ==> !white_space(t.last()),
    ensures
        without_trailing(t + after) == t,
    decreases after.len(),
{
    if after.len() == 0 {
        assert(t + after =~= t);
    } else {
        assert(white_space(after[after.len() - 1]));
        assert((t + after).drop_last() =~= t + after.drop_last());
        trailing_white_space_goes(t, after.drop_last());
    }
}

/// Every text is a trimmed text with white space around it.
pub proof fn a_text_is_its_trimmed_text_in_white_space(s: Seq<char>)
    ensures
        exists|before: Seq<char>, after: Seq<char>|
            s == #[trigger] (before + trimmed(s) + after) && is_blank(before) && is_blank(after),
{
    let t = without_leading(s);
    white_space_in_front(s);
    white_space_behind(t);
    let n = s.len() - t.len();
    let before = s.take(n);
    let after = t.skip(trimmed(s).len() as int);
    assert(s =~= before + trimmed(s) + after);
}

/// What trimming takes from the start is the white space there.
pub proof fn white_space_in_front(s: Seq<char>)
    ensures
        without_leading(s).len() <= s.len(),
        s.skip(s.len() - without_leading(s).len()) == without_leading(s),
        is_blank(s.take(s.len() - without_leading(s).len())),
    decreases s.len(),
{
    let t = without_leading(s);
    let n = s.len() - t.len();
    if s.len() > 0 && white_space(s.first()) {
        let rest = s.drop_first();
        white_space_in_front(rest);
        assert(s.skip(n) =~= rest.skip(n - 1));
        assert forall|i: int| 0 <= i < n implies white_space(#[trigger] s.take(n)[i]) by {
            if i > 0 {
                assert(rest.take(n - 1)[i - 1] == s[i]);
            }
        }
    } else {
        assert(s.skip(0) =~= s);
    }
}

/// What trimming takes from the end is the white space there.
pub proof fn white_space_behind(s: Seq<char>)
    ensures
        without_trailing(s).len() <= s.len(),
        s.take(without_trailing(s).len() as int) == without_trailing(s),
        is_blank(s.skip(without_trailing(s).len() as int)),
    decreases s.len(),
{
    let t = without_trailing(s);
    let n = t.len() as int;
    if s.len() > 0 && white_space(s.last()) {
        let rest = s.drop_last();
        white_space_behind(rest);
        assert(s.take(n) =~= rest.take(n));
        assert forall|i: int| 0 <= i < s.len() - n implies white_space(#[trigger] s.skip(n)[i]) by {
            if i < rest.len() - n {
                assert(rest.skip(n)[i] == s[i + n]);
            }
        }
    } else {
        assert(s.take(n) =~= s);
    }
}

/// The order of texts is that of a dictionary: a text stands before another where they
/// agree up to some place, and there the first one ends, or has the smaller character.
pub proof fn texts_are_ordered_as_in_a_dictionary(a: Seq<char>, b: Seq<char>)
    ensures
        precedes(a, b) <==> exists|k: int|
            0 <= k <= a.len() && k < b.len() && (#[trigger] a.take(k)) == b.take(k) && (k == a.len()
                || a[k] < b[k]),
    decreases a.len(),
{
    if b.len() > 0 && a.len() == 0 {
        assert(a.take(0) =~= b.take(0));
    } else if b.len() > 0 && a[0] != b[0] {
        assert(a.take(0) =~= b.take(0));
        if exists|k: int|
            0 <= k <= a.len() && k < b.len() && (#[trigger] a.take(k)) == b.take(k) && (k == a.len()
                || a[k] < b[k]) {
            let k = choose|k: int|
                0 <= k <= a.len() && k < b.len() && (#[trigger] a.take(k)) == b.take(k) && (k
                    == a.len() || a[k] < b[k]);
            if k > 0 {
                assert(a.take(k)[0] == a[0]);
                assert(b.take(k)[0] == b[0]);
            }
        }
    } else if b.len() > 0 {
        let x = a.drop_first();
        let y = b.drop_first();
        texts_are_ordered_as_in_a_dictionary(x, y);
        if precedes(x, y) {
            let k = choose|k: int|
                0 <= k <= x.len() && k < y.len() && (#[trigger] x.take(k)) == y.take(k) && (k
                    == x.len() || x[k] < y[k]);
            assert(a.take(k + 1) =~= seq![a[0]] + x.take(k));
            assert(b.take(k + 1) =~= seq![b[0]] + y.take(k));
        }
        if exists|k: int|
            0 <= k <= a.len() && k < b.len() && (#[trigger] a.take(k)) == b.take(k) && (k == a.len()
                || a[k] < b[k]) {
            let k = choose|k: int|
                0 <= k <= a.len() && k < b.len() && (#[trigger] a.take(k)) == b.take(k) && (k
                    == a.len() || a[k] < b[k]);
            assert(k > 0);
            assert(x.take(k - 1) =~= a.take(k).drop_first());
            assert(y.take(k - 1) =~= b.take(k).drop_first());
        }
    }
}

/// A numeral is made of digits, stands for its number, and has no zero in front but for
/// zero itself.
pub proof fn a_numeral_stands_for_its_number(n: nat)
    ensures
        numeral(n).len() > 0,
        all_digits(numeral(n)),
        digits_value(numeral(n)) == n,
        n > 0 ==> numeral(n)[0] != '0',
    decreases n,
{
    if n < 10 {
        assert(numeral(n).drop_last() =~= Seq::<char>::empty());
        assert(digits_value(Seq::<char>::empty()) == 0);
    } else {
        let front = numeral(n / 10);
        a_numeral_stands_for_its_number(n / 10);
        assert(numeral(n).drop_last() =~= front);
        assert forall|i: int| 0 <= i < numeral(n).len() implies is_digit(
            #[trigger] numeral(n)[i],
        ) by {
            if i < front.len() {
                assert(numeral(n)[i] == front[i]);
            }
        }
    }
}

/// One more digit takes the number times ten, and adds the digit.
pub proof fn a_digit_more_is_ten_times_as_much(s: Seq<char>, c: char)
    requires
        is_digit(c),
    ensures
        digits_value(s.push(c)) == 10 * digits_value(s) + (c as int - '0' as int),
        digits_value(Seq::<char>::empty()) == 0,
{
    assert(s.push(c).drop_last() =~= s);
}

/// A decimal is the numeral of the number, behind a minus sign where it is negative.
pub proof fn a_decimal_has_its_sign(n: int)
    ensures
        n >= 0 ==> all_digits(decimal(n)) && digits_value(decimal(n)) == n,
        n < 0 ==> decimal(n)[0] == '-' && all_digits(decimal(n).skip(1)) && digits_value(
            decimal(n).skip(1),
        ) == -n,
{
    if n < 0 {
        a_numeral_stands_for_its_number((-n) as nat);
        assert(decimal(n).skip(1) =~= numeral((-n) as nat));
    } else {
        a_numeral_stands_for_its_number(n as nat);
    }
}

/// It does not matter which end is trimmed first.
pub proof fn either_end_may_be_trimmed_first(s: Seq<char>)
    ensures
        without_leading(without_trailing(s)) == trimmed(s),
{
    a_text_is_its_trimmed_text_in_white_space(s);
    a_trimmed_text_has_bare_ends(s);
    let t = trimmed(s);
    let (before, after) = choose|before: Seq<char>, after: Seq<char>|
        s == #[trigger] (before + t + after) && is_blank(before) && is_blank(after);
    let nothing = Seq::<char>::empty();
    if t.len() > 0 {
        trimming_takes_what_is_put_around(before, t, after);
        assert(before + t + nothing =~= before + t);
        assert(t + nothing =~= t);
        trimming_takes_what_is_put_around(before, t, nothing);
    } else {
        let all = before + after;
        assert(s =~= all);
        assert forall|i: int| 0 <= i < all.len() implies white_space(#[trigger] all[i]) by {
            if i < before.len() {
                assert(all[i] == before[i]);
            } else {
                assert(all[i] == after[i - before.len()]);
            }
        }
        assert(nothing + all =~= all);
        trailing_white_space_goes(nothing, all);
        assert(without_leading(nothing) == nothing);
        assert(t =~= nothing);
    }
}

} // verus!
