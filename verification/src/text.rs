//! Text as sequences of characters: order, search and assembly.

use vstd::prelude::*;
use vstd::std_specs::iter::IteratorSpec;

verus! {

/// The text in lower case, as `str::to_lowercase` gives it.
pub uninterp spec fn lowercased(text: Seq<char>) -> Seq<char>;

/// `a` comes before `b` in dictionary order by code point, which is the order
/// of `str`.
pub open spec fn text_precedes(a: Seq<char>, b: Seq<char>) -> bool
    decreases a.len(),
{
    if b.len() == 0 {
        false
    } else if a.len() == 0 {
        true
    } else if a[0] != b[0] {
        (a[0] as int) < (b[0] as int)
    } else {
        text_precedes(a.drop_first(), b.drop_first())
    }
}

/// `needle` occurs in `hay` as a run of consecutive characters.
pub open spec fn occurs_in(needle: Seq<char>, hay: Seq<char>) -> bool {
    exists|at: int| occurs_at(needle, hay, at)
}

/// `needle` occurs in `hay` starting at position `at`.
pub open spec fn occurs_at(needle: Seq<char>, hay: Seq<char>, at: int) -> bool {
    0 <= at && at + needle.len() <= hay.len() && hay.subrange(at, at + needle.len()) == needle
}

/// `text` with every occurrence of `from` replaced by `to`, scanning from the
/// left and resuming after each replacement. With an empty `from` the text
/// stays as it is.
pub open spec fn replaced(text: Seq<char>, from: Seq<char>, to: Seq<char>) -> Seq<char>
    decreases text.len(),
{
    if from.len() == 0 || text.len() == 0 {
        text
    } else if from.is_prefix_of(text) {
        to + replaced(text.skip(from.len() as int), from, to)
    } else {
        seq![text[0]] + replaced(text.drop_first(), from, to)
    }
}

/// The texts joined with `separator` between each two neighbours.
pub open spec fn joined(parts: Seq<Seq<char>>, separator: Seq<char>) -> Seq<char>
    decreases parts.len(),
{
    if parts.len() == 0 {
        Seq::empty()
    } else if parts.len() == 1 {
        parts[0]
    } else {
        joined(parts.drop_last(), separator) + separator + parts.last()
    }
}

/// No text comes before itself.
pub proof fn lemma_precedes_irreflexive(a: Seq<char>)
    ensures
        !text_precedes(a, a),
    decreases a.len(),
{
    if a.len() > 0 {
        lemma_precedes_irreflexive(a.drop_first());
    }
}

/// What comes before a text comes before all that the text comes before.
pub proof fn lemma_precedes_transitive(a: Seq<char>, b: Seq<char>, c: Seq<char>)
    requires
        text_precedes(a, b),
        text_precedes(b, c),
    ensures
        text_precedes(a, c),
    decreases a.len(),
{
    if a.len() > 0 && a[0] == b[0] && b[0] == c[0] {
        lemma_precedes_transitive(a.drop_first(), b.drop_first(), c.drop_first());
    }
}

/// Of two different texts one comes before the other.
pub proof fn lemma_precedes_total(a: Seq<char>, b: Seq<char>)
    ensures
        text_precedes(a, b) || text_precedes(b, a) || a == b,
    decreases a.len(),
{
    if a.len() > 0 && b.len() > 0 {
        if a[0] == b[0] {
            lemma_precedes_total(a.drop_first(), b.drop_first());
            if a.drop_first() == b.drop_first() {
                assert(a =~= seq![a[0]] + a.drop_first());
                assert(b =~= seq![b[0]] + b.drop_first());
            }
        } else {
            assert(a[0] as int != b[0] as int);
        }
    } else if a.len() == 0 && b.len() == 0 {
        assert(a =~= b);
    }
}

/// Calls `str::to_lowercase`. Trusted: the text returned is the one that
/// `lowercased` names.
#[verifier::external_body]
pub(crate) fn lowercase(text: &str) -> (lower: String)
    ensures
        lower@ == lowercased(text@),
{
    text.to_lowercase()
}

/// Calls `String::push`. Trusted: the character is added at the end and the
/// rest of the text stays as it was.
#[verifier::external_body]
pub(crate) fn push_char(text: &mut String, c: char)
    ensures
        final(text)@ == old(text)@.push(c),
{
    text.push(c)
}

/// The characters of `s`, in order.
pub fn chars_of(s: &str) -> (chars: Vec<char>)
    ensures
        chars@ == s@,
{
    let mut chars: Vec<char> = Vec::new();
    let mut rest = s.chars();
    loop
        invariant_except_break
            chars@ + rest.remaining() == s@,
            rest.decrease() is Some,
        ensures
            chars@ == s@,
        decreases rest.decrease()->0,
    {
        match rest.next() {
            Some(c) => {
                chars.push(c);
            },
            None => {
                break ;
            },
        }
    }
    chars
}

/// Whether `a` comes before `b` in the order of `str`.
pub fn precedes(a: &str, b: &str) -> (before: bool)
    ensures
        before == text_precedes(a@, b@),
{
    let mut rest_a = a.chars();
    let mut rest_b = b.chars();
    let ghost mut at: int = 0;
    loop
        invariant
            0 <= at <= a@.len(),
            at <= b@.len(),
            rest_a.remaining() == a@.skip(at),
            rest_b.remaining() == b@.skip(at),
            text_precedes(a@, b@) == text_precedes(a@.skip(at), b@.skip(at)),
            rest_a.decrease() is Some,
        decreases rest_a.decrease()->0,
    {
        let next_a = rest_a.next();
        let next_b = rest_b.next();
        match next_b {
            None => {
                return false;
            },
            Some(y) => {
                match next_a {
                    None => {
                        return true;
                    },
                    Some(x) => {
                        if x != y {
                            return x < y;
                        }
                        proof {
                            assert(a@.skip(at).drop_first() =~= a@.skip(at + 1));
                            assert(b@.skip(at).drop_first() =~= b@.skip(at + 1));
                            at = at + 1;
                        }
                    },
                }
            },
        }
    }
}

/// Whether the two strings hold the same text.
pub fn same_text(a: &str, b: &str) -> (same: bool)
    ensures
        same == (a@ == b@),
{
    let mut rest_a = a.chars();
    let mut rest_b = b.chars();
    let ghost mut at: int = 0;
    loop
        invariant
            0 <= at <= a@.len(),
            at <= b@.len(),
            rest_a.remaining() == a@.skip(at),
            rest_b.remaining() == b@.skip(at),
            a@.take(at) == b@.take(at),
            rest_a.decrease() is Some,
        decreases rest_a.decrease()->0,
    {
        let next_a = rest_a.next();
        let next_b = rest_b.next();
        match (next_a, next_b) {
            (None, None) => {
                proof {
                    assert(a@ =~= a@.take(at));
                    assert(b@ =~= b@.take(at));
                }
                return true;
            },
            (Some(x), Some(y)) => {
                if x != y {
                    assert(a@[at] != b@[at]);
                    return false;
                }
                proof {
                    assert(a@.skip(at).drop_first() =~= a@.skip(at + 1));
                    assert(b@.skip(at).drop_first() =~= b@.skip(at + 1));
                    assert(a@.take(at + 1) =~= a@.take(at).push(x));
                    assert(b@.take(at + 1) =~= b@.take(at).push(y));
                    at = at + 1;
                }
            },
            _ => {
                assert(a@.len() != b@.len());
                return false;
            },
        }
    }
}

/// Whether `text` begins with `prefix`.
pub fn starts_with(text: &str, prefix: &str) -> (found: bool)
    ensures
        found == prefix@.is_prefix_of(text@),
{
    let mut rest_text = text.chars();
    let mut rest_prefix = prefix.chars();
    let ghost mut at: int = 0;
    loop
        invariant
            0 <= at <= text@.len(),
            at <= prefix@.len(),
            rest_text.remaining() == text@.skip(at),
            rest_prefix.remaining() == prefix@.skip(at),
            text@.take(at) == prefix@.take(at),
            rest_prefix.decrease() is Some,
        decreases rest_prefix.decrease()->0,
    {
        match rest_prefix.next() {
            None => {
                proof {
                    assert(prefix@ =~= prefix@.take(at));
                    assert(text@.take(at) =~= text@.subrange(0, prefix@.len() as int));
                }
                return true;
            },
            Some(p) => {
                match rest_text.next() {
                    None => {
                        return false;
                    },
                    Some(c) => {
                        if c != p {
                            proof {
                                if prefix@.is_prefix_of(text@) {
                                    assert(text@.subrange(0, prefix@.len() as int)[at]
                                        == text@[at]);
                                }
                            }
                            return false;
                        }
                        proof {
                            assert(text@.skip(at).drop_first() =~= text@.skip(at + 1));
                            assert(prefix@.skip(at).drop_first() =~= prefix@.skip(at + 1));
                            assert(text@.take(at + 1) =~= text@.take(at).push(c));
                            assert(prefix@.take(at + 1) =~= prefix@.take(at).push(p));
                            at = at + 1;
                        }
                    },
                }
            },
        }
    }
}

/// The string that holds the given characters.
pub fn string_of(chars: &Vec<char>) -> (text: String)
    ensures
        text@ == chars@,
{
    let mut text = String::new();
    let mut i: usize = 0;
    while i < chars.len()
        invariant
            i <= chars.len(),
            text@ == chars@.take(i as int),
        decreases chars.len() - i,
    {
        push_char(&mut text, chars[i]);
        assert(chars@.take(i + 1) =~= chars@.take(i as int).push(chars@[i as int]));
        i += 1;
    }
    assert(chars@.take(chars.len() as int) =~= chars@);
    text
}

/// Whether `needle` stands in `hay` at position `at`.
pub fn found_at(hay: &Vec<char>, needle: &Vec<char>, at: usize) -> (found: bool)
    ensures
        found == occurs_at(needle@, hay@, at as int),
{
    if needle.len() > hay.len() || at > hay.len() - needle.len() {
        return false;
    }
    let mut i: usize = 0;
    while i < needle.len()
        invariant
            i <= needle.len(),
            at + needle.len() <= hay.len(),
            forall|k: int| 0 <= k < i ==> hay@[at + k] == needle@[k],
        decreases needle.len() - i,
    {
        if hay[at + i] != needle[i] {
            assert(hay@.subrange(at as int, at + needle.len())[i as int] != needle@[i as int]);
            return false;
        }
        i += 1;
    }
    assert(hay@.subrange(at as int, at + needle.len()) =~= needle@);
    true
}

/// Whether `needle` occurs anywhere in `hay`.
pub fn contains(hay: &Vec<char>, needle: &Vec<char>) -> (found: bool)
    ensures
        found == occurs_in(needle@, hay@),
{
    if needle.len() > hay.len() {
        return false;
    }
    let last: usize = hay.len() - needle.len();
    let mut at: usize = 0;
    loop
        invariant
            last == hay.len() - needle.len(),
            at <= last,
            forall|k: int| 0 <= k < at ==> !occurs_at(needle@, hay@, k),
        decreases last - at,
    {
        if found_at(hay, needle, at) {
            return true;
        }
        if at == last {
            return false;
        }
        at += 1;
    }
}

/// `text` with every occurrence of `from` replaced by `to`. With an empty
/// `from` the text comes back unchanged.
pub fn replace(text: &str, from: &str, to: &str) -> (result: String)
    ensures
        result@ == replaced(text@, from@, to@),
{
    let source = chars_of(text);
    let pattern = chars_of(from);
    let mut result = String::new();
    if pattern.len() == 0 {
        result.append(text);
        assert(result@ =~= text@);
        return result;
    }
    let mut i: usize = 0;
    assert(result@ + replaced(text@.skip(0), from@, to@) =~= replaced(text@, from@, to@)) by {
        assert(text@.skip(0) =~= text@);
    }
    while i < source.len()
        invariant
            i <= source.len(),
            source@ == text@,
            pattern@ == from@,
            pattern.len() > 0,
            result@ + replaced(text@.skip(i as int), from@, to@) == replaced(text@, from@, to@),
        decreases source.len() - i,
    {
        let ghost rest = text@.skip(i as int);
        let ghost before = result@;
        if found_at(&source, &pattern, i) {
            proof {
                assert(rest.subrange(0, pattern.len() as int) =~= source@.subrange(
                    i as int,
                    i + pattern.len(),
                ));
                assert(from@.is_prefix_of(rest));
                assert(rest.skip(pattern.len() as int) =~= text@.skip(i + pattern.len()));
            }
            result.append(to);
            i += pattern.len();
            assert(result@ + replaced(text@.skip(i as int), from@, to@) =~= before + (to@
                + replaced(text@.skip(i as int), from@, to@)));
        } else {
            proof {
                if from@.is_prefix_of(rest) {
                    assert(rest.subrange(0, pattern.len() as int) =~= source@.subrange(
                        i as int,
                        i + pattern.len(),
                    ));
                }
                assert(rest.drop_first() =~= text@.skip(i + 1));
            }
            push_char(&mut result, source[i]);
            i += 1;
            assert(result@ + replaced(text@.skip(i as int), from@, to@) =~= before + (seq![rest[0]]
                + replaced(text@.skip(i as int), from@, to@)));
        }
    }
    assert(result@ + replaced(text@.skip(i as int), from@, to@) =~= result@);
    result
}

/// The strings joined with `separator` between each two neighbours.
pub fn join(parts: &Vec<String>, separator: &str) -> (result: String)
    ensures
        result@ == joined(parts.deep_view(), separator@),
{
    let mut result = String::new();
    let mut i: usize = 0;
    while i < parts.len()
        invariant
            i <= parts.len(),
            result@ == joined(parts.deep_view().take(i as int), separator@),
        decreases parts.len() - i,
    {
        let ghost done = parts.deep_view().take(i as int);
        let ghost next = parts.deep_view().take(i + 1);
        proof {
            assert(next.drop_last() =~= done);
            assert(next.last() == parts@[i as int]@);
        }
        if i > 0 {
            result.append(separator);
        }
        result.append(parts[i].as_str());
        proof {
            if i == 0 {
                assert(result@ =~= parts@[0]@);
            }
        }
        i += 1;
    }
    assert(parts.deep_view().take(parts.len() as int) =~= parts.deep_view());
    result
}

/// The character for a single digit.
pub open spec fn digit_char(digit: nat) -> char {
    if digit == 0 {
        '0'
    } else if digit == 1 {
        '1'
    } else if digit == 2 {
        '2'
    } else if digit == 3 {
        '3'
    } else if digit == 4 {
        '4'
    } else if digit == 5 {
        '5'
    } else if digit == 6 {
        '6'
    } else if digit == 7 {
        '7'
    } else if digit == 8 {
        '8'
    } else {
        '9'
    }
}

/// The number in decimal digits, without leading zeros.
pub open spec fn decimal_digits(number: nat) -> Seq<char>
    decreases number,
{
    if number < 10 {
        seq![digit_char(number)]
    } else {
        decimal_digits(number / 10).push(digit_char(number % 10))
    }
}

/// The character for a single digit.
fn digit(value: u32) -> (c: char)
    requires
        value < 10,
    ensures
        c == digit_char(value as nat),
{
    if value == 0 {
        '0'
    } else if value == 1 {
        '1'
    } else if value == 2 {
        '2'
    } else if value == 3 {
        '3'
    } else if value == 4 {
        '4'
    } else if value == 5 {
        '5'
    } else if value == 6 {
        '6'
    } else if value == 7 {
        '7'
    } else if value == 8 {
        '8'
    } else {
        '9'
    }
}

/// Adds the number in decimal digits to the end of `text`.
pub fn push_decimal(text: &mut String, number: u32)
    ensures
        final(text)@ == old(text)@ + decimal_digits(number as nat),
    decreases number,
{
    if number >= 10 {
        push_decimal(text, number / 10);
    }
    push_char(text, digit(number % 10));
    assert(text@ =~= old(text)@ + decimal_digits(number as nat));
}

} // verus!
