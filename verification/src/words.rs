//! Taking text apart: trimming, splitting, matching and escaping.

use crate::text::{chars_of, digit_value, slice};
use vstd::prelude::*;

verus! {

/// Unicode's `White_Space`.
pub open spec fn whitespace(c: char) -> bool {
    ||| '\t' <= c && c <= '\r'
    ||| c == ' '
    ||| c == '\u{85}'
    ||| c == '\u{a0}'
    ||| c == '\u{1680}'
    ||| '\u{2000}' <= c && c <= '\u{200a}'
    ||| c == '\u{2028}'
    ||| c == '\u{2029}'
    ||| c == '\u{202f}'
    ||| c == '\u{205f}'
    ||| c == '\u{3000}'
}

fn is_space(c: char) -> (r: bool)
    ensures
        r == whitespace(c),
{
    ('\t' <= c && c <= '\r') || c == ' ' || c == '\u{85}' || c == '\u{a0}' || c == '\u{1680}' || (
    '\u{2000}' <= c && c <= '\u{200a}') || c == '\u{2028}' || c == '\u{2029}' || c == '\u{202f}'
        || c == '\u{205f}' || c == '\u{3000}'
}

pub open spec fn trim_start(s: Seq<char>) -> Seq<char>
    decreases s.len(),
{
    if s.len() > 0 && whitespace(s[0]) {
        trim_start(s.drop_first())
    } else {
        s
    }
}

pub open spec fn trim_end(s: Seq<char>) -> Seq<char>
    decreases s.len(),
{
    if s.len() > 0 && whitespace(s.last()) {
        trim_end(s.drop_last())
    } else {
        s
    }
}

pub open spec fn trim(s: Seq<char>) -> Seq<char> {
    trim_end(trim_start(s))
}

fn skip_space(chars: &Vec<char>, from: usize) -> (r: usize)
    requires
        from <= chars@.len(),
    ensures
        from <= r <= chars@.len(),
        trim_start(chars@.skip(from as int)) == chars@.skip(r as int),
{
    let mut i: usize = from;
    while i < chars.len() && is_space(chars[i])
        invariant
            from <= i <= chars@.len(),
            trim_start(chars@.skip(from as int)) == trim_start(chars@.skip(i as int)),
        decreases chars@.len() - i,
    {
        assert(chars@.skip(i as int).drop_first() =~= chars@.skip(i + 1));
        i += 1;
    }
    i
}

fn drop_space(chars: &Vec<char>, from: usize, to: usize) -> (r: usize)
    requires
        from <= to <= chars@.len(),
    ensures
        from <= r <= to,
        trim_end(chars@.subrange(from as int, to as int)) == chars@.subrange(
            from as int,
            r as int,
        ),
{
    let mut i: usize = to;
    while i > from && is_space(chars[i - 1])
        invariant
            from <= i <= to <= chars@.len(),
            trim_end(chars@.subrange(from as int, to as int)) == trim_end(
                chars@.subrange(from as int, i as int),
            ),
        decreases i,
    {
        assert(chars@.subrange(from as int, i as int).drop_last() =~= chars@.subrange(
            from as int,
            i - 1,
        ));
        i -= 1;
    }
    i
}

pub fn trimmed(s: &str) -> (r: String)
    ensures
        r@ == trim(s@),
{
    let chars = chars_of(s);
    let start = skip_space(&chars, 0);
    let end = drop_space(&chars, start, chars.len());
    assert(chars@.skip(0) =~= s@);
    assert(chars@.skip(start as int) =~= chars@.subrange(start as int, chars@.len() as int));
    slice(chars.as_slice(), start, end)
}

pub fn trimmed_end(s: &str) -> (r: String)
    ensures
        r@ == trim_end(s@),
{
    let chars = chars_of(s);
    let end = drop_space(&chars, 0, chars.len());
    assert(chars@.subrange(0, chars@.len() as int) =~= s@);
    slice(chars.as_slice(), 0, end)
}

/// Where `c` first stands, or the length where it does not.
pub open spec fn first(s: Seq<char>, c: char) -> int
    decreases s.len(),
{
    if s.len() == 0 || s[0] == c {
        0
    } else {
        1 + first(s.drop_first(), c)
    }
}

pub proof fn lemma_first(s: Seq<char>, c: char)
    ensures
        0 <= first(s, c) <= s.len(),
        first(s, c) < s.len() ==> s[first(s, c)] == c,
        forall|i: int| 0 <= i < first(s, c) ==> s[i] != c,
    decreases s.len(),
{
    if s.len() > 0 && s[0] != c {
        lemma_first(s.drop_first(), c);
        let k = first(s.drop_first(), c);
        if k < s.drop_first().len() {
            assert(s.drop_first()[k] == s[k + 1]);
        }
        assert forall|i: int| 0 <= i < k + 1 implies s[i] != c by {
            if i > 0 {
                assert(s.drop_first()[i - 1] == s[i]);
            }
        }
    }
}

fn index_of(chars: &Vec<char>, c: char) -> (r: usize)
    ensures
        r == first(chars@, c),
        r <= chars@.len(),
{
    let mut i: usize = 0;
    assert(chars@.skip(0) =~= chars@);
    while i < chars.len() && chars[i] != c
        invariant
            i <= chars@.len(),
            first(chars@, c) == i + first(chars@.skip(i as int), c),
        decreases chars@.len() - i,
    {
        assert(chars@.skip(i as int).drop_first() =~= chars@.skip(i + 1));
        i += 1;
    }
    i
}

/// What stands before the first `c`, or all of it.
pub open spec fn before(s: Seq<char>, c: char) -> Seq<char> {
    s.take(first(s, c))
}

/// What stands after the first `c`, if there is one.
pub open spec fn after(s: Seq<char>, c: char) -> Option<Seq<char>> {
    if first(s, c) < s.len() {
        Some(s.skip(first(s, c) + 1))
    } else {
        None
    }
}

pub fn text_before(s: &str, c: char) -> (r: String)
    ensures
        r@ == before(s@, c),
{
    let chars = chars_of(s);
    let at = index_of(&chars, c);
    assert(chars@.subrange(0, at as int) =~= chars@.take(at as int));
    slice(chars.as_slice(), 0, at)
}

pub fn text_after(s: &str, c: char) -> (r: Option<String>)
    ensures
        match r {
            Some(rest) => after(s@, c) == Some(rest@),
            None => after(s@, c) is None,
        },
{
    let chars = chars_of(s);
    let at = index_of(&chars, c);
    if at < chars.len() {
        assert(chars@.subrange(at + 1, chars@.len() as int) =~= chars@.skip(at + 1));
        Some(slice(chars.as_slice(), at + 1, chars.len()))
    } else {
        None
    }
}

/// How far a word runs.
pub open spec fn span(s: Seq<char>) -> int
    decreases s.len(),
{
    if s.len() == 0 || whitespace(s[0]) {
        0
    } else {
        1 + span(s.drop_first())
    }
}

/// The `n`-th of the words that white space parts.
pub open spec fn word(s: Seq<char>, n: nat) -> Option<Seq<char>>
    decreases n,
{
    let t = trim_start(s);
    if t.len() == 0 {
        None
    } else if n == 0 {
        Some(t.take(span(t)))
    } else {
        word(t.skip(span(t)), (n - 1) as nat)
    }
}

fn span_of(chars: &Vec<char>, from: usize) -> (r: usize)
    requires
        from <= chars@.len(),
    ensures
        from <= r <= chars@.len(),
        r - from == span(chars@.skip(from as int)),
{
    let mut i: usize = from;
    while i < chars.len() && !is_space(chars[i])
        invariant
            from <= i <= chars@.len(),
            span(chars@.skip(from as int)) == (i - from) + span(chars@.skip(i as int)),
        decreases chars@.len() - i,
    {
        assert(chars@.skip(i as int).drop_first() =~= chars@.skip(i + 1));
        i += 1;
    }
    i
}

/// The first word.
pub fn first_word(s: &str) -> (r: Option<String>)
    ensures
        match r {
            Some(found) => word(s@, 0) == Some(found@),
            None => word(s@, 0) is None,
        },
{
    let chars = chars_of(s);
    assert(chars@.skip(0) =~= s@);
    let a = skip_space(&chars, 0);
    if a == chars.len() {
        assert(chars@.skip(a as int).len() == 0);
        return None;
    }
    let b = span_of(&chars, a);
    assert(chars@.skip(a as int).take(b - a) =~= chars@.subrange(a as int, b as int));
    Some(slice(chars.as_slice(), a, b))
}

/// The second word.
pub fn second_word(s: &str) -> (r: Option<String>)
    ensures
        match r {
            Some(found) => word(s@, 1) == Some(found@),
            None => word(s@, 1) is None,
        },
{
    let chars = chars_of(s);
    assert(chars@.skip(0) =~= s@);
    proof {
        reveal_with_fuel(word, 2);
    }
    let a = skip_space(&chars, 0);
    if a == chars.len() {
        assert(chars@.skip(a as int).len() == 0);
        return None;
    }
    let b = span_of(&chars, a);
    assert(chars@.skip(a as int).skip(b - a) =~= chars@.skip(b as int));
    let c = skip_space(&chars, b);
    if c == chars.len() {
        assert(chars@.skip(c as int).len() == 0);
        return None;
    }
    let d = span_of(&chars, c);
    assert(chars@.skip(c as int).take(d - c) =~= chars@.subrange(c as int, d as int));
    Some(slice(chars.as_slice(), c, d))
}

pub open spec fn lower_char(c: char) -> char {
    if 'A' <= c && c <= 'Z' {
        (c as nat + 32) as char
    } else {
        c
    }
}

/// ASCII letters in lower case, everything else as it is.
pub open spec fn lower(s: Seq<char>) -> Seq<char> {
    Seq::new(s.len(), |i: int| lower_char(s[i]))
}

pub fn lowered(s: &str) -> (r: String)
    ensures
        r@ == lower(s@),
{
    let chars = chars_of(s);
    let mut out = String::new();
    let mut i: usize = 0;
    while i < chars.len()
        invariant
            i <= chars@.len(),
            chars@ == s@,
            out@ == lower(s@).take(i as int),
        decreases chars@.len() - i,
    {
        let c = chars[i];
        let d = if 'A' <= c && c <= 'Z' {
            (c as u8 + 32) as char
        } else {
            c
        };
        assert(d == lower_char(c));
        out.push(d);
        i += 1;
        assert(lower(s@).take(i as int) =~= lower(s@).take(i - 1).push(lower(s@)[i - 1]));
    }
    assert(lower(s@).take(i as int) =~= lower(s@));
    out
}

/// `part` stands somewhere in `s`.
pub open spec fn contains(s: Seq<char>, part: Seq<char>) -> bool {
    exists|i: int|
        0 <= i <= s.len() - part.len() && #[trigger] s.subrange(i, i + part.len()) == part
}

pub fn has_part(s: &str, part: &str) -> (r: bool)
    ensures
        r == contains(s@, part@),
{
    let chars = chars_of(s);
    let wanted = chars_of(part);
    if wanted.len() > chars.len() {
        return false;
    }
    let last = chars.len() - wanted.len();
    let mut i: usize = 0;
    loop
        invariant
            i <= last,
            last == chars@.len() - wanted@.len(),
            wanted@.len() <= chars@.len(),
            chars@ == s@,
            wanted@ == part@,
            forall|j: int| 0 <= j < i ==> #[trigger] s@.subrange(j, j + part@.len()) != part@,
        decreases last - i,
    {
        let mut k: usize = 0;
        while k < wanted.len() && chars[i + k] == wanted[k]
            invariant
                k <= wanted@.len(),
                i <= last,
                last == chars@.len() - wanted@.len(),
                i + wanted.len() <= chars.len(),
                forall|j: int| 0 <= j < k ==> chars@[i + j] == wanted@[j],
            decreases wanted@.len() - k,
        {
            k += 1;
        }
        if k == wanted.len() {
            assert(s@.subrange(i as int, i + part@.len()) =~= part@);
            return true;
        }
        assert(s@.subrange(i as int, i + part@.len())[k as int] == chars@[i + k]);
        if i == last {
            return false;
        }
        i += 1;
    }
}

pub open spec fn starts_with(s: Seq<char>, prefix: Seq<char>) -> bool {
    prefix.len() <= s.len() && s.take(prefix.len() as int) == prefix
}

/// What follows `prefix`, where `s` starts with it.
pub fn strip_prefix(s: &str, prefix: &str) -> (r: Option<String>)
    ensures
        match r {
            Some(rest) => starts_with(s@, prefix@) && rest@ == s@.skip(prefix@.len() as int),
            None => !starts_with(s@, prefix@),
        },
{
    let chars = chars_of(s);
    let wanted = chars_of(prefix);
    if wanted.len() > chars.len() {
        return None;
    }
    let mut k: usize = 0;
    while k < wanted.len()
        invariant
            k <= wanted@.len() <= chars@.len(),
            chars@ == s@,
            wanted@ == prefix@,
            forall|j: int| 0 <= j < k ==> chars@[j] == wanted@[j],
        decreases wanted@.len() - k,
    {
        if chars[k] != wanted[k] {
            assert(s@.take(prefix@.len() as int)[k as int] != prefix@[k as int]);
            return None;
        }
        k += 1;
    }
    assert(s@.take(prefix@.len() as int) =~= prefix@);
    assert(chars@.subrange(k as int, chars@.len() as int) =~= s@.skip(k as int));
    Some(slice(chars.as_slice(), k, chars.len()))
}

// ---------------------------------------------------------------------
// Bytes.

/// Where `b` first stands, or the length where it does not.
pub open spec fn first_byte(s: Seq<u8>, b: u8) -> int
    decreases s.len(),
{
    if s.len() == 0 || s[0] == b {
        0
    } else {
        1 + first_byte(s.drop_first(), b)
    }
}

pub fn index_of_byte(bytes: &[u8], b: u8) -> (r: usize)
    ensures
        r == first_byte(bytes@, b),
        r <= bytes@.len(),
{
    let mut i: usize = 0;
    assert(bytes@.skip(0) =~= bytes@);
    while i < bytes.len() && bytes[i] != b
        invariant
            i <= bytes@.len(),
            first_byte(bytes@, b) == i + first_byte(bytes@.skip(i as int), b),
        decreases bytes@.len() - i,
    {
        assert(bytes@.skip(i as int).drop_first() =~= bytes@.skip(i + 1));
        i += 1;
    }
    i
}

/// Bytes as text, where what is not UTF-8 is replaced.
pub uninterp spec fn lossy(bytes: Seq<u8>) -> Seq<char>;

/// `String::from_utf8_lossy`: bytes that are UTF-8 come out as the text they
/// are.
#[verifier::external_body]
pub(crate) fn text_lossy(bytes: &[u8]) -> (r: String)
    ensures
        r@ == lossy(bytes@),
        vstd::utf8::valid_utf8(bytes@) ==> r@ == vstd::utf8::decode_utf8(bytes@),
{
    String::from_utf8_lossy(bytes).into_owned()
}

/// Why bytes are not UTF-8, in words.
pub uninterp spec fn utf8_fault(bytes: Seq<u8>) -> Seq<char>;

/// `std::str::from_utf8`: the text that bytes are, where they are UTF-8, and
/// else the message of the error, which is up to the bytes alone.
#[verifier::external_body]
pub(crate) fn text_exact(bytes: &[u8]) -> (r: Result<String, String>)
    ensures
        match r {
            Ok(text) => vstd::utf8::valid_utf8(bytes@) && text@ == vstd::utf8::decode_utf8(bytes@),
            Err(why) => !vstd::utf8::valid_utf8(bytes@) && why@ == utf8_fault(bytes@),
        },
{
    std::str::from_utf8(bytes).map(|text| text.to_owned()).map_err(|e| e.to_string())
}

// ---------------------------------------------------------------------
// Percent-encoding.

/// What needs no escaping in a query value.
pub open spec fn unreserved(b: u8) -> bool {
    ||| 'A' as u8 <= b <= 'Z' as u8
    ||| 'a' as u8 <= b <= 'z' as u8
    ||| '0' as u8 <= b <= '9' as u8
    ||| b == '-' as u8
    ||| b == '_' as u8
    ||| b == '.' as u8
    ||| b == '~' as u8
}

pub open spec fn upper_hex(d: nat) -> char {
    if d < 10 {
        ('0' as nat + d) as char
    } else {
        ('A' as nat + d - 10) as char
    }
}

pub open spec fn escaped_byte(b: u8) -> Seq<char> {
    if unreserved(b) {
        seq![b as char]
    } else {
        seq!['%', upper_hex((b / 16) as nat), upper_hex((b % 16) as nat)]
    }
}

/// Every byte that is not plainly safe as a percent sign and two digits.
pub open spec fn escaped(bytes: Seq<u8>) -> Seq<char>
    decreases bytes.len(),
{
    if bytes.len() == 0 {
        Seq::empty()
    } else {
        escaped(bytes.drop_last()) + escaped_byte(bytes.last())
    }
}

/// The bytes that percent-encoded text stands for.
pub open spec fn unescaped(s: Seq<char>) -> Seq<u8>
    decreases s.len(),
{
    if s.len() == 0 {
        Seq::empty()
    } else if s[0] == '%' && s.len() >= 3 {
        seq![(digit_value(s[1]) * 16 + digit_value(s[2])) as u8] + unescaped(s.skip(3))
    } else {
        seq![s[0] as u8] + unescaped(s.drop_first())
    }
}

fn upper_hex_of(d: u8) -> (r: char)
    requires
        d < 16,
    ensures
        r == upper_hex(d as nat),
{
    if d < 10 {
        ('0' as u8 + d) as char
    } else {
        ('A' as u8 + (d - 10)) as char
    }
}

/// Percent-encode everything that is not plainly safe in a query value.
pub fn escape(value: &str) -> (r: String)
    ensures
        r@ == escaped(vstd::utf8::encode_utf8(value@)),
{
    let bytes = value.as_bytes();
    let mut out = String::new();
    let mut i: usize = 0;
    assert(bytes@.take(0) =~= Seq::empty());
    while i < bytes.len()
        invariant
            i <= bytes@.len(),
            out@ == escaped(bytes@.take(i as int)),
        decreases bytes@.len() - i,
    {
        let b = bytes[i];
        assert(bytes@.take(i + 1).drop_last() =~= bytes@.take(i as int));
        let ghost so_far = out@;
        let plain = ('A' as u8 <= b && b <= 'Z' as u8) || ('a' as u8 <= b && b <= 'z' as u8) || (
        '0' as u8 <= b && b <= '9' as u8) || b == '-' as u8 || b == '_' as u8 || b == '.' as u8
            || b == '~' as u8;
        if plain {
            out.push(b as char);
            assert(out@ =~= so_far + escaped_byte(b));
        } else {
            out.push('%');
            out.push(upper_hex_of(b / 16));
            out.push(upper_hex_of(b % 16));
            assert(out@ =~= so_far + escaped_byte(b));
        }
        i += 1;
    }
    assert(bytes@.take(i as int) =~= bytes@);
    out
}

proof fn lemma_unescaped_byte(b: u8, rest: Seq<char>)
    ensures
        unescaped(escaped_byte(b) + rest) == seq![b] + unescaped(rest),
{
    let s = escaped_byte(b) + rest;
    if unreserved(b) {
        assert(s.drop_first() =~= rest);
        assert(s[0] == b as char);
    } else {
        assert(s.skip(3) =~= rest);
        assert(s[0] == '%');
        assert(s[1] == upper_hex((b / 16) as nat));
        assert(s[2] == upper_hex((b % 16) as nat));
        assert(digit_value(upper_hex((b / 16) as nat)) == b / 16);
        assert(digit_value(upper_hex((b % 16) as nat)) == b % 16);
        assert((b / 16) * 16 + b % 16 == b);
    }
}

proof fn lemma_unescaped(bytes: Seq<u8>, rest: Seq<char>)
    ensures
        unescaped(escaped(bytes) + rest) == bytes + unescaped(rest),
    decreases bytes.len(),
{
    if bytes.len() == 0 {
        assert(escaped(bytes) + rest =~= rest);
        assert(bytes + unescaped(rest) =~= unescaped(rest));
    } else {
        let b = bytes.last();
        assert(escaped(bytes) + rest =~= escaped(bytes.drop_last()) + (escaped_byte(b) + rest));
        lemma_unescaped(bytes.drop_last(), escaped_byte(b) + rest);
        lemma_unescaped_byte(b, rest);
        assert(bytes =~= bytes.drop_last().push(b));
        assert(bytes.drop_last() + (seq![b] + unescaped(rest)) =~= bytes + unescaped(rest));
    }
}

/// Names survive the query: escaping loses nothing, and what it writes holds
/// nothing that could end a query value, a path or a header.
pub proof fn names_survive_escaping(name: Seq<char>)
    ensures
        vstd::utf8::decode_utf8(unescaped(escaped(vstd::utf8::encode_utf8(name)))) == name,
        forall|i: int|
            0 <= i < escaped(vstd::utf8::encode_utf8(name)).len() ==> {
                let c = #[trigger] escaped(vstd::utf8::encode_utf8(name))[i];
                c == '%' || (c <= '\x7f' && unreserved(c as u8))
            },
{
    let bytes = vstd::utf8::encode_utf8(name);
    lemma_unescaped(bytes, Seq::empty());
    assert(escaped(bytes) + Seq::<char>::empty() =~= escaped(bytes));
    assert(bytes + unescaped(Seq::empty()) =~= bytes);
    vstd::utf8::encode_utf8_decode_utf8(name);
    lemma_escaped_is_safe(bytes);
}

proof fn lemma_escaped_is_safe(bytes: Seq<u8>)
    ensures
        forall|i: int|
            0 <= i < escaped(bytes).len() ==> {
                let c = #[trigger] escaped(bytes)[i];
                c == '%' || (c <= '\x7f' && unreserved(c as u8))
            },
    decreases bytes.len(),
{
    if bytes.len() > 0 {
        lemma_escaped_is_safe(bytes.drop_last());
        let head = escaped(bytes.drop_last());
        let b = bytes.last();
        assert forall|i: int| 0 <= i < escaped(bytes).len() implies {
            let c = #[trigger] escaped(bytes)[i];
            c == '%' || (c <= '\x7f' && unreserved(c as u8))
        } by {
            if i < head.len() {
                assert(escaped(bytes)[i] == head[i]);
            } else {
                assert(escaped(bytes)[i] == escaped_byte(b)[i - head.len()]);
            }
        }
    }
}

// ---------------------------------------------------------------------
// What taking text apart leaves.

/// Of the ASCII characters, tabs, line breaks, form feeds and spaces are white
/// space, and nothing else is.
pub proof fn ascii_white_space(c: char)
    requires
        c <= '\x7f',
    ensures
        whitespace(c) <==> c == ' ' || c == '\t' || c == '\n' || c == '\r' || c == '\x0b' || c
            == '\x0c',
{
}

pub(crate) proof fn lemma_trim_start(lead: Seq<char>, s: Seq<char>)
    requires
        forall|i: int| 0 <= i < lead.len() ==> whitespace(#[trigger] lead[i]),
        s.len() > 0 ==> !whitespace(s[0]),
    ensures
        trim_start(lead + s) == s,
    decreases lead.len(),
{
    let all = lead + s;
    if lead.len() == 0 {
        assert(all =~= s);
    } else {
        assert(whitespace(lead[0]));
        assert(all.drop_first() =~= lead.drop_first() + s);
        lemma_trim_start(lead.drop_first(), s);
    }
}

pub(crate) proof fn lemma_trim_end(s: Seq<char>, tail: Seq<char>)
    requires
        forall|i: int| 0 <= i < tail.len() ==> whitespace(#[trigger] tail[i]),
        s.len() > 0 ==> !whitespace(s.last()),
    ensures
        trim_end(s + tail) == s,
    decreases tail.len(),
{
    let all = s + tail;
    if tail.len() == 0 {
        assert(all =~= s);
    } else {
        assert(whitespace(tail[tail.len() - 1]));
        assert(all.last() == tail.last());
        assert(all.drop_last() =~= s + tail.drop_last());
        lemma_trim_end(s, tail.drop_last());
    }
}

/// Trimming takes off the white space at both ends and nothing else; trimming
/// the end alone leaves what stands in front.
pub proof fn trimming_takes_off_white_space(lead: Seq<char>, s: Seq<char>, tail: Seq<char>)
    requires
        forall|i: int| 0 <= i < lead.len() ==> whitespace(#[trigger] lead[i]),
        forall|i: int| 0 <= i < tail.len() ==> whitespace(#[trigger] tail[i]),
        s.len() > 0 ==> !whitespace(s[0]) && !whitespace(s.last()),
    ensures
        trim(lead + s + tail) == s,
        s.len() > 0 ==> trim_end(lead + s + tail) == lead + s,
        trim_end(tail) == Seq::<char>::empty(),
{
    lemma_trim_end(Seq::empty(), tail);
    assert(Seq::<char>::empty() + tail =~= tail);
    if s.len() > 0 {
        assert(lead + s + tail =~= lead + (s + tail));
        lemma_trim_start(lead, s + tail);
        lemma_trim_end(s, tail);
        assert((lead + s).last() == s.last());
        lemma_trim_end(lead + s, tail);
    } else {
        let all = lead + s + tail;
        assert forall|i: int| 0 <= i < all.len() implies whitespace(#[trigger] all[i]) by {
            if i < lead.len() {
                assert(all[i] == lead[i]);
            } else {
                assert(all[i] == tail[i - lead.len()]);
            }
        }
        assert(all =~= all + Seq::<char>::empty());
        lemma_trim_start(all, Seq::empty());
        assert(s =~= Seq::<char>::empty());
    }
}

/// Text is parted at the first of a character: what stands before does not hold
/// it, and both parts with it in between are the text. Where it does not occur,
/// all of the text stands before it.
pub proof fn text_is_parted_at_the_first(front: Seq<char>, c: char, back: Seq<char>)
    requires
        !front.contains(c),
    ensures
        before(front.push(c) + back, c) == front,
        after(front.push(c) + back, c) == Some(back),
        before(front, c) == front,
        after(front, c) is None,
        first(front, c) == front.len(),
        first(front.push(c) + back, c) == front.len(),
{
    let s = front.push(c) + back;
    lemma_first(s, c);
    lemma_first(front, c);
    assert(s[front.len() as int] == c);
    if first(s, c) < front.len() {
        assert(front[first(s, c)] == c);
    }
    if first(front, c) < front.len() {
        assert(front[first(front, c)] == c);
    }
    assert(s.take(front.len() as int) =~= front);
    assert(s.skip((front.len() + 1) as int) =~= back);
    assert(front.take(front.len() as int) =~= front);
}

/// Bytes are searched for the first that is wanted.
pub proof fn bytes_are_found_at_the_first(front: Seq<u8>, b: u8, back: Seq<u8>)
    requires
        !front.contains(b),
    ensures
        first_byte(front.push(b) + back, b) == front.len(),
        first_byte(front, b) == front.len(),
    decreases front.len(),
{
    let s = front.push(b) + back;
    if front.len() == 0 {
        assert(s[0] == b);
    } else {
        assert(s[0] == front[0]);
        assert(front.contains(front[0]));
        assert(s.drop_first() =~= front.drop_first().push(b) + back);
        assert forall|i: int| 0 <= i < front.len() - 1 implies front.drop_first()[i] != b by {
            assert(front.contains(front[i + 1]));
        }
        bytes_are_found_at_the_first(front.drop_first(), b, back);
    }
}

pub(crate) proof fn lemma_span(w: Seq<char>, rest: Seq<char>)
    requires
        forall|i: int| 0 <= i < w.len() ==> !whitespace(#[trigger] w[i]),
        rest.len() > 0 ==> whitespace(rest[0]),
    ensures
        span(w + rest) == w.len(),
    decreases w.len(),
{
    let s = w + rest;
    if w.len() == 0 {
        assert(s =~= rest);
    } else {
        assert(!whitespace(w[0]));
        assert(s.drop_first() =~= w.drop_first() + rest);
        lemma_span(w.drop_first(), rest);
    }
}

/// Words are what white space parts: the first of a line is the first run of
/// other characters, the second is the run after it, and white space in front
/// is skipped.
pub proof fn words_are_what_white_space_parts(
    lead: Seq<char>,
    w: Seq<char>,
    gap: Seq<char>,
    v: Seq<char>,
    rest: Seq<char>,
)
    requires
        forall|i: int| 0 <= i < lead.len() ==> whitespace(#[trigger] lead[i]),
        forall|i: int| 0 <= i < w.len() ==> !whitespace(#[trigger] w[i]),
        forall|i: int| 0 <= i < gap.len() ==> whitespace(#[trigger] gap[i]),
        forall|i: int| 0 <= i < v.len() ==> !whitespace(#[trigger] v[i]),
        rest.len() > 0 ==> whitespace(rest[0]),
        w.len() > 0,
        gap.len() > 0,
        v.len() > 0,
    ensures
        word(lead, 0) is None,
        word(lead + w + gap, 1) is None,
        word(lead + (w + (gap + (v + rest))), 0) == Some(w),
        word(lead + (w + (gap + (v + rest))), 1) == Some(v),
{
    reveal_with_fuel(word, 2);
    let none = Seq::<char>::empty();
    let tail = gap + (v + rest);
    assert(!whitespace(w[0]) && !whitespace(v[0]) && whitespace(gap[0]));
    assert(lead + none =~= lead);
    lemma_trim_start(lead, none);
    assert(tail[0] == gap[0]);
    assert((w + tail)[0] == w[0]);
    lemma_trim_start(lead, w + tail);
    lemma_span(w, tail);
    assert((w + tail).take(w.len() as int) =~= w);
    assert((w + tail).skip(w.len() as int) =~= tail);
    assert((v + rest)[0] == v[0]);
    lemma_trim_start(gap, v + rest);
    lemma_span(v, rest);
    assert((v + rest).take(v.len() as int) =~= v);
    assert(lead + w + gap =~= lead + (w + gap));
    assert((w + gap)[0] == w[0]);
    lemma_trim_start(lead, w + gap);
    lemma_span(w, gap);
    assert((w + gap).skip(w.len() as int) =~= gap);
    assert(gap + none =~= gap);
    lemma_trim_start(gap, none);
}

/// Lower case changes the capital letters of ASCII alone, each to the letter
/// that stands as far into the alphabet.
pub proof fn lower_case_is_ascii(s: Seq<char>, i: int)
    requires
        0 <= i < s.len(),
    ensures
        lower(s).len() == s.len(),
        'A' <= s[i] && s[i] <= 'Z' ==> lower(s)[i] as int - 'a' as int == s[i] as int - 'A' as int,
        !('A' <= s[i] && s[i] <= 'Z') ==> lower(s)[i] == s[i],
        lower(lower(s)) == lower(s),
{
    assert(lower(lower(s)) =~= lower(s));
}

/// Letters, digits, hyphens, underscores, dots and tildes go into a query as they
/// are; every other byte takes three characters, a percent sign first.
pub proof fn plain_bytes_stay_as_they_are(b: u8)
    ensures
        ('a' <= b as char && b as char <= 'z') || ('A' <= b as char && b as char <= 'Z') || ('0'
            <= b as char && b as char <= '9') || b as char == '-' || b as char == '_' || b as char
            == '.' || b as char == '~' ==> escaped_byte(b) == seq![b as char],
        b as char == '&' || b as char == '=' || b as char == '%' || b as char == '#' || b as char
            == '+' || b as char == '/' || b as char == '?' || b <= 32 || b >= 127
            ==> escaped_byte(b).len() == 3 && escaped_byte(b)[0] == '%',
{
}

} // verus!
