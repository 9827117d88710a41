//! Text: comparing, building and reading strings.

use vstd::prelude::*;

verus! {

/// `std::string::String::push`: appends one character.
pub assume_specification[ String::push ](s: &mut String, c: char)
    ensures
        final(s)@ == old(s)@.push(c),
;

/// Strings in the order of their characters: the first difference decides,
/// and a proper prefix comes first.
pub open spec fn less(a: Seq<char>, b: Seq<char>) -> bool
    decreases a.len(),
{
    if b.len() == 0 {
        false
    } else if a.len() == 0 {
        true
    } else if a[0] != b[0] {
        a[0] < b[0]
    } else {
        less(a.drop_first(), b.drop_first())
    }
}

pub proof fn lemma_less_irreflexive(a: Seq<char>)
    ensures
        !less(a, a),
    decreases a.len(),
{
    if a.len() > 0 {
        lemma_less_irreflexive(a.drop_first());
    }
}

pub proof fn lemma_less_transitive(a: Seq<char>, b: Seq<char>, c: Seq<char>)
    requires
        less(a, b),
        less(b, c),
    ensures
        less(a, c),
    decreases a.len(),
{
    if a.len() > 0 && a[0] == b[0] && b[0] == c[0] {
        lemma_less_transitive(a.drop_first(), b.drop_first(), c.drop_first());
    }
}

pub proof fn lemma_less_total(a: Seq<char>, b: Seq<char>)
    ensures
        less(a, b) || less(b, a) || a == b,
    decreases a.len(),
{
    if a.len() > 0 && b.len() > 0 && a[0] == b[0] {
        lemma_less_total(a.drop_first(), b.drop_first());
        if a.drop_first() == b.drop_first() {
            assert(a =~= seq![a[0]] + a.drop_first());
            assert(b =~= seq![b[0]] + b.drop_first());
        }
    } else if a.len() == 0 && b.len() == 0 {
        assert(a =~= b);
    }
}

/// How one string stands to another.
#[derive(Clone, Copy, Debug, PartialEq, Eq, Structural)]
pub enum Place {
    Before,
    Same,
    After,
}

pub fn place(a: &str, b: &str) -> (r: Place)
    ensures
        r == Place::Before <==> less(a@, b@),
        r == Place::Same <==> a@ == b@,
        r == Place::After <==> less(b@, a@),
{
    let mut x = a.chars();
    let mut y = b.chars();
    loop
        invariant
            less(a@, b@) == less(
                vstd::std_specs::iter::IteratorSpec::remaining(&x),
                vstd::std_specs::iter::IteratorSpec::remaining(&y),
            ),
            less(b@, a@) == less(
                vstd::std_specs::iter::IteratorSpec::remaining(&y),
                vstd::std_specs::iter::IteratorSpec::remaining(&x),
            ),
            (a@ == b@) == (vstd::std_specs::iter::IteratorSpec::remaining(&x)
                == vstd::std_specs::iter::IteratorSpec::remaining(&y)),
            vstd::std_specs::iter::IteratorSpec::decrease(&x) is Some,
            vstd::std_specs::iter::IteratorSpec::obeys_prophetic_iter_laws(&x),
            vstd::std_specs::iter::IteratorSpec::obeys_prophetic_iter_laws(&y),
        decreases vstd::std_specs::iter::IteratorSpec::decrease(&x)->0,
    {
        let ghost xs = vstd::std_specs::iter::IteratorSpec::remaining(&x);
        let ghost ys = vstd::std_specs::iter::IteratorSpec::remaining(&y);
        let p = x.next();
        let q = y.next();
        match (p, q) {
            (None, None) => {
                proof {
                    assert(xs =~= ys);
                    lemma_less_irreflexive(xs);
                }
                return Place::Same;
            },
            (None, Some(_)) => return Place::Before,
            (Some(_), None) => return Place::After,
            (Some(c), Some(d)) => {
                if c < d {
                    return Place::Before;
                }
                if d < c {
                    return Place::After;
                }
                proof {
                    assert(xs =~= seq![c] + vstd::std_specs::iter::IteratorSpec::remaining(&x));
                    assert(ys =~= seq![d] + vstd::std_specs::iter::IteratorSpec::remaining(&y));
                }
            },
        }
    }
}

pub fn same(a: &str, b: &str) -> (r: bool)
    ensures
        r == (a@ == b@),
{
    proof {
        lemma_less_total(a@, b@);
        lemma_less_irreflexive(a@);
    }
    match place(a, b) {
        Place::Same => true,
        _ => false,
    }
}

pub fn chars_of(s: &str) -> (r: Vec<char>)
    ensures
        r@ == s@,
{
    let mut out: Vec<char> = Vec::new();
    let mut rest = s.chars();
    loop
        invariant
            out@ + vstd::std_specs::iter::IteratorSpec::remaining(&rest) == s@,
            vstd::std_specs::iter::IteratorSpec::decrease(&rest) is Some,
            vstd::std_specs::iter::IteratorSpec::obeys_prophetic_iter_laws(&rest),
        decreases vstd::std_specs::iter::IteratorSpec::decrease(&rest)->0,
    {
        let ghost before = vstd::std_specs::iter::IteratorSpec::remaining(&rest);
        match rest.next() {
            None => {
                assert(out@ =~= s@);
                return out;
            },
            Some(c) => {
                proof {
                    assert(before =~= seq![c]
                        + vstd::std_specs::iter::IteratorSpec::remaining(&rest));
                }
                out.push(c);
                assert(out@ + vstd::std_specs::iter::IteratorSpec::remaining(&rest) =~= s@);
            },
        }
    }
}

pub fn text_of(chars: &[char]) -> (r: String)
    ensures
        r@ == chars@,
{
    let mut out = String::new();
    let mut i: usize = 0;
    while i < chars.len()
        invariant
            i <= chars.len(),
            out@ == chars@.take(i as int),
        decreases chars.len() - i,
    {
        out.push(chars[i]);
        i += 1;
        assert(chars@.take(i as int) =~= chars@.take(i - 1).push(chars@[i - 1]));
    }
    assert(chars@.take(i as int) =~= chars@);
    out
}

/// The characters of `chars` from `start` up to `end`, as a string.
pub fn slice(chars: &[char], start: usize, end: usize) -> (r: String)
    requires
        start <= end <= chars@.len(),
    ensures
        r@ == chars@.subrange(start as int, end as int),
{
    text_of(vstd::slice::slice_subrange(chars, start, end))
}

// ---------------------------------------------------------------------
// Numerals.

/// What a character counts for as a digit; 99 for one that is no digit in
/// any base up to sixteen.
pub open spec fn digit_value(c: char) -> nat {
    if '0' <= c && c <= '9' {
        (c as nat - '0' as nat) as nat
    } else if 'a' <= c && c <= 'f' {
        (c as nat - 'a' as nat + 10) as nat
    } else if 'A' <= c && c <= 'F' {
        (c as nat - 'A' as nat + 10) as nat
    } else {
        99
    }
}

pub open spec fn is_numeral(s: Seq<char>, base: nat) -> bool {
    &&& s.len() > 0
    &&& forall|i: int| 0 <= i < s.len() ==> digit_value(#[trigger] s[i]) < base
}

/// The number that a string of digits writes, most significant digit first.
pub open spec fn numeral_value(s: Seq<char>, base: nat) -> nat
    decreases s.len(),
{
    if s.len() == 0 {
        0
    } else {
        numeral_value(s.drop_last(), base) * base + digit_value(s.last())
    }
}

pub open spec fn unsigned_body(s: Seq<char>) -> Seq<char> {
    if s.len() > 0 && s[0] == '+' {
        s.drop_first()
    } else {
        s
    }
}

/// An unsigned number as text: an optional plus sign, then digits alone.
pub open spec fn unsigned(s: Seq<char>, base: nat) -> Option<nat> {
    if is_numeral(unsigned_body(s), base) {
        Some(numeral_value(unsigned_body(s), base))
    } else {
        None
    }
}

/// As `unsigned`, with nothing above `max`.
pub open spec fn unsigned_up_to(s: Seq<char>, base: nat, max: nat) -> Option<nat> {
    match unsigned(s, base) {
        Some(n) => if n <= max { Some(n) } else { None },
        None => None,
    }
}

fn digit_of(c: char) -> (r: u64)
    ensures
        r == digit_value(c),
{
    if '0' <= c && c <= '9' {
        c as u64 - '0' as u64
    } else if 'a' <= c && c <= 'f' {
        c as u64 - 'a' as u64 + 10
    } else if 'A' <= c && c <= 'F' {
        c as u64 - 'A' as u64 + 10
    } else {
        99
    }
}

/// A longer numeral never writes a smaller number.
proof fn lemma_numeral_grows(s: Seq<char>, k: int, base: nat)
    requires
        0 <= k <= s.len(),
        base >= 1,
    ensures
        numeral_value(s.take(k), base) <= numeral_value(s, base),
    decreases s.len() - k,
{
    if k < s.len() {
        lemma_numeral_grows(s, k + 1, base);
        assert(s.take(k + 1).drop_last() =~= s.take(k));
        let v = numeral_value(s.take(k), base);
        assert(v * base >= v) by (nonlinear_arith)
            requires
                base >= 1,
        ;
    } else {
        assert(s.take(k) =~= s);
    }
}

pub fn parse_unsigned(text: &str, base: u64, max: u64) -> (r: Option<u64>)
    requires
        2 <= base <= 16,
    ensures
        r is Some <==> unsigned_up_to(text@, base as nat, max as nat) is Some,
        r is Some ==> r->0 == unsigned_up_to(text@, base as nat, max as nat)->0,
{
    match read_unsigned(text, base, max) {
        Ok(n) => Some(n),
        Err(_) => None,
    }
}

/// How many digits a string begins with.
pub open spec fn leading_digits(s: Seq<char>, base: nat) -> int
    decreases s.len(),
{
    if s.len() == 0 || digit_value(s[0]) >= base {
        0
    } else {
        1 + leading_digits(s.drop_first(), base)
    }
}

/// Why a string is no unsigned number up to `max`, in words: there is nothing
/// to read, or the digits that it begins with are too many, or something in it
/// is no digit.
pub open spec fn number_fault(s: Seq<char>, base: nat, max: nat) -> Seq<char> {
    let body = unsigned_body(s);
    if s.len() == 0 {
        "cannot parse integer from empty string"@
    } else if numeral_value(body.take(leading_digits(body, base)), base) > max {
        "number too large to fit in target type"@
    } else {
        "invalid digit found in string"@
    }
}

/// The unsigned number up to `max` that a string is, or why it is none.
pub open spec fn number_in(s: Seq<char>, base: nat, max: nat) -> Result<nat, Seq<char>> {
    match unsigned_up_to(s, base, max) {
        Some(n) => Ok(n),
        None => Err(number_fault(s, base, max)),
    }
}

proof fn lemma_leading_digits(s: Seq<char>, base: nat, k: int)
    requires
        0 <= k <= s.len(),
        forall|i: int| 0 <= i < k ==> digit_value(#[trigger] s[i]) < base,
    ensures
        k <= leading_digits(s, base) <= s.len(),
        k < s.len() && digit_value(s[k]) >= base ==> leading_digits(s, base) == k,
    decreases s.len(),
{
    if s.len() > 0 && digit_value(s[0]) < base {
        let t = s.drop_first();
        if k > 0 {
            assert forall|i: int| 0 <= i < k - 1 implies digit_value(#[trigger] t[i]) < base by {
                assert(t[i] == s[i + 1]);
            }
            lemma_leading_digits(t, base, k - 1);
        } else {
            lemma_leading_digits(t, base, 0);
        }
    } else if k > 0 {
        assert(digit_value(s[0]) < base);
    }
}

/// The unsigned number up to `max` that a string is, or why it is none.
pub fn read_unsigned(text: &str, base: u64, max: u64) -> (r: Result<u64, String>)
    requires
        2 <= base <= 16,
    ensures
        match r {
            Ok(n) => number_in(text@, base as nat, max as nat) == Ok::<nat, Seq<char>>(n as nat),
            Err(why) => number_in(text@, base as nat, max as nat) == Err::<nat, Seq<char>>(why@),
        },
{
    let chars = chars_of(text);
    if chars.len() == 0 {
        return Err(String::from_str("cannot parse integer from empty string"));
    }
    let start: usize = if chars[0] == '+' { 1 } else { 0 };
    let ghost body = unsigned_body(text@);
    assert(body =~= chars@.skip(start as int));
    let mut i: usize = start;
    let mut value: u64 = 0;
    assert(body.take(0) =~= Seq::empty());
    while i < chars.len()
        invariant
            start <= i <= chars.len(),
            chars.len() > 0,
            2 <= base <= 16,
            chars@ == text@,
            body == chars@.skip(start as int),
            body == unsigned_body(text@),
            forall|j: int| 0 <= j < i - start ==> digit_value(#[trigger] body[j]) < base,
            value == numeral_value(body.take(i - start), base as nat),
            value <= max,
        decreases chars.len() - i,
    {
        let d = digit_of(chars[i]);
        assert(body[i - start] == chars@[i as int]);
        if d >= base {
            proof {
                lemma_leading_digits(body, base as nat, i - start);
            }
            return Err(String::from_str("invalid digit found in string"));
        }
        assert(body.take(i - start + 1).drop_last() =~= body.take(i - start));
        assert(value * base <= 0xffff_ffff_ffff_ffff * 16) by (nonlinear_arith)
            requires
                value <= 0xffff_ffff_ffff_ffff,
                base <= 16,
        ;
        let next: u128 = value as u128 * base as u128 + d as u128;
        assert(next == numeral_value(body.take(i - start + 1), base as nat));
        if next > max as u128 {
            proof {
                lemma_leading_digits(body, base as nat, i - start + 1);
                let all = leading_digits(body, base as nat);
                lemma_numeral_grows(body, i - start + 1, base as nat);
                lemma_numeral_grows(body.take(all), i - start + 1, base as nat);
                assert(body.take(all).take(i - start + 1) =~= body.take(i - start + 1));
            }
            return Err(String::from_str("number too large to fit in target type"));
        }
        value = next as u64;
        i += 1;
    }
    assert(body.take(i - start) =~= body);
    if start == chars.len() {
        proof {
            lemma_leading_digits(body, base as nat, 0);
        }
        return Err(String::from_str("invalid digit found in string"));
    }
    Ok(value)
}

pub open spec fn digit_char(d: nat) -> char {
    if d < 10 {
        ('0' as nat + d) as char
    } else {
        ('a' as nat + d - 10) as char
    }
}

/// A number written in `base`, without leading zeros.
pub open spec fn numeral(n: nat, base: nat) -> Seq<char>
    decreases n,
{
    if n < base || base < 2 {
        seq![digit_char(n)]
    } else {
        proof {
            vstd::arithmetic::div_mod::lemma_div_decreases(n as int, base as int);
        }
        numeral(n / base, base).push(digit_char(n % base))
    }
}

pub open spec fn decimal(n: nat) -> Seq<char> {
    numeral(n, 10)
}

pub(crate) fn char_of_digit(d: u64) -> (r: char)
    requires
        d < 16,
    ensures
        r == digit_char(d as nat),
{
    if d < 10 {
        ('0' as u8 + d as u8) as char
    } else {
        ('a' as u8 + (d as u8 - 10)) as char
    }
}

pub fn decimal_text(n: u64) -> (r: String)
    ensures
        r@ == decimal(n as nat),
    decreases n,
{
    let mut out = if n < 10 {
        String::new()
    } else {
        decimal_text(n / 10)
    };
    out.push(char_of_digit(n % 10));
    out
}

pub proof fn lemma_numeral(n: nat, base: nat)
    requires
        base == 10 || base == 16,
    ensures
        is_numeral(numeral(n, base), base),
        numeral_value(numeral(n, base), base) == n,
        numeral(n, base)[0] != '+',
    decreases n,
{
    reveal_with_fuel(numeral_value, 2);
    if n < base {
        assert(numeral(n, base).drop_last() =~= Seq::<char>::empty());
    } else {
        vstd::arithmetic::div_mod::lemma_div_decreases(n as int, base as int);
        lemma_numeral(n / base, base);
        let s = numeral(n / base, base);
        assert(numeral(n, base).drop_last() =~= s);
        assert(forall|i: int| 0 <= i < s.len() ==> numeral(n, base)[i] == s[i]);
        assert((n / base) * base + n % base == n) by {
            vstd::arithmetic::div_mod::lemma_fundamental_div_mod(n as int, base as int);
            vstd::arithmetic::mul::lemma_mul_is_commutative((n / base) as int, base as int);
        }
    }
}

/// What is written is read back: a number in base ten or sixteen comes out of
/// its own numeral.
pub proof fn numerals_read_back(n: nat, base: nat)
    requires
        base == 10 || base == 16,
    ensures
        unsigned(numeral(n, base), base) == Some(n),
{
    lemma_numeral(n, base);
}

/// The first difference decides the order of two strings, and where there is
/// none the shorter one comes first.
pub proof fn the_first_difference_decides(a: Seq<char>, b: Seq<char>, k: int)
    requires
        0 <= k <= a.len(),
        k <= b.len(),
        forall|i: int| 0 <= i < k ==> #[trigger] a[i] == b[i],
    ensures
        k < a.len() && k < b.len() && a[k] < b[k] ==> less(a, b) && !less(b, a),
        k == a.len() && k < b.len() ==> less(a, b) && !less(b, a),
        k == a.len() && k == b.len() ==> !less(a, b) && !less(b, a),
    decreases k,
{
    if k > 0 {
        let x = a.drop_first();
        let y = b.drop_first();
        assert(a[0] == b[0]);
        assert forall|i: int| 0 <= i < k - 1 implies #[trigger] x[i] == y[i] by {
            assert(a[i + 1] == b[i + 1]);
        }
        the_first_difference_decides(x, y, k - 1);
        if k < a.len() {
            assert(x[k - 1] == a[k]);
        }
        if k < b.len() {
            assert(y[k - 1] == b[k]);
        }
    }
}

/// Numerals are positional: what stands in front counts for the base raised to
/// how many digits follow.
pub proof fn numerals_are_positional(front: Seq<char>, back: Seq<char>, base: nat)
    ensures
        numeral_value(front + back, base) == numeral_value(front, base)
            * vstd::arithmetic::power::pow(base as int, back.len()) + numeral_value(back, base),
    decreases back.len(),
{
    let all = front + back;
    if back.len() == 0 {
        vstd::arithmetic::power::lemma_pow0(base as int);
        assert(all =~= front);
    } else {
        let less = back.drop_last();
        numerals_are_positional(front, less, base);
        assert(all.drop_last() =~= front + less);
        assert(all.last() == back.last());
        let v = numeral_value(front, base) as int;
        let p = vstd::arithmetic::power::pow(base as int, less.len());
        let w = numeral_value(less, base) as int;
        let q = vstd::arithmetic::power::pow(base as int, back.len());
        assert(q == base * p) by {
            reveal(vstd::arithmetic::power::pow);
        }
        assert((v * p + w) * base == v * q + w * base) by (nonlinear_arith)
            requires
                q == base * p,
        ;
    }
}

/// A number is written in decimal with no digit more than it needs: the last
/// digit is its remainder by ten, what stands before is the rest of it, and the
/// first is no zero unless it is the only one.
pub proof fn decimals_have_no_leading_zeros(n: nat)
    ensures
        decimal(n).len() >= 1,
        decimal(n).last() as nat == '0' as nat + n % 10,
        n >= 10 ==> decimal(n).drop_last() == decimal(n / 10),
        n < 10 ==> decimal(n).len() == 1,
        n > 0 ==> decimal(n)[0] != '0',
    decreases n,
{
    if n >= 10 {
        vstd::arithmetic::div_mod::lemma_div_decreases(n as int, 10);
        decimals_have_no_leading_zeros(n / 10);
        assert(decimal(n).drop_last() =~= decimal(n / 10));
        assert(decimal(n)[0] == decimal(n / 10)[0]);
    }
}

/// Text is read as a number exactly where it is digits, with a plus sign before
/// them or not, that write one in range. Nothing at all is called empty; digits
/// that write a number out of range are too large, whatever stands after them;
/// and otherwise what is no digit is at fault.
pub proof fn numbers_are_read_or_refused(digits: Seq<char>, rest: Seq<char>, base: nat, max: nat)
    requires
        base == 10 || base == 16,
        forall|i: int| 0 <= i < digits.len() ==> digit_value(#[trigger] digits[i]) < base,
        rest.len() > 0 ==> digit_value(rest[0]) >= base,
        digits.len() > 0,
    ensures
        number_in(Seq::empty(), base, max) == Err::<nat, Seq<char>>(
            "cannot parse integer from empty string"@,
        ),
        numeral_value(digits, base) > max ==> number_in(digits + rest, base, max) == Err::<
            nat,
            Seq<char>,
        >("number too large to fit in target type"@),
        numeral_value(digits, base) <= max && rest.len() > 0 ==> number_in(
            digits + rest,
            base,
            max,
        ) == Err::<nat, Seq<char>>("invalid digit found in string"@),
        numeral_value(digits, base) <= max ==> number_in(digits, base, max) == Ok::<nat, Seq<char>>(
            numeral_value(digits, base),
        ) && number_in(seq!['+'] + digits, base, max) == Ok::<nat, Seq<char>>(
            numeral_value(digits, base),
        ),
{
    let s = digits + rest;
    assert(digit_value(digits[0]) < base);
    assert(s[0] == digits[0]);
    assert(unsigned_body(s) == s);
    assert(unsigned_body(digits) == digits);
    assert((seq!['+'] + digits).drop_first() =~= digits);
    assert(unsigned_body(seq!['+'] + digits) == digits);
    assert forall|i: int| 0 <= i < digits.len() implies digit_value(#[trigger] s[i]) < base by {
        assert(s[i] == digits[i]);
    }
    lemma_leading_digits(s, base, digits.len() as int);
    assert(s.take(digits.len() as int) =~= digits);
    if rest.len() > 0 {
        assert(s[digits.len() as int] == rest[0]);
        assert(!is_numeral(s, base));
    } else {
        assert(s =~= digits);
        assert(leading_digits(s, base) == digits.len());
    }
}

} // verus!
