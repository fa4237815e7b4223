//! Numbers in text: hexadecimal and decimal integers, decimal rendering, and the
//! texts that denote a floating-point number.

use crate::text::{chars_of, is_digit};
use vstd::prelude::*;

verus! {

/// What a character is worth as a digit, with `a` to `f` standing for ten to
/// fifteen in either case.
pub open spec fn digit_value(c: char) -> Option<nat> {
    if is_digit(c) {
        Some((c as u32 - '0' as u32) as nat)
    } else if 'a' <= c && c <= 'f' {
        Some((c as u32 - 'a' as u32 + 10) as nat)
    } else if 'A' <= c && c <= 'F' {
        Some((c as u32 - 'A' as u32 + 10) as nat)
    } else {
        None
    }
}

/// The number that a run of digits denotes, if all of them are digits of the
/// radix.
pub open spec fn digits_value(s: Seq<char>, radix: nat) -> Option<nat>
    decreases s.len(),
{
    if s.len() == 0 {
        Some(0)
    } else {
        match (digits_value(s.drop_last(), radix), digit_value(s.last())) {
            (Some(v), Some(d)) => if d < radix {
                Some(v * radix + d)
            } else {
                None
            },
            _ => None,
        }
    }
}

/// The number that a text denotes in a radix: at least one digit, behind at most
/// one `+`.
pub open spec fn unsigned_value(s: Seq<char>, radix: nat) -> Option<nat> {
    let digits = if s.len() > 0 && s[0] == '+' {
        s.skip(1)
    } else {
        s
    };
    if digits.len() == 0 {
        None
    } else {
        digits_value(digits, radix)
    }
}

/// The number that a text denotes in a radix, where it is at most `limit`.
pub open spec fn bounded_value(s: Seq<char>, radix: nat, limit: nat) -> Option<nat> {
    match unsigned_value(s, radix) {
        Some(v) => if v <= limit {
            Some(v)
        } else {
            None
        },
        None => None,
    }
}

/// The decimal digit for a number below ten.
pub open spec fn digit_char(d: nat) -> char {
    (d + 48) as char
}

/// A number in decimal, with no sign and no leading zero.
pub open spec fn decimal(n: nat) -> Seq<char>
    decreases n,
{
    if n < 10 {
        seq![digit_char(n)]
    } else {
        decimal(n / 10).push(digit_char(n % 10))
    }
}

/// The value of a longer run of digits is no smaller, and is missing where that
/// of the shorter run is.
proof fn lemma_digits_value_grows(s: Seq<char>, n: int, radix: nat)
    requires
        0 <= n <= s.len(),
        radix >= 1,
    ensures
        digits_value(s.take(n), radix) is None ==> digits_value(s, radix) is None,
        digits_value(s, radix) matches Some(v) ==> digits_value(s.take(n), radix)->0 <= v,
    decreases s.len() - n,
{
    if n == s.len() {
        assert(s.take(n) == s);
    } else {
        assert(s.take(n + 1).drop_last() == s.take(n));
        lemma_digits_value_grows(s, n + 1, radix);
        if let Some(v) = digits_value(s.take(n), radix) {
            assert(v * radix >= v) by (nonlinear_arith)
                requires
                    radix >= 1,
                    v >= 0,
            ;
        }
    }
}

fn digit(c: char) -> (r: Option<u64>)
    ensures
        match r {
            Some(d) => digit_value(c) == Some(d as nat) && d < 16,
            None => digit_value(c) is None,
        },
{
    if '0' <= c && c <= '9' {
        Some((c as u32 - '0' as u32) as u64)
    } else if 'a' <= c && c <= 'f' {
        Some((c as u32 - 'a' as u32 + 10) as u64)
    } else if 'A' <= c && c <= 'F' {
        Some((c as u32 - 'A' as u32 + 10) as u64)
    } else {
        None
    }
}

/// Read an unsigned integer in a radix up to sixteen, of at most `limit`.
///
/// A single leading `+` is allowed, white space and any other sign is not.
pub fn read_unsigned(s: &str, radix: u64, limit: u32) -> (r: Option<u32>)
    requires
        2 <= radix <= 16,
    ensures
        match r {
            Some(v) => bounded_value(s@, radix as nat, limit as nat) == Some(v as nat),
            None => bounded_value(s@, radix as nat, limit as nat) is None,
        },
{
    let chars = chars_of(s);
    let mut i: usize = 0;
    if chars.len() > 0 && chars[0] == '+' {
        i = 1;
    }
    let ghost digits = s@.skip(i as int);
    let start = i;
    if i == chars.len() {
        return None;
    }
    proof {
        assert(s@.skip(0) == s@);
        assert(digits.take(0) == Seq::<char>::empty());
    }
    let mut value: u64 = 0;
    while i < chars.len()
        invariant
            2 <= radix <= 16,
            start <= i <= chars.len(),
            chars@ == s@,
            digits == s@.skip(start as int),
            digits.len() > 0,
            unsigned_value(s@, radix as nat) == digits_value(digits, radix as nat),
            digits_value(digits.take(i - start), radix as nat) == Some(value as nat),
            value <= limit,
        decreases chars.len() - i,
    {
        let ghost k = i - start;
        proof {
            assert(digits.take(k + 1).drop_last() == digits.take(k));
            assert(digits.take(k + 1).last() == chars@[i as int]);
            lemma_digits_value_grows(digits, k + 1, radix as nat);
        }
        match digit(chars[i]) {
            Some(d) => {
                if d >= radix {
                    return None;
                }
                assert(value * radix + d <= 0xffff_ffff * 16 + 15) by (nonlinear_arith)
                    requires
                        value <= 0xffff_ffff,
                        radix <= 16,
                        d <= 15,
                ;
                let next = value * radix + d;
                if next > limit as u64 {
                    return None;
                }
                value = next;
            },
            None => {
                return None;
            },
        }
        i = i + 1;
    }
    proof {
        assert(digits.take(digits.len() as int) == digits);
    }
    Some(value as u32)
}

/// A number in decimal.
pub fn decimal_text(n: u64) -> (r: String)
    ensures
        r@ == decimal(n as nat),
    decreases n,
{
    let mut s = String::new();
    if n >= 10 {
        s = decimal_text(n / 10);
    }
    let d = (n % 10) as u8;
    let c = (d + 48) as char;
    s.push(c);
    proof {
        if n < 10 {
            assert(s@ == seq![digit_char(n as nat)]);
        }
    }
    s
}

/// A number in decimal reads back as that number.
pub proof fn law_decimal_reads_back(n: nat)
    ensures
        unsigned_value(decimal(n), 10) == Some(n),
{
    lemma_decimal_digits(n);
}

proof fn lemma_decimal_digits(n: nat)
    ensures
        decimal(n).len() > 0,
        is_digit(decimal(n)[0]),
        digits_value(decimal(n), 10) == Some(n),
    decreases n,
{
    let text = decimal(n);
    let last = digit_char(n % 10);
    assert(text.last() == last);
    assert(last as u32 == n % 10 + 48);
    assert(digit_value(last) == Some(n % 10));
    if n < 10 {
        assert(text.drop_last() == Seq::<char>::empty());
        assert(digits_value(text.drop_last(), 10) == Some(0nat));
    } else {
        lemma_decimal_digits(n / 10);
        assert(text.drop_last() == decimal(n / 10));
        assert(text[0] == decimal(n / 10)[0]);
    }
}

// ---------------------------------------------------------------------------
// Floating-point texts
// ---------------------------------------------------------------------------

/// A text of decimal digits only.
pub open spec fn all_digits(s: Seq<char>) -> bool {
    forall|i: int| 0 <= i < s.len() ==> is_digit(#[trigger] s[i])
}

/// `s` without one leading `+` or `-`.
pub open spec fn without_sign(s: Seq<char>) -> Seq<char> {
    if s.len() > 0 && (s[0] == '+' || s[0] == '-') {
        s.skip(1)
    } else {
        s
    }
}

/// The lower case of an ASCII letter; any other character as it is.
pub open spec fn lower(c: char) -> char {
    if 'A' <= c && c <= 'Z' {
        (c as u32 + 32) as char
    } else {
        c
    }
}

/// `s` is the word `w`, in upper, lower or mixed case.
pub open spec fn is_word(s: Seq<char>, w: Seq<char>) -> bool {
    s.len() == w.len() && forall|i: int| 0 <= i < s.len() ==> lower(#[trigger] s[i]) == w[i]
}

/// Digits with at most one `.` among them, and at least one digit.
pub open spec fn is_mantissa(s: Seq<char>) -> bool {
    ||| s.len() > 0 && all_digits(s)
    ||| exists|d: int|
        0 <= d < s.len() && #[trigger] s[d] == '.' && all_digits(s.take(d)) && all_digits(
            s.skip(d + 1),
        ) && s.len() > 1
}

/// The digits of an exponent, behind an optional sign.
pub open spec fn is_exponent(s: Seq<char>) -> bool {
    without_sign(s).len() > 0 && all_digits(without_sign(s))
}

/// `c` opens an exponent.
pub open spec fn is_exponent_mark(c: char) -> bool {
    c == 'e' || c == 'E'
}

/// A mantissa, with an exponent behind it or not.
pub open spec fn is_plain_number(s: Seq<char>) -> bool {
    ||| is_mantissa(s)
    ||| exists|e: int|
        0 <= e < s.len() && is_exponent_mark(#[trigger] s[e]) && is_mantissa(s.take(e))
            && is_exponent(s.skip(e + 1))
}

/// A text that denotes a floating-point number: an optional sign, then a decimal
/// number or one of the words `inf`, `infinity` and `nan` in any case.
pub open spec fn is_float_text(s: Seq<char>) -> bool {
    let body = without_sign(s);
    ||| is_word(body, "inf"@)
    ||| is_word(body, "infinity"@)
    ||| is_word(body, "nan"@)
    ||| is_plain_number(body)
}

fn lower_case(c: char) -> (r: char)
    ensures
        r == lower(c),
{
    if 'A' <= c && c <= 'Z' {
        (c as u8 + 32) as char
    } else {
        c
    }
}

/// Whether the characters from `from` on are the word `w`.
fn word_at(chars: &Vec<char>, from: usize, w: &str) -> (r: bool)
    requires
        from <= chars.len(),
    ensures
        r == is_word(chars@.skip(from as int), w@),
{
    let letters = chars_of(w);
    if letters.len() != chars.len() - from {
        return false;
    }
    let ghost body = chars@.skip(from as int);
    let mut i: usize = 0;
    while i < letters.len()
        invariant
            i <= letters.len(),
            from <= chars.len(),
            letters.len() == chars.len() - from,
            letters@ == w@,
            body == chars@.skip(from as int),
            forall|j: int| 0 <= j < i ==> lower(#[trigger] body[j]) == w@[j],
        decreases letters.len() - i,
    {
        proof {
            assert(body[i as int] == chars@[from + i]);
        }
        if lower_case(chars[from + i]) != letters[i] {
            return false;
        }
        i = i + 1;
    }
    true
}

/// Whether the characters from `from` up to `to` are all digits.
fn digits_at(chars: &Vec<char>, from: usize, to: usize) -> (r: bool)
    requires
        from <= to <= chars.len(),
    ensures
        r == all_digits(chars@.subrange(from as int, to as int)),
{
    let ghost part = chars@.subrange(from as int, to as int);
    let mut i = from;
    while i < to
        invariant
            from <= i <= to <= chars.len(),
            part == chars@.subrange(from as int, to as int),
            forall|j: int| 0 <= j < i - from ==> is_digit(#[trigger] part[j]),
        decreases to - i,
    {
        proof {
            assert(part[i - from] == chars@[i as int]);
        }
        if !('0' <= chars[i] && chars[i] <= '9') {
            return false;
        }
        i = i + 1;
    }
    true
}

/// Whether the characters from `from` up to `to` are a mantissa.
fn mantissa_at(chars: &Vec<char>, from: usize, to: usize) -> (r: bool)
    requires
        from <= to <= chars.len(),
    ensures
        r == is_mantissa(chars@.subrange(from as int, to as int)),
{
    let ghost part = chars@.subrange(from as int, to as int);
    let mut dot = from;
    while dot < to && chars[dot] != '.'
        invariant
            from <= dot <= to <= chars.len(),
            part == chars@.subrange(from as int, to as int),
            forall|j: int| 0 <= j < dot - from ==> #[trigger] part[j] != '.',
        decreases to - dot,
    {
        proof {
            assert(part[dot - from] == chars@[dot as int]);
        }
        dot = dot + 1;
    }
    if dot == to {
        let plain = digits_at(chars, from, to);
        return from < to && plain;
    }
    let ghost d = dot - from;
    proof {
        assert(part[d] == '.');
        assert(part.take(d) == chars@.subrange(from as int, dot as int));
        assert(part.skip(d + 1) == chars@.subrange(dot + 1, to as int));
        // The first dot is the only one that can stand between digits.
        assert forall|e: int|
            0 <= e < part.len() && #[trigger] part[e] == '.' && all_digits(
                part.take(e),
            ) implies e == d by {
            if d < e {
                assert(part.take(e)[d] == '.');
            }
        }
        assert(!all_digits(part));
    }
    let left = digits_at(chars, from, dot);
    let right = digits_at(chars, dot + 1, to);
    to - from > 1 && left && right
}

/// Whether the characters from `from` on are an exponent's sign and digits.
fn exponent_at(chars: &Vec<char>, from: usize) -> (r: bool)
    requires
        from <= chars.len(),
    ensures
        r == is_exponent(chars@.skip(from as int)),
{
    let n = chars.len();
    let mut digits = from;
    if digits < n && (chars[digits] == '+' || chars[digits] == '-') {
        digits = digits + 1;
    }
    proof {
        assert(without_sign(chars@.skip(from as int)) == chars@.subrange(digits as int, n as int));
    }
    digits < n && digits_at(chars, digits, n)
}

/// Whether the characters from `from` on are a mantissa, with an exponent behind
/// it or not.
fn plain_number_at(chars: &Vec<char>, from: usize) -> (r: bool)
    requires
        from <= chars.len(),
    ensures
        r == is_plain_number(chars@.skip(from as int)),
{
    let n = chars.len();
    let ghost body = chars@.skip(from as int);
    let mut mark = from;
    while mark < n && chars[mark] != 'e' && chars[mark] != 'E'
        invariant
            from <= mark <= n,
            n == chars.len(),
            body == chars@.skip(from as int),
            forall|j: int| 0 <= j < mark - from ==> !is_exponent_mark(#[trigger] body[j]),
        decreases n - mark,
    {
        proof {
            assert(body[mark - from] == chars@[mark as int]);
        }
        mark = mark + 1;
    }
    let mantissa = mantissa_at(chars, from, mark);
    if mark == n {
        proof {
            assert(body == chars@.subrange(from as int, mark as int));
            assert(forall|j: int| 0 <= j < body.len() ==> !is_exponent_mark(#[trigger] body[j]));
        }
        return mantissa;
    }
    proof {
        let e = mark - from;
        assert(body[e] == chars@[mark as int]);
        assert(body.take(e) == chars@.subrange(from as int, mark as int));
        assert(body.skip(e + 1) == chars@.skip(mark + 1));
        lemma_first_mark_splits(body, e);
    }
    mantissa && exponent_at(chars, mark + 1)
}

/// Whether a text denotes a floating-point number.
pub fn float_text(s: &str) -> (r: bool)
    ensures
        r == is_float_text(s@),
{
    let chars = chars_of(s);
    let mut from: usize = 0;
    if chars.len() > 0 && (chars[0] == '+' || chars[0] == '-') {
        from = 1;
    }
    proof {
        assert(s@.skip(0) == s@);
        assert(chars@.skip(from as int) == without_sign(s@));
    }
    word_at(&chars, from, "inf") || word_at(&chars, from, "infinity") || word_at(
        &chars,
        from,
        "nan",
    ) || plain_number_at(&chars, from)
}

/// The first exponent mark of a text is the one that can part its mantissa from
/// its exponent.
proof fn lemma_first_mark_splits(s: Seq<char>, e: int)
    requires
        0 <= e < s.len(),
        is_exponent_mark(s[e]),
        forall|j: int| 0 <= j < e ==> !is_exponent_mark(#[trigger] s[j]),
    ensures
        is_plain_number(s) == (is_mantissa(s.take(e)) && is_exponent(s.skip(e + 1))),
{
    lemma_mantissa_has_no_mark(s, e);
    if is_plain_number(s) {
        let k = choose|k: int|
            0 <= k < s.len() && is_exponent_mark(#[trigger] s[k]) && is_mantissa(s.take(k))
                && is_exponent(s.skip(k + 1));
        if e < k {
            assert(s.take(k)[e] == s[e]);
            lemma_mantissa_has_no_mark(s.take(k), e);
        }
        assert(k == e);
    }
}

/// No character of a mantissa opens an exponent.
proof fn lemma_mantissa_has_no_mark(s: Seq<char>, i: int)
    requires
        0 <= i < s.len(),
        is_exponent_mark(s[i]),
    ensures
        !is_mantissa(s),
{
    if all_digits(s) {
        assert(is_digit(s[i]));
    }
    if is_mantissa(s) {
        let d = choose|d: int|
            0 <= d < s.len() && #[trigger] s[d] == '.' && all_digits(s.take(d)) && all_digits(
                s.skip(d + 1),
            ) && s.len() > 1;
        if i < d {
            assert(s.take(d)[i] == s[i]);
            assert(is_digit(s.take(d)[i]));
        } else {
            assert(s.skip(d + 1)[i - d - 1] == s[i]);
            assert(is_digit(s.skip(d + 1)[i - d - 1]));
        }
    }
}

// ---------------------------------------------------------------------------
// Laws
// ---------------------------------------------------------------------------

/// A digit is worth what it says: `0` to `9` are worth nought to nine, `a` to `f` in
/// either case ten to fifteen, and no other character is a digit.
pub proof fn law_digits_are_worth_what_they_say(c: char)
    ensures
        ({
            let n = c as u32;
            &&& 48 <= n <= 57 ==> digit_value(c) == Some((n - 48) as nat)
            &&& 97 <= n <= 102 ==> digit_value(c) == Some((n - 87) as nat)
            &&& 65 <= n <= 70 ==> digit_value(c) == Some((n - 55) as nat)
            &&& !(48 <= n <= 57 || 97 <= n <= 102 || 65 <= n <= 70) ==> digit_value(c) is None
        }),
{
}

/// Digits are read by their place: one more digit behind a number makes it the radix
/// times as much and adds the digit, and a character that is no digit of the radix makes
/// it no number.
pub proof fn law_digits_are_read_by_their_place(s: Seq<char>, c: char, radix: nat)
    ensures
        digits_value(Seq::empty(), radix) == Some(0nat),
        match (digits_value(s, radix), digit_value(c)) {
            (Some(v), Some(d)) => if d < radix {
                digits_value(s.push(c), radix) == Some(radix * v + d)
            } else {
                digits_value(s.push(c), radix) is None
            },
            _ => digits_value(s.push(c), radix) is None,
        },
{
    assert(s.push(c).drop_last() == s);
    if let Some(v) = digits_value(s, radix) {
        assert(radix * v == v * radix) by (nonlinear_arith);
    }
}

/// A number is its digits, of which there is at least one, with a `+` in front or not.
pub proof fn law_a_number_is_its_digits(s: Seq<char>, radix: nat, limit: nat)
    ensures
        s.len() > 0 && s[0] != '+' ==> unsigned_value(s, radix) == digits_value(s, radix),
        s.len() > 0 ==> unsigned_value(seq!['+'] + s, radix) == digits_value(s, radix),
        unsigned_value(Seq::empty(), radix) is None,
        unsigned_value(seq!['+'], radix) is None,
        match unsigned_value(s, radix) {
            Some(v) => bounded_value(s, radix, limit) == (if v <= limit {
                Some(v)
            } else {
                None
            }),
            None => bounded_value(s, radix, limit) is None,
        },
{
    assert((seq!['+'] + s).skip(1) == s);
    assert(seq!['+'].skip(1) == Seq::<char>::empty());
}

/// A number in decimal is made of digits and has no needless zero in front.
pub proof fn law_decimal_has_digits_only(n: nat)
    ensures
        decimal(n).len() > 0,
        forall|i: int|
            0 <= i < decimal(n).len() ==> '0' <= #[trigger] decimal(n)[i] && decimal(n)[i] <= '9',
        decimal(n).len() > 1 ==> decimal(n)[0] != '0',
    decreases n,
{
    if n >= 10 {
        law_decimal_has_digits_only(n / 10);
        let text = decimal(n);
        let front = decimal(n / 10);
        assert forall|i: int| 0 <= i < text.len() implies '0' <= #[trigger] text[i] && text[i]
            <= '9' by {
            if i < front.len() {
                assert(text[i] == front[i]);
            }
        }
        assert(text[0] == front[0]);
        if front.len() == 1 {
            if n / 10 >= 10 {
                law_decimal_has_digits_only(n / 10 / 10);
            }
            assert(n / 10 < 10);
            assert(front[0] == digit_char(n / 10));
            assert(n / 10 >= 1);
            assert(digit_char(n / 10) as u32 == n / 10 + 48);
        }
    }
}

proof fn lemma_digits_are_a_number(s: Seq<char>)
    requires
        s.len() > 0,
        all_digits(s),
    ensures
        is_float_text(s),
{
    assert(is_digit(s[0]));
    assert(without_sign(s) == s);
    assert(is_mantissa(s));
}

/// Digits denote a number, with a dot anywhere among them or at an end, and with an
/// exponent behind them or not. `a` and `b` are the digits on the two sides of the dot,
/// and `x` those of the exponent.
pub proof fn law_decimal_numbers_are_numbers(a: Seq<char>, b: Seq<char>, x: Seq<char>)
    requires
        forall|i: int| 0 <= i < a.len() ==> '0' <= #[trigger] a[i] && a[i] <= '9',
        forall|i: int| 0 <= i < b.len() ==> '0' <= #[trigger] b[i] && b[i] <= '9',
        forall|i: int| 0 <= i < x.len() ==> '0' <= #[trigger] x[i] && x[i] <= '9',
        a.len() + b.len() > 0,
        x.len() > 0,
    ensures
        a.len() > 0 ==> is_float_text(a),
        a.len() > 0 ==> is_float_text(a + seq!['e'] + x) && is_float_text(a + seq!['E'] + x),
        a.len() > 0 ==> is_float_text(a + seq!['e', '-'] + x) && is_float_text(
            a + seq!['e', '+'] + x,
        ),
        is_float_text(a + seq!['.'] + b),
        is_float_text(a + seq!['.'] + b + seq!['e'] + x),
        is_float_text(a + seq!['.'] + b + seq!['e', '-'] + x),
        is_float_text(a + seq!['.'] + b + seq!['e', '+'] + x),
{
    let m = a + seq!['.'] + b;
    assert(m[a.len() as int] == '.');
    assert(m.take(a.len() as int) == a);
    assert(m.skip(a.len() as int + 1) == b);
    assert(is_mantissa(m));
    assert(is_digit(x[0]));
    if a.len() > 0 {
        assert(is_digit(a[0]));
        assert(is_mantissa(a));
        lemma_digits_are_a_number(a);
        lemma_with_exponent(a, seq!['e'], x);
        lemma_with_exponent(a, seq!['E'], x);
        lemma_with_exponent(a, seq!['e', '-'], x);
        lemma_with_exponent(a, seq!['e', '+'], x);
    } else {
        assert(m[0] == '.');
    }
    assert(m[0] == '.' || is_digit(m[0]));
    assert(without_sign(m) == m);
    lemma_with_exponent(m, seq!['e'], x);
    lemma_with_exponent(m, seq!['e', '-'], x);
    lemma_with_exponent(m, seq!['e', '+'], x);
}

proof fn lemma_with_exponent(m: Seq<char>, mark: Seq<char>, x: Seq<char>)
    requires
        is_mantissa(m),
        m[0] == '.' || is_digit(m[0]),
        mark == seq!['e'] || mark == seq!['E'] || mark == seq!['e', '-'] || mark == seq!['e', '+'],
        x.len() > 0,
        all_digits(x),
    ensures
        is_float_text(m + mark + x),
{
    let s = m + mark + x;
    let e = m.len() as int;
    assert(m.len() > 0);
    assert(s[0] == m[0]);
    assert(without_sign(s) == s);
    assert(s[e] == mark[0]);
    assert(s.take(e) == m);
    let rest = s.skip(e + 1);
    assert(is_digit(x[0]));
    if mark.len() == 1 {
        assert(rest == x);
        assert(without_sign(rest) == x);
    } else {
        assert(rest == seq![mark[1]] + x);
        assert(rest.skip(1) == x);
    }
    assert(is_exponent(rest));
    assert(is_exponent_mark(s[e]));
    assert(is_plain_number(s));
}

/// A sign in front of a text that has none makes no difference to whether it denotes a
/// number.
pub proof fn law_a_sign_may_stand_before_a_number(s: Seq<char>)
    requires
        s.len() > 0,
        s[0] != '+',
        s[0] != '-',
    ensures
        is_float_text(seq!['+'] + s) <==> is_float_text(s),
        is_float_text(seq!['-'] + s) <==> is_float_text(s),
{
    assert((seq!['+'] + s).skip(1) == s);
    assert((seq!['-'] + s).skip(1) == s);
}

/// A text that denotes a number is not empty, and is made of digits, letters, dots and
/// signs.
pub proof fn law_a_number_is_made_of_digits_letters_dots_and_signs(s: Seq<char>)
    requires
        is_float_text(s),
    ensures
        s.len() > 0,
        forall|i: int|
            0 <= i < s.len() ==> ('0' <= #[trigger] s[i] && s[i] <= '9') || ('A' <= s[i] && s[i]
                <= 'Z') || ('a' <= s[i] && s[i] <= 'z') || s[i] == '.' || s[i] == '+' || s[i] == '-',
{
    let body = without_sign(s);
    reveal_strlit("inf");
    reveal_strlit("infinity");
    reveal_strlit("nan");
    assert(body.len() > 0);
    assert forall|i: int| 0 <= i < body.len() implies is_number_char(#[trigger] body[i]) by {
        if is_plain_number(body) {
            if is_mantissa(body) {
                lemma_mantissa_chars(body, i);
            } else {
                let e = choose|e: int|
                    0 <= e < body.len() && is_exponent_mark(#[trigger] body[e]) && is_mantissa(
                        body.take(e),
                    ) && is_exponent(body.skip(e + 1));
                let after = body.skip(e + 1);
                let digits = without_sign(after);
                if i < e {
                    assert(body[i] == body.take(e)[i]);
                    lemma_mantissa_chars(body.take(e), i);
                } else if i > e {
                    assert(body[i] == after[i - e - 1]);
                    if after.len() > digits.len() {
                        if i > e + 1 {
                            assert(after[i - e - 1] == digits[i - e - 2]);
                            assert(is_digit(digits[i - e - 2]));
                        }
                    } else {
                        assert(is_digit(digits[i - e - 1]));
                    }
                }
            }
        } else {
            let c = lower(body[i]);
            assert('a' <= c && c <= 'z');
        }
    }
    assert forall|i: int| 0 <= i < s.len() implies is_number_char(#[trigger] s[i]) by {
        if body.len() < s.len() {
            if i > 0 {
                assert(s[i] == body[i - 1]);
            }
        } else {
            assert(s[i] == body[i]);
        }
    }
}

spec fn is_number_char(c: char) -> bool {
    ('0' <= c && c <= '9') || ('A' <= c && c <= 'Z') || ('a' <= c && c <= 'z') || c == '.' || c
        == '+' || c == '-'
}

proof fn lemma_mantissa_chars(s: Seq<char>, i: int)
    requires
        is_mantissa(s),
        0 <= i < s.len(),
    ensures
        is_number_char(s[i]),
{
    if all_digits(s) {
        assert(is_digit(s[i]));
    } else {
        let d = choose|d: int|
            0 <= d < s.len() && #[trigger] s[d] == '.' && all_digits(s.take(d)) && all_digits(
                s.skip(d + 1),
            ) && s.len() > 1;
        if i < d {
            assert(s.take(d)[i] == s[i]);
            assert(is_digit(s.take(d)[i]));
        } else if i > d {
            assert(s.skip(d + 1)[i - d - 1] == s[i]);
            assert(is_digit(s.skip(d + 1)[i - d - 1]));
        }
    }
}

/// A text with a digit in it that has a second dot, or a dot behind an exponent's mark,
/// denotes no number.
pub proof fn law_a_number_has_one_dot_at_most(s: Seq<char>, i: int, j: int)
    requires
        0 <= i < j < s.len(),
        s[i] == '.' || s[i] == 'e' || s[i] == 'E',
        s[j] == '.',
        exists|k: int| 0 <= k < s.len() && '0' <= #[trigger] s[k] && s[k] <= '9',
    ensures
        !is_float_text(s),
{
    let body = without_sign(s);
    let at: int = s.len() - body.len();
    reveal_strlit("inf");
    reveal_strlit("infinity");
    reveal_strlit("nan");
    assert(at == 0 || at == 1);
    assert(body[i - at] == s[i] && body[j - at] == s[j]);
    let k = choose|k: int| 0 <= k < s.len() && '0' <= #[trigger] s[k] && s[k] <= '9';
    assert(body[k - at] == s[k]);
    assert(lower(body[k - at]) <= '9');
    lemma_one_dot(body, i - at, j - at);
    if is_plain_number(body) {
        let e = choose|e: int|
            0 <= e < body.len() && is_exponent_mark(#[trigger] body[e]) && is_mantissa(
                body.take(e),
            ) && is_exponent(body.skip(e + 1));
        let after = body.skip(e + 1);
        let digits = without_sign(after);
        if j - at > e {
            assert(after[j - at - e - 1] == '.');
            let off: int = after.len() - digits.len();
            assert(digits[j - at - e - 1 - off] == '.');
            assert(is_digit(digits[j - at - e - 1 - off]));
        } else {
            assert(body.take(e)[i - at] == s[i] && body.take(e)[j - at] == s[j]);
            lemma_one_dot(body.take(e), i - at, j - at);
        }
    }
}

proof fn lemma_one_dot(s: Seq<char>, i: int, j: int)
    requires
        0 <= i < j < s.len(),
        s[i] == '.' || s[i] == 'e' || s[i] == 'E',
        s[j] == '.',
    ensures
        !is_mantissa(s),
{
    if all_digits(s) {
        assert(is_digit(s[j]));
    } else if is_mantissa(s) {
        let d = choose|d: int|
            0 <= d < s.len() && #[trigger] s[d] == '.' && all_digits(s.take(d)) && all_digits(
                s.skip(d + 1),
            ) && s.len() > 1;
        if i < d {
            assert(s.take(d)[i] == s[i]);
            assert(is_digit(s.take(d)[i]));
        } else {
            assert(s.skip(d + 1)[j - d - 1] == s[j]);
            assert(is_digit(s.skip(d + 1)[j - d - 1]));
        }
    }
}

/// A text of decimal digits, or an empty one.
pub open spec fn is_run_of_digits(s: Seq<char>) -> bool {
    forall|i: int| 0 <= i < s.len() ==> '0' <= #[trigger] s[i] && s[i] <= '9'
}

/// What may stand in front of a number: a sign or nothing.
pub open spec fn is_sign(s: Seq<char>) -> bool {
    s.len() == 0 || s == seq!['+'] || s == seq!['-']
}

/// What may stand between a number and its exponent: `e` or `E`, with a sign behind it or
/// not.
pub open spec fn opens_an_exponent(s: Seq<char>) -> bool {
    s.len() > 0 && (s[0] == 'e' || s[0] == 'E') && is_sign(s.skip(1))
}

/// One of the words for what is no finite number, in any case.
pub open spec fn is_word_for_a_number(s: Seq<char>) -> bool {
    ||| s.len() == 3 && (s[0] == 'n' || s[0] == 'N') && (s[1] == 'a' || s[1] == 'A') && (s[2]
        == 'n' || s[2] == 'N')
    ||| {
        &&& s.len() == 3 || s.len() == 8
        &&& s[0] == 'i' || s[0] == 'I'
        &&& s[1] == 'n' || s[1] == 'N'
        &&& s[2] == 'f' || s[2] == 'F'
        &&& s.len() == 8 ==> {
            &&& s[3] == 'i' || s[3] == 'I'
            &&& s[4] == 'n' || s[4] == 'N'
            &&& s[5] == 'i' || s[5] == 'I'
            &&& s[6] == 't' || s[6] == 'T'
            &&& s[7] == 'y' || s[7] == 'Y'
        }
    }
}

/// What the parts of a number must be: a sign or none, digits, a dot with more digits or
/// none, and an exponent with its digits or none, with a digit on one side of the dot.
pub open spec fn are_parts_of_a_number(
    sign: Seq<char>,
    a: Seq<char>,
    dot: Seq<char>,
    b: Seq<char>,
    mark: Seq<char>,
    x: Seq<char>,
) -> bool {
    &&& is_sign(sign)
    &&& is_run_of_digits(a)
    &&& is_run_of_digits(b)
    &&& is_run_of_digits(x)
    &&& a.len() + b.len() > 0
    &&& dot == seq!['.'] || (dot.len() == 0 && b.len() == 0)
    &&& (opens_an_exponent(mark) && x.len() > 0) || (mark.len() == 0 && x.len() == 0)
}

/// Parts that fit together make a number, and a word does behind a sign or none.
pub proof fn law_parts_make_a_number(
    sign: Seq<char>,
    a: Seq<char>,
    dot: Seq<char>,
    b: Seq<char>,
    mark: Seq<char>,
    x: Seq<char>,
    word: Seq<char>,
)
    ensures
        are_parts_of_a_number(sign, a, dot, b, mark, x) ==> is_float_text(
            sign + (a + dot + b + mark + x),
        ),
        is_sign(sign) && is_word_for_a_number(word) ==> is_float_text(sign + word),
{
    if are_parts_of_a_number(sign, a, dot, b, mark, x) {
        let m = a + dot + b;
        let body = m + mark + x;
        if dot.len() == 0 {
            assert(m == a);
            assert(is_digit(a[0]));
            assert(all_digits(a));
        } else {
            let d = a.len() as int;
            assert(m[d] == '.');
            assert(m.take(d) == a);
            assert(m.skip(d + 1) == b);
            assert(all_digits(a) && all_digits(b));
            if d > 0 {
                assert(is_digit(a[0]));
                assert(m[0] == a[0]);
            }
        }
        assert(is_mantissa(m));
        assert(m[0] == '.' || is_digit(m[0]));
        assert(body[0] == m[0]);
        if mark.len() == 0 {
            assert(body == m);
        } else {
            let e = m.len() as int;
            let after = body.skip(e + 1);
            assert(body.take(e) == m);
            assert(body[e] == mark[0]);
            assert(after == mark.skip(1) + x);
            assert(is_digit(x[0]));
            assert(all_digits(x));
            if mark.len() == 1 {
                assert(after == x);
                assert(without_sign(after) == x);
            } else {
                assert(after[0] == mark.skip(1)[0]);
                assert(after.skip(1) == x);
            }
            assert(is_exponent_mark(body[e]));
        }
        assert(is_plain_number(body));
        lemma_signed(sign, body);
    }
    if is_sign(sign) && is_word_for_a_number(word) {
        reveal_strlit("inf");
        reveal_strlit("infinity");
        reveal_strlit("nan");
        lemma_lower_letters();
        lemma_signed(sign, word);
        if word[0] == 'n' || word[0] == 'N' {
            assert(is_word(word, "nan"@));
        } else if word.len() == 3 {
            assert(is_word(word, "inf"@));
        } else {
            assert(is_word(word, "infinity"@));
        }
    }
}

proof fn lemma_signed(sign: Seq<char>, body: Seq<char>)
    requires
        is_sign(sign),
        body.len() > 0,
        body[0] != '+',
        body[0] != '-',
    ensures
        without_sign(sign + body) == body,
{
    let s = sign + body;
    if sign.len() == 0 {
        assert(s == body);
    } else {
        assert(s[0] == sign[0]);
        assert(s.skip(1) == body);
    }
}

proof fn lemma_lower_letters()
    ensures
        lower('A') == 'a',
        lower('F') == 'f',
        lower('I') == 'i',
        lower('N') == 'n',
        lower('T') == 't',
        lower('Y') == 'y',
{
}

proof fn lemma_lower_only(c: char)
    ensures
        lower(c) == 'a' ==> c == 'a' || c == 'A',
        lower(c) == 'f' ==> c == 'f' || c == 'F',
        lower(c) == 'i' ==> c == 'i' || c == 'I',
        lower(c) == 'n' ==> c == 'n' || c == 'N',
        lower(c) == 't' ==> c == 't' || c == 'T',
        lower(c) == 'y' ==> c == 'y' || c == 'Y',
{
}

/// Only what is put together like that is a number: a text that denotes one is a sign or
/// none in front of a word, or it falls into the parts of a number.
pub proof fn law_a_number_falls_into_parts(s: Seq<char>) -> (r: (
    Seq<char>,
    Seq<char>,
    Seq<char>,
    Seq<char>,
    Seq<char>,
    Seq<char>,
))
    requires
        is_float_text(s),
    ensures
        (is_sign(r.0) && is_word_for_a_number(r.1) && s == r.0 + r.1) || (are_parts_of_a_number(
            r.0,
            r.1,
            r.2,
            r.3,
            r.4,
            r.5,
        ) && s == r.0 + (r.1 + r.2 + r.3 + r.4 + r.5)),
{
    let none = Seq::<char>::empty();
    let body = without_sign(s);
    let sign = s.take(s.len() - body.len());
    assert(s == sign + body);
    if body.len() < s.len() {
        assert(sign == seq![s[0]]);
    } else {
        assert(sign == none);
    }
    reveal_strlit("inf");
    reveal_strlit("infinity");
    reveal_strlit("nan");
    if is_plain_number(body) {
        if is_mantissa(body) {
            let (a, dot, b) = lemma_mantissa_parts(body);
            assert(a + dot + b + none + none == body);
            (sign, a, dot, b, none, none)
        } else {
            let e = choose|e: int|
                0 <= e < body.len() && is_exponent_mark(#[trigger] body[e]) && is_mantissa(
                    body.take(e),
                ) && is_exponent(body.skip(e + 1));
            let (a, dot, b) = lemma_mantissa_parts(body.take(e));
            let after = body.skip(e + 1);
            let x = without_sign(after);
            let mark = body.subrange(e, body.len() - x.len());
            assert forall|i: int| 0 <= i < x.len() implies '0' <= #[trigger] x[i] && x[i]
                <= '9' by {
                assert(is_digit(x[i]));
            }
            assert(mark[0] == body[e]);
            if x.len() < after.len() {
                assert(mark.skip(1) == seq![after[0]]);
            } else {
                assert(mark.skip(1) == none);
            }
            assert(body == body.take(e) + mark + x) by {
                assert(body.skip(body.len() - x.len()) == x);
            }
            (sign, a, dot, b, mark, x)
        }
    } else {
        assert(body.len() == 3 || body.len() == 8);
        lemma_lower_only(body[0]);
        lemma_lower_only(body[1]);
        lemma_lower_only(body[2]);
        if body.len() == 8 {
            lemma_lower_only(body[3]);
            lemma_lower_only(body[4]);
            lemma_lower_only(body[5]);
            lemma_lower_only(body[6]);
            lemma_lower_only(body[7]);
        }
        (sign, body, none, none, none, none)
    }
}

proof fn lemma_mantissa_parts(s: Seq<char>) -> (r: (Seq<char>, Seq<char>, Seq<char>))
    requires
        is_mantissa(s),
    ensures
        is_run_of_digits(r.0),
        is_run_of_digits(r.2),
        r.0.len() + r.2.len() > 0,
        r.1 == seq!['.'] || (r.1.len() == 0 && r.2.len() == 0),
        s == r.0 + r.1 + r.2,
{
    let none = Seq::<char>::empty();
    if s.len() > 0 && all_digits(s) {
        assert forall|i: int| 0 <= i < s.len() implies '0' <= #[trigger] s[i] && s[i] <= '9' by {
            assert(is_digit(s[i]));
        }
        assert(s + none + none == s);
        (s, none, none)
    } else {
        let d = choose|d: int|
            0 <= d < s.len() && #[trigger] s[d] == '.' && all_digits(s.take(d)) && all_digits(
                s.skip(d + 1),
            ) && s.len() > 1;
        let a = s.take(d);
        let b = s.skip(d + 1);
        assert forall|i: int| 0 <= i < a.len() implies '0' <= #[trigger] a[i] && a[i] <= '9' by {
            assert(is_digit(a[i]));
        }
        assert forall|i: int| 0 <= i < b.len() implies '0' <= #[trigger] b[i] && b[i] <= '9' by {
            assert(is_digit(b[i]));
        }
        assert(s == a + seq!['.'] + b);
        (a, seq!['.'], b)
    }
}

} // verus!
