//! Characters and strings: comparison, trimming, splitting at the last dot.
//!
//! Every function here works on the characters of a string, which is what the
//! view of a `str` or a `String` is.

use vstd::prelude::*;

verus! {

/// `String::push` puts one character at the end of the string.
pub assume_specification[ String::push ](s: &mut String, c: char)
    ensures
        final(s)@ == old(s)@.push(c),
;

/// What the `{:?}` form of a string is: the string in double quotes, with the
/// characters escaped that do not print as themselves.
pub uninterp spec fn debug_text(s: Seq<char>) -> Seq<char>;

/// A text of printable ASCII characters, without quotes and backslashes.
pub open spec fn is_plain(s: Seq<char>) -> bool {
    forall|i: int|
        0 <= i < s.len() ==> ' ' <= #[trigger] s[i] && s[i] <= '~' && s[i] != '"' && s[i] != '\''
            && s[i] != '\\'
}

/// The `{:?}` form of a string, made by the `Debug` impl of `str` through `format!`:
/// the string in double quotes, with some of its characters escaped. Which characters
/// these are is a table of the Unicode database, so the contract names the result, as a
/// function of the string. It only adds that printable ASCII characters other than
/// quotes and the backslash are not among them.
#[verifier::external_body]
pub(crate) fn quoted(s: &str) -> (r: String)
    ensures
        r@ == debug_text(s@),
        is_plain(s@) ==> r@ == seq!['"'] + s@ + seq!['"'],
{
    format!("{:?}", s)
}

/// An ASCII decimal digit.
pub open spec fn is_digit(c: char) -> bool {
    '0' <= c && c <= '9'
}

/// An ASCII letter.
pub open spec fn is_letter(c: char) -> bool {
    ('a' <= c && c <= 'z') || ('A' <= c && c <= 'Z')
}

/// A character with the Unicode `White_Space` property.
pub open spec fn is_white_space(c: char) -> bool {
    ||| '\u{9}' <= c && c <= '\u{d}'
    ||| c == ' '
    ||| c == '\u{85}'
    ||| c == '\u{a0}'
    ||| c == '\u{1680}'
    ||| '\u{2000}' <= c && c <= '\u{200a}'
    ||| c == '\u{2028}'
    ||| c == '\u{2029}'
    ||| c == '\u{202f}'
    ||| c == '\u{205f}'
    ||| c == '\u{3000}'
}

/// `s` without the white space at its two ends.
pub open spec fn trimmed(s: Seq<char>) -> Seq<char>
    decreases s.len(),
{
    if s.len() == 0 {
        s
    } else if is_white_space(s.first()) {
        trimmed(s.drop_first())
    } else if is_white_space(s.last()) {
        trimmed(s.drop_last())
    } else {
        s
    }
}

/// Where the last `.` of `s` is, if there is one.
pub open spec fn last_dot(s: Seq<char>) -> Option<int>
    decreases s.len(),
{
    if s.len() == 0 {
        None
    } else if s.last() == '.' {
        Some(s.len() - 1)
    } else {
        last_dot(s.drop_last())
    }
}

/// The text before the last `.`, or all of it where there is no dot.
pub open spec fn before_last_dot(s: Seq<char>) -> Seq<char> {
    match last_dot(s) {
        Some(i) => s.take(i),
        None => s,
    }
}

/// The text after the last `.`, or all of it where there is no dot.
pub open spec fn after_last_dot(s: Seq<char>) -> Seq<char> {
    match last_dot(s) {
        Some(i) => s.skip(i + 1),
        None => s,
    }
}

/// `s` without the prefix `p`, if it has that prefix.
pub open spec fn without_prefix(s: Seq<char>, p: Seq<char>) -> Option<Seq<char>> {
    if p.is_prefix_of(s) {
        Some(s.skip(p.len() as int))
    } else {
        None
    }
}

/// Whether two strings hold the same characters.
pub fn same(a: &str, b: &str) -> (r: bool)
    ensures
        r == (a@ == b@),
{
    let mut left = a.chars();
    let mut right = b.chars();
    let ghost mut done: int = 0;
    proof {
        assert(a@.skip(0) == a@);
        assert(b@.skip(0) == b@);
    }
    loop
        invariant
            0 <= done <= a@.len(),
            0 <= done <= b@.len(),
            a@.take(done) == b@.take(done),
            vstd::std_specs::iter::IteratorSpec::remaining(&left) == a@.skip(done),
            vstd::std_specs::iter::IteratorSpec::remaining(&right) == b@.skip(done),
        decreases a@.len() - done,
    {
        let x = left.next();
        let y = right.next();
        match (x, y) {
            (None, None) => {
                assert(a@.take(done) == a@);
                assert(b@.take(done) == b@);
                return true;
            },
            (Some(c), Some(d)) => {
                if c != d {
                    assert(a@[done] != b@[done]);
                    return false;
                }
                proof {
                    assert(a@.take(done + 1) == a@.take(done).push(c));
                    assert(b@.take(done + 1) == b@.take(done).push(d));
                    assert(a@.skip(done).drop_first() == a@.skip(done + 1));
                    assert(b@.skip(done).drop_first() == b@.skip(done + 1));
                    done = done + 1;
                }
            },
            _ => {
                assert(a@.len() != b@.len());
                return false;
            },
        }
    }
}

/// The characters of a string.
pub fn chars_of(s: &str) -> (r: Vec<char>)
    ensures
        r@ == s@,
{
    let mut chars: Vec<char> = Vec::new();
    for c in it: s.chars()
        invariant
            chars@ == s@.take(it.index() as int),
            it.seq() == s@,
    {
        chars.push(c);
        proof {
            assert(s@.take(it.index() + 1) == s@.take(it.index() as int).push(c));
        }
    }
    proof {
        assert(s@.take(s@.len() as int) == s@);
    }
    chars
}

/// The string made of some characters.
pub fn text_of(chars: &Vec<char>) -> (r: String)
    ensures
        r@ == chars@,
{
    let mut s = String::new();
    let mut i: usize = 0;
    while i < chars.len()
        invariant
            i <= chars.len(),
            s@ == chars@.take(i as int),
        decreases chars.len() - i,
    {
        s.push(chars[i]);
        proof {
            assert(chars@.take(i + 1) == chars@.take(i as int).push(chars@[i as int]));
        }
        i = i + 1;
    }
    proof {
        assert(chars@.take(chars@.len() as int) == chars@);
    }
    s
}

/// A copy of an optional string.
pub fn owned(s: Option<&str>) -> (r: Option<String>)
    ensures
        r.deep_view() == s.deep_view(),
{
    match s {
        Some(s) => Some(s.to_owned()),
        None => None,
    }
}

fn white_space(c: char) -> (r: bool)
    ensures
        r == is_white_space(c),
{
    ('\u{9}' <= c && c <= '\u{d}') || c == ' ' || c == '\u{85}' || c == '\u{a0}' || c == '\u{1680}'
        || ('\u{2000}' <= c && c <= '\u{200a}') || c == '\u{2028}' || c == '\u{2029}'
        || c == '\u{202f}' || c == '\u{205f}' || c == '\u{3000}'
}

/// A string without the white space at its two ends.
pub fn trim(s: &str) -> (r: &str)
    ensures
        r@ == trimmed(s@),
{
    let chars = chars_of(s);
    let mut from: usize = 0;
    let mut to: usize = chars.len();
    proof {
        assert(s@.subrange(0, to as int) == s@);
    }
    while from < to && white_space(chars[from])
        invariant
            from <= to == chars.len(),
            chars@ == s@,
            trimmed(s@) == trimmed(s@.subrange(from as int, to as int)),
        decreases to - from,
    {
        proof {
            let rest = s@.subrange(from as int, to as int);
            assert(rest.drop_first() == s@.subrange(from + 1, to as int));
        }
        from = from + 1;
    }
    while from < to && white_space(chars[to - 1])
        invariant
            from <= to <= chars.len(),
            chars@ == s@,
            from < to ==> !is_white_space(s@[from as int]),
            trimmed(s@) == trimmed(s@.subrange(from as int, to as int)),
        decreases to - from,
    {
        proof {
            let rest = s@.subrange(from as int, to as int);
            assert(rest.drop_last() == s@.subrange(from as int, to - 1));
        }
        to = to - 1;
    }
    s.substring_char(from, to)
}

/// Where the last `.` of a text is, counted in characters.
pub fn find_last_dot(chars: &Vec<char>) -> (r: Option<usize>)
    ensures
        match r {
            Some(i) => last_dot(chars@) == Some(i as int) && i < chars.len(),
            None => last_dot(chars@) is None,
        },
{
    let mut n: usize = chars.len();
    proof {
        assert(chars@.take(n as int) == chars@);
    }
    while n > 0
        invariant
            n <= chars.len(),
            last_dot(chars@) == last_dot(chars@.take(n as int)),
        decreases n,
    {
        if chars[n - 1] == '.' {
            return Some(n - 1);
        }
        proof {
            assert(chars@.take(n as int).drop_last() == chars@.take(n - 1));
        }
        n = n - 1;
    }
    None
}

/// A string without a prefix, if it has that prefix.
pub fn strip_prefix<'a>(s: &'a str, p: &str) -> (r: Option<&'a str>)
    ensures
        r.deep_view() == without_prefix(s@, p@),
{
    let len = s.unicode_len();
    let n = p.unicode_len();
    if n > len {
        return None;
    }
    proof {
        assert(s@.subrange(0, n as int) == s@.take(n as int));
        assert(s@.subrange(n as int, len as int) == s@.skip(n as int));
    }
    if same(s.substring_char(0, n), p) {
        Some(s.substring_char(n, len))
    } else {
        None
    }
}

/// Whether a string ends with another.
pub fn ends_with(s: &str, p: &str) -> (r: bool)
    ensures
        r == p@.is_suffix_of(s@),
{
    let len = s.unicode_len();
    let n = p.unicode_len();
    if n > len {
        return false;
    }
    same(s.substring_char(len - n, len), p)
}

/// Whether a string starts with a character.
pub fn starts_with(s: &str, c: char) -> (r: bool)
    ensures
        r == (s@.len() > 0 && s@[0] == c),
{
    if s.is_empty() {
        false
    } else {
        s.get_char(0) == c
    }
}

// ---------------------------------------------------------------------------
// Laws
// ---------------------------------------------------------------------------


/// White space is the tab, the line feed, the vertical tab, the form feed and the
/// carriage return, the space, and the other code points that Unicode calls so.
pub proof fn law_white_space(c: char)
    ensures
        is_white_space(c) <==> {
            let n = c as u32;
            ||| 9 <= n <= 13
            ||| n == 32
            ||| n == 0x85
            ||| n == 0xa0
            ||| n == 0x1680
            ||| 0x2000 <= n <= 0x200a
            ||| n == 0x2028
            ||| n == 0x2029
            ||| n == 0x202f
            ||| n == 0x205f
            ||| n == 0x3000
        },
{
}

/// A letter is one of the twenty-six of either case, and a digit one of the ten.
pub proof fn law_letters_and_digits(c: char)
    ensures
        is_digit(c) <==> 48 <= c as u32 <= 57,
        is_letter(c) <==> 65 <= c as u32 <= 90 || 97 <= c as u32 <= 122,
{
}

/// Trimming takes the white space off both ends and nothing else: what is left neither
/// starts nor ends with white space, and everything before and behind it is white space.
pub proof fn law_trimming_takes_off_white_space_only(s: Seq<char>) -> (r: (int, int))
    ensures
        0 <= r.0 <= r.1 <= s.len(),
        trimmed(s) == s.subrange(r.0, r.1),
        forall|i: int| 0 <= i < r.0 ==> is_white_space(#[trigger] s[i]),
        forall|i: int| r.1 <= i < s.len() ==> is_white_space(#[trigger] s[i]),
        r.0 < r.1 ==> !is_white_space(s[r.0]) && !is_white_space(s[r.1 - 1]),
    decreases s.len(),
{
    if s.len() == 0 {
        assert(s == s.subrange(0, 0));
        (0, 0)
    } else if is_white_space(s.first()) {
        let rest = s.drop_first();
        let (a, b) = law_trimming_takes_off_white_space_only(rest);
        assert(rest.subrange(a, b) == s.subrange(a + 1, b + 1));
        assert forall|i: int| 0 <= i < a + 1 implies is_white_space(#[trigger] s[i]) by {
            if i > 0 {
                assert(s[i] == rest[i - 1]);
            }
        }
        assert forall|i: int| b + 1 <= i < s.len() implies is_white_space(#[trigger] s[i]) by {
            assert(s[i] == rest[i - 1]);
        }
        (a + 1, b + 1)
    } else if is_white_space(s.last()) {
        let rest = s.drop_last();
        let (a, b) = law_trimming_takes_off_white_space_only(rest);
        assert(rest.subrange(a, b) == s.subrange(a, b));
        assert forall|i: int| 0 <= i < a implies is_white_space(#[trigger] s[i]) by {
            assert(s[i] == rest[i]);
        }
        assert forall|i: int| b <= i < s.len() implies is_white_space(#[trigger] s[i]) by {
            if i < rest.len() {
                assert(s[i] == rest[i]);
            }
        }
        (a, b)
    } else {
        assert(s == s.subrange(0, s.len() as int));
        (0, s.len() as int)
    }
}

/// A name with a dot is what stands before its last dot, that dot, and what stands
/// behind it, which holds none. A name without a dot is both.
pub proof fn law_the_last_dot_splits_a_name(s: Seq<char>)
    ensures
        s.contains('.') ==> s == before_last_dot(s) + seq!['.'] + after_last_dot(s)
            && !after_last_dot(s).contains('.'),
        !s.contains('.') ==> before_last_dot(s) == s && after_last_dot(s) == s,
{
    lemma_last_dot(s);
    match last_dot(s) {
        Some(i) => {
            assert(s[i] == '.');
            assert(s == s.take(i) + seq!['.'] + s.skip(i + 1));
            let back = s.skip(i + 1);
            assert forall|j: int| 0 <= j < back.len() implies back[j] != '.' by {
                assert(back[j] == s[i + 1 + j]);
            }
        },
        None => {},
    }
}

proof fn lemma_last_dot(s: Seq<char>)
    ensures
        match last_dot(s) {
            Some(i) => 0 <= i < s.len() && s[i] == '.' && forall|j: int|
                i < j < s.len() ==> s[j] != '.',
            None => !s.contains('.'),
        },
    decreases s.len(),
{
    if s.len() > 0 && s.last() != '.' {
        let rest = s.drop_last();
        lemma_last_dot(rest);
        match last_dot(rest) {
            Some(i) => {
                assert forall|j: int| i < j < s.len() implies s[j] != '.' by {
                    if j < rest.len() {
                        assert(s[j] == rest[j]);
                    }
                }
            },
            None => {
                if s.contains('.') {
                    let j = choose|j: int| 0 <= j < s.len() && s[j] == '.';
                    assert(rest[j] == '.');
                }
            },
        }
    }
}

/// Taking a prefix off undoes putting it in front, and nothing else has it.
pub proof fn law_taking_a_prefix_off_undoes_putting_it_on(p: Seq<char>, rest: Seq<char>, s: Seq<char>)
    ensures
        without_prefix(p + rest, p) == Some(rest),
        without_prefix(s, p) matches Some(r) ==> s == p + r,
        without_prefix(s, p) is None ==> !p.is_prefix_of(s),
{
    assert((p + rest).subrange(0, p.len() as int) == p);
    assert((p + rest).skip(p.len() as int) == rest);
    if p.is_prefix_of(s) {
        assert(s == p + s.skip(p.len() as int));
    }
}

} // verus!
