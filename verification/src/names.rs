//! Component names: which message a signal belongs to, and the identifier that a
//! `.dbc` gives a component.

use crate::text::{
    after_last_dot, before_last_dot, chars_of, find_last_dot, is_digit, is_letter, strip_prefix,
    text_of, without_prefix,
};
use vstd::prelude::*;

verus! {

/// A character that an identifier can hold besides `_`.
pub open spec fn is_alphanumeric(c: char) -> bool {
    is_digit(c) || is_letter(c)
}

/// A valid DBC identifier: `[A-Za-z_][A-Za-z0-9_]*`.
pub open spec fn is_identifier(s: Seq<char>) -> bool {
    &&& s.len() > 0
    &&& !is_digit(s[0])
    &&& forall|i: int| 0 <= i < s.len() ==> is_alphanumeric(#[trigger] s[i]) || s[i] == '_'
}

/// A name without the file's prefix `"{stem}."`, or without `"DBC."` where it has
/// not that one; never without both.
pub open spec fn without_qualifier(name: Seq<char>, stem: Seq<char>) -> Seq<char> {
    match without_prefix(name, stem + "."@) {
        Some(rest) => rest,
        None => match without_prefix(name, "DBC."@) {
            Some(rest) => rest,
            None => name,
        },
    }
}

/// `s` with every run of other characters and underscores made one `_`.
pub open spec fn collapsed(s: Seq<char>) -> Seq<char>
    decreases s.len(),
{
    if s.len() == 0 {
        s
    } else {
        let before = collapsed(s.drop_last());
        if is_alphanumeric(s.last()) {
            before.push(s.last())
        } else if before.len() > 0 && before.last() == '_' {
            before
        } else {
            before.push('_')
        }
    }
}

/// `s` without the underscores at its two ends.
pub open spec fn without_outer_underscores(s: Seq<char>) -> Seq<char>
    decreases s.len(),
{
    if s.len() == 0 {
        s
    } else if s.first() == '_' {
        without_outer_underscores(s.drop_first())
    } else if s.last() == '_' {
        without_outer_underscores(s.drop_last())
    } else {
        s
    }
}

/// The identifier that stands for a component's name.
pub open spec fn identifier(name: Seq<char>, stem: Seq<char>) -> Seq<char> {
    let body = without_outer_underscores(collapsed(without_qualifier(name, stem)));
    if body.len() == 0 {
        "Unnamed"@
    } else if is_digit(body[0]) {
        seq!['_'] + body
    } else {
        body
    }
}

/// The name of a message without the file's prefix; dots inside it stay.
pub open spec fn message_name(full_name: Seq<char>, stem: Seq<char>) -> Seq<char> {
    match without_prefix(full_name, stem + "."@) {
        Some(rest) => rest,
        None => full_name,
    }
}

/// The message that a signal belongs to: everything before the last `.`.
pub fn parent_name(full_name: &str) -> (r: &str)
    ensures
        r@ == before_last_dot(full_name@),
{
    let chars = chars_of(full_name);
    match find_last_dot(&chars) {
        Some(i) => {
            proof {
                assert(full_name@.subrange(0, i as int) == full_name@.take(i as int));
            }
            full_name.substring_char(0, i)
        },
        None => full_name,
    }
}

/// A signal's own name: everything after the last `.`.
pub fn signal_local_name(full_name: &str) -> (r: &str)
    ensures
        r@ == after_last_dot(full_name@),
{
    let chars = chars_of(full_name);
    match find_last_dot(&chars) {
        Some(i) => {
            proof {
                assert(full_name@.subrange(i + 1, full_name@.len() as int) == full_name@.skip(
                    i + 1,
                ));
            }
            full_name.substring_char(i + 1, chars.len())
        },
        None => full_name,
    }
}

/// A message's own name: the file prefix stripped, interior dots kept.
pub fn message_local_name<'a>(full_name: &'a str, file_stem: &str) -> (r: &'a str)
    ensures
        r@ == message_name(full_name@, file_stem@),
{
    let prefix = file_stem.to_owned().concat(".");
    match strip_prefix(full_name, prefix.as_str()) {
        Some(rest) => rest,
        None => full_name,
    }
}

fn alphanumeric(c: char) -> (r: bool)
    ensures
        r == is_alphanumeric(c),
{
    ('0' <= c && c <= '9') || ('a' <= c && c <= 'z') || ('A' <= c && c <= 'Z')
}

/// Turn a component name into a valid DBC identifier.
///
/// In order: strip a leading `"{file_stem}."` or `"DBC."`, whichever matches
/// first and never both; collapse every run of other characters, and of
/// underscores, to a single `_`; trim `_` at both ends; put `Unnamed` where
/// nothing is left; and put `_` in front of a leading digit.
pub fn sanitize(name: &str, file_stem: &str) -> (r: String)
    ensures
        r@ == identifier(name@, file_stem@),
{
    let prefix = file_stem.to_owned().concat(".");
    let rest = match strip_prefix(name, prefix.as_str()) {
        Some(rest) => rest,
        None => match strip_prefix(name, "DBC.") {
            Some(rest) => rest,
            None => name,
        },
    };
    let chars = chars_of(rest);
    let mut out: Vec<char> = Vec::new();
    let mut i: usize = 0;
    proof {
        assert(rest@ == without_qualifier(name@, file_stem@));
        assert(chars@.take(0) == Seq::<char>::empty());
    }
    while i < chars.len()
        invariant
            i <= chars.len(),
            out@ == collapsed(chars@.take(i as int)),
        decreases chars.len() - i,
    {
        proof {
            assert(chars@.take(i + 1).drop_last() == chars@.take(i as int));
        }
        if alphanumeric(chars[i]) {
            out.push(chars[i]);
        } else if out.len() == 0 || out[out.len() - 1] != '_' {
            out.push('_');
        }
        i = i + 1;
    }
    proof {
        assert(chars@.take(chars@.len() as int) == chars@);
        assert(out@.subrange(0, out@.len() as int) == out@);
    }
    let mut from: usize = 0;
    let mut to: usize = out.len();
    while from < to && out[from] == '_'
        invariant
            from <= to == out.len(),
            without_outer_underscores(out@) == without_outer_underscores(
                out@.subrange(from as int, to as int),
            ),
        decreases to - from,
    {
        proof {
            let part = out@.subrange(from as int, to as int);
            assert(part.drop_first() == out@.subrange(from + 1, to as int));
        }
        from = from + 1;
    }
    while from < to && out[to - 1] == '_'
        invariant
            from <= to <= out.len(),
            from < to ==> out@[from as int] != '_',
            without_outer_underscores(out@) == without_outer_underscores(
                out@.subrange(from as int, to as int),
            ),
        decreases to - from,
    {
        proof {
            let part = out@.subrange(from as int, to as int);
            assert(part.drop_last() == out@.subrange(from as int, to - 1));
        }
        to = to - 1;
    }
    let ghost body = out@.subrange(from as int, to as int);
    assert(body == without_outer_underscores(out@));
    if from == to {
        return "Unnamed".to_owned();
    }
    let mut result: Vec<char> = Vec::new();
    if '0' <= out[from] && out[from] <= '9' {
        result.push('_');
    }
    let ghost front = result@;
    let mut k = from;
    while k < to
        invariant
            from <= k <= to <= out.len(),
            body == out@.subrange(from as int, to as int),
            result@ == front + body.take(k - from),
        decreases to - k,
    {
        proof {
            assert(body.take(k - from + 1) == body.take(k - from).push(out@[k as int]));
        }
        result.push(out[k]);
        k = k + 1;
    }
    proof {
        assert(body.take(body.len() as int) == body);
        assert(Seq::<char>::empty() + body == body);
    }
    text_of(&result)
}

// ---------------------------------------------------------------------------
// Laws
// ---------------------------------------------------------------------------

/// A collapsed text holds only letters, digits and underscores, no two
/// underscores in a row.
proof fn lemma_collapsed(s: Seq<char>)
    ensures
        forall|i: int|
            0 <= i < collapsed(s).len() ==> is_alphanumeric(#[trigger] collapsed(s)[i])
                || collapsed(s)[i] == '_',
        forall|i: int|
            0 <= i < collapsed(s).len() - 1 ==> !(#[trigger] collapsed(s)[i] == '_' && collapsed(
                s,
            )[i + 1] == '_'),
    decreases s.len(),
{
    if s.len() > 0 {
        lemma_collapsed(s.drop_last());
        let before = collapsed(s.drop_last());
        let all = collapsed(s);
        assert forall|i: int| 0 <= i < all.len() implies is_alphanumeric(#[trigger] all[i])
            || all[i] == '_' by {
            if i < before.len() {
                assert(all[i] == before[i]);
            }
        }
        assert forall|i: int| 0 <= i < all.len() - 1 implies !(#[trigger] all[i] == '_' && all[i
            + 1] == '_') by {
            assert(all[i] == before[i]);
        }
    }
}

/// What is left between the outer underscores is a part of the text that neither
/// starts nor ends with one.
proof fn lemma_without_outer_underscores(s: Seq<char>) -> (from: int)
    ensures
        0 <= from <= from + without_outer_underscores(s).len() <= s.len(),
        without_outer_underscores(s) == s.subrange(
            from,
            from + without_outer_underscores(s).len(),
        ),
        without_outer_underscores(s).len() > 0 ==> without_outer_underscores(s).first() != '_'
            && without_outer_underscores(s).last() != '_',
    decreases s.len(),
{
    if s.len() == 0 {
        assert(s == s.subrange(0, 0));
        0
    } else if s.first() == '_' {
        let from = lemma_without_outer_underscores(s.drop_first());
        from + 1
    } else if s.last() == '_' {
        lemma_without_outer_underscores(s.drop_last())
    } else {
        assert(s == s.subrange(0, s.len() as int));
        0
    }
}

/// Every name becomes a valid DBC identifier, whatever characters it holds.
pub proof fn law_sanitized_names_are_identifiers(name: Seq<char>, stem: Seq<char>)
    ensures
        is_identifier(identifier(name, stem)),
{
    let rest = collapsed(without_qualifier(name, stem));
    let body = without_outer_underscores(rest);
    lemma_collapsed(without_qualifier(name, stem));
    let from = lemma_without_outer_underscores(rest);
    assert forall|i: int| 0 <= i < body.len() implies is_alphanumeric(#[trigger] body[i])
        || body[i] == '_' by {
        assert(body[i] == rest[from + i]);
    }
    reveal_strlit("Unnamed");
}

/// A text of letters and digits, with single underscores between them, is its own
/// collapsed form.
proof fn lemma_collapsed_is_stable(s: Seq<char>)
    requires
        forall|i: int| 0 <= i < s.len() ==> is_alphanumeric(#[trigger] s[i]) || s[i] == '_',
        forall|i: int| 0 <= i < s.len() - 1 ==> !(#[trigger] s[i] == '_' && s[i + 1] == '_'),
    ensures
        collapsed(s) == s,
    decreases s.len(),
{
    if s.len() > 0 {
        let before = s.drop_last();
        assert forall|i: int| 0 <= i < before.len() implies is_alphanumeric(#[trigger] before[i])
            || before[i] == '_' by {
            assert(before[i] == s[i]);
        }
        assert forall|i: int| 0 <= i < before.len() - 1 implies !(#[trigger] before[i] == '_'
            && before[i + 1] == '_') by {
            assert(before[i] == s[i]);
        }
        lemma_collapsed_is_stable(before);
        if before.len() > 0 {
            assert(s[before.len() - 1] == before.last());
        }
        assert(before.push(s.last()) == s);
    }
}

/// Turning an identifier into an identifier again changes nothing, whatever the
/// file is called.
pub proof fn law_sanitize_is_idempotent(name: Seq<char>, stem: Seq<char>, other: Seq<char>)
    ensures
        identifier(identifier(name, stem), other) == identifier(name, stem),
{
    let rest = collapsed(without_qualifier(name, stem));
    let body = without_outer_underscores(rest);
    let id = identifier(name, stem);
    lemma_collapsed(without_qualifier(name, stem));
    let from = lemma_without_outer_underscores(rest);
    law_sanitized_names_are_identifiers(name, stem);
    reveal_strlit(".");
    reveal_strlit("DBC.");
    reveal_strlit("Unnamed");
    // An identifier holds no dot, so no prefix is stripped from it.
    let prefix = other + "."@;
    if prefix.is_prefix_of(id) {
        assert(prefix[prefix.len() - 1] == '.');
        assert(id[prefix.len() - 1] == '.');
    }
    if ("DBC."@).is_prefix_of(id) {
        assert(("DBC."@)[3] == '.');
        assert(id[3] == '.');
    }
    assert(without_qualifier(id, other) == id);
    assert forall|i: int| 0 <= i < body.len() - 1 implies !(#[trigger] body[i] == '_' && body[i
        + 1] == '_') by {
        assert(body[i] == rest[from + i]);
        assert(body[i + 1] == rest[from + i + 1]);
    }
    assert forall|i: int| 0 <= i < id.len() - 1 implies !(#[trigger] id[i] == '_' && id[i + 1]
        == '_') by {
        if body.len() > 0 && is_digit(body[0]) {
            assert(id[i + 1] == body[i]);
            if i > 0 {
                assert(id[i] == body[i - 1]);
            }
        }
    }
    lemma_collapsed_is_stable(id);
    if body.len() > 0 && is_digit(body[0]) {
        assert(id.drop_first() == body);
        assert(without_outer_underscores(body) == body);
        assert(without_outer_underscores(id) == body);
    } else {
        assert(without_outer_underscores(id) == id);
    }
}

/// A letter or a digit of ASCII.
spec fn is_kept(c: char) -> bool {
    ('0' <= c && c <= '9') || ('A' <= c && c <= 'Z') || ('a' <= c && c <= 'z')
}

/// A text of underscores.
spec fn is_blank(s: Seq<char>) -> bool {
    forall|i: int| 0 <= i < s.len() ==> s[i] == '_'
}

/// Underscores around a text that neither starts nor ends with one are taken off, and it
/// is left as it is.
proof fn lemma_outer_underscores(u: Seq<char>, core: Seq<char>, v: Seq<char>)
    requires
        is_blank(u),
        is_blank(v),
        core.len() > 0 ==> core.first() != '_' && core.last() != '_',
    ensures
        without_outer_underscores(u + core + v) == core,
    decreases u.len() + core.len() + v.len(),
{
    let s = u + core + v;
    if s.len() == 0 {
        assert(s == core);
    } else if u.len() > 0 {
        assert(s.first() == u[0]);
        assert(s.drop_first() == u.drop_first() + core + v);
        assert(is_blank(u.drop_first()));
        lemma_outer_underscores(u.drop_first(), core, v);
    } else if core.len() == 0 {
        assert(s.first() == v[0]);
        assert(s.drop_first() == u + core + v.drop_first());
        assert(is_blank(v.drop_first()));
        lemma_outer_underscores(u, core, v.drop_first());
    } else {
        assert(s.first() == core.first());
        if v.len() > 0 {
            assert(s.last() == v.last());
            assert(v.last() == v[v.len() - 1]);
            assert(s.drop_last() == u + core + v.drop_last());
            assert(is_blank(v.drop_last()));
            lemma_outer_underscores(u, core, v.drop_last());
        } else {
            assert(s.last() == core.last());
            assert(s == core);
        }
    }
}

/// What the outer underscores leave, with what they are.
proof fn lemma_outer_parts(s: Seq<char>) -> (r: (Seq<char>, Seq<char>))
    ensures
        is_blank(r.0),
        is_blank(r.1),
        s == r.0 + without_outer_underscores(s) + r.1,
        without_outer_underscores(s).len() > 0 ==> without_outer_underscores(s).first() != '_'
            && without_outer_underscores(s).last() != '_',
    decreases s.len(),
{
    let core = without_outer_underscores(s);
    if s.len() == 0 {
        assert(s == Seq::<char>::empty() + core + Seq::<char>::empty());
        (Seq::empty(), Seq::empty())
    } else if s.first() == '_' {
        let (u, v) = lemma_outer_parts(s.drop_first());
        assert(s == seq!['_'] + s.drop_first());
        assert(seq!['_'] + (u + core + v) == (seq!['_'] + u) + core + v);
        (seq!['_'] + u, v)
    } else if s.last() == '_' {
        let (u, v) = lemma_outer_parts(s.drop_last());
        assert(s == s.drop_last().push('_'));
        assert((u + core + v).push('_') == u + core + v.push('_'));
        (u, v.push('_'))
    } else {
        assert(s == Seq::<char>::empty() + core + Seq::<char>::empty());
        (Seq::empty(), Seq::empty())
    }
}

/// A collapsed text ends in an underscore exactly when the text ends in a character that
/// is neither a letter nor a digit, and is nothing but underscores exactly when the text
/// has neither.
proof fn lemma_collapsed_end(s: Seq<char>)
    ensures
        s.len() > 0 ==> collapsed(s).len() > 0,
        s.len() > 0 ==> (collapsed(s).last() == '_' <==> !is_kept(s.last())),
        is_blank(collapsed(s)) <==> (forall|i: int| 0 <= i < s.len() ==> !is_kept(#[trigger] s[i])),
    decreases s.len(),
{
    if s.len() > 0 {
        let before = s.drop_last();
        let a = collapsed(before);
        let b = collapsed(s);
        lemma_collapsed_end(before);
        if is_kept(s.last()) {
            assert(b[b.len() - 1] == s.last());
            assert(s[s.len() - 1] == s.last());
        } else {
            if is_blank(a) {
                assert forall|i: int| 0 <= i < s.len() implies !is_kept(#[trigger] s[i]) by {
                    if i < before.len() {
                        assert(s[i] == before[i]);
                    }
                }
            } else {
                let i = choose|i: int| 0 <= i < before.len() && is_kept(#[trigger] before[i]);
                assert(s[i] == before[i]);
                let k = choose|k: int| 0 <= k < a.len() && a[k] != '_';
                assert(b[k] == a[k]);
            }
        }
    }
}

/// What is left of a name when one character more is put behind it.
proof fn lemma_one_more_character(s: Seq<char>, c: char)
    ensures
        ({
            let core = without_outer_underscores(collapsed(s));
            let more = without_outer_underscores(collapsed(s.push(c)));
            &&& (core.len() == 0 <==> forall|i: int|
                0 <= i < s.len() ==> !is_kept(#[trigger] s[i]))
            &&& !is_kept(c) ==> more == core
            &&& is_kept(c) ==> more == (if core.len() == 0 {
                seq![c]
            } else if is_kept(s.last()) {
                core.push(c)
            } else {
                core + seq!['_', c]
            })
        }),
{
    let a = collapsed(s);
    let b = collapsed(s.push(c));
    assert(s.push(c).drop_last() == s);
    lemma_collapsed_end(s);
    lemma_collapsed(s);
    let (u, v) = lemma_outer_parts(a);
    let core = without_outer_underscores(a);
    if core.len() == 0 {
        assert(a == u + v);
        assert(is_blank(a));
        if is_kept(c) {
            assert(b == a + seq![c] + Seq::<char>::empty());
            lemma_outer_underscores(a, seq![c], Seq::empty());
        } else {
            assert(is_blank(b));
            assert(b == b + Seq::<char>::empty() + Seq::<char>::empty());
            lemma_outer_underscores(b, Seq::empty(), Seq::empty());
        }
    } else {
        assert(a[u.len() as int] == core[0]);
        assert(core[0] != '_');
        assert(s.len() > 0);
        if is_kept(s.last()) {
            if v.len() > 0 {
                assert(a.last() == v[v.len() - 1]);
            }
            assert(v == Seq::<char>::empty());
            if is_kept(c) {
                assert(b == u + core.push(c) + Seq::<char>::empty());
                lemma_outer_underscores(u, core.push(c), Seq::empty());
            } else {
                assert(b == u + core + seq!['_']);
                lemma_outer_underscores(u, core, seq!['_']);
            }
        } else {
            if v.len() == 0 {
                assert(a.last() == core.last());
            }
            if v.len() > 1 {
                let k = a.len() - 2;
                assert(a[k] == v[v.len() - 2] && a[k + 1] == v[v.len() - 1]);
            }
            assert(v == seq!['_']);
            if is_kept(c) {
                let longer = core + seq!['_', c];
                assert(longer.first() == core.first());
                assert(b == u + longer + Seq::<char>::empty());
                lemma_outer_underscores(u, longer, Seq::empty());
            } else {
                assert(b == a);
            }
        }
    }
}

/// A name that neither the file's prefix nor `DBC.` stands in front of.
pub open spec fn is_unqualified(name: Seq<char>, stem: Seq<char>) -> bool {
    !(stem + "."@).is_prefix_of(name) && !("DBC."@).is_prefix_of(name)
}

/// How the identifier of a name grows with the name, one character at a time. A letter or
/// digit goes behind it, with one underscore in between where other characters stood
/// before it; a first one that is a digit gets an underscore in front. Any other
/// character changes nothing until a letter or digit follows. So no letter or digit is
/// ever lost, however long the name is.
pub proof fn law_an_identifier_grows_with_its_name(name: Seq<char>, c: char, stem: Seq<char>)
    requires
        is_unqualified(name.push(c), stem),
    ensures
        ({
            let kept = ('0' <= c && c <= '9') || ('A' <= c && c <= 'Z') || ('a' <= c && c <= 'z');
            let bare = forall|i: int|
                0 <= i < name.len() ==> !(('0' <= #[trigger] name[i] && name[i] <= '9') || ('A'
                    <= name[i] && name[i] <= 'Z') || ('a' <= name[i] && name[i] <= 'z'));
            let joined = name.len() > 0 && (('0' <= name.last() && name.last() <= '9') || ('A'
                <= name.last() && name.last() <= 'Z') || ('a' <= name.last() && name.last()
                <= 'z'));
            &&& bare ==> identifier(name, stem) == "Unnamed"@
            &&& !kept ==> identifier(name.push(c), stem) == identifier(name, stem)
            &&& kept && bare ==> identifier(name.push(c), stem) == (if '0' <= c && c <= '9' {
                seq!['_', c]
            } else {
                seq![c]
            })
            &&& kept && !bare && joined ==> identifier(name.push(c), stem) == identifier(
                name,
                stem,
            ).push(c)
            &&& kept && !bare && !joined ==> identifier(name.push(c), stem) == identifier(
                name,
                stem,
            ) + seq!['_', c]
        }),
{
    let longer = name.push(c);
    let prefix = stem + "."@;
    if prefix.is_prefix_of(name) {
        assert(longer.subrange(0, prefix.len() as int) == name.subrange(0, prefix.len() as int));
    }
    if ("DBC."@).is_prefix_of(name) {
        let n = ("DBC."@).len() as int;
        assert(longer.subrange(0, n) == name.subrange(0, n));
    }
    assert(without_qualifier(name, stem) == name);
    assert(without_qualifier(longer, stem) == longer);
    lemma_one_more_character(name, c);
    let core = without_outer_underscores(collapsed(name));
    let more = without_outer_underscores(collapsed(longer));
    let bare = forall|i: int| 0 <= i < name.len() ==> !is_kept(#[trigger] name[i]);
    assert(core.len() == 0 <==> bare);
    assert(bare == (forall|i: int|
        0 <= i < name.len() ==> !(('0' <= #[trigger] name[i] && name[i] <= '9') || ('A'
            <= name[i] && name[i] <= 'Z') || ('a' <= name[i] && name[i] <= 'z')))) by {
        if bare {
            assert forall|i: int| 0 <= i < name.len() implies !(('0' <= #[trigger] name[i]
                && name[i] <= '9') || ('A' <= name[i] && name[i] <= 'Z') || ('a' <= name[i]
                && name[i] <= 'z')) by {
                assert(!is_kept(name[i]));
            }
        }
    }
    if core.len() > 0 && is_kept(c) {
        assert(more[0] == core[0]);
        assert(seq!['_'] + core.push(c) == (seq!['_'] + core).push(c));
        assert(seq!['_'] + (core + seq!['_', c]) == (seq!['_'] + core) + seq!['_', c]);
    }
    if core.len() == 0 && is_kept(c) {
        assert(more[0] == c);
        assert(seq!['_'] + seq![c] == seq!['_', c]);
    }
}

/// The file's prefix and `DBC.` make no difference: the identifier of a name with one in
/// front is that of the rest, which other prefixes do not touch. Only one is taken off.
pub proof fn law_a_qualifier_makes_no_difference(
    rest: Seq<char>,
    stem: Seq<char>,
    other: Seq<char>,
)
    requires
        is_unqualified(rest, other),
    ensures
        identifier(stem + "."@ + rest, stem) == identifier(rest, other),
        !(stem + "."@).is_prefix_of("DBC."@ + rest) ==> identifier("DBC."@ + rest, stem)
            == identifier(rest, other),
{
    let prefix = stem + "."@;
    assert((prefix + rest).subrange(0, prefix.len() as int) == prefix);
    assert((prefix + rest).skip(prefix.len() as int) == rest);
    let n = ("DBC."@).len() as int;
    assert(("DBC."@ + rest).subrange(0, n) == "DBC."@);
    assert(("DBC."@ + rest).skip(n) == rest);
    assert(without_qualifier(rest, other) == rest);
}

/// The letters and digits of a text, in order.
pub open spec fn letters_and_digits(s: Seq<char>) -> Seq<char> {
    s.filter(|c: char| ('0' <= c && c <= '9') || ('A' <= c && c <= 'Z') || ('a' <= c && c <= 'z'))
}

proof fn lemma_more_letters(s: Seq<char>, c: char)
    ensures
        letters_and_digits(s.push(c)) == (if is_kept(c) {
            letters_and_digits(s).push(c)
        } else {
            letters_and_digits(s)
        }),
{
    reveal(Seq::filter);
    assert(s.push(c).drop_last() == s);
}

proof fn lemma_core_keeps_letters(s: Seq<char>)
    ensures
        letters_and_digits(without_outer_underscores(collapsed(s))) == letters_and_digits(s),
    decreases s.len(),
{
    let core = without_outer_underscores(collapsed(s));
    if s.len() == 0 {
        reveal(Seq::filter);
        assert(core == s);
    } else {
        let before = s.drop_last();
        let c = s.last();
        let old_core = without_outer_underscores(collapsed(before));
        assert(before.push(c) == s);
        lemma_core_keeps_letters(before);
        lemma_one_more_character(before, c);
        lemma_more_letters(before, c);
        lemma_more_letters(old_core, c);
        lemma_more_letters(old_core, '_');
        lemma_more_letters(old_core.push('_'), c);
        if is_kept(c) && old_core.len() == 0 {
            assert(core == old_core.push(c));
        } else if is_kept(c) && !is_kept(before.last()) {
            assert(core == old_core.push('_').push(c));
        }
    }
}

/// No letter or digit of a name is lost: those of the identifier are exactly those of the
/// name behind the prefix that is taken off, in order, whatever the name's length. A name
/// that has none there is `Unnamed`.
pub proof fn law_sanitize_keeps_every_letter_and_digit(name: Seq<char>, stem: Seq<char>)
    ensures
        ({
            let prefix = stem + "."@;
            let rest = if prefix.is_prefix_of(name) {
                name.skip(prefix.len() as int)
            } else if ("DBC."@).is_prefix_of(name) {
                name.skip(("DBC."@).len() as int)
            } else {
                name
            };
            if letters_and_digits(rest).len() > 0 {
                letters_and_digits(identifier(name, stem)) == letters_and_digits(rest)
            } else {
                identifier(name, stem) == "Unnamed"@
            }
        }),
{
    let rest = without_qualifier(name, stem);
    let core = without_outer_underscores(collapsed(rest));
    lemma_core_keeps_letters(rest);
    if core.len() > 0 {
        lemma_one_more_character(rest, '_');
        let i = choose|i: int| 0 <= i < rest.len() && is_kept(#[trigger] rest[i]);
        lemma_has_letters(rest, i);
        lemma_letters_behind_an_underscore(core);
    } else {
        reveal(Seq::filter);
    }
}

proof fn lemma_has_letters(s: Seq<char>, i: int)
    requires
        0 <= i < s.len(),
        is_kept(s[i]),
    ensures
        letters_and_digits(s).len() > 0,
    decreases s.len(),
{
    let before = s.drop_last();
    assert(before.push(s.last()) == s);
    lemma_more_letters(before, s.last());
    if i < before.len() {
        lemma_has_letters(before, i);
    }
}

proof fn lemma_letters_behind_an_underscore(s: Seq<char>)
    ensures
        letters_and_digits(seq!['_'] + s) == letters_and_digits(s),
    decreases s.len(),
{
    if s.len() == 0 {
        reveal(Seq::filter);
        assert(Seq::<char>::empty().push('_') == seq!['_'] + s);
        lemma_more_letters(Seq::empty(), '_');
        assert(s == Seq::<char>::empty());
    } else {
        let before = s.drop_last();
        assert(before.push(s.last()) == s);
        assert((seq!['_'] + before).push(s.last()) == seq!['_'] + s);
        lemma_letters_behind_an_underscore(before);
        lemma_more_letters(before, s.last());
        lemma_more_letters(seq!['_'] + before, s.last());
    }
}

/// A message's own name is what stands behind the file's prefix, dots and all, or its
/// full name where it has not that prefix.
pub proof fn law_a_message_name_is_what_is_behind_the_prefix(
    rest: Seq<char>,
    name: Seq<char>,
    stem: Seq<char>,
)
    ensures
        message_name(stem + "."@ + rest, stem) == rest,
        !(stem + "."@).is_prefix_of(name) ==> message_name(name, stem) == name,
{
    let prefix = stem + "."@;
    assert((prefix + rest).subrange(0, prefix.len() as int) == prefix);
    assert((prefix + rest).skip(prefix.len() as int) == rest);
}

} // verus!
