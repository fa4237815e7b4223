//! What a plan says of its config: laws that hold what [`config`](crate::config) reads
//! against the document it was read from.

use crate::config::{
    clash_fault, content_of, contents_of, declared_exports, dir_fault, exports_among, first_clash,
    holder, is_absolute_path, is_bare_stem, is_usable, is_windows_separator,
    law_exports_are_accepted_when_usable_and_distinct, lookup, pair_of, pairs_of, plan_in, plan_of,
    required_directory, starts_with_share, stem_fault, stems_of, Content, DbcConfig, Plan, Setting,
    System,
};
use crate::order::sorted_pairs;
use crate::text::debug_text;
use crate::Fault;
use vstd::prelude::*;

verus! {

/// What a table holds under a key is what the first entry with that key holds, and nothing
/// where there is none.
pub proof fn law_a_key_is_looked_up_by_name(
    table: Seq<(Seq<char>, Content)>,
    key: Seq<char>,
    k: int,
)
    ensures
        0 <= k < table.len() && table[k].0 == key && (forall|j: int|
            0 <= j < k ==> (#[trigger] table[j]).0 != key) ==> lookup(table, key) == Some(
            table[k].1,
        ),
        (forall|j: int| 0 <= j < table.len() ==> (#[trigger] table[j]).0 != key) ==> lookup(
            table,
            key,
        ) is None,
    decreases table.len(),
{
    if table.len() > 0 {
        let rest = table.drop_first();
        law_a_key_is_looked_up_by_name(rest, key, k - 1);
        assert(table[0] == table.first());
        if 0 < k < table.len() && table[k].0 == key && (forall|j: int|
            0 <= j < k ==> (#[trigger] table[j]).0 != key) {
            assert(table[0].0 != key);
            assert forall|j: int| 0 <= j < k - 1 implies (#[trigger] rest[j]).0 != key by {
                assert(rest[j] == table[j + 1]);
            }
        }
        if forall|j: int| 0 <= j < table.len() ==> (#[trigger] table[j]).0 != key {
            assert(table[0].0 != key);
            assert forall|j: int| 0 <= j < rest.len() implies (#[trigger] rest[j]).0 != key by {
                assert(rest[j] == table[j + 1]);
            }
        }
    }
}

/// On unix a path is absolute that starts with a slash, and no other.
pub proof fn law_a_unix_path_is_absolute_from_the_root(rest: Seq<char>, path: Seq<char>)
    ensures
        is_absolute_path(seq!['/'] + rest, System::Unix),
        path.len() == 0 || path[0] != '/' ==> !is_absolute_path(path, System::Unix),
{
}

/// On Windows a path is absolute that has a separator behind a drive, and one with
/// something else there is not. Neither is a path with fewer than two separators in front
/// and no drive.
pub proof fn law_a_windows_path_is_absolute_behind_a_drive(
    letter: char,
    rest: Seq<char>,
    path: Seq<char>,
)
    requires
        ('A' <= letter && letter <= 'Z') || ('a' <= letter && letter <= 'z'),
    ensures
        is_absolute_path(seq![letter, ':', '\\'] + rest, System::Windows),
        is_absolute_path(seq![letter, ':', '/'] + rest, System::Windows),
        rest.len() == 0 || (rest[0] != '/' && rest[0] != '\\') ==> !is_absolute_path(
            seq![letter, ':'] + rest,
            System::Windows,
        ),
        path.len() < 2 ==> !is_absolute_path(path, System::Windows),
        path.len() >= 2 && !((('A' <= path[0] && path[0] <= 'Z') || ('a' <= path[0] && path[0]
            <= 'z')) && path[1] == ':') && !((path[0] == '/' || path[0] == '\\') && (path[1] == '/'
            || path[1] == '\\')) ==> !is_absolute_path(path, System::Windows),
{
    let p = seq![letter, ':'] + rest;
    if rest.len() > 0 {
        assert(p[2] == rest[0]);
    }
    assert((seq![letter, ':', '\\'] + rest)[2] == '\\');
    assert((seq![letter, ':', '/'] + rest)[2] == '/');
}

/// On Windows a path is absolute that has, behind two separators, the name of a server, a
/// separator and the start of another name, and so is one with a `.` and a separator there.
/// With a `?` there instead of the server, three backslashes will do.
pub proof fn law_a_windows_path_is_absolute_on_a_share(
    server: Seq<char>,
    p: char,
    q: char,
    r: char,
    c: char,
    rest: Seq<char>,
)
    requires
        server.len() > 0,
        forall|i: int|
            0 <= i < server.len() ==> #[trigger] server[i] != '/' && server[i] != '\\',
        p == '/' || p == '\\',
        q == '/' || q == '\\',
        r == '/' || r == '\\',
    ensures
        c != '/' && c != '\\' ==> is_absolute_path(
            seq![p, q] + server + seq![r, c] + rest,
            System::Windows,
        ),
        is_absolute_path(seq![p, q, '.', r] + rest, System::Windows),
        is_absolute_path(seq!['\\', '\\', '?', '\\'] + rest, System::Windows),
{
    let path = seq![p, q] + server + seq![r, c] + rest;
    let tail = path.skip(2);
    let k = server.len() as int;
    assert(tail[k] == r && tail[k + 1] == c);
    assert forall|j: int| 0 <= j < k implies !is_windows_separator(#[trigger] tail[j]) by {
        assert(tail[j] == server[j]);
    }
    if c != '/' && c != '\\' {
        assert(starts_with_share(tail));
    }
}

/// On Windows no other path behind two separators is absolute: not a server alone, with or
/// without a separator, nor one with two separators behind it, nor a third separator in
/// front. Only `.`, and `?` among backslashes, need no name behind their separator.
pub proof fn law_a_windows_path_needs_a_share(
    server: Seq<char>,
    p: char,
    q: char,
    r: char,
    t: char,
    rest: Seq<char>,
)
    requires
        forall|i: int|
            0 <= i < server.len() ==> #[trigger] server[i] != '/' && server[i] != '\\',
        p == '/' || p == '\\',
        q == '/' || q == '\\',
        r == '/' || r == '\\',
        t == '/' || t == '\\',
    ensures
        !is_absolute_path(seq![p, q] + server, System::Windows),
        server != seq!['.'] && !(server == seq!['?'] && p == '\\' && q == '\\' && r == '\\')
            ==> !is_absolute_path(seq![p, q] + server + seq![r], System::Windows)
            && !is_absolute_path(seq![p, q] + server + seq![r, t] + rest, System::Windows),
        !is_absolute_path(seq![p, q, r] + rest, System::Windows),
{
    let alone = seq![p, q] + server;
    let ended = alone + seq![r];
    let twice = alone + seq![r, t] + rest;
    let thrice = seq![p, q, r] + rest;
    let n = server.len() as int;
    assert(alone.skip(2) == server);
    assert(ended.skip(2) == server + seq![r]);
    assert(twice.skip(2) == server + seq![r, t] + rest);
    lemma_no_share(alone.skip(2), n);
    lemma_no_share(ended.skip(2), n);
    lemma_no_share(twice.skip(2), n);
    lemma_no_share(thrice.skip(2), 0);
    assert(alone[0] == p && ended[0] == p && twice[0] == p && thrice[0] == p);
    assert(alone[1] == q && ended[1] == q && twice[1] == q && thrice[1] == q);
    assert(thrice[2] == r);
    if n == 1 {
        assert(server == seq![server[0]]);
        assert(ended[2] == server[0] && twice[2] == server[0]);
        assert(ended[3] == r && twice[3] == r);
    } else if n > 1 {
        assert(alone[3] == server[1] && ended[3] == server[1] && twice[3] == server[1]);
    } else {
        assert(server == Seq::<char>::empty());
        assert(ended[2] == r && twice[2] == r);
    }
}

proof fn lemma_no_share(s: Seq<char>, n: int)
    requires
        0 <= n <= s.len(),
        forall|i: int| 0 <= i < n ==> !is_windows_separator(#[trigger] s[i]),
        n < s.len() ==> is_windows_separator(s[n]),
        n == 0 || n + 1 >= s.len() || is_windows_separator(s[n + 1]),
    ensures
        !starts_with_share(s),
{
    if starts_with_share(s) {
        let m = choose|m: int|
            #![trigger s[m]]
            {
                &&& 0 < m < s.len() - 1
                &&& is_windows_separator(s[m])
                &&& !is_windows_separator(s[m + 1])
                &&& forall|j: int| 0 <= j < m ==> !is_windows_separator(#[trigger] s[j])
            };
        if m < n {
            assert(!is_windows_separator(s[m]));
        } else if n < m {
            assert(!is_windows_separator(s[n]));
        }
    }
}

/// A stem is one file name: not empty, no reference to a directory, without a slash or a
/// backslash, and on Windows without a drive in front. Every other text is one.
pub proof fn law_a_stem_is_one_file_name(stem: Seq<char>, system: System)
    ensures
        is_bare_stem(stem, system) <==> {
            &&& stem.len() > 0
            &&& stem != seq!['.']
            &&& stem != seq!['.', '.']
            &&& forall|i: int|
                0 <= i < stem.len() ==> #[trigger] stem[i] != '/' && stem[i] != '\\'
            &&& system == System::Windows ==> !(stem.len() >= 2 && (('A' <= stem[0] && stem[0]
                <= 'Z') || ('a' <= stem[0] && stem[0] <= 'z')) && stem[1] == ':')
        },
{
    reveal_strlit(".");
    reveal_strlit("..");
    assert("."@ == seq!['.']);
    assert(".."@ == seq!['.', '.']);
    if exists|i: int| 0 <= i < stem.len() && !(#[trigger] stem[i] != '/' && stem[i] != '\\') {
        let i = choose|i: int|
            0 <= i < stem.len() && !(#[trigger] stem[i] != '/' && stem[i] != '\\');
        assert(stem.contains(stem[i]));
    }
    if stem.contains('/') {
        let i = choose|i: int| 0 <= i < stem.len() && stem[i] == '/';
        assert(!(stem[i] != '/' && stem[i] != '\\'));
    }
    if stem.contains('\\') {
        let i = choose|i: int| 0 <= i < stem.len() && stem[i] == '\\';
        assert(!(stem[i] != '/' && stem[i] != '\\'));
    }
}

/// A plan is what the document says: its directories are the strings under `src_dir` and
/// `out_dir`, letter for letter, and its pairs are the keys of `[dbc.exports]` with the
/// strings they hold, each once and in order.
pub proof fn law_a_plan_is_what_the_document_says(
    path: Seq<char>,
    document: Seq<(Seq<char>, Content)>,
    system: System,
    plan: Plan,
) -> (r: (Seq<(Seq<char>, Content)>, Seq<(Seq<char>, Content)>))
    requires
        plan_of(path, document, system) == Ok::<Option<Plan>, Fault>(Some(plan)),
    ensures
        lookup(document, "dbc"@) == Some(Content::Table(r.0)),
        lookup(r.0, "src_dir"@) == Some(Content::Text(plan.src_dir)),
        lookup(r.0, "out_dir"@) == Some(Content::Text(plan.out_dir)),
        lookup(r.0, "exports"@) == Some(Content::Table(r.1)),
        plan.exports.to_multiset() == Seq::new(
            r.1.len(),
            |i: int| (r.1[i].0, r.1[i].1->Text_0),
        ).to_multiset(),
        forall|i: int| 0 <= i < r.1.len() ==> (#[trigger] r.1[i]).1 is Text,
        plan.exports == sorted_pairs(texts_of(r.1)),
{
    let dbc = lookup(document, "dbc"@)->0->Table_0;
    let entries = lookup(dbc, "exports"@)->0->Table_0;
    law_exports_are_accepted_when_usable_and_distinct(path, entries, system);
    assert(entries.map_values(|entry: (Seq<char>, Content)| stems_of(entry)) == Seq::new(
        entries.len(),
        |i: int| (entries[i].0, entries[i].1->Text_0),
    ));
    assert forall|i: int| 0 <= i < entries.len() implies (#[trigger] entries[i]).1 is Text by {
        assert(is_usable(entries[i], system));
    }
    assert forall|i: int| 0 <= i < entries.len() implies (#[trigger] entries[i]).1 is Text
        && is_bare_stem(entries[i].0, system) && is_bare_stem(entries[i].1->Text_0, system) by {
        assert(is_usable(entries[i], system));
    }
    lemma_all_texts(path, entries, system);
    (dbc, entries)
}

/// A directory that a plan can have: a string that is not empty and not absolute.
pub open spec fn names_a_directory(
    table: Seq<(Seq<char>, Content)>,
    key: Seq<char>,
    system: System,
) -> bool {
    lookup(table, key) matches Some(Content::Text(dir)) && dir.len() > 0 && !is_absolute_path(
        dir,
        system,
    )
}

/// Pairs of stems that a plan can have: at least one, every key and the string that it
/// holds a bare file name, and no two of these strings the same.
pub open spec fn names_exports(entries: Seq<(Seq<char>, Content)>, system: System) -> bool {
    &&& entries.len() > 0
    &&& forall|i: int|
        0 <= i < entries.len() ==> (#[trigger] entries[i]).1 is Text && is_bare_stem(
            entries[i].0,
            system,
        ) && is_bare_stem(entries[i].1->Text_0, system)
    &&& forall|i: int, j: int|
        0 <= i < j < entries.len() ==> (#[trigger] entries[i]).1->Text_0 != (
        #[trigger] entries[j]).1->Text_0
}

/// A document declares no plan exactly when it has no `dbc`, and one exactly when that is a
/// table with two directories and the exports that a plan can have. Every other is refused.
pub proof fn law_a_document_declares_a_plan_exactly_when_it_is_complete(
    path: Seq<char>,
    document: Seq<(Seq<char>, Content)>,
    system: System,
)
    ensures
        plan_of(path, document, system) == Ok::<Option<Plan>, Fault>(None) <==> lookup(
            document,
            "dbc"@,
        ) is None,
        (plan_of(path, document, system) matches Ok(Some(_))) <==> {
            &&& lookup(document, "dbc"@) matches Some(Content::Table(dbc))
            &&& names_a_directory(dbc, "src_dir"@, system)
            &&& names_a_directory(dbc, "out_dir"@, system)
            &&& lookup(dbc, "exports"@) matches Some(Content::Table(entries))
            &&& names_exports(entries, system)
        },
{
    if let Some(Content::Table(dbc)) = lookup(document, "dbc"@) {
        if let Some(Content::Table(entries)) = lookup(dbc, "exports"@) {
            law_exports_are_accepted_when_usable_and_distinct(path, entries, system);
            let outs = entries.map_values(|entry: (Seq<char>, Content)| stems_of(entry).1);
            if exports_among(path, entries, system) is Ok {
                assert forall|i: int| 0 <= i < entries.len() implies (#[trigger] entries[i]).1
                    is Text && is_bare_stem(entries[i].0, system) && is_bare_stem(
                    entries[i].1->Text_0,
                    system,
                ) by {
                    assert(is_usable(entries[i], system));
                }
                assert forall|i: int, j: int| 0 <= i < j < entries.len() implies (
                #[trigger] entries[i]).1->Text_0 != (#[trigger] entries[j]).1->Text_0 by {
                    assert(outs[i] != outs[j]);
                }
            }
            if names_exports(entries, system) {
                assert forall|i: int| 0 <= i < entries.len() implies is_usable(
                    #[trigger] entries[i],
                    system,
                ) by {
                    assert(entries[i].1 is Text);
                }
                assert forall|i: int, j: int|
                    0 <= i < outs.len() && 0 <= j < outs.len() && i != j implies outs[i]
                    != outs[j] by {
                    if i < j {
                        assert(entries[i].1->Text_0 != entries[j].1->Text_0);
                    } else {
                        assert(entries[j].1->Text_0 != entries[i].1->Text_0);
                    }
                }
            }
        }
    }
}

/// What is said of a `[dbc]` that cannot be honoured: the file, the key, and what is wrong
/// with it. Of several faults the first is named, in the order `src_dir`, `out_dir`,
/// `exports`.
pub proof fn law_a_refusal_names_the_file_and_the_key(
    path: Seq<char>,
    document: Seq<(Seq<char>, Content)>,
    dbc: Seq<(Seq<char>, Content)>,
    key: Seq<char>,
    system: System,
)
    ensures
        lookup(document, "dbc"@) matches Some(Content::Text(_)) ==> plan_of(path, document, system)
            == Err::<Option<Plan>, Fault>(
            Fault::Config(
                path + ": "@ + ("dbc"@ + " must be "@ + "a table"@ + ", got "@ + "string"@),
            ),
        ),
        lookup(document, "dbc"@) matches Some(Content::Other(kind)) ==> plan_of(
            path,
            document,
            system,
        ) == Err::<Option<Plan>, Fault>(
            Fault::Config(path + ": "@ + ("dbc"@ + " must be "@ + "a table"@ + ", got "@ + kind)),
        ),
        lookup(document, "dbc"@) == Some(Content::Table(dbc)) && !names_a_directory(
            dbc,
            "src_dir"@,
            system,
        ) ==> plan_of(path, document, system) == Err::<Option<Plan>, Fault>(
            required_directory(path, dbc, "src_dir"@, system)->Err_0,
        ),
        lookup(document, "dbc"@) == Some(Content::Table(dbc)) && names_a_directory(
            dbc,
            "src_dir"@,
            system,
        ) && !names_a_directory(dbc, "out_dir"@, system) ==> plan_of(path, document, system)
            == Err::<Option<Plan>, Fault>(
            required_directory(path, dbc, "out_dir"@, system)->Err_0,
        ),
        lookup(document, "dbc"@) == Some(Content::Table(dbc)) && names_a_directory(
            dbc,
            "src_dir"@,
            system,
        ) && names_a_directory(dbc, "out_dir"@, system) && declared_exports(path, dbc, system)
            is Err ==> plan_of(path, document, system) == Err::<Option<Plan>, Fault>(
            declared_exports(path, dbc, system)->Err_0,
        ),
        lookup(dbc, key) is None ==> required_directory(path, dbc, key, system) == Err::<
            Seq<char>,
            Fault,
        >(Fault::Config(path + ": "@ + ("[dbc] "@ + key + " is missing"@))),
        lookup(dbc, key) matches Some(Content::Text(dir)) ==> required_directory(
            path,
            dbc,
            key,
            system,
        ) == (if dir.len() > 0 && !is_absolute_path(dir, system) {
            Ok::<Seq<char>, Fault>(dir)
        } else {
            Err::<Seq<char>, Fault>(
                Fault::Config(
                    path + ": "@ + ("[dbc] "@ + key + " "@ + debug_text(dir)
                        + " must be a non-empty path relative to the directory holding "@
                        + "m1-tools.toml"@),
                ),
            )
        }),
        lookup(dbc, key) matches Some(Content::Table(_)) ==> required_directory(
            path,
            dbc,
            key,
            system,
        ) == Err::<Seq<char>, Fault>(
            Fault::Config(
                path + ": "@ + ("dbc."@ + key + " must be "@ + "a string"@ + ", got "@ + "table"@),
            ),
        ),
        lookup(dbc, key) matches Some(Content::Other(kind)) ==> required_directory(
            path,
            dbc,
            key,
            system,
        ) == Err::<Seq<char>, Fault>(
            Fault::Config(
                path + ": "@ + ("dbc."@ + key + " must be "@ + "a string"@ + ", got "@ + kind),
            ),
        ),
{
}

/// What is said of `[dbc.exports]` where it cannot be honoured: that it is missing, no table
/// or empty; of a key, that it holds no string or that a stem is no file name; or which two
/// sources share which output.
pub proof fn law_a_refusal_names_the_export(
    path: Seq<char>,
    dbc: Seq<(Seq<char>, Content)>,
    source: Seq<char>,
    content: Content,
    system: System,
)
    ensures
        lookup(dbc, "exports"@) is None ==> declared_exports(path, dbc, system) == Err::<
            Seq<(Seq<char>, Seq<char>)>,
            Fault,
        >(
            Fault::Config(
                path + ": "@
                    + "[dbc.exports] is missing; list at least one source stem = output stem pair"@,
            ),
        ),
        lookup(dbc, "exports"@) matches Some(Content::Text(_)) ==> declared_exports(
            path,
            dbc,
            system,
        ) == Err::<Seq<(Seq<char>, Seq<char>)>, Fault>(
            Fault::Config(
                path + ": "@ + ("dbc.exports"@ + " must be "@ + "a table"@ + ", got "@
                    + "string"@),
            ),
        ),
        lookup(dbc, "exports"@) matches Some(Content::Other(kind)) ==> declared_exports(
            path,
            dbc,
            system,
        ) == Err::<Seq<(Seq<char>, Seq<char>)>, Fault>(
            Fault::Config(
                path + ": "@ + ("dbc.exports"@ + " must be "@ + "a table"@ + ", got "@ + kind),
            ),
        ),
        lookup(dbc, "exports"@) matches Some(Content::Table(entries)) ==> declared_exports(
            path,
            dbc,
            system,
        ) == exports_among(path, entries, system),
        lookup(dbc, "exports"@) matches Some(Content::Table(entries)) && entries.len() == 0
            ==> declared_exports(path, dbc, system) == Err::<Seq<(Seq<char>, Seq<char>)>, Fault>(
            Fault::Config(
                path + ": "@
                    + "[dbc.exports] is empty; list at least one source stem = output stem pair"@,
            ),
        ),
        content matches Content::Table(_) ==> pair_of(path, (source, content), system) == Err::<
            (Seq<char>, Seq<char>),
            Fault,
        >(
            Fault::Config(
                path + ": "@ + ("dbc.exports."@ + source + " must be "@ + "a string"@ + ", got "@
                    + "table"@),
            ),
        ),
        content matches Content::Other(kind) ==> pair_of(path, (source, content), system) == Err::<
            (Seq<char>, Seq<char>),
            Fault,
        >(
            Fault::Config(
                path + ": "@ + ("dbc.exports."@ + source + " must be "@ + "a string"@ + ", got "@
                    + kind),
            ),
        ),
        content matches Content::Text(out) ==> pair_of(path, (source, content), system) == (
        if !is_bare_stem(source, system) {
            Err::<(Seq<char>, Seq<char>), Fault>(
                Fault::Config(
                    path + ": "@ + ("[dbc.exports] "@ + "source stem"@ + " "@ + debug_text(source)
                        + " must be a bare file stem — one name, not empty, not absolute, and with no `/`, `\\` or `..`"@),
                ),
            )
        } else if !is_bare_stem(out, system) {
            Err::<(Seq<char>, Seq<char>), Fault>(
                Fault::Config(
                    path + ": "@ + ("[dbc.exports] "@ + ("output stem for "@ + debug_text(source)
                        + ","@) + " "@ + debug_text(out)
                        + " must be a bare file stem — one name, not empty, not absolute, and with no `/`, `\\` or `..`"@),
                ),
            )
        } else {
            Ok::<(Seq<char>, Seq<char>), Fault>((source, out))
        }),
{
}

/// Of several keys that cannot be honoured, the first is named: with every key before it in
/// order, a faulty key decides, whatever follows it.
pub proof fn law_the_first_faulty_export_is_named(
    path: Seq<char>,
    entries: Seq<(Seq<char>, Content)>,
    k: int,
    system: System,
)
    requires
        0 <= k < entries.len(),
        pair_of(path, entries[k], system) is Err,
        forall|j: int| 0 <= j < k ==> pair_of(path, #[trigger] entries[j], system) is Ok,
    ensures
        exports_among(path, entries, system) == Err::<Seq<(Seq<char>, Seq<char>)>, Fault>(
            pair_of(path, entries[k], system)->Err_0,
        ),
{
    lemma_first_faulty(path, entries, k, system);
}

proof fn lemma_first_faulty(
    path: Seq<char>,
    entries: Seq<(Seq<char>, Content)>,
    k: int,
    system: System,
)
    requires
        0 <= k < entries.len(),
        pair_of(path, entries[k], system) is Err,
        forall|j: int| 0 <= j < k ==> pair_of(path, #[trigger] entries[j], system) is Ok,
    ensures
        pairs_of(path, entries, system) == Err::<Seq<(Seq<char>, Seq<char>)>, Fault>(
            pair_of(path, entries[k], system)->Err_0,
        ),
    decreases entries.len(),
{
    let before = entries.drop_last();
    if k < before.len() {
        assert forall|j: int| 0 <= j < k implies pair_of(path, #[trigger] before[j], system)
            is Ok by {
            assert(before[j] == entries[j]);
        }
        lemma_first_faulty(path, before, k, system);
    } else {
        lemma_all_sound(path, before, system);
    }
}

proof fn lemma_all_sound(path: Seq<char>, entries: Seq<(Seq<char>, Content)>, system: System)
    requires
        forall|j: int| 0 <= j < entries.len() ==> pair_of(path, #[trigger] entries[j], system) is Ok,
    ensures
        pairs_of(path, entries, system) is Ok,
    decreases entries.len(),
{
    if entries.len() > 0 {
        let before = entries.drop_last();
        assert forall|j: int| 0 <= j < before.len() implies pair_of(
            path,
            #[trigger] before[j],
            system,
        ) is Ok by {
            assert(before[j] == entries[j]);
        }
        lemma_all_sound(path, before, system);
        assert(pair_of(path, entries[entries.len() - 1], system) is Ok);
    }
}

/// Where two exports share an output, the refusal names two sources that do, in order, and
/// the output that they share. Of several such exports it is the first, in the order of the
/// sources, whose output an earlier one has.
pub proof fn law_a_refusal_names_the_exports_that_share_an_output(
    path: Seq<char>,
    entries: Seq<(Seq<char>, Content)>,
    system: System,
)
    requires
        entries.len() > 0,
        forall|k: int|
            0 <= k < entries.len() ==> (#[trigger] entries[k]).1 is Text && is_bare_stem(
                entries[k].0,
                system,
            ) && is_bare_stem(entries[k].1->Text_0, system),
        exports_among(path, entries, system) is Err,
    ensures
        exists|i: int, j: int|
            #![trigger sorted_pairs(texts_of(entries))[i], sorted_pairs(texts_of(entries))[j]]
            {
                let sorted = sorted_pairs(texts_of(entries));
                &&& 0 <= i < j < sorted.len()
                &&& sorted[i].1 == sorted[j].1
                &&& forall|a: int, b: int|
                    0 <= a < b < j ==> (#[trigger] sorted[a]).1 != (#[trigger] sorted[b]).1
                &&& exports_among(path, entries, system) == Err::<
                    Seq<(Seq<char>, Seq<char>)>,
                    Fault,
                >(
                    Fault::Config(
                        path + ": "@ + ("[dbc.exports] "@ + debug_text(sorted[i].0) + " and "@
                            + debug_text(sorted[j].0) + " both export to "@ + debug_text(
                            sorted[j].1,
                        )
                            + "; output stems must be unique or one export overwrites the other"@),
                    ),
                )
            },
{
    lemma_all_texts(path, entries, system);
    let sorted = sorted_pairs(texts_of(entries));
    let (i, j) = lemma_clash_at(sorted);
    assert(sorted[i].1 == sorted[j].1);
}

/// The keys of a table of strings, each with the string that it holds.
pub open spec fn texts_of(entries: Seq<(Seq<char>, Content)>) -> Seq<(Seq<char>, Seq<char>)> {
    Seq::new(entries.len(), |i: int| (entries[i].0, entries[i].1->Text_0))
}

proof fn lemma_all_texts(path: Seq<char>, entries: Seq<(Seq<char>, Content)>, system: System)
    requires
        forall|k: int|
            0 <= k < entries.len() ==> (#[trigger] entries[k]).1 is Text && is_bare_stem(
                entries[k].0,
                system,
            ) && is_bare_stem(entries[k].1->Text_0, system),
    ensures
        pairs_of(path, entries, system) == Ok::<Seq<(Seq<char>, Seq<char>)>, Fault>(
            texts_of(entries),
        ),
    decreases entries.len(),
{
    if entries.len() == 0 {
        assert(texts_of(entries) == Seq::<(Seq<char>, Seq<char>)>::empty());
    } else {
        let before = entries.drop_last();
        assert forall|k: int| 0 <= k < before.len() implies (#[trigger] before[k]).1 is Text
            && is_bare_stem(before[k].0, system) && is_bare_stem(
            before[k].1->Text_0,
            system,
        ) by {
            assert(before[k] == entries[k]);
        }
        lemma_all_texts(path, before, system);
        let last = entries[entries.len() - 1];
        assert(last.1 is Text);
        assert(texts_of(entries) == texts_of(before).push((last.0, last.1->Text_0)));
    }
}

proof fn lemma_clash_at(pairs: Seq<(Seq<char>, Seq<char>)>) -> (r: (int, int))
    requires
        first_clash(pairs) is Some,
    ensures
        0 <= r.0 < r.1 < pairs.len(),
        pairs[r.0].1 == pairs[r.1].1,
        forall|a: int, b: int|
            0 <= a < b < r.1 ==> (#[trigger] pairs[a]).1 != (#[trigger] pairs[b]).1,
        first_clash(pairs) == Some((pairs[r.0].0, pairs[r.1].0, pairs[r.1].1)),
    decreases pairs.len(),
{
    let before = pairs.drop_last();
    if first_clash(before) is Some {
        let (i, j) = lemma_clash_at(before);
        assert(pairs[i] == before[i] && pairs[j] == before[j]);
        assert forall|a: int, b: int| 0 <= a < b < j implies (#[trigger] pairs[a]).1 != (
        #[trigger] pairs[b]).1 by {
            assert(pairs[a] == before[a] && pairs[b] == before[b]);
        }
        (i, j)
    } else {
        let i = lemma_holder_at(before, pairs.last().1);
        assert(pairs[i] == before[i]);
        assert forall|a: int, b: int| 0 <= a < b < pairs.len() - 1 implies (
        #[trigger] pairs[a]).1 != (#[trigger] pairs[b]).1 by {
            lemma_no_clash(before, a, b);
            assert(pairs[a] == before[a] && pairs[b] == before[b]);
        }
        (i, pairs.len() - 1)
    }
}

proof fn lemma_no_clash(pairs: Seq<(Seq<char>, Seq<char>)>, a: int, b: int)
    requires
        first_clash(pairs) is None,
        0 <= a < b < pairs.len(),
    ensures
        pairs[a].1 != pairs[b].1,
    decreases pairs.len(),
{
    let before = pairs.drop_last();
    if b < before.len() {
        lemma_no_clash(before, a, b);
    } else {
        lemma_no_holder(before, pairs.last().1, a);
    }
}

proof fn lemma_no_holder(pairs: Seq<(Seq<char>, Seq<char>)>, out: Seq<char>, a: int)
    requires
        holder(pairs, out) is None,
        0 <= a < pairs.len(),
    ensures
        pairs[a].1 != out,
    decreases pairs.len(),
{
    let before = pairs.drop_last();
    if a < before.len() {
        lemma_no_holder(before, out, a);
    }
}

proof fn lemma_holder_at(pairs: Seq<(Seq<char>, Seq<char>)>, out: Seq<char>) -> (i: int)
    requires
        holder(pairs, out) is Some,
    ensures
        0 <= i < pairs.len(),
        pairs[i].1 == out,
        holder(pairs, out) == Some(pairs[i].0),
    decreases pairs.len(),
{
    if pairs.last().1 == out {
        pairs.len() - 1
    } else {
        let i = lemma_holder_at(pairs.drop_last(), out);
        assert(pairs[i] == pairs.drop_last()[i]);
        i
    }
}

/// The refusals of a directory, of a stem and of a shared output say which file, what in
/// it, and what is wrong, with nothing left out.
pub proof fn law_refusals_say_what_is_wrong(
    path: Seq<char>,
    key: Seq<char>,
    first: Seq<char>,
    second: Seq<char>,
    quoted: Seq<char>,
)
    ensures
        dir_fault(path, key, quoted) == Fault::Config(
            path + ": "@ + ("[dbc] "@ + key + " "@ + quoted
                + " must be a non-empty path relative to the directory holding "@
                + "m1-tools.toml"@),
        ),
        stem_fault(path, key, quoted) == Fault::Config(
            path + ": "@ + ("[dbc.exports] "@ + key + " "@ + quoted
                + " must be a bare file stem — one name, not empty, not absolute, and with no `/`, `\\` or `..`"@),
        ),
        clash_fault(path, first, second, quoted) == Fault::Config(
            path + ": "@ + ("[dbc.exports] "@ + first + " and "@ + second + " both export to "@
                + quoted + "; output stems must be unique or one export overwrites the other"@),
        ),
{
}

/// What is read from a text is what the document in it declares, and a text that is none is
/// refused with the file's name and the diagnosis.
pub proof fn law_a_text_is_read_as_its_document(
    path: Seq<char>,
    document: Seq<(Seq<char>, Content)>,
    diagnosis: Seq<char>,
    system: System,
)
    ensures
        plan_in(path, Ok(document), system) == plan_of(path, document, system),
        plan_in(path, Err(diagnosis), system) == Err::<Option<Plan>, Fault>(
            Fault::Config("cannot parse "@ + path + ": "@ + diagnosis),
        ),
{
}

/// The view of a config holds every field as it is, and that of a document every key and
/// what it holds.
pub proof fn law_the_view_of_a_config_is_the_config(
    config: DbcConfig,
    entries: Vec<(String, Setting)>,
    text: String,
)
    ensures
        config.deep_view().src_dir == config.src_dir@,
        config.deep_view().out_dir == config.out_dir@,
        config.deep_view().exports.len() == config.exports@.len(),
        forall|i: int|
            0 <= i < config.exports@.len() ==> (#[trigger] config.deep_view().exports[i]) == (
                config.exports@[i].0@,
                config.exports@[i].1@,
            ),
        content_of(Setting::Text(text)) == Content::Text(text@),
        content_of(Setting::Other(text)) == Content::Other(text@),
        content_of(Setting::Table(entries)) == Content::Table(contents_of(entries@)),
        contents_of(entries@).len() == entries@.len(),
        forall|i: int|
            0 <= i < entries@.len() ==> (#[trigger] contents_of(entries@)[i]) == (
                entries@[i].0@,
                content_of(entries@[i].1),
            ),
{
    assert(content_of(Setting::Table(entries))->Table_0 == contents_of(entries@));
}

} // verus!
