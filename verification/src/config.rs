//! The `[dbc]` section of `m1-tools.toml`: which `.m1dbc` files a repo exports,
//! and what to call the `.dbc` that is written for each.
//!
//! ```toml
//! [dbc]
//! src_dir = "UQR-EV/01.00/dbc"
//! out_dir = "dbc"
//!
//! # source .m1dbc stem -> output .dbc stem
//! [dbc.exports]
//! "Balls3EV25" = "Balls3EV25"
//! "SBG DBC" = "SBG"
//! ```
//!
//! The mapping is explicit: nothing is derived from a source's name. An export
//! plan that is understood only in part is refused, and the message names the file
//! and the key.

use crate::order::{
    lemma_pair_order, lemma_same_items_distinct, lemma_same_items_mapped, pair_order, sort_pairs,
    sorted_pairs, strictly_increase, text_le,
};
use crate::text::{chars_of, debug_text, is_letter, quoted, same, starts_with};
use crate::{ExportError, Fault};
use std::path::PathBuf;
use vstd::prelude::*;
use vstd::relations::sorted_by;

verus! {

/// The config file that the section stands in.
pub const CONFIG_FILE: &'static str = "m1-tools.toml";

// ---------------------------------------------------------------------------
// The document
// ---------------------------------------------------------------------------

/// `toml::map::Map`, the table type of the `toml` crate.
#[verifier::external_type_specification]
#[verifier::external_body]
#[verifier::reject_recursive_types(K)]
#[verifier::reject_recursive_types(V)]
pub struct ExTomlMap<K, V>(toml::map::Map<K, V>);

/// `toml::Value`, what a key of a TOML table holds.
#[verifier::external_type_specification]
#[verifier::external_body]
pub struct ExTomlValue(toml::Value);

/// `std::path::PathBuf`, which the library only carries.
#[verifier::external_type_specification]
#[verifier::external_body]
pub struct ExPathBuf(std::path::PathBuf);

/// What a key of a TOML document holds.
#[derive(Debug, PartialEq, Eq)]
pub enum Setting {
    /// A string.
    Text(String),
    /// A table: its keys, each with what it holds.
    Table(Vec<(String, Setting)>),
    /// Anything else, by the name of its type.
    Other(String),
}

/// The characters of a [`Setting`].
pub enum Content {
    Text(Seq<char>),
    Table(Seq<(Seq<char>, Content)>),
    Other(Seq<char>),
}

/// The characters of what a key holds.
pub open spec fn content_of(setting: Setting) -> Content
    decreases setting,
{
    match setting {
        Setting::Text(s) => Content::Text(s@),
        Setting::Table(entries) => Content::Table(
            Seq::new(
                entries@.len(),
                |i: int|
                    if 0 <= i < entries@.len() {
                        (entries@[i].0@, content_of(entries@[i].1))
                    } else {
                        arbitrary()
                    },
            ),
        ),
        Setting::Other(s) => Content::Other(s@),
    }
}

/// The characters of a table's keys and of what they hold.
pub open spec fn contents_of(entries: Seq<(String, Setting)>) -> Seq<(Seq<char>, Content)> {
    Seq::new(entries.len(), |i: int| (entries[i].0@, content_of(entries[i].1)))
}

proof fn lemma_content_of_table(entries: Vec<(String, Setting)>)
    ensures
        content_of(Setting::Table(entries)) == Content::Table(contents_of(entries@)),
{
    assert(content_of(Setting::Table(entries))->Table_0 == contents_of(entries@));
}

/// No key stands twice in a table, nor in any table within it.
pub open spec fn keys_are_distinct(table: Seq<(Seq<char>, Content)>) -> bool
    decreases table,
{
    &&& forall|i: int, j: int|
        0 <= i < j < table.len() ==> (#[trigger] table[i]).0 != (#[trigger] table[j]).0
    &&& forall|i: int|
        0 <= i < table.len() ==> match (#[trigger] table[i]).1 {
            Content::Table(inner) => keys_are_distinct(inner),
            _ => true,
        }
}

/// What the `toml` crate makes of a text: the keys of the document, each with what
/// it holds, or its diagnosis.
pub uninterp spec fn toml_document(text: Seq<char>) -> Result<
    Seq<(Seq<char>, Content)>,
    Seq<char>,
>;

/// The keys of a table, each with what it holds, in the order in which the table
/// hands them out.
pub uninterp spec fn toml_entries(table: toml::Table) -> Seq<(Seq<char>, Content)>;

/// Parse TOML with the `FromStr` impl of `toml::Table`.
///
/// The contract names the result as a function of the text and says nothing of
/// what is well-formed TOML.
#[verifier::external_body]
pub(crate) fn parse_toml(text: &str) -> (r: Result<toml::Table, String>)
    ensures
        match r {
            Ok(table) => toml_document(text@) == Ok::<Seq<(Seq<char>, Content)>, Seq<char>>(
                toml_entries(table),
            ),
            Err(e) => toml_document(text@) == Err::<Seq<(Seq<char>, Content)>, Seq<char>>(e@),
        },
{
    text.parse::<toml::Table>().map_err(|e| e.to_string())
}

/// The keys of a table, in the order of `toml::Table::iter`, each with what it
/// holds: a `toml::Value::String` by its text, a `toml::Value::Table` by its own
/// keys, and any other value by what `toml::Value::type_str` calls it. A table is a
/// map, so none of its keys comes twice.
#[verifier::external_body]
pub(crate) fn entries_of(table: &toml::Table) -> (r: Vec<(String, Setting)>)
    ensures
        contents_of(r@) == toml_entries(*table),
        keys_are_distinct(contents_of(r@)),
{
    let entries = table.iter().map(|(key, value)| {
        let setting = match value {
            toml::Value::String(s) => Setting::Text(s.clone()),
            toml::Value::Table(t) => Setting::Table(entries_of(t)),
            other => Setting::Other(other.type_str().to_string()),
        };
        (key.clone(), setting)
    });
    entries.collect()
}

/// What a table holds under a key.
pub open spec fn lookup(table: Seq<(Seq<char>, Content)>, key: Seq<char>) -> Option<Content>
    decreases table.len(),
{
    if table.len() == 0 {
        None
    } else if table.first().0 == key {
        Some(table.first().1)
    } else {
        lookup(table.drop_first(), key)
    }
}

/// What the type of a value is called.
pub open spec fn kind_of_value(content: Content) -> Seq<char> {
    match content {
        Content::Text(_) => "string"@,
        Content::Table(_) => "table"@,
        Content::Other(name) => name,
    }
}

// ---------------------------------------------------------------------------
// The plan
// ---------------------------------------------------------------------------

/// The system whose rules say what a path means.
#[derive(Debug, Clone, Copy, PartialEq, Eq, Structural)]
pub enum System {
    /// A path is absolute that starts with `/`.
    Unix,
    /// A path is absolute that has a prefix, such as a drive, and a root.
    Windows,
}

/// A repo's export plan, as declared in `[dbc]`.
#[derive(Debug, PartialEq, Eq)]
pub struct DbcConfig {
    /// Where the `.m1dbc` sources live, exactly as written in the config and
    /// relative to [`root`](Self::root). Never empty, and never absolute by the rules
    /// of the system that the config was read for.
    pub src_dir: String,
    /// Where the `.dbc` exports go, exactly as written in the config and relative
    /// to [`root`](Self::root). Never empty, and never absolute by the rules of the
    /// system that the config was read for.
    pub out_dir: String,
    /// The stem of a source and the stem of its output, sorted by source stem, so
    /// that a run handles them in the same order on every machine. Every stem is a
    /// bare file name, and no two pairs share an output stem.
    pub exports: Vec<(String, String)>,
    /// The directory that holds the config file.
    pub root: PathBuf,
}

/// The characters of a [`DbcConfig`].
#[verifier::ext_equal]
pub struct Plan {
    pub src_dir: Seq<char>,
    pub out_dir: Seq<char>,
    pub exports: Seq<(Seq<char>, Seq<char>)>,
}

impl DeepView for DbcConfig {
    type V = Plan;

    open spec fn deep_view(&self) -> Plan {
        Plan {
            src_dir: self.src_dir@,
            out_dir: self.out_dir@,
            exports: self.exports.deep_view(),
        }
    }
}

/// A refusal that names the config file.
pub open spec fn refusal(path: Seq<char>, why: Seq<char>) -> Fault {
    Fault::Config(path + ": "@ + why)
}

/// The refusal of a value that has the wrong type.
pub open spec fn wrong_type_fault(
    path: Seq<char>,
    key: Seq<char>,
    wanted: Seq<char>,
    got: Content,
) -> Fault {
    refusal(path, key + " must be "@ + wanted + ", got "@ + kind_of_value(got))
}

/// The string that a table must hold under a key of `[dbc]`.
pub open spec fn required_text(
    path: Seq<char>,
    dbc: Seq<(Seq<char>, Content)>,
    key: Seq<char>,
) -> Result<Seq<char>, Fault> {
    match lookup(dbc, key) {
        None => Err(refusal(path, "[dbc] "@ + key + " is missing"@)),
        Some(Content::Text(s)) => Ok(s),
        Some(other) => Err(wrong_type_fault(path, "dbc."@ + key, "a string"@, other)),
    }
}

/// A character that parts the components of a Windows path.
pub open spec fn is_windows_separator(c: char) -> bool {
    c == '/' || c == '\\'
}

/// A text that starts with a drive, such as `C:`.
pub open spec fn starts_with_drive(s: Seq<char>) -> bool {
    s.len() >= 2 && is_letter(s[0]) && s[1] == ':'
}

/// A text that starts with the name of a server and that of a share on it.
pub open spec fn starts_with_share(s: Seq<char>) -> bool {
    exists|k: int|
        #![trigger s[k]]
        {
            &&& 0 < k < s.len() - 1
            &&& is_windows_separator(s[k])
            &&& !is_windows_separator(s[k + 1])
            &&& forall|j: int| 0 <= j < k ==> !is_windows_separator(#[trigger] s[j])
        }
}

/// A Windows path with a prefix and a root: a separator behind a drive, or, behind two
/// separators, a server with a share, a `.` with a separator for the devices, or the
/// `?` of a path that is taken as it stands, for which only backslashes will do.
pub open spec fn is_windows_absolute(s: Seq<char>) -> bool {
    if starts_with_drive(s) {
        s.len() >= 3 && is_windows_separator(s[2])
    } else {
        &&& s.len() >= 2
        &&& is_windows_separator(s[0])
        &&& is_windows_separator(s[1])
        &&& {
            ||| starts_with_share(s.skip(2))
            ||| s.len() >= 4 && s[2] == '.' && is_windows_separator(s[3])
            ||| s.len() >= 4 && s[0] == '\\' && s[1] == '\\' && s[2] == '?' && s[3] == '\\'
        }
    }
}

/// A path that does not depend on where it is read from, by the rules of a system.
pub open spec fn is_absolute_path(s: Seq<char>, system: System) -> bool {
    match system {
        System::Unix => s.len() > 0 && s[0] == '/',
        System::Windows => is_windows_absolute(s),
    }
}

/// A path that names something below another directory: neither empty nor absolute.
pub open spec fn is_relative_dir(dir: Seq<char>, system: System) -> bool {
    dir.len() > 0 && !is_absolute_path(dir, system)
}

/// The refusal of a directory that is empty or absolute, `quoted` as `{:?}` shows it.
pub open spec fn dir_fault(path: Seq<char>, key: Seq<char>, quoted: Seq<char>) -> Fault {
    refusal(
        path,
        "[dbc] "@ + key + " "@ + quoted
            + " must be a non-empty path relative to the directory holding "@ + CONFIG_FILE@,
    )
}

/// The directory that a table must hold under a key of `[dbc]`.
pub open spec fn required_directory(
    path: Seq<char>,
    dbc: Seq<(Seq<char>, Content)>,
    key: Seq<char>,
    system: System,
) -> Result<Seq<char>, Fault> {
    match required_text(path, dbc, key) {
        Err(fault) => Err(fault),
        Ok(dir) => if is_relative_dir(dir, system) {
            Ok(dir)
        } else {
            Err(dir_fault(path, key, debug_text(dir)))
        },
    }
}

/// A bare file name: one name, neither empty nor a reference to a directory, without a
/// separator of any system, and on Windows without a drive in front.
pub open spec fn is_bare_stem(stem: Seq<char>, system: System) -> bool {
    &&& stem.len() > 0
    &&& stem != "."@
    &&& stem != ".."@
    &&& !stem.contains('/')
    &&& !stem.contains('\\')
    &&& !(system == System::Windows && starts_with_drive(stem))
}

/// The refusal of a stem that is no bare file name, `quoted` as `{:?}` shows it.
pub open spec fn stem_fault(path: Seq<char>, what: Seq<char>, quoted: Seq<char>) -> Fault {
    refusal(
        path,
        "[dbc.exports] "@ + what + " "@ + quoted
            + " must be a bare file stem — one name, not empty, not absolute, and with no `/`, `\\` or `..`"@,
    )
}

/// The pair of stems that a key of `[dbc.exports]` stands for.
pub open spec fn pair_of(path: Seq<char>, entry: (Seq<char>, Content), system: System) -> Result<
    (Seq<char>, Seq<char>),
    Fault,
> {
    match entry.1 {
        Content::Text(out) => if !is_bare_stem(entry.0, system) {
            Err(stem_fault(path, "source stem"@, debug_text(entry.0)))
        } else if !is_bare_stem(out, system) {
            Err(
                stem_fault(
                    path,
                    "output stem for "@ + debug_text(entry.0) + ","@,
                    debug_text(out),
                ),
            )
        } else {
            Ok((entry.0, out))
        },
        other => Err(wrong_type_fault(path, "dbc.exports."@ + entry.0, "a string"@, other)),
    }
}

/// The pairs of stems that some keys of `[dbc.exports]` stand for, or what is wrong
/// with the first that stands for none.
pub open spec fn pairs_of(
    path: Seq<char>,
    entries: Seq<(Seq<char>, Content)>,
    system: System,
) -> Result<Seq<(Seq<char>, Seq<char>)>, Fault>
    decreases entries.len(),
{
    if entries.len() == 0 {
        Ok(Seq::empty())
    } else {
        match pairs_of(path, entries.drop_last(), system) {
            Err(fault) => Err(fault),
            Ok(before) => match pair_of(path, entries.last(), system) {
                Err(fault) => Err(fault),
                Ok(pair) => Ok(before.push(pair)),
            },
        }
    }
}

/// The last of some pairs that has an output stem, if one has it.
pub open spec fn holder(pairs: Seq<(Seq<char>, Seq<char>)>, out: Seq<char>) -> Option<Seq<char>>
    decreases pairs.len(),
{
    if pairs.len() == 0 {
        None
    } else if pairs.last().1 == out {
        Some(pairs.last().0)
    } else {
        holder(pairs.drop_last(), out)
    }
}

/// The first pair whose output stem an earlier pair has: the source of the earlier
/// one, its own source, and the output stem.
pub open spec fn first_clash(pairs: Seq<(Seq<char>, Seq<char>)>) -> Option<
    (Seq<char>, Seq<char>, Seq<char>),
>
    decreases pairs.len(),
{
    if pairs.len() == 0 {
        None
    } else {
        match first_clash(pairs.drop_last()) {
            Some(clash) => Some(clash),
            None => match holder(pairs.drop_last(), pairs.last().1) {
                Some(first) => Some((first, pairs.last().0, pairs.last().1)),
                None => None,
            },
        }
    }
}

/// The refusal of two pairs that share an output stem, all three stems as `{:?}`
/// shows them.
pub open spec fn clash_fault(
    path: Seq<char>,
    first: Seq<char>,
    second: Seq<char>,
    out: Seq<char>,
) -> Fault {
    refusal(
        path,
        "[dbc.exports] "@ + first + " and "@ + second + " both export to "@ + out
            + "; output stems must be unique or one export overwrites the other"@,
    )
}

/// What `[dbc.exports]` declares: its pairs of stems in order.
pub open spec fn exports_among(
    path: Seq<char>,
    entries: Seq<(Seq<char>, Content)>,
    system: System,
) -> Result<Seq<(Seq<char>, Seq<char>)>, Fault> {
    if entries.len() == 0 {
        Err(
            refusal(
                path,
                "[dbc.exports] is empty; list at least one source stem = output stem pair"@,
            ),
        )
    } else {
        match pairs_of(path, entries, system) {
            Err(fault) => Err(fault),
            Ok(pairs) => match first_clash(sorted_pairs(pairs)) {
                Some((first, second, out)) => Err(
                    clash_fault(path, debug_text(first), debug_text(second), debug_text(out)),
                ),
                None => Ok(sorted_pairs(pairs)),
            },
        }
    }
}

/// What a `[dbc]` table declares under `exports`.
pub open spec fn declared_exports(
    path: Seq<char>,
    dbc: Seq<(Seq<char>, Content)>,
    system: System,
) -> Result<Seq<(Seq<char>, Seq<char>)>, Fault> {
    match lookup(dbc, "exports"@) {
        None => Err(
            refusal(
                path,
                "[dbc.exports] is missing; list at least one source stem = output stem pair"@,
            ),
        ),
        Some(Content::Table(entries)) => exports_among(path, entries, system),
        Some(other) => Err(wrong_type_fault(path, "dbc.exports"@, "a table"@, other)),
    }
}

/// The plan that a document declares. A document without a `[dbc]` section declares
/// none, which is no fault.
pub open spec fn plan_of(
    path: Seq<char>,
    document: Seq<(Seq<char>, Content)>,
    system: System,
) -> Result<Option<Plan>, Fault> {
    match lookup(document, "dbc"@) {
        None => Ok(None),
        Some(Content::Table(dbc)) => match required_directory(path, dbc, "src_dir"@, system) {
            Err(fault) => Err(fault),
            Ok(src_dir) => match required_directory(path, dbc, "out_dir"@, system) {
                Err(fault) => Err(fault),
                Ok(out_dir) => match declared_exports(path, dbc, system) {
                    Err(fault) => Err(fault),
                    Ok(exports) => Ok(Some(Plan { src_dir, out_dir, exports })),
                },
            },
        },
        Some(other) => Err(wrong_type_fault(path, "dbc"@, "a table"@, other)),
    }
}

/// The plan that a text declares, whatever the `toml` crate makes of it.
pub open spec fn plan_in(
    path: Seq<char>,
    document: Result<Seq<(Seq<char>, Content)>, Seq<char>>,
    system: System,
) -> Result<Option<Plan>, Fault> {
    match document {
        Ok(entries) => plan_of(path, entries, system),
        Err(e) => Err(Fault::Config("cannot parse "@ + path + ": "@ + e)),
    }
}

/// The output stems of some pairs.
pub open spec fn output_stems(pairs: Seq<(Seq<char>, Seq<char>)>) -> Seq<Seq<char>> {
    pairs.map_values(|pair: (Seq<char>, Seq<char>)| pair.1)
}

/// A plan that can be carried out: both directories are relative and not empty, there
/// is at least one pair, the pairs are in order, every stem is a bare file name, and
/// no two pairs share an output stem.
pub open spec fn is_usable_plan(plan: Plan, system: System) -> bool {
    &&& is_relative_dir(plan.src_dir, system)
    &&& is_relative_dir(plan.out_dir, system)
    &&& plan.exports.len() > 0
    &&& sorted_by(plan.exports, pair_order())
    &&& forall|i: int|
        0 <= i < plan.exports.len() ==> is_bare_stem((#[trigger] plan.exports[i]).0, system)
            && is_bare_stem(plan.exports[i].1, system)
    &&& output_stems(plan.exports).no_duplicates()
}

// ---------------------------------------------------------------------------
// Reading
// ---------------------------------------------------------------------------

fn refuse(path: &str, why: &str) -> (r: ExportError)
    ensures
        r.deep_view() == refusal(path@, why@),
{
    let mut s = path.to_owned();
    s.append(": ");
    s.append(why);
    ExportError::Config(s)
}

/// What a table holds under a key.
fn find<'a>(table: &'a Vec<(String, Setting)>, key: &str) -> (r: Option<&'a Setting>)
    ensures
        match r {
            Some(setting) => lookup(contents_of(table@), key@) == Some(content_of(*setting)),
            None => lookup(contents_of(table@), key@) is None,
        },
{
    let ghost entries = contents_of(table@);
    let mut i: usize = 0;
    proof {
        assert(entries.skip(0) == entries);
    }
    while i < table.len()
        invariant
            i <= table.len(),
            entries == contents_of(table@),
            lookup(entries, key@) == lookup(entries.skip(i as int), key@),
        decreases table.len() - i,
    {
        if same(table[i].0.as_str(), key) {
            return Some(&table[i].1);
        }
        proof {
            assert(entries.skip(i as int).drop_first() == entries.skip(i + 1));
        }
        i = i + 1;
    }
    None
}

/// One phrasing for every value of a wrong type: the dotted key, what was wanted,
/// and what the file holds.
fn wrong_type(path: &str, key: &str, wanted: &str, got: &Setting) -> (r: ExportError)
    ensures
        r.deep_view() == wrong_type_fault(path@, key@, wanted@, content_of(*got)),
{
    let mut s = key.to_owned();
    s.append(" must be ");
    s.append(wanted);
    s.append(", got ");
    match got {
        Setting::Text(_) => s.append("string"),
        Setting::Table(_) => s.append("table"),
        Setting::Other(name) => s.append(name.as_str()),
    }
    refuse(path, s.as_str())
}

/// Read a required string out of the `[dbc]` table.
fn required_str<'a>(path: &str, dbc: &'a Vec<(String, Setting)>, key: &str) -> (r: Result<
    &'a str,
    ExportError,
>)
    ensures
        match r {
            Ok(s) => required_text(path@, contents_of(dbc@), key@) == Ok::<Seq<char>, Fault>(s@),
            Err(e) => required_text(path@, contents_of(dbc@), key@) == Err::<Seq<char>, Fault>(
                e.deep_view(),
            ),
        },
{
    match find(dbc, key) {
        None => {
            let mut s = "[dbc] ".to_owned();
            s.append(key);
            s.append(" is missing");
            Err(refuse(path, s.as_str()))
        },
        Some(Setting::Text(s)) => Ok(s.as_str()),
        Some(other) => {
            let mut dotted = "dbc.".to_owned();
            dotted.append(key);
            Err(wrong_type(path, dotted.as_str(), "a string", other))
        },
    }
}

/// The refusal of a directory that is empty or absolute.
pub fn dir_error(path: &str, key: &str, quoted_dir: &str) -> (r: ExportError)
    ensures
        r.deep_view() == dir_fault(path@, key@, quoted_dir@),
{
    let mut s = "[dbc] ".to_owned();
    s.append(key);
    s.append(" ");
    s.append(quoted_dir);
    s.append(" must be a non-empty path relative to the directory holding ");
    s.append(CONFIG_FILE);
    refuse(path, s.as_str())
}

/// Where the first separator of a Windows path stands from some place on.
fn find_windows_separator(chars: &Vec<char>, from: usize) -> (r: usize)
    requires
        from <= chars.len(),
    ensures
        from <= r <= chars.len(),
        forall|j: int| from <= j < r ==> !is_windows_separator(#[trigger] chars@[j]),
        r < chars.len() ==> is_windows_separator(chars@[r as int]),
{
    let mut k: usize = from;
    while k < chars.len() && chars[k] != '/' && chars[k] != '\\'
        invariant
            from <= k <= chars.len(),
            forall|j: int| from <= j < k ==> !is_windows_separator(#[trigger] chars@[j]),
        decreases chars.len() - k,
    {
        k = k + 1;
    }
    k
}

fn windows_separator(c: char) -> (r: bool)
    ensures
        r == is_windows_separator(c),
{
    c == '/' || c == '\\'
}

fn drive(chars: &Vec<char>) -> (r: bool)
    ensures
        r == starts_with_drive(chars@),
{
    chars.len() >= 2 && (('a' <= chars[0] && chars[0] <= 'z') || ('A' <= chars[0] && chars[0]
        <= 'Z')) && chars[1] == ':'
}

fn windows_absolute(chars: &Vec<char>) -> (r: bool)
    ensures
        r == is_windows_absolute(chars@),
{
    let n = chars.len();
    if drive(chars) {
        return n >= 3 && windows_separator(chars[2]);
    }
    if n < 2 || !windows_separator(chars[0]) || !windows_separator(chars[1]) {
        return false;
    }
    if n >= 4 && chars[2] == '.' && windows_separator(chars[3]) {
        return true;
    }
    if n >= 4 && chars[0] == '\\' && chars[1] == '\\' && chars[2] == '?' && chars[3] == '\\' {
        return true;
    }
    let k = find_windows_separator(chars, 2);
    let share = k > 2 && k < n - 1 && !windows_separator(chars[k + 1]);
    proof {
        let rest = chars@.skip(2);
        assert forall|j: int| 0 <= j < k - 2 implies !is_windows_separator(#[trigger] rest[j]) by {
            assert(rest[j] == chars@[j + 2]);
        }
        if share {
            assert(is_windows_separator(rest[k - 2]));
            assert(rest[k - 2 + 1] == chars@[k + 1]);
        }
        if starts_with_share(rest) {
            let m = choose|m: int|
                #![trigger rest[m]]
                {
                    &&& 0 < m < rest.len() - 1
                    &&& is_windows_separator(rest[m])
                    &&& !is_windows_separator(rest[m + 1])
                    &&& forall|j: int| 0 <= j < m ==> !is_windows_separator(#[trigger] rest[j])
                };
            assert(rest[m] == chars@[m + 2]);
            assert(rest[m + 1] == chars@[m + 3]);
            if k < m + 2 {
                assert(rest[k - 2] == chars@[k as int]);
            }
            assert(k == m + 2);
        }
    }
    share
}

/// Whether a path is absolute by the rules of a system.
pub fn is_absolute(path: &str, system: System) -> (r: bool)
    ensures
        r == is_absolute_path(path@, system),
{
    match system {
        System::Unix => starts_with(path, '/'),
        System::Windows => windows_absolute(&chars_of(path)),
    }
}

/// Read a required directory: a path relative to the directory that holds the
/// config file.
///
/// Both directories are joined onto that one, so an absolute path would discard it,
/// and an empty one is more likely a truncated edit than an intention.
pub fn required_dir(
    path: &str,
    dbc: &Vec<(String, Setting)>,
    key: &str,
    system: System,
) -> (r: Result<String, ExportError>)
    ensures
        match r {
            Ok(dir) => required_directory(path@, contents_of(dbc@), key@, system) == Ok::<
                Seq<char>,
                Fault,
            >(dir@),
            Err(e) => required_directory(path@, contents_of(dbc@), key@, system) == Err::<
                Seq<char>,
                Fault,
            >(e.deep_view()),
        },
{
    let dir = match required_str(path, dbc, key) {
        Ok(dir) => dir,
        Err(e) => return Err(e),
    };
    if dir.is_empty() || is_absolute(dir, system) {
        return Err(dir_error(path, key, quoted(dir).as_str()));
    }
    Ok(dir.to_owned())
}

fn holds(s: &str, wanted: char) -> (r: bool)
    ensures
        r == s@.contains(wanted),
{
    for c in it: s.chars()
        invariant
            it.seq() == s@,
            forall|i: int| 0 <= i < it.index() ==> s@[i] != wanted,
    {
        if c == wanted {
            assert(s@[it.index() as int] == wanted);
            return true;
        }
    }
    false
}

/// The refusal of a stem that is no bare file name.
pub fn stem_error(path: &str, what: &str, quoted_stem: &str) -> (r: ExportError)
    ensures
        r.deep_view() == stem_fault(path@, what@, quoted_stem@),
{
    let mut s = "[dbc.exports] ".to_owned();
    s.append(what);
    s.append(" ");
    s.append(quoted_stem);
    s.append(
        " must be a bare file stem — one name, not empty, not absolute, and with no `/`, `\\` or `..`",
    );
    refuse(path, s.as_str())
}

/// Refuse an export stem that is anything but a bare file name.
///
/// A stem is joined onto a directory to make one file path, so it has to name one
/// file there. An absolute stem would replace the directory, and a `..` would climb
/// out of it, as a drive would on Windows. One config is shared by every machine that
/// clones the repo, so the separators of every system are refused on each.
///
/// `what` names the offending key the way a reader would look for it in the file.
pub fn check_stem(path: &str, what: &str, stem: &str, system: System) -> (r: Result<
    (),
    ExportError,
>)
    ensures
        match r {
            Ok(_) => is_bare_stem(stem@, system),
            Err(e) => !is_bare_stem(stem@, system) && e.deep_view() == stem_fault(
                path@,
                what@,
                debug_text(stem@),
            ),
        },
{
    let with_drive = system == System::Windows && drive(&chars_of(stem));
    if !stem.is_empty() && !same(stem, ".") && !same(stem, "..") && !holds(stem, '/') && !holds(
        stem,
        '\\',
    ) && !with_drive {
        return Ok(());
    }
    Err(stem_error(path, what, quoted(stem).as_str()))
}

/// Read one key of `[dbc.exports]`.
fn read_pair(path: &str, source: &str, setting: &Setting, system: System) -> (r: Result<
    (String, String),
    ExportError,
>)
    ensures
        match r {
            Ok(pair) => pair_of(path@, (source@, content_of(*setting)), system) == Ok::<
                (Seq<char>, Seq<char>),
                Fault,
            >(pair.deep_view()),
            Err(e) => pair_of(path@, (source@, content_of(*setting)), system) == Err::<
                (Seq<char>, Seq<char>),
                Fault,
            >(e.deep_view()),
        },
{
    let out = match setting {
        Setting::Text(out) => out.as_str(),
        _ => {
            let mut dotted = "dbc.exports.".to_owned();
            dotted.append(source);
            return Err(wrong_type(path, dotted.as_str(), "a string", setting));
        },
    };
    if let Err(e) = check_stem(path, "source stem", source, system) {
        return Err(e);
    }
    let mut what = "output stem for ".to_owned();
    what.append(quoted(source).as_str());
    what.append(",");
    if let Err(e) = check_stem(path, what.as_str(), out, system) {
        return Err(e);
    }
    Ok((source.to_owned(), out.to_owned()))
}

proof fn lemma_first_fault(
    path: Seq<char>,
    entries: Seq<(Seq<char>, Content)>,
    k: int,
    system: System,
)
    requires
        0 <= k <= entries.len(),
        pairs_of(path, entries.take(k), system) is Err,
    ensures
        pairs_of(path, entries, system) == pairs_of(path, entries.take(k), system),
    decreases entries.len(),
{
    if k == entries.len() {
        assert(entries.take(k) == entries);
    } else {
        assert(entries.drop_last().take(k) == entries.take(k));
        lemma_first_fault(path, entries.drop_last(), k, system);
    }
}

/// Read every key of `[dbc.exports]`, in the order in which the table has them.
fn read_pairs(path: &str, table: &Vec<(String, Setting)>, system: System) -> (r: Result<
    Vec<(String, String)>,
    ExportError,
>)
    ensures
        match r {
            Ok(pairs) => pairs_of(path@, contents_of(table@), system) == Ok::<
                Seq<(Seq<char>, Seq<char>)>,
                Fault,
            >(pairs.deep_view()),
            Err(e) => pairs_of(path@, contents_of(table@), system) == Err::<
                Seq<(Seq<char>, Seq<char>)>,
                Fault,
            >(e.deep_view()),
        },
{
    let ghost entries = contents_of(table@);
    let mut pairs: Vec<(String, String)> = Vec::new();
    let mut i: usize = 0;
    proof {
        assert(pairs.deep_view() == Seq::<(Seq<char>, Seq<char>)>::empty());
    }
    while i < table.len()
        invariant
            i <= table.len(),
            entries == contents_of(table@),
            pairs_of(path@, entries.take(i as int), system) == Ok::<
                Seq<(Seq<char>, Seq<char>)>,
                Fault,
            >(pairs.deep_view()),
        decreases table.len() - i,
    {
        proof {
            assert(entries.take(i + 1).drop_last() == entries.take(i as int));
        }
        let ghost before = pairs.deep_view();
        match read_pair(path, table[i].0.as_str(), &table[i].1, system) {
            Ok(pair) => {
                let ghost view = pair.deep_view();
                pairs.push(pair);
                assert(pairs.deep_view() == before.push(view));
            },
            Err(e) => {
                proof {
                    lemma_first_fault(path@, entries, i + 1, system);
                }
                return Err(e);
            },
        }
        i = i + 1;
    }
    proof {
        assert(entries.take(entries.len() as int) == entries);
    }
    Ok(pairs)
}

/// Where the last of the first `n` pairs stands that has an output stem.
fn position_of_holder(pairs: &Vec<(String, String)>, n: usize, out: &str) -> (r: Option<usize>)
    requires
        n <= pairs.len(),
    ensures
        match r {
            Some(i) => i < n && holder(pairs.deep_view().take(n as int), out@) == Some(
                pairs.deep_view()[i as int].0,
            ),
            None => holder(pairs.deep_view().take(n as int), out@) is None,
        },
{
    let ghost all = pairs.deep_view();
    let mut i: usize = n;
    while i > 0
        invariant
            i <= n <= pairs.len(),
            all == pairs.deep_view(),
            holder(all.take(n as int), out@) == holder(all.take(i as int), out@),
        decreases i,
    {
        proof {
            assert(all.take(i as int).drop_last() == all.take(i - 1));
            assert(all.take(i as int).last() == all[i - 1]);
        }
        if same(pairs[i - 1].1.as_str(), out) {
            return Some(i - 1);
        }
        i = i - 1;
    }
    None
}

proof fn lemma_clash_stays(pairs: Seq<(Seq<char>, Seq<char>)>, k: int)
    requires
        0 <= k <= pairs.len(),
        first_clash(pairs.take(k)) is Some,
    ensures
        first_clash(pairs) == first_clash(pairs.take(k)),
    decreases pairs.len(),
{
    if k == pairs.len() {
        assert(pairs.take(k) == pairs);
    } else {
        assert(pairs.drop_last().take(k) == pairs.take(k));
        lemma_clash_stays(pairs.drop_last(), k);
    }
}

/// Where two pairs stand that share an output stem: the first such pair in order,
/// behind the one that had the stem before.
fn find_clash(pairs: &Vec<(String, String)>) -> (r: Option<(usize, usize)>)
    ensures
        match r {
            Some((i, j)) => i < j < pairs.len() && first_clash(pairs.deep_view()) == Some(
                (
                    pairs.deep_view()[i as int].0,
                    pairs.deep_view()[j as int].0,
                    pairs.deep_view()[j as int].1,
                ),
            ),
            None => first_clash(pairs.deep_view()) is None,
        },
{
    let ghost all = pairs.deep_view();
    let mut j: usize = 0;
    while j < pairs.len()
        invariant
            j <= pairs.len(),
            all == pairs.deep_view(),
            first_clash(all.take(j as int)) is None,
        decreases pairs.len() - j,
    {
        proof {
            assert(all.take(j + 1).drop_last() == all.take(j as int));
            assert(all.take(j + 1).last() == all[j as int]);
        }
        if let Some(i) = position_of_holder(pairs, j, pairs[j].1.as_str()) {
            proof {
                lemma_clash_stays(all, j + 1);
            }
            return Some((i, j));
        }
        j = j + 1;
    }
    proof {
        assert(all.take(all.len() as int) == all);
    }
    None
}

/// The refusal of two pairs that share an output stem.
pub fn clash_error(path: &str, quoted_first: &str, quoted_second: &str, quoted_out: &str) -> (r:
    ExportError)
    ensures
        r.deep_view() == clash_fault(path@, quoted_first@, quoted_second@, quoted_out@),
{
    let mut s = "[dbc.exports] ".to_owned();
    s.append(quoted_first);
    s.append(" and ");
    s.append(quoted_second);
    s.append(" both export to ");
    s.append(quoted_out);
    s.append("; output stems must be unique or one export overwrites the other");
    refuse(path, s.as_str())
}

/// Read `[dbc.exports]` as pairs of stems in order.
///
/// Two sources that share an output stem would write one file twice: the second
/// export would replace the first, and both could pass for in sync with it.
pub fn exports(path: &str, dbc: &Vec<(String, Setting)>, system: System) -> (r: Result<
    Vec<(String, String)>,
    ExportError,
>)
    ensures
        match r {
            Ok(pairs) => declared_exports(path@, contents_of(dbc@), system) == Ok::<
                Seq<(Seq<char>, Seq<char>)>,
                Fault,
            >(pairs.deep_view()),
            Err(e) => declared_exports(path@, contents_of(dbc@), system) == Err::<
                Seq<(Seq<char>, Seq<char>)>,
                Fault,
            >(e.deep_view()),
        },
{
    let table = match find(dbc, "exports") {
        None => {
            return Err(
                refuse(
                    path,
                    "[dbc.exports] is missing; list at least one source stem = output stem pair",
                ),
            );
        },
        Some(Setting::Table(table)) => table,
        Some(other) => {
            return Err(wrong_type(path, "dbc.exports", "a table", other));
        },
    };
    proof {
        lemma_content_of_table(*table);
    }
    if table.len() == 0 {
        return Err(
            refuse(
                path,
                "[dbc.exports] is empty; list at least one source stem = output stem pair",
            ),
        );
    }
    let pairs = match read_pairs(path, table, system) {
        Ok(pairs) => sort_pairs(pairs),
        Err(e) => return Err(e),
    };
    if let Some((i, j)) = find_clash(&pairs) {
        return Err(
            clash_error(
                path,
                quoted(pairs[i].0.as_str()).as_str(),
                quoted(pairs[j].0.as_str()).as_str(),
                quoted(pairs[j].1.as_str()).as_str(),
            ),
        );
    }
    Ok(pairs)
}

/// Read the `[dbc]` section out of a parsed config file.
///
/// `path` is how messages name the file, `root` is the directory that holds it, and
/// `system` is the one whose rules say what a path means.
/// A document without a `[dbc]` section is no failure: the repo exports nothing. A
/// plan that is returned can be carried out, and where no key stands twice in the
/// document, each source stem comes once.
pub fn read_dbc_config(
    document: &Vec<(String, Setting)>,
    path: &str,
    root: PathBuf,
    system: System,
) -> (r: Result<Option<DbcConfig>, ExportError>)
    ensures
        match r {
            Ok(Some(config)) => {
                &&& config.root == root
                &&& plan_of(path@, contents_of(document@), system) == Ok::<Option<Plan>, Fault>(
                    Some(config.deep_view()),
                )
                &&& is_usable_plan(config.deep_view(), system)
                &&& keys_are_distinct(contents_of(document@)) ==> strictly_increase(
                    config.deep_view().exports,
                )
            },
            Ok(None) => plan_of(path@, contents_of(document@), system) == Ok::<
                Option<Plan>,
                Fault,
            >(None),
            Err(e) => plan_of(path@, contents_of(document@), system) == Err::<Option<Plan>, Fault>(
                e.deep_view(),
            ),
        },
{
    proof {
        law_a_loaded_plan_is_usable(path@, contents_of(document@), system);
    }
    let dbc = match find(document, "dbc") {
        None => return Ok(None),
        Some(Setting::Table(dbc)) => dbc,
        Some(other) => {
            return Err(wrong_type(path, "dbc", "a table", other));
        },
    };
    proof {
        lemma_content_of_table(*dbc);
    }
    let src_dir = match required_dir(path, dbc, "src_dir", system) {
        Ok(dir) => dir,
        Err(e) => return Err(e),
    };
    let out_dir = match required_dir(path, dbc, "out_dir", system) {
        Ok(dir) => dir,
        Err(e) => return Err(e),
    };
    match exports(path, dbc, system) {
        Ok(exports) => Ok(Some(DbcConfig { src_dir, out_dir, exports, root })),
        Err(e) => Err(e),
    }
}

/// Read the `[dbc]` section out of the text of a config file.
///
/// `path` is how messages name the file, `root` is the directory that holds it, and
/// `system` is the one whose rules say what a path means.
/// `Ok(None)` is a file without such a section. A section that cannot be honoured
/// is an [`ExportError::Config`]: text that is no TOML, a missing key, a value of
/// the wrong type, an empty `[dbc.exports]`, a directory that is empty or absolute,
/// a stem that is no bare file name, or an output stem that two exports name. A plan
/// that is returned can be carried out, and its source stems strictly increase.
pub fn load_dbc_config(text: &str, path: &str, root: PathBuf, system: System) -> (r: Result<
    Option<DbcConfig>,
    ExportError,
>)
    ensures
        match r {
            Ok(Some(config)) => {
                &&& config.root == root
                &&& plan_in(path@, toml_document(text@), system) == Ok::<Option<Plan>, Fault>(
                    Some(config.deep_view()),
                )
                &&& is_usable_plan(config.deep_view(), system)
                &&& strictly_increase(config.deep_view().exports)
            },
            Ok(None) => plan_in(path@, toml_document(text@), system) == Ok::<
                Option<Plan>,
                Fault,
            >(None),
            Err(e) => plan_in(path@, toml_document(text@), system) == Err::<Option<Plan>, Fault>(
                e.deep_view(),
            ),
        },
{
    match parse_toml(text) {
        Ok(table) => read_dbc_config(&entries_of(&table), path, root, system),
        Err(e) => {
            let mut s = "cannot parse ".to_owned();
            s.append(path);
            s.append(": ");
            s.append(e.as_str());
            Err(ExportError::Config(s))
        },
    }
}

// ---------------------------------------------------------------------------
// Laws
// ---------------------------------------------------------------------------

/// A key of `[dbc.exports]` and the string that it holds.
pub open spec fn stems_of(entry: (Seq<char>, Content)) -> (Seq<char>, Seq<char>) {
    (entry.0, entry.1->Text_0)
}

/// A key of `[dbc.exports]` stands for a pair of stems: it holds a string, and both
/// are bare file names.
pub open spec fn is_usable(entry: (Seq<char>, Content), system: System) -> bool {
    entry.1 is Text && is_bare_stem(entry.0, system) && is_bare_stem(entry.1->Text_0, system)
}

/// The keys of `[dbc.exports]` are read exactly when every one of them is usable,
/// and each then gives its pair of stems.
proof fn lemma_pairs(path: Seq<char>, entries: Seq<(Seq<char>, Content)>, system: System)
    ensures
        pairs_of(path, entries, system) is Ok <==> (forall|i: int|
            0 <= i < entries.len() ==> is_usable(#[trigger] entries[i], system)),
        pairs_of(path, entries, system) matches Ok(pairs) ==> pairs == entries.map_values(
            |entry: (Seq<char>, Content)| stems_of(entry),
        ),
    decreases entries.len(),
{
    let f = |entry: (Seq<char>, Content)| stems_of(entry);
    if entries.len() == 0 {
        assert(entries.map_values(f) == Seq::<(Seq<char>, Seq<char>)>::empty());
    } else {
        let before = entries.drop_last();
        lemma_pairs(path, before, system);
        if pairs_of(path, before, system) is Ok && is_usable(entries.last(), system) {
            assert forall|i: int| 0 <= i < entries.len() implies is_usable(
                #[trigger] entries[i],
                system,
            ) by {
                if i < before.len() {
                    assert(is_usable(before[i], system));
                }
            }
            assert(before.map_values(f).push(stems_of(entries.last())) == entries.map_values(f));
        }
        if forall|i: int| 0 <= i < entries.len() ==> is_usable(#[trigger] entries[i], system) {
            assert forall|i: int| 0 <= i < before.len() implies is_usable(
                #[trigger] before[i],
                system,
            ) by {
                assert(is_usable(entries[i], system));
            }
            assert(is_usable(entries[entries.len() - 1], system));
        }
    }
}

proof fn lemma_holder(pairs: Seq<(Seq<char>, Seq<char>)>, out: Seq<char>)
    ensures
        holder(pairs, out) is Some <==> output_stems(pairs).contains(out),
    decreases pairs.len(),
{
    let outs = output_stems(pairs);
    if pairs.len() > 0 {
        let before = pairs.drop_last();
        lemma_holder(before, out);
        assert(outs.drop_last() == output_stems(before));
        if outs.contains(out) && pairs.last().1 != out {
            let i = choose|i: int| 0 <= i < outs.len() && outs[i] == out;
            assert(output_stems(before)[i] == out);
        }
        if output_stems(before).contains(out) {
            let i = choose|i: int|
                0 <= i < output_stems(before).len() && output_stems(before)[i] == out;
            assert(outs[i] == out);
        }
        assert(outs[pairs.len() - 1] == pairs.last().1);
    }
}

proof fn lemma_no_clash(pairs: Seq<(Seq<char>, Seq<char>)>)
    ensures
        first_clash(pairs) is None <==> output_stems(pairs).no_duplicates(),
    decreases pairs.len(),
{
    if pairs.len() > 0 {
        let before = pairs.drop_last();
        let outs = output_stems(pairs);
        let earlier = output_stems(before);
        lemma_no_clash(before);
        lemma_holder(before, pairs.last().1);
        assert(outs == earlier.push(pairs.last().1));
        if outs.no_duplicates() {
            assert forall|i: int, j: int|
                0 <= i < earlier.len() && 0 <= j < earlier.len() && i != j implies earlier[i]
                != earlier[j] by {
                assert(outs[i] != outs[j]);
            }
            if earlier.contains(pairs.last().1) {
                let i = choose|i: int| 0 <= i < earlier.len() && earlier[i] == pairs.last().1;
                assert(outs[i] == outs[pairs.len() - 1]);
            }
        }
        if earlier.no_duplicates() && !earlier.contains(pairs.last().1) {
            assert forall|i: int, j: int|
                0 <= i < outs.len() && 0 <= j < outs.len() && i != j implies outs[i]
                != outs[j] by {
                if i < earlier.len() && j < earlier.len() {
                    assert(earlier[i] != earlier[j]);
                } else if i < earlier.len() {
                    assert(earlier.contains(earlier[i]));
                } else {
                    assert(earlier.contains(earlier[j]));
                }
            }
        }
    }
}

proof fn lemma_sorted_clash(pairs: Seq<(Seq<char>, Seq<char>)>)
    ensures
        first_clash(sorted_pairs(pairs)) is None <==> output_stems(pairs).no_duplicates(),
        sorted_pairs(pairs).to_multiset() == pairs.to_multiset(),
        sorted_by(sorted_pairs(pairs), pair_order()),
{
    let f = |pair: (Seq<char>, Seq<char>)| pair.1;
    lemma_pair_order();
    pairs.lemma_sort_by_ensures(pair_order());
    lemma_no_clash(sorted_pairs(pairs));
    lemma_same_items_mapped(sorted_pairs(pairs), pairs, f);
    lemma_same_items_distinct(output_stems(sorted_pairs(pairs)), output_stems(pairs));
}

/// `[dbc.exports]` is accepted exactly when it is not empty, every key and what it
/// holds are bare file names, and no two keys hold the same name. What comes of it
/// is then its pairs, each once, in order.
pub proof fn law_exports_are_accepted_when_usable_and_distinct(
    path: Seq<char>,
    entries: Seq<(Seq<char>, Content)>,
    system: System,
)
    ensures
        exports_among(path, entries, system) is Ok <==> {
            &&& entries.len() > 0
            &&& forall|i: int| 0 <= i < entries.len() ==> is_usable(#[trigger] entries[i], system)
            &&& entries.map_values(
                |entry: (Seq<char>, Content)| stems_of(entry).1,
            ).no_duplicates()
        },
        exports_among(path, entries, system) matches Ok(pairs) ==> {
            &&& pairs.to_multiset() == entries.map_values(
                |entry: (Seq<char>, Content)| stems_of(entry),
            ).to_multiset()
            &&& sorted_by(pairs, pair_order())
        },
{
    let pairs = entries.map_values(|entry: (Seq<char>, Content)| stems_of(entry));
    lemma_pairs(path, entries, system);
    lemma_sorted_clash(pairs);
    assert(output_stems(pairs) == entries.map_values(
        |entry: (Seq<char>, Content)| stems_of(entry).1,
    ));
}

proof fn lemma_distinct_inner(table: Seq<(Seq<char>, Content)>, key: Seq<char>)
    requires
        keys_are_distinct(table),
    ensures
        lookup(table, key) matches Some(Content::Table(inner)) ==> keys_are_distinct(inner),
    decreases table.len(),
{
    if table.len() > 0 {
        let rest = table.drop_first();
        assert(table[0] == table.first());
        assert forall|i: int, j: int| 0 <= i < j < rest.len() implies (#[trigger] rest[i]).0 != (
        #[trigger] rest[j]).0 by {
            assert(rest[i] == table[i + 1] && rest[j] == table[j + 1]);
        }
        assert forall|i: int| 0 <= i < rest.len() implies match (#[trigger] rest[i]).1 {
            Content::Table(inner) => keys_are_distinct(inner),
            _ => true,
        } by {
            assert(rest[i] == table[i + 1]);
        }
        lemma_distinct_inner(rest, key);
    }
}

/// Where no key stands twice, the sources of the pairs in order strictly increase.
proof fn lemma_strictly_sorted(entries: Seq<(Seq<char>, Content)>)
    requires
        keys_are_distinct(entries),
    ensures
        strictly_increase(
            sorted_pairs(
                entries.map_values(|entry: (Seq<char>, Content)| stems_of(entry)),
            ),
        ),
{
    let pairs = entries.map_values(|entry: (Seq<char>, Content)| stems_of(entry));
    let sorted = sorted_pairs(pairs);
    let source = |pair: (Seq<char>, Seq<char>)| pair.0;
    let leq = pair_order();
    lemma_sorted_clash(pairs);
    assert(pairs.map_values(source).no_duplicates()) by {
        assert forall|i: int, j: int|
            0 <= i < pairs.len() && 0 <= j < pairs.len() && i != j implies pairs.map_values(
            source,
        )[i] != pairs.map_values(source)[j] by {
            if i < j {
                assert(entries[i].0 != entries[j].0);
            } else {
                assert(entries[j].0 != entries[i].0);
            }
        }
    }
    lemma_same_items_mapped(sorted, pairs, source);
    lemma_same_items_distinct(sorted.map_values(source), pairs.map_values(source));
    assert forall|i: int, j: int| 0 <= i < j < sorted.len() implies text_le(
        (#[trigger] sorted[i]).0,
        (#[trigger] sorted[j]).0,
    ) && sorted[i].0 != sorted[j].0 by {
        assert(leq(sorted[i], sorted[j]));
        assert(sorted.map_values(source)[i] != sorted.map_values(source)[j]);
    }
}

/// Every plan that is loaded is one that can be carried out. Where no key stands twice
/// in the document, the source stems strictly increase, so each comes once.
pub proof fn law_a_loaded_plan_is_usable(
    path: Seq<char>,
    document: Seq<(Seq<char>, Content)>,
    system: System,
)
    ensures
        plan_of(path, document, system) matches Ok(Some(plan)) ==> {
            &&& is_usable_plan(plan, system)
            &&& keys_are_distinct(document) ==> strictly_increase(plan.exports)
        },
{
    if let Ok(Some(plan)) = plan_of(path, document, system) {
        let dbc = lookup(document, "dbc"@)->0->Table_0;
        let entries = lookup(dbc, "exports"@)->0->Table_0;
        let pairs = entries.map_values(|entry: (Seq<char>, Content)| stems_of(entry));
        lemma_pairs(path, entries, system);
        lemma_sorted_clash(pairs);
        lemma_no_clash(plan.exports);
        broadcast use vstd::seq_lib::group_to_multiset_ensures;

        assert(plan.exports.len() == plan.exports.to_multiset().len());
        assert(pairs.len() == pairs.to_multiset().len());
        assert forall|i: int| 0 <= i < plan.exports.len() implies is_bare_stem(
            (#[trigger] plan.exports[i]).0,
            system,
        ) && is_bare_stem(plan.exports[i].1, system) by {
            let pair = plan.exports[i];
            assert(plan.exports.contains(pair));
            assert(plan.exports.to_multiset().count(pair) > 0);
            assert(pairs.contains(pair));
            let k = choose|k: int| 0 <= k < pairs.len() && pairs[k] == pair;
            assert(is_usable(entries[k], system));
        }
        if keys_are_distinct(document) {
            lemma_distinct_inner(document, "dbc"@);
            lemma_distinct_inner(dbc, "exports"@);
            lemma_strictly_sorted(entries);
        }
    }
}

/// The order in which a file lists its exports does not matter: whether they are
/// accepted, and what the plan then is, depends on the entries alone.
pub proof fn law_the_order_of_the_exports_does_not_matter(
    path: Seq<char>,
    a: Seq<(Seq<char>, Content)>,
    b: Seq<(Seq<char>, Content)>,
    system: System,
)
    requires
        a.to_multiset() == b.to_multiset(),
    ensures
        exports_among(path, a, system) is Ok <==> exports_among(path, b, system) is Ok,
        exports_among(path, a, system) is Ok ==> exports_among(path, a, system) == exports_among(
            path,
            b,
            system,
        ),
{
    let stems = |entry: (Seq<char>, Content)| stems_of(entry);
    let outs = |entry: (Seq<char>, Content)| stems_of(entry).1;
    law_exports_are_accepted_when_usable_and_distinct(path, a, system);
    law_exports_are_accepted_when_usable_and_distinct(path, b, system);
    lemma_same_items_mapped(a, b, stems);
    lemma_same_items_mapped(a, b, outs);
    lemma_same_items_distinct(a.map_values(outs), b.map_values(outs));
    lemma_usable_items(a, b, system);
    lemma_usable_items(b, a, system);
    broadcast use vstd::seq_lib::group_to_multiset_ensures;

    assert(a.len() == a.to_multiset().len());
    assert(b.len() == b.to_multiset().len());
    if exports_among(path, a, system) is Ok {
        let left = exports_among(path, a, system)->Ok_0;
        let right = exports_among(path, b, system)->Ok_0;
        lemma_pair_order();
        vstd::seq_lib::lemma_sorted_unique(left, right, pair_order());
    }
}

proof fn lemma_usable_items(
    a: Seq<(Seq<char>, Content)>,
    b: Seq<(Seq<char>, Content)>,
    system: System,
)
    requires
        a.to_multiset() == b.to_multiset(),
    ensures
        (forall|i: int| 0 <= i < a.len() ==> is_usable(#[trigger] a[i], system)) ==> (forall|i: int|
            0 <= i < b.len() ==> is_usable(#[trigger] b[i], system)),
{
    broadcast use vstd::seq_lib::group_to_multiset_ensures;

    if forall|i: int| 0 <= i < a.len() ==> is_usable(#[trigger] a[i], system) {
        assert forall|i: int| 0 <= i < b.len() implies is_usable(#[trigger] b[i], system) by {
            assert(b.contains(b[i]));
            assert(b.to_multiset().count(b[i]) > 0);
            assert(a.contains(b[i]));
            let k = choose|k: int| 0 <= k < a.len() && a[k] == b[i];
            assert(is_usable(a[k], system));
        }
    }
}

} // verus!
