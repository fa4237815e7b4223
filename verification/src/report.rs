//! What a run says of one export, and how it ended.
//!
//! Every export is verified twice. The messages and signals written must be as many
//! as a separate count of the source calls convertible, and an independent parser
//! must find as many in the written file. A check further compares the written text
//! with the committed one.

use crate::m1dbc::{
    database_of, law_written_equals_convertible, signal_total, Counts, Database, M1DbcFile, Message,
};
use crate::number::{decimal, decimal_text, law_decimal_reads_back, unsigned_value};
use crate::roundtrip::{counts_of, dbc_contents, roundtrip_counts};
use crate::text::{chars_of, same};
use crate::writer::{dbc_text, has_no_carriage_return, law_written_text_ends_with_one_newline};
use crate::xml::Node;
use crate::{ExportError, Fault, Outcome};
use vstd::prelude::*;

verus! {

/// What there is to say of an export: some lines, and how it ended.
#[derive(Debug, PartialEq, Eq)]
pub struct Verdict {
    pub lines: String,
    pub outcome: Outcome,
}

// ---------------------------------------------------------------------------
// Counts
// ---------------------------------------------------------------------------

/// How many messages and signals a file has.
pub open spec fn written_of(messages: Seq<Message>) -> (nat, nat) {
    (messages.len(), signal_total(messages))
}

/// How many messages and signals of a source are convertible.
pub open spec fn convertible_of(totals: Counts) -> (nat, nat) {
    (totals.convertible_messages, totals.convertible_signals)
}

/// A line with a number of messages and a number of signals.
pub open spec fn count_line(label: Seq<char>, counts: (nat, nat), tail: Seq<char>) -> Seq<char> {
    label + decimal(counts.0) + " messages, "@ + decimal(counts.1) + " signals"@ + tail + "\n"@
}

/// One line for each skipped component.
pub open spec fn skip_lines(skipped: Seq<Seq<char>>) -> Seq<char>
    decreases skipped.len(),
{
    if skipped.len() == 0 {
        Seq::empty()
    } else {
        skip_lines(skipped.drop_last()) + "    - "@ + skipped.last() + "\n"@
    }
}

/// The lines on the components that were skipped.
pub open spec fn skip_section(skipped: Seq<Seq<char>>) -> Seq<char> {
    if skipped.len() == 0 {
        "  skipped         : none\n"@
    } else {
        "  skipped         : "@ + decimal(skipped.len()) + "\n"@ + skip_lines(skipped)
    }
}

/// The lines on counts that do not agree.
pub open spec fn mismatch_lines(file: Database, round_tripped: (nat, nat)) -> Seq<char> {
    (if written_of(file.messages) != convertible_of(file.totals) {
        "  !! written .dbc count != convertible source count\n"@
    } else {
        Seq::empty()
    }) + (if round_tripped != written_of(file.messages) {
        "  !! round-trip mismatch vs written .dbc\n"@
    } else {
        Seq::empty()
    })
}

/// The report on the counts of an export.
pub open spec fn count_report(out_stem: Seq<char>, file: Database, round_tripped: (nat, nat)) -> Seq<
    char,
> {
    "=== "@ + out_stem + " ===\n"@ + count_line(
        "  source .m1dbc   : "@,
        (file.totals.total_messages, file.totals.total_signals),
        Seq::empty(),
    ) + count_line(
        "  convertible     : "@,
        convertible_of(file.totals),
        " (source minus skipped)"@,
    ) + count_line("  written .dbc    : "@, written_of(file.messages), Seq::empty()) + count_line(
        "  round-tripped   : "@,
        round_tripped,
        Seq::empty(),
    ) + skip_section(file.skipped) + mismatch_lines(file, round_tripped)
}

/// How an export ended, by its counts: all of them have to agree.
pub open spec fn count_outcome(file: Database, round_tripped: (nat, nat)) -> Outcome {
    if written_of(file.messages) == convertible_of(file.totals) && round_tripped == written_of(
        file.messages,
    ) {
        Outcome::Success
    } else {
        Outcome::Mismatch
    }
}

proof fn lemma_signal_total_grows(messages: Seq<Message>, n: int)
    requires
        0 <= n <= messages.len(),
    ensures
        signal_total(messages.take(n)) <= signal_total(messages),
    decreases messages.len(),
{
    if n == messages.len() {
        assert(messages.take(n) == messages);
    } else {
        assert(messages.drop_last().take(n) == messages.take(n));
        lemma_signal_total_grows(messages.drop_last(), n);
    }
}

/// How many messages and signals a file has.
pub fn written_counts(file: &M1DbcFile) -> (r: (usize, usize))
    requires
        signal_total(file.deep_view().messages) <= usize::MAX,
    ensures
        (r.0 as nat, r.1 as nat) == written_of(file.deep_view().messages),
{
    let ghost messages = file.messages.deep_view();
    let mut signals: usize = 0;
    let mut i: usize = 0;
    while i < file.messages.len()
        invariant
            i <= file.messages.len(),
            messages == file.messages.deep_view(),
            signal_total(messages) <= usize::MAX,
            signals == signal_total(messages.take(i as int)),
        decreases file.messages.len() - i,
    {
        proof {
            assert(messages.take(i + 1).drop_last() == messages.take(i as int));
            assert(messages.take(i + 1).last() == file.messages[i as int].deep_view());
            lemma_signal_total_grows(messages, i + 1);
        }
        signals = signals + file.messages[i].signals.len();
        i = i + 1;
    }
    proof {
        assert(messages.take(messages.len() as int) == messages);
    }
    (file.messages.len(), signals)
}

fn write_count_line(out: &mut String, label: &str, counts: (usize, usize), tail: &str)
    ensures
        final(out)@ == old(out)@ + count_line(
            label@,
            (counts.0 as nat, counts.1 as nat),
            tail@,
        ),
{
    let ghost start = out@;
    out.append(label);
    out.append(decimal_text(counts.0 as u64).as_str());
    out.append(" messages, ");
    out.append(decimal_text(counts.1 as u64).as_str());
    out.append(" signals");
    out.append(tail);
    out.append("\n");
    assert(out@ == start + count_line(label@, (counts.0 as nat, counts.1 as nat), tail@));
}

fn write_skip_section(out: &mut String, skipped: &Vec<String>)
    ensures
        final(out)@ == old(out)@ + skip_section(skipped.deep_view()),
{
    let ghost start = out@;
    let ghost notes = skipped.deep_view();
    if skipped.len() == 0 {
        out.append("  skipped         : none\n");
        return;
    }
    out.append("  skipped         : ");
    out.append(decimal_text(skipped.len() as u64).as_str());
    out.append("\n");
    let ghost head = out@;
    let mut i: usize = 0;
    proof {
        assert(notes.take(0) == Seq::<Seq<char>>::empty());
        assert(head + Seq::<char>::empty() == head);
    }
    while i < skipped.len()
        invariant
            i <= skipped.len(),
            notes == skipped.deep_view(),
            out@ == head + skip_lines(notes.take(i as int)),
        decreases skipped.len() - i,
    {
        proof {
            assert(notes.take(i + 1).drop_last() == notes.take(i as int));
            assert(notes.take(i + 1).last() == notes[i as int]);
        }
        out.append("    - ");
        out.append(skipped[i].as_str());
        out.append("\n");
        assert(out@ == head + skip_lines(notes.take(i + 1)));
        i = i + 1;
    }
    proof {
        assert(notes.take(notes.len() as int) == notes);
        assert(out@ == start + skip_section(notes));
    }
}

/// Put the counts of an export side by side, and say whether they agree.
///
/// The report names every skipped component. Both cross-checks are reported, so that
/// a reader sees every problem at once.
pub fn report_counts(out_stem: &str, file: &M1DbcFile, round_tripped: (usize, usize)) -> (r: Verdict)
    requires
        signal_total(file.deep_view().messages) <= usize::MAX,
    ensures
        r.lines@ == count_report(
            out_stem@,
            file.deep_view(),
            (round_tripped.0 as nat, round_tripped.1 as nat),
        ),
        r.outcome == count_outcome(
            file.deep_view(),
            (round_tripped.0 as nat, round_tripped.1 as nat),
        ),
{
    let ghost view = file.deep_view();
    let ghost found = (round_tripped.0 as nat, round_tripped.1 as nat);
    let written = written_counts(file);
    let totals = &file.totals;
    let mut lines = "=== ".to_owned();
    lines.append(out_stem);
    lines.append(" ===\n");
    proof {
        reveal_strlit("");
        assert(""@ == Seq::<char>::empty());
    }
    write_count_line(
        &mut lines,
        "  source .m1dbc   : ",
        (totals.total_messages, totals.total_signals),
        "",
    );
    write_count_line(
        &mut lines,
        "  convertible     : ",
        (totals.convertible_messages, totals.convertible_signals),
        " (source minus skipped)",
    );
    write_count_line(&mut lines, "  written .dbc    : ", written, "");
    write_count_line(&mut lines, "  round-tripped   : ", round_tripped, "");
    write_skip_section(&mut lines, &file.skipped);
    let ghost counted = lines@;
    let mut outcome = Outcome::Success;
    if written.0 != totals.convertible_messages || written.1 != totals.convertible_signals {
        lines.append("  !! written .dbc count != convertible source count\n");
        outcome = Outcome::Mismatch;
    }
    if round_tripped.0 != written.0 || round_tripped.1 != written.1 {
        lines.append("  !! round-trip mismatch vs written .dbc\n");
        outcome = Outcome::Mismatch;
    }
    assert(lines@ == counted + mismatch_lines(view, found));
    Verdict { lines, outcome }
}

/// What verifying a written file comes to, whatever the independent parser makes of
/// its text.
pub open spec fn verified(
    out_stem: Seq<char>,
    file: Database,
    found: Result<(nat, nat), Fault>,
) -> Result<(Seq<char>, Outcome), Fault> {
    match found {
        Ok(counts) => Ok((count_report(out_stem, file, counts), count_outcome(file, counts))),
        Err(fault) => Err(fault),
    }
}

/// Verify a written file: read its text back, and report the counts.
pub fn verify_written(out_stem: &str, file: &M1DbcFile, written_text: &str) -> (r: Result<
    Verdict,
    ExportError,
>)
    requires
        signal_total(file.deep_view().messages) <= usize::MAX,
    ensures
        match r {
            Ok(verdict) => verified(
                out_stem@,
                file.deep_view(),
                counts_of(dbc_contents(written_text@)),
            ) == Ok::<(Seq<char>, Outcome), Fault>((verdict.lines@, verdict.outcome)),
            Err(e) => verified(
                out_stem@,
                file.deep_view(),
                counts_of(dbc_contents(written_text@)),
            ) == Err::<(Seq<char>, Outcome), Fault>(e.deep_view()),
        },
{
    match roundtrip_counts(written_text) {
        Ok(found) => Ok(report_counts(out_stem, file, found)),
        Err(e) => Err(e),
    }
}

// ---------------------------------------------------------------------------
// Comparison
// ---------------------------------------------------------------------------

/// A text with every line ending, `\r\n` or `\r`, as a line feed.
pub open spec fn normalised(s: Seq<char>) -> Seq<char>
    decreases s.len(),
{
    if s.len() == 0 {
        s
    } else if s[0] == '\r' && s.len() > 1 && s[1] == '\n' {
        seq!['\n'] + normalised(s.skip(2))
    } else if s[0] == '\r' {
        seq!['\n'] + normalised(s.skip(1))
    } else {
        seq![s[0]] + normalised(s.skip(1))
    }
}

/// Two texts differ in their line endings at most.
pub open spec fn in_sync(a: Seq<char>, b: Seq<char>) -> bool {
    normalised(a) == normalised(b)
}

/// The text of a committed file. One that does not exist compares as empty.
pub open spec fn committed_text(committed: Option<Seq<char>>) -> Seq<char> {
    match committed {
        Some(text) => text,
        None => Seq::empty(),
    }
}

/// How the comparison with a committed file ended.
pub open spec fn sync_outcome(written: Seq<char>, committed: Option<Seq<char>>) -> Outcome {
    if in_sync(written, committed_text(committed)) {
        Outcome::Success
    } else {
        Outcome::Mismatch
    }
}

/// The line on whether a committed file is in sync.
pub open spec fn sync_line(synced: bool, out: Seq<char>, src: Seq<char>) -> Seq<char> {
    if synced {
        "  in sync         : yes\n"@
    } else {
        "  !! "@ + out + " is out of sync with "@ + src + " — run: m1-can export\n"@
    }
}

/// Collapse CRLF and CR to LF, so that a committed export with Windows line endings
/// compares equal to the text that the writer produces.
pub fn normalise_newlines(text: &str) -> (r: String)
    ensures
        r@ == normalised(text@),
{
    let chars = chars_of(text);
    let mut out = String::new();
    let mut i: usize = 0;
    proof {
        assert(text@.skip(0) == text@);
        assert(out@ + normalised(text@) == normalised(text@));
    }
    while i < chars.len()
        invariant
            i <= chars.len(),
            chars@ == text@,
            normalised(text@) == out@ + normalised(text@.skip(i as int)),
        decreases chars.len() - i,
    {
        let ghost before = out@;
        let ghost rest = text@.skip(i as int);
        let c = chars[i];
        if c == '\r' && i + 1 < chars.len() && chars[i + 1] == '\n' {
            out.push('\n');
            proof {
                assert(rest.skip(2) == text@.skip(i + 2));
                assert(before + (seq!['\n'] + normalised(rest.skip(2))) == out@ + normalised(
                    rest.skip(2),
                ));
            }
            i = i + 2;
        } else {
            let ending = if c == '\r' {
                '\n'
            } else {
                c
            };
            out.push(ending);
            proof {
                assert(rest.skip(1) == text@.skip(i + 1));
                assert(before + (seq![ending] + normalised(rest.skip(1))) == out@ + normalised(
                    rest.skip(1),
                ));
            }
            i = i + 1;
        }
    }
    proof {
        assert(text@.skip(i as int) == Seq::<char>::empty());
        assert(out@ + Seq::<char>::empty() == out@);
    }
    out
}

/// Compare a written text with the committed one, line endings aside.
///
/// `out` and `src` are how the report names the committed file and its source. A
/// committed file that does not exist is out of date, which is no failure.
pub fn compare_committed(written_text: &str, committed: Option<&str>, out: &str, src: &str) -> (r:
    Verdict)
    ensures
        r.lines@ == sync_line(
            in_sync(written_text@, committed_text(committed.deep_view())),
            out@,
            src@,
        ),
        r.outcome == sync_outcome(written_text@, committed.deep_view()),
        r.outcome == Outcome::Success || r.outcome == Outcome::Mismatch,
        committed is Some && has_no_carriage_return(written_text@) && has_no_carriage_return(
            committed->0@,
        ) ==> (r.outcome == Outcome::Success <==> written_text@ == committed->0@),
{
    proof {
        if let Some(text) = committed {
            law_a_check_succeeds_exactly_when_nothing_but_line_endings_differs(
                written_text@,
                text@,
                out@,
                src@,
            );
        }
    }
    let committed = match committed {
        Some(text) => text,
        None => "",
    };
    proof {
        reveal_strlit("");
        assert(""@ == Seq::<char>::empty());
    }
    if same(
        normalise_newlines(written_text).as_str(),
        normalise_newlines(committed).as_str(),
    ) {
        Verdict { lines: "  in sync         : yes\n".to_owned(), outcome: Outcome::Success }
    } else {
        let mut lines = "  !! ".to_owned();
        lines.append(out);
        lines.append(" is out of sync with ");
        lines.append(src);
        lines.append(" — run: m1-can export\n");
        Verdict { lines, outcome: Outcome::Mismatch }
    }
}

// ---------------------------------------------------------------------------
// Paths and outcomes
// ---------------------------------------------------------------------------

/// The components of a path below a directory, or all of them where it is not below.
pub open spec fn relative_to(path: Seq<Seq<char>>, root: Seq<Seq<char>>) -> Seq<Seq<char>> {
    if root.is_prefix_of(path) {
        path.skip(root.len() as int)
    } else {
        path
    }
}

/// A path as seen from a directory, for the report: the components behind those of
/// the directory, or the whole path where it does not lead there.
pub fn relative(path: &Vec<String>, root: &Vec<String>) -> (r: Vec<String>)
    ensures
        r.deep_view() == relative_to(path.deep_view(), root.deep_view()),
{
    let ghost all = path.deep_view();
    let ghost above = root.deep_view();
    let mut below = root.len() <= path.len();
    let mut i: usize = 0;
    while below && i < root.len()
        invariant
            i <= root.len(),
            all == path.deep_view(),
            above == root.deep_view(),
            below ==> root.len() <= path.len(),
            below ==> above.take(i as int) == all.take(i as int),
            !below ==> !above.is_prefix_of(all),
        decreases root.len() - i,
    {
        if same(path[i].as_str(), root[i].as_str()) {
            proof {
                assert(above.take(i + 1) == above.take(i as int).push(above[i as int]));
                assert(all.take(i + 1) == all.take(i as int).push(all[i as int]));
            }
        } else {
            proof {
                if above.is_prefix_of(all) {
                    assert(all.subrange(0, above.len() as int)[i as int] == above[i as int]);
                }
            }
            below = false;
        }
        i = i + 1;
    }
    let mut from: usize = 0;
    if below {
        proof {
            assert(above.take(above.len() as int) == above);
        }
        from = root.len();
    }
    let mut rest: Vec<String> = Vec::new();
    let mut k: usize = from;
    proof {
        assert(relative_to(all, above) == all.skip(from as int));
        assert(rest.deep_view() == all.subrange(from as int, k as int));
    }
    while k < path.len()
        invariant
            from <= k <= path.len(),
            all == path.deep_view(),
            rest.deep_view() == all.subrange(from as int, k as int),
        decreases path.len() - k,
    {
        let ghost before = rest.deep_view();
        rest.push(path[k].as_str().to_owned());
        proof {
            assert(rest.deep_view() == before.push(all[k as int]));
            assert(all.subrange(from as int, k + 1) == before.push(all[k as int]));
        }
        k = k + 1;
    }
    proof {
        assert(all.subrange(from as int, all.len() as int) == all.skip(from as int));
    }
    rest
}

/// How a pair ends, by its counts and, in a check, by the comparison with the
/// committed file: the worse of the two.
pub open spec fn combined(counted: Outcome, compared: Option<Outcome>) -> Outcome {
    match compared {
        Some(outcome) => counted.worse(outcome),
        None => counted,
    }
}

/// How a pair ends, by the outcome of its counts and, in a check, that of the
/// comparison with the committed file.
pub fn pair_outcome(counted: Outcome, compared: Option<Outcome>) -> (r: Outcome)
    ensures
        r == combined(counted, compared),
{
    match compared {
        Some(outcome) => counted.worst(outcome),
        None => counted,
    }
}

/// The worst of some outcomes. A run without any has succeeded.
pub open spec fn worst_of(outcomes: Seq<Outcome>) -> Outcome
    decreases outcomes.len(),
{
    if outcomes.len() == 0 {
        Outcome::Success
    } else {
        worst_of(outcomes.drop_last()).worse(outcomes.last())
    }
}

/// How a run ended: the worst outcome of any of its exports.
pub fn overall(outcomes: &Vec<Outcome>) -> (r: Outcome)
    ensures
        r == worst_of(outcomes@),
{
    let mut worst = Outcome::Success;
    let mut i: usize = 0;
    while i < outcomes.len()
        invariant
            i <= outcomes.len(),
            worst == worst_of(outcomes@.take(i as int)),
        decreases outcomes.len() - i,
    {
        proof {
            assert(outcomes@.take(i + 1).drop_last() == outcomes@.take(i as int));
        }
        worst = worst.worst(outcomes[i]);
        i = i + 1;
    }
    proof {
        assert(outcomes@.take(outcomes@.len() as int) == outcomes@);
    }
    worst
}

// ---------------------------------------------------------------------------
// Laws
// ---------------------------------------------------------------------------

/// A text with a carriage return put before every line feed.
pub open spec fn with_crlf(s: Seq<char>) -> Seq<char>
    decreases s.len(),
{
    if s.len() == 0 {
        s
    } else if s[0] == '\n' {
        seq!['\r', '\n'] + with_crlf(s.skip(1))
    } else {
        seq![s[0]] + with_crlf(s.skip(1))
    }
}

/// Normalised text holds no carriage return, and text without one is normalised
/// already. So normalising twice is normalising once.
pub proof fn law_normalised_text_holds_no_carriage_return(s: Seq<char>)
    ensures
        has_no_carriage_return(normalised(s)),
        has_no_carriage_return(s) ==> normalised(s) == s,
        normalised(normalised(s)) == normalised(s),
    decreases s.len(),
{
    lemma_normalised(s);
    lemma_normalised(normalised(s));
}

proof fn lemma_normalised(s: Seq<char>)
    ensures
        has_no_carriage_return(normalised(s)),
        has_no_carriage_return(s) ==> normalised(s) == s,
    decreases s.len(),
{
    if s.len() > 0 {
        lemma_normalised(s.skip(1));
        if s.len() > 1 {
            lemma_normalised(s.skip(2));
        }
        if has_no_carriage_return(s) {
            assert forall|i: int| 0 <= i < s.skip(1).len() implies s.skip(1)[i] != '\r' by {
                assert(s.skip(1)[i] == s[i + 1]);
            }
            assert(s == seq![s[0]] + s.skip(1));
        }
    }
}

/// Line endings are not drift. Every text is in sync with itself, and a committed text
/// without carriage returns compares just as it does when it is stored with CRLF line
/// endings, whatever it is compared with.
pub proof fn law_line_endings_are_not_drift(written: Seq<char>, committed: Seq<char>)
    ensures
        in_sync(written, written),
        has_no_carriage_return(committed) ==> (in_sync(written, committed) <==> in_sync(
            written,
            with_crlf(committed),
        )),
        has_no_carriage_return(committed) ==> sync_outcome(written, Some(committed))
            == sync_outcome(written, Some(with_crlf(committed))),
{
    if has_no_carriage_return(committed) {
        lemma_crlf_normalised(committed);
    }
}

proof fn lemma_crlf_normalised(s: Seq<char>)
    requires
        has_no_carriage_return(s),
    ensures
        normalised(with_crlf(s)) == normalised(s),
    decreases s.len(),
{
    if s.len() > 0 {
        let rest = s.skip(1);
        let stored = with_crlf(s);
        assert forall|i: int| 0 <= i < rest.len() implies rest[i] != '\r' by {
            assert(rest[i] == s[i + 1]);
        }
        lemma_crlf_normalised(rest);
        if s[0] == '\n' {
            assert(stored.skip(2) == with_crlf(rest));
        } else {
            assert(stored.skip(1) == with_crlf(rest));
        }
    }
}

/// Drift is a difference in the text itself: two texts without carriage returns are
/// in sync exactly when they are the same.
pub proof fn law_drift_is_a_difference_in_the_text(a: Seq<char>, b: Seq<char>)
    requires
        has_no_carriage_return(a),
        has_no_carriage_return(b),
    ensures
        in_sync(a, b) <==> a == b,
{
    lemma_normalised(a);
    lemma_normalised(b);
}

/// A committed export that does not exist is out of date, whatever would be written.
pub proof fn law_a_missing_export_is_out_of_date(messages: Seq<Message>)
    ensures
        !in_sync(dbc_text(messages), committed_text(None)),
{
    law_written_text_ends_with_one_newline(messages);
    assert(normalised(dbc_text(messages)).len() > 0);
    assert(normalised(Seq::<char>::empty()).len() == 0);
}

/// What is written for a parsed source always agrees with the count of the source,
/// so whether its counts agree is up to the independent parser alone.
pub proof fn law_only_the_round_trip_can_miscount(
    doc: Seq<Node>,
    stem: Seq<char>,
    round_tripped: (nat, nat),
)
    ensures
        database_of(doc, stem) matches Ok(file) ==> {
            &&& written_of(file.messages) == convertible_of(file.totals)
            &&& count_outcome(file, round_tripped) == Outcome::Success <==> round_tripped
                == written_of(file.messages)
        },
{
    law_written_equals_convertible(doc, stem);
}

/// One bad export decides how a run ended, and nothing else does: the overall
/// outcome is at least as bad as each, and, if there are any, one of them is as bad.
pub proof fn law_the_worst_outcome_decides(outcomes: Seq<Outcome>)
    ensures
        forall|i: int|
            0 <= i < outcomes.len() ==> (#[trigger] outcomes[i]).exit_code() <= worst_of(
                outcomes,
            ).exit_code(),
        outcomes.len() > 0 ==> outcomes.contains(worst_of(outcomes)),
        outcomes.len() == 0 ==> worst_of(outcomes) == Outcome::Success,
    decreases outcomes.len(),
{
    if outcomes.len() > 0 {
        let before = outcomes.drop_last();
        law_the_worst_outcome_decides(before);
        assert forall|i: int| 0 <= i < outcomes.len() implies (
        #[trigger] outcomes[i]).exit_code() <= worst_of(outcomes).exit_code() by {
            if i < before.len() {
                assert(outcomes[i] == before[i]);
            }
        }
        if worst_of(outcomes) == outcomes.last() {
            assert(outcomes[outcomes.len() - 1] == worst_of(outcomes));
        } else if before.len() > 0 {
            let i = choose|i: int| 0 <= i < before.len() && before[i] == worst_of(before);
            assert(outcomes[i] == worst_of(outcomes));
        }
    }
}

/// One pair as a run handles it: what its source holds, and the text that was written
/// for it.
pub struct Export {
    pub file: Database,
    pub written: Seq<char>,
}

/// How a pair ends that is written: the independent parser must read the text back,
/// and the counts must agree.
pub open spec fn export_outcome(export: Export) -> Outcome {
    match counts_of(dbc_contents(export.written)) {
        Ok(counts) => combined(count_outcome(export.file, counts), None),
        Err(_) => Outcome::Failed,
    }
}

/// How a pair ends that is checked: the committed file must be in sync, too.
pub open spec fn check_outcome(export: Export, committed: Option<Seq<char>>) -> Outcome {
    match counts_of(dbc_contents(export.written)) {
        Ok(counts) => combined(
            count_outcome(export.file, counts),
            Some(sync_outcome(export.written, committed)),
        ),
        Err(_) => Outcome::Failed,
    }
}

/// What [`pair_outcome`] makes of the outcomes that [`verify_written`] and
/// [`compare_committed`] return is how the pair ends: as one that is written where there
/// was no comparison, and as one that is checked where there was one. A text that does
/// not read back is a failure either way.
pub proof fn law_the_outcomes_of_a_pair_are_combined(
    out_stem: Seq<char>,
    export: Export,
    committed: Option<Seq<char>>,
)
    ensures
        match verified(out_stem, export.file, counts_of(dbc_contents(export.written))) {
            Ok((_, counted)) => {
                &&& combined(counted, None) == export_outcome(export)
                &&& combined(counted, Some(sync_outcome(export.written, committed)))
                    == check_outcome(export, committed)
            },
            Err(_) => {
                &&& export_outcome(export) == Outcome::Failed
                &&& check_outcome(export, committed) == Outcome::Failed
            },
        },
{
}

/// A check passes right after an export. Where a run over some pairs has succeeded, a
/// check of the same pairs, each with the text just written as its committed one,
/// succeeds too.
pub proof fn law_a_check_passes_after_an_export(exports: Seq<Export>)
    requires
        worst_of(exports.map_values(|e: Export| export_outcome(e))) == Outcome::Success,
    ensures
        worst_of(exports.map_values(|e: Export| check_outcome(e, Some(e.written))))
            == Outcome::Success,
{
    let first = exports.map_values(|e: Export| export_outcome(e));
    let second = exports.map_values(|e: Export| check_outcome(e, Some(e.written)));
    law_the_worst_outcome_decides(first);
    law_the_worst_outcome_decides(second);
    if exports.len() > 0 {
        let i = choose|i: int| 0 <= i < second.len() && second[i] == worst_of(second);
        assert(first[i].exit_code() <= worst_of(first).exit_code());
        assert(first[i] == Outcome::Success);
        assert(first[i] == export_outcome(exports[i]));
        assert(second[i] == check_outcome(exports[i], Some(exports[i].written)));
    }
}

/// A path below a directory is reported without the directory.
pub proof fn law_a_path_below_the_root_is_reported_from_there(
    root: Seq<Seq<char>>,
    rest: Seq<Seq<char>>,
)
    ensures
        relative_to(root + rest, root) == rest,
{
    assert((root + rest).subrange(0, root.len() as int) == root);
    assert((root + rest).skip(root.len() as int) == rest);
}

/// Every line ending becomes one line feed, and nothing else changes: behind a text
/// without carriage returns, a CRLF or a lone carriage return becomes a line feed, and the
/// rest is normalised in turn.
pub proof fn law_every_line_ending_becomes_a_line_feed(front: Seq<char>, rest: Seq<char>)
    requires
        has_no_carriage_return(front),
    ensures
        normalised(front + seq!['\r', '\n'] + rest) == front + seq!['\n'] + normalised(rest),
        rest.len() == 0 || rest[0] != '\n' ==> normalised(front + seq!['\r'] + rest) == front
            + seq!['\n'] + normalised(rest),
        normalised(front) == front,
    decreases front.len(),
{
    lemma_normalised(front);
    let crlf = front + seq!['\r', '\n'] + rest;
    let cr = front + seq!['\r'] + rest;
    if front.len() == 0 {
        assert(crlf.skip(2) == rest);
        assert(crlf[0] == '\r' && crlf[1] == '\n');
        assert(cr.skip(1) == rest);
        assert(cr[0] == '\r');
        assert(front + seq!['\n'] + normalised(rest) == seq!['\n'] + normalised(rest));
    } else {
        let more = front.skip(1);
        assert forall|i: int| 0 <= i < more.len() implies more[i] != '\r' by {
            assert(more[i] == front[i + 1]);
        }
        law_every_line_ending_becomes_a_line_feed(more, rest);
        assert(crlf.skip(1) == more + seq!['\r', '\n'] + rest);
        assert(cr.skip(1) == more + seq!['\r'] + rest);
        assert(crlf[0] == front[0] && cr[0] == front[0]);
        assert(front + seq!['\n'] + normalised(rest) == seq![front[0]] + (more + seq!['\n']
            + normalised(rest)));
    }
}

/// A check succeeds exactly when the committed text is the written one, line endings aside;
/// where neither has a carriage return, exactly when the two are the same. It fails as a
/// mismatch otherwise, a missing file counts as an empty one, and the line that is reported
/// agrees.
pub proof fn law_a_check_succeeds_exactly_when_nothing_but_line_endings_differs(
    written: Seq<char>,
    committed: Seq<char>,
    out: Seq<char>,
    src: Seq<char>,
)
    ensures
        sync_outcome(written, Some(committed)) == Outcome::Success <==> normalised(written)
            == normalised(committed),
        has_no_carriage_return(written) && has_no_carriage_return(committed) ==> (sync_outcome(
            written,
            Some(committed),
        ) == Outcome::Success <==> written == committed),
        sync_outcome(written, Some(committed)) != Outcome::Success ==> sync_outcome(
            written,
            Some(committed),
        ) == Outcome::Mismatch,
        sync_outcome(written, None) == sync_outcome(written, Some(Seq::empty())),
        sync_line(in_sync(written, committed), out, src) == (if sync_outcome(
            written,
            Some(committed),
        ) == Outcome::Success {
            "  in sync         : yes\n"@
        } else {
            "  !! "@ + out + " is out of sync with "@ + src + " — run: m1-can export\n"@
        }),
{
    lemma_normalised(written);
    lemma_normalised(committed);
}

/// The counts of an export agree exactly when as many messages and signals are written as
/// can be converted, and the independent parser finds just as many. Anything else is a
/// mismatch.
pub proof fn law_the_counts_agree_exactly_when_all_are_the_same(
    file: Database,
    messages: nat,
    signals: nat,
)
    ensures
        count_outcome(file, (messages, signals)) == Outcome::Success <==> {
            &&& file.messages.len() == file.totals.convertible_messages
            &&& signal_total(file.messages) == file.totals.convertible_signals
            &&& messages == file.messages.len()
            &&& signals == signal_total(file.messages)
        },
        count_outcome(file, (messages, signals)) == Outcome::Success || count_outcome(
            file,
            (messages, signals),
        ) == Outcome::Mismatch,
{
}

/// The signals of some messages are those of each of them together, and what is written is
/// that many signals and as many messages as there are.
pub proof fn law_signals_add_up(messages: Seq<Message>, message: Message)
    ensures
        signal_total(Seq::empty()) == 0,
        signal_total(messages.push(message)) == signal_total(messages) + message.signals.len(),
        written_of(messages) == (messages.len(), signal_total(messages)),
{
    assert(messages.push(message).drop_last() == messages);
}

/// The report shows every count as it is: of the source, of what is convertible, of what is
/// written and of what was read back, each a number that reads back in base 10; then what
/// was skipped, and what does not agree.
pub proof fn law_the_report_shows_every_count(
    out_stem: Seq<char>,
    file: Database,
    messages: nat,
    signals: nat,
)
    ensures
        count_report(out_stem, file, (messages, signals)) == "=== "@ + out_stem + " ===\n"@ + (
        "  source .m1dbc   : "@ + decimal(file.totals.total_messages) + " messages, "@ + decimal(
            file.totals.total_signals,
        ) + " signals"@ + Seq::<char>::empty() + "\n"@) + ("  convertible     : "@ + decimal(
            file.totals.convertible_messages,
        ) + " messages, "@ + decimal(file.totals.convertible_signals) + " signals"@
            + " (source minus skipped)"@ + "\n"@) + ("  written .dbc    : "@ + decimal(
            file.messages.len(),
        ) + " messages, "@ + decimal(signal_total(file.messages)) + " signals"@ + Seq::<
            char,
        >::empty() + "\n"@) + ("  round-tripped   : "@ + decimal(messages) + " messages, "@
            + decimal(signals) + " signals"@ + Seq::<char>::empty() + "\n"@) + skip_section(
            file.skipped,
        ) + mismatch_lines(file, (messages, signals)),
        unsigned_value(decimal(file.totals.total_messages), 10) == Some(
            file.totals.total_messages,
        ),
        unsigned_value(decimal(file.totals.total_signals), 10) == Some(file.totals.total_signals),
        unsigned_value(decimal(file.totals.convertible_messages), 10) == Some(
            file.totals.convertible_messages,
        ),
        unsigned_value(decimal(file.totals.convertible_signals), 10) == Some(
            file.totals.convertible_signals,
        ),
        unsigned_value(decimal(file.messages.len()), 10) == Some(file.messages.len()),
        unsigned_value(decimal(signal_total(file.messages)), 10) == Some(
            signal_total(file.messages),
        ),
        unsigned_value(decimal(messages), 10) == Some(messages),
        unsigned_value(decimal(signals), 10) == Some(signals),
        mismatch_lines(file, (messages, signals)) == (if file.messages.len()
            != file.totals.convertible_messages || signal_total(file.messages)
            != file.totals.convertible_signals {
            "  !! written .dbc count != convertible source count\n"@
        } else {
            Seq::empty()
        }) + (if messages != file.messages.len() || signals != signal_total(file.messages) {
            "  !! round-trip mismatch vs written .dbc\n"@
        } else {
            Seq::empty()
        }),
{
    law_decimal_reads_back(file.totals.total_messages);
    law_decimal_reads_back(file.totals.total_signals);
    law_decimal_reads_back(file.totals.convertible_messages);
    law_decimal_reads_back(file.totals.convertible_signals);
    law_decimal_reads_back(file.messages.len());
    law_decimal_reads_back(signal_total(file.messages));
    law_decimal_reads_back(messages);
    law_decimal_reads_back(signals);
}

/// The report has one line for each skipped component, with its note as it is, in order,
/// and says how many there are.
pub proof fn law_the_report_names_everything_skipped(skipped: Seq<Seq<char>>, note: Seq<char>)
    ensures
        skip_section(Seq::empty()) == "  skipped         : none\n"@,
        skip_lines(Seq::empty()).len() == 0,
        skip_lines(skipped.push(note)) == skip_lines(skipped) + "    - "@ + note + "\n"@,
        skip_section(skipped.push(note)) == "  skipped         : "@ + decimal(skipped.len() + 1)
            + "\n"@ + (skip_lines(skipped) + "    - "@ + note + "\n"@),
        unsigned_value(decimal(skipped.len() + 1), 10) == Some((skipped.len() + 1) as nat),
{
    assert(skipped.push(note).drop_last() == skipped);
    law_decimal_reads_back(skipped.len() + 1);
}

/// What verifying a written file comes to is what the independent parser found in it, with
/// the report and the outcome for just these counts, or its refusal, unchanged.
pub proof fn law_verifying_goes_by_what_was_found(
    out_stem: Seq<char>,
    file: Database,
    counts: (nat, nat),
    fault: Fault,
)
    ensures
        verified(out_stem, file, Ok(counts)) == Ok::<(Seq<char>, Outcome), Fault>(
            (count_report(out_stem, file, counts), count_outcome(file, counts)),
        ),
        verified(out_stem, file, Err(fault)) == Err::<(Seq<char>, Outcome), Fault>(fault),
{
}

/// A pair ends as badly as the worse of its counts and its comparison, and as its counts
/// where there was no comparison.
pub proof fn law_a_pair_ends_as_the_worse_of_two(counted: Outcome, compared: Outcome)
    ensures
        combined(counted, None) == counted,
        combined(counted, Some(compared)) == counted || combined(counted, Some(compared))
            == compared,
        combined(counted, Some(compared)) == Outcome::Success <==> counted == Outcome::Success
            && compared == Outcome::Success,
        combined(counted, Some(compared)) == Outcome::Failed <==> counted == Outcome::Failed
            || compared == Outcome::Failed,
{
}

/// A path that does not lead through a directory is reported whole.
pub proof fn law_a_path_elsewhere_is_reported_whole(path: Seq<Seq<char>>, root: Seq<Seq<char>>)
    requires
        root.len() > path.len() || exists|i: int|
            0 <= i < root.len() && #[trigger] root[i] != path[i],
    ensures
        relative_to(path, root) == path,
{
    if root.is_prefix_of(path) {
        let i = choose|i: int| 0 <= i < root.len() && #[trigger] root[i] != path[i];
        assert(path.subrange(0, root.len() as int)[i] == path[i]);
    }
}

} // verus!
