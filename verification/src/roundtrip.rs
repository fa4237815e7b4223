//! Read `.dbc` text back with a parser that had no part in writing it.
//!
//! On its own [`writer`](crate::writer) can only agree with itself. Here the text
//! goes to the `can-dbc` crate, and what that parser found is counted: where a
//! construct in the text is not real DBC, the count comes back wrong or the parse
//! fails.

use crate::text::same;
use crate::{ExportError, Fault};
use vstd::prelude::*;

verus! {

/// DBC's holding pen for signals that belong to no frame.
///
/// Tools park orphan signals in a pseudo-message of this name so that the file
/// stays well-formed. Nobody transmits it. It is known by its name, since
/// `can-dbc` does not keep the identifier that such a message is written with.
pub const INDEPENDENT_SIG_MSG: &'static str = "VECTOR__INDEPENDENT_SIG_MSG";

/// What the parser found in a database.
#[derive(Debug, PartialEq, Eq)]
pub struct Findings {
    /// The name of each message.
    pub messages: Vec<String>,
    /// For each signal, the name of the message that it stands in.
    pub owners: Vec<String>,
}

/// The characters of [`Findings`].
#[verifier::ext_equal]
pub struct Found {
    pub messages: Seq<Seq<char>>,
    pub owners: Seq<Seq<char>>,
}

impl DeepView for Findings {
    type V = Found;

    open spec fn deep_view(&self) -> Found {
        Found { messages: self.messages.deep_view(), owners: self.owners.deep_view() }
    }
}

/// What `can-dbc` makes of a text: the messages and signals in it, or its
/// diagnosis.
pub uninterp spec fn dbc_contents(text: Seq<char>) -> Result<Found, Seq<char>>;

/// Parse `.dbc` text with the `TryFrom<&str>` impl of `can_dbc::Dbc`.
///
/// The messages come in the order of `Dbc::messages`, and the signals in that of
/// each message's `signals`. The contract names the result as a function of the
/// text and says nothing of what is a well-formed database.
#[verifier::external_body]
pub(crate) fn parse_dbc(text: &str) -> (r: Result<Findings, String>)
    ensures
        match r {
            Ok(findings) => dbc_contents(text@) == Ok::<Found, Seq<char>>(findings.deep_view()),
            Err(e) => dbc_contents(text@) == Err::<Found, Seq<char>>(e@),
        },
{
    let dbc = can_dbc::Dbc::try_from(text).map_err(|e| e.to_string())?;
    let owners = dbc.messages.iter().flat_map(|m| m.signals.iter().map(|_| m.name.clone()));
    Ok(Findings {
        owners: owners.collect(),
        messages: dbc.messages.iter().map(|m| m.name.clone()).collect(),
    })
}

/// How many of some message names are those of frames.
pub open spec fn frames_among(names: Seq<Seq<char>>) -> nat {
    names.filter(|name: Seq<char>| name != INDEPENDENT_SIG_MSG@).len()
}

/// How many frames, and how many signals in frames, there are in a text that is a
/// database.
pub open spec fn counts_of(contents: Result<Found, Seq<char>>) -> Result<(nat, nat), Fault> {
    match contents {
        Ok(found) => Ok((frames_among(found.messages), frames_among(found.owners))),
        Err(e) => Err(Fault::Dbc(e)),
    }
}

proof fn lemma_one_more_name(names: Seq<Seq<char>>, k: int)
    requires
        0 <= k < names.len(),
    ensures
        frames_among(names.take(k + 1)) == frames_among(names.take(k)) + (if names[k]
            == INDEPENDENT_SIG_MSG@ {
            0nat
        } else {
            1nat
        }),
{
    reveal(Seq::filter);
    assert(names.take(k + 1).drop_last() == names.take(k));
}

/// How many of some message names are those of frames.
fn count_frames(names: &Vec<String>) -> (r: usize)
    ensures
        r == frames_among(names.deep_view()),
        r <= names.len(),
{
    let ghost all = names.deep_view();
    let mut count: usize = 0;
    let mut k: usize = 0;
    proof {
        reveal(Seq::filter);
        assert(all.take(0) == Seq::<Seq<char>>::empty());
    }
    while k < names.len()
        invariant
            k <= names.len(),
            all == names.deep_view(),
            count == frames_among(all.take(k as int)),
            count <= k,
        decreases names.len() - k,
    {
        proof {
            lemma_one_more_name(all, k as int);
        }
        if !same(names[k].as_str(), INDEPENDENT_SIG_MSG) {
            count = count + 1;
        }
        k = k + 1;
    }
    proof {
        assert(all.take(all.len() as int) == all);
    }
    count
}

/// How many frames, and how many signals in frames, the parser found. The
/// container of independent signals is left out of both, with all it holds.
pub fn frame_counts(findings: &Findings) -> (r: (usize, usize))
    ensures
        r.0 == frames_among(findings.deep_view().messages),
        r.1 == frames_among(findings.deep_view().owners),
{
    (count_frames(&findings.messages), count_frames(&findings.owners))
}

/// Parse `.dbc` text and count the messages and the signals in it, both without
/// the container of independent signals.
///
/// Text that is no database is an [`ExportError::Dbc`] with the parser's own
/// diagnosis, never a count of zero.
pub fn roundtrip_counts(dbc_text: &str) -> (r: Result<(usize, usize), ExportError>)
    ensures
        match r {
            Ok((messages, signals)) => counts_of(dbc_contents(dbc_text@)) == Ok::<
                (nat, nat),
                Fault,
            >((messages as nat, signals as nat)),
            Err(e) => counts_of(dbc_contents(dbc_text@)) == Err::<(nat, nat), Fault>(
                e.deep_view(),
            ),
        },
{
    match parse_dbc(dbc_text) {
        Ok(findings) => Ok(frame_counts(&findings)),
        Err(e) => Err(ExportError::Dbc(e)),
    }
}

/// A message under the container's name counts for nothing, and any other counts
/// for one, wherever it stands. The same goes for a signal, by the name of the
/// message that it stands in.
pub proof fn law_the_container_counts_for_nothing(
    before: Seq<Seq<char>>,
    name: Seq<char>,
    after: Seq<Seq<char>>,
)
    ensures
        frames_among(before.push(name) + after) == frames_among(before + after) + (if name
            == INDEPENDENT_SIG_MSG@ {
            0nat
        } else {
            1nat
        }),
{
    let keep = |n: Seq<char>| n != INDEPENDENT_SIG_MSG@;
    Seq::filter_distributes_over_add(before.push(name), after, keep);
    Seq::filter_distributes_over_add(before, after, keep);
    reveal(Seq::filter);
    assert(before.push(name).drop_last() == before);
}

/// What is counted is what the parser found: every message and every signal of a message,
/// but for the container and what it holds. Where it found no database, its diagnosis is
/// passed on and there is no count.
pub proof fn law_the_counts_are_what_the_parser_found(found: Found, diagnosis: Seq<char>)
    ensures
        counts_of(Ok(found)) == Ok::<(nat, nat), Fault>(
            (
                found.messages.filter(
                    |name: Seq<char>| name != "VECTOR__INDEPENDENT_SIG_MSG"@,
                ).len(),
                found.owners.filter(
                    |name: Seq<char>| name != "VECTOR__INDEPENDENT_SIG_MSG"@,
                ).len(),
            ),
        ),
        counts_of(Err(diagnosis)) == Err::<(nat, nat), Fault>(Fault::Dbc(diagnosis)),
        frames_among(Seq::empty()) == 0,
{
    reveal(Seq::filter);
}

/// The view of the findings holds every name as it is.
pub proof fn law_the_view_of_the_findings_is_the_findings(findings: Findings)
    ensures
        findings.deep_view().messages.len() == findings.messages@.len(),
        forall|i: int|
            0 <= i < findings.messages@.len() ==> (#[trigger] findings.deep_view().messages[i])
                == findings.messages@[i]@,
        findings.deep_view().owners.len() == findings.owners@.len(),
        forall|i: int|
            0 <= i < findings.owners@.len() ==> (#[trigger] findings.deep_view().owners[i])
                == findings.owners@[i]@,
{
}

} // verus!
