//! Samples on a page of metrics.

use vstd::prelude::*;
use vstd::string::*;

use crate::mentions::{lemma_mentions, mentions};
use crate::metrics::{with_header, with_labelled, with_metric, MetricKind};
use crate::text::dec;

verus! {

/// The line of a sample without labels, behind another line.
pub open spec fn sample(name: Seq<char>, value: nat) -> Seq<char> {
    "\n"@ + name + " "@ + dec(value) + "\n"@
}

/// The line of a sample with one label.
pub open spec fn labelled(name: Seq<char>, label: Seq<char>, of: Seq<char>, value: nat) -> Seq<char> {
    name + "{"@ + label + "=\""@ + of + "\"} "@ + dec(value) + "\n"@
}

/// `page` goes on from `text`.
#[verifier::opaque]
pub open spec fn goes_on(text: Seq<char>, page: Seq<char>) -> bool {
    exists|more: Seq<char>| page == #[trigger] (text + more)
}

pub proof fn lemma_goes_on(text: Seq<char>, more: Seq<char>)
    ensures
        goes_on(text, text + more),
{
    reveal(goes_on);
}

pub proof fn lemma_goes_on_self(text: Seq<char>)
    ensures
        goes_on(text, text),
{
    lemma_goes_on(text, Seq::empty());
    assert(text + Seq::<char>::empty() =~= text);
}

pub proof fn lemma_goes_on_further(a: Seq<char>, b: Seq<char>, c: Seq<char>)
    requires
        goes_on(a, b),
        goes_on(b, c),
    ensures
        goes_on(a, c),
{
    reveal(goes_on);
    let x = choose|x: Seq<char>| b == #[trigger] (a + x);
    let y = choose|y: Seq<char>| c == #[trigger] (b + y);
    assert(c =~= a + (x + y));
}

/// What stands in a text stands on every page that goes on from it.
pub proof fn lemma_still_mentioned(text: Seq<char>, page: Seq<char>, part: Seq<char>)
    requires
        goes_on(text, page),
        mentions(text, part),
    ensures
        mentions(page, part),
{
    reveal(goes_on);
    let more = choose|more: Seq<char>| page == #[trigger] (text + more);
    crate::mentions::lemma_mentions_more(text, part, more);
}

/// A metric is behind what was written before, with its sample.
pub proof fn lemma_metric(
    before: Seq<char>,
    name: Seq<char>,
    help: Seq<char>,
    kind: MetricKind,
    value: nat,
) -> (page: Seq<char>)
    ensures
        page == with_metric(before, name, help, kind, value),
        goes_on(before, page),
        mentions(page, sample(name, value)),
{
    let head = "# HELP "@ + name + " "@ + help + "\n# TYPE "@ + name + " "@ + kind.text();
    let none = Seq::<char>::empty();
    let page = with_metric(before, name, help, kind, value);
    assert(page =~= before + (head + sample(name, value)));
    lemma_goes_on(before, head + sample(name, value));
    assert(page =~= (before + head) + sample(name, value) + none);
    lemma_mentions(before + head, sample(name, value), none);
    page
}

pub proof fn lemma_header(
    before: Seq<char>,
    name: Seq<char>,
    help: Seq<char>,
    kind: MetricKind,
) -> (page: Seq<char>)
    ensures
        page == with_header(before, name, help, kind),
        goes_on(before, page),
{
    let head = "# HELP "@ + name + " "@ + help + "\n# TYPE "@ + name + " "@ + kind.text() + "\n"@;
    assert(with_header(before, name, help, kind) =~= before + head);
    lemma_goes_on(before, head);
    before + head
}

pub proof fn lemma_labelled(
    before: Seq<char>,
    name: Seq<char>,
    label: Seq<char>,
    of: Seq<char>,
    value: nat,
)
    ensures
        goes_on(before, with_labelled(before, name, label, of, value)),
        mentions(
            with_labelled(before, name, label, of, value),
            labelled(name, label, of, value),
        ),
{
    let line = labelled(name, label, of, value);
    let none = Seq::<char>::empty();
    assert(with_labelled(before, name, label, of, value) =~= before + line);
    lemma_goes_on(before, line);
    assert(before + line =~= before + line + none);
    lemma_mentions(before, line, none);
}

} // verus!
