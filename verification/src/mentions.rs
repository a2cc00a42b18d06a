//! Texts that hold other texts.

use vstd::prelude::*;

verus! {

/// Somewhere in `text` stands `part`.
#[verifier::opaque]
pub open spec fn mentions(text: Seq<char>, part: Seq<char>) -> bool {
    exists|a: Seq<char>, b: Seq<char>| text == #[trigger] ((a + part) + b)
}

pub proof fn lemma_mentions(a: Seq<char>, part: Seq<char>, b: Seq<char>)
    ensures
        mentions(a + part + b, part),
{
    reveal(mentions);
}

pub proof fn lemma_mentions_more(text: Seq<char>, part: Seq<char>, more: Seq<char>)
    requires
        mentions(text, part),
    ensures
        mentions(text + more, part),
{
    reveal(mentions);
    let (a, b) = choose|a: Seq<char>, b: Seq<char>| text == #[trigger] ((a + part) + b);
    assert(text + more =~= (a + part) + (b + more));
}

} // verus!
