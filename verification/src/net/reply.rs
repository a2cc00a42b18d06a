//! What a server answers.

use vstd::prelude::*;
use vstd::string::*;

verus! {

/// An answer to a request.
#[derive(Debug, Clone)]
pub struct Reply {
    pub status: u16,
    pub content_type: String,
    pub body: String,
}

/// The content of a [`Reply`].
pub ghost struct ReplyView {
    pub status: u16,
    pub content_type: Seq<char>,
    pub body: Seq<char>,
}

impl View for Reply {
    type V = ReplyView;

    open spec fn view(&self) -> ReplyView {
        ReplyView { status: self.status, content_type: self.content_type@, body: self.body@ }
    }
}

/// An answer in plain text.
pub open spec fn plain_reply(status: u16, body: Seq<char>) -> ReplyView {
    ReplyView { status, content_type: "text/plain"@, body }
}

impl Reply {
    /// An answer in plain text.
    pub fn plain(status: u16, body: &str) -> (r: Self)
        ensures
            r@ == plain_reply(status, body@),
    {
        Reply { status, content_type: "text/plain".to_owned(), body: body.to_owned() }
    }
}

/// The content type of metrics.
pub open spec fn metrics_type() -> Seq<char> {
    "text/plain; version=0.0.4"@
}

} // verus!
