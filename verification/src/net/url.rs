//! Endpoints and their parts.

use vstd::prelude::*;
use vstd::slice::slice_subrange;
use vstd::string::*;

use crate::text::{chars_of, text_of};

verus! {

/// A text without slashes at its end.
pub open spec fn without_trailing_slashes(s: Seq<char>) -> Seq<char>
    decreases s.len(),
{
    if s.len() > 0 && s.last() == '/' {
        without_trailing_slashes(s.drop_last())
    } else {
        s
    }
}

/// Whether a text ends with another.
pub open spec fn ends_with(s: Seq<char>, end: Seq<char>) -> bool {
    s.len() >= end.len() && s.skip(s.len() - end.len()) == end
}

/// An endpoint with a path at its end: the path is added unless it is there.
pub open spec fn with_path(endpoint: Seq<char>, path: Seq<char>) -> Seq<char> {
    let base = without_trailing_slashes(endpoint);
    if ends_with(base, path) {
        base
    } else {
        base + path
    }
}

/// The endpoint with the path at its end.
pub fn append_path(endpoint: &str, path: &str) -> (r: String)
    ensures
        r@ == with_path(endpoint@, path@),
{
    let chars = chars_of(endpoint);
    let mut end: usize = chars.len();
    assert(chars@.take(end as int) =~= chars@);
    while end > 0 && chars[end - 1] == '/'
        invariant
            end <= chars@.len(),
            without_trailing_slashes(chars@.take(end as int)) == without_trailing_slashes(chars@),
        decreases end,
    {
        assert(chars@.take(end as int).drop_last() =~= chars@.take(end - 1));
        end = end - 1;
    }
    let ghost base = chars@.take(end as int);
    assert(base == without_trailing_slashes(endpoint@));
    let wanted = chars_of(path);
    let mut out = text_of(slice_subrange(chars.as_slice(), 0, end));
    assert(out@ =~= base);
    if end >= wanted.len() {
        let mut i: usize = 0;
        let from: usize = end - wanted.len();
        let ghost tail = base.skip(from as int);
        while i < wanted.len()
            invariant
                i <= wanted@.len(),
                end <= chars@.len(),
                from == end - wanted@.len(),
                base == chars@.take(end as int),
                tail == base.skip(from as int),
                wanted@ == path@,
                out@ == base,
                base == without_trailing_slashes(endpoint@),
                forall|j: int| 0 <= j < i ==> tail[j] == wanted@[j],
            decreases wanted@.len() - i,
        {
            if chars[from + i] != wanted[i] {
                assert(tail[i as int] != path@[i as int]);
                out.append(path);
                return out;
            }
            i += 1;
        }
        assert(tail =~= path@);
        return out;
    }
    out.append(path);
    out
}

/// The prefix of every address that can be spoken to.
pub open spec fn scheme() -> Seq<char> {
    seq!['h', 't', 't', 'p', ':', '/', '/']
}

/// How many of the first characters are no slash.
pub open spec fn before_slash(s: Seq<char>) -> nat
    decreases s.len(),
{
    if s.len() == 0 || s[0] == '/' {
        0
    } else {
        1 + before_slash(s.drop_first())
    }
}

/// `http://authority/path` as authority and path. The path is `/` if there is
/// none; without the scheme or without an authority it is no address.
pub open spec fn address_parts(url: Seq<char>) -> Option<(Seq<char>, Seq<char>)> {
    if url.len() < 7 || url.take(7) != scheme() {
        None
    } else {
        let rest = url.skip(7);
        let n = before_slash(rest) as int;
        if n == 0 {
            None
        } else if n == rest.len() {
            Some((rest, seq!['/']))
        } else {
            Some((rest.take(n), rest.skip(n)))
        }
    }
}

/// Split an address into authority and path.
pub fn parse_url(url: &str) -> (r: Option<(String, String)>)
    ensures
        match address_parts(url@) {
            Some((authority, path)) => r is Some && (r->0).0@ == authority && (r->0).1@ == path,
            None => r is None,
        },
{
    let chars = chars_of(url);
    let wanted: [char; 7] = ['h', 't', 't', 'p', ':', '/', '/'];
    assert(wanted@ =~= scheme());
    if chars.len() < 7 {
        return None;
    }
    let mut i: usize = 0;
    while i < 7
        invariant
            i <= 7 <= chars@.len(),
            chars@ == url@,
            wanted@ == scheme(),
            forall|j: int| 0 <= j < i ==> chars@[j] == wanted@[j],
        decreases 7 - i,
    {
        if chars[i] != wanted[i] {
            assert(url@.take(7)[i as int] != scheme()[i as int]);
            return None;
        }
        i += 1;
    }
    assert(url@.take(7) =~= scheme());
    let ghost rest = url@.skip(7);
    let mut end: usize = 7;
    assert(rest.skip(0) =~= rest);
    while end < chars.len() && chars[end] != '/'
        invariant
            7 <= end <= chars@.len(),
            chars@ == url@,
            rest == url@.skip(7),
            (end - 7) + before_slash(rest.skip(end - 7)) == before_slash(rest),
        decreases chars@.len() - end,
    {
        assert(rest.skip(end - 7).drop_first() =~= rest.skip(end - 6));
        end = end + 1;
    }
    assert(before_slash(rest) == end - 7);
    if end == 7 {
        return None;
    }
    let authority = text_of(slice_subrange(chars.as_slice(), 7, end));
    assert(authority@ =~= rest.take(end - 7));
    if end == chars.len() {
        assert(rest.take(end - 7) =~= rest);
        let slash: [char; 1] = ['/'];
        assert(slash@ =~= seq!['/']);
        return Some((authority, text_of(slash.as_slice())));
    }
    let path = text_of(slice_subrange(chars.as_slice(), end, chars.len()));
    assert(path@ =~= rest.skip(end - 7));
    Some((authority, path))
}

/// A path is added once: adding it again changes nothing.
pub proof fn law_path_is_added_once(endpoint: Seq<char>, path: Seq<char>)
    requires
        path.len() > 0,
        path.last() != '/',
    ensures
        with_path(with_path(endpoint, path), path) == with_path(endpoint, path),
{
    let u = with_path(endpoint, path);
    lemma_base(endpoint);
    let base = without_trailing_slashes(endpoint);
    if ends_with(base, path) {
        assert(base.skip(base.len() - path.len()).last() == base.last());
    } else {
        assert(u.skip(u.len() - path.len()) =~= path);
        assert(u.last() == path.last());
    }
    assert(without_trailing_slashes(u) == u);
}

proof fn lemma_base(s: Seq<char>)
    ensures
        without_trailing_slashes(s).len() == 0 || without_trailing_slashes(s).last() != '/',
    decreases s.len(),
{
    if s.len() > 0 && s.last() == '/' {
        lemma_base(s.drop_last());
    }
}

/// An address is its scheme, its authority and its path.
pub proof fn law_address_is_its_parts(url: Seq<char>)
    requires
        address_parts(url) is Some,
    ensures
        ({
            let (authority, path) = address_parts(url)->0;
            &&& authority.len() > 0
            &&& forall|i: int| 0 <= i < authority.len() ==> authority[i] != '/'
            &&& path.len() > 0 && path[0] == '/'
            &&& url == scheme() + authority + path || url + seq!['/'] == scheme() + authority + path
        }),
{
    let rest = url.skip(7);
    let n = before_slash(rest) as int;
    lemma_before_slash(rest);
    let (authority, path) = address_parts(url)->0;
    if n == rest.len() {
        assert(url + seq!['/'] =~= scheme() + authority + path) by {
            assert(url =~= url.take(7) + rest);
        }
    } else {
        assert(url =~= scheme() + authority + path) by {
            assert(url =~= url.take(7) + rest);
            assert(rest =~= rest.take(n) + rest.skip(n));
        }
    }
}

proof fn lemma_before_slash(s: Seq<char>)
    ensures
        before_slash(s) <= s.len(),
        forall|i: int| 0 <= i < before_slash(s) ==> s[i] != '/',
        before_slash(s) < s.len() ==> s[before_slash(s) as int] == '/',
    decreases s.len(),
{
    if s.len() > 0 && s[0] != '/' {
        lemma_before_slash(s.drop_first());
        assert forall|i: int| 0 <= i < before_slash(s) implies s[i] != '/' by {
            if i > 0 {
                assert(s.drop_first()[i - 1] == s[i]);
            }
        }
        if before_slash(s) < s.len() {
            assert(s.drop_first()[before_slash(s) - 1] == s[before_slash(s) as int]);
        }
    }
}

} // verus!
