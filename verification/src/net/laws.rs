//! What requests, responses and retries mean.

use vstd::prelude::*;
use vstd::string::*;
use vstd::utf8::{decode_utf8, encode_utf8, valid_utf8};

use crate::net::line::{first_line, line_end};
use crate::net::message::{
    declared_length, header_step, request_parts, response_status, status_line, word,
    word_len, HeaderState, HeaderStep,
};
use crate::net::retry::wait_before;
use crate::net::url::{address_parts, before_slash, with_path, without_trailing_slashes};
use crate::text::{
    dec, is_space, law_decimal_round_trip, lemma_dec_digits, lower_text, trimmed, trimmed_start,
};

verus! {

/// A word: characters without white space among them.
pub open spec fn is_word(s: Seq<char>) -> bool {
    s.len() > 0 && forall|i: int| 0 <= i < s.len() ==> !is_space(#[trigger] s[i])
}

proof fn lemma_word_len(w: Seq<char>, rest: Seq<char>)
    requires
        forall|i: int| 0 <= i < w.len() ==> !is_space(#[trigger] w[i]),
        rest.len() > 0 ==> is_space(rest[0]),
    ensures
        word_len(w + rest) == w.len(),
    decreases w.len(),
{
    let s = w + rest;
    if w.len() > 0 {
        assert(s[0] == w[0]);
        assert(s.drop_first() =~= w.drop_first() + rest);
        assert forall|i: int| 0 <= i < w.drop_first().len() implies !is_space(
            #[trigger] w.drop_first()[i],
        ) by {
            assert(w.drop_first()[i] == w[i + 1]);
        }
        lemma_word_len(w.drop_first(), rest);
    } else {
        assert(s =~= rest);
    }
}

proof fn lemma_first_two_words(a: Seq<char>, b: Seq<char>, rest: Seq<char>)
    requires
        is_word(a),
        is_word(b),
        rest.len() > 0 ==> is_space(rest[0]),
    ensures
        word(a + seq![' '] + b + rest, 0) == Some(a),
        word(a + seq![' '] + b + rest, 1) == Some(b),
{
    let s = a + seq![' '] + b + rest;
    let tail = seq![' '] + (b + rest);
    reveal_with_fuel(word, 3);
    reveal_with_fuel(trimmed_start, 3);
    assert(s =~= a + tail);
    assert(s[0] == a[0]);
    assert(trimmed_start(s) == s);
    lemma_word_len(a, tail);
    assert(s.take(a.len() as int) =~= a);
    assert(s.skip(a.len() as int) =~= tail);
    assert(tail.drop_first() =~= b + rest);
    assert((b + rest)[0] == b[0]);
    assert(trimmed_start(tail) == b + rest);
    lemma_word_len(b, rest);
    assert((b + rest).take(b.len() as int) =~= b);
}

/// A request line begins with the method and the path, whatever comes behind.
pub proof fn law_request_lines_are_read(method: Seq<char>, path: Seq<char>, rest: Seq<char>)
    requires
        is_word(method),
        is_word(path),
        rest.len() > 0 ==> is_space(rest[0]),
    ensures
        request_parts(method + seq![' '] + path + rest) == (method, path),
{
    lemma_first_two_words(method, path, rest);
}

proof fn lemma_line_end(line: Seq<u8>, rest: Seq<u8>)
    requires
        forall|i: int| 0 <= i < line.len() ==> #[trigger] line[i] != 10,
    ensures
        line_end(line + seq![10u8] + rest) == line.len() + 1,
    decreases line.len(),
{
    let s = line + seq![10u8] + rest;
    if line.len() > 0 {
        let t = line.drop_first();
        assert(s[0] == line[0]);
        assert(s.drop_first() =~= t + seq![10u8] + rest);
        assert forall|i: int| 0 <= i < t.len() implies #[trigger] t[i] != 10 by {
            assert(t[i] == line[i + 1]);
        }
        lemma_line_end(t, rest);
    } else {
        assert(s[0] == 10);
    }
}

/// The status of a response is the number behind the version in its first
/// line, whatever comes behind.
pub proof fn law_status_is_the_second_word(
    version: Seq<char>,
    status: u16,
    reason: Seq<char>,
    line: Seq<u8>,
    rest: Seq<u8>,
)
    requires
        is_word(version),
        reason.len() > 0 ==> is_space(reason[0]),
        valid_utf8(line),
        decode_utf8(line) == version + seq![' '] + dec(status as nat) + reason,
        forall|i: int| 0 <= i < line.len() ==> #[trigger] line[i] != 10,
    ensures
        response_status(line + seq![10u8] + rest) == Some(status as nat),
{
    let all = line + seq![10u8] + rest;
    let n = dec(status as nat);
    lemma_line_end(line, rest);
    assert(all[line.len() as int] == 10);
    assert(status_line(all) =~= line);
    lemma_dec_digits(status as nat);
    assert forall|i: int| 0 <= i < n.len() implies !is_space(#[trigger] n[i]) by {
        assert('0' <= n[i] <= '9');
    }
    lemma_first_two_words(version, n, reason);
    law_decimal_round_trip(status as nat, 65_535);
}

/// Bytes up to a newline are a line, if they are not too many; the newline
/// belongs to it and nothing behind it does.
pub proof fn law_lines_end_at_their_newline(line: Seq<u8>, rest: Seq<u8>, max: nat)
    requires
        forall|i: int| 0 <= i < line.len() ==> #[trigger] line[i] != 10,
    ensures
        ({
            let r = first_line(line + seq![10u8] + rest, max);
            &&& line.len() + 1 > max ==> r.0 is TooLong && r.1 == 0
            &&& line.len() + 1 <= max ==> r.0 is Line && r.1 == line.len() + 1 && r.0
                == first_line(line + seq![10u8], max).0
        }),
{
    lemma_line_end(line, rest);
    lemma_line_end(line, Seq::empty());
    let all = line + seq![10u8] + rest;
    let one = line + seq![10u8];
    assert(one + Seq::<u8>::empty() =~= one);
    assert(all.take(line.len() as int + 1) =~= one);
    assert(one.take(line.len() as int + 1) =~= one);
}

/// A header that declares a length declares the number behind its colon, in
/// whatever case it is written; other headers leave the length as it was. An
/// empty line ends the headers, and more than 32 KiB of them are too many.
pub proof fn law_headers_declare_their_length(
    s: HeaderState,
    line: Seq<char>,
    value: Seq<char>,
    n: u64,
)
    ensures
        lower_text(line) == "content-length:"@ + value && trimmed(value) == dec(n as nat)
            ==> declared_length(line) == Some(n as nat),
        s.bytes + encode_utf8(line).len() > 32_768 ==> header_step(s, line) is TooLarge,
        s.bytes + encode_utf8(line).len() <= 32_768 ==> {
            &&& header_step(s, line) is Complete <==> line == "\r\n"@ || line == "\n"@
            &&& header_step(s, line) matches HeaderStep::More(t) ==> {
                &&& t.bytes == s.bytes + encode_utf8(line).len()
                &&& declared_length(line) is None ==> t.content_length == s.content_length
                &&& declared_length(line) == Some(n as nat) ==> t.content_length == n
            }
        },
{
    let key = "content-length:"@;
    if lower_text(line) == key + value && trimmed(value) == dec(n as nat) {
        let l = lower_text(line);
        assert(l.take(key.len() as int) =~= key);
        assert(l.skip(key.len() as int) =~= value);
        law_decimal_round_trip(n as nat, u64::MAX as nat);
    }
}

/// The waits before the second and the third attempt are 200 and 800
/// milliseconds; each is four times the one before.
pub proof fn law_waits_are_fourfold(n: nat)
    requires
        n >= 1,
    ensures
        wait_before(1) == 200,
        wait_before(2) == 800,
        wait_before(n + 1) == wait_before(n) * 4,
{
    reveal_with_fuel(wait_before, 3);
}

/// An address is taken apart where its path begins.
pub proof fn law_addresses_are_taken_apart(authority: Seq<char>, path: Seq<char>)
    requires
        authority.len() > 0,
        forall|i: int| 0 <= i < authority.len() ==> #[trigger] authority[i] != '/',
        path.len() > 0 ==> path[0] == '/',
    ensures
        ({
            let parts = address_parts(seq!['h', 't', 't', 'p', ':', '/', '/'] + authority + path);
            &&& parts is Some
            &&& (parts->0).0 == authority
            &&& path.len() > 0 ==> (parts->0).1 == path
            &&& path.len() == 0 ==> (parts->0).1 == seq!['/']
        }),
{
    let http = seq!['h', 't', 't', 'p', ':', '/', '/'];
    let url = http + authority + path;
    assert(url.take(7) =~= http);
    assert(url.skip(7) =~= authority + path);
    lemma_before(authority, path);
    let rest = authority + path;
    assert(rest.take(authority.len() as int) =~= authority);
    assert(rest.skip(authority.len() as int) =~= path);
    assert(path.len() == 0 ==> rest =~= authority);
}

proof fn lemma_before(a: Seq<char>, path: Seq<char>)
    requires
        forall|i: int| 0 <= i < a.len() ==> #[trigger] a[i] != '/',
        path.len() > 0 ==> path[0] == '/',
    ensures
        before_slash(a + path) == a.len(),
    decreases a.len(),
{
    let s = a + path;
    if a.len() > 0 {
        let t = a.drop_first();
        assert(s[0] == a[0]);
        assert(s.drop_first() =~= t + path);
        assert forall|i: int| 0 <= i < t.len() implies #[trigger] t[i] != '/' by {
            assert(t[i] == a[i + 1]);
        }
        lemma_before(t, path);
    } else {
        assert(s =~= path);
    }
}

/// A path is added behind the endpoint, without the slashes at its end, unless
/// the endpoint ends in it already.
pub proof fn law_paths_are_added(base: Seq<char>, slashes: nat, path: Seq<char>)
    requires
        base.len() > 0,
        base.last() != '/',
    ensures
        ({
            let endpoint = base + Seq::new(slashes, |i: int| '/');
            let ends = exists|head: Seq<char>| base == #[trigger] (head + path);
            &&& ends ==> with_path(endpoint, path) == base
            &&& !ends ==> with_path(endpoint, path) == base + path
        }),
{
    lemma_slashes(base, slashes);
    let ends = exists|head: Seq<char>| base == #[trigger] (head + path);
    if ends {
        let head = choose|head: Seq<char>| base == #[trigger] (head + path);
        assert(base.skip(base.len() - path.len()) =~= path);
    } else if base.len() >= path.len() && base.skip(base.len() - path.len()) == path {
        let head = base.take(base.len() - path.len());
        assert(base =~= head + path);
    }
}

proof fn lemma_slashes(base: Seq<char>, slashes: nat)
    requires
        base.len() > 0,
        base.last() != '/',
    ensures
        without_trailing_slashes(base + Seq::new(slashes, |i: int| '/')) == base,
    decreases slashes,
{
    let s = base + Seq::new(slashes, |i: int| '/');
    if slashes > 0 {
        assert(s.last() == '/');
        assert(s.drop_last() =~= base + Seq::new((slashes - 1) as nat, |i: int| '/'));
        lemma_slashes(base, (slashes - 1) as nat);
    } else {
        assert(s =~= base);
    }
}

} // verus!
