//! Prometheus text exposition (version 0.0.4) of estimates.
//!
//! Every sample says which algorithm made it, over which window and with
//! which kind of error. The number of series per query is capped: a tool for
//! many keys must not create as many series.

use vstd::prelude::*;
use vstd::string::*;

use crate::estimate::SketchEstimate;
use crate::ir::logical::{humanize_nanos, humanized};
use crate::names::{add_name, sorted_names};
use crate::text::{chars_of, dec, push_decimal, same_text, texts};

verus! {

// ---------------------------------------------------------------------------
// Labels
// ---------------------------------------------------------------------------

/// Characters of a label name.
pub open spec fn is_label_char(c: char) -> bool {
    'a' <= c <= 'z' || 'A' <= c <= 'Z' || '0' <= c <= '9' || c == '_'
}

/// What a character becomes in a label name.
pub open spec fn label_char(c: char) -> char {
    if is_label_char(c) {
        c
    } else {
        '_'
    }
}

/// What a name becomes as a label name.
pub open spec fn label_name(s: Seq<char>) -> Seq<char> {
    let t = s.map_values(|c: char| label_char(c));
    if t.len() > 0 && '0' <= t[0] <= '9' {
        seq!['_'] + t
    } else {
        t
    }
}

/// `src.ip` becomes `src_ip`: what is no letter, digit or underscore becomes
/// an underscore, and a digit does not come first.
pub fn sanitize_label_name(name: &str) -> (r: String)
    ensures
        r@ == label_name(name@),
{
    let chars = chars_of(name);
    let ghost t = name@.map_values(|c: char| label_char(c));
    let mut out = String::new();
    if chars.len() > 0 && chars[0] >= '0' && chars[0] <= '9' {
        out.push('_');
    }
    let ghost head = out@;
    let mut i: usize = 0;
    assert(head + t.take(0) =~= head);
    while i < chars.len()
        invariant
            i <= chars@.len(),
            chars@ == name@,
            t == name@.map_values(|c: char| label_char(c)),
            out@ == head + t.take(i as int),
        decreases chars@.len() - i,
    {
        let c: char = chars[i];
        let l: char = if (c >= 'a' && c <= 'z') || (c >= 'A' && c <= 'Z') || (c >= '0' && c <= '9')
            || c == '_' {
            c
        } else {
            '_'
        };
        out.push(l);
        assert(t.take(i + 1) =~= t.take(i as int).push(l));
        assert(out@ =~= head + t.take(i + 1));
        i += 1;
    }
    assert(t.take(i as int) =~= t);
    assert(out@ =~= label_name(name@));
    out
}

/// What a character becomes in a label value.
pub open spec fn escaped_char(c: char) -> Seq<char> {
    if c == '\\' {
        seq!['\\', '\\']
    } else if c == '"' {
        seq!['\\', '"']
    } else if c == '\n' {
        seq!['\\', 'n']
    } else {
        seq![c]
    }
}

/// A label value with backslashes, double quotes and newlines escaped.
pub open spec fn escaped(s: Seq<char>) -> Seq<char>
    decreases s.len(),
{
    if s.len() == 0 {
        Seq::empty()
    } else {
        escaped(s.drop_last()) + escaped_char(s.last())
    }
}

/// Escape backslashes, double quotes and newlines.
pub fn escape_label_value(v: &str) -> (r: String)
    ensures
        r@ == escaped(v@),
{
    let chars = chars_of(v);
    let mut out = String::new();
    let mut i: usize = 0;
    assert(chars@.take(0) =~= Seq::<char>::empty());
    while i < chars.len()
        invariant
            i <= chars@.len(),
            out@ == escaped(chars@.take(i as int)),
        decreases chars@.len() - i,
    {
        let c: char = chars[i];
        assert(chars@.take(i + 1).drop_last() =~= chars@.take(i as int));
        let ghost before = out@;
        if c == '\\' {
            out.push('\\');
            out.push('\\');
        } else if c == '"' {
            out.push('\\');
            out.push('"');
        } else if c == '\n' {
            out.push('\\');
            out.push('n');
        } else {
            out.push(c);
        }
        assert(out@ =~= before + escaped_char(c));
        i += 1;
    }
    assert(chars@.take(i as int) =~= chars@);
    out
}

/// Reading an escaped value back.
pub open spec fn unescaped(s: Seq<char>) -> Seq<char>
    decreases s.len(),
{
    if s.len() == 0 {
        Seq::empty()
    } else if s[0] == '\\' && s.len() > 1 {
        seq![
            if s[1] == 'n' {
                '\n'
            } else {
                s[1]
            },
        ] + unescaped(s.skip(2))
    } else {
        seq![s[0]] + unescaped(s.drop_first())
    }
}

/// Escaping from the front.
proof fn lemma_escaped_front(s: Seq<char>)
    requires
        s.len() > 0,
    ensures
        escaped(s) == escaped_char(s[0]) + escaped(s.drop_first()),
    decreases s.len(),
{
    if s.len() == 1 {
        assert(s.drop_last() =~= Seq::<char>::empty());
        assert(s.drop_first() =~= Seq::<char>::empty());
        assert(escaped(s) =~= escaped_char(s[0]) + escaped(s.drop_first()));
    } else {
        lemma_escaped_front(s.drop_last());
        assert(s.drop_last().drop_first() =~= s.drop_first().drop_last());
        assert(s.drop_last()[0] == s[0]);
        assert(escaped(s) =~= escaped_char(s[0]) + escaped(s.drop_first()));
    }
}

/// Nothing is lost by escaping: a value is read back as it was.
pub proof fn law_escaped_value_reads_back(s: Seq<char>)
    ensures
        unescaped(escaped(s)) == s,
    decreases s.len(),
{
    if s.len() > 0 {
        lemma_escaped_front(s);
        law_escaped_value_reads_back(s.drop_first());
        let e = escaped(s);
        let c = s[0];
        let rest = escaped(s.drop_first());
        if c == '\\' || c == '"' || c == '\n' {
            assert(e.skip(2) =~= rest);
        } else {
            assert(e.drop_first() =~= rest);
        }
        assert(unescaped(e) =~= s);
    } else {
        assert(unescaped(escaped(s)) =~= s);
    }
}

/// An escaped value never ends its line.
pub proof fn law_escaped_value_has_no_newline(s: Seq<char>)
    ensures
        forall|i: int| 0 <= i < escaped(s).len() ==> escaped(s)[i] != '\n',
    decreases s.len(),
{
    if s.len() > 0 {
        law_escaped_value_has_no_newline(s.drop_last());
        let head = escaped(s.drop_last());
        assert forall|i: int| 0 <= i < escaped(s).len() implies escaped(s)[i] != '\n' by {
            if i < head.len() {
                assert(escaped(s)[i] == head[i]);
            } else {
                assert(escaped(s)[i] == escaped_char(s.last())[i - head.len()]);
            }
        }
    }
}

/// A label name is made of letters, digits and underscores, and begins with no
/// digit.
pub proof fn law_label_names_are_valid(s: Seq<char>)
    ensures
        forall|i: int| 0 <= i < label_name(s).len() ==> is_label_char(#[trigger] label_name(s)[i]),
        label_name(s).len() > 0 ==> !('0' <= label_name(s)[0] <= '9'),
        s.len() > 0 ==> label_name(s).len() > 0,
{
}

// ---------------------------------------------------------------------------
// Which series are exported
// ---------------------------------------------------------------------------

/// How a query is exported.
#[derive(Debug, Clone)]
pub struct QueryExportInfo {
    /// Label that says how the error is to be read.
    pub error_kind: String,
    /// Most series of this query.
    pub max_series: usize,
    /// Size of the window; no label if it is zero.
    pub window_size_nanos: u64,
}

/// The content of a [`QueryExportInfo`].
pub ghost struct ExportInfoView {
    pub error_kind: Seq<char>,
    pub max_series: usize,
    pub window_size_nanos: u64,
}

impl View for QueryExportInfo {
    type V = ExportInfoView;

    open spec fn view(&self) -> ExportInfoView {
        ExportInfoView {
            error_kind: self.error_kind@,
            max_series: self.max_series,
            window_size_nanos: self.window_size_nanos,
        }
    }
}

/// How the query `name` is exported. Of a query without settings the error is
/// unknown and a thousand series are exported.
pub open spec fn info_for(info: Seq<(String, QueryExportInfo)>, name: Seq<char>) -> ExportInfoView
    decreases info.len(),
{
    if info.len() == 0 {
        ExportInfoView { error_kind: "unknown"@, max_series: 1000, window_size_nanos: 0 }
    } else if info[0].0@ == name {
        info[0].1@
    } else {
        info_for(info.drop_first(), name)
    }
}

fn find_info(info: &[(String, QueryExportInfo)], name: &str) -> (r: QueryExportInfo)
    ensures
        r@ == info_for(info@, name@),
{
    let mut i: usize = 0;
    assert(info@.skip(0) =~= info@);
    while i < info.len()
        invariant
            i <= info@.len(),
            info_for(info@.skip(i as int), name@) == info_for(info@, name@),
        decreases info@.len() - i,
    {
        if same_text(info[i].0.as_str(), name) {
            let found = &info[i].1;
            return QueryExportInfo {
                error_kind: found.error_kind.as_str().to_owned(),
                max_series: found.max_series,
                window_size_nanos: found.window_size_nanos,
            };
        }
        assert(info@.skip(i as int).drop_first() =~= info@.skip(i + 1));
        i += 1;
    }
    QueryExportInfo { error_kind: "unknown".to_owned(), max_series: 1000, window_size_nanos: 0 }
}

/// Places of the first `n` estimates that belong to a query.
pub open spec fn places_of(es: Seq<SketchEstimate>, name: Seq<char>, n: nat) -> Seq<int>
    decreases n,
{
    if n == 0 {
        Seq::empty()
    } else if es[n - 1].query_name@ == name {
        places_of(es, name, (n - 1) as nat).push(n - 1)
    } else {
        places_of(es, name, (n - 1) as nat)
    }
}

/// A ranking with one place more: behind all places whose estimate is not
/// smaller.
pub open spec fn with_place(es: Seq<SketchEstimate>, ranking: Seq<int>, place: int) -> Seq<int>
    decreases ranking.len(),
{
    if ranking.len() > 0 && es[ranking.last()].estimate.below(es[place].estimate) {
        with_place(es, ranking.drop_last(), place).push(ranking.last())
    } else {
        ranking.push(place)
    }
}

/// Places ranked by estimate, largest first; equal estimates in their order.
pub open spec fn ranked(es: Seq<SketchEstimate>, places: Seq<int>) -> Seq<int>
    decreases places.len(),
{
    if places.len() == 0 {
        Seq::empty()
    } else {
        with_place(es, ranked(es, places.drop_last()), places.last())
    }
}

/// The places of a query that are exported: the first `max` of its ranking.
pub open spec fn exported(es: Seq<SketchEstimate>, name: Seq<char>, max: nat) -> Seq<int> {
    let all = ranked(es, places_of(es, name, es.len()));
    if all.len() > max {
        all.take(max as int)
    } else {
        all
    }
}

/// How many places of a query are left out.
pub open spec fn left_out(es: Seq<SketchEstimate>, name: Seq<char>, max: nat) -> nat {
    let all = places_of(es, name, es.len());
    if all.len() > max {
        (all.len() - max) as nat
    } else {
        0
    }
}

/// The places of a ranking as numbers.
pub open spec fn as_ints(v: Seq<usize>) -> Seq<int> {
    v.map_values(|x: usize| x as int)
}

fn rank(es: &[SketchEstimate], name: &str) -> (r: Vec<usize>)
    ensures
        as_ints(r@) == ranked(es@, places_of(es@, name@, es@.len())),
        r@.len() == places_of(es@, name@, es@.len()).len(),
        forall|k: int| 0 <= k < r@.len() ==> r@[k] < es@.len(),
{
    let mut ranking: Vec<usize> = Vec::new();
    let mut n: usize = 0;
    assert(as_ints(ranking@) =~= Seq::<int>::empty());
    while n < es.len()
        invariant
            n <= es@.len(),
            as_ints(ranking@) == ranked(es@, places_of(es@, name@, n as nat)),
            ranking@.len() == places_of(es@, name@, n as nat).len(),
            forall|k: int| 0 <= k < ranking@.len() ==> ranking@[k] < n,
        decreases es@.len() - n,
    {
        if same_text(es[n].query_name.as_str(), name) {
            let ghost places = places_of(es@, name@, n as nat);
            insert_place(es, &mut ranking, n);
            assert(places.push(n as int).drop_last() =~= places);
        }
        n += 1;
    }
    ranking
}

pub fn insert_place(es: &[SketchEstimate], ranking: &mut Vec<usize>, place: usize)
    requires
        place < es@.len(),
        forall|k: int| 0 <= k < old(ranking)@.len() ==> old(ranking)@[k] < place,
    ensures
        as_ints(final(ranking)@) == with_place(es@, as_ints(old(ranking)@), place as int),
        final(ranking)@.len() == old(ranking)@.len() + 1,
        forall|k: int| 0 <= k < final(ranking)@.len() ==> final(ranking)@[k] <= place,
{
    let ghost before = ranking@;
    let ghost all = as_ints(ranking@);
    let mut at: usize = ranking.len();
    assert(all.take(at as int) =~= all);
    assert(with_place(es@, all, place as int) =~= with_place(es@, all.take(at as int), place as int)
        + all.skip(at as int));
    while at > 0 && es[ranking[at - 1]].estimate.lt(es[place].estimate)
        invariant
            at <= ranking@.len(),
            ranking@ == before,
            all == as_ints(before),
            place < es@.len(),
            forall|k: int| 0 <= k < before.len() ==> before[k] < place,
            with_place(es@, all, place as int) == with_place(
                es@,
                all.take(at as int),
                place as int,
            ) + all.skip(at as int),
        decreases at,
    {
        proof {
            let t = all.take(at as int);
            assert(t.last() == all[at - 1]);
            assert(t.drop_last() =~= all.take(at - 1));
            assert(with_place(es@, all.take(at - 1), place as int).push(all[at - 1]) + all.skip(
                at as int,
            ) =~= with_place(es@, all.take(at - 1), place as int) + all.skip(at - 1));
        }
        at = at - 1;
    }
    proof {
        let t = all.take(at as int);
        if at > 0 {
            assert(t.last() == all[at - 1]);
        }
        assert(with_place(es@, t, place as int) == t.push(place as int));
    }
    ranking.insert(at, place);
    assert(as_ints(ranking@) =~= all.take(at as int).push(place as int) + all.skip(at as int));
}

// ---------------------------------------------------------------------------
// The text
// ---------------------------------------------------------------------------

/// The labels of a sample.
pub open spec fn labels_of(e: SketchEstimate, qi: ExportInfoView) -> Seq<(Seq<char>, Seq<char>)> {
    let base = seq![
        ("query"@, e.query_name@),
        ("algorithm"@, e.algorithm@),
        ("error_kind"@, qi.error_kind),
    ];
    let windowed = if qi.window_size_nanos > 0 {
        base.push(("window"@, humanized(qi.window_size_nanos as nat)))
    } else {
        base
    };
    windowed + group_labels(e.group@)
}

pub open spec fn group_labels(group: Seq<(String, String)>) -> Seq<(Seq<char>, Seq<char>)> {
    group.map_values(|g: (String, String)| (label_name(g.0@), g.1@))
}

/// Labels in their notation.
pub open spec fn labels_text(labels: Seq<(Seq<char>, Seq<char>)>) -> Seq<char>
    decreases labels.len(),
{
    if labels.len() == 0 {
        Seq::empty()
    } else {
        let before = if labels.len() == 1 {
            Seq::empty()
        } else {
            labels_text(labels.drop_last()) + ","@
        };
        before + labels.last().0 + "=\""@ + escaped(labels.last().1) + "\""@
    }
}

/// The line of a sample, `shown` being its value.
pub open spec fn sample_line(e: SketchEstimate, shown: Seq<char>, qi: ExportInfoView) -> Seq<char> {
    "flowsketch_estimate{"@ + labels_text(labels_of(e, qi)) + "} "@ + shown + "\n"@
}

/// The lines of samples, behind what was written before.
pub open spec fn sample_lines(
    before: Seq<char>,
    es: Seq<SketchEstimate>,
    shown: Seq<String>,
    places: Seq<int>,
    qi: ExportInfoView,
) -> Seq<char>
    decreases places.len(),
{
    if places.len() == 0 {
        before
    } else {
        sample_lines(before, es, shown, places.drop_last(), qi) + sample_line(
            es[places.last()],
            shown[places.last()]@,
            qi,
        )
    }
}

/// The samples of queries, behind what was written before.
pub open spec fn query_lines(
    before: Seq<char>,
    es: Seq<SketchEstimate>,
    shown: Seq<String>,
    info: Seq<(String, QueryExportInfo)>,
    names: Seq<Seq<char>>,
) -> Seq<char>
    decreases names.len(),
{
    if names.len() == 0 {
        before
    } else {
        let qi = info_for(info, names.last());
        sample_lines(
            query_lines(before, es, shown, info, names.drop_last()),
            es,
            shown,
            exported(es, names.last(), qi.max_series as nat),
            qi,
        )
    }
}

/// Which queries had series left out, and how many.
pub open spec fn drops(
    es: Seq<SketchEstimate>,
    info: Seq<(String, QueryExportInfo)>,
    names: Seq<Seq<char>>,
) -> Seq<(Seq<char>, nat)>
    decreases names.len(),
{
    if names.len() == 0 {
        Seq::empty()
    } else {
        let before = drops(es, info, names.drop_last());
        let n = left_out(es, names.last(), info_for(info, names.last()).max_series as nat);
        if n > 0 {
            before.push((names.last(), n))
        } else {
            before
        }
    }
}

/// The lines about series left out, behind what was written before.
pub open spec fn drop_lines(before: Seq<char>, dropped: Seq<(Seq<char>, nat)>) -> Seq<char>
    decreases dropped.len(),
{
    if dropped.len() == 0 {
        before
    } else {
        drop_lines(before, dropped.drop_last())
            + "flowsketch_export_series_dropped_total{query=\""@ + escaped(dropped.last().0)
            + "\"} "@ + dec(dropped.last().1) + "\n"@
    }
}

/// The queries that have estimates, in order.
pub open spec fn queries_of(es: Seq<SketchEstimate>) -> Seq<Seq<char>> {
    sorted_names(es.map_values(|e: SketchEstimate| e.query_name@))
}

/// The exposition of estimates.
pub open spec fn exposition(
    es: Seq<SketchEstimate>,
    shown: Seq<String>,
    info: Seq<(String, QueryExportInfo)>,
) -> Seq<char> {
    let head = "# HELP flowsketch_estimate Approximate query result from a bounded-memory sketch.\n"@
        + "# TYPE flowsketch_estimate gauge\n"@;
    let names = queries_of(es);
    drop_lines(
        query_lines(head, es, shown, info, names)
            + "# HELP flowsketch_export_series_dropped_total Series dropped by the per-query export cap.\n"@
            + "# TYPE flowsketch_export_series_dropped_total counter\n"@,
        drops(es, info, names),
    )
}

/// The content of a list of counts by name.
pub open spec fn counts(v: Seq<(String, usize)>) -> Seq<(Seq<char>, nat)> {
    v.map_values(|p: (String, usize)| (p.0@, p.1 as nat))
}

fn push_label(out: &mut String, first: bool, name: &str, value: &str)
    ensures
        final(out)@ == (if first {
            old(out)@
        } else {
            old(out)@ + ","@
        }) + name@ + "=\""@ + escaped(value@) + "\""@,
{
    if !first {
        out.append(",");
    }
    out.append(name);
    out.append("=\"");
    out.append(escape_label_value(value).as_str());
    out.append("\"");
}

fn show_labels(e: &SketchEstimate, qi: &QueryExportInfo) -> (r: String)
    ensures
        r@ == labels_text(labels_of(*e, qi@)),
{
    let ghost l = labels_of(*e, qi@);
    let mut out = String::new();
    push_label(&mut out, true, "query", e.query_name.as_str());
    proof {
        assert(l.take(1).drop_last() =~= Seq::<(Seq<char>, Seq<char>)>::empty());
        assert(Seq::<char>::empty() + "query"@ =~= "query"@);
        assert(out@ == labels_text(l.take(1)));
    }
    push_label(&mut out, false, "algorithm", e.algorithm.as_str());
    assert(l.take(2).drop_last() =~= l.take(1));
    assert(out@ == labels_text(l.take(2)));
    push_label(&mut out, false, "error_kind", qi.error_kind.as_str());
    assert(l.take(3).drop_last() =~= l.take(2));
    assert(out@ == labels_text(l.take(3)));
    let ghost mut n: int = 3;
    if qi.window_size_nanos > 0 {
        push_label(&mut out, false, "window", humanize_nanos(qi.window_size_nanos).as_str());
        assert(l.take(4).drop_last() =~= l.take(3));
        assert(out@ == labels_text(l.take(4)));
        proof {
            n = 4;
        }
    }
    let mut i: usize = 0;
    while i < e.group.len()
        invariant
            i <= e.group@.len(),
            3 <= n,
            l == labels_of(*e, qi@),
            l.len() == n + e.group@.len(),
            forall|k: int|
                0 <= k < e.group@.len() ==> #[trigger] l[n + k] == (
                    label_name(e.group@[k].0@),
                    e.group@[k].1@,
                ),
            out@ == labels_text(l.take(n + i)),
        decreases e.group@.len() - i,
    {
        let label = sanitize_label_name(e.group[i].0.as_str());
        push_label(&mut out, false, label.as_str(), e.group[i].1.as_str());
        proof {
            assert(l.take(n + i + 1).drop_last() =~= l.take(n + i));
            assert(l[n + i] == (label_name(e.group@[i as int].0@), e.group@[i as int].1@));
        }
        i += 1;
    }
    assert(l.take(n + i) =~= l);
    out
}

fn show_sample(e: &SketchEstimate, shown: &str, qi: &QueryExportInfo) -> (r: String)
    ensures
        r@ == sample_line(*e, shown@, qi@),
{
    let mut out = "flowsketch_estimate{".to_owned();
    out.append(show_labels(e, qi).as_str());
    out.append("} ");
    out.append(shown);
    out.append("\n");
    out
}

/// Render estimates as Prometheus text. `shown` holds the value of each
/// estimate as text. Within a query the largest estimates come first and win
/// the series budget. Also returns how many series of each query were left
/// out.
pub fn render(
    estimates: &[SketchEstimate],
    shown: &[String],
    info: &[(String, QueryExportInfo)],
) -> (r: (String, Vec<(String, usize)>))
    requires
        estimates@.len() == shown@.len(),
    ensures
        r.0@ == exposition(estimates@, shown@, info@),
        counts(r.1@) == drops(estimates@, info@, queries_of(estimates@)),
{
    let ghost es = estimates@;
    let ghost all_names = es.map_values(|e: SketchEstimate| e.query_name@);
    let mut names: Vec<String> = Vec::new();
    let mut n: usize = 0;
    assert(texts(names@) =~= sorted_names(all_names.take(0)));
    while n < estimates.len()
        invariant
            n <= estimates@.len(),
            es == estimates@,
            all_names == es.map_values(|e: SketchEstimate| e.query_name@),
            texts(names@) == sorted_names(all_names.take(n as int)),
        decreases estimates@.len() - n,
    {
        assert(all_names.take(n + 1).drop_last() =~= all_names.take(n as int));
        add_name(&mut names, estimates[n].query_name.as_str());
        n += 1;
    }
    assert(all_names.take(n as int) =~= all_names);
    let ghost sorted = queries_of(es);
    let mut out =
        "# HELP flowsketch_estimate Approximate query result from a bounded-memory sketch.\n".to_owned();
    out.append("# TYPE flowsketch_estimate gauge\n");
    let ghost head = out@;
    let mut dropped: Vec<(String, usize)> = Vec::new();
    let mut q: usize = 0;
    assert(sorted.take(0) =~= Seq::<Seq<char>>::empty());
    assert(counts(dropped@) =~= drops(es, info@, sorted.take(0)));
    while q < names.len()
        invariant
            q <= names@.len(),
            es == estimates@,
            es.len() == shown@.len(),
            sorted == texts(names@),
            out@ == query_lines(head, es, shown@, info@, sorted.take(q as int)),
            counts(dropped@) == drops(es, info@, sorted.take(q as int)),
        decreases names@.len() - q,
    {
        let name = names[q].as_str();
        let ghost before = out@;
        assert(sorted.take(q + 1).drop_last() =~= sorted.take(q as int));
        assert(sorted.take(q + 1).last() == name@);
        let qi = find_info(info, name);
        let ranking = rank(estimates, name);
        let ghost all = as_ints(ranking@);
        let ghost chosen = exported(es, name@, qi.max_series as nat);
        let mut keep: usize = ranking.len();
        if keep > qi.max_series {
            let ghost counted = counts(dropped@);
            dropped.push((name.to_owned(), keep - qi.max_series));
            assert(counts(dropped@) =~= counted.push(
                (name@, (ranking@.len() - qi.max_series) as nat),
            ));
            keep = qi.max_series;
        }
        assert(all.take(keep as int) =~= chosen);
        let mut k: usize = 0;
        assert(chosen.take(0) =~= Seq::<int>::empty());
        while k < keep
            invariant
                k <= keep <= ranking@.len(),
                es == estimates@,
                es.len() == shown@.len(),
                all == as_ints(ranking@),
                chosen == all.take(keep as int),
                forall|j: int| 0 <= j < ranking@.len() ==> ranking@[j] < es.len(),
                out@ == sample_lines(before, es, shown@, chosen.take(k as int), qi@),
            decreases keep - k,
        {
            let place: usize = ranking[k];
            let line = show_sample(&estimates[place], shown[place].as_str(), &qi);
            out.append(line.as_str());
            assert(chosen.take(k + 1).drop_last() =~= chosen.take(k as int));
            assert(chosen.take(k + 1).last() == place as int);
            k += 1;
        }
        assert(chosen.take(k as int) =~= chosen);
        q += 1;
    }
    assert(sorted.take(q as int) =~= sorted);
    out.append(
        "# HELP flowsketch_export_series_dropped_total Series dropped by the per-query export cap.\n",
    );
    out.append("# TYPE flowsketch_export_series_dropped_total counter\n");
    let ghost before = out@;
    let ghost counted = counts(dropped@);
    let mut d: usize = 0;
    assert(counted.take(0) =~= Seq::<(Seq<char>, nat)>::empty());
    while d < dropped.len()
        invariant
            d <= dropped@.len(),
            counted == counts(dropped@),
            out@ == drop_lines(before, counted.take(d as int)),
        decreases dropped@.len() - d,
    {
        assert(counted.take(d + 1).drop_last() =~= counted.take(d as int));
        out.append("flowsketch_export_series_dropped_total{query=\"");
        out.append(escape_label_value(dropped[d].0.as_str()).as_str());
        out.append("\"} ");
        push_decimal(&mut out, dropped[d].1 as u64);
        out.append("\n");
        d += 1;
    }
    assert(counted.take(d as int) =~= counted);
    (out, dropped)
}

// ---------------------------------------------------------------------------
// Laws
// ---------------------------------------------------------------------------

/// Every estimate is a number.
pub open spec fn all_numbers(es: Seq<SketchEstimate>) -> bool {
    forall|i: int| 0 <= i < es.len() ==> !(#[trigger] es[i]).estimate.is_nan()
}

/// No place of the ranking has a larger estimate behind it.
pub open spec fn is_ranked(es: Seq<SketchEstimate>, ranking: Seq<int>) -> bool {
    &&& forall|i: int| 0 <= i < ranking.len() ==> 0 <= #[trigger] ranking[i] < es.len()
    &&& forall|i: int, j: int|
        0 <= i < j < ranking.len() ==> !es[#[trigger] ranking[i]].estimate.below(
            es[#[trigger] ranking[j]].estimate,
        )
}

proof fn lemma_with_place(es: Seq<SketchEstimate>, ranking: Seq<int>, place: int)
    requires
        all_numbers(es),
        is_ranked(es, ranking),
        0 <= place < es.len(),
    ensures
        is_ranked(es, with_place(es, ranking, place)),
        with_place(es, ranking, place).to_multiset() == ranking.to_multiset().insert(place),
        with_place(es, ranking, place).len() == ranking.len() + 1,
    decreases ranking.len(),
{
    broadcast use vstd::seq_lib::group_to_multiset_ensures;

    let r = with_place(es, ranking, place);
    assert(!es[place].estimate.is_nan());
    if ranking.len() > 0 && es[ranking.last()].estimate.below(es[place].estimate) {
        let head = ranking.drop_last();
        lemma_with_place(es, head, place);
        let h = with_place(es, head, place);
        assert(ranking =~= head.push(ranking.last()));
        assert(r.to_multiset() =~= ranking.to_multiset().insert(place));
        assert forall|i: int| 0 <= i < r.len() implies 0 <= #[trigger] r[i] < es.len() by {
            if i < h.len() {
                assert(r[i] == h[i]);
            } else {
                assert(r[i] == ranking[ranking.len() - 1]);
            }
        }
        assert forall|i: int, j: int| 0 <= i < j < r.len() implies !es[#[trigger] r[i]].estimate.below(
            es[#[trigger] r[j]].estimate,
        ) by {
            assert(r[i] == h[i]);
            if j < h.len() {
                assert(r[j] == h[j]);
            } else {
                assert(h.to_multiset().count(h[i]) > 0) by {
                    assert(h.contains(h[i]));
                }
                let last = ranking[ranking.len() - 1];
                assert(r[j] == last);
                if h[i] != place {
                    assert(head.to_multiset().count(h[i]) > 0);
                    assert(head.contains(h[i]));
                    let k = choose|k: int| 0 <= k < head.len() && head[k] == h[i];
                    assert(ranking[k] == h[i]);
                }
            }
        }
    } else {
        assert(r =~= ranking.push(place));
        assert forall|i: int, j: int| 0 <= i < j < r.len() implies !es[#[trigger] r[i]].estimate.below(
            es[#[trigger] r[j]].estimate,
        ) by {
            assert(r[i] == ranking[i]);
            if j < ranking.len() {
                assert(r[j] == ranking[j]);
            } else {
                let last = ranking[ranking.len() - 1];
                assert(!es[last].estimate.is_nan());
                assert(!es[ranking[i]].estimate.is_nan());
                if i < ranking.len() - 1 {
                    assert(!es[ranking[i]].estimate.below(es[last].estimate));
                }
            }
        }
        assert forall|i: int| 0 <= i < r.len() implies 0 <= #[trigger] r[i] < es.len() by {
            if i < ranking.len() {
                assert(r[i] == ranking[i]);
            }
        }
    }
}

proof fn lemma_places(es: Seq<SketchEstimate>, name: Seq<char>, n: nat)
    requires
        n <= es.len(),
    ensures
        forall|i: int|
            0 <= i < places_of(es, name, n).len() ==> 0 <= #[trigger] places_of(es, name, n)[i] < n,
    decreases n,
{
    if n > 0 {
        lemma_places(es, name, (n - 1) as nat);
        let before = places_of(es, name, (n - 1) as nat);
        let all = places_of(es, name, n);
        assert forall|i: int| 0 <= i < all.len() implies 0 <= #[trigger] all[i] < n by {
            if i < before.len() {
                assert(all[i] == before[i]);
            }
        }
    }
}

pub proof fn lemma_ranked(es: Seq<SketchEstimate>, places: Seq<int>)
    requires
        all_numbers(es),
        forall|i: int| 0 <= i < places.len() ==> 0 <= #[trigger] places[i] < es.len(),
    ensures
        is_ranked(es, ranked(es, places)),
        ranked(es, places).to_multiset() == places.to_multiset(),
        ranked(es, places).len() == places.len(),
    decreases places.len(),
{
    broadcast use vstd::seq_lib::group_to_multiset_ensures;

    if places.len() > 0 {
        let head = places.drop_last();
        assert forall|i: int| 0 <= i < head.len() implies 0 <= #[trigger] head[i] < es.len() by {
            assert(head[i] == places[i]);
        }
        lemma_ranked(es, head);
        assert(places[places.len() - 1] == places.last());
        lemma_with_place(es, ranked(es, head), places.last());
        assert(places =~= head.push(places.last()));
    } else {
        assert(ranked(es, places) =~= places);
    }
}

/// The cap holds and spends itself on the largest estimates: no more than
/// `max` series of a query are exported, the others are counted as left out,
/// and no estimate that is left out is larger than one that is exported.
pub proof fn law_cap_keeps_the_largest(es: Seq<SketchEstimate>, name: Seq<char>, max: nat)
    requires
        all_numbers(es),
    ensures
        ({
            let all = places_of(es, name, es.len());
            let ranking = ranked(es, all);
            let out = exported(es, name, max);
            &&& out.len() <= max
            &&& out.len() + left_out(es, name, max) == all.len()
            &&& ranking.to_multiset() == all.to_multiset()
            &&& out == ranking.take(out.len() as int)
            &&& forall|i: int, j: int|
                0 <= i < out.len() && out.len() <= j < ranking.len() ==> !es[#[trigger] ranking[i]].estimate.below(
                    es[#[trigger] ranking[j]].estimate,
                )
        }),
{
    let all = places_of(es, name, es.len());
    lemma_places(es, name, es.len());
    lemma_ranked(es, all);
    let ranking = ranked(es, all);
    assert(ranking.take(ranking.len() as int) =~= ranking);
}

} // verus!
