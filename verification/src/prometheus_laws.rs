//! What the exposition of estimates holds: every estimate that the cap leaves
//! in, with its own value and its own labels.

use vstd::prelude::*;
use vstd::string::*;

use crate::estimate::SketchEstimate;
use crate::ir::logical::humanized;
use crate::mentions::{lemma_mentions, lemma_mentions_more, mentions};
use crate::names::law_sorted_names;
use crate::prometheus::{
    all_numbers, drop_lines, drops, escaped, exported, exposition, group_labels, info_for,
    labels_of, labels_text, label_name, law_cap_keeps_the_largest, left_out, places_of, queries_of,
    query_lines, ranked, sample_line, sample_lines, ExportInfoView, QueryExportInfo,
};
use crate::text::dec;

verus! {

/// The places of a query are those of its estimates, each once, in their
/// order.
pub proof fn law_places_are_those_of_the_query(es: Seq<SketchEstimate>, name: Seq<char>, n: nat)
    requires
        n <= es.len(),
    ensures
        ({
            let places = places_of(es, name, n);
            &&& forall|i: int| #[trigger]
                places.contains(i) <==> 0 <= i < n && es[i].query_name@ == name
            &&& forall|a: int, b: int| 0 <= a < b < places.len() ==> places[a] < places[b]
            &&& places.len() <= n
        }),
    decreases n,
{
    if n > 0 {
        let before = places_of(es, name, (n - 1) as nat);
        law_places_are_those_of_the_query(es, name, (n - 1) as nat);
        let all = places_of(es, name, n);
        if es[n - 1].query_name@ == name {
            assert(all[all.len() - 1] == n - 1);
            assert forall|i: int| #[trigger] all.contains(i) <==> 0 <= i < n && es[i].query_name@
                == name by {
                if all.contains(i) {
                    let k = choose|k: int| 0 <= k < all.len() && all[k] == i;
                    if k < before.len() {
                        assert(before[k] == i);
                        assert(before.contains(i));
                    }
                }
                if before.contains(i) {
                    let k = choose|k: int| 0 <= k < before.len() && before[k] == i;
                    assert(all[k] == i);
                }
            }
            assert forall|a: int, b: int| 0 <= a < b < all.len() implies all[a] < all[b] by {
                assert(before.contains(before[a]));
            }
        }
    }
}

/// As long as a query has no more estimates than series are allowed, each of
/// them is exported; else exactly as many as are allowed. Only estimates of
/// the query are.
pub proof fn law_only_the_cap_leaves_out(es: Seq<SketchEstimate>, name: Seq<char>, max: nat)
    requires
        all_numbers(es),
    ensures
        ({
            let all = places_of(es, name, es.len());
            let out = exported(es, name, max);
            &&& all.len() <= max ==> out.len() == all.len()
            &&& all.len() > max ==> out.len() == max && left_out(es, name, max) == all.len() - max
            &&& all.len() <= max ==> forall|i: int|
                0 <= i < es.len() && (#[trigger] es[i]).query_name@ == name ==> out.contains(i)
            &&& forall|k: int|
                0 <= k < out.len() ==> 0 <= #[trigger] out[k] < es.len() && es[out[k]].query_name@
                    == name
            &&& forall|i: int, k: int|
                #![trigger es[i], out[k]]
                0 <= i < es.len() && es[i].query_name@ == name && !out.contains(i) && 0 <= k
                    < out.len() ==> !es[out[k]].estimate.below(es[i].estimate)
        }),
{
    broadcast use vstd::seq_lib::group_to_multiset_ensures;

    let all = places_of(es, name, es.len());
    let ranking = ranked(es, all);
    let out = exported(es, name, max);
    law_places_are_those_of_the_query(es, name, es.len());
    law_cap_keeps_the_largest(es, name, max);
    assert(ranking.len() == ranking.to_multiset().len());
    assert(all.len() == all.to_multiset().len());
    assert forall|i: int| #[trigger] ranking.contains(i) <==> all.contains(i) by {
        assert(ranking.contains(i) <==> ranking.to_multiset().count(i) > 0);
        assert(all.contains(i) <==> all.to_multiset().count(i) > 0);
    }
    assert forall|k: int| 0 <= k < out.len() implies 0 <= #[trigger] out[k] < es.len()
        && es[out[k]].query_name@ == name by {
        assert(ranking[k] == out[k]);
        assert(ranking.contains(out[k]));
        assert(all.contains(out[k]));
    }
    if all.len() <= max {
        assert forall|i: int|
            0 <= i < es.len() && (#[trigger] es[i]).query_name@ == name implies out.contains(i) by {
            assert(all.contains(i));
            assert(ranking.contains(i));
        }
    }
    assert forall|i: int, k: int|
        #![trigger es[i], out[k]]
        0 <= i < es.len() && es[i].query_name@ == name && !out.contains(i) && 0 <= k
            < out.len() implies !es[out[k]].estimate.below(es[i].estimate) by {
        assert(all.contains(i));
        assert(ranking.contains(i));
        let j = choose|j: int| 0 <= j < ranking.len() && ranking[j] == i;
        if j < out.len() {
            assert(out[j] == i);
            assert(out.contains(i));
        }
        assert(ranking[k] == out[k]);
        assert(!es[ranking[k]].estimate.below(es[ranking[j]].estimate));
    }
}

/// A query is exported by its own settings, the first of them if there are
/// several; without settings its error is unknown and a thousand series are
/// exported.
pub proof fn law_settings_are_those_of_the_query(
    info: Seq<(String, QueryExportInfo)>,
    name: Seq<char>,
)
    ensures
        (exists|i: int| 0 <= i < info.len() && (#[trigger] info[i]).0@ == name) ==> exists|i: int|
            {
                &&& 0 <= i < info.len()
                &&& (#[trigger] info[i]).0@ == name
                &&& forall|j: int| 0 <= j < i ==> (#[trigger] info[j]).0@ != name
                &&& info_for(info, name).error_kind == info[i].1.error_kind@
                &&& info_for(info, name).max_series == info[i].1.max_series
                &&& info_for(info, name).window_size_nanos == info[i].1.window_size_nanos
            },
        (forall|i: int| 0 <= i < info.len() ==> (#[trigger] info[i]).0@ != name) ==> {
            &&& info_for(info, name).error_kind == "unknown"@
            &&& info_for(info, name).max_series == 1000
            &&& info_for(info, name).window_size_nanos == 0
        },
    decreases info.len(),
{
    if info.len() > 0 {
        let rest = info.drop_first();
        if info[0].0@ == name {
            assert(info_for(info, name) == info[0].1@);
        } else {
            law_settings_are_those_of_the_query(rest, name);
            if exists|i: int| 0 <= i < info.len() && (#[trigger] info[i]).0@ == name {
                let w = choose|i: int| 0 <= i < info.len() && (#[trigger] info[i]).0@ == name;
                assert(rest[w - 1].0@ == name);
                let i = choose|i: int|
                    {
                        &&& 0 <= i < rest.len()
                        &&& (#[trigger] rest[i]).0@ == name
                        &&& forall|j: int| 0 <= j < i ==> (#[trigger] rest[j]).0@ != name
                        &&& info_for(rest, name).error_kind == rest[i].1.error_kind@
                        &&& info_for(rest, name).max_series == rest[i].1.max_series
                        &&& info_for(rest, name).window_size_nanos == rest[i].1.window_size_nanos
                    };
                assert(info[i + 1] == rest[i]);
                assert forall|j: int| 0 <= j < i + 1 implies (#[trigger] info[j]).0@ != name by {
                    if j > 0 {
                        assert(rest[j - 1] == info[j]);
                    }
                }
            } else {
                assert forall|i: int| 0 <= i < rest.len() implies (#[trigger] rest[i]).0@ != name by {
                    assert(rest[i] == info[i + 1]);
                }
            }
        }
    }
}

/// One label in its notation.
pub open spec fn label(name: Seq<char>, value: Seq<char>) -> Seq<char> {
    name + "=\""@ + escaped(value) + "\""@
}

proof fn lemma_label_shown(labels: Seq<(Seq<char>, Seq<char>)>, i: int)
    requires
        0 <= i < labels.len(),
    ensures
        mentions(labels_text(labels), label(labels[i].0, labels[i].1)),
    decreases labels.len(),
{
    let before = if labels.len() == 1 {
        Seq::empty()
    } else {
        labels_text(labels.drop_last()) + ","@
    };
    let last = label(labels.last().0, labels.last().1);
    let none = Seq::<char>::empty();
    assert(labels_text(labels) =~= before + last + none);
    if i == labels.len() - 1 {
        lemma_mentions(before, last, none);
    } else {
        lemma_label_shown(labels.drop_last(), i);
        let part = label(labels[i].0, labels[i].1);
        lemma_mentions_more(labels_text(labels.drop_last()), part, ","@);
        lemma_mentions_more(before, part, last);
        lemma_mentions_more(before + last, part, none);
    }
}

proof fn lemma_in_line(e: SketchEstimate, shown: Seq<char>, qi: ExportInfoView, part: Seq<char>)
    requires
        mentions(labels_text(labels_of(e, qi)), part),
    ensures
        mentions(sample_line(e, shown, qi), part),
{
    let head = "flowsketch_estimate{"@;
    let text = labels_text(labels_of(e, qi));
    reveal(mentions);
    let (a, b) = choose|a: Seq<char>, b: Seq<char>| text == #[trigger] ((a + part) + b);
    assert(sample_line(e, shown, qi) =~= ((head + a) + part) + (b + "} "@ + shown + "\n"@));
}

/// A sample names its query, its algorithm, how its error is to be read, its
/// window if there is one and every member of its group, and ends in its value
/// and a newline.
pub proof fn law_samples_tell_their_estimate(
    e: SketchEstimate,
    shown: Seq<char>,
    qi: ExportInfoView,
)
    ensures
        mentions(sample_line(e, shown, qi), label("query"@, e.query_name@)),
        mentions(sample_line(e, shown, qi), label("algorithm"@, e.algorithm@)),
        mentions(sample_line(e, shown, qi), label("error_kind"@, qi.error_kind)),
        qi.window_size_nanos > 0 ==> mentions(
            sample_line(e, shown, qi),
            label("window"@, humanized(qi.window_size_nanos as nat)),
        ),
        forall|g: int|
            0 <= g < e.group@.len() ==> mentions(
                sample_line(e, shown, qi),
                label(label_name((#[trigger] e.group@[g]).0@), e.group@[g].1@),
            ),
        labels_of(e, qi).len() == e.group@.len() + if qi.window_size_nanos > 0 {
            4int
        } else {
            3int
        },
        exists|head: Seq<char>| sample_line(e, shown, qi) == #[trigger] (head + ("} "@ + shown + "\n"@)),
{
    let labels = labels_of(e, qi);
    let fixed: int = if qi.window_size_nanos > 0 {
        4
    } else {
        3
    };
    assert(labels[0] == ("query"@, e.query_name@));
    assert(labels[1] == ("algorithm"@, e.algorithm@));
    assert(labels[2] == ("error_kind"@, qi.error_kind));
    lemma_label_shown(labels, 0);
    lemma_label_shown(labels, 1);
    lemma_label_shown(labels, 2);
    lemma_in_line(e, shown, qi, label("query"@, e.query_name@));
    lemma_in_line(e, shown, qi, label("algorithm"@, e.algorithm@));
    lemma_in_line(e, shown, qi, label("error_kind"@, qi.error_kind));
    if qi.window_size_nanos > 0 {
        assert(labels[3] == ("window"@, humanized(qi.window_size_nanos as nat)));
        lemma_label_shown(labels, 3);
        lemma_in_line(e, shown, qi, label("window"@, humanized(qi.window_size_nanos as nat)));
    }
    assert forall|g: int| 0 <= g < e.group@.len() implies mentions(
        sample_line(e, shown, qi),
        label(label_name((#[trigger] e.group@[g]).0@), e.group@[g].1@),
    ) by {
        assert(labels[fixed + g] == group_labels(e.group@)[g]);
        lemma_label_shown(labels, fixed + g);
        lemma_in_line(e, shown, qi, label(label_name(e.group@[g].0@), e.group@[g].1@));
    }
    let head = "flowsketch_estimate{"@ + labels_text(labels);
    assert(sample_line(e, shown, qi) =~= head + ("} "@ + shown + "\n"@));
}

proof fn lemma_samples_keep(
    before: Seq<char>,
    es: Seq<SketchEstimate>,
    shown: Seq<String>,
    places: Seq<int>,
    qi: ExportInfoView,
    part: Seq<char>,
)
    requires
        mentions(before, part),
    ensures
        mentions(sample_lines(before, es, shown, places, qi), part),
    decreases places.len(),
{
    if places.len() > 0 {
        lemma_samples_keep(before, es, shown, places.drop_last(), qi, part);
        lemma_mentions_more(
            sample_lines(before, es, shown, places.drop_last(), qi),
            part,
            sample_line(es[places.last()], shown[places.last()]@, qi),
        );
    }
}

proof fn lemma_sample_written(
    before: Seq<char>,
    es: Seq<SketchEstimate>,
    shown: Seq<String>,
    places: Seq<int>,
    qi: ExportInfoView,
    k: int,
)
    requires
        0 <= k < places.len(),
    ensures
        mentions(
            sample_lines(before, es, shown, places, qi),
            sample_line(es[places[k]], shown[places[k]]@, qi),
        ),
    decreases places.len(),
{
    let head = sample_lines(before, es, shown, places.drop_last(), qi);
    let last = sample_line(es[places.last()], shown[places.last()]@, qi);
    if k == places.len() - 1 {
        let none = Seq::<char>::empty();
        assert(head + last =~= head + last + none);
        lemma_mentions(head, last, none);
    } else {
        lemma_sample_written(before, es, shown, places.drop_last(), qi, k);
        lemma_mentions_more(head, sample_line(es[places[k]], shown[places[k]]@, qi), last);
    }
}

proof fn lemma_query_written(
    before: Seq<char>,
    es: Seq<SketchEstimate>,
    shown: Seq<String>,
    info: Seq<(String, QueryExportInfo)>,
    names: Seq<Seq<char>>,
    q: int,
    k: int,
)
    requires
        0 <= q < names.len(),
        0 <= k < exported(es, names[q], info_for(info, names[q]).max_series as nat).len(),
    ensures
        ({
            let qi = info_for(info, names[q]);
            let i = exported(es, names[q], qi.max_series as nat)[k];
            mentions(
                query_lines(before, es, shown, info, names),
                sample_line(es[i], shown[i]@, qi),
            )
        }),
    decreases names.len(),
{
    let qi = info_for(info, names.last());
    let places = exported(es, names.last(), qi.max_series as nat);
    let head = query_lines(before, es, shown, info, names.drop_last());
    if q == names.len() - 1 {
        lemma_sample_written(head, es, shown, places, qi, k);
    } else {
        lemma_query_written(before, es, shown, info, names.drop_last(), q, k);
        let own = info_for(info, names[q]);
        let i = exported(es, names[q], own.max_series as nat)[k];
        lemma_samples_keep(head, es, shown, places, qi, sample_line(es[i], shown[i]@, own));
    }
}

proof fn lemma_drops_keep(before: Seq<char>, dropped: Seq<(Seq<char>, nat)>, part: Seq<char>)
    requires
        mentions(before, part),
    ensures
        mentions(drop_lines(before, dropped), part),
    decreases dropped.len(),
{
    if dropped.len() > 0 {
        lemma_drops_keep(before, dropped.drop_last(), part);
        let head = drop_lines(before, dropped.drop_last());
        let more = "flowsketch_export_series_dropped_total{query=\""@ + escaped(dropped.last().0)
            + "\"} "@ + dec(dropped.last().1) + "\n"@;
        assert(drop_lines(before, dropped) =~= head + more);
        lemma_mentions_more(head, part, more);
    }
}

/// Every estimate that is exported has its line in the exposition, with its own
/// value, under the settings of its query.
pub proof fn law_exported_estimates_are_written(
    es: Seq<SketchEstimate>,
    shown: Seq<String>,
    info: Seq<(String, QueryExportInfo)>,
    i: int,
)
    requires
        0 <= i < es.len(),
        exported(
            es,
            es[i].query_name@,
            info_for(info, es[i].query_name@).max_series as nat,
        ).contains(i),
    ensures
        mentions(
            exposition(es, shown, info),
            sample_line(es[i], shown[i]@, info_for(info, es[i].query_name@)),
        ),
{
    let head = "# HELP flowsketch_estimate Approximate query result from a bounded-memory sketch.\n"@
        + "# TYPE flowsketch_estimate gauge\n"@;
    let all = es.map_values(|e: SketchEstimate| e.query_name@);
    let names = queries_of(es);
    let name = es[i].query_name@;
    let qi = info_for(info, name);
    law_sorted_names(all);
    assert(all[i] == name);
    assert(all.contains(name));
    assert(names.contains(name));
    let q = choose|q: int| 0 <= q < names.len() && names[q] == name;
    let out = exported(es, name, qi.max_series as nat);
    let k = choose|k: int| 0 <= k < out.len() && out[k] == i;
    lemma_query_written(head, es, shown, info, names, q, k);
    let part = sample_line(es[i], shown[i]@, qi);
    let body = query_lines(head, es, shown, info, names);
    let h =
        "# HELP flowsketch_export_series_dropped_total Series dropped by the per-query export cap.\n"@;
    let t = "# TYPE flowsketch_export_series_dropped_total counter\n"@;
    lemma_mentions_more(body, part, h);
    lemma_mentions_more(body + h, part, t);
    lemma_drops_keep(body + h + t, drops(es, info, names), part);
}

/// The drops are told of exactly the queries that the cap has cut, each with
/// the number of estimates that were left out.
pub proof fn law_drops_are_those_of_the_cap(
    es: Seq<SketchEstimate>,
    info: Seq<(String, QueryExportInfo)>,
    names: Seq<Seq<char>>,
)
    ensures
        forall|name: Seq<char>, n: nat| #[trigger]
            drops(es, info, names).contains((name, n)) <==> {
                &&& names.contains(name)
                &&& n > 0
                &&& n + info_for(info, name).max_series == places_of(es, name, es.len()).len()
            },
    decreases names.len(),
{
    if names.len() > 0 {
        let front = names.drop_last();
        let last = names.last();
        law_drops_are_those_of_the_cap(es, info, front);
        let before = drops(es, info, front);
        let cut = left_out(es, last, info_for(info, last).max_series as nat);
        let d = drops(es, info, names);
        assert forall|name: Seq<char>, n: nat| #[trigger] d.contains((name, n)) <==> {
            &&& names.contains(name)
            &&& n > 0
            &&& n + info_for(info, name).max_series == places_of(es, name, es.len()).len()
        } by {
            assert(names[names.len() - 1] == last);
            assert(names.contains(name) <==> front.contains(name) || name == last) by {
                if names.contains(name) {
                    let i = choose|i: int| 0 <= i < names.len() && names[i] == name;
                    if i < front.len() {
                        assert(front[i] == name);
                    }
                }
                if front.contains(name) {
                    let i = choose|i: int| 0 <= i < front.len() && front[i] == name;
                    assert(names[i] == name);
                }
            }
            if cut > 0 {
                assert(d == before.push((last, cut)));
                assert(d[d.len() - 1] == (last, cut));
                assert(d.contains((name, n)) <==> before.contains((name, n)) || (name, n) == (
                    last,
                    cut,
                )) by {
                    if d.contains((name, n)) {
                        let i = choose|i: int| 0 <= i < d.len() && d[i] == (name, n);
                        if i < before.len() {
                            assert(before[i] == (name, n));
                        }
                    }
                    if before.contains((name, n)) {
                        let i = choose|i: int| 0 <= i < before.len() && before[i] == (name, n);
                        assert(d[i] == (name, n));
                    }
                }
            }
        }
    }
}

} // verus!
