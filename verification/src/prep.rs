//! The aggregates of a prep briefing, computed without the model:
//! open action items with their dates, tag tallies, unresolved
//! blockers, and the morale and growth time series.

use vstd::prelude::*;

use crate::strutil::str_eq;
use crate::types::ActionItem;
use crate::types::ActionItemView;
use crate::types::Entry;
use crate::types::EntryView;
use crate::types::PrepActionItem;
use crate::types::PrepActionItemView;
use crate::types::PrepAggregates;
use crate::types::ScorePoint;
use crate::types::ScorePointView;
use crate::types::TagCount;
use crate::types::TagCountView;

verus! {

// ─── The aggregates, as mathematical functions ──────────

/// Keeps the action items still open.
pub open spec fn is_open() -> spec_fn(ActionItemView) -> bool {
    |a: ActionItemView| !a.completed
}

/// Turns an action item into a briefing item under this date.
pub open spec fn to_prep_item(date: Seq<char>) -> spec_fn(ActionItemView) -> PrepActionItemView {
    |a: ActionItemView| PrepActionItemView { text: a.text, date }
}

/// The open items of one entry, each tagged with the entry's date.
pub open spec fn open_items_of(date: Seq<char>, items: Seq<ActionItemView>) -> Seq<
    PrepActionItemView,
> {
    items.filter(is_open()).map_values(to_prep_item(date))
}

/// The manager's open action items across the entries, in entry
/// order.
pub open spec fn open_mine(es: Seq<EntryView>) -> Seq<PrepActionItemView>
    decreases es.len(),
{
    if es.len() == 0 {
        Seq::<PrepActionItemView>::empty()
    } else {
        open_items_of(es[0].date, es[0].action_items_mine) + open_mine(es.skip(1))
    }
}

/// The report's open action items across the entries, in entry
/// order.
pub open spec fn open_theirs(es: Seq<EntryView>) -> Seq<PrepActionItemView>
    decreases es.len(),
{
    if es.len() == 0 {
        Seq::<PrepActionItemView>::empty()
    } else {
        open_items_of(es[0].date, es[0].action_items_theirs) + open_theirs(es.skip(1))
    }
}

/// Every blocker mentioned across the entries, in entry order.
pub open spec fn all_blockers(es: Seq<EntryView>) -> Seq<Seq<char>>
    decreases es.len(),
{
    if es.len() == 0 {
        Seq::<Seq<char>>::empty()
    } else {
        es[0].blockers + all_blockers(es.skip(1))
    }
}

/// The morale time series: one point per entry that has a score.
pub open spec fn morale_points(es: Seq<EntryView>) -> Seq<ScorePointView>
    decreases es.len(),
{
    if es.len() == 0 {
        Seq::<ScorePointView>::empty()
    } else {
        (match es[0].morale_score {
            Some(s) => seq![ScorePointView { date: es[0].date, score: s }],
            None => Seq::<ScorePointView>::empty(),
        }) + morale_points(es.skip(1))
    }
}

/// The growth time series: one point per entry that has a score.
pub open spec fn growth_points(es: Seq<EntryView>) -> Seq<ScorePointView>
    decreases es.len(),
{
    if es.len() == 0 {
        Seq::<ScorePointView>::empty()
    } else {
        (match es[0].growth_score {
            Some(s) => seq![ScorePointView { date: es[0].date, score: s }],
            None => Seq::<ScorePointView>::empty(),
        }) + growth_points(es.skip(1))
    }
}

/// How often one tag occurs across the entries.
pub open spec fn tag_tally(es: Seq<EntryView>, t: Seq<char>) -> nat
    decreases es.len(),
{
    if es.len() == 0 {
        0
    } else {
        es[0].tags.filter(eq_tag(t)).len() + tag_tally(es.skip(1), t)
    }
}

/// Whether a tag is this tag.
pub open spec fn eq_tag(t: Seq<char>) -> spec_fn(Seq<char>) -> bool {
    |x: Seq<char>| x == t
}

/// A tally, held to what a machine word can count.
pub open spec fn capped(n: nat) -> nat {
    if n > usize::MAX as nat {
        usize::MAX as nat
    } else {
        n
    }
}

/// Whether some tally row carries this tag.
pub open spec fn has_tag(ts: Seq<TagCountView>, t: Seq<char>) -> bool {
    exists|i: int| 0 <= i < ts.len() && ts[i].tag == t
}

/// What a correct tag tally list says of the entries: one row per
/// distinct tag that occurs, carrying its occurrence count.
pub open spec fn tags_tallied(ts: Seq<TagCountView>, es: Seq<EntryView>) -> bool {
    &&& forall|i: int| 0 <= i < ts.len() ==> (#[trigger] ts[i]).count as nat == capped(
        tag_tally(es, ts[i].tag),
    )
    &&& forall|i: int| 0 <= i < ts.len() ==> tag_tally(es, (#[trigger] ts[i]).tag) > 0
    &&& forall|t: Seq<char>| tag_tally(es, t) > 0 ==> has_tag(ts, t)
    &&& forall|i: int, j: int| 0 <= i < j < ts.len() ==> ts[i].tag != ts[j].tag
}

// ─── Push lemmas ────────────────────────────────────────

/// One more entry extends the run of open items at its end.
proof fn lemma_open_mine_push(es: Seq<EntryView>, x: EntryView)
    ensures
        open_mine(es.push(x)) == open_mine(es) + open_items_of(x.date, x.action_items_mine),
    decreases es.len(),
{
    if es.len() == 0 {
        assert(es.push(x).skip(1) =~= Seq::<EntryView>::empty());
        assert(es.push(x)[0] == x);
        assert(open_mine(Seq::<EntryView>::empty()) == Seq::<PrepActionItemView>::empty());
        assert(open_mine(es) == Seq::<PrepActionItemView>::empty());
        assert(open_mine(es.push(x)) == open_items_of(
            x.date,
            x.action_items_mine,
        ) + Seq::<PrepActionItemView>::empty());
        assert(open_items_of(
            x.date,
            x.action_items_mine,
        ) + Seq::<PrepActionItemView>::empty() =~= Seq::<PrepActionItemView>::empty() + open_items_of(
            x.date,
            x.action_items_mine,
        ));
    } else {
        assert(es.push(x).skip(1) =~= es.skip(1).push(x));
        lemma_open_mine_push(es.skip(1), x);
        assert(open_mine(es.push(x)) =~= open_mine(es) + open_items_of(
            x.date,
            x.action_items_mine,
        ));
    }
}

/// One more entry extends the run of open items at its end.
proof fn lemma_open_theirs_push(es: Seq<EntryView>, x: EntryView)
    ensures
        open_theirs(es.push(x)) == open_theirs(es) + open_items_of(x.date, x.action_items_theirs),
    decreases es.len(),
{
    if es.len() == 0 {
        assert(es.push(x).skip(1) =~= Seq::<EntryView>::empty());
        assert(es.push(x)[0] == x);
        assert(open_theirs(Seq::<EntryView>::empty()) == Seq::<PrepActionItemView>::empty());
        assert(open_theirs(es) == Seq::<PrepActionItemView>::empty());
        assert(open_theirs(es.push(x)) == open_items_of(
            x.date,
            x.action_items_theirs,
        ) + Seq::<PrepActionItemView>::empty());
        assert(open_items_of(
            x.date,
            x.action_items_theirs,
        ) + Seq::<PrepActionItemView>::empty() =~= Seq::<PrepActionItemView>::empty() + open_items_of(
            x.date,
            x.action_items_theirs,
        ));
    } else {
        assert(es.push(x).skip(1) =~= es.skip(1).push(x));
        lemma_open_theirs_push(es.skip(1), x);
        assert(open_theirs(es.push(x)) =~= open_theirs(es) + open_items_of(
            x.date,
            x.action_items_theirs,
        ));
    }
}

/// One more entry extends the run of blockers at its end.
proof fn lemma_all_blockers_push(es: Seq<EntryView>, x: EntryView)
    ensures
        all_blockers(es.push(x)) == all_blockers(es) + x.blockers,
    decreases es.len(),
{
    if es.len() == 0 {
        assert(es.push(x).skip(1) =~= Seq::<EntryView>::empty());
        assert(es.push(x)[0] == x);
        assert(all_blockers(Seq::<EntryView>::empty()) == Seq::<Seq<char>>::empty());
        assert(all_blockers(es) == Seq::<Seq<char>>::empty());
        assert(all_blockers(es.push(x)) == x.blockers + Seq::<Seq<char>>::empty());
        assert(x.blockers + Seq::<Seq<char>>::empty() =~= Seq::<Seq<char>>::empty() + x.blockers);
    } else {
        assert(es.push(x).skip(1) =~= es.skip(1).push(x));
        lemma_all_blockers_push(es.skip(1), x);
        assert(all_blockers(es.push(x)) =~= all_blockers(es) + x.blockers);
    }
}

/// One more entry extends the morale series at its end.
proof fn lemma_morale_points_push(es: Seq<EntryView>, x: EntryView)
    ensures
        morale_points(es.push(x)) == morale_points(es) + (match x.morale_score {
            Some(s) => seq![ScorePointView { date: x.date, score: s }],
            None => Seq::<ScorePointView>::empty(),
        }),
    decreases es.len(),
{
    let tail = (match x.morale_score {
        Some(s) => seq![ScorePointView { date: x.date, score: s }],
        None => Seq::<ScorePointView>::empty(),
    });
    if es.len() == 0 {
        assert(es.push(x).skip(1) =~= Seq::<EntryView>::empty());
        assert(es.push(x)[0] == x);
        assert(morale_points(Seq::<EntryView>::empty()) == Seq::<ScorePointView>::empty());
        assert(morale_points(es) == Seq::<ScorePointView>::empty());
        assert(morale_points(es.push(x)) == tail + Seq::<ScorePointView>::empty());
        assert(tail + Seq::<ScorePointView>::empty() =~= Seq::<ScorePointView>::empty() + tail);
    } else {
        assert(es.push(x).skip(1) =~= es.skip(1).push(x));
        lemma_morale_points_push(es.skip(1), x);
        assert(morale_points(es.push(x)) =~= morale_points(es) + tail);
    }
}

/// One more entry extends the growth series at its end.
proof fn lemma_growth_points_push(es: Seq<EntryView>, x: EntryView)
    ensures
        growth_points(es.push(x)) == growth_points(es) + (match x.growth_score {
            Some(s) => seq![ScorePointView { date: x.date, score: s }],
            None => Seq::<ScorePointView>::empty(),
        }),
    decreases es.len(),
{
    let tail = (match x.growth_score {
        Some(s) => seq![ScorePointView { date: x.date, score: s }],
        None => Seq::<ScorePointView>::empty(),
    });
    if es.len() == 0 {
        assert(es.push(x).skip(1) =~= Seq::<EntryView>::empty());
        assert(es.push(x)[0] == x);
        assert(growth_points(Seq::<EntryView>::empty()) == Seq::<ScorePointView>::empty());
        assert(growth_points(es) == Seq::<ScorePointView>::empty());
        assert(growth_points(es.push(x)) == tail + Seq::<ScorePointView>::empty());
        assert(tail + Seq::<ScorePointView>::empty() =~= Seq::<ScorePointView>::empty() + tail);
    } else {
        assert(es.push(x).skip(1) =~= es.skip(1).push(x));
        lemma_growth_points_push(es.skip(1), x);
        assert(growth_points(es.push(x)) =~= growth_points(es) + tail);
    }
}

/// One more entry adds its own occurrences to a tally.
proof fn lemma_tag_tally_push(es: Seq<EntryView>, x: EntryView, t: Seq<char>)
    ensures
        tag_tally(es.push(x), t) == tag_tally(es, t) + x.tags.filter(eq_tag(t)).len(),
    decreases es.len(),
{
    if es.len() == 0 {
        assert(es.push(x).skip(1) =~= Seq::<EntryView>::empty());
        assert(es.push(x)[0] == x);
        assert(tag_tally(Seq::<EntryView>::empty(), t) == 0);
        assert(tag_tally(es, t) == 0);
        assert(tag_tally(es.push(x), t) == x.tags.filter(eq_tag(t)).len() + tag_tally(
            Seq::<EntryView>::empty(),
            t,
        ));
    } else {
        assert(es.push(x).skip(1) =~= es.skip(1).push(x));
        lemma_tag_tally_push(es.skip(1), x, t);
    }
}

// ─── The aggregates, executable ─────────────────────────

/// Appends the open items of one entry, under its date.
fn push_open_items(out: &mut Vec<PrepActionItem>, date: &String, items: &Vec<ActionItem>)
    ensures
        final(out).deep_view() == old(out).deep_view() + open_items_of(date@, items.deep_view()),
{
    let mut j: usize = 0;
    proof {
        reveal(Seq::filter);
        assert(items.deep_view().take(0) =~= Seq::<ActionItemView>::empty());
        assert(open_items_of(date@, items.deep_view().take(0)) =~= Seq::<
            PrepActionItemView,
        >::empty());
        assert(out.deep_view() =~= old(out).deep_view() + open_items_of(
            date@,
            items.deep_view().take(0),
        ));
    }
    while j < items.len()
        invariant
            0 <= j <= items@.len(),
            out.deep_view() == old(out).deep_view() + open_items_of(
                date@,
                items.deep_view().take(j as int),
            ),
        decreases items@.len() - j,
    {
        let ghost dv = items.deep_view();
        let ghost prevv = out@;
        let ghost prev = out.deep_view();
        proof {
            reveal(Seq::filter);
            assert(dv.take(j + 1 as int).drop_last() =~= dv.take(j as int));
            assert(dv.take(j + 1 as int).last() == dv[j as int]);
            assert(dv[j as int] == items@[j as int].deep_view());
        }
        if !items[j].completed {
            out.push(
                PrepActionItem { text: items[j].text.clone(), date: date.clone() },
            );
            proof {
                assert forall|k: int| 0 <= k < prev.len() implies out.deep_view()[k] == prev[k] by {
                    assert(out@[k] == prevv[k]);
                }
                assert(is_open()(dv[j as int]));
                let f1 = dv.take(j + 1 as int).filter(is_open());
                assert(f1 == dv.take(j as int).filter(is_open()).push(dv[j as int]));
                assert(open_items_of(date@, dv.take(j + 1 as int)) =~= open_items_of(
                    date@,
                    dv.take(j as int),
                ).push(to_prep_item(date@)(dv[j as int])));
                assert(to_prep_item(date@)(dv[j as int]) == (PrepActionItemView {
                    text: dv[j as int].text,
                    date: date@,
                }));
                assert(prev.len() == prevv.len());
                assert(out@.len() == prevv.len() + 1);
                assert(out@[prev.len() as int].deep_view() == (PrepActionItemView {
                    text: dv[j as int].text,
                    date: date@,
                }));
                assert(out.deep_view()[prev.len() as int] == out@[prev.len() as int].deep_view());
                assert(out.deep_view() =~= prev.push(to_prep_item(date@)(dv[j as int])));
                assert(prev.push(to_prep_item(date@)(dv[j as int])) =~= old(out).deep_view()
                    + open_items_of(date@, dv.take(j + 1 as int)));
                assert(out.deep_view() == old(out).deep_view() + open_items_of(
                    date@,
                    dv.take(j + 1 as int),
                ));
            }
        } else {
            proof {
                assert(!is_open()(dv[j as int]));
                assert(open_items_of(date@, dv.take(j + 1 as int)) =~= open_items_of(
                    date@,
                    dv.take(j as int),
                ));
            }
        }
        j = j + 1;
    }
    proof {
        assert(items.deep_view().take(items@.len() as int) =~= items.deep_view());
    }
}

/// Appends copies of these strings.
fn extend_strings(out: &mut Vec<String>, v: &Vec<String>)
    ensures
        final(out)@ == old(out)@ + v@,
{
    let mut j: usize = 0;
    proof {
        assert(out@ =~= old(out)@ + v@.take(0));
    }
    while j < v.len()
        invariant
            0 <= j <= v@.len(),
            out@ == old(out)@ + v@.take(j as int),
        decreases v@.len() - j,
    {
        out.push(v[j].clone());
        proof {
            assert(out@ =~= old(out)@ + v@.take(j + 1 as int));
        }
        j = j + 1;
    }
    proof {
        assert(v@.take(v@.len() as int) =~= v@);
    }
}

/// Tallies how often each tag occurs across the entries, one row per
/// distinct tag, sorted by count with the most frequent first.
fn tally_tags(entries: &Vec<Entry>) -> (r: Vec<TagCount>)
    ensures
        tags_tallied(r.deep_view(), entries.deep_view()),
        counts_descending(r.deep_view()),
{
    let raw = tally_tags_raw(entries);
    let ghost raw_dv = raw.deep_view();
    let sorted = sort_tags_desc(raw);
    proof {
        lemma_tallied_permuted(raw_dv, sorted.deep_view(), entries.deep_view());
    }
    sorted
}

/// Tallies the tags in order of first occurrence.
#[verifier::rlimit(100)]
fn tally_tags_raw(entries: &Vec<Entry>) -> (r: Vec<TagCount>)
    ensures
        tags_tallied(r.deep_view(), entries.deep_view()),
{
    let ghost es = entries.deep_view();
    let mut counts: Vec<TagCount> = Vec::new();
    let mut i: usize = 0;
    proof {
        assert(es.take(0) =~= Seq::<EntryView>::empty());
        assert(counts.deep_view().len() == 0);
    }
    while i < entries.len()
        invariant
            0 <= i <= entries@.len(),
            es == entries.deep_view(),
            tags_tallied(counts.deep_view(), es.take(i as int)),
        decreases entries@.len() - i,
    {
        let tags = &entries[i].tags;
        let ghost tv = entries@[i as int].tags.deep_view();
        proof {
            assert(es[i as int].tags == tv);
        }
        let mut j: usize = 0;
        proof {
            reveal(Seq::filter);
            assert forall|t: Seq<char>| true implies #[trigger] tally_upto(es, i as int, 0, t)
                == tag_tally(es.take(i as int), t) by {
                assert(tv.take(0) =~= Seq::<Seq<char>>::empty());
                assert(tv.take(0).filter(eq_tag(t)).len() == 0);
            }
        }
        while j < tags.len()
            invariant
                0 <= j <= tags@.len(),
                es == entries.deep_view(),
                0 <= i < es.len(),
                tv == es[i as int].tags,
                tags.deep_view() == tv,
                tallied_upto(counts.deep_view(), es, i as int, j as int),
            decreases tags@.len() - j,
        {
            let ghost cv = counts.deep_view();
            let ghost tg = tv[j as int];
            proof {
                reveal(Seq::filter);
                assert(tags.deep_view()[j as int] == tags@[j as int]@);
                assert forall|t: Seq<char>| true implies #[trigger] tally_upto(
                    es,
                    i as int,
                    j + 1,
                    t,
                ) == tally_upto(es, i as int, j as int, t) + (if t == tg {
                    1nat
                } else {
                    0nat
                }) by {
                    assert(tv.take(j + 1 as int).drop_last() =~= tv.take(j as int));
                    assert(tv.take(j + 1 as int).last() == tv[j as int]);
                    if t == tg {
                        assert(eq_tag(t)(tv[j as int]));
                    } else {
                        assert(!eq_tag(t)(tv[j as int]));
                    }
                }
            }
            let mut k: usize = 0;
            let mut found = false;
            while k < counts.len() && !found
                invariant
                    0 <= k <= counts@.len(),
                    cv == counts.deep_view(),
                    tv == es[i as int].tags,
                    tags.deep_view() == tv,
                    0 <= j < tv.len(),
                    tg == tv[j as int],
                    found ==> k < counts@.len() && cv[k as int].tag == tg,
                    !found ==> forall|p: int| 0 <= p < k ==> cv[p].tag != tg,
                decreases counts@.len() - k + (if found {
                    0int
                } else {
                    1int
                }),
            {
                if str_eq(counts[k].tag.as_str(), tags[j].as_str()) {
                    found = true;
                } else {
                    k = k + 1;
                }
            }
            if found {
                let c = counts[k].count;
                let newc = if c < usize::MAX {
                    c + 1
                } else {
                    c
                };
                let row = TagCount { tag: counts[k].tag.clone(), count: newc };
                let ghost rv = row.deep_view();
                counts.set(k, row);
                proof {
                    assert forall|p: int|
                        0 <= p < cv.len() && p != k as int implies counts.deep_view()[p]
                        == cv[p] by {
                        assert(counts@[p] == old_at(counts@, p));
                    }
                    assert(counts.deep_view() =~= cv.update(k as int, rv));
                    lemma_tallied_step_update(cv, es, i as int, j as int, k as int, rv);
                }
            } else {
                let row = TagCount { tag: tags[j].clone(), count: 1 };
                let ghost rv = row.deep_view();
                let ghost prevv = counts@;
                counts.push(row);
                proof {
                    assert forall|p: int| 0 <= p < cv.len() implies counts.deep_view()[p]
                        == cv[p] by {
                        assert(counts@[p] == prevv[p]);
                    }
                    assert(counts.deep_view() =~= cv.push(rv));
                    lemma_tallied_step_push(cv, es, i as int, j as int, rv);
                }
            }
            j = j + 1;
        }
        proof {
            assert(tv.take(tv.len() as int) =~= tv);
            assert(es.take(i + 1 as int) =~= es.take(i as int).push(es[i as int]));
            assert forall|t: Seq<char>| true implies #[trigger] tag_tally(es.take(i + 1 as int), t)
                == tally_upto(es, i as int, tv.len() as int, t) by {
                lemma_tag_tally_push(es.take(i as int), es[i as int], t);
            }
            assert(tags_tallied(counts.deep_view(), es.take(i + 1 as int)));
        }
        i = i + 1;
    }
    proof {
        assert(es.take(es.len() as int) =~= es);
    }
    counts
}

/// A sequence element, before an update elsewhere.
spec fn old_at<A>(s: Seq<A>, p: int) -> A {
    s[p]
}

/// Rows ordered by count, largest first.
pub open spec fn counts_descending(ts: Seq<TagCountView>) -> bool {
    forall|i: int, j: int| 0 <= i <= j < ts.len() ==> ts[i].count >= ts[j].count
}

/// Orders tally rows by count, largest first; the rows themselves are
/// kept exactly.
fn sort_tags_desc(input: Vec<TagCount>) -> (r: Vec<TagCount>)
    ensures
        r.deep_view().to_multiset() == input.deep_view().to_multiset(),
        counts_descending(r.deep_view()),
{
    broadcast use vstd::seq_lib::group_to_multiset_ensures;

    let ghost input_dv = input.deep_view();
    let mut src = input;
    let mut out: Vec<TagCount> = Vec::new();
    proof {
        assert(out.deep_view().len() == 0);
        assert(out.deep_view() =~= Seq::<TagCountView>::empty());
        assert forall|e: TagCountView| true implies #[trigger] out.deep_view().to_multiset().add(
            src.deep_view().to_multiset(),
        ).count(e) == input_dv.to_multiset().count(e) by {
            if out.deep_view().to_multiset().count(e) > 0 {
                assert(out.deep_view().contains(e));
            }
        }
        assert(out.deep_view().to_multiset().add(src.deep_view().to_multiset())
            =~= input_dv.to_multiset());
    }
    while src.len() > 0
        invariant
            out.deep_view().to_multiset().add(src.deep_view().to_multiset())
                == input_dv.to_multiset(),
            counts_descending(out.deep_view()),
            forall|k: int, t: int|
                0 <= k < src.deep_view().len() && 0 <= t < out.deep_view().len()
                    ==> src.deep_view()[k].count <= out.deep_view()[t].count,
        decreases src@.len(),
    {
        let mut m: usize = 0;
        let mut i: usize = 1;
        while i < src.len()
            invariant
                1 <= i <= src@.len(),
                0 <= m < i,
                forall|j: int|
                    0 <= j < i ==> src.deep_view()[j].count <= src.deep_view()[m as int].count,
            decreases src@.len() - i,
        {
            if src[i].count > src[m].count {
                m = i;
            }
            i = i + 1;
        }
        let ghost sdv = src.deep_view();
        let ghost odv = out.deep_view();
        let x = src.remove(m);
        let ghost xv = x.deep_view();
        proof {
            broadcast use vstd::seq_lib::group_to_multiset_ensures;

            assert(xv == sdv[m as int]);
            assert forall|k: int|
                0 <= k < src.deep_view().len() implies src.deep_view()[k] == sdv.remove(
                m as int,
            )[k] by {
                if k < m {
                    assert(src@[k].deep_view() == sdv[k]);
                } else {
                    assert(src@[k].deep_view() == sdv[k + 1]);
                }
            }
            assert(src.deep_view() =~= sdv.remove(m as int));
        }
        let ghost prevv = out@;
        out.push(x);
        proof {
            broadcast use vstd::seq_lib::group_to_multiset_ensures;

            assert forall|k: int| 0 <= k < odv.len() implies out.deep_view()[k] == odv[k] by {
                assert(out@[k] == prevv[k]);
            }
            assert(out.deep_view()[odv.len() as int] == out@[odv.len() as int].deep_view());
            assert(out.deep_view() =~= odv.push(xv));
            assert(sdv.contains(sdv[m as int]));
            assert(sdv.to_multiset().count(xv) > 0);
            assert(out.deep_view().to_multiset() =~= odv.to_multiset().insert(xv));
            assert(src.deep_view().to_multiset() =~= sdv.to_multiset().remove(xv));
            assert forall|e: TagCountView| true implies #[trigger] out.deep_view()
                .to_multiset()
                .add(src.deep_view().to_multiset()).count(e) == odv.to_multiset().add(
                sdv.to_multiset(),
            ).count(e) by {
            }
            assert(out.deep_view().to_multiset().add(src.deep_view().to_multiset())
                =~= odv.to_multiset().add(sdv.to_multiset()));
            assert forall|a: int, b: int|
                0 <= a <= b < out.deep_view().len() implies out.deep_view()[a].count
                >= out.deep_view()[b].count by {
                if b == odv.len() {
                    if a < b {
                        assert(out.deep_view()[a] == odv[a]);
                        assert(sdv[m as int].count <= odv[a].count);
                    }
                } else {
                    assert(out.deep_view()[a] == odv[a] && out.deep_view()[b] == odv[b]);
                }
            }
            assert forall|k: int, t: int|
                0 <= k < src.deep_view().len() && 0 <= t < out.deep_view().len() implies src
                .deep_view()[k].count <= out.deep_view()[t].count by {
                assert(src.deep_view()[k] == sdv.remove(m as int)[k]);
                let k0 = if k < m {
                    k
                } else {
                    k + 1
                };
                assert(src.deep_view()[k] == sdv[k0]);
                assert(sdv[k0].count <= sdv[m as int].count);
                if t < odv.len() {
                    assert(out.deep_view()[t] == odv[t]);
                    assert(sdv[k0].count <= odv[t].count);
                } else {
                    assert(out.deep_view()[t] == xv);
                }
            }
        }
    }
    proof {
        broadcast use vstd::seq_lib::group_to_multiset_ensures;

        assert forall|e: TagCountView| true implies #[trigger] out.deep_view().to_multiset().count(
            e,
        ) == input_dv.to_multiset().count(e) by {
            if src.deep_view().to_multiset().count(e) > 0 {
                assert(src.deep_view().contains(e));
            }
        }
        assert(out.deep_view().to_multiset() =~= input_dv.to_multiset());
    }
    out
}

/// A tally list stays correct under any reordering of its rows.
proof fn lemma_tallied_permuted(a: Seq<TagCountView>, b: Seq<TagCountView>, es: Seq<EntryView>)
    requires
        tags_tallied(a, es),
        a.to_multiset() == b.to_multiset(),
    ensures
        tags_tallied(b, es),
{
    broadcast use vstd::seq_lib::group_to_multiset_ensures;

    assert forall|i: int| 0 <= i < b.len() implies (#[trigger] b[i]).count as nat == capped(
        tag_tally(es, b[i].tag),
    ) && tag_tally(es, b[i].tag) > 0 by {
        assert(b.contains(b[i]));
        assert(b.to_multiset().count(b[i]) > 0);
        assert(a.contains(b[i]));
        let k = choose|k: int| 0 <= k < a.len() && a[k] == b[i];
        assert(a[k].count as nat == capped(tag_tally(es, a[k].tag)));
        assert(tag_tally(es, a[k].tag) > 0);
    }
    assert forall|t: Seq<char>| tag_tally(es, t) > 0 implies has_tag(b, t) by {
        assert(has_tag(a, t));
        let k = choose|k: int| 0 <= k < a.len() && a[k].tag == t;
        assert(a.contains(a[k]));
        assert(a.to_multiset().count(a[k]) > 0);
        assert(b.contains(a[k]));
        let i = choose|i: int| 0 <= i < b.len() && b[i] == a[k];
        assert(b[i].tag == t);
    }
    assert(a.no_duplicates()) by {
        assert forall|i: int, j: int|
            0 <= i < a.len() && 0 <= j < a.len() && i != j implies a[i] != a[j] by {
            if i < j {
                assert(a[i].tag != a[j].tag);
            } else {
                assert(a[j].tag != a[i].tag);
            }
        }
    }
    a.lemma_multiset_has_no_duplicates();
    b.lemma_multiset_has_no_duplicates_conv();
    assert forall|i: int, j: int| 0 <= i < j < b.len() implies b[i].tag != b[j].tag by {
        if b[i].tag == b[j].tag {
            assert(b[i] != b[j]);
            assert(b.contains(b[i]) && b.contains(b[j]));
            assert(a.contains(b[i]) && a.contains(b[j]));
            let k1 = choose|k: int| 0 <= k < a.len() && a[k] == b[i];
            let k2 = choose|k: int| 0 <= k < a.len() && a[k] == b[j];
            assert(k1 != k2);
            if k1 < k2 {
                assert(a[k1].tag != a[k2].tag);
            } else {
                assert(a[k2].tag != a[k1].tag);
            }
        }
    }
}

/// The tally of one tag counted through entry `i`, tag position `j`.
pub open spec fn tally_upto(es: Seq<EntryView>, i: int, j: int, t: Seq<char>) -> nat {
    tag_tally(es.take(i), t) + es[i].tags.take(j).filter(eq_tag(t)).len()
}

/// What the tally rows say mid-scan.
pub open spec fn tallied_upto(ts: Seq<TagCountView>, es: Seq<EntryView>, i: int, j: int) -> bool {
    &&& forall|p: int| 0 <= p < ts.len() ==> (#[trigger] ts[p]).count as nat == capped(
        tally_upto(es, i, j, ts[p].tag),
    )
    &&& forall|p: int| 0 <= p < ts.len() ==> tally_upto(es, i, j, (#[trigger] ts[p]).tag) > 0
    &&& forall|t: Seq<char>| tally_upto(es, i, j, t) > 0 ==> has_tag(ts, t)
    &&& forall|p: int, q: int| 0 <= p < q < ts.len() ==> ts[p].tag != ts[q].tag
}

/// Incrementing the row of the tag just seen keeps the scan correct.
proof fn lemma_tallied_step_update(
    cv: Seq<TagCountView>,
    es: Seq<EntryView>,
    i: int,
    j: int,
    k: int,
    rv: TagCountView,
)
    requires
        0 <= i < es.len(),
        0 <= j < es[i].tags.len(),
        0 <= k < cv.len(),
        tallied_upto(cv, es, i, j),
        cv[k].tag == es[i].tags[j],
        rv.tag == cv[k].tag,
        rv.count == (if cv[k].count < usize::MAX {
            (cv[k].count + 1) as usize
        } else {
            cv[k].count
        }),
        forall|t: Seq<char>| #[trigger] tally_upto(es, i, j + 1, t) == tally_upto(es, i, j, t) + (
        if t == es[i].tags[j] {
            1nat
        } else {
            0nat
        }),
    ensures
        tallied_upto(cv.update(k, rv), es, i, j + 1),
{
    let tg = es[i].tags[j];
    let ncv = cv.update(k, rv);
    assert forall|p: int| 0 <= p < ncv.len() implies (#[trigger] ncv[p]).count as nat == capped(
        tally_upto(es, i, j + 1, ncv[p].tag),
    ) by {
        if p == k {
            assert(tally_upto(es, i, j + 1, tg) == tally_upto(es, i, j, tg) + 1);
        } else {
            assert(ncv[p] == cv[p]);
            assert(ncv[p].tag != tg);
            assert(tally_upto(es, i, j + 1, ncv[p].tag) == tally_upto(es, i, j, ncv[p].tag));
        }
    }
    assert forall|p: int| 0 <= p < ncv.len() implies tally_upto(
        es,
        i,
        j + 1,
        (#[trigger] ncv[p]).tag,
    ) > 0 by {
        if p == k {
            assert(tally_upto(es, i, j + 1, tg) == tally_upto(es, i, j, tg) + 1);
        } else {
            assert(ncv[p] == cv[p]);
        }
    }
    assert forall|t: Seq<char>| tally_upto(es, i, j + 1, t) > 0 implies has_tag(ncv, t) by {
        if t == tg {
            assert(ncv[k].tag == t);
        } else {
            assert(tally_upto(es, i, j, t) > 0);
            assert(has_tag(cv, t));
            let w = choose|w: int| 0 <= w < cv.len() && cv[w].tag == t;
            assert(ncv[w].tag == t);
        }
    }
}

/// Starting a row for a tag not yet seen keeps the scan correct.
proof fn lemma_tallied_step_push(
    cv: Seq<TagCountView>,
    es: Seq<EntryView>,
    i: int,
    j: int,
    rv: TagCountView,
)
    requires
        0 <= i < es.len(),
        0 <= j < es[i].tags.len(),
        tallied_upto(cv, es, i, j),
        rv.tag == es[i].tags[j],
        rv.count == 1usize,
        !has_tag(cv, rv.tag),
        forall|t: Seq<char>| #[trigger] tally_upto(es, i, j + 1, t) == tally_upto(es, i, j, t) + (
        if t == es[i].tags[j] {
            1nat
        } else {
            0nat
        }),
    ensures
        tallied_upto(cv.push(rv), es, i, j + 1),
{
    let tg = es[i].tags[j];
    let ncv = cv.push(rv);
    assert(tally_upto(es, i, j, tg) == 0) by {
        if tally_upto(es, i, j, tg) > 0 {
            assert(has_tag(cv, tg));
        }
    }
    assert forall|p: int| 0 <= p < ncv.len() implies (#[trigger] ncv[p]).count as nat == capped(
        tally_upto(es, i, j + 1, ncv[p].tag),
    ) by {
        if p == cv.len() {
            assert(ncv[p] == rv);
            assert(tally_upto(es, i, j + 1, tg) == 1);
        } else {
            assert(ncv[p] == cv[p]);
            assert(ncv[p].tag != tg);
            assert(tally_upto(es, i, j + 1, ncv[p].tag) == tally_upto(es, i, j, ncv[p].tag));
        }
    }
    assert forall|p: int| 0 <= p < ncv.len() implies tally_upto(
        es,
        i,
        j + 1,
        (#[trigger] ncv[p]).tag,
    ) > 0 by {
        if p == cv.len() {
            assert(tally_upto(es, i, j + 1, tg) == 1);
        } else {
            assert(ncv[p] == cv[p]);
        }
    }
    assert forall|t: Seq<char>| tally_upto(es, i, j + 1, t) > 0 implies has_tag(ncv, t) by {
        if t == tg {
            assert(ncv[cv.len() as int].tag == t);
        } else {
            assert(tally_upto(es, i, j, t) > 0);
            assert(has_tag(cv, t));
            let w = choose|w: int| 0 <= w < cv.len() && cv[w].tag == t;
            assert(ncv[w].tag == t);
        }
    }
    assert forall|p: int, q: int| 0 <= p < q < ncv.len() implies ncv[p].tag != ncv[q].tag by {
        if q == cv.len() {
            assert(ncv[p] == cv[p]);
            if cv[p].tag == tg {
                assert(has_tag(cv, tg));
            }
        } else {
            assert(ncv[p] == cv[p] && ncv[q] == cv[q]);
        }
    }
}

/// Computes every aggregate of a prep briefing from the entries, the
/// model aside: open action items (with the dates of their entries),
/// tag tallies, blockers, and the two score series, all in entry
/// order.
pub fn compute_structured_prep(entries: &Vec<Entry>) -> (r: PrepAggregates)
    ensures
        r.open_items_mine.deep_view() == open_mine(entries.deep_view()),
        r.open_items_theirs.deep_view() == open_theirs(entries.deep_view()),
        r.unresolved_blockers.deep_view() == all_blockers(entries.deep_view()),
        r.morale_scores.deep_view() == morale_points(entries.deep_view()),
        r.growth_scores.deep_view() == growth_points(entries.deep_view()),
        tags_tallied(r.recent_tags.deep_view(), entries.deep_view()),
        counts_descending(r.recent_tags.deep_view()),
{
    let ghost es = entries.deep_view();

    let mut mine: Vec<PrepActionItem> = Vec::new();
    let mut i: usize = 0;
    proof {
        assert(es.take(0) =~= Seq::<EntryView>::empty());
        assert(mine.deep_view() =~= open_mine(es.take(0)));
    }
    while i < entries.len()
        invariant
            0 <= i <= entries@.len(),
            es == entries.deep_view(),
            mine.deep_view() == open_mine(es.take(i as int)),
        decreases entries@.len() - i,
    {
        push_open_items(&mut mine, &entries[i].date, &entries[i].action_items_mine);
        proof {
            assert(es.take(i + 1 as int) =~= es.take(i as int).push(es[i as int]));
            lemma_open_mine_push(es.take(i as int), es[i as int]);
            assert(es[i as int].date == entries@[i as int].date@);
            assert(es[i as int].action_items_mine == entries@[i as int].action_items_mine
                .deep_view());
        }
        i = i + 1;
    }

    let mut theirs: Vec<PrepActionItem> = Vec::new();
    let mut i: usize = 0;
    proof {
        assert(es.take(es.len() as int) =~= es);
        assert(theirs.deep_view() =~= open_theirs(es.take(0)));
    }
    while i < entries.len()
        invariant
            0 <= i <= entries@.len(),
            es == entries.deep_view(),
            theirs.deep_view() == open_theirs(es.take(i as int)),
        decreases entries@.len() - i,
    {
        push_open_items(&mut theirs, &entries[i].date, &entries[i].action_items_theirs);
        proof {
            assert(es.take(i + 1 as int) =~= es.take(i as int).push(es[i as int]));
            lemma_open_theirs_push(es.take(i as int), es[i as int]);
        }
        i = i + 1;
    }

    let mut blockers: Vec<String> = Vec::new();
    let mut i: usize = 0;
    proof {
        assert(blockers.deep_view() =~= all_blockers(es.take(0)));
    }
    while i < entries.len()
        invariant
            0 <= i <= entries@.len(),
            es == entries.deep_view(),
            blockers.deep_view() == all_blockers(es.take(i as int)),
        decreases entries@.len() - i,
    {
        let ghost prevv = blockers@;
        extend_strings(&mut blockers, &entries[i].blockers);
        proof {
            assert(es.take(i + 1 as int) =~= es.take(i as int).push(es[i as int]));
            lemma_all_blockers_push(es.take(i as int), es[i as int]);
            assert(blockers.deep_view() =~= all_blockers(es.take(i as int)) + es[i as int]
                .blockers);
        }
        i = i + 1;
    }

    let mut morale: Vec<ScorePoint> = Vec::new();
    let mut i: usize = 0;
    proof {
        assert(morale.deep_view() =~= morale_points(es.take(0)));
    }
    while i < entries.len()
        invariant
            0 <= i <= entries@.len(),
            es == entries.deep_view(),
            morale.deep_view() == morale_points(es.take(i as int)),
        decreases entries@.len() - i,
    {
        let ghost prevv = morale@;
        let ghost prev = morale.deep_view();
        if let Some(s) = entries[i].morale_score {
            morale.push(ScorePoint { date: entries[i].date.clone(), score: s });
        }
        proof {
            assert(es.take(i + 1 as int) =~= es.take(i as int).push(es[i as int]));
            lemma_morale_points_push(es.take(i as int), es[i as int]);
            if es[i as int].morale_score is Some {
                assert forall|k: int| 0 <= k < prev.len() implies morale.deep_view()[k]
                    == prev[k] by {
                    assert(morale@[k] == prevv[k]);
                }
            }
            assert(morale.deep_view() =~= morale_points(es.take(i + 1 as int)));
        }
        i = i + 1;
    }

    let mut growth: Vec<ScorePoint> = Vec::new();
    let mut i: usize = 0;
    proof {
        assert(growth.deep_view() =~= growth_points(es.take(0)));
    }
    while i < entries.len()
        invariant
            0 <= i <= entries@.len(),
            es == entries.deep_view(),
            growth.deep_view() == growth_points(es.take(i as int)),
        decreases entries@.len() - i,
    {
        let ghost prevv = growth@;
        let ghost prev = growth.deep_view();
        if let Some(s) = entries[i].growth_score {
            growth.push(ScorePoint { date: entries[i].date.clone(), score: s });
        }
        proof {
            assert(es.take(i + 1 as int) =~= es.take(i as int).push(es[i as int]));
            lemma_growth_points_push(es.take(i as int), es[i as int]);
            if es[i as int].growth_score is Some {
                assert forall|k: int| 0 <= k < prev.len() implies growth.deep_view()[k]
                    == prev[k] by {
                    assert(growth@[k] == prevv[k]);
                }
            }
            assert(growth.deep_view() =~= growth_points(es.take(i + 1 as int)));
        }
        i = i + 1;
    }

    let recent_tags = tally_tags(entries);

    proof {
        assert(es.take(es.len() as int) =~= es);
    }
    PrepAggregates {
        open_items_mine: mine,
        open_items_theirs: theirs,
        recent_tags,
        unresolved_blockers: blockers,
        morale_scores: morale,
        growth_scores: growth,
    }
}

} // verus!
