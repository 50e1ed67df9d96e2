//! The command surface around the language-model calls: the
//! deterministic cache keys, the transcript-extraction flow and the
//! prep-briefing flow. Each flow is a decision function: it reads the
//! store and says whether a cached result answers the request or a
//! model call is still needed; a second function takes the model's
//! answer and finishes.

use vstd::prelude::*;

use crate::codec::enc_string_list;
use crate::codec::encode_string_list;
use crate::codec::lemma_string_list_round_trip;
use crate::ext::json_is_valid;
use crate::ext::json_ok;
use crate::prompt::build_extraction_prompt;
use crate::prompt::defenced;
use crate::prompt::extraction_prompt;
use crate::prompt::strip_markdown_fences;
use crate::store::cache_index;
use crate::store::cache_keys_unique;
use crate::store::has_cache;
use crate::store::has_member;
use crate::store::Store;
use crate::types::CacheRecordView;
use crate::types::Entry;
use crate::types::EntryView;
use crate::types::PrepResponse;
use crate::types::Provider;

verus! {

// ─── Cache keys ─────────────────────────────────────────

/// The deterministic fingerprint of a list of key parts: their
/// unambiguous serialization. Two part lists collide only when they
/// are equal.
pub fn cache_key(parts: &Vec<String>) -> (r: String)
    ensures
        r@ == enc_string_list(parts.deep_view()),
{
    encode_string_list(parts)
}

/// Cache keys are one to one in their parts: two keys are equal
/// exactly when the part lists are.
pub proof fn lemma_cache_key_injective(a: Seq<Seq<char>>, b: Seq<Seq<char>>)
    ensures
        enc_string_list(a) == enc_string_list(b) <==> a == b,
{
    if enc_string_list(a) == enc_string_list(b) {
        lemma_string_list_round_trip(a);
        lemma_string_list_round_trip(b);
    }
}

/// What a (key, category) pair holds after a store: the pair is
/// present and carries exactly the stored value. With the fingerprint
/// being one to one, a later identical request is answered from the
/// cache, with the identical text, and needs no second model call.
pub proof fn lemma_cache_set_then_get(
    cs: Seq<CacheRecordView>,
    key: Seq<char>,
    category: Seq<char>,
    value: Seq<char>,
    now: Seq<char>,
)
    requires
        cache_keys_unique(cs),
    ensures
        ({
            let rec = (CacheRecordView { key, category, value, created_at: now });
            let ncs = if has_cache(cs, key, category) {
                cs.update(cache_index(cs, key, category), rec)
            } else {
                cs.push(rec)
            };
            &&& has_cache(ncs, key, category)
            &&& ncs[cache_index(ncs, key, category)].value == value
        }),
{
    let rec = (CacheRecordView { key, category, value, created_at: now });
    if has_cache(cs, key, category) {
        let i = cache_index(cs, key, category);
        assert(0 <= i < cs.len() && cs[i].key == key && cs[i].category == category);
        let ncs = cs.update(i, rec);
        assert(ncs[i].key == key && ncs[i].category == category);
        assert(has_cache(ncs, key, category));
        let j = cache_index(ncs, key, category);
        assert(0 <= j < ncs.len() && ncs[j].key == key && ncs[j].category == category);
        if j != i {
            assert(ncs[j] == cs[j]);
        }
    } else {
        let ncs = cs.push(rec);
        assert(ncs[cs.len() as int].key == key && ncs[cs.len() as int].category == category);
        assert(has_cache(ncs, key, category));
        let j = cache_index(ncs, key, category);
        assert(0 <= j < ncs.len() && ncs[j].key == key && ncs[j].category == category);
        if j != cs.len() {
            assert(ncs[j] == cs[j]);
        }
    }
}

// ─── Choosing the vendor ────────────────────────────────

/// Whether a configured credential is usable: present, nonempty and
/// not the placeholder a sample configuration ships with.
pub open spec fn key_usable(k: Option<Seq<char>>) -> bool {
    match k {
        Some(s) => s.len() > 0 && s != ("your-key-here")@,
        None => false,
    }
}

/// Chooses the vendor by which credential is usable: Anthropic first,
/// then OpenAI, else none — the configuration error the caller
/// surfaces. The caller hands in what it read from the environment.
pub fn choose_provider(anthropic_key: &Option<String>, openai_key: &Option<String>) -> (r: Option<
    Provider,
>)
    ensures
        r == (if key_usable(anthropic_key.deep_view()) {
            Some(Provider::Anthropic)
        } else if key_usable(openai_key.deep_view()) {
            Some(Provider::OpenAi)
        } else {
            None::<Provider>
        }),
{
    if key_ok(anthropic_key) {
        Some(Provider::Anthropic)
    } else if key_ok(openai_key) {
        Some(Provider::OpenAi)
    } else {
        None
    }
}

/// Whether one credential is usable.
fn key_ok(k: &Option<String>) -> (r: bool)
    ensures
        r == key_usable(k.deep_view()),
{
    match k {
        Some(s) => !s.as_str().is_empty() && !crate::strutil::str_eq(s.as_str(), "your-key-here"),
        None => false,
    }
}

// ─── The extraction flow ────────────────────────────────

/// The cache key parts of an extraction request.
pub open spec fn extract_parts(member_name: Seq<char>, transcript: Seq<char>) -> Seq<Seq<char>> {
    seq![member_name, transcript]
}

/// How an extraction request is answered: from the cache, or by a
/// model call with this prompt, to be finished under this key.
pub enum ExtractOutcome {
    Cached(String),
    NeedsCall { key: String, prompt: String },
}

/// Why an extraction fails: the model's answer was not valid JSON.
#[derive(Debug, Clone, Copy, PartialEq, Eq)]
pub enum ExtractError {
    InvalidJson,
}

/// Decides an extraction request. A cached result answers it if and
/// only if one stands under the fingerprint of (member name,
/// transcript) and still reads as JSON; a malformed cached text is
/// passed over as if absent, as the journal has always done. No store
/// lock is needed for the model call itself.
pub fn extract_request(store: &Store, member_name: &str, transcript: &str) -> (r: ExtractOutcome)
    requires
        store.wf(),
    ensures
        ({
            let cs = store.cache.deep_view();
            let key = enc_string_list(extract_parts(member_name@, transcript@));
            let hit = has_cache(cs, key, ("extract")@) && json_ok(
                cs[cache_index(cs, key, ("extract")@)].value,
            );
            match r {
                ExtractOutcome::Cached(v) => hit && v@ == cs[cache_index(
                    cs,
                    key,
                    ("extract")@,
                )].value,
                ExtractOutcome::NeedsCall { key: k, prompt } => !hit && k@ == key && prompt@
                    == extraction_prompt(member_name@, transcript@),
            }
        }),
{
    let mut parts: Vec<String> = Vec::new();
    parts.push(String::from_str(member_name));
    parts.push(String::from_str(transcript));
    proof {
        assert(parts.deep_view() =~= extract_parts(member_name@, transcript@));
    }
    let key = cache_key(&parts);
    match store.cache_get(key.as_str(), "extract") {
        Some(v) => {
            if json_is_valid(v.as_str()) {
                ExtractOutcome::Cached(v)
            } else {
                let prompt = build_extraction_prompt(member_name, transcript);
                ExtractOutcome::NeedsCall { key, prompt }
            }
        },
        None => {
            let prompt = build_extraction_prompt(member_name, transcript);
            ExtractOutcome::NeedsCall { key, prompt }
        },
    }
}

/// Finishes an extraction with the model's answer: strips fences,
/// rejects anything that is not JSON, and memoizes the cleaned text
/// under the request's key. Succeeds exactly when the cleaned answer
/// is valid JSON; on failure nothing is stored.
pub fn extract_finish(store: &mut Store, key: &str, ai_text: &str, now: &str) -> (r: Result<
    String,
    ExtractError,
>)
    requires
        old(store).wf(),
    ensures
        final(store).wf(),
        final(store).members@ == old(store).members@,
        final(store).entries@ == old(store).entries@,
        ({
            let clean = defenced(ai_text@);
            if json_ok(clean) {
                let cs = old(store).cache.deep_view();
                let rec = (CacheRecordView {
                    key: key@,
                    category: ("extract")@,
                    value: clean,
                    created_at: now@,
                });
                &&& r is Ok
                &&& r.unwrap()@ == clean
                &&& final(store).cache.deep_view() == (if has_cache(cs, key@, ("extract")@) {
                    cs.update(cache_index(cs, key@, ("extract")@), rec)
                } else {
                    cs.push(rec)
                })
            } else {
                &&& r == Result::<String, ExtractError>::Err(ExtractError::InvalidJson)
                &&& final(store).cache@ == old(store).cache@
            }
        }),
{
    let clean = strip_markdown_fences(ai_text);
    if json_is_valid(clean) {
        store.cache_set(key, "extract", clean, now);
        Ok(String::from_str(clean))
    } else {
        Err(ExtractError::InvalidJson)
    }
}

// ─── The prep-briefing flow ─────────────────────────────

/// An update timestamp as a key part: marked when present, empty when
/// absent, so presence is itself part of the fingerprint and no id can
/// stand where a timestamp would.
pub open spec fn stamp_part(o: Option<Seq<char>>) -> Seq<char> {
    match o {
        Some(u) => seq!['u'] + u,
        None => Seq::<char>::empty(),
    }
}

/// A marked timestamp part names its timestamp exactly.
proof fn lemma_stamp_part_injective(a: Option<Seq<char>>, b: Option<Seq<char>>)
    requires
        stamp_part(a) == stamp_part(b),
    ensures
        a == b,
{
    if a is Some && b is Some {
        assert((seq!['u'] + a.unwrap()).skip(1) =~= a.unwrap());
        assert((seq!['u'] + b.unwrap()).skip(1) =~= b.unwrap());
        assert(a.unwrap() == b.unwrap());
    } else if a is Some {
        assert(stamp_part(a).len() >= 1);
    } else if b is Some {
        assert(stamp_part(b).len() >= 1);
    }
}

/// The cache key parts contributed by the entries: each id, then its
/// update timestamp part.
pub open spec fn entry_key_parts(es: Seq<EntryView>) -> Seq<Seq<char>>
    decreases es.len(),
{
    if es.len() == 0 {
        Seq::<Seq<char>>::empty()
    } else {
        seq![es[0].id, stamp_part(es[0].updated_at)] + entry_key_parts(es.skip(1))
    }
}

/// The cache key parts of a prep request: the member, the calendar
/// day, and the entry set's ids and update timestamps.
pub open spec fn prep_parts(member_id: Seq<char>, day: Seq<char>, es: Seq<EntryView>) -> Seq<
    Seq<char>,
> {
    seq![member_id, day] + entry_key_parts(es)
}

/// One more entry appends its own parts.
proof fn lemma_entry_key_parts_push(es: Seq<EntryView>, x: EntryView)
    ensures
        entry_key_parts(es.push(x)) == entry_key_parts(es) + seq![
            x.id,
            stamp_part(x.updated_at),
        ],
    decreases es.len(),
{
    let head = seq![x.id, stamp_part(x.updated_at)];
    if es.len() == 0 {
        assert(es.push(x).skip(1) =~= Seq::<EntryView>::empty());
        assert(es.push(x)[0] == x);
        assert(entry_key_parts(Seq::<EntryView>::empty()) == Seq::<Seq<char>>::empty());
        assert(entry_key_parts(es) == Seq::<Seq<char>>::empty());
        assert(entry_key_parts(es.push(x)) == head + Seq::<Seq<char>>::empty());
        assert(head + Seq::<Seq<char>>::empty() =~= Seq::<Seq<char>>::empty() + head);
    } else {
        assert(es.push(x).skip(1) =~= es.skip(1).push(x));
        lemma_entry_key_parts_push(es.skip(1), x);
        assert(entry_key_parts(es.push(x)) =~= entry_key_parts(es) + head);
    }
}

/// Builds the cache key of a prep request for this member, day and
/// entry set.
pub fn prep_cache_key(member_id: &str, day: &str, entries: &Vec<Entry>) -> (r: String)
    ensures
        r@ == enc_string_list(prep_parts(member_id@, day@, entries.deep_view())),
{
    let ghost es = entries.deep_view();
    let mut parts: Vec<String> = Vec::new();
    parts.push(String::from_str(member_id));
    parts.push(String::from_str(day));
    proof {
        assert(entry_key_parts(es.take(0)) =~= Seq::<Seq<char>>::empty());
        assert(parts.deep_view() =~= seq![member_id@, day@] + entry_key_parts(es.take(0)));
    }
    let mut i: usize = 0;
    while i < entries.len()
        invariant
            0 <= i <= entries@.len(),
            es == entries.deep_view(),
            parts.deep_view() == seq![member_id@, day@] + entry_key_parts(es.take(i as int)),
        decreases entries@.len() - i,
    {
        let ghost prevv = parts@;
        let ghost prev = parts.deep_view();
        parts.push(entries[i].id.clone());
        proof {
            assert forall|k: int| 0 <= k < prev.len() implies parts.deep_view()[k] == prev[k] by {
                assert(parts@[k] == prevv[k]);
            }
            assert(prev.len() == prevv.len());
            assert(parts.deep_view()[prev.len() as int] == parts@[prev.len() as int].deep_view());
            assert(parts.deep_view() =~= prev.push(es[i as int].id));
        }
        let ghost prevv2 = parts@;
        let ghost prev2 = parts.deep_view();
        let stamp: String = match &entries[i].updated_at {
            Some(u) => {
                let mut s = String::new();
                s.append("u");
                s.append(u.as_str());
                s
            },
            None => String::new(),
        };
        proof {
            reveal_strlit("u");
            assert(stamp@ =~= stamp_part(es[i as int].updated_at));
        }
        parts.push(stamp);
        proof {
            assert forall|k: int| 0 <= k < prev2.len() implies parts.deep_view()[k] == prev2[k] by {
                assert(parts@[k] == prevv2[k]);
            }
            assert(prev2.len() == prevv2.len());
            assert(parts.deep_view()[prev2.len() as int] == parts@[prev2.len() as int]
                .deep_view());
            assert(parts.deep_view() =~= prev2.push(stamp_part(es[i as int].updated_at)));
        }
        proof {
            assert(es.take(i + 1 as int) =~= es.take(i as int).push(es[i as int]));
            lemma_entry_key_parts_push(es.take(i as int), es[i as int]);
            assert(parts.deep_view() =~= seq![member_id@, day@] + entry_key_parts(
                es.take(i + 1 as int),
            ));
        }
        i = i + 1;
    }
    proof {
        assert(es.take(es.len() as int) =~= es);
    }
    cache_key(&parts)
}

/// The parts are two per entry.
proof fn lemma_entry_key_parts_len(es: Seq<EntryView>)
    ensures
        entry_key_parts(es).len() == 2 * es.len(),
    decreases es.len(),
{
    if es.len() > 0 {
        lemma_entry_key_parts_len(es.skip(1));
    }
}

/// The parts pin the ids and update timestamps exactly.
proof fn lemma_entry_key_parts_pin(e1: Seq<EntryView>, e2: Seq<EntryView>)
    requires
        entry_key_parts(e1) == entry_key_parts(e2),
    ensures
        e1.len() == e2.len(),
        forall|k: int|
            0 <= k < e1.len() ==> (#[trigger] e1[k]).id == e2[k].id && e1[k].updated_at
                == e2[k].updated_at,
    decreases e1.len(),
{
    lemma_entry_key_parts_len(e1);
    lemma_entry_key_parts_len(e2);
    if e1.len() > 0 {
        let p1 = entry_key_parts(e1);
        let p2 = entry_key_parts(e2);
        assert(p1[0] == e1[0].id && p1[1] == stamp_part(e1[0].updated_at));
        assert(p2[0] == e2[0].id && p2[1] == stamp_part(e2[0].updated_at));
        lemma_stamp_part_injective(e1[0].updated_at, e2[0].updated_at);
        assert(p1.skip(2) =~= entry_key_parts(e1.skip(1)));
        assert(p2.skip(2) =~= entry_key_parts(e2.skip(1)));
        lemma_entry_key_parts_pin(e1.skip(1), e2.skip(1));
        assert forall|k: int|
            0 <= k < e1.len() implies (#[trigger] e1[k]).id == e2[k].id && e1[k].updated_at
            == e2[k].updated_at by {
            if k > 0 {
                assert(e1.skip(1)[k - 1] == e1[k]);
                assert(e2.skip(1)[k - 1] == e2[k]);
            }
        }
    }
}

/// The prep cache key changes exactly when the member, the calendar
/// day, or the entry set's ids and update timestamps change.
pub proof fn lemma_prep_key_pins_inputs(
    m1: Seq<char>,
    d1: Seq<char>,
    e1: Seq<EntryView>,
    m2: Seq<char>,
    d2: Seq<char>,
    e2: Seq<EntryView>,
)
    ensures
        enc_string_list(prep_parts(m1, d1, e1)) == enc_string_list(prep_parts(m2, d2, e2)) <==> {
            &&& m1 == m2
            &&& d1 == d2
            &&& e1.len() == e2.len()
            &&& forall|k: int|
                0 <= k < e1.len() ==> (#[trigger] e1[k]).id == e2[k].id && e1[k].updated_at
                    == e2[k].updated_at
        },
{
    if enc_string_list(prep_parts(m1, d1, e1)) == enc_string_list(prep_parts(m2, d2, e2)) {
        lemma_cache_key_injective(prep_parts(m1, d1, e1), prep_parts(m2, d2, e2));
        let p1 = prep_parts(m1, d1, e1);
        let p2 = prep_parts(m2, d2, e2);
        assert(p1[0] == m1 && p1[1] == d1);
        assert(p2[0] == m2 && p2[1] == d2);
        assert(p1.skip(2) =~= entry_key_parts(e1));
        assert(p2.skip(2) =~= entry_key_parts(e2));
        lemma_entry_key_parts_pin(e1, e2);
    }
    if m1 == m2 && d1 == d2 && e1.len() == e2.len() && (forall|k: int|
        0 <= k < e1.len() ==> (#[trigger] e1[k]).id == e2[k].id && e1[k].updated_at
            == e2[k].updated_at) {
        lemma_entry_key_parts_same(e1, e2);
        assert(prep_parts(m1, d1, e1) == prep_parts(m2, d2, e2));
    }
}

/// Entries that agree on ids and update timestamps contribute the
/// same parts.
proof fn lemma_entry_key_parts_same(e1: Seq<EntryView>, e2: Seq<EntryView>)
    requires
        e1.len() == e2.len(),
        forall|k: int|
            0 <= k < e1.len() ==> (#[trigger] e1[k]).id == e2[k].id && e1[k].updated_at
                == e2[k].updated_at,
    ensures
        entry_key_parts(e1) == entry_key_parts(e2),
    decreases e1.len(),
{
    if e1.len() > 0 {
        assert(e1[0].id == e2[0].id && e1[0].updated_at == e2[0].updated_at);
        assert forall|k: int|
            0 <= k < e1.skip(1).len() implies (#[trigger] e1.skip(1)[k]).id == e2.skip(1)[k].id
            && e1.skip(1)[k].updated_at == e2.skip(1)[k].updated_at by {
            assert(e1.skip(1)[k] == e1[k + 1]);
            assert(e2.skip(1)[k] == e2[k + 1]);
        }
        lemma_entry_key_parts_same(e1.skip(1), e2.skip(1));
    }
}

/// How a prep request is answered: the member is unknown; they have
/// no entries yet, and the fixed placeholder with empty aggregates
/// answers without any model call; a cached briefing answers; or a
/// model call with this prompt is needed, to be finished under this
/// key.
pub enum PrepOutcome {
    MemberNotFound,
    NoEntries(PrepResponse),
    Cached(PrepResponse),
    NeedsCall { key: String, prompt: String, base: PrepResponse },
}

/// The newest entries a prep briefing aggregates: one member's, at
/// most five.
pub open spec fn prep_entries(es: Seq<EntryView>, member_id: Seq<char>) -> Seq<EntryView> {
    let f = es.filter(crate::store::entry_belongs_to(member_id));
    f.take(
        if 5 <= f.len() {
            5int
        } else {
            f.len() as int
        },
    )
}

/// Whether a response carries exactly these aggregates.
pub open spec fn carries_aggregates(r: PrepResponse, es: Seq<EntryView>) -> bool {
    &&& r.open_items_mine.deep_view() == crate::prep::open_mine(es)
    &&& r.open_items_theirs.deep_view() == crate::prep::open_theirs(es)
    &&& r.unresolved_blockers.deep_view() == crate::prep::all_blockers(es)
    &&& r.morale_scores.deep_view() == crate::prep::morale_points(es)
    &&& r.growth_scores.deep_view() == crate::prep::growth_points(es)
    &&& crate::prep::tags_tallied(r.recent_tags.deep_view(), es)
}

/// Decides a prep request for this member on this calendar day. A
/// cached briefing under the fingerprint of (member, day, entry ids
/// and update timestamps) answers the request unless `force` is set,
/// which always bypasses the cache; the structured aggregates are
/// computed fresh either way. A member with no entries gets the fixed
/// placeholder and empty aggregates, and no model call.
pub fn prep_request(store: &Store, member_id: &str, today: &str, force: bool) -> (r: PrepOutcome)
    requires
        store.wf(),
    ensures
        ({
            let ms = store.members.deep_view();
            let cs = store.cache.deep_view();
            let es5 = prep_entries(store.entries.deep_view(), member_id@);
            let key = enc_string_list(prep_parts(member_id@, today@, es5));
            match r {
                PrepOutcome::MemberNotFound => !has_member(ms, member_id@),
                PrepOutcome::NoEntries(resp) => {
                    &&& has_member(ms, member_id@)
                    &&& es5.len() == 0
                    &&& resp.briefing@ == ("No entries yet for this team member.")@
                    &&& carries_aggregates(resp, es5)
                },
                PrepOutcome::Cached(resp) => {
                    &&& has_member(ms, member_id@)
                    &&& es5.len() > 0
                    &&& !force
                    &&& has_cache(cs, key, ("prep")@)
                    &&& resp.briefing@ == cs[cache_index(cs, key, ("prep")@)].value
                    &&& carries_aggregates(resp, es5)
                },
                PrepOutcome::NeedsCall { key: k, prompt, base } => {
                    &&& has_member(ms, member_id@)
                    &&& es5.len() > 0
                    &&& (force || !has_cache(cs, key, ("prep")@))
                    &&& k@ == key
                    &&& prompt@ == crate::prompt::prep_prompt(
                        ms[crate::store::member_index(ms, member_id@)].name,
                        es5,
                    )
                    &&& base.briefing@.len() == 0
                    &&& carries_aggregates(base, es5)
                },
            }
        }),
{
    let name = match store.get_member_name(member_id) {
        Some(n) => n,
        None => {
            return PrepOutcome::MemberNotFound;
        },
    };
    let entries = store.get_entries_limited(member_id, 5);
    let agg = crate::prep::compute_structured_prep(&entries);
    proof {
        assert(entries.deep_view() == prep_entries(store.entries.deep_view(), member_id@));
    }
    if entries.len() == 0 {
        let resp = assemble_response(String::from_str("No entries yet for this team member."), agg);
        return PrepOutcome::NoEntries(resp);
    }
    let key = prep_cache_key(member_id, today, &entries);
    if !force {
        if let Some(v) = store.cache_get(key.as_str(), "prep") {
            let resp = assemble_response(v, agg);
            return PrepOutcome::Cached(resp);
        }
    }
    let prompt = crate::prompt::build_prep_prompt(name.as_str(), &entries);
    let base = assemble_response(String::new(), agg);
    PrepOutcome::NeedsCall { key, prompt, base }
}

/// Puts a briefing text in front of the computed aggregates.
fn assemble_response(briefing: String, agg: crate::types::PrepAggregates) -> (r: PrepResponse)
    ensures
        r.briefing == briefing,
        r.open_items_mine == agg.open_items_mine,
        r.open_items_theirs == agg.open_items_theirs,
        r.recent_tags == agg.recent_tags,
        r.unresolved_blockers == agg.unresolved_blockers,
        r.morale_scores == agg.morale_scores,
        r.growth_scores == agg.growth_scores,
{
    PrepResponse {
        briefing,
        open_items_mine: agg.open_items_mine,
        open_items_theirs: agg.open_items_theirs,
        recent_tags: agg.recent_tags,
        unresolved_blockers: agg.unresolved_blockers,
        morale_scores: agg.morale_scores,
        growth_scores: agg.growth_scores,
    }
}

/// Finishes a prep request with the model's answer, or with its
/// failure: the briefing becomes the trimmed answer, or the fixed
/// fallback line, and is memoized under the request's key either way.
/// The aggregates pass through untouched.
pub fn prep_finish(
    store: &mut Store,
    key: &str,
    base: PrepResponse,
    ai_text: Option<&str>,
    now: &str,
) -> (r: PrepResponse)
    requires
        old(store).wf(),
    ensures
        final(store).wf(),
        final(store).members@ == old(store).members@,
        final(store).entries@ == old(store).entries@,
        (match ai_text {
            Some(t) => r.briefing@ == crate::prompt::trimmed(t@),
            None => r.briefing@ == (
            "Failed to generate AI briefing. Showing structured data only.")@,
        }),
        r.open_items_mine == base.open_items_mine,
        r.open_items_theirs == base.open_items_theirs,
        r.recent_tags == base.recent_tags,
        r.unresolved_blockers == base.unresolved_blockers,
        r.morale_scores == base.morale_scores,
        r.growth_scores == base.growth_scores,
        ({
            let cs = old(store).cache.deep_view();
            let rec = (CacheRecordView {
                key: key@,
                category: ("prep")@,
                value: r.briefing@,
                created_at: now@,
            });
            final(store).cache.deep_view() == (if has_cache(cs, key@, ("prep")@) {
                cs.update(cache_index(cs, key@, ("prep")@), rec)
            } else {
                cs.push(rec)
            })
        }),
{
    let briefing = match ai_text {
        Some(t) => String::from_str(crate::prompt::trim_str(t)),
        None => String::from_str("Failed to generate AI briefing. Showing structured data only."),
    };
    store.cache_set(key, "prep", briefing.as_str(), now);
    let PrepResponse {
        briefing: _,
        open_items_mine,
        open_items_theirs,
        recent_tags,
        unresolved_blockers,
        morale_scores,
        growth_scores,
    } = base;
    PrepResponse {
        briefing,
        open_items_mine,
        open_items_theirs,
        recent_tags,
        unresolved_blockers,
        morale_scores,
        growth_scores,
    }
}

} // verus!
