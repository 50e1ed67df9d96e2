use people_journal::commands::{
    choose_provider, extract_request, extract_finish, prep_cache_key, prep_request, prep_finish,
    ExtractError, ExtractOutcome, PrepOutcome,
};
use people_journal::prep::compute_structured_prep;
use people_journal::store::Store;
use people_journal::types::{get_config, ActionItem, EntryInput, EntryPatch, Provider};

fn input_for(member_id: &str, date: &str) -> EntryInput {
    EntryInput {
        id: None,
        member_id: member_id.to_string(),
        date: Some(date.to_string()),
        summary: None,
        morale_score: None,
        growth_score: None,
        morale_rationale: None,
        growth_rationale: None,
        tags: vec![],
        action_items_mine: vec![],
        action_items_theirs: vec![],
        notable_quotes: vec![],
        blockers: vec![],
        wins: vec![],
        private_note: None,
        transcript: None,
    }
}

fn store_with_member(millis: u64) -> (Store, String) {
    let mut store = Store::new();
    let m = store
        .create_team_member("Ada", "Engineer", "#123456", millis)
        .expect("fresh id");
    let id = m.id.clone();
    (store, id)
}

#[test]
fn create_member_defaults() {
    let mut store = Store::new();
    let m = store.create_team_member("", "", "", 7).expect("fresh id");
    assert_eq!(m.id, "member-7");
    assert_eq!(m.name, "New Member");
    assert_eq!(m.role, "Engineer");
    assert_eq!(m.color, "#888888");
    assert_eq!(m.jira_account_id, None);
    assert_eq!(m.prep_notes, None);
    let team = store.get_team_members();
    assert_eq!(team.len(), 1);
    assert_eq!(team[0], m);
}

#[test]
fn create_member_duplicate_id_refused() {
    let mut store = Store::new();
    assert!(store.create_team_member("A", "B", "C", 7).is_some());
    assert!(store.create_team_member("D", "E", "F", 7).is_none());
    assert_eq!(store.get_team_members().len(), 1);
}

#[test]
fn update_member_keeps_prep_notes() {
    let (mut store, id) = store_with_member(1);
    assert!(store.update_prep_notes(&id, "watch for burnout"));
    let m = store
        .update_team_member(&id, "Ada L.", "Staff", "#000000", Some("jira-1"))
        .expect("member exists");
    assert_eq!(m.name, "Ada L.");
    assert_eq!(m.role, "Staff");
    assert_eq!(m.color, "#000000");
    assert_eq!(m.jira_account_id, Some("jira-1".to_string()));
    assert_eq!(m.prep_notes, Some("watch for burnout".to_string()));
    assert!(store.update_team_member("member-none", "x", "y", "z", None).is_none());
}

#[test]
fn update_prep_notes_empty_clears() {
    let (mut store, id) = store_with_member(1);
    assert!(store.update_prep_notes(&id, "note"));
    assert!(store.update_prep_notes(&id, ""));
    let team = store.get_team_members();
    assert_eq!(team[0].prep_notes, None);
    assert!(!store.update_prep_notes("member-none", "note"));
}

#[test]
fn create_entry_and_read_back() {
    // Creating an entry with morale 4 and two tags and reading it back
    // yields those exact values, with equal creation and update times.
    let (mut store, mid) = store_with_member(1);
    let mut input = input_for(&mid, "2024-03-01");
    input.morale_score = Some(4);
    input.tags = vec!["wins".to_string(), "morale".to_string()];
    let e = store
        .create_entry(input, "2024-03-01T10:00:00+00:00", 99)
        .expect("member exists");
    let read = store.get_entry(&e.id).expect("entry exists");
    assert_eq!(read.morale_score, Some(4));
    assert_eq!(read.tags, vec!["wins".to_string(), "morale".to_string()]);
    assert_eq!(read.created_at, Some("2024-03-01T10:00:00+00:00".to_string()));
    assert_eq!(read.created_at, read.updated_at);
    assert_eq!(read, e);
}

#[test]
fn create_entry_generated_id_and_date() {
    let (mut store, mid) = store_with_member(1);
    let mut input = input_for(&mid, "unused");
    input.date = None;
    let e = store.create_entry(input, "2024-04-05T08:00:00+00:00", 1234).expect("ok");
    assert_eq!(e.id, "entry-1234");
    assert_eq!(e.date, "2024-04-05T08:00:00+00:00");
}

#[test]
fn create_entry_unknown_member_refused() {
    let mut store = Store::new();
    let input = input_for("member-none", "2024-01-01");
    assert!(store.create_entry(input, "2024-01-01T00:00:00+00:00", 5).is_none());
    assert!(store.get_entries(None).is_empty());
}

#[test]
fn create_entry_clears_prep_notes() {
    let (mut store, mid) = store_with_member(1);
    assert!(store.update_prep_notes(&mid, "stale notes"));
    store
        .create_entry(input_for(&mid, "2024-01-01"), "2024-01-01T00:00:00+00:00", 5)
        .expect("ok");
    assert_eq!(store.get_team_members()[0].prep_notes, None);
}

#[test]
fn entries_listed_newest_first() {
    let (mut store, mid) = store_with_member(1);
    for (ms, d) in [(1u64, "2024-01-02"), (2, "2024-01-03"), (3, "2024-01-01"), (4, "2024-01-03")]
    {
        store
            .create_entry(input_for(&mid, d), "2024-01-05T00:00:00+00:00", ms)
            .expect("ok");
    }
    let all = store.get_entries(None);
    let dates: Vec<&str> = all.iter().map(|e| e.date.as_str()).collect();
    assert_eq!(dates, vec!["2024-01-03", "2024-01-03", "2024-01-02", "2024-01-01"]);
    let filtered = store.get_entries(Some(&mid));
    assert_eq!(filtered.len(), 4);
    let limited = store.get_entries_limited(&mid, 2);
    assert_eq!(limited.len(), 2);
    assert_eq!(limited[0].date, "2024-01-03");
    assert_eq!(limited[1].date, "2024-01-03");
    assert!(store.get_entries(Some("member-none")).is_empty());
}

#[test]
fn partial_update_touches_only_named_fields() {
    // Only supplied fields change; the update timestamp advances to
    // the submission time.
    let (mut store, mid) = store_with_member(1);
    let mut input = input_for(&mid, "2024-02-02");
    input.summary = Some("first".to_string());
    input.morale_score = Some(2);
    input.blockers = vec!["ci flaky".to_string()];
    let e = store.create_entry(input, "2024-02-02T09:00:00+00:00", 11).expect("ok");

    let patch = EntryPatch {
        summary: Some(Some("revised".to_string())),
        morale_score: Some(None),
        ..EntryPatch::default()
    };
    let updated = store
        .update_entry(&e.id, patch, "2024-02-03T09:00:00+00:00")
        .expect("entry exists");
    assert_eq!(updated.summary, Some("revised".to_string()));
    assert_eq!(updated.morale_score, None);
    assert_eq!(updated.blockers, vec!["ci flaky".to_string()]);
    assert_eq!(updated.date, "2024-02-02");
    assert_eq!(updated.member_id, mid);
    assert_eq!(updated.created_at, Some("2024-02-02T09:00:00+00:00".to_string()));
    assert_eq!(updated.updated_at, Some("2024-02-03T09:00:00+00:00".to_string()));
    assert_eq!(store.get_entry(&e.id).expect("still there"), updated);
}

#[test]
fn empty_update_leaves_entry_untouched() {
    let (mut store, mid) = store_with_member(1);
    let e = store
        .create_entry(input_for(&mid, "2024-02-02"), "2024-02-02T09:00:00+00:00", 11)
        .expect("ok");
    let same = store
        .update_entry(&e.id, EntryPatch::default(), "2025-01-01T00:00:00+00:00")
        .expect("entry exists");
    assert_eq!(same, e);
    assert!(store
        .update_entry("entry-none", EntryPatch::default(), "2025-01-01T00:00:00+00:00")
        .is_none());
}

#[test]
fn delete_member_cascades_to_entries() {
    // Deleting a member removes the member record and every entry that
    // references it, in one step, and nothing else.
    let (mut store, mid1) = store_with_member(1);
    let m2 = store.create_team_member("Grace", "Engineer", "#fff", 2).expect("ok");
    let mid2 = m2.id.clone();
    store.create_entry(input_for(&mid1, "2024-01-01"), "t1", 10).expect("ok");
    store.create_entry(input_for(&mid1, "2024-01-02"), "t2", 11).expect("ok");
    store.create_entry(input_for(&mid2, "2024-01-03"), "t3", 12).expect("ok");

    assert!(store.delete_team_member(&mid1));
    assert_eq!(store.get_team_members().len(), 1);
    assert_eq!(store.get_team_members()[0].id, mid2);
    let remaining = store.get_entries(None);
    assert_eq!(remaining.len(), 1);
    assert_eq!(remaining[0].member_id, mid2);
    assert!(!store.delete_team_member(&mid1));
}

#[test]
fn delete_entry_removes_only_that_entry() {
    let (mut store, mid) = store_with_member(1);
    let e1 = store.create_entry(input_for(&mid, "2024-01-01"), "t1", 10).expect("ok");
    let e2 = store.create_entry(input_for(&mid, "2024-01-02"), "t2", 11).expect("ok");
    assert!(store.delete_entry(&e1.id));
    assert!(!store.delete_entry(&e1.id));
    let remaining = store.get_entries(None);
    assert_eq!(remaining.len(), 1);
    assert_eq!(remaining[0].id, e2.id);
}

#[test]
fn cache_set_then_get_and_replace() {
    let mut store = Store::new();
    assert_eq!(store.cache_get("k", "extract"), None);
    store.cache_set("k", "extract", "v1", "t1");
    assert_eq!(store.cache_get("k", "extract"), Some("v1".to_string()));
    assert_eq!(store.cache_get("k", "prep"), None);
    store.cache_set("k", "extract", "v2", "t2");
    assert_eq!(store.cache_get("k", "extract"), Some("v2".to_string()));
}

#[test]
fn structured_prep_aggregates() {
    let (mut store, mid) = store_with_member(1);
    let mut a = input_for(&mid, "2024-01-02");
    a.morale_score = Some(4);
    a.growth_score = Some(3);
    a.tags = vec!["wins".to_string(), "morale".to_string()];
    a.blockers = vec!["waiting on review".to_string()];
    a.action_items_mine = vec![
        ActionItem { text: "send doc".to_string(), completed: false },
        ActionItem { text: "done thing".to_string(), completed: true },
    ];
    store.create_entry(a, "t1", 10).expect("ok");
    let mut b = input_for(&mid, "2024-01-01");
    b.morale_score = Some(2);
    b.tags = vec!["wins".to_string()];
    b.action_items_theirs = vec![ActionItem { text: "write rfc".to_string(), completed: false }];
    store.create_entry(b, "t2", 11).expect("ok");

    let entries = store.get_entries_limited(&mid, 5);
    let agg = compute_structured_prep(&entries);
    assert_eq!(agg.open_items_mine.len(), 1);
    assert_eq!(agg.open_items_mine[0].text, "send doc");
    assert_eq!(agg.open_items_mine[0].date, "2024-01-02");
    assert_eq!(agg.open_items_theirs.len(), 1);
    assert_eq!(agg.open_items_theirs[0].text, "write rfc");
    assert_eq!(agg.unresolved_blockers, vec!["waiting on review".to_string()]);
    assert_eq!(agg.morale_scores.len(), 2);
    assert_eq!(agg.morale_scores[0].score, 4);
    assert_eq!(agg.morale_scores[1].score, 2);
    assert_eq!(agg.growth_scores.len(), 1);
    assert_eq!(agg.growth_scores[0].score, 3);
    let tags: Vec<(String, usize)> =
        agg.recent_tags.iter().map(|t| (t.tag.clone(), t.count)).collect();
    // most frequent first
    assert_eq!(tags, vec![("wins".to_string(), 2), ("morale".to_string(), 1)]);
}

#[test]
fn provider_chosen_by_usable_credential() {
    assert_eq!(choose_provider(&None, &None), None);
    assert_eq!(choose_provider(&Some("".to_string()), &None), None);
    assert_eq!(choose_provider(&Some("your-key-here".to_string()), &None), None);
    assert_eq!(
        choose_provider(&Some("SECRET-REDACTED".to_string()), &Some("k2".to_string())),
        Some(Provider::Anthropic)
    );
    assert_eq!(
        choose_provider(&Some("your-key-here".to_string()), &Some("k2".to_string())),
        Some(Provider::OpenAi)
    );
}

#[test]
fn from_rows_checks_the_data_rules() {
    let (store, mid) = store_with_member(1);
    let members = store.get_team_members();
    let ok = Store::from_rows(members.clone(), vec![], vec![]).expect("well formed");
    assert_eq!(ok.get_team_members().len(), 1);

    // an entry referencing a missing member is refused
    let stray = {
        let (mut s2, mid2) = store_with_member(2);
        let e = s2.create_entry(input_for(&mid2, "2024-01-01"), "t", 9).expect("ok");
        s2.get_entry(&e.id).expect("there")
    };
    assert!(Store::from_rows(members.clone(), vec![stray], vec![]).is_none());

    // duplicate member ids are refused
    let dup = vec![members[0].clone(), members[0].clone()];
    assert!(Store::from_rows(dup, vec![], vec![]).is_none());

    // entries out of date order are refused
    let mut s3 = Store::new();
    let m3 = s3.create_team_member("A", "B", "C", 1).expect("ok");
    s3.create_entry(input_for(&m3.id, "2024-01-01"), "t", 10).expect("ok");
    s3.create_entry(input_for(&m3.id, "2024-01-02"), "t", 11).expect("ok");
    let mut es = s3.get_entries(None);
    es.reverse();
    assert!(Store::from_rows(s3.get_team_members(), es, vec![]).is_none());
    let _ = mid;
}

#[test]
fn prep_for_member_without_entries_uses_placeholder() {
    // A member with zero entries gets the fixed placeholder text and
    // empty aggregates, and no model call is asked for.
    let (store, mid) = store_with_member(1);
    match prep_request(&store, &mid, "2024-05-06", false) {
        PrepOutcome::NoEntries(resp) => {
            assert_eq!(resp.briefing, "No entries yet for this team member.");
            assert!(resp.open_items_mine.is_empty());
            assert!(resp.open_items_theirs.is_empty());
            assert!(resp.recent_tags.is_empty());
            assert!(resp.unresolved_blockers.is_empty());
            assert!(resp.morale_scores.is_empty());
            assert!(resp.growth_scores.is_empty());
        }
        _ => panic!("expected the placeholder outcome"),
    }
}

#[test]
fn prep_unknown_member() {
    let store = Store::new();
    assert!(matches!(
        prep_request(&store, "member-none", "2024-05-06", false),
        PrepOutcome::MemberNotFound
    ));
}

#[test]
fn prep_briefing_cached_by_day_and_entries() {
    let (mut store, mid) = store_with_member(1);
    store.create_entry(input_for(&mid, "2024-01-01"), "t1", 10).expect("ok");

    let (key, prompt, base) = match prep_request(&store, &mid, "2024-05-06", false) {
        PrepOutcome::NeedsCall { key, prompt, base } => (key, prompt, base),
        _ => panic!("nothing cached yet"),
    };
    assert!(prompt.contains("Ada"));
    let resp = prep_finish(&mut store, &key, base, Some("  - follow up\n"), "t2");
    assert_eq!(resp.briefing, "- follow up");

    // The same day and entry set is answered from the cache.
    match prep_request(&store, &mid, "2024-05-06", false) {
        PrepOutcome::Cached(r2) => assert_eq!(r2.briefing, "- follow up"),
        _ => panic!("expected the cached briefing"),
    }
    // Another day misses the cache.
    assert!(matches!(
        prep_request(&store, &mid, "2024-05-07", false),
        PrepOutcome::NeedsCall { .. }
    ));
    // Forcing a refresh always bypasses the cache.
    assert!(matches!(
        prep_request(&store, &mid, "2024-05-06", true),
        PrepOutcome::NeedsCall { .. }
    ));
    // Changing the entry set changes the key.
    store.create_entry(input_for(&mid, "2024-01-02"), "t3", 11).expect("ok");
    assert!(matches!(
        prep_request(&store, &mid, "2024-05-06", false),
        PrepOutcome::NeedsCall { .. }
    ));
}

#[test]
fn prep_finish_failure_uses_fallback_text() {
    let (mut store, mid) = store_with_member(1);
    store.create_entry(input_for(&mid, "2024-01-01"), "t1", 10).expect("ok");
    let (key, _prompt, base) = match prep_request(&store, &mid, "2024-05-06", false) {
        PrepOutcome::NeedsCall { key, prompt, base } => (key, prompt, base),
        _ => panic!("nothing cached yet"),
    };
    let resp = prep_finish(&mut store, &key, base, None, "t2");
    assert_eq!(resp.briefing, "Failed to generate AI briefing. Showing structured data only.");
}

#[test]
fn prep_cache_key_deterministic() {
    let (mut store, mid) = store_with_member(1);
    store.create_entry(input_for(&mid, "2024-01-01"), "t1", 10).expect("ok");
    let entries = store.get_entries_limited(&mid, 5);
    let k1 = prep_cache_key(&mid, "2024-05-06", &entries);
    let k2 = prep_cache_key(&mid, "2024-05-06", &entries);
    let k3 = prep_cache_key(&mid, "2024-05-07", &entries);
    assert_eq!(k1, k2);
    assert_ne!(k1, k3);
}

#[test]
fn extraction_cached_on_second_call() {
    // Two extraction requests with the same member name and transcript:
    // the second is answered from the cache with the identical JSON
    // text and asks for no model call.
    let mut store = Store::new();
    let (key, prompt) = match extract_request(&store, "Ada", "we shipped it") {
        ExtractOutcome::NeedsCall { key, prompt } => (key, prompt),
        _ => panic!("nothing cached yet"),
    };
    assert!(prompt.contains("Ada"));
    assert!(prompt.contains("we shipped it"));

    let stored = extract_finish(&mut store, &key, "```json\n{\"summary\":\"ok\"}\n```", "t1")
        .expect("valid json");
    assert_eq!(stored, "{\"summary\":\"ok\"}");

    match extract_request(&store, "Ada", "we shipped it") {
        ExtractOutcome::Cached(v) => assert_eq!(v, "{\"summary\":\"ok\"}"),
        _ => panic!("expected the cached extraction"),
    }
    // A different transcript is a different key.
    assert!(matches!(
        extract_request(&store, "Ada", "another meeting"),
        ExtractOutcome::NeedsCall { .. }
    ));
}

#[test]
fn extraction_rejects_bad_json() {
    let mut store = Store::new();
    let (key, _prompt) = match extract_request(&store, "Ada", "notes") {
        ExtractOutcome::NeedsCall { key, prompt } => (key, prompt),
        _ => panic!("nothing cached yet"),
    };
    let r = extract_finish(&mut store, &key, "sorry, I cannot do that", "t1");
    assert_eq!(r, Err(ExtractError::InvalidJson));
    // Nothing was stored, so the next request still needs a call.
    assert!(matches!(
        extract_request(&store, "Ada", "notes"),
        ExtractOutcome::NeedsCall { .. }
    ));
}

#[test]
fn config_reports_no_tracker() {
    assert!(!get_config().jira_configured);
}
