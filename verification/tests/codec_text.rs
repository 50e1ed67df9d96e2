use people_journal::codec::{
    decode_action_list, decode_string_list, encode_action_list, encode_string_list,
};
use people_journal::ext::{json_is_valid, now_rfc3339, today_utc};
use people_journal::prompt::{
    build_extraction_prompt, chat_request_body, build_prep_prompt, i64_digits,
    openai_request_body, strip_markdown_fences, trim_str,
};
use people_journal::strutil::{str_eq, str_le, u64_to_string};
use people_journal::types::{ActionItem, Entry};

fn entry_with_everything() -> Entry {
    Entry {
        id: "entry-1".to_string(),
        member_id: "member-1".to_string(),
        date: "2024-01-02".to_string(),
        summary: Some("Shipped the migration".to_string()),
        morale_score: Some(4),
        growth_score: Some(3),
        morale_rationale: Some("upbeat".to_string()),
        growth_rationale: None,
        tags: vec!["wins".to_string(), "morale".to_string()],
        action_items_mine: vec![
            ActionItem { text: "send doc".to_string(), completed: false },
            ActionItem { text: "book room".to_string(), completed: true },
        ],
        action_items_theirs: vec![ActionItem { text: "write rfc".to_string(), completed: false }],
        notable_quotes: vec!["it finally works".to_string()],
        blockers: vec!["waiting on review".to_string()],
        wins: vec!["migration done".to_string()],
        private_note: None,
        transcript: None,
        created_at: Some("t".to_string()),
        updated_at: Some("t".to_string()),
    }
}

#[test]
fn string_list_exact_encoding() {
    assert_eq!(encode_string_list(&vec![]), "[]");
    assert_eq!(encode_string_list(&vec!["a".to_string()]), "[\"a\"]");
    assert_eq!(
        encode_string_list(&vec!["a\"b".to_string(), "c\\d".to_string()]),
        "[\"a\\\"b\",\"c\\\\d\"]"
    );
}

#[test]
fn string_list_round_trip() {
    // Any list serialized to its column text reads back as an equal
    // ordered sequence.
    let cases: Vec<Vec<String>> = vec![
        vec![],
        vec!["".to_string()],
        vec!["wins".to_string(), "morale".to_string()],
        vec!["quote: \"done\"".to_string(), "back\\slash".to_string(), "".to_string()],
        vec!["commas, [brackets], {braces}".to_string()],
    ];
    for v in cases {
        let text = encode_string_list(&v);
        assert_eq!(decode_string_list(&text), Some(v));
    }
}

#[test]
fn string_list_rejects_malformed() {
    assert_eq!(decode_string_list(""), None);
    assert_eq!(decode_string_list("null"), None);
    assert_eq!(decode_string_list("["), None);
    assert_eq!(decode_string_list("[\"a\""), None);
    assert_eq!(decode_string_list("[\"a\"]x"), None);
    assert_eq!(decode_string_list("[\"a\",]"), None);
}

#[test]
fn action_list_exact_encoding() {
    let v = vec![
        ActionItem { text: "send doc".to_string(), completed: false },
        ActionItem { text: "ship \"v2\"".to_string(), completed: true },
    ];
    assert_eq!(
        encode_action_list(&v),
        "[{\"text\":\"send doc\",\"completed\":false},{\"text\":\"ship \\\"v2\\\"\",\"completed\":true}]"
    );
}

#[test]
fn action_list_round_trip() {
    let cases: Vec<Vec<ActionItem>> = vec![
        vec![],
        vec![ActionItem { text: "".to_string(), completed: true }],
        vec![
            ActionItem { text: "a\\b".to_string(), completed: false },
            ActionItem { text: "c\"d".to_string(), completed: true },
        ],
    ];
    for v in cases {
        let text = encode_action_list(&v);
        assert_eq!(decode_action_list(&text), Some(v));
    }
}

#[test]
fn action_list_rejects_malformed() {
    assert_eq!(decode_action_list("{}"), None);
    assert_eq!(decode_action_list("[{\"text\":\"a\"}]"), None);
    assert_eq!(decode_action_list("[{\"completed\":true,\"text\":\"a\"}]"), None);
}

#[test]
fn string_helpers() {
    assert!(str_eq("abc", "abc"));
    assert!(!str_eq("abc", "abd"));
    assert!(str_le("2024-01-01", "2024-01-02"));
    assert!(!str_le("2024-01-02", "2024-01-01"));
    assert!(str_le("abc", "abcd"));
    assert_eq!(u64_to_string(0), "0");
    assert_eq!(u64_to_string(12034), "12034");
    assert_eq!(i64_digits(-5), "-5");
    assert_eq!(i64_digits(42), "42");
}

#[test]
fn fence_stripping() {
    assert_eq!(strip_markdown_fences("```json\n{\"x\":1}\n```"), "{\"x\":1}");
    assert_eq!(strip_markdown_fences("  {\"x\":1}  "), "{\"x\":1}");
    assert_eq!(strip_markdown_fences("```\nplain\n```"), "plain");
    assert_eq!(strip_markdown_fences("no fences"), "no fences");
    assert_eq!(trim_str("\t a b \n"), "a b");
}

#[test]
fn extraction_prompt_embeds_inputs() {
    let p = build_extraction_prompt("Ada", "the transcript body");
    assert!(p.starts_with(
        "You are helping an engineering manager process a 1:1 meeting transcript with their report named Ada."
    ));
    assert!(p.ends_with("Here is the transcript:\n\nthe transcript body"));
    assert!(p.contains("\"action_items_theirs\": [\"action items for Ada\"],"));
    assert!(p.contains("career growth, blockers, wins,"));
}

#[test]
fn prep_prompt_renders_entry_blocks() {
    let p = build_prep_prompt("Ada", &vec![entry_with_everything()]);
    assert!(p.starts_with(
        "You are helping an engineering manager prepare for a 1:1 meeting with Ada. Below are the last 1 meeting entries (newest first)."
    ));
    assert!(p.contains("--- Entry 1 (2024-01-02) ---\n"));
    assert!(p.contains("Summary: Shipped the migration\n"));
    assert!(p.contains("Morale: 4/5 (upbeat)\n"));
    assert!(p.contains("Growth: 3/5\n"));
    assert!(p.contains("Tags: wins, morale\n"));
    assert!(p.contains("My action items:\n  [ ] send doc\n  [x] book room\n"));
    assert!(p.contains("Ada's action items:\n  [ ] write rfc\n"));
    assert!(p.contains("Blockers: waiting on review\n"));
    assert!(p.contains("Wins: migration done\n"));
    assert!(p.contains("Notable quotes: it finally works\n"));
}

#[test]
fn request_bodies_are_exact_json() {
    assert_eq!(
        chat_request_body("m-1", "hi"),
        "{\"model\":\"m-1\",\"max_tokens\":1000,\"messages\":[{\"role\":\"user\",\"content\":\"hi\"}]}"
    );
    let body = openai_request_body("say \"hi\"");
    assert!(body.starts_with("{\"model\":\"gpt-4o\","));
    assert!(body.contains("\"content\":\"say \\\"hi\\\"\""));
    assert!(json_is_valid(&body));
}

#[test]
fn request_bodies_escape_control_characters() {
    // prompts carry newlines; the body must still parse as JSON
    assert_eq!(
        chat_request_body("m-1", "a\nb\tc\r\u{1}"),
        "{\"model\":\"m-1\",\"max_tokens\":1000,\"messages\":[{\"role\":\"user\",\"content\":\"a\\nb\\tc\\r\\u0001\"}]}"
    );
    let body = openai_request_body("line one\nline two");
    assert!(json_is_valid(&body));
    let multi = openai_request_body("name: Ada\n\ntranscript:\n\u{1f}\\end\"");
    assert!(json_is_valid(&multi));
}

#[test]
fn trusted_boundary_behaves() {
    assert!(json_is_valid("{\"a\":[1,2]}"));
    assert!(!json_is_valid("not json"));
    assert!(!now_rfc3339().is_empty());
    assert!(!today_utc().is_empty());
}
