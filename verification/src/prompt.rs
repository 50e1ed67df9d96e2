//! Prompt construction for the language-model calls: the fixed
//! extraction template a transcript is embedded into, the prep
//! briefing template built from recent entries, the fence stripping
//! applied to model output, and the JSON request bodies the two
//! vendor APIs take.

use vstd::prelude::*;

use crate::strutil::dec_digits;
use crate::strutil::u64_to_string;
use crate::types::ActionItemView;
use crate::types::Entry;
use crate::types::EntryView;

verus! {

// ─── Joining ────────────────────────────────────────────

/// The items separated by `sep`.
pub open spec fn joined(l: Seq<Seq<char>>, sep: Seq<char>) -> Seq<char>
    decreases l.len(),
{
    if l.len() == 0 {
        Seq::<char>::empty()
    } else if l.len() == 1 {
        l[0]
    } else {
        l[0] + sep + joined(l.skip(1), sep)
    }
}

/// Joining one more item appends a separator and the item.
proof fn lemma_joined_push(l: Seq<Seq<char>>, sep: Seq<char>, x: Seq<char>)
    requires
        l.len() >= 1,
    ensures
        joined(l.push(x), sep) == joined(l, sep) + sep + x,
    decreases l.len(),
{
    if l.len() == 1 {
        assert(l.push(x).skip(1) =~= seq![x]);
        assert(l.push(x)[0] == l[0]);
        assert(joined(seq![x], sep) == x);
        assert(joined(l.push(x), sep) == l[0] + sep + x);
        assert(joined(l, sep) == l[0]);
    } else {
        assert(l.push(x).skip(1) =~= l.skip(1).push(x));
        lemma_joined_push(l.skip(1), sep, x);
        assert(joined(l.push(x), sep) =~= joined(l, sep) + sep + x);
    }
}

/// Appends the strings joined by `sep` to `out`.
fn push_joined(out: &mut String, l: &Vec<String>, sep: &str)
    ensures
        final(out)@ == old(out)@ + joined(l.deep_view(), sep@),
{
    let mut i: usize = 0;
    while i < l.len()
        invariant
            0 <= i <= l@.len(),
            out@ == old(out)@ + joined(l.deep_view().take(i as int), sep@),
        decreases l@.len() - i,
    {
        if i > 0 {
            out.append(sep);
        }
        out.append(l[i].as_str());
        proof {
            let dv = l.deep_view();
            assert(dv[i as int] == l@[i as int]@);
            if i == 0 {
                assert(dv.take(1) =~= seq![dv[0]]);
                assert(out@ =~= old(out)@ + joined(dv.take(i + 1 as int), sep@));
            } else {
                assert(dv.take(i + 1 as int) =~= dv.take(i as int).push(dv[i as int]));
                lemma_joined_push(dv.take(i as int), sep@, dv[i as int]);
                assert(out@ =~= old(out)@ + joined(dv.take(i + 1 as int), sep@));
            }
        }
        i = i + 1;
    }
    proof {
        assert(l.deep_view().take(l@.len() as int) =~= l.deep_view());
        if l.deep_view().len() == 0 {
            assert(out@ =~= old(out)@ + joined(l.deep_view(), sep@));
        }
    }
}

// ─── The extraction prompt ──────────────────────────────

/// The fixed tag vocabulary offered to the model, as one list.
pub open spec fn tag_vocabulary() -> Seq<char> {
    ("career growth, blockers, wins, feedback given, feedback received, cross-team, technical debt, hiring, process, personal, morale, autonomy, project update, conflict, learning")@
}

/// The whole extraction prompt for a member name and a transcript.
pub open spec fn extraction_prompt(name: Seq<char>, transcript: Seq<char>) -> Seq<char> {
    ("You are helping an engineering manager process a 1:1 meeting transcript with their report named ")@
        + name
        + (". Extract structured information and respond ONLY with a JSON object (no markdown, no backticks, no preamble). The JSON should have these fields:\n\n{\n  \"summary\": \"2-4 sentence summary of the key discussion points\",\n  \"tags\": [\"array of relevant tags from this list: ")@
        + tag_vocabulary()
        + ("\"],\n  \"action_items_mine\": [\"action items for the manager\"],\n  \"action_items_theirs\": [\"action items for ")@
        + name
        + ("\"],\n  \"morale_score\": <1-5 integer, your best read on their energy/morale based on tone>,\n  \"morale_rationale\": \"1-2 sentence explanation of why you gave this morale score, citing specific things from the conversation\",\n  \"growth_score\": <1-5 integer, signals of professional growth or stagnation>,\n  \"growth_rationale\": \"1-2 sentence explanation of why you gave this growth score, citing specific things from the conversation\",\n  \"notable_quotes\": [\"1-2 notable or important things ")@
        + name
        + (" said, verbatim if possible\"],\n  \"blockers\": [\"any blockers or frustrations mentioned\"],\n  \"wins\": [\"any wins, accomplishments, or positive things mentioned\"]\n}\n\nHere is the transcript:\n\n")@
        + transcript
}

/// Builds the extraction prompt for this member and transcript.
pub fn build_extraction_prompt(member_name: &str, transcript: &str) -> (r: String)
    ensures
        r@ == extraction_prompt(member_name@, transcript@),
{
    let mut r = String::new();
    r.append(
        "You are helping an engineering manager process a 1:1 meeting transcript with their report named ",
    );
    r.append(member_name);
    r.append(
        ". Extract structured information and respond ONLY with a JSON object (no markdown, no backticks, no preamble). The JSON should have these fields:\n\n{\n  \"summary\": \"2-4 sentence summary of the key discussion points\",\n  \"tags\": [\"array of relevant tags from this list: ",
    );
    r.append(
        "career growth, blockers, wins, feedback given, feedback received, cross-team, technical debt, hiring, process, personal, morale, autonomy, project update, conflict, learning",
    );
    r.append(
        "\"],\n  \"action_items_mine\": [\"action items for the manager\"],\n  \"action_items_theirs\": [\"action items for ",
    );
    r.append(member_name);
    r.append(
        "\"],\n  \"morale_score\": <1-5 integer, your best read on their energy/morale based on tone>,\n  \"morale_rationale\": \"1-2 sentence explanation of why you gave this morale score, citing specific things from the conversation\",\n  \"growth_score\": <1-5 integer, signals of professional growth or stagnation>,\n  \"growth_rationale\": \"1-2 sentence explanation of why you gave this growth score, citing specific things from the conversation\",\n  \"notable_quotes\": [\"1-2 notable or important things ",
    );
    r.append(member_name);
    r.append(
        " said, verbatim if possible\"],\n  \"blockers\": [\"any blockers or frustrations mentioned\"],\n  \"wins\": [\"any wins, accomplishments, or positive things mentioned\"]\n}\n\nHere is the transcript:\n\n",
    );
    r.append(transcript);
    proof {
        assert(r@ =~= extraction_prompt(member_name@, transcript@));
    }
    r
}

// ─── Rendering one score ────────────────────────────────

/// A possibly negative number in decimal.
pub open spec fn int_digits(n: int) -> Seq<char> {
    if n >= 0 {
        dec_digits(n as nat)
    } else {
        seq!['-'] + dec_digits((-n) as nat)
    }
}

/// Renders an `i64` in decimal, sign included.
pub fn i64_digits(n: i64) -> (r: String)
    ensures
        r@ == int_digits(n as int),
{
    if n >= 0 {
        u64_to_string(n as u64)
    } else {
        let m: u64 = if n == i64::MIN {
            9223372036854775808u64
        } else {
            (-n) as u64
        };
        let mut r = String::new();
        r.append("-");
        let digits = u64_to_string(m);
        r.append(digits.as_str());
        proof {
            reveal_strlit("-");
            assert(m as nat == (-(n as int)) as nat);
            assert(r@ =~= int_digits(n as int));
        }
        r
    }
}

// ─── The prep prompt ────────────────────────────────────

/// The instruction header of a prep prompt.
pub open spec fn prep_header(name: Seq<char>, n: nat) -> Seq<char> {
    ("You are helping an engineering manager prepare for a 1:1 meeting with ")@ + name + (
    ". Below are the last ")@ + dec_digits(n) + (
    " meeting entries (newest first). Generate a concise bullet-point briefing with these two sections:\n\n**Follow up on**\n**Watch for**\n\nFollow up on = open action items and unresolved topics to revisit.\nWatch for = morale/growth concerns or patterns worth probing.\n\nKeep bullets short and scannable. No narrative prose.\nUse this exact format — section headers as **bold text** on their own line, bullets as - dashes:\n\n**Follow up on**\n- bullet one\n- bullet two\n\n**Watch for**\n- bullet one\n\n")@
}

/// One action item as a checklist line.
pub open spec fn action_line(a: ActionItemView) -> Seq<char> {
    ("  ")@ + (if a.completed {
        ("[x]")@
    } else {
        ("[ ]")@
    }) + (" ")@ + a.text + ("\n")@
}

/// A run of checklist lines.
pub open spec fn action_lines(items: Seq<ActionItemView>) -> Seq<char>
    decreases items.len(),
{
    if items.len() == 0 {
        Seq::<char>::empty()
    } else {
        action_line(items[0]) + action_lines(items.skip(1))
    }
}

/// The numbered heading of one entry's block.
pub open spec fn block_heading(e: EntryView, idx: nat) -> Seq<char> {
    ("--- Entry ")@ + dec_digits(idx) + (" (")@ + e.date + (") ---\n")@
}

/// The summary line, where the entry has one.
pub open spec fn summary_part(e: EntryView) -> Seq<char> {
    match e.summary {
        Some(s) => ("Summary: ")@ + s + ("\n")@,
        None => Seq::<char>::empty(),
    }
}

/// A score line with its optional rationale.
pub open spec fn score_part(
    label: Seq<char>,
    score: Option<i64>,
    rationale: Option<Seq<char>>,
) -> Seq<char> {
    match score {
        Some(sc) => label + int_digits(sc as int) + ("/5")@ + (match rationale {
            Some(rat) => (" (")@ + rat + (")")@,
            None => Seq::<char>::empty(),
        }) + ("\n")@,
        None => Seq::<char>::empty(),
    }
}

/// A labelled, joined list line, where the list is nonempty.
pub open spec fn list_part(label: Seq<char>, l: Seq<Seq<char>>, sep: Seq<char>) -> Seq<char> {
    if l.len() > 0 {
        label + joined(l, sep) + ("\n")@
    } else {
        Seq::<char>::empty()
    }
}

/// A labelled checklist, where the list is nonempty.
pub open spec fn checklist_part(label: Seq<char>, items: Seq<ActionItemView>) -> Seq<char> {
    if items.len() > 0 {
        label + action_lines(items)
    } else {
        Seq::<char>::empty()
    }
}

/// One entry's block of the prep prompt, numbered from 1.
pub open spec fn entry_block(e: EntryView, name: Seq<char>, idx: nat) -> Seq<char> {
    block_heading(e, idx) + summary_part(e) + score_part(
        ("Morale: ")@,
        e.morale_score,
        e.morale_rationale,
    ) + score_part(("Growth: ")@, e.growth_score, e.growth_rationale) + list_part(
        ("Tags: ")@,
        e.tags,
        (", ")@,
    ) + checklist_part(("My action items:\n")@, e.action_items_mine) + checklist_part(
        name + ("'s action items:\n")@,
        e.action_items_theirs,
    ) + list_part(("Blockers: ")@, e.blockers, ("; ")@) + list_part(
        ("Wins: ")@,
        e.wins,
        ("; ")@,
    ) + list_part(("Notable quotes: ")@, e.notable_quotes, ("; ")@) + ("\n")@
}

/// The blocks of all entries, numbered from `idx`.
pub open spec fn entry_blocks(es: Seq<EntryView>, name: Seq<char>, idx: nat) -> Seq<char>
    decreases es.len(),
{
    if es.len() == 0 {
        Seq::<char>::empty()
    } else {
        entry_block(es[0], name, idx) + entry_blocks(es.skip(1), name, idx + 1)
    }
}

/// The whole prep prompt for a member name and their recent entries.
pub open spec fn prep_prompt(name: Seq<char>, es: Seq<EntryView>) -> Seq<char> {
    prep_header(name, es.len()) + entry_blocks(es, name, 1)
}

/// One more block extends the run at its end.
proof fn lemma_entry_blocks_push(es: Seq<EntryView>, name: Seq<char>, idx: nat, x: EntryView)
    ensures
        entry_blocks(es.push(x), name, idx) == entry_blocks(es, name, idx) + entry_block(
            x,
            name,
            idx + es.len(),
        ),
    decreases es.len(),
{
    if es.len() == 0 {
        assert(es.push(x).skip(1) =~= Seq::<EntryView>::empty());
        assert(es.push(x)[0] == x);
        assert(entry_blocks(Seq::<EntryView>::empty(), name, (idx + 1) as nat)
            == Seq::<char>::empty());
        assert(entry_blocks(es, name, idx) == Seq::<char>::empty());
        assert(entry_blocks(es.push(x), name, idx) == entry_block(x, name, idx)
            + Seq::<char>::empty());
        assert(entry_block(x, name, idx) + Seq::<char>::empty() =~= Seq::<char>::empty()
            + entry_block(x, name, idx));
    } else {
        assert(es.push(x).skip(1) =~= es.skip(1).push(x));
        lemma_entry_blocks_push(es.skip(1), name, idx + 1, x);
        assert(entry_blocks(es.push(x), name, idx) =~= entry_blocks(es, name, idx) + entry_block(
            x,
            name,
            idx + es.len(),
        ));
    }
}

/// Appends the checklist lines for these action items to `out`.
fn push_action_lines(out: &mut String, items: &Vec<crate::types::ActionItem>)
    ensures
        final(out)@ == old(out)@ + action_lines(items.deep_view()),
{
    let mut i: usize = 0;
    proof {
        assert(items.deep_view().take(0) =~= Seq::<ActionItemView>::empty());
    }
    while i < items.len()
        invariant
            0 <= i <= items@.len(),
            out@ == old(out)@ + action_lines(items.deep_view().take(i as int)),
        decreases items@.len() - i,
    {
        out.append("  ");
        if items[i].completed {
            out.append("[x]");
        } else {
            out.append("[ ]");
        }
        out.append(" ");
        out.append(items[i].text.as_str());
        out.append("\n");
        proof {
            let dv = items.deep_view();
            assert(dv[i as int] == items@[i as int].deep_view());
            assert(dv.take(i + 1 as int) =~= dv.take(i as int).push(dv[i as int]));
            lemma_action_lines_push(dv.take(i as int), dv[i as int]);
            assert(out@ =~= old(out)@ + action_lines(dv.take(i + 1 as int)));
        }
        i = i + 1;
    }
    proof {
        assert(items.deep_view().take(items@.len() as int) =~= items.deep_view());
    }
}

/// One more checklist line extends the run at its end.
proof fn lemma_action_lines_push(items: Seq<ActionItemView>, x: ActionItemView)
    ensures
        action_lines(items.push(x)) == action_lines(items) + action_line(x),
    decreases items.len(),
{
    if items.len() == 0 {
        assert(items.push(x).skip(1) =~= Seq::<ActionItemView>::empty());
        assert(items.push(x)[0] == x);
        assert(action_lines(Seq::<ActionItemView>::empty()) == Seq::<char>::empty());
        assert(action_lines(items) == Seq::<char>::empty());
        assert(action_lines(items.push(x)) == action_line(x) + Seq::<char>::empty());
        assert(action_line(x) + Seq::<char>::empty() =~= Seq::<char>::empty() + action_line(x));
    } else {
        assert(items.push(x).skip(1) =~= items.skip(1).push(x));
        lemma_action_lines_push(items.skip(1), x);
        assert(action_lines(items.push(x)) =~= action_lines(items) + action_line(x));
    }
}

/// Appends the summary line of an entry, where it has one.
fn push_summary(out: &mut String, e: &Entry)
    ensures
        final(out)@ == old(out)@ + summary_part(e.deep_view()),
{
    if let Some(s) = &e.summary {
        out.append("Summary: ");
        out.append(s.as_str());
        out.append("\n");
    }
    proof {
        assert(final(out)@ =~= old(out)@ + summary_part(e.deep_view()));
    }
}

/// Appends one score line with its optional rationale.
fn push_score(out: &mut String, label: &str, score: Option<i64>, rationale: &Option<String>)
    ensures
        final(out)@ == old(out)@ + score_part(label@, score, rationale.deep_view()),
{
    if let Some(sc) = score {
        out.append(label);
        let d = i64_digits(sc);
        out.append(d.as_str());
        out.append("/5");
        if let Some(rat) = rationale {
            out.append(" (");
            out.append(rat.as_str());
            out.append(")");
        }
        out.append("\n");
    }
    proof {
        assert(final(out)@ =~= old(out)@ + score_part(label@, score, rationale.deep_view()));
    }
}

/// Appends one labelled, joined list line, where the list is
/// nonempty.
fn push_list(out: &mut String, label: &str, l: &Vec<String>, sep: &str)
    ensures
        final(out)@ == old(out)@ + list_part(label@, l.deep_view(), sep@),
{
    if l.len() > 0 {
        out.append(label);
        push_joined(out, l, sep);
        out.append("\n");
    }
    proof {
        assert(final(out)@ =~= old(out)@ + list_part(label@, l.deep_view(), sep@));
    }
}

/// Appends one entry's block to `out`.
#[verifier::rlimit(100)]
fn push_entry_block(out: &mut String, e: &Entry, name: &str, idx: u64)
    requires
        idx >= 1,
    ensures
        final(out)@ == old(out)@ + entry_block(e.deep_view(), name@, idx as nat),
{
    let ghost ev = e.deep_view();
    let ghost base = out@;
    out.append("--- Entry ");
    let num = u64_to_string(idx);
    out.append(num.as_str());
    out.append(" (");
    out.append(e.date.as_str());
    out.append(") ---\n");
    let ghost acc = block_heading(ev, idx as nat);
    proof {
        assert(out@ =~= base + acc);
    }
    push_summary(out, e);
    proof {
        vstd::seq_lib::lemma_concat_associative(base, acc, summary_part(ev));
    }
    let ghost acc = acc + summary_part(ev);
    push_score(out, "Morale: ", e.morale_score, &e.morale_rationale);
    proof {
        vstd::seq_lib::lemma_concat_associative(
            base,
            acc,
            score_part(("Morale: ")@, ev.morale_score, ev.morale_rationale),
        );
    }
    let ghost acc = acc + score_part(("Morale: ")@, ev.morale_score, ev.morale_rationale);
    push_score(out, "Growth: ", e.growth_score, &e.growth_rationale);
    proof {
        vstd::seq_lib::lemma_concat_associative(
            base,
            acc,
            score_part(("Growth: ")@, ev.growth_score, ev.growth_rationale),
        );
    }
    let ghost acc = acc + score_part(("Growth: ")@, ev.growth_score, ev.growth_rationale);
    push_list(out, "Tags: ", &e.tags, ", ");
    proof {
        vstd::seq_lib::lemma_concat_associative(
            base,
            acc,
            list_part(("Tags: ")@, ev.tags, (", ")@),
        );
    }
    let ghost acc = acc + list_part(("Tags: ")@, ev.tags, (", ")@);
    let ghost c5 = out@;
    if e.action_items_mine.len() > 0 {
        out.append("My action items:\n");
        push_action_lines(out, &e.action_items_mine);
    }
    proof {
        assert(out@ =~= c5 + checklist_part(("My action items:\n")@, ev.action_items_mine));
        vstd::seq_lib::lemma_concat_associative(
            base,
            acc,
            checklist_part(("My action items:\n")@, ev.action_items_mine),
        );
    }
    let ghost acc = acc + checklist_part(("My action items:\n")@, ev.action_items_mine);
    let ghost c6 = out@;
    if e.action_items_theirs.len() > 0 {
        out.append(name);
        out.append("'s action items:\n");
        push_action_lines(out, &e.action_items_theirs);
    }
    proof {
        assert(out@ =~= c6 + checklist_part(
            name@ + ("'s action items:\n")@,
            ev.action_items_theirs,
        ));
        vstd::seq_lib::lemma_concat_associative(
            base,
            acc,
            checklist_part(name@ + ("'s action items:\n")@, ev.action_items_theirs),
        );
    }
    let ghost acc = acc + checklist_part(
        name@ + ("'s action items:\n")@,
        ev.action_items_theirs,
    );
    push_list(out, "Blockers: ", &e.blockers, "; ");
    proof {
        vstd::seq_lib::lemma_concat_associative(
            base,
            acc,
            list_part(("Blockers: ")@, ev.blockers, ("; ")@),
        );
    }
    let ghost acc = acc + list_part(("Blockers: ")@, ev.blockers, ("; ")@);
    push_list(out, "Wins: ", &e.wins, "; ");
    proof {
        vstd::seq_lib::lemma_concat_associative(
            base,
            acc,
            list_part(("Wins: ")@, ev.wins, ("; ")@),
        );
    }
    let ghost acc = acc + list_part(("Wins: ")@, ev.wins, ("; ")@);
    push_list(out, "Notable quotes: ", &e.notable_quotes, "; ");
    proof {
        vstd::seq_lib::lemma_concat_associative(
            base,
            acc,
            list_part(("Notable quotes: ")@, ev.notable_quotes, ("; ")@),
        );
    }
    let ghost acc = acc + list_part(("Notable quotes: ")@, ev.notable_quotes, ("; ")@);
    out.append("\n");
    proof {
        vstd::seq_lib::lemma_concat_associative(base, acc, ("\n")@);
        assert(acc + ("\n")@ == entry_block(ev, name@, idx as nat));
        assert(out@ == base + entry_block(ev, name@, idx as nat));
    }
}

/// Builds the prep prompt for this member and their recent entries,
/// newest first, at most a handful.
pub fn build_prep_prompt(member_name: &str, entries: &Vec<Entry>) -> (r: String)
    ensures
        r@ == prep_prompt(member_name@, entries.deep_view()),
{
    let mut r = String::new();
    r.append("You are helping an engineering manager prepare for a 1:1 meeting with ");
    r.append(member_name);
    r.append(". Below are the last ");
    let n = u64_to_string(entries.len() as u64);
    r.append(n.as_str());
    r.append(
        " meeting entries (newest first). Generate a concise bullet-point briefing with these two sections:\n\n**Follow up on**\n**Watch for**\n\nFollow up on = open action items and unresolved topics to revisit.\nWatch for = morale/growth concerns or patterns worth probing.\n\nKeep bullets short and scannable. No narrative prose.\nUse this exact format — section headers as **bold text** on their own line, bullets as - dashes:\n\n**Follow up on**\n- bullet one\n- bullet two\n\n**Watch for**\n- bullet one\n\n",
    );
    proof {
        assert(r@ =~= prep_header(member_name@, entries.deep_view().len()));
        assert(entries.deep_view().take(0) =~= Seq::<EntryView>::empty());
    }
    let mut i: usize = 0;
    while i < entries.len()
        invariant
            0 <= i <= entries@.len(),
            r@ == prep_header(member_name@, entries.deep_view().len()) + entry_blocks(
                entries.deep_view().take(i as int),
                member_name@,
                1,
            ),
        decreases entries@.len() - i,
    {
        push_entry_block(&mut r, &entries[i], member_name, (i as u64) + 1);
        proof {
            let dv = entries.deep_view();
            assert(dv[i as int] == entries@[i as int].deep_view());
            assert(dv.take(i + 1 as int) =~= dv.take(i as int).push(dv[i as int]));
            lemma_entry_blocks_push(dv.take(i as int), member_name@, 1, dv[i as int]);
            assert(dv.take(i as int).len() == i as int);
            vstd::seq_lib::lemma_concat_associative(
                prep_header(member_name@, dv.len()),
                entry_blocks(dv.take(i as int), member_name@, 1),
                entry_block(dv[i as int], member_name@, (i + 1) as nat),
            );
            assert(r@ == prep_header(member_name@, dv.len()) + entry_blocks(
                dv.take(i + 1 as int),
                member_name@,
                1,
            ));
        }
        i = i + 1;
    }
    proof {
        assert(entries.deep_view().take(entries@.len() as int) =~= entries.deep_view());
    }
    r
}

// ─── Stripping markdown fences ──────────────────────────

/// The whitespace characters trimmed from model output: the Unicode
/// white-space set that `str::trim` removes.
pub open spec fn is_ws(c: char) -> bool {
    let v = c as u32;
    ||| (9 <= v && v <= 13)
    ||| v == 32
    ||| v == 0x85
    ||| v == 0xA0
    ||| v == 0x1680
    ||| (0x2000 <= v && v <= 0x200A)
    ||| v == 0x2028
    ||| v == 0x2029
    ||| v == 0x202F
    ||| v == 0x205F
    ||| v == 0x3000
}

/// The text without its leading whitespace.
pub open spec fn trim_front(s: Seq<char>) -> Seq<char>
    decreases s.len(),
{
    if s.len() > 0 && is_ws(s[0]) {
        trim_front(s.skip(1))
    } else {
        s
    }
}

/// The text without its trailing whitespace.
pub open spec fn trim_back(s: Seq<char>) -> Seq<char>
    decreases s.len(),
{
    if s.len() > 0 && is_ws(s.last()) {
        trim_back(s.drop_last())
    } else {
        s
    }
}

/// The text without leading or trailing whitespace.
pub open spec fn trimmed(s: Seq<char>) -> Seq<char> {
    trim_back(trim_front(s))
}

/// The text without this prefix, where it has it.
pub open spec fn strip_prefix_or(s: Seq<char>, p: Seq<char>) -> Seq<char> {
    if s.len() >= p.len() && s.take(p.len() as int) == p {
        s.skip(p.len() as int)
    } else {
        s
    }
}

/// The text without this suffix, where it has it.
pub open spec fn strip_suffix_or(s: Seq<char>, p: Seq<char>) -> Seq<char> {
    if s.len() >= p.len() && s.skip(s.len() - p.len()) == p {
        s.take(s.len() - p.len())
    } else {
        s
    }
}

/// Model output with surrounding whitespace and markdown code fences
/// removed, the way the journal has always cleaned it: trim, then an
/// opening json fence, then a bare opening fence, then a closing
/// fence, then trim again.
pub open spec fn defenced(s: Seq<char>) -> Seq<char> {
    trimmed(
        strip_suffix_or(
            strip_prefix_or(strip_prefix_or(trimmed(s), ("```json")@), ("```")@),
            ("```")@,
        ),
    )
}

/// Leading whitespace only ever shortens the text.
proof fn lemma_trim_front_len(s: Seq<char>)
    ensures
        trim_front(s).len() <= s.len(),
    decreases s.len(),
{
    if s.len() > 0 && is_ws(s[0]) {
        lemma_trim_front_len(s.skip(1));
    }
}

/// A text that trimming does not change starts with a non-blank.
proof fn lemma_trim_front_fixed(s: Seq<char>)
    requires
        trim_front(s) == s,
        s.len() > 0,
    ensures
        !is_ws(s[0]),
{
    if is_ws(s[0]) {
        lemma_trim_front_len(s.skip(1));
    }
}

/// Strips surrounding whitespace and markdown code fences from model
/// output.
#[verifier::rlimit(100)]
#[verifier::spinoff_prover]
pub fn strip_markdown_fences(text: &str) -> (r: &str)
    ensures
        r@ == defenced(text@),
{
    let n = text.unicode_len();
    let mut start: usize = 0;
    let mut end: usize = n;
    proof {
        assert(text@.subrange(0, n as int) =~= text@);
    }
    while start < end && char_is_ws(text.get_char(start))
        invariant
            n == text@.len(),
            0 <= start <= end <= n,
            trim_front(text@.subrange(start as int, end as int)) == trim_front(text@),
        decreases end - start,
    {
        proof {
            let cur = text@.subrange(start as int, end as int);
            assert(cur[0] == text@[start as int]);
            assert(cur.skip(1) =~= text@.subrange(start + 1 as int, end as int));
        }
        start = start + 1;
    }
    proof {
        let cur = text@.subrange(start as int, end as int);
        if cur.len() > 0 {
            assert(cur[0] == text@[start as int]);
        }
        assert(trim_front(cur) == cur);
    }
    while start < end && char_is_ws(text.get_char(end - 1))
        invariant
            n == text@.len(),
            0 <= start <= end <= n,
            text@.subrange(start as int, end as int) == trim_front(text@.subrange(
                start as int,
                end as int,
            )),
            trim_back(text@.subrange(start as int, end as int)) == trimmed(text@),
        decreases end - start,
    {
        proof {
            let cur = text@.subrange(start as int, end as int);
            assert(cur.last() == text@[end - 1]);
            assert(cur.drop_last() =~= text@.subrange(start as int, end - 1));
            if cur.drop_last().len() > 0 {
                assert(cur.drop_last()[0] == cur[0]);
                lemma_trim_front_fixed(cur);
            }
            assert(trim_front(cur.drop_last()) == cur.drop_last());
        }
        end = end - 1;
    }
    proof {
        let cur = text@.subrange(start as int, end as int);
        if cur.len() > 0 {
            assert(cur.last() == text@[end - 1]);
        }
        assert(trim_back(cur) == cur);
        assert(cur == trimmed(text@));
    }
    // an opening ```json fence
    if crate::codec::has_at(text, start, "```json") && end - start >= 7 {
        proof {
            reveal_strlit("```json");
            let cur = text@.subrange(start as int, end as int);
            assert(cur.take(7) =~= text@.subrange(start as int, start + 7));
            assert(cur.skip(7) =~= text@.subrange(start + 7, end as int));
        }
        start = start + 7;
    } else {
        proof {
            reveal_strlit("```json");
            let cur = text@.subrange(start as int, end as int);
            if cur.len() >= 7 && cur.take(7) == ("```json")@ {
                assert(text@.subrange(start as int, start + 7) =~= cur.take(7));
            }
            assert(strip_prefix_or(cur, ("```json")@) == cur);
        }
    }
    // a bare opening ``` fence
    if crate::codec::has_at(text, start, "```") && end - start >= 3 {
        proof {
            reveal_strlit("```");
            let cur = text@.subrange(start as int, end as int);
            assert(cur.take(3) =~= text@.subrange(start as int, start + 3));
            assert(cur.skip(3) =~= text@.subrange(start + 3, end as int));
        }
        start = start + 3;
    } else {
        proof {
            reveal_strlit("```");
            let cur = text@.subrange(start as int, end as int);
            if cur.len() >= 3 && cur.take(3) == ("```")@ {
                assert(text@.subrange(start as int, start + 3) =~= cur.take(3));
            }
            assert(strip_prefix_or(cur, ("```")@) == cur);
        }
    }
    // a closing ``` fence
    if end - start >= 3 && crate::codec::has_at(text, end - 3, "```") {
        proof {
            reveal_strlit("```");
            let cur = text@.subrange(start as int, end as int);
            assert(cur.skip(cur.len() - 3) =~= text@.subrange(end - 3, end as int));
            assert(cur.take(cur.len() - 3) =~= text@.subrange(start as int, end - 3));
        }
        end = end - 3;
    } else {
        proof {
            reveal_strlit("```");
            let cur = text@.subrange(start as int, end as int);
            if cur.len() >= 3 && cur.skip(cur.len() - 3) == ("```")@ {
                assert(text@.subrange(end - 3, end as int) =~= cur.skip(cur.len() - 3));
            }
            assert(strip_suffix_or(cur, ("```")@) == cur);
        }
    }
    let ghost mid = text@.subrange(start as int, end as int);
    // trim again
    while start < end && char_is_ws(text.get_char(start))
        invariant
            n == text@.len(),
            0 <= start <= end <= n,
            trim_front(text@.subrange(start as int, end as int)) == trim_front(mid),
        decreases end - start,
    {
        proof {
            let cur = text@.subrange(start as int, end as int);
            assert(cur[0] == text@[start as int]);
            assert(cur.skip(1) =~= text@.subrange(start + 1 as int, end as int));
        }
        start = start + 1;
    }
    proof {
        let cur = text@.subrange(start as int, end as int);
        if cur.len() > 0 {
            assert(cur[0] == text@[start as int]);
        }
        assert(trim_front(cur) == cur);
    }
    while start < end && char_is_ws(text.get_char(end - 1))
        invariant
            n == text@.len(),
            0 <= start <= end <= n,
            text@.subrange(start as int, end as int) == trim_front(text@.subrange(
                start as int,
                end as int,
            )),
            trim_back(text@.subrange(start as int, end as int)) == trimmed(mid),
        decreases end - start,
    {
        proof {
            let cur = text@.subrange(start as int, end as int);
            assert(cur.last() == text@[end - 1]);
            assert(cur.drop_last() =~= text@.subrange(start as int, end - 1));
            if cur.drop_last().len() > 0 {
                assert(cur.drop_last()[0] == cur[0]);
                lemma_trim_front_fixed(cur);
            }
            assert(trim_front(cur.drop_last()) == cur.drop_last());
        }
        end = end - 1;
    }
    proof {
        let cur = text@.subrange(start as int, end as int);
        if cur.len() > 0 {
            assert(cur.last() == text@[end - 1]);
        }
        assert(trim_back(cur) == cur);
        assert(cur == defenced(text@));
    }
    text.substring_char(start, end)
}

/// Strips surrounding whitespace from a text.
pub fn trim_str(text: &str) -> (r: &str)
    ensures
        r@ == trimmed(text@),
{
    let n = text.unicode_len();
    let mut start: usize = 0;
    let mut end: usize = n;
    proof {
        assert(text@.subrange(0, n as int) =~= text@);
    }
    while start < end && char_is_ws(text.get_char(start))
        invariant
            n == text@.len(),
            0 <= start <= end <= n,
            trim_front(text@.subrange(start as int, end as int)) == trim_front(text@),
        decreases end - start,
    {
        proof {
            let cur = text@.subrange(start as int, end as int);
            assert(cur[0] == text@[start as int]);
            assert(cur.skip(1) =~= text@.subrange(start + 1 as int, end as int));
        }
        start = start + 1;
    }
    proof {
        let cur = text@.subrange(start as int, end as int);
        if cur.len() > 0 {
            assert(cur[0] == text@[start as int]);
        }
        assert(trim_front(cur) == cur);
    }
    while start < end && char_is_ws(text.get_char(end - 1))
        invariant
            n == text@.len(),
            0 <= start <= end <= n,
            text@.subrange(start as int, end as int) == trim_front(text@.subrange(
                start as int,
                end as int,
            )),
            trim_back(text@.subrange(start as int, end as int)) == trimmed(text@),
        decreases end - start,
    {
        proof {
            let cur = text@.subrange(start as int, end as int);
            assert(cur.last() == text@[end - 1]);
            assert(cur.drop_last() =~= text@.subrange(start as int, end - 1));
            if cur.drop_last().len() > 0 {
                assert(cur.drop_last()[0] == cur[0]);
                lemma_trim_front_fixed(cur);
            }
            assert(trim_front(cur.drop_last()) == cur.drop_last());
        }
        end = end - 1;
    }
    proof {
        let cur = text@.subrange(start as int, end as int);
        if cur.len() > 0 {
            assert(cur.last() == text@[end - 1]);
        }
        assert(trim_back(cur) == cur);
    }
    text.substring_char(start, end)
}

/// Whether one character counts as whitespace here.
fn char_is_ws(c: char) -> (r: bool)
    ensures
        r == is_ws(c),
{
    let v = c as u32;
    (9 <= v && v <= 13) || v == 32 || v == 0x85 || v == 0xA0 || v == 0x1680 || (0x2000 <= v && v
        <= 0x200A) || v == 0x2028 || v == 0x2029 || v == 0x202F || v == 0x205F || v == 0x3000
}

// ─── Request bodies ─────────────────────────────────────

/// The character for one hexadecimal digit.
pub open spec fn hex_char(d: nat) -> char {
    if d < 10 {
        crate::strutil::digit_char(d)
    } else if d == 10 {
        'a'
    } else if d == 11 {
        'b'
    } else if d == 12 {
        'c'
    } else if d == 13 {
        'd'
    } else if d == 14 {
        'e'
    } else {
        'f'
    }
}

/// How one character appears inside a JSON string: quote and
/// backslash escaped, control characters encoded, so the body parses
/// whatever the prompt holds — prompts carry newlines.
pub open spec fn json_esc_char(c: char) -> Seq<char> {
    if c == '"' {
        seq!['\\', '"']
    } else if c == '\\' {
        seq!['\\', '\\']
    } else if c == '\n' {
        seq!['\\', 'n']
    } else if c == '\t' {
        seq!['\\', 't']
    } else if c == '\r' {
        seq!['\\', 'r']
    } else if (c as u32) < 32 {
        seq!['\\', 'u', '0', '0', hex_char(((c as u32) / 16) as nat), hex_char(
            ((c as u32) % 16) as nat,
        )]
    } else {
        seq![c]
    }
}

/// A text with every character JSON-escaped.
pub open spec fn json_esc(s: Seq<char>) -> Seq<char>
    decreases s.len(),
{
    if s.len() == 0 {
        Seq::<char>::empty()
    } else {
        json_esc_char(s[0]) + json_esc(s.skip(1))
    }
}

/// JSON escaping distributes over concatenation.
proof fn lemma_json_esc_append(a: Seq<char>, b: Seq<char>)
    ensures
        json_esc(a + b) == json_esc(a) + json_esc(b),
    decreases a.len(),
{
    if a.len() == 0 {
        assert(a + b =~= b);
        assert(json_esc(a) + json_esc(b) =~= json_esc(b));
    } else {
        assert((a + b).skip(1) =~= a.skip(1) + b);
        lemma_json_esc_append(a.skip(1), b);
        assert((a + b)[0] == a[0]);
        assert((a + b).skip(1) == a.skip(1) + b);
        assert((a + b).len() > 0);
        assert(json_esc(a + b) == json_esc_char((a + b)[0]) + json_esc((a + b).skip(1)));
        assert(json_esc((a + b).skip(1)) == json_esc(a.skip(1) + b));
        assert(json_esc(a + b) == json_esc_char(a[0]) + (json_esc(a.skip(1)) + json_esc(b)));
        assert(json_esc_char(a[0]) + (json_esc(a.skip(1)) + json_esc(b)) =~= (json_esc_char(a[0])
            + json_esc(a.skip(1))) + json_esc(b));
    }
}

/// JSON escaping one character on its own.
proof fn lemma_json_esc_single(c: char)
    ensures
        json_esc(seq![c]) == json_esc_char(c),
{
    assert(seq![c].skip(1) == Seq::<char>::empty());
    assert(seq![c][0] == c);
    assert(json_esc(seq![c]) == json_esc_char(c) + json_esc(Seq::<char>::empty()));
    assert(json_esc(Seq::<char>::empty()) == Seq::<char>::empty());
    assert(json_esc_char(c) + Seq::<char>::empty() =~= json_esc_char(c));
}

/// One hexadecimal digit as a string.
fn hex_str(d: u32) -> (r: &'static str)
    requires
        d < 16,
    ensures
        r@ == seq![hex_char(d as nat)],
{
    let s: &str = if d == 0 {
        "0"
    } else if d == 1 {
        "1"
    } else if d == 2 {
        "2"
    } else if d == 3 {
        "3"
    } else if d == 4 {
        "4"
    } else if d == 5 {
        "5"
    } else if d == 6 {
        "6"
    } else if d == 7 {
        "7"
    } else if d == 8 {
        "8"
    } else if d == 9 {
        "9"
    } else if d == 10 {
        "a"
    } else if d == 11 {
        "b"
    } else if d == 12 {
        "c"
    } else if d == 13 {
        "d"
    } else if d == 14 {
        "e"
    } else {
        "f"
    };
    proof {
        reveal_strlit("0");
        reveal_strlit("1");
        reveal_strlit("2");
        reveal_strlit("3");
        reveal_strlit("4");
        reveal_strlit("5");
        reveal_strlit("6");
        reveal_strlit("7");
        reveal_strlit("8");
        reveal_strlit("9");
        reveal_strlit("a");
        reveal_strlit("b");
        reveal_strlit("c");
        reveal_strlit("d");
        reveal_strlit("e");
        reveal_strlit("f");
        assert(s@ =~= seq![hex_char(d as nat)]);
    }
    s
}

/// Escapes `s` for embedding in a JSON string.
#[verifier::rlimit(100)]
pub fn json_escape_string(s: &str) -> (r: String)
    ensures
        r@ == json_esc(s@),
{
    let n = s.unicode_len();
    let mut r = String::new();
    let mut i: usize = 0;
    while i < n
        invariant
            n == s@.len(),
            0 <= i <= n,
            r@ == json_esc(s@.take(i as int)),
        decreases n - i,
    {
        let c = s.get_char(i);
        if c == '"' {
            r.append("\\\"");
            proof {
                reveal_strlit("\\\"");
            }
        } else if c == '\\' {
            r.append("\\\\");
            proof {
                reveal_strlit("\\\\");
            }
        } else if c == '\n' {
            r.append("\\n");
            proof {
                reveal_strlit("\\n");
            }
        } else if c == '\t' {
            r.append("\\t");
            proof {
                reveal_strlit("\\t");
            }
        } else if c == '\r' {
            r.append("\\r");
            proof {
                reveal_strlit("\\r");
            }
        } else if (c as u32) < 32 {
            let v = c as u32;
            r.append("\\u00");
            r.append(hex_str(v / 16));
            r.append(hex_str(v % 16));
            proof {
                reveal_strlit("\\u00");
                assert(r@ =~= json_esc(s@.take(i as int)) + json_esc_char(s@[i as int]));
            }
        } else {
            let piece = s.substring_char(i, i + 1);
            r.append(piece);
        }
        proof {
            assert(s@.take(i + 1 as int) =~= s@.take(i as int) + seq![s@[i as int]]);
            lemma_json_esc_append(s@.take(i as int), seq![s@[i as int]]);
            lemma_json_esc_single(s@[i as int]);
            assert(r@ =~= json_esc(s@.take(i + 1 as int)));
        }
        i = i + 1;
    }
    proof {
        assert(s@.take(n as int) =~= s@);
    }
    r
}

/// The JSON body of a chat request: the model id, the token budget,
/// and one user message holding the prompt, both strings
/// JSON-escaped.
pub open spec fn chat_body(model: Seq<char>, prompt: Seq<char>) -> Seq<char> {
    ("{\"model\":\"")@ + json_esc(model) + (
    "\",\"max_tokens\":1000,\"messages\":[{\"role\":\"user\",\"content\":\"")@ + json_esc(prompt)
        + ("\"}]}")@
}

/// Builds the request body sent to the OpenAI API.
pub fn openai_request_body(prompt: &str) -> (r: String)
    ensures
        r@ == chat_body(("gpt-4o")@, prompt@),
{
    chat_request_body("gpt-4o", prompt)
}

/// Builds a chat request body for one model; the Anthropic path hands
/// in the model id it was configured with.
pub fn chat_request_body(model: &str, prompt: &str) -> (r: String)
    ensures
        r@ == chat_body(model@, prompt@),
{
    let mut r = String::new();
    r.append("{\"model\":\"");
    let m = json_escape_string(model);
    r.append(m.as_str());
    r.append("\",\"max_tokens\":1000,\"messages\":[{\"role\":\"user\",\"content\":\"");
    let e = json_escape_string(prompt);
    r.append(e.as_str());
    r.append("\"}]}");
    proof {
        assert(r@ =~= chat_body(model@, prompt@));
    }
    r
}

} // verus!
