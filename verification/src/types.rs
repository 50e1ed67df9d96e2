//! The record types the journal works with: team members, entries with
//! their embedded action items, cache rows, and the aggregate shapes a
//! prep briefing returns.

use vstd::prelude::*;

verus! {

/// One direct report being tracked. `prep_notes` holds manually kept
/// preparation notes, cleared whenever a new entry is recorded.
#[derive(Debug, Clone, PartialEq, Eq)]
pub struct TeamMember {
    pub id: String,
    pub name: String,
    pub role: String,
    pub color: String,
    pub jira_account_id: Option<String>,
    pub prep_notes: Option<String>,
}

/// A single action item embedded in an entry, never a standalone record.
#[derive(Debug, Clone, PartialEq, Eq)]
pub struct ActionItem {
    pub text: String,
    pub completed: bool,
}

/// One recorded 1:1 meeting, plus the optional structured insight
/// extracted from its transcript. Scores are bounded 1..=5 by
/// convention. List fields default to empty rather than absent.
#[derive(Debug, Clone, PartialEq, Eq)]
pub struct Entry {
    pub id: String,
    pub member_id: String,
    pub date: String,
    pub summary: Option<String>,
    pub morale_score: Option<i64>,
    pub growth_score: Option<i64>,
    pub morale_rationale: Option<String>,
    pub growth_rationale: Option<String>,
    pub tags: Vec<String>,
    pub action_items_mine: Vec<ActionItem>,
    pub action_items_theirs: Vec<ActionItem>,
    pub notable_quotes: Vec<String>,
    pub blockers: Vec<String>,
    pub wins: Vec<String>,
    pub private_note: Option<String>,
    pub transcript: Option<String>,
    pub created_at: Option<String>,
    pub updated_at: Option<String>,
}

/// The mathematical shape of one action item.
pub struct ActionItemView {
    pub text: Seq<char>,
    pub completed: bool,
}

impl DeepView for ActionItem {
    type V = ActionItemView;

    open spec fn deep_view(&self) -> ActionItemView {
        ActionItemView { text: self.text@, completed: self.completed }
    }
}

/// The mathematical shape of a team member.
pub struct TeamMemberView {
    pub id: Seq<char>,
    pub name: Seq<char>,
    pub role: Seq<char>,
    pub color: Seq<char>,
    pub jira_account_id: Option<Seq<char>>,
    pub prep_notes: Option<Seq<char>>,
}

impl DeepView for TeamMember {
    type V = TeamMemberView;

    open spec fn deep_view(&self) -> TeamMemberView {
        TeamMemberView {
            id: self.id@,
            name: self.name@,
            role: self.role@,
            color: self.color@,
            jira_account_id: self.jira_account_id.deep_view(),
            prep_notes: self.prep_notes.deep_view(),
        }
    }
}

/// The mathematical shape of an entry.
pub struct EntryView {
    pub id: Seq<char>,
    pub member_id: Seq<char>,
    pub date: Seq<char>,
    pub summary: Option<Seq<char>>,
    pub morale_score: Option<i64>,
    pub growth_score: Option<i64>,
    pub morale_rationale: Option<Seq<char>>,
    pub growth_rationale: Option<Seq<char>>,
    pub tags: Seq<Seq<char>>,
    pub action_items_mine: Seq<ActionItemView>,
    pub action_items_theirs: Seq<ActionItemView>,
    pub notable_quotes: Seq<Seq<char>>,
    pub blockers: Seq<Seq<char>>,
    pub wins: Seq<Seq<char>>,
    pub private_note: Option<Seq<char>>,
    pub transcript: Option<Seq<char>>,
    pub created_at: Option<Seq<char>>,
    pub updated_at: Option<Seq<char>>,
}

impl DeepView for Entry {
    type V = EntryView;

    open spec fn deep_view(&self) -> EntryView {
        EntryView {
            id: self.id@,
            member_id: self.member_id@,
            date: self.date@,
            summary: self.summary.deep_view(),
            morale_score: self.morale_score,
            growth_score: self.growth_score,
            morale_rationale: self.morale_rationale.deep_view(),
            growth_rationale: self.growth_rationale.deep_view(),
            tags: self.tags.deep_view(),
            action_items_mine: self.action_items_mine.deep_view(),
            action_items_theirs: self.action_items_theirs.deep_view(),
            notable_quotes: self.notable_quotes.deep_view(),
            blockers: self.blockers.deep_view(),
            wins: self.wins.deep_view(),
            private_note: self.private_note.deep_view(),
            transcript: self.transcript.deep_view(),
            created_at: self.created_at.deep_view(),
            updated_at: self.updated_at.deep_view(),
        }
    }
}

/// The mathematical shape of a cache row.
pub struct CacheRecordView {
    pub key: Seq<char>,
    pub category: Seq<char>,
    pub value: Seq<char>,
    pub created_at: Seq<char>,
}

impl DeepView for CacheRecord {
    type V = CacheRecordView;

    open spec fn deep_view(&self) -> CacheRecordView {
        CacheRecordView {
            key: self.key@,
            category: self.category@,
            value: self.value@,
            created_at: self.created_at@,
        }
    }
}

/// The fields a caller may supply when creating an entry. An absent id
/// or date is filled in from the clock; absent lists stay empty.
#[derive(Debug, Clone)]
pub struct EntryInput {
    pub id: Option<String>,
    pub member_id: String,
    pub date: Option<String>,
    pub summary: Option<String>,
    pub morale_score: Option<i64>,
    pub growth_score: Option<i64>,
    pub morale_rationale: Option<String>,
    pub growth_rationale: Option<String>,
    pub tags: Vec<String>,
    pub action_items_mine: Vec<ActionItem>,
    pub action_items_theirs: Vec<ActionItem>,
    pub notable_quotes: Vec<String>,
    pub blockers: Vec<String>,
    pub wins: Vec<String>,
    pub private_note: Option<String>,
    pub transcript: Option<String>,
}

/// A partial update to an entry. The outer `Option` on each field says
/// whether the field was supplied at all; only supplied fields change.
/// For the nullable fields the inner `Option` distinguishes setting a
/// value from clearing it. Identity, member and date never change.
#[derive(Debug, Clone, Default)]
pub struct EntryPatch {
    pub summary: Option<Option<String>>,
    pub morale_score: Option<Option<i64>>,
    pub growth_score: Option<Option<i64>>,
    pub morale_rationale: Option<Option<String>>,
    pub growth_rationale: Option<Option<String>>,
    pub tags: Option<Vec<String>>,
    pub action_items_mine: Option<Vec<ActionItem>>,
    pub action_items_theirs: Option<Vec<ActionItem>>,
    pub notable_quotes: Option<Vec<String>>,
    pub blockers: Option<Vec<String>>,
    pub wins: Option<Vec<String>>,
    pub private_note: Option<Option<String>>,
    pub transcript: Option<Option<String>>,
}

/// Whether a partial update supplies no field at all. Such an update
/// leaves the entry untouched, its timestamp included.
pub open spec fn patch_is_empty(p: EntryPatch) -> bool {
    &&& p.summary is None
    &&& p.morale_score is None
    &&& p.growth_score is None
    &&& p.morale_rationale is None
    &&& p.growth_rationale is None
    &&& p.tags is None
    &&& p.action_items_mine is None
    &&& p.action_items_theirs is None
    &&& p.notable_quotes is None
    &&& p.blockers is None
    &&& p.wins is None
    &&& p.private_note is None
    &&& p.transcript is None
}

/// The entry after a partial update: each supplied field takes its new
/// value, every other field keeps its old one, and the update
/// timestamp becomes the submission time. Identity, member, date and
/// creation time never change.
pub open spec fn apply_patch(e: EntryView, p: EntryPatch, now: Seq<char>) -> EntryView {
    EntryView {
        id: e.id,
        member_id: e.member_id,
        date: e.date,
        summary: (match p.summary {
            Some(v) => v.deep_view(),
            None => e.summary,
        }),
        morale_score: (match p.morale_score {
            Some(v) => v,
            None => e.morale_score,
        }),
        growth_score: (match p.growth_score {
            Some(v) => v,
            None => e.growth_score,
        }),
        morale_rationale: (match p.morale_rationale {
            Some(v) => v.deep_view(),
            None => e.morale_rationale,
        }),
        growth_rationale: (match p.growth_rationale {
            Some(v) => v.deep_view(),
            None => e.growth_rationale,
        }),
        tags: (match p.tags {
            Some(v) => v.deep_view(),
            None => e.tags,
        }),
        action_items_mine: (match p.action_items_mine {
            Some(v) => v.deep_view(),
            None => e.action_items_mine,
        }),
        action_items_theirs: (match p.action_items_theirs {
            Some(v) => v.deep_view(),
            None => e.action_items_theirs,
        }),
        notable_quotes: (match p.notable_quotes {
            Some(v) => v.deep_view(),
            None => e.notable_quotes,
        }),
        blockers: (match p.blockers {
            Some(v) => v.deep_view(),
            None => e.blockers,
        }),
        wins: (match p.wins {
            Some(v) => v.deep_view(),
            None => e.wins,
        }),
        private_note: (match p.private_note {
            Some(v) => v.deep_view(),
            None => e.private_note,
        }),
        transcript: (match p.transcript {
            Some(v) => v.deep_view(),
            None => e.transcript,
        }),
        created_at: e.created_at,
        updated_at: Some(now),
    }
}

/// A partial update touches only the fields it supplies: every field
/// the patch leaves out keeps its old value, identity, member, date
/// and creation time never change, and the update timestamp becomes
/// the submission time.
pub proof fn lemma_partial_update_frames(e: EntryView, p: EntryPatch, now: Seq<char>)
    ensures
        apply_patch(e, p, now).id == e.id,
        apply_patch(e, p, now).member_id == e.member_id,
        apply_patch(e, p, now).date == e.date,
        apply_patch(e, p, now).created_at == e.created_at,
        apply_patch(e, p, now).updated_at == Some(now),
        p.summary is None ==> apply_patch(e, p, now).summary == e.summary,
        p.morale_score is None ==> apply_patch(e, p, now).morale_score == e.morale_score,
        p.growth_score is None ==> apply_patch(e, p, now).growth_score == e.growth_score,
        p.morale_rationale is None ==> apply_patch(e, p, now).morale_rationale
            == e.morale_rationale,
        p.growth_rationale is None ==> apply_patch(e, p, now).growth_rationale
            == e.growth_rationale,
        p.tags is None ==> apply_patch(e, p, now).tags == e.tags,
        p.action_items_mine is None ==> apply_patch(e, p, now).action_items_mine
            == e.action_items_mine,
        p.action_items_theirs is None ==> apply_patch(e, p, now).action_items_theirs
            == e.action_items_theirs,
        p.notable_quotes is None ==> apply_patch(e, p, now).notable_quotes == e.notable_quotes,
        p.blockers is None ==> apply_patch(e, p, now).blockers == e.blockers,
        p.wins is None ==> apply_patch(e, p, now).wins == e.wins,
        p.private_note is None ==> apply_patch(e, p, now).private_note == e.private_note,
        p.transcript is None ==> apply_patch(e, p, now).transcript == e.transcript,
{
}

/// One row of the memoization table: write-once per (key, category),
/// never expired.
#[derive(Debug, Clone, PartialEq, Eq)]
pub struct CacheRecord {
    pub key: String,
    pub category: String,
    pub value: String,
    pub created_at: String,
}

/// An open action item surfaced in a prep briefing, tagged with the
/// date of the entry it came from.
#[derive(Debug, Clone, PartialEq, Eq)]
pub struct PrepActionItem {
    pub text: String,
    pub date: String,
}

/// How often one tag occurred across the aggregated entries.
#[derive(Debug, Clone, PartialEq, Eq)]
pub struct TagCount {
    pub tag: String,
    pub count: usize,
}

/// One point of a morale or growth time series.
#[derive(Debug, Clone, PartialEq, Eq)]
pub struct ScorePoint {
    pub date: String,
    pub score: i64,
}

/// A full prep briefing: the narrative text plus the aggregates that
/// were computed without the model.
#[derive(Debug, Clone, PartialEq, Eq)]
pub struct PrepResponse {
    pub briefing: String,
    pub open_items_mine: Vec<PrepActionItem>,
    pub open_items_theirs: Vec<PrepActionItem>,
    pub recent_tags: Vec<TagCount>,
    pub unresolved_blockers: Vec<String>,
    pub morale_scores: Vec<ScorePoint>,
    pub growth_scores: Vec<ScorePoint>,
}

/// The mathematical shape of a briefing action item.
pub struct PrepActionItemView {
    pub text: Seq<char>,
    pub date: Seq<char>,
}

impl DeepView for PrepActionItem {
    type V = PrepActionItemView;

    open spec fn deep_view(&self) -> PrepActionItemView {
        PrepActionItemView { text: self.text@, date: self.date@ }
    }
}

/// The mathematical shape of a tag tally.
pub struct TagCountView {
    pub tag: Seq<char>,
    pub count: usize,
}

impl DeepView for TagCount {
    type V = TagCountView;

    open spec fn deep_view(&self) -> TagCountView {
        TagCountView { tag: self.tag@, count: self.count }
    }
}

/// The mathematical shape of a time-series point.
pub struct ScorePointView {
    pub date: Seq<char>,
    pub score: i64,
}

impl DeepView for ScorePoint {
    type V = ScorePointView;

    open spec fn deep_view(&self) -> ScorePointView {
        ScorePointView { date: self.date@, score: self.score }
    }
}

/// The aggregates of a prep briefing, computed without the model.
#[derive(Debug, Clone, PartialEq, Eq)]
pub struct PrepAggregates {
    pub open_items_mine: Vec<PrepActionItem>,
    pub open_items_theirs: Vec<PrepActionItem>,
    pub recent_tags: Vec<TagCount>,
    pub unresolved_blockers: Vec<String>,
    pub morale_scores: Vec<ScorePoint>,
    pub growth_scores: Vec<ScorePoint>,
}

/// Which language-model vendor a call will go to.
#[derive(Debug, Clone, Copy, PartialEq, Eq)]
pub enum Provider {
    Anthropic,
    OpenAi,
}

/// Static capability flags handed to the user interface.
#[derive(Debug, Clone, Copy, PartialEq, Eq)]
pub struct Config {
    pub jira_configured: bool,
}

/// The static capability flags: no issue-tracker integration is wired up.
pub fn get_config() -> (r: Config)
    ensures
        r.jira_configured == false,
{
    Config { jira_configured: false }
}

} // verus!
