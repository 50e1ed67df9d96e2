//! The journal's store: team members, entries and the memoization
//! cache, held in memory and kept well formed. Identifiers are unique,
//! every entry references an existing member, and entries stand newest
//! date first. Persistence is the caller's concern; every rule about
//! the data lives here.

use vstd::prelude::*;
use vstd::pervasive::VecAdditionalExecFns;

use crate::types::ActionItem;
use crate::types::ActionItemView;
use crate::types::CacheRecord;
use crate::types::CacheRecordView;
use crate::types::Entry;
use crate::types::EntryView;
use crate::types::EntryInput;
use crate::types::EntryPatch;
use crate::types::TeamMember;
use crate::types::TeamMemberView;
use crate::strutil::lex_le;
use crate::strutil::lemma_lex_le_total;
use crate::strutil::lemma_lex_le_refl;
use crate::strutil::lemma_lex_le_trans;
use crate::strutil::str_eq;
use crate::strutil::str_le;
use crate::strutil::dec_digits;
use crate::strutil::dup_strings;
use crate::strutil::u64_to_string;

verus! {

// ─── Well-formedness ────────────────────────────────────

/// No two members share an id.
pub open spec fn member_ids_unique(ms: Seq<TeamMemberView>) -> bool {
    forall|i: int, j: int| 0 <= i < j < ms.len() ==> ms[i].id != ms[j].id
}

/// Some member carries this id.
pub open spec fn has_member(ms: Seq<TeamMemberView>, id: Seq<char>) -> bool {
    exists|i: int| 0 <= i < ms.len() && ms[i].id == id
}

/// The position of the member with this id.
pub open spec fn member_index(ms: Seq<TeamMemberView>, id: Seq<char>) -> int {
    choose|i: int| 0 <= i < ms.len() && ms[i].id == id
}

/// No two entries share an id.
pub open spec fn entry_ids_unique(es: Seq<EntryView>) -> bool {
    forall|i: int, j: int| 0 <= i < j < es.len() ==> es[i].id != es[j].id
}

/// Some entry carries this id.
pub open spec fn has_entry(es: Seq<EntryView>, id: Seq<char>) -> bool {
    exists|i: int| 0 <= i < es.len() && es[i].id == id
}

/// The position of the entry with this id.
pub open spec fn entry_index(es: Seq<EntryView>, id: Seq<char>) -> int {
    choose|i: int| 0 <= i < es.len() && es[i].id == id
}

/// Entries stand newest date first.
pub open spec fn sorted_newest_first(es: Seq<EntryView>) -> bool {
    forall|i: int, j: int| 0 <= i <= j < es.len() ==> lex_le(es[j].date, es[i].date)
}

/// Every entry references an existing member.
pub open spec fn entries_reference_members(
    es: Seq<EntryView>,
    ms: Seq<TeamMemberView>,
) -> bool {
    forall|k: int| 0 <= k < es.len() ==> has_member(ms, es[k].member_id)
}

/// No two cache rows share a (key, category) pair.
pub open spec fn cache_keys_unique(cs: Seq<CacheRecordView>) -> bool {
    forall|i: int, j: int|
        0 <= i < j < cs.len() ==> !(cs[i].key == cs[j].key && cs[i].category == cs[j].category)
}

/// Some cache row carries this (key, category) pair.
pub open spec fn has_cache(cs: Seq<CacheRecordView>, key: Seq<char>, category: Seq<char>) -> bool {
    exists|i: int| 0 <= i < cs.len() && cs[i].key == key && cs[i].category == category
}

/// The position of the cache row with this (key, category) pair.
pub open spec fn cache_index(cs: Seq<CacheRecordView>, key: Seq<char>, category: Seq<char>) -> int {
    choose|i: int| 0 <= i < cs.len() && cs[i].key == key && cs[i].category == category
}

/// The store: the journal's three tables, held in memory.
pub struct Store {
    pub members: Vec<TeamMember>,
    pub entries: Vec<Entry>,
    pub cache: Vec<CacheRecord>,
}

/// The data rules, over loose rows.
pub open spec fn parts_wf(
    ms: Seq<TeamMemberView>,
    es: Seq<EntryView>,
    cs: Seq<CacheRecordView>,
) -> bool {
    &&& member_ids_unique(ms)
    &&& entry_ids_unique(es)
    &&& sorted_newest_first(es)
    &&& entries_reference_members(es, ms)
    &&& cache_keys_unique(cs)
}

impl Store {
    /// The data rules every operation preserves.
    pub open spec fn wf(self) -> bool {
        parts_wf(self.members.deep_view(), self.entries.deep_view(), self.cache.deep_view())
    }

    /// Builds a store from loose rows, as read back from persistent
    /// storage, checking every data rule; `None` where one fails, so
    /// a caller holds a well-formed store or none at all.
    pub fn from_rows(
        members: Vec<TeamMember>,
        entries: Vec<Entry>,
        cache: Vec<CacheRecord>,
    ) -> (r: Option<Store>)
        ensures
            r is Some <==> parts_wf(
                members.deep_view(),
                entries.deep_view(),
                cache.deep_view(),
            ),
            (match r {
                Some(s) => s.wf() && s.members == members && s.entries == entries && s.cache
                    == cache,
                None => true,
            }),
    {
        let ok = check_member_ids_unique(&members) && check_entry_ids_unique(&entries)
            && check_sorted_newest_first(&entries) && check_references(&entries, &members)
            && check_cache_keys_unique(&cache);
        if ok {
            Some(Store { members, entries, cache })
        } else {
            None
        }
    }

    /// An empty store.
    pub fn new() -> (r: Store)
        ensures
            r.wf(),
            r.members.deep_view() == Seq::<TeamMemberView>::empty(),
            r.entries.deep_view() == Seq::<EntryView>::empty(),
            r.cache.deep_view() == Seq::<CacheRecordView>::empty(),
    {
        let r = Store { members: Vec::new(), entries: Vec::new(), cache: Vec::new() };
        proof {
            assert(r.members.deep_view() =~= Seq::<TeamMemberView>::empty());
            assert(r.entries.deep_view() =~= Seq::<EntryView>::empty());
            assert(r.cache.deep_view() =~= Seq::<CacheRecordView>::empty());
        }
        r
    }

    /// The position of the member with this id, if any.
    fn find_member_index(&self, id: &str) -> (r: Option<usize>)
        ensures
            (match r {
                Some(k) => k < self.members@.len() && self.members.deep_view()[k as int].id
                    == id@,
                None => !has_member(self.members.deep_view(), id@),
            }),
    {
        let mut i: usize = 0;
        while i < self.members.len()
            invariant
                0 <= i <= self.members@.len(),
                forall|j: int| 0 <= j < i ==> self.members.deep_view()[j].id != id@,
            decreases self.members@.len() - i,
        {
            if str_eq(self.members[i].id.as_str(), id) {
                return Some(i);
            }
            i = i + 1;
        }
        None
    }

    /// A copy of the member list, as the UI shows it.
    pub fn get_team_members(&self) -> (r: Vec<TeamMember>)
        ensures
            r.deep_view() == self.members.deep_view(),
    {
        let mut r: Vec<TeamMember> = Vec::new();
        let mut i: usize = 0;
        while i < self.members.len()
            invariant
                0 <= i <= self.members@.len(),
                r@.len() == i,
                r.deep_view() == self.members.deep_view().take(i as int),
            decreases self.members@.len() - i,
        {
            let ghost prevv = r@;
            let ghost prev = r.deep_view();
            let m = dup_member(&self.members[i]);
            let ghost mv = m;
            proof {
                assert(mv == self.members@[i as int]);
            }
            r.push(m);
            proof {
                assert forall|k: int| 0 <= k < prev.len() implies r.deep_view()[k] == prev[k] by {
                    assert(r@[k] == prevv[k]);
                }
                assert(r@.len() == i + 1);
                assert(r@[i as int].deep_view() == self.members@[i as int].deep_view());
                assert(r.deep_view()[i as int] == r@[i as int].deep_view());
                assert(self.members.deep_view()[i as int] == self.members@[i as int].deep_view());
                assert(r.deep_view() =~= self.members.deep_view().take(i + 1 as int));
            }
            i = i + 1;
        }
        proof {
            assert(self.members.deep_view().take(self.members@.len() as int)
                =~= self.members.deep_view());
        }
        r
    }

    /// The name of the member with this id, if any.
    pub fn get_member_name(&self, member_id: &str) -> (r: Option<String>)
        requires
            self.wf(),
        ensures
            r is Some <==> has_member(self.members.deep_view(), member_id@),
            (match r {
                Some(name) => name@ == self.members.deep_view()[member_index(
                    self.members.deep_view(),
                    member_id@,
                )].name,
                None => true,
            }),
    {
        match self.find_member_index(member_id) {
            Some(k) => {
                proof {
                    let ms = self.members.deep_view();
                    assert(ms[k as int].id == member_id@);
                    let ci = member_index(ms, member_id@);
                    assert(0 <= ci < ms.len() && ms[ci].id == member_id@);
                    assert(ci == k as int);
                }
                Some(self.members[k].name.clone())
            },
            None => None,
        }
    }
}

/// A string, or a fallback where it is empty.
pub open spec fn defaulted(s: Seq<char>, d: Seq<char>) -> Seq<char> {
    if s.len() == 0 {
        d
    } else {
        s
    }
}

/// The identifier assigned to a member created at this clock reading.
pub open spec fn member_id_of(now_millis: u64) -> Seq<char> {
    "member-"@ + dec_digits(now_millis as nat)
}

/// A freshly created member: placeholders fill the empty fields, no
/// tracker account, no prep notes.
pub open spec fn new_member_view(
    id: Seq<char>,
    name: Seq<char>,
    role: Seq<char>,
    color: Seq<char>,
) -> TeamMemberView {
    TeamMemberView {
        id: id,
        name: defaulted(name, "New Member"@),
        role: defaulted(role, "Engineer"@),
        color: defaulted(color, "#888888"@),
        jira_account_id: None,
        prep_notes: None,
    }
}

/// A member after an update: name, role, color and tracker account
/// replaced, prep notes kept.
pub open spec fn updated_member_view(
    m: TeamMemberView,
    name: Seq<char>,
    role: Seq<char>,
    color: Seq<char>,
    jira_account_id: Option<Seq<char>>,
) -> TeamMemberView {
    TeamMemberView {
        id: m.id,
        name: name,
        role: role,
        color: color,
        jira_account_id: jira_account_id,
        prep_notes: m.prep_notes,
    }
}

impl Store {
    /// Creates a member with an identifier derived from the clock and
    /// placeholder values for empty fields. Refused only when that
    /// identifier is already taken.
    pub fn create_team_member(
        &mut self,
        name: &str,
        role: &str,
        color: &str,
        now_millis: u64,
    ) -> (r: Option<TeamMember>)
        requires
            old(self).wf(),
        ensures
            final(self).wf(),
            final(self).entries@ == old(self).entries@,
            final(self).cache@ == old(self).cache@,
            has_member(old(self).members.deep_view(), member_id_of(now_millis)) ==> r is None
                && final(self).members@ == old(self).members@,
            !has_member(old(self).members.deep_view(), member_id_of(now_millis)) ==> {
                let m = new_member_view(member_id_of(now_millis), name@, role@, color@);
                &&& final(self).members.deep_view() == old(self).members.deep_view().push(m)
                &&& r is Some
                &&& r.unwrap().deep_view() == m
            },
    {
        let mut id = String::new();
        id.append("member-");
        let ticks = u64_to_string(now_millis);
        id.append(ticks.as_str());
        proof {
            assert(id@ == member_id_of(now_millis));
        }
        if self.find_member_index(id.as_str()).is_some() {
            return None;
        }
        let member = TeamMember {
            id,
            name: if name.is_empty() {
                String::from_str("New Member")
            } else {
                String::from_str(name)
            },
            role: if role.is_empty() {
                String::from_str("Engineer")
            } else {
                String::from_str(role)
            },
            color: if color.is_empty() {
                String::from_str("#888888")
            } else {
                String::from_str(color)
            },
            jira_account_id: None,
            prep_notes: None,
        };
        let copy = dup_member(&member);
        let ghost oldms = self.members.deep_view();
        let ghost mview = member.deep_view();
        self.members.push(member);
        proof {
            assert forall|k: int| 0 <= k < oldms.len() implies self.members.deep_view()[k]
                == oldms[k] by {
                assert(self.members@[k] == old(self).members@[k]);
            }
            assert(self.members.deep_view() =~= oldms.push(mview));
            assert(mview == new_member_view(member_id_of(now_millis), name@, role@, color@));
            assert forall|k: int|
                0 <= k < self.entries.deep_view().len() implies has_member(
                self.members.deep_view(),
                self.entries.deep_view()[k].member_id,
            ) by {
                let w = choose|i: int|
                    0 <= i < oldms.len() && oldms[i].id == self.entries.deep_view()[k].member_id;
                assert(self.members.deep_view()[w].id == self.entries.deep_view()[k].member_id);
            }
        }
        Some(copy)
    }

    /// Replaces a member's name, role, color and tracker account;
    /// prep notes are untouched. `None` when no member has this id.
    pub fn update_team_member(
        &mut self,
        id: &str,
        name: &str,
        role: &str,
        color: &str,
        jira_account_id: Option<&str>,
    ) -> (r: Option<TeamMember>)
        requires
            old(self).wf(),
        ensures
            final(self).wf(),
            final(self).entries@ == old(self).entries@,
            final(self).cache@ == old(self).cache@,
            r is Some <==> has_member(old(self).members.deep_view(), id@),
            !has_member(old(self).members.deep_view(), id@) ==> final(self).members@ == old(
                self,
            ).members@,
            has_member(old(self).members.deep_view(), id@) ==> {
                let ms = old(self).members.deep_view();
                let k = member_index(ms, id@);
                let m = updated_member_view(ms[k], name@, role@, color@, jira_account_id.deep_view());
                &&& final(self).members.deep_view() == ms.update(k, m)
                &&& r.unwrap().deep_view() == m
            },
    {
        let k = match self.find_member_index(id) {
            Some(k) => k,
            None => {
                return None;
            },
        };
        let ghost ms = self.members.deep_view();
        proof {
            assert(ms[k as int].id == id@);
            let ci = member_index(ms, id@);
            assert(0 <= ci < ms.len() && ms[ci].id == id@);
            assert(ci == k as int);
        }
        let member = TeamMember {
            id: self.members[k].id.clone(),
            name: String::from_str(name),
            role: String::from_str(role),
            color: String::from_str(color),
            jira_account_id: match jira_account_id {
                Some(j) => Some(String::from_str(j)),
                None => None,
            },
            prep_notes: dup_opt_string(&self.members[k].prep_notes),
        };
        let copy = dup_member(&member);
        let ghost mview = member.deep_view();
        self.members.set(k, member);
        proof {
            assert forall|t: int|
                0 <= t < ms.len() && t != k as int implies self.members.deep_view()[t] == ms[t] by {
                assert(self.members@[t] == old(self).members@[t]);
            }
            assert(self.members.deep_view() =~= ms.update(k as int, mview));
            assert(mview == updated_member_view(
                ms[k as int],
                name@,
                role@,
                color@,
                jira_account_id.deep_view(),
            ));
            assert forall|t: int|
                0 <= t < self.entries.deep_view().len() implies has_member(
                self.members.deep_view(),
                self.entries.deep_view()[t].member_id,
            ) by {
                let w = choose|i: int|
                    0 <= i < ms.len() && ms[i].id == self.entries.deep_view()[t].member_id;
                assert(self.members.deep_view()[w].id == self.entries.deep_view()[t].member_id);
            }
        }
        Some(copy)
    }

    /// Stores, or clears, the manually kept prep notes of a member.
    /// An empty text clears them. `false` when no member has this id.
    pub fn update_prep_notes(&mut self, member_id: &str, prep_notes: &str) -> (r: bool)
        requires
            old(self).wf(),
        ensures
            final(self).wf(),
            final(self).entries@ == old(self).entries@,
            final(self).cache@ == old(self).cache@,
            r == has_member(old(self).members.deep_view(), member_id@),
            !r ==> final(self).members@ == old(self).members@,
            r ==> {
                let ms = old(self).members.deep_view();
                let k = member_index(ms, member_id@);
                let m = (TeamMemberView {
                    prep_notes: (if prep_notes@.len() == 0 {
                        None
                    } else {
                        Some(prep_notes@)
                    }),
                    ..ms[k]
                });
                final(self).members.deep_view() == ms.update(k, m)
            },
    {
        let k = match self.find_member_index(member_id) {
            Some(k) => k,
            None => {
                return false;
            },
        };
        let ghost ms = self.members.deep_view();
        proof {
            assert(ms[k as int].id == member_id@);
            let ci = member_index(ms, member_id@);
            assert(0 <= ci < ms.len() && ms[ci].id == member_id@);
            assert(ci == k as int);
        }
        let member = TeamMember {
            id: self.members[k].id.clone(),
            name: self.members[k].name.clone(),
            role: self.members[k].role.clone(),
            color: self.members[k].color.clone(),
            jira_account_id: dup_opt_string(&self.members[k].jira_account_id),
            prep_notes: if prep_notes.is_empty() {
                None
            } else {
                Some(String::from_str(prep_notes))
            },
        };
        let ghost mview = member.deep_view();
        self.members.set(k, member);
        proof {
            assert forall|t: int|
                0 <= t < ms.len() && t != k as int implies self.members.deep_view()[t] == ms[t] by {
                assert(self.members@[t] == old(self).members@[t]);
            }
            assert(self.members.deep_view() =~= ms.update(k as int, mview));
            assert forall|t: int|
                0 <= t < self.entries.deep_view().len() implies has_member(
                self.members.deep_view(),
                self.entries.deep_view()[t].member_id,
            ) by {
                let w = choose|i: int|
                    0 <= i < ms.len() && ms[i].id == self.entries.deep_view()[t].member_id;
                assert(self.members.deep_view()[w].id == self.entries.deep_view()[t].member_id);
            }
        }
        true
    }
}

// ─── Row checks for loading ─────────────────────────────

/// Whether no two members share an id.
fn check_member_ids_unique(ms: &Vec<TeamMember>) -> (r: bool)
    ensures
        r == member_ids_unique(ms.deep_view()),
{
    let mut i: usize = 0;
    while i < ms.len()
        invariant
            0 <= i <= ms@.len(),
            forall|a: int, b: int| 0 <= a < b < i ==> ms.deep_view()[a].id != ms.deep_view()[b].id,
        decreases ms@.len() - i,
    {
        let mut j: usize = 0;
        while j < i
            invariant
                0 <= j <= i < ms@.len(),
                forall|a: int| 0 <= a < j ==> ms.deep_view()[a].id != ms.deep_view()[i as int].id,
            decreases i - j,
        {
            if str_eq(ms[j].id.as_str(), ms[i].id.as_str()) {
                proof {
                    assert(ms.deep_view()[j as int].id == ms.deep_view()[i as int].id);
                }
                return false;
            }
            j = j + 1;
        }
        i = i + 1;
    }
    true
}

/// Whether no two entries share an id.
fn check_entry_ids_unique(es: &Vec<Entry>) -> (r: bool)
    ensures
        r == entry_ids_unique(es.deep_view()),
{
    let mut i: usize = 0;
    while i < es.len()
        invariant
            0 <= i <= es@.len(),
            forall|a: int, b: int| 0 <= a < b < i ==> es.deep_view()[a].id != es.deep_view()[b].id,
        decreases es@.len() - i,
    {
        let mut j: usize = 0;
        while j < i
            invariant
                0 <= j <= i < es@.len(),
                forall|a: int| 0 <= a < j ==> es.deep_view()[a].id != es.deep_view()[i as int].id,
            decreases i - j,
        {
            if str_eq(es[j].id.as_str(), es[i].id.as_str()) {
                proof {
                    assert(es.deep_view()[j as int].id == es.deep_view()[i as int].id);
                }
                return false;
            }
            j = j + 1;
        }
        i = i + 1;
    }
    true
}

/// A list whose neighbours are ordered is ordered throughout.
proof fn lemma_adjacent_sorted(es: Seq<EntryView>, i: int, j: int)
    requires
        forall|k: int| 0 <= k < es.len() - 1 ==> lex_le(es[k + 1].date, (#[trigger] es[k]).date),
        0 <= i <= j < es.len(),
    ensures
        lex_le(es[j].date, es[i].date),
    decreases j - i,
{
    if i == j {
        lemma_lex_le_refl(es[i].date);
    } else {
        lemma_adjacent_sorted(es, i, j - 1);
        assert(lex_le(es[j].date, es[j - 1].date));
        lemma_lex_le_trans(es[j].date, es[j - 1].date, es[i].date);
    }
}

/// Whether the entries stand newest date first.
fn check_sorted_newest_first(es: &Vec<Entry>) -> (r: bool)
    ensures
        r == sorted_newest_first(es.deep_view()),
{
    let mut i: usize = 0;
    if es.len() == 0 {
        return true;
    }
    while i < es.len() - 1
        invariant
            es@.len() > 0,
            0 <= i <= es@.len() - 1,
            forall|k: int|
                0 <= k < i ==> lex_le(
                    es.deep_view()[k + 1].date,
                    (#[trigger] es.deep_view()[k]).date,
                ),
        decreases es@.len() - i,
    {
        if !str_le(es[i + 1].date.as_str(), es[i].date.as_str()) {
            proof {
                lemma_lex_le_total(es.deep_view()[i + 1].date, es.deep_view()[i as int].date);
                assert(!lex_le(es.deep_view()[i + 1].date, es.deep_view()[i as int].date));
            }
            return false;
        }
        i = i + 1;
    }
    proof {
        assert forall|a: int, b: int|
            0 <= a <= b < es.deep_view().len() implies lex_le(
            es.deep_view()[b].date,
            es.deep_view()[a].date,
        ) by {
            lemma_adjacent_sorted(es.deep_view(), a, b);
        }
    }
    true
}

/// Whether every entry references one of the members.
fn check_references(es: &Vec<Entry>, ms: &Vec<TeamMember>) -> (r: bool)
    ensures
        r == entries_reference_members(es.deep_view(), ms.deep_view()),
{
    let mut i: usize = 0;
    while i < es.len()
        invariant
            0 <= i <= es@.len(),
            forall|k: int| 0 <= k < i ==> has_member(ms.deep_view(), es.deep_view()[k].member_id),
        decreases es@.len() - i,
    {
        let mut j: usize = 0;
        let mut found = false;
        while j < ms.len() && !found
            invariant
                0 <= j <= ms@.len(),
                0 <= i < es@.len(),
                found ==> has_member(ms.deep_view(), es.deep_view()[i as int].member_id),
                !found ==> forall|a: int|
                    0 <= a < j ==> ms.deep_view()[a].id != es.deep_view()[i as int].member_id,
            decreases ms@.len() - j + (if found {
                0int
            } else {
                1int
            }),
        {
            if str_eq(ms[j].id.as_str(), es[i].member_id.as_str()) {
                proof {
                    assert(ms.deep_view()[j as int].id == es.deep_view()[i as int].member_id);
                }
                found = true;
            } else {
                j = j + 1;
            }
        }
        if !found {
            return false;
        }
        i = i + 1;
    }
    true
}

/// Whether no two cache rows share a (key, category) pair.
fn check_cache_keys_unique(cs: &Vec<CacheRecord>) -> (r: bool)
    ensures
        r == cache_keys_unique(cs.deep_view()),
{
    let mut i: usize = 0;
    while i < cs.len()
        invariant
            0 <= i <= cs@.len(),
            forall|a: int, b: int|
                0 <= a < b < i ==> !(cs.deep_view()[a].key == cs.deep_view()[b].key
                    && cs.deep_view()[a].category == cs.deep_view()[b].category),
        decreases cs@.len() - i,
    {
        let mut j: usize = 0;
        while j < i
            invariant
                0 <= j <= i < cs@.len(),
                forall|a: int|
                    0 <= a < j ==> !(cs.deep_view()[a].key == cs.deep_view()[i as int].key
                        && cs.deep_view()[a].category == cs.deep_view()[i as int].category),
            decreases i - j,
        {
            if str_eq(cs[j].key.as_str(), cs[i].key.as_str()) && str_eq(
                cs[j].category.as_str(),
                cs[i].category.as_str(),
            ) {
                proof {
                    assert(cs.deep_view()[j as int].key == cs.deep_view()[i as int].key
                        && cs.deep_view()[j as int].category == cs.deep_view()[i as int].category);
                }
                return false;
            }
            j = j + 1;
        }
        i = i + 1;
    }
    true
}

// ─── Filtering helpers ──────────────────────────────────

/// Keeps the members that do not carry this id.
pub open spec fn keeps_member(id: Seq<char>) -> spec_fn(TeamMemberView) -> bool {
    |m: TeamMemberView| m.id != id
}

/// Keeps the entries that do not reference this member.
pub open spec fn keeps_entries_of_others(id: Seq<char>) -> spec_fn(EntryView) -> bool {
    |e: EntryView| e.member_id != id
}

/// Keeps the entries that do not carry this id.
pub open spec fn keeps_other_entries(id: Seq<char>) -> spec_fn(EntryView) -> bool {
    |e: EntryView| e.id != id
}

/// Every element of a filtered sequence comes from the original.
proof fn lemma_filter_element_of<A>(s: Seq<A>, pred: spec_fn(A) -> bool, i: int)
    requires
        0 <= i < s.filter(pred).len(),
    ensures
        exists|k: int| 0 <= k < s.len() && s[k] == s.filter(pred)[i],
    decreases s.len(),
{
    reveal(Seq::filter);
    if s.len() > 0 {
        let f = s.filter(pred);
        let d = s.drop_last();
        if pred(s.last()) && i == f.len() - 1 {
            assert(s[s.len() - 1] == f[i]);
        } else {
            lemma_filter_element_of(d, pred, i);
            let k = choose|k: int| 0 <= k < d.len() && d[k] == d.filter(pred)[i];
            assert(s[k] == f[i]);
        }
    }
}

/// A filtered sequence is a subsequence: two of its elements, in
/// order, come from two elements of the original, in order.
proof fn lemma_filter_pair_of<A>(s: Seq<A>, pred: spec_fn(A) -> bool, i: int, j: int)
    requires
        0 <= i < j < s.filter(pred).len(),
    ensures
        exists|k: int, l: int|
            0 <= k < l < s.len() && s[k] == s.filter(pred)[i] && s[l] == s.filter(pred)[j],
    decreases s.len(),
{
    reveal(Seq::filter);
    if s.len() > 0 {
        let f = s.filter(pred);
        let d = s.drop_last();
        if pred(s.last()) && j == f.len() - 1 {
            lemma_filter_element_of(d, pred, i);
            let k = choose|k: int| 0 <= k < d.len() && d[k] == d.filter(pred)[i];
            assert(s[k] == f[i] && s[s.len() - 1] == f[j]);
        } else {
            lemma_filter_pair_of(d, pred, i, j);
            let (k, l): (int, int) = choose|k: int, l: int|
                0 <= k < l < d.len() && d[k] == d.filter(pred)[i] && d[l] == d.filter(pred)[j];
            assert(s[k] == f[i] && s[l] == f[j]);
        }
    }
}

impl Store {
    /// Removes a member and, in the same step, every entry that
    /// references it; nothing else changes. `false` when no member
    /// has this id, and then nothing at all changes.
    pub fn delete_team_member(&mut self, id: &str) -> (r: bool)
        requires
            old(self).wf(),
        ensures
            final(self).wf(),
            final(self).cache@ == old(self).cache@,
            r == has_member(old(self).members.deep_view(), id@),
            final(self).members.deep_view() == old(self).members.deep_view().filter(
                keeps_member(id@),
            ),
            final(self).entries.deep_view() == old(self).entries.deep_view().filter(
                keeps_entries_of_others(id@),
            ),
    {
        let ghost ms = self.members.deep_view();
        let ghost es = self.entries.deep_view();

        let mut kept_members: Vec<TeamMember> = Vec::new();
        let mut found = false;
        let mut i: usize = 0;
        proof {
            assert(ms.take(0).filter(keeps_member(id@)) =~= Seq::<TeamMemberView>::empty());
            assert(kept_members.deep_view() =~= Seq::<TeamMemberView>::empty());
        }
        while i < self.members.len()
            invariant
                0 <= i <= self.members@.len(),
                ms == self.members.deep_view(),
                kept_members.deep_view() == ms.take(i as int).filter(keeps_member(id@)),
                found == exists|j: int| 0 <= j < i && ms[j].id == id@,
            decreases self.members@.len() - i,
        {
            let ghost prevv = kept_members@;
            let ghost prev = kept_members.deep_view();
            proof {
                reveal(Seq::filter);
                assert(ms.take(i + 1 as int).drop_last() =~= ms.take(i as int));
                assert(ms.take(i + 1 as int).last() == ms[i as int]);
            }
            if str_eq(self.members[i].id.as_str(), id) {
                found = true;
                proof {
                    assert(ms[i as int].id == id@);
                }
            } else {
                let m = dup_member(&self.members[i]);
                let ghost mv = m;
                proof {
                    assert(mv == self.members@[i as int]);
                    assert(ms[i as int] == self.members@[i as int].deep_view());
                    assert(ms[i as int].id == self.members@[i as int].id@);
                    assert(self.members@[i as int].id@ != id@);
                    assert(keeps_member(id@)(ms[i as int]));
                }
                kept_members.push(m);
                proof {
                    assert forall|k: int|
                        0 <= k < prev.len() implies kept_members.deep_view()[k] == prev[k] by {
                        assert(kept_members@[k] == prevv[k]);
                    }
                    assert(kept_members.deep_view() =~= ms.take(i + 1 as int).filter(keeps_member(id@)));
                }
            }
            i = i + 1;
        }
        proof {
            assert(ms.take(ms.len() as int) =~= ms);
        }
        self.members = kept_members;

        let mut kept_entries: Vec<Entry> = Vec::new();
        let mut t: usize = 0;
        proof {
            assert(es.take(0).filter(keeps_entries_of_others(id@)) =~= Seq::<EntryView>::empty());
            assert(kept_entries.deep_view() =~= Seq::<EntryView>::empty());
        }
        while t < self.entries.len()
            invariant
                0 <= t <= self.entries@.len(),
                es == self.entries.deep_view(),
                kept_entries.deep_view() == es.take(t as int).filter(keeps_entries_of_others(id@)),
            decreases self.entries@.len() - t,
        {
            let ghost prevv = kept_entries@;
            let ghost prev = kept_entries.deep_view();
            proof {
                reveal(Seq::filter);
                assert(es.take(t + 1 as int).drop_last() =~= es.take(t as int));
                assert(es.take(t + 1 as int).last() == es[t as int]);
            }
            if !str_eq(self.entries[t].member_id.as_str(), id) {
                let e = dup_entry(&self.entries[t]);
                proof {
                    assert(e.deep_view() == self.entries@[t as int].deep_view());
                    assert(keeps_entries_of_others(id@)(es[t as int]));
                }
                kept_entries.push(e);
                proof {
                    assert forall|k: int|
                        0 <= k < prev.len() implies kept_entries.deep_view()[k] == prev[k] by {
                        assert(kept_entries@[k] == prevv[k]);
                    }
                    assert(kept_entries.deep_view() =~= es.take(t + 1 as int).filter(keeps_entries_of_others(id@)));
                }
            } else {
                proof {
                    assert(!keeps_entries_of_others(id@)(es[t as int]));
                }
            }
            t = t + 1;
        }
        proof {
            assert(es.take(es.len() as int) =~= es);
        }
        self.entries = kept_entries;

        proof {
            let fm = ms.filter(keeps_member(id@));
            let fe = es.filter(keeps_entries_of_others(id@));
            assert forall|a: int, b: int| 0 <= a < b < fm.len() implies fm[a].id != fm[b].id by {
                lemma_filter_pair_of(ms, keeps_member(id@), a, b);
            }
            assert forall|a: int, b: int| 0 <= a < b < fe.len() implies fe[a].id != fe[b].id by {
                lemma_filter_pair_of(es, keeps_entries_of_others(id@), a, b);
            }
            assert forall|a: int, b: int|
                0 <= a <= b < fe.len() implies lex_le(fe[b].date, fe[a].date) by {
                if a < b {
                    lemma_filter_pair_of(es, keeps_entries_of_others(id@), a, b);
                } else {
                    lemma_lex_le_refl(fe[a].date);
                }
            }
            assert forall|k: int| 0 <= k < fe.len() implies has_member(fm, fe[k].member_id) by {
                lemma_filter_element_of(es, keeps_entries_of_others(id@), k);
                let o = choose|o: int| 0 <= o < es.len() && es[o] == fe[k];
                let w = choose|w: int| 0 <= w < ms.len() && ms[w].id == es[o].member_id;
                assert(keeps_member(id@)(ms[w]));
                ms.lemma_filter_contains(keeps_member(id@), w);
                let p = choose|p: int| 0 <= p < fm.len() && fm[p] == ms[w];
                assert(fm[p].id == fe[k].member_id);
            }
        }
        found
    }

    /// Removes one entry. `false` when no entry has this id, and then
    /// nothing changes. Members and cache are untouched either way.
    pub fn delete_entry(&mut self, id: &str) -> (r: bool)
        requires
            old(self).wf(),
        ensures
            final(self).wf(),
            final(self).members@ == old(self).members@,
            final(self).cache@ == old(self).cache@,
            r == has_entry(old(self).entries.deep_view(), id@),
            final(self).entries.deep_view() == old(self).entries.deep_view().filter(
                keeps_other_entries(id@),
            ),
    {
        let ghost es = self.entries.deep_view();
        let mut kept_entries: Vec<Entry> = Vec::new();
        let mut found = false;
        let mut t: usize = 0;
        proof {
            assert(es.take(0).filter(keeps_other_entries(id@)) =~= Seq::<EntryView>::empty());
            assert(kept_entries.deep_view() =~= Seq::<EntryView>::empty());
        }
        while t < self.entries.len()
            invariant
                0 <= t <= self.entries@.len(),
                es == self.entries.deep_view(),
                kept_entries.deep_view() == es.take(t as int).filter(keeps_other_entries(id@)),
                found == exists|j: int| 0 <= j < t && es[j].id == id@,
            decreases self.entries@.len() - t,
        {
            let ghost prevv = kept_entries@;
            let ghost prev = kept_entries.deep_view();
            proof {
                reveal(Seq::filter);
                assert(es.take(t + 1 as int).drop_last() =~= es.take(t as int));
                assert(es.take(t + 1 as int).last() == es[t as int]);
            }
            if str_eq(self.entries[t].id.as_str(), id) {
                found = true;
                proof {
                    assert(es[t as int].id == id@);
                    assert(!keeps_other_entries(id@)(es[t as int]));
                }
            } else {
                let e = dup_entry(&self.entries[t]);
                proof {
                    assert(e.deep_view() == self.entries@[t as int].deep_view());
                    assert(keeps_other_entries(id@)(es[t as int]));
                }
                kept_entries.push(e);
                proof {
                    assert forall|k: int|
                        0 <= k < prev.len() implies kept_entries.deep_view()[k] == prev[k] by {
                        assert(kept_entries@[k] == prevv[k]);
                    }
                    assert(kept_entries.deep_view() =~= es.take(t + 1 as int).filter(keeps_other_entries(id@)));
                }
            }
            t = t + 1;
        }
        proof {
            assert(es.take(es.len() as int) =~= es);
        }
        self.entries = kept_entries;
        proof {
            let fe = es.filter(keeps_other_entries(id@));
            assert forall|a: int, b: int| 0 <= a < b < fe.len() implies fe[a].id != fe[b].id by {
                lemma_filter_pair_of(es, keeps_other_entries(id@), a, b);
            }
            assert forall|a: int, b: int|
                0 <= a <= b < fe.len() implies lex_le(fe[b].date, fe[a].date) by {
                if a < b {
                    lemma_filter_pair_of(es, keeps_other_entries(id@), a, b);
                } else {
                    lemma_lex_le_refl(fe[a].date);
                }
            }
            assert forall|k: int|
                0 <= k < fe.len() implies has_member(
                self.members.deep_view(),
                fe[k].member_id,
            ) by {
                lemma_filter_element_of(es, keeps_other_entries(id@), k);
            }
        }
        found
    }
}

// ─── Entries ────────────────────────────────────────────

/// Keeps the entries that reference this member.
pub open spec fn entry_belongs_to(id: Seq<char>) -> spec_fn(EntryView) -> bool {
    |e: EntryView| e.member_id == id
}

/// The identifier assigned to an entry created at this clock reading.
pub open spec fn entry_id_of(now_millis: u64) -> Seq<char> {
    "entry-"@ + dec_digits(now_millis as nat)
}

/// A supplied, nonempty string, or the fallback.
pub open spec fn chosen_or(o: Option<Seq<char>>, d: Seq<char>) -> Seq<char> {
    match o {
        Some(s) => if s.len() > 0 {
            s
        } else {
            d
        },
        None => d,
    }
}

/// The entry built from a creation request at submission time `now`:
/// a missing id or date is filled in, both timestamps are set to the
/// submission time.
pub open spec fn entry_of_input(inp: EntryInput, now: Seq<char>, now_millis: u64) -> EntryView {
    EntryView {
        id: chosen_or(inp.id.deep_view(), entry_id_of(now_millis)),
        member_id: inp.member_id@,
        date: chosen_or(inp.date.deep_view(), now),
        summary: inp.summary.deep_view(),
        morale_score: inp.morale_score,
        growth_score: inp.growth_score,
        morale_rationale: inp.morale_rationale.deep_view(),
        growth_rationale: inp.growth_rationale.deep_view(),
        tags: inp.tags.deep_view(),
        action_items_mine: inp.action_items_mine.deep_view(),
        action_items_theirs: inp.action_items_theirs.deep_view(),
        notable_quotes: inp.notable_quotes.deep_view(),
        blockers: inp.blockers.deep_view(),
        wins: inp.wins.deep_view(),
        private_note: inp.private_note.deep_view(),
        transcript: inp.transcript.deep_view(),
        created_at: Some(now),
        updated_at: Some(now),
    }
}

/// Where a new entry with this date lands: after every entry whose
/// date is no older, so the list stays newest first.
pub open spec fn insert_pos(es: Seq<EntryView>, d: Seq<char>) -> int
    decreases es.len(),
{
    if es.len() == 0 {
        0
    } else if lex_le(d, es[0].date) {
        1 + insert_pos(es.skip(1), d)
    } else {
        0
    }
}

/// The insert position a left-to-right scan finds is `insert_pos`.
proof fn lemma_insert_pos_is_scan(es: Seq<EntryView>, d: Seq<char>, pos: int)
    requires
        0 <= pos <= es.len(),
        forall|j: int| 0 <= j < pos ==> lex_le(d, es[j].date),
        pos < es.len() ==> !lex_le(d, es[pos].date),
    ensures
        insert_pos(es, d) == pos,
    decreases es.len(),
{
    if pos == 0 {
    } else {
        assert(lex_le(d, es[0].date));
        assert forall|j: int| 0 <= j < pos - 1 implies lex_le(d, es.skip(1)[j].date) by {
            assert(es.skip(1)[j] == es[j + 1]);
        }
        assert(pos - 1 < es.skip(1).len() ==> !lex_le(d, es.skip(1)[pos - 1].date));
        lemma_insert_pos_is_scan(es.skip(1), d, pos - 1);
    }
}

/// Inserting at `insert_pos` keeps the list newest first.
proof fn lemma_sorted_insert(es: Seq<EntryView>, ev: EntryView, p: int)
    requires
        sorted_newest_first(es),
        0 <= p <= es.len(),
        forall|j: int| 0 <= j < p ==> lex_le(ev.date, es[j].date),
        p < es.len() ==> !lex_le(ev.date, es[p].date),
    ensures
        sorted_newest_first(es.insert(p, ev)),
{
    let ns = es.insert(p, ev);
    assert forall|i: int, j: int| 0 <= i <= j < ns.len() implies lex_le(ns[j].date, ns[i].date) by {
        lemma_lex_le_refl(ev.date);
        if p < es.len() {
            lemma_lex_le_total(ev.date, es[p].date);
        }
        if i < p && j == p {
            assert(ns[i] == es[i] && ns[j] == ev);
        } else if i == p && j > p {
            assert(ns[i] == ev && ns[j] == es[j - 1]);
            assert(lex_le(es[j - 1].date, es[p].date));
            lemma_lex_le_trans(es[j - 1].date, es[p].date, ev.date);
        } else if i < p && j > p {
            assert(ns[i] == es[i] && ns[j] == es[j - 1]);
        } else if i > p && j > p {
            assert(ns[i] == es[i - 1] && ns[j] == es[j - 1]);
        } else if i < p && j < p {
            assert(ns[i] == es[i] && ns[j] == es[j]);
        } else {
            assert(i == j);
            lemma_lex_le_refl(ns[i].date);
        }
    }
}

impl Store {
    /// The position of the entry with this id, if any.
    fn find_entry_index(&self, id: &str) -> (r: Option<usize>)
        ensures
            (match r {
                Some(k) => k < self.entries@.len() && self.entries.deep_view()[k as int].id
                    == id@,
                None => !has_entry(self.entries.deep_view(), id@),
            }),
    {
        let mut i: usize = 0;
        while i < self.entries.len()
            invariant
                0 <= i <= self.entries@.len(),
                forall|j: int| 0 <= j < i ==> self.entries.deep_view()[j].id != id@,
            decreases self.entries@.len() - i,
        {
            if str_eq(self.entries[i].id.as_str(), id) {
                return Some(i);
            }
            i = i + 1;
        }
        None
    }

    /// A copy of the entry with this id, if any.
    pub fn get_entry(&self, id: &str) -> (r: Option<Entry>)
        requires
            self.wf(),
        ensures
            r is Some <==> has_entry(self.entries.deep_view(), id@),
            (match r {
                Some(e) => e.deep_view() == self.entries.deep_view()[entry_index(
                    self.entries.deep_view(),
                    id@,
                )],
                None => true,
            }),
    {
        match self.find_entry_index(id) {
            Some(k) => {
                proof {
                    let es = self.entries.deep_view();
                    assert(es[k as int].id == id@);
                    let ci = entry_index(es, id@);
                    assert(0 <= ci < es.len() && es[ci].id == id@);
                    assert(ci == k as int);
                }
                Some(dup_entry(&self.entries[k]))
            },
            None => None,
        }
    }

    /// The entries, newest date first: all of them, or only one
    /// member's.
    pub fn get_entries(&self, member_id: Option<&str>) -> (r: Vec<Entry>)
        ensures
            (match member_id {
                None => r.deep_view() == self.entries.deep_view(),
                Some(mid) => r.deep_view() == self.entries.deep_view().filter(
                    entry_belongs_to(mid@),
                ),
            }),
    {
        let ghost es = self.entries.deep_view();
        match member_id {
            None => {
                let mut r: Vec<Entry> = Vec::new();
                let mut i: usize = 0;
                while i < self.entries.len()
                    invariant
                        0 <= i <= self.entries@.len(),
                        es == self.entries.deep_view(),
                        r@.len() == i,
                        r.deep_view() == es.take(i as int),
                    decreases self.entries@.len() - i,
                {
                    let ghost prevv = r@;
                    let ghost prev = r.deep_view();
                    let e = dup_entry(&self.entries[i]);
                    proof {
                        assert(e.deep_view() == self.entries@[i as int].deep_view());
                    }
                    r.push(e);
                    proof {
                        assert forall|k: int|
                            0 <= k < prev.len() implies r.deep_view()[k] == prev[k] by {
                            assert(r@[k] == prevv[k]);
                        }
                        assert(r.deep_view() =~= es.take(i + 1 as int));
                    }
                    i = i + 1;
                }
                proof {
                    assert(es.take(es.len() as int) =~= es);
                }
                r
            },
            Some(mid) => {
                let mut r: Vec<Entry> = Vec::new();
                let mut i: usize = 0;
                proof {
                    assert(es.take(0).filter(entry_belongs_to(mid@))
                        =~= Seq::<EntryView>::empty());
                    assert(r.deep_view() =~= Seq::<EntryView>::empty());
                }
                while i < self.entries.len()
                    invariant
                        0 <= i <= self.entries@.len(),
                        es == self.entries.deep_view(),
                        r.deep_view() == es.take(i as int).filter(entry_belongs_to(mid@)),
                    decreases self.entries@.len() - i,
                {
                    let ghost prevv = r@;
                    let ghost prev = r.deep_view();
                    proof {
                        reveal(Seq::filter);
                        assert(es.take(i + 1 as int).drop_last() =~= es.take(i as int));
                        assert(es.take(i + 1 as int).last() == es[i as int]);
                    }
                    if str_eq(self.entries[i].member_id.as_str(), mid) {
                        let e = dup_entry(&self.entries[i]);
                        proof {
                            assert(e.deep_view() == self.entries@[i as int].deep_view());
                            assert(entry_belongs_to(mid@)(es[i as int]));
                        }
                        r.push(e);
                        proof {
                            assert forall|k: int|
                                0 <= k < prev.len() implies r.deep_view()[k] == prev[k] by {
                                assert(r@[k] == prevv[k]);
                            }
                            assert(r.deep_view() =~= es.take(i + 1 as int).filter(
                                entry_belongs_to(mid@),
                            ));
                        }
                    } else {
                        proof {
                            assert(!entry_belongs_to(mid@)(es[i as int]));
                        }
                    }
                    i = i + 1;
                }
                proof {
                    assert(es.take(es.len() as int) =~= es);
                }
                r
            },
        }
    }

    /// The newest `limit` entries of one member, newest date first.
    pub fn get_entries_limited(&self, member_id: &str, limit: usize) -> (r: Vec<Entry>)
        ensures
            ({
                let f = self.entries.deep_view().filter(entry_belongs_to(member_id@));
                r.deep_view() == f.take(
                    if limit <= f.len() {
                        limit as int
                    } else {
                        f.len() as int
                    },
                )
            }),
    {
        let ghost es = self.entries.deep_view();
        let ghost pred = entry_belongs_to(member_id@);
        let mut r: Vec<Entry> = Vec::new();
        let mut i: usize = 0;
        proof {
            assert(es.take(0).filter(entry_belongs_to(member_id@))
                =~= Seq::<EntryView>::empty());
            assert(r.deep_view() =~= Seq::<EntryView>::empty());
        }
        while i < self.entries.len() && r.len() < limit
            invariant
                0 <= i <= self.entries@.len(),
                es == self.entries.deep_view(),
                r@.len() <= limit,
                r.deep_view() == es.take(i as int).filter(entry_belongs_to(member_id@)),
            decreases self.entries@.len() - i,
        {
            let ghost prevv = r@;
            let ghost prev = r.deep_view();
            proof {
                reveal(Seq::filter);
                assert(es.take(i + 1 as int).drop_last() =~= es.take(i as int));
                assert(es.take(i + 1 as int).last() == es[i as int]);
            }
            if str_eq(self.entries[i].member_id.as_str(), member_id) {
                let e = dup_entry(&self.entries[i]);
                proof {
                    assert(e.deep_view() == self.entries@[i as int].deep_view());
                    assert(entry_belongs_to(member_id@)(es[i as int]));
                }
                r.push(e);
                proof {
                    assert forall|k: int| 0 <= k < prev.len() implies r.deep_view()[k] == prev[k] by {
                        assert(r@[k] == prevv[k]);
                    }
                    assert(r.deep_view() =~= es.take(i + 1 as int).filter(
                        entry_belongs_to(member_id@),
                    ));
                }
            } else {
                proof {
                    assert(!entry_belongs_to(member_id@)(es[i as int]));
                }
            }
            i = i + 1;
        }
        proof {
            let f = es.filter(entry_belongs_to(member_id@));
            if i == es.len() {
                assert(es.take(es.len() as int) =~= es);
                if limit <= f.len() {
                    assert(r.deep_view().len() == f.len());
                    assert(r.deep_view() =~= f.take(limit as int));
                } else {
                    assert(r.deep_view() =~= f.take(f.len() as int));
                }
            } else {
                assert(r.deep_view().len() == limit);
                assert(es =~= es.take(i as int) + es.skip(i as int));
                Seq::filter_distributes_over_add(
                    es.take(i as int),
                    es.skip(i as int),
                    entry_belongs_to(member_id@),
                );
                es.skip(i as int).lemma_filter_len(entry_belongs_to(member_id@));
                assert(f.len() >= limit);
                assert forall|k: int|
                    0 <= k < limit implies f[k] == r.deep_view()[k] by {
                    assert(f[k] == (es.take(i as int).filter(entry_belongs_to(member_id@))
                        + es.skip(i as int).filter(entry_belongs_to(member_id@)))[k]);
                }
                assert(r.deep_view() =~= f.take(limit as int));
            }
        }
        r
    }
}

impl Store {
    /// Records a new entry at submission time `now`. A missing id or
    /// date is filled in from the clock; both timestamps are set to
    /// the submission time; the member's cached prep notes are
    /// cleared. Refused when the member does not exist or the id is
    /// already taken, and then nothing changes.
    pub fn create_entry(&mut self, input: EntryInput, now: &str, now_millis: u64) -> (r: Option<
        Entry,
    >)
        requires
            old(self).wf(),
        ensures
            final(self).wf(),
            final(self).cache@ == old(self).cache@,
            ({
                let ev = entry_of_input(input, now@, now_millis);
                let ms = old(self).members.deep_view();
                let es = old(self).entries.deep_view();
                if !has_member(ms, ev.member_id) || has_entry(es, ev.id) {
                    &&& r is None
                    &&& final(self).members@ == old(self).members@
                    &&& final(self).entries@ == old(self).entries@
                } else {
                    &&& r is Some
                    &&& r.unwrap().deep_view() == ev
                    &&& final(self).entries.deep_view() == es.insert(insert_pos(es, ev.date), ev)
                    &&& final(self).members.deep_view() == ms.update(
                        member_index(ms, ev.member_id),
                        (TeamMemberView { prep_notes: None, ..ms[member_index(ms, ev.member_id)] }),
                    )
                }
            }),
    {
        let ghost iv = input;
        let ghost ms = self.members.deep_view();
        let ghost es = self.entries.deep_view();
        let EntryInput {
            id: in_id,
            member_id,
            date: in_date,
            summary,
            morale_score,
            growth_score,
            morale_rationale,
            growth_rationale,
            tags,
            action_items_mine,
            action_items_theirs,
            notable_quotes,
            blockers,
            wins,
            private_note,
            transcript,
        } = input;

        let id_s: String = {
            let keep = match &in_id {
                Some(s) => !s.as_str().is_empty(),
                None => false,
            };
            if keep {
                match in_id {
                    Some(s) => s,
                    None => String::new(),
                }
            } else {
                let mut g = String::new();
                g.append("entry-");
                let ticks = u64_to_string(now_millis);
                g.append(ticks.as_str());
                g
            }
        };
        proof {
            assert(id_s@ == chosen_or(iv.id.deep_view(), entry_id_of(now_millis)));
        }
        let date_s: String = {
            let keep = match &in_date {
                Some(s) => !s.as_str().is_empty(),
                None => false,
            };
            if keep {
                match in_date {
                    Some(s) => s,
                    None => String::new(),
                }
            } else {
                String::from_str(now)
            }
        };
        proof {
            assert(date_s@ == chosen_or(iv.date.deep_view(), now@));
        }

        let mk = match self.find_member_index(member_id.as_str()) {
            Some(k) => k,
            None => {
                return None;
            },
        };
        if self.find_entry_index(id_s.as_str()).is_some() {
            return None;
        }
        proof {
            assert(ms[mk as int].id == member_id@);
            let ci = member_index(ms, member_id@);
            assert(0 <= ci < ms.len() && ms[ci].id == member_id@);
            assert(ci == mk as int);
        }

        let entry = Entry {
            id: id_s,
            member_id,
            date: date_s,
            summary,
            morale_score,
            growth_score,
            morale_rationale,
            growth_rationale,
            tags,
            action_items_mine,
            action_items_theirs,
            notable_quotes,
            blockers,
            wins,
            private_note,
            transcript,
            created_at: Some(String::from_str(now)),
            updated_at: Some(String::from_str(now)),
        };
        let ghost ev = entry.deep_view();
        proof {
            assert(ev == entry_of_input(iv, now@, now_millis));
        }
        let copy = dup_entry(&entry);

        let mut pos: usize = 0;
        while pos < self.entries.len() && str_le(entry.date.as_str(), self.entries[pos]
            .date
            .as_str())
            invariant
                0 <= pos <= self.entries@.len(),
                es == self.entries.deep_view(),
                entry.deep_view() == ev,
                forall|j: int| 0 <= j < pos ==> lex_le(ev.date, es[j].date),
            decreases self.entries@.len() - pos,
        {
            pos = pos + 1;
        }
        proof {
            lemma_insert_pos_is_scan(es, ev.date, pos as int);
            lemma_sorted_insert(es, ev, pos as int);
        }
        self.entries.insert(pos, entry);
        proof {
            let nes = self.entries.deep_view();
            assert forall|k: int| 0 <= k < nes.len() implies nes[k] == es.insert(
                pos as int,
                ev,
            )[k] by {
                if k < pos {
                    assert(self.entries@[k] == old(self).entries@[k]);
                } else if k > pos {
                    assert(self.entries@[k] == old(self).entries@[k - 1]);
                }
            }
            assert(nes =~= es.insert(pos as int, ev));
            assert forall|a: int, b: int| 0 <= a < b < nes.len() implies nes[a].id != nes[b].id by {
                if a != pos && b != pos {
                    let a0 = if a < pos {
                        a
                    } else {
                        a - 1
                    };
                    let b0 = if b < pos {
                        b
                    } else {
                        b - 1
                    };
                    assert(nes[a] == es[a0] && nes[b] == es[b0]);
                } else if a == pos {
                    assert(nes[a] == ev && nes[b] == es[b - 1]);
                    assert(!has_entry(es, ev.id));
                } else {
                    assert(nes[b] == ev && nes[a] == es[a]);
                    assert(!has_entry(es, ev.id));
                }
            }
        }

        let mprep = TeamMember {
            id: self.members[mk].id.clone(),
            name: self.members[mk].name.clone(),
            role: self.members[mk].role.clone(),
            color: self.members[mk].color.clone(),
            jira_account_id: dup_opt_string(&self.members[mk].jira_account_id),
            prep_notes: None,
        };
        let ghost mview = mprep.deep_view();
        self.members.set(mk, mprep);
        proof {
            assert forall|t: int|
                0 <= t < ms.len() && t != mk as int implies self.members.deep_view()[t]
                == ms[t] by {
                assert(self.members@[t] == old(self).members@[t]);
            }
            assert(self.members.deep_view() =~= ms.update(mk as int, mview));
            assert(mview == (TeamMemberView { prep_notes: None, ..ms[mk as int] }));
            let nes = self.entries.deep_view();
            assert forall|t: int|
                0 <= t < nes.len() implies has_member(
                self.members.deep_view(),
                nes[t].member_id,
            ) by {
                if nes[t].member_id == member_id@ {
                    assert(self.members.deep_view()[mk as int].id == member_id@);
                } else {
                    let w = choose|w: int| 0 <= w < ms.len() && ms[w].id == nes[t].member_id;
                    assert(self.members.deep_view()[w].id == nes[t].member_id);
                }
            }
        }
        Some(copy)
    }

    /// Applies a partial update to the entry with this id at
    /// submission time `now`: only the supplied fields change, and the
    /// update timestamp advances — unless no field at all was
    /// supplied, in which case the entry is returned untouched.
    /// `None` when no entry has this id, and then nothing changes.
    #[verifier::rlimit(100)]
    pub fn update_entry(&mut self, id: &str, patch: EntryPatch, now: &str) -> (r: Option<Entry>)
        requires
            old(self).wf(),
        ensures
            final(self).wf(),
            final(self).members@ == old(self).members@,
            final(self).cache@ == old(self).cache@,
            r is Some <==> has_entry(old(self).entries.deep_view(), id@),
            !has_entry(old(self).entries.deep_view(), id@) ==> final(self).entries@ == old(
                self,
            ).entries@,
            has_entry(old(self).entries.deep_view(), id@) ==> {
                let es = old(self).entries.deep_view();
                let k = entry_index(es, id@);
                if crate::types::patch_is_empty(patch) {
                    &&& final(self).entries@ == old(self).entries@
                    &&& r.unwrap().deep_view() == es[k]
                } else {
                    let ev = crate::types::apply_patch(es[k], patch, now@);
                    &&& final(self).entries.deep_view() == es.update(k, ev)
                    &&& r.unwrap().deep_view() == ev
                }
            },
    {
        let ghost es = self.entries.deep_view();
        let k = match self.find_entry_index(id) {
            Some(k) => k,
            None => {
                return None;
            },
        };
        proof {
            assert(es[k as int].id == id@);
            let ci = entry_index(es, id@);
            assert(0 <= ci < es.len() && es[ci].id == id@);
            assert(ci == k as int);
        }
        let empty = patch.summary.is_none() && patch.morale_score.is_none()
            && patch.growth_score.is_none() && patch.morale_rationale.is_none()
            && patch.growth_rationale.is_none() && patch.tags.is_none()
            && patch.action_items_mine.is_none() && patch.action_items_theirs.is_none()
            && patch.notable_quotes.is_none() && patch.blockers.is_none() && patch.wins.is_none()
            && patch.private_note.is_none() && patch.transcript.is_none();
        if empty {
            return Some(dup_entry(&self.entries[k]));
        }
        let ghost pv = patch;
        let mut e = dup_entry(&self.entries[k]);
        let EntryPatch {
            summary,
            morale_score,
            growth_score,
            morale_rationale,
            growth_rationale,
            tags,
            action_items_mine,
            action_items_theirs,
            notable_quotes,
            blockers,
            wins,
            private_note,
            transcript,
        } = patch;
        if let Some(v) = summary {
            e.summary = v;
        }
        if let Some(v) = morale_score {
            e.morale_score = v;
        }
        if let Some(v) = growth_score {
            e.growth_score = v;
        }
        if let Some(v) = morale_rationale {
            e.morale_rationale = v;
        }
        if let Some(v) = growth_rationale {
            e.growth_rationale = v;
        }
        if let Some(v) = tags {
            e.tags = v;
        }
        if let Some(v) = action_items_mine {
            e.action_items_mine = v;
        }
        if let Some(v) = action_items_theirs {
            e.action_items_theirs = v;
        }
        if let Some(v) = notable_quotes {
            e.notable_quotes = v;
        }
        if let Some(v) = blockers {
            e.blockers = v;
        }
        if let Some(v) = wins {
            e.wins = v;
        }
        if let Some(v) = private_note {
            e.private_note = v;
        }
        if let Some(v) = transcript {
            e.transcript = v;
        }
        e.updated_at = Some(String::from_str(now));
        let ghost ev = e.deep_view();
        proof {
            assert(ev == crate::types::apply_patch(es[k as int], pv, now@));
        }
        let copy = dup_entry(&e);
        self.entries.set(k, e);
        proof {
            assert forall|t: int|
                0 <= t < es.len() && t != k as int implies self.entries.deep_view()[t]
                == es[t] by {
                assert(self.entries@[t] == old(self).entries@[t]);
            }
            assert(self.entries.deep_view() =~= es.update(k as int, ev));
            let nes = self.entries.deep_view();
            assert forall|t: int|
                0 <= t < nes.len() implies has_member(
                self.members.deep_view(),
                nes[t].member_id,
            ) by {
                assert(nes[t].member_id == es[t].member_id);
            }
        }
        Some(copy)
    }

    /// The cached value under this (key, category) pair, if any.
    pub fn cache_get(&self, key: &str, category: &str) -> (r: Option<String>)
        requires
            self.wf(),
        ensures
            r is Some <==> has_cache(self.cache.deep_view(), key@, category@),
            (match r {
                Some(v) => v@ == self.cache.deep_view()[cache_index(
                    self.cache.deep_view(),
                    key@,
                    category@,
                )].value,
                None => true,
            }),
    {
        let mut i: usize = 0;
        while i < self.cache.len()
            invariant
                0 <= i <= self.cache@.len(),
                cache_keys_unique(self.cache.deep_view()),
                forall|j: int|
                    0 <= j < i ==> !(self.cache.deep_view()[j].key == key@
                        && self.cache.deep_view()[j].category == category@),
            decreases self.cache@.len() - i,
        {
            if str_eq(self.cache[i].key.as_str(), key) && str_eq(
                self.cache[i].category.as_str(),
                category,
            ) {
                proof {
                    let cs = self.cache.deep_view();
                    assert(cs[i as int].key == key@ && cs[i as int].category == category@);
                    assert(has_cache(cs, key@, category@));
                    let ci = cache_index(cs, key@, category@);
                    assert(0 <= ci < cs.len() && cs[ci].key == key@ && cs[ci].category
                        == category@);
                    assert(ci == i as int);
                }
                return Some(self.cache[i].value.clone());
            }
            i = i + 1;
        }
        None
    }

    /// Stores a value under this (key, category) pair, replacing any
    /// value already there.
    pub fn cache_set(&mut self, key: &str, category: &str, value: &str, now: &str)
        requires
            old(self).wf(),
        ensures
            final(self).wf(),
            final(self).members@ == old(self).members@,
            final(self).entries@ == old(self).entries@,
            ({
                let cs = old(self).cache.deep_view();
                let rec = (CacheRecordView {
                    key: key@,
                    category: category@,
                    value: value@,
                    created_at: now@,
                });
                if has_cache(cs, key@, category@) {
                    final(self).cache.deep_view() == cs.update(
                        cache_index(cs, key@, category@),
                        rec,
                    )
                } else {
                    final(self).cache.deep_view() == cs.push(rec)
                }
            }),
    {
        let ghost cs = self.cache.deep_view();
        let rec = CacheRecord {
            key: String::from_str(key),
            category: String::from_str(category),
            value: String::from_str(value),
            created_at: String::from_str(now),
        };
        let ghost rv = rec.deep_view();
        match self.find_cache_index(key, category) {
            Some(i) => {
                proof {
                    assert(cs[i as int].key == key@ && cs[i as int].category == category@);
                    assert(has_cache(cs, key@, category@));
                    let ci = cache_index(cs, key@, category@);
                    assert(0 <= ci < cs.len() && cs[ci].key == key@ && cs[ci].category
                        == category@);
                    assert(ci == i as int);
                }
                self.cache.set(i, rec);
                proof {
                    assert forall|t: int|
                        0 <= t < cs.len() && t != i as int implies self.cache.deep_view()[t]
                        == cs[t] by {
                        assert(self.cache@[t] == old(self).cache@[t]);
                    }
                    assert(self.cache.deep_view() =~= cs.update(i as int, rv));
                    let ncs = self.cache.deep_view();
                    assert forall|a: int, b: int|
                        0 <= a < b < ncs.len() implies !(ncs[a].key == ncs[b].key
                        && ncs[a].category == ncs[b].category) by {
                        if a == i as int {
                            assert(ncs[a].key == cs[i as int].key && ncs[a].category
                                == cs[i as int].category);
                            assert(ncs[b] == cs[b]);
                        } else if b == i as int {
                            assert(ncs[b].key == cs[i as int].key && ncs[b].category
                                == cs[i as int].category);
                            assert(ncs[a] == cs[a]);
                        } else {
                            assert(ncs[a] == cs[a] && ncs[b] == cs[b]);
                        }
                    }
                }
            },
            None => {
                let ghost prevv = self.cache@;
                self.cache.push(rec);
                proof {
                    assert forall|t: int|
                        0 <= t < cs.len() implies self.cache.deep_view()[t] == cs[t] by {
                        assert(self.cache@[t] == prevv[t]);
                    }
                    assert(self.cache.deep_view() =~= cs.push(rv));
                    let ncs = self.cache.deep_view();
                    assert forall|a: int, b: int|
                        0 <= a < b < ncs.len() implies !(ncs[a].key == ncs[b].key
                        && ncs[a].category == ncs[b].category) by {
                        if b == cs.len() {
                            assert(ncs[a] == cs[a]);
                            assert(ncs[b].key == key@ && ncs[b].category == category@);
                            assert(!has_cache(cs, key@, category@));
                        } else {
                            assert(ncs[a] == cs[a] && ncs[b] == cs[b]);
                        }
                    }
                }
            },
        }
    }

    /// The position of the cache row with this pair, if any.
    fn find_cache_index(&self, key: &str, category: &str) -> (r: Option<usize>)
        ensures
            (match r {
                Some(k) => k < self.cache@.len() && self.cache.deep_view()[k as int].key == key@
                    && self.cache.deep_view()[k as int].category == category@,
                None => !has_cache(self.cache.deep_view(), key@, category@),
            }),
    {
        let mut i: usize = 0;
        while i < self.cache.len()
            invariant
                0 <= i <= self.cache@.len(),
                forall|j: int|
                    0 <= j < i ==> !(self.cache.deep_view()[j].key == key@
                        && self.cache.deep_view()[j].category == category@),
            decreases self.cache@.len() - i,
        {
            if str_eq(self.cache[i].key.as_str(), key) && str_eq(
                self.cache[i].category.as_str(),
                category,
            ) {
                return Some(i);
            }
            i = i + 1;
        }
        None
    }
}

/// A copy of one entry record.
fn dup_entry(e: &Entry) -> (r: Entry)
    ensures
        r.deep_view() == e.deep_view(),
{
    Entry {
        id: e.id.clone(),
        member_id: e.member_id.clone(),
        date: e.date.clone(),
        summary: dup_opt_string(&e.summary),
        morale_score: e.morale_score,
        growth_score: e.growth_score,
        morale_rationale: dup_opt_string(&e.morale_rationale),
        growth_rationale: dup_opt_string(&e.growth_rationale),
        tags: dup_strings(&e.tags),
        action_items_mine: dup_actions(&e.action_items_mine),
        action_items_theirs: dup_actions(&e.action_items_theirs),
        notable_quotes: dup_strings(&e.notable_quotes),
        blockers: dup_strings(&e.blockers),
        wins: dup_strings(&e.wins),
        private_note: dup_opt_string(&e.private_note),
        transcript: dup_opt_string(&e.transcript),
        created_at: dup_opt_string(&e.created_at),
        updated_at: dup_opt_string(&e.updated_at),
    }
}

/// A copy of a vector of action items.
fn dup_actions(v: &Vec<ActionItem>) -> (r: Vec<ActionItem>)
    ensures
        r@ == v@,
{
    let mut r: Vec<ActionItem> = Vec::new();
    let mut i: usize = 0;
    while i < v.len()
        invariant
            0 <= i <= v.len(),
            r@ == v@.take(i as int),
        decreases v.len() - i,
    {
        r.push(ActionItem { text: v[i].text.clone(), completed: v[i].completed });
        proof {
            assert(r@ =~= v@.take(i + 1 as int));
        }
        i = i + 1;
    }
    proof {
        assert(v@.take(v@.len() as int) =~= v@);
    }
    r
}

/// A copy of one member record.
fn dup_member(m: &TeamMember) -> (r: TeamMember)
    ensures
        r == *m,
{
    TeamMember {
        id: m.id.clone(),
        name: m.name.clone(),
        role: m.role.clone(),
        color: m.color.clone(),
        jira_account_id: dup_opt_string(&m.jira_account_id),
        prep_notes: dup_opt_string(&m.prep_notes),
    }
}

/// A copy of an optional string.
fn dup_opt_string(o: &Option<String>) -> (r: Option<String>)
    ensures
        r == *o,
{
    match o {
        Some(s) => Some(s.clone()),
        None => None,
    }
}

} // verus!
