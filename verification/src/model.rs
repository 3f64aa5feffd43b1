//! Core data model: problems, ideas, and the local ledger that tracks what a
//! user has bought, improved or rejected.

use vstd::prelude::*;
use vstd::string::StringExecFns;

use crate::text::{opt_view, lex_le, lex_lt, lemma_lex_irreflexive, lemma_lex_total, lemma_lex_transitive, str_lt};

verus! {

/// A problem is a searchable unit of intent, e.g. "agent forgets user
/// preferences across sessions". Lives at
/// `registry/problems/<slug>/problem.yaml`.
#[derive(Debug, Clone)]
pub struct Problem {
    pub slug: String,
    pub title: String,
    pub description: String,
    pub tags: Vec<String>,
}

/// An idea is one candidate solution bound to a problem, with a pointer to
/// readable source code. Ideas under the same problem are peers: there is
/// no default ranking. Lives at `registry/problems/<slug>/ideas/<idea>.yaml`.
#[derive(Debug, Clone)]
pub struct Idea {
    pub slug: String,
    pub problem_slug: String,
    pub title: String,
    /// Why this approach: the reasoning, not just what it does.
    pub rationale: String,
    pub author: String,
    pub source_repo: String,
    /// Path within the registry to fetch (file or directory).
    pub source_path: String,
    pub tags: Vec<String>,
}

/// The id of an idea: `<problem-slug>/<idea-slug>`.
pub open spec fn idea_id(problem_slug: Seq<char>, slug: Seq<char>) -> Seq<char> {
    problem_slug + seq!['/'] + slug
}

impl Idea {
    /// The idea's id, `<problem-slug>/<idea-slug>`.
    pub fn id(&self) -> (r: String)
        ensures
            r@ == idea_id(self.problem_slug@, self.slug@),
    {
        let mut r = self.problem_slug.clone();
        let slash = "/";
        proof {
            reveal_strlit("/");
        }
        r.append(slash);
        r.append(self.slug.as_str());
        r
    }
}

/// A problem bundled with all of its ideas, as search returns it.
#[derive(Debug, Clone)]
pub struct ProblemWithIdeas {
    pub problem: Problem,
    pub ideas: Vec<Idea>,
}

/// Status of a locally bought idea.
#[derive(Debug, Clone, Copy, PartialEq, Eq, Structural)]
pub enum IdeaStatus {
    /// Bought, not yet judged.
    Bought,
    /// Bought and modified: the user recorded an improvement.
    Improved,
    /// Tried and rejected: the elimination signal.
    Rejected,
}

/// One entry in the local ledger: the history of a single idea's lifecycle
/// in this user's repo.
#[derive(Debug, Clone)]
pub struct LedgerEntry {
    pub idea_id: String,
    pub status: IdeaStatus,
    pub bought_at: String,
    pub updated_at: Option<String>,
    pub rejection_reason: Option<String>,
    pub improvement_note: Option<String>,
}

/// A ledger entry with its strings taken as character sequences.
pub struct LedgerEntryView {
    pub idea_id: Seq<char>,
    pub status: IdeaStatus,
    pub bought_at: Seq<char>,
    pub updated_at: Option<Seq<char>>,
    pub rejection_reason: Option<Seq<char>>,
    pub improvement_note: Option<Seq<char>>,
}

impl View for LedgerEntry {
    type V = LedgerEntryView;

    open spec fn view(&self) -> LedgerEntryView {
        LedgerEntryView {
            idea_id: self.idea_id@,
            status: self.status,
            bought_at: self.bought_at@,
            updated_at: opt_view(self.updated_at),
            rejection_reason: opt_view(self.rejection_reason),
            improvement_note: opt_view(self.improvement_note),
        }
    }
}

/// The full local ledger: a map from idea id to entry, kept in ascending
/// order of its keys (the order in which `entries` hands them out).
pub struct Ledger {
    slots: Vec<(String, LedgerEntry)>,
}

/// Keys in strictly ascending order (hence distinct).
pub open spec fn strictly_ascending(keys: Seq<Seq<char>>) -> bool {
    forall|i: int, j: int| 0 <= i < j < keys.len() ==> lex_lt(#[trigger] keys[i], #[trigger] keys[j])
}

/// The keys of a sequence of slots.
pub open spec fn slot_keys(s: Seq<(String, LedgerEntry)>) -> Seq<Seq<char>> {
    s.map_values(|x: (String, LedgerEntry)| x.0@)
}

/// The index of the slot whose key is `k`.
spec fn slot_pos(s: Seq<(String, LedgerEntry)>, k: Seq<char>) -> int {
    choose|i: int| 0 <= i < s.len() && s[i].0@ == k
}

/// The map that a sequence of slots with distinct keys stands for.
spec fn slots_view(s: Seq<(String, LedgerEntry)>) -> Map<Seq<char>, LedgerEntryView> {
    Map::new(|k: Seq<char>| slot_keys(s).contains(k), |k: Seq<char>| s[slot_pos(s, k)].1@)
}

proof fn lemma_slot_pos(s: Seq<(String, LedgerEntry)>, i: int)
    requires
        strictly_ascending(slot_keys(s)),
        0 <= i < s.len(),
    ensures
        slot_pos(s, s[i].0@) == i,
        slots_view(s).contains_key(s[i].0@),
        slots_view(s)[s[i].0@] == s[i].1@,
{
    let k = s[i].0@;
    assert(slot_keys(s)[i] == k);
    let j = slot_pos(s, k);
    assert(0 <= j < s.len() && s[j].0@ == k);
    assert(slot_keys(s)[j] == k);
    if j != i {
        if j < i {
            assert(lex_lt(slot_keys(s)[j], slot_keys(s)[i]));
        } else {
            assert(lex_lt(slot_keys(s)[i], slot_keys(s)[j]));
        }
        lemma_lex_irreflexive(k);
    }
}

proof fn lemma_slots_insert(s: Seq<(String, LedgerEntry)>, i: int, x: (String, LedgerEntry))
    requires
        strictly_ascending(slot_keys(s)),
        0 <= i <= s.len(),
        forall|j: int| 0 <= j < i ==> lex_lt(#[trigger] slot_keys(s)[j], x.0@),
        i < s.len() ==> lex_lt(x.0@, slot_keys(s)[i]),
    ensures
        strictly_ascending(slot_keys(s.insert(i, x))),
        slots_view(s.insert(i, x)) == slots_view(s).insert(x.0@, x.1@),
{
    let t = s.insert(i, x);
    assert(slot_keys(t) =~= slot_keys(s).insert(i, x.0@));
    assert forall|a: int, b: int| 0 <= a < b < slot_keys(t).len() implies lex_lt(
        #[trigger] slot_keys(t)[a],
        #[trigger] slot_keys(t)[b],
    ) by {
        if b < i {
            assert(slot_keys(t)[a] == slot_keys(s)[a]);
            assert(slot_keys(t)[b] == slot_keys(s)[b]);
        } else if b == i {
            assert(slot_keys(t)[a] == slot_keys(s)[a]);
        } else if a < i {
            assert(slot_keys(t)[a] == slot_keys(s)[a]);
            assert(slot_keys(t)[b] == slot_keys(s)[b - 1]);
            assert(lex_lt(slot_keys(s)[a], x.0@));
            if b - 1 > i {
                assert(lex_lt(slot_keys(s)[i], slot_keys(s)[b - 1]));
                lemma_lex_transitive(x.0@, slot_keys(s)[i], slot_keys(s)[b - 1]);
            }
            lemma_lex_transitive(slot_keys(s)[a], x.0@, slot_keys(s)[b - 1]);
        } else if a == i {
            assert(slot_keys(t)[b] == slot_keys(s)[b - 1]);
            if b - 1 > i {
                assert(lex_lt(slot_keys(s)[i], slot_keys(s)[b - 1]));
                lemma_lex_transitive(x.0@, slot_keys(s)[i], slot_keys(s)[b - 1]);
            }
        } else {
            assert(slot_keys(t)[a] == slot_keys(s)[a - 1]);
            assert(slot_keys(t)[b] == slot_keys(s)[b - 1]);
        }
    }
    let m = slots_view(s).insert(x.0@, x.1@);
    assert forall|k: Seq<char>| #[trigger] slots_view(t).contains_key(k) <==> m.contains_key(k) by {
        if slot_keys(t).contains(k) {
            let j = choose|j: int| 0 <= j < slot_keys(t).len() && slot_keys(t)[j] == k;
            if j < i {
                assert(slot_keys(s)[j] == k);
            } else if j > i {
                assert(slot_keys(s)[j - 1] == k);
            }
        }
        if slot_keys(s).contains(k) {
            let j = choose|j: int| 0 <= j < slot_keys(s).len() && slot_keys(s)[j] == k;
            if j < i {
                assert(slot_keys(t)[j] == k);
            } else {
                assert(slot_keys(t)[j + 1] == k);
            }
        }
        if k == x.0@ {
            assert(slot_keys(t)[i] == k);
        }
    }
    assert forall|k: Seq<char>| #[trigger] slots_view(t).contains_key(k) implies slots_view(t)[k]
        == m[k] by {
        let j = choose|j: int| 0 <= j < slot_keys(t).len() && slot_keys(t)[j] == k;
        lemma_slot_pos(t, j);
        if j < i {
            lemma_slot_pos(s, j);
            assert(k != x.0@) by {
                lemma_lex_irreflexive(k);
            }
        } else if j > i {
            lemma_slot_pos(s, j - 1);
            assert(k != x.0@) by {
                lemma_lex_irreflexive(k);
                assert(lex_lt(slot_keys(t)[i], slot_keys(t)[j]));
            }
        }
    }
    assert(slots_view(t) =~= m);
}

proof fn lemma_slots_replace(s: Seq<(String, LedgerEntry)>, i: int, x: (String, LedgerEntry))
    requires
        strictly_ascending(slot_keys(s)),
        0 <= i < s.len(),
        s[i].0@ == x.0@,
    ensures
        strictly_ascending(slot_keys(s.update(i, x))),
        slots_view(s.update(i, x)) == slots_view(s).insert(x.0@, x.1@),
{
    let t = s.update(i, x);
    assert(slot_keys(t) =~= slot_keys(s));
    let m = slots_view(s).insert(x.0@, x.1@);
    assert forall|k: Seq<char>| #[trigger] slots_view(t).contains_key(k) <==> m.contains_key(k) by {
        if k == x.0@ {
            assert(slot_keys(s)[i] == k);
        }
    }
    assert forall|k: Seq<char>| #[trigger] slots_view(t).contains_key(k) implies slots_view(t)[k]
        == m[k] by {
        let j = choose|j: int| 0 <= j < slot_keys(t).len() && slot_keys(t)[j] == k;
        lemma_slot_pos(t, j);
        lemma_slot_pos(s, j);
        if j != i {
            assert(k != x.0@) by {
                lemma_lex_irreflexive(k);
                if j < i {
                    assert(lex_lt(slot_keys(s)[j], slot_keys(s)[i]));
                } else {
                    assert(lex_lt(slot_keys(s)[i], slot_keys(s)[j]));
                }
            }
        }
    }
    assert(slots_view(t) =~= m);
}

impl View for Ledger {
    type V = Map<Seq<char>, LedgerEntryView>;

    /// The ledger as a map from idea id to entry.
    closed spec fn view(&self) -> Map<Seq<char>, LedgerEntryView> {
        slots_view(self.slots@)
    }
}

impl Ledger {
    /// The keys, in the order the ledger keeps them.
    pub closed spec fn keys(&self) -> Seq<Seq<char>> {
        slot_keys(self.slots@)
    }

    #[verifier::type_invariant]
    spec fn sorted(&self) -> bool {
        strictly_ascending(slot_keys(self.slots@))
    }

    /// An empty ledger.
    pub fn new() -> (r: Ledger)
        ensures
            r@ == Map::<Seq<char>, LedgerEntryView>::empty(),
            r.keys() == Seq::<Seq<char>>::empty(),
    {
        let r = Ledger { slots: Vec::new() };
        assert(r@ =~= Map::<Seq<char>, LedgerEntryView>::empty());
        assert(r.keys() =~= Seq::<Seq<char>>::empty());
        r
    }

    /// The number of entries.
    pub fn len(&self) -> (r: usize)
        ensures
            r == self@.len(),
            r == self.keys().len(),
    {
        proof {
            use_type_invariant(self);
            lemma_keys_distinct(self.keys());
            self.keys().unique_seq_to_set();
            assert(self@.dom() =~= self.keys().to_set());
        }
        self.slots.len()
    }

    /// Whether the ledger has no entry.
    pub fn is_empty(&self) -> (r: bool)
        ensures
            r == (self@.len() == 0),
    {
        self.len() == 0
    }

    /// The entries as `(idea id, entry)` pairs, in strictly ascending order
    /// of their ids: the order in which the ledger lists and stores them.
    pub fn entries(&self) -> (r: &Vec<(String, LedgerEntry)>)
        ensures
            slot_keys(r@) == self.keys(),
            strictly_ascending(self.keys()),
            forall|k: Seq<char>| #[trigger] self@.contains_key(k) <==> self.keys().contains(k),
            forall|i: int|
                0 <= i < r@.len() ==> #[trigger] self@[r@[i].0@] == r@[i].1@,
    {
        proof {
            use_type_invariant(self);
            assert forall|i: int| 0 <= i < self.slots@.len() implies #[trigger] self@[self.slots@[i].0@]
                == self.slots@[i].1@ by {
                lemma_slot_pos(self.slots@, i);
            }
        }
        &self.slots
    }

    /// The index of the first key not below `key`, in `0..=len`.
    fn lower_bound(&self, key: &str) -> (i: usize)
        ensures
            i <= self.slots@.len(),
            forall|j: int| 0 <= j < i ==> lex_lt(#[trigger] self.keys()[j], key@),
            i < self.slots@.len() ==> lex_le(key@, self.keys()[i as int]),
    {
        let mut i: usize = 0;
        while i < self.slots.len() && str_lt(self.slots[i].0.as_str(), key)
            invariant
                i <= self.slots@.len(),
                forall|j: int| 0 <= j < i ==> lex_lt(#[trigger] self.keys()[j], key@),
            decreases self.slots@.len() - i,
        {
            i = i + 1;
        }
        i
    }

    /// The entry under `key`, if there is one.
    pub fn get(&self, key: &str) -> (r: Option<&LedgerEntry>)
        ensures
            r is Some <==> self@.contains_key(key@),
            r matches Some(e) ==> e@ == self@[key@],
    {
        proof {
            use_type_invariant(self);
        }
        let i = self.lower_bound(key);
        if i < self.slots.len() && !str_lt(key, self.slots[i].0.as_str()) {
            proof {
                lemma_lex_total(key@, self.keys()[i as int]);
                lemma_slot_pos(self.slots@, i as int);
            }
            Some(&self.slots[i].1)
        } else {
            proof {
                if self@.contains_key(key@) {
                    let j = choose|j: int| 0 <= j < self.keys().len() && self.keys()[j] == key@;
                    lemma_lex_irreflexive(key@);
                    if i < self.slots@.len() {
                        lemma_lex_total(key@, self.keys()[i as int]);
                        assert(j >= i);
                        if j > i {
                            assert(lex_lt(self.keys()[i as int], self.keys()[j]));
                            lemma_lex_transitive(key@, self.keys()[i as int], key@);
                        }
                    }
                }
            }
            None
        }
    }

    /// Inserts `entry` under `key`, replacing any entry already there.
    pub fn insert(&mut self, key: String, entry: LedgerEntry)
        ensures
            final(self)@ == old(self)@.insert(key@, entry@),
    {
        proof {
            use_type_invariant(&*self);
        }
        let i = self.lower_bound(key.as_str());
        let mut slots: Vec<(String, LedgerEntry)> = Vec::new();
        std::mem::swap(&mut slots, &mut self.slots);
        let ghost old_slots = slots@;
        let ghost x = (key, entry);
        if i < slots.len() && !str_lt(key.as_str(), slots[i].0.as_str()) {
            proof {
                lemma_lex_total(key@, slot_keys(old_slots)[i as int]);
                lemma_slots_replace(old_slots, i as int, x);
                assert(old_slots.remove(i as int).insert(i as int, x) =~= old_slots.update(i as int, x));
            }
            let _ = slots.remove(i);
            slots.insert(i, (key, entry));
        } else {
            proof {
                if i < old_slots.len() {
                    lemma_lex_total(key@, slot_keys(old_slots)[i as int]);
                }
                lemma_slots_insert(old_slots, i as int, x);
            }
            slots.insert(i, (key, entry));
        }
        self.slots = slots;
    }
}

/// A fresh entry for an idea bought at time `at`.
pub open spec fn bought_entry(idea_id: Seq<char>, at: Seq<char>) -> LedgerEntryView {
    LedgerEntryView {
        idea_id,
        status: IdeaStatus::Bought,
        bought_at: at,
        updated_at: None,
        rejection_reason: None,
        improvement_note: None,
    }
}

/// `e` marked rejected at time `at` for `reason`; the rest of its history
/// (id, purchase time, improvement note) is kept.
pub open spec fn rejected_entry(
    e: LedgerEntryView,
    at: Seq<char>,
    reason: Option<Seq<char>>,
) -> LedgerEntryView {
    LedgerEntryView {
        status: IdeaStatus::Rejected,
        updated_at: Some(at),
        rejection_reason: reason,
        ..e
    }
}

/// `e` marked improved at time `at` with `note`; the rest of its history
/// (id, purchase time, rejection reason) is kept.
pub open spec fn improved_entry(e: LedgerEntryView, at: Seq<char>, note: Seq<char>) -> LedgerEntryView {
    LedgerEntryView {
        status: IdeaStatus::Improved,
        updated_at: Some(at),
        improvement_note: Some(note),
        ..e
    }
}

/// What a user asked to do with an idea that the ledger does not hold.
#[derive(Debug, Clone, Copy, PartialEq, Eq, Structural)]
pub enum LedgerAction {
    Uninstall,
    Improve,
}

/// A ledger update refused: the idea was never bought.
#[derive(Debug, Clone)]
pub struct NeverBought {
    pub idea_id: String,
    pub action: LedgerAction,
}

/// The word that names `a` in messages.
pub open spec fn action_word(a: LedgerAction) -> Seq<char> {
    match a {
        LedgerAction::Uninstall => "uninstall"@,
        LedgerAction::Improve => "improve"@,
    }
}

/// The text of the refusal: `<id> was never bought — nothing to <action>`.
pub open spec fn never_bought_message(idea_id: Seq<char>, a: LedgerAction) -> Seq<char> {
    idea_id + " was never bought — nothing to "@ + action_word(a)
}

impl NeverBought {
    /// The message shown to the user.
    pub fn message(&self) -> (r: String)
        ensures
            r@ == never_bought_message(self.idea_id@, self.action),
    {
        let mut r = self.idea_id.clone();
        r.append(" was never bought — nothing to ");
        match self.action {
            LedgerAction::Uninstall => r.append("uninstall"),
            LedgerAction::Improve => r.append("improve"),
        }
        r
    }
}

fn clone_opt(o: &Option<String>) -> (r: Option<String>)
    ensures
        opt_view(r) == opt_view(*o),
{
    match o {
        Some(s) => Some(s.clone()),
        None => None,
    }
}

impl Ledger {
    /// Records that `idea_id` was bought at time `at`: a fresh entry, with
    /// any earlier history of that id replaced.
    pub fn mark_bought(&mut self, idea_id: &str, at: String)
        ensures
            final(self)@ == old(self)@.insert(idea_id@, bought_entry(idea_id@, at@)),
    {
        let entry = LedgerEntry {
            idea_id: String::from_str(idea_id),
            status: IdeaStatus::Bought,
            bought_at: at,
            updated_at: None,
            rejection_reason: None,
            improvement_note: None,
        };
        self.insert(String::from_str(idea_id), entry);
    }

    /// Marks a bought idea as tried and rejected at time `at`; the entry is
    /// kept, since rejection is a signal to remember. Refused, with the
    /// ledger unchanged, when the idea was never bought.
    pub fn mark_rejected(&mut self, idea_id: &str, at: String, reason: Option<String>) -> (r: Result<(), NeverBought>)
        ensures
            r is Ok <==> old(self)@.contains_key(idea_id@),
            r is Ok ==> final(self)@ == old(self)@.insert(
                idea_id@,
                rejected_entry(old(self)@[idea_id@], at@, opt_view(reason)),
            ),
            r matches Err(e) ==> final(self)@ == old(self)@ && e.idea_id@ == idea_id@ && e.action
                == LedgerAction::Uninstall,
    {
        let updated = match self.get(idea_id) {
            None => {
                return Err(NeverBought { idea_id: String::from_str(idea_id), action: LedgerAction::Uninstall });
            },
            Some(e) => LedgerEntry {
                idea_id: e.idea_id.clone(),
                status: IdeaStatus::Rejected,
                bought_at: e.bought_at.clone(),
                updated_at: Some(at),
                rejection_reason: reason,
                improvement_note: clone_opt(&e.improvement_note),
            },
        };
        self.insert(String::from_str(idea_id), updated);
        Ok(())
    }

    /// Marks a bought idea as improved at time `at` with `note`. Refused,
    /// with the ledger unchanged, when the idea was never bought.
    pub fn mark_improved(&mut self, idea_id: &str, at: String, note: String) -> (r: Result<(), NeverBought>)
        ensures
            r is Ok <==> old(self)@.contains_key(idea_id@),
            r is Ok ==> final(self)@ == old(self)@.insert(
                idea_id@,
                improved_entry(old(self)@[idea_id@], at@, note@),
            ),
            r matches Err(e) ==> final(self)@ == old(self)@ && e.idea_id@ == idea_id@ && e.action
                == LedgerAction::Improve,
    {
        let updated = match self.get(idea_id) {
            None => {
                return Err(NeverBought { idea_id: String::from_str(idea_id), action: LedgerAction::Improve });
            },
            Some(e) => LedgerEntry {
                idea_id: e.idea_id.clone(),
                status: IdeaStatus::Improved,
                bought_at: e.bought_at.clone(),
                updated_at: Some(at),
                rejection_reason: clone_opt(&e.rejection_reason),
                improvement_note: Some(note),
            },
        };
        self.insert(String::from_str(idea_id), updated);
        Ok(())
    }
}

/// Uninstalling keeps the idea in the ledger: the entry stays, with its id,
/// purchase time and improvement note, and is marked rejected with the
/// reason; no other entry changes.
pub proof fn law_reject_keeps_entry(
    m: Map<Seq<char>, LedgerEntryView>,
    idea_id: Seq<char>,
    at: Seq<char>,
    reason: Option<Seq<char>>,
)
    requires
        m.contains_key(idea_id),
    ensures
        ({
            let n = m.insert(idea_id, rejected_entry(m[idea_id], at, reason));
            &&& n.dom() == m.dom()
            &&& n[idea_id].status == IdeaStatus::Rejected
            &&& n[idea_id].idea_id == m[idea_id].idea_id
            &&& n[idea_id].bought_at == m[idea_id].bought_at
            &&& n[idea_id].improvement_note == m[idea_id].improvement_note
            &&& n[idea_id].rejection_reason == reason
            &&& forall|k: Seq<char>| k != idea_id && #[trigger] m.contains_key(k) ==> n[k] == m[k]
        }),
{
    let n = m.insert(idea_id, rejected_entry(m[idea_id], at, reason));
    assert(n.dom() =~= m.dom());
}

/// Improving keeps the idea's id, purchase time and any rejection reason,
/// marks it improved with the note, and changes no other entry.
pub proof fn law_improve_keeps_entry(
    m: Map<Seq<char>, LedgerEntryView>,
    idea_id: Seq<char>,
    at: Seq<char>,
    note: Seq<char>,
)
    requires
        m.contains_key(idea_id),
    ensures
        ({
            let n = m.insert(idea_id, improved_entry(m[idea_id], at, note));
            &&& n.dom() == m.dom()
            &&& n[idea_id].status == IdeaStatus::Improved
            &&& n[idea_id].idea_id == m[idea_id].idea_id
            &&& n[idea_id].bought_at == m[idea_id].bought_at
            &&& n[idea_id].rejection_reason == m[idea_id].rejection_reason
            &&& n[idea_id].improvement_note == Some(note)
            &&& forall|k: Seq<char>| k != idea_id && #[trigger] m.contains_key(k) ==> n[k] == m[k]
        }),
{
    let n = m.insert(idea_id, improved_entry(m[idea_id], at, note));
    assert(n.dom() =~= m.dom());
}

/// The lifecycle of one idea: once bought it can be improved and then
/// uninstalled; the ledger then remembers when it was bought, the
/// improvement note and the rejection reason, with status rejected.
pub proof fn law_buy_improve_uninstall(
    m: Map<Seq<char>, LedgerEntryView>,
    idea_id: Seq<char>,
    bought_at: Seq<char>,
    improved_at: Seq<char>,
    note: Seq<char>,
    rejected_at: Seq<char>,
    reason: Option<Seq<char>>,
)
    ensures
        ({
            let m1 = m.insert(idea_id, bought_entry(idea_id, bought_at));
            let m2 = m1.insert(idea_id, improved_entry(m1[idea_id], improved_at, note));
            let m3 = m2.insert(idea_id, rejected_entry(m2[idea_id], rejected_at, reason));
            &&& m1.contains_key(idea_id)
            &&& m2.contains_key(idea_id)
            &&& m3[idea_id] == LedgerEntryView {
                idea_id,
                status: IdeaStatus::Rejected,
                bought_at,
                updated_at: Some(rejected_at),
                rejection_reason: reason,
                improvement_note: Some(note),
            }
            &&& m3.dom() == m.dom().insert(idea_id)
        }),
{
    let m1 = m.insert(idea_id, bought_entry(idea_id, bought_at));
    let m2 = m1.insert(idea_id, improved_entry(m1[idea_id], improved_at, note));
    let m3 = m2.insert(idea_id, rejected_entry(m2[idea_id], rejected_at, reason));
    assert(m3.dom() =~= m.dom().insert(idea_id));
}

proof fn lemma_keys_distinct(keys: Seq<Seq<char>>)
    requires
        strictly_ascending(keys),
    ensures
        keys.no_duplicates(),
{
    assert forall|i: int, j: int|
        0 <= i < keys.len() && 0 <= j < keys.len() && i != j implies keys[i] != keys[j] by {
        if i < j {
            assert(lex_lt(keys[i], keys[j]));
        } else {
            assert(lex_lt(keys[j], keys[i]));
        }
        lemma_lex_irreflexive(keys[i]);
    }
}

} // verus!
