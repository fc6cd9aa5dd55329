//! The record of a walk that is under way.
//!
//! Whoever walks the tree hands each entry to the record as the walk delivers
//! it, and does what the record says: go on, pass over a directory, or end
//! the walk. The record keeps the entries that matched a rule for the first
//! time, at most one for each rule. For the rules of the walk these stand
//! for all entries that were delivered.
use crate::globs::set_builds;
use crate::parser::{rule_views, CodeOwnerRule, RuleView};
use crate::pattern::GlobError;
use crate::validators::existence::{
    checked_rules, entry_matches, entry_views, found_in, is_direct, lemma_checked_rules,
    lemma_found_in_push, next_action, rule_status, select_checked, visit_entry, walked_rules,
    EntryView, TreeView, WalkAction, WalkEntry,
};
use crate::validators::matcher::{compiled_globs, rule_compiles, RuleMatcher};
use crate::validators::tracker::{
    lemma_unmatched_after_setting, lemma_unmatched_zero, unmatched_count, MatchTracker,
};
use vstd::prelude::*;

verus! {

/// The record of one walk.
pub struct WalkRecord {
    matcher: RuleMatcher,
    tracker: MatchTracker,
    kept: Vec<WalkEntry>,
    seen: Ghost<Seq<EntryView>>,
}

impl WalkRecord {
    /// Whether the record is in order: a rule counts as matched exactly where
    /// an entry that was delivered satisfies it, and then one of the entries
    /// that were kept does so too.
    pub closed spec fn wf(&self) -> bool {
        &&& self.tracker.wf()
        &&& self.tracker@.len() == self.matcher.rules().len()
        &&& forall|r: int|
            0 <= r < self.matcher.rules().len() ==> #[trigger] self.tracker@[r] == found_in(
                self.matcher.rules()[r],
                self.seen@,
            )
        &&& forall|r: int|
            0 <= r < self.matcher.rules().len() ==> #[trigger] self.tracker@[r] == found_in(
                self.matcher.rules()[r],
                entry_views(self.kept@),
            )
    }

    /// The rules of the walk.
    pub closed spec fn rules(&self) -> Seq<RuleView> {
        self.matcher.rules()
    }

    /// The entries that were delivered so far, in order.
    pub closed spec fn seen(&self) -> Seq<EntryView> {
        self.seen@
    }

    /// For each rule of the walk, whether it was matched so far.
    pub closed spec fn matched(&self) -> Seq<bool> {
        self.tracker@
    }

    /// Starts the record of a walk for `rules`: the rules that are not looked
    /// up directly and that compile take part in it.
    pub fn start(rules: &[CodeOwnerRule]) -> (res: Result<WalkRecord, GlobError>)
        ensures
            res.is_ok() == set_builds(compiled_globs(walked_rules(rule_views(rules@)))),
            res matches Ok(record) ==> {
                &&& record.wf()
                &&& record.rules() == checked_rules(rule_views(rules@))
                &&& record.seen() == Seq::<EntryView>::empty()
            },
    {
        let (checked, _, _) = select_checked(rules);
        proof {
            lemma_checked_rules(rule_views(rules@));
        }
        match RuleMatcher::build(checked.as_slice()) {
            Ok(matcher) => {
                let tracker = MatchTracker::new(checked.len());
                let record = WalkRecord {
                    matcher,
                    tracker,
                    kept: Vec::new(),
                    seen: Ghost(Seq::empty()),
                };
                assert(entry_views(record.kept@) =~= Seq::empty());
                Ok(record)
            },
            Err(error) => Err(error),
        }
    }

    /// The number of rules of the walk.
    pub fn rule_count(&self) -> (count: usize)
        ensures
            count == self.rules().len(),
    {
        self.matcher.rule_count()
    }

    /// Takes one entry of the walk and says how the walk goes on.
    pub fn visit(&mut self, entry: WalkEntry) -> (action: WalkAction)
        requires
            old(self).wf(),
        ensures
            final(self).wf(),
            final(self).rules() == old(self).rules(),
            final(self).seen() == old(self).seen().push(entry@),
            action == next_action(entry@, old(self).matched()),
    {
        let ghost rules = self.matcher.rules();
        let ghost flags = self.tracker@;
        let ghost seen = self.seen@;
        let ghost kept = entry_views(self.kept@);
        let before = self.tracker.remaining();
        let action = visit_entry(&self.matcher, &mut self.tracker, &entry);
        let after = self.tracker.remaining();
        proof {
            lemma_unmatched_after_setting(flags, self.tracker@);
            lemma_unmatched_zero(flags);
            assert forall|r: int| 0 <= r < rules.len() implies #[trigger] self.tracker@[r]
                == found_in(rules[r], seen.push(entry@)) by {
                lemma_found_in_push(rules[r], seen, entry@);
            }
        }
        if after < before {
            proof {
                assert forall|r: int| 0 <= r < rules.len() implies #[trigger] self.tracker@[r]
                    == found_in(rules[r], kept.push(entry@)) by {
                    lemma_found_in_push(rules[r], kept, entry@);
                }
            }
            self.kept.push(entry);
            assert(entry_views(self.kept@) =~= kept.push(entry@));
        }
        self.seen = Ghost(seen.push(entry@));
        action
    }

    /// Ends the record and hands over the entries that were kept. For every
    /// rule of the walk, one of them satisfies the rule exactly where one of
    /// the entries that were delivered does.
    pub fn into_entries(self) -> (kept: Vec<WalkEntry>)
        requires
            self.wf(),
        ensures
            forall|r: int|
                0 <= r < self.rules().len() ==> found_in(
                    #[trigger] self.rules()[r],
                    entry_views(kept@),
                ) == found_in(self.rules()[r], self.seen()),
    {
        proof {
            assert forall|r: int| 0 <= r < self.rules().len() implies found_in(
                #[trigger] self.rules()[r],
                entry_views(self.kept@),
            ) == found_in(self.rules()[r], self.seen()) by {
                assert(self.tracker@[r] == found_in(self.matcher.rules()[r], self.seen@));
            }
        }
        self.kept
    }
}

/// A rule that is not looked up directly and that compiles is a rule of the
/// walk.
pub proof fn lemma_checked_rule_takes_part(rules: Seq<RuleView>, at: int)
    requires
        0 <= at < rules.len(),
        !is_direct(rules[at]),
        rule_compiles(rules[at]),
    ensures
        checked_rules(rules).contains(rules[at]),
    decreases rules.len(),
{
    let checked = checked_rules(rules);
    if at == rules.len() - 1 {
        assert(checked[checked.len() - 1] == rules[at]);
    } else {
        let front = rules.drop_last();
        lemma_checked_rule_takes_part(front, at);
        let k = choose|k: int| 0 <= k < checked_rules(front).len() && checked_rules(front)[k] == front[at];
        assert(checked[k] == rules[at]);
    }
}

/// The entries that a record kept stand for all that were delivered: every
/// rule has the same status with the ones as with the others.
pub proof fn lemma_kept_entries_stand_for_all(
    rules: Seq<RuleView>,
    existing: Seq<Seq<char>>,
    kept: Seq<EntryView>,
    seen: Seq<EntryView>,
    at: int,
)
    requires
        0 <= at < rules.len(),
        forall|r: int|
            0 <= r < checked_rules(rules).len() ==> found_in(
                #[trigger] checked_rules(rules)[r],
                kept,
            ) == found_in(checked_rules(rules)[r], seen),
    ensures
        rule_status(rules[at], TreeView { existing, entries: kept }) == rule_status(
            rules[at],
            TreeView { existing, entries: seen },
        ),
{
    if !is_direct(rules[at]) && rule_compiles(rules[at]) {
        lemma_checked_rule_takes_part(rules, at);
        let checked = checked_rules(rules);
        let r = choose|r: int| 0 <= r < checked.len() && checked[r] == rules[at];
        assert(found_in(checked[r], kept) == found_in(checked[r], seen));
    }
}

/// Once an entry satisfies a rule, no entry that comes after takes that
/// away: a walk that ends when every rule is matched finds what a walk to the
/// end finds.
pub proof fn lemma_later_entries_change_nothing(
    rule: RuleView,
    seen: Seq<EntryView>,
    rest: Seq<EntryView>,
)
    requires
        found_in(rule, seen),
    ensures
        found_in(rule, seen + rest),
{
    let k = choose|k: int| 0 <= k < seen.len() && #[trigger] entry_matches(rule, seen[k]);
    assert(entry_matches(rule, (seen + rest)[k]));
}

} // verus!
