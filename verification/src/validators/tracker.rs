//! The match state of a run: for each rule, how often it was matched, and how
//! many rules are still unmatched.
use vstd::prelude::*;

verus! {

/// How many of `flags` are unset.
pub open spec fn unmatched_count(flags: Seq<bool>) -> nat
    decreases flags.len(),
{
    if flags.len() == 0 {
        0
    } else if flags.last() {
        unmatched_count(flags.drop_last())
    } else {
        unmatched_count(flags.drop_last()) + 1
    }
}

/// No more flags are unset than there are flags.
pub proof fn lemma_unmatched_bound(flags: Seq<bool>)
    ensures
        unmatched_count(flags) <= flags.len(),
    decreases flags.len(),
{
    if flags.len() > 0 {
        lemma_unmatched_bound(flags.drop_last());
    }
}

/// None is unset exactly when all are set.
pub proof fn lemma_unmatched_zero(flags: Seq<bool>)
    ensures
        unmatched_count(flags) == 0 <==> forall|i: int| 0 <= i < flags.len() ==> flags[i],
    decreases flags.len(),
{
    if flags.len() > 0 {
        let front = flags.drop_last();
        lemma_unmatched_zero(front);
        if unmatched_count(flags) == 0 {
            assert forall|i: int| 0 <= i < flags.len() implies flags[i] by {
                if i < front.len() {
                    assert(front[i] == flags[i]);
                }
            }
        }
        if forall|i: int| 0 <= i < flags.len() ==> flags[i] {
            assert forall|i: int| 0 <= i < front.len() implies front[i] by {
                assert(front[i] == flags[i]);
            }
        }
    }
}

/// Setting a flag lowers the count by one where the flag was unset, and
/// leaves it where the flag was set.
pub proof fn lemma_unmatched_set(flags: Seq<bool>, at: int)
    requires
        0 <= at < flags.len(),
    ensures
        unmatched_count(flags.update(at, true)) + (if flags[at] { 0nat } else { 1nat })
            == unmatched_count(flags),
    decreases flags.len(),
{
    let front = flags.drop_last();
    let set = flags.update(at, true);
    if at == flags.len() - 1 {
        assert(set.drop_last() =~= front);
    } else {
        lemma_unmatched_set(front, at);
        assert(set.drop_last() =~= front.update(at, true));
    }
}

/// Setting a flag unsets none, and setting it again changes nothing: a rule
/// goes from unmatched to matched only, however often a match is recorded.
pub proof fn lemma_set_is_monotonic_and_idempotent(flags: Seq<bool>, at: int)
    requires
        0 <= at < flags.len(),
    ensures
        forall|i: int| 0 <= i < flags.len() && flags[i] ==> flags.update(at, true)[i],
        flags.update(at, true).update(at, true) == flags.update(at, true),
        unmatched_count(flags.update(at, true).update(at, true)) == unmatched_count(
            flags.update(at, true),
        ),
        unmatched_count(flags.update(at, true)) <= unmatched_count(flags),
{
    assert(flags.update(at, true).update(at, true) =~= flags.update(at, true));
    lemma_unmatched_set(flags, at);
}

/// Where flags are only ever set, fewer or as many are unset afterwards, and
/// as many only if none was set.
pub proof fn lemma_unmatched_after_setting(before: Seq<bool>, after: Seq<bool>)
    requires
        before.len() == after.len(),
        forall|i: int| 0 <= i < before.len() && before[i] ==> after[i],
    ensures
        unmatched_count(after) <= unmatched_count(before),
        unmatched_count(after) == unmatched_count(before) ==> after == before,
    decreases before.len(),
{
    if before.len() > 0 {
        let before_front = before.drop_last();
        let after_front = after.drop_last();
        assert forall|i: int| 0 <= i < before_front.len() && before_front[i] implies after_front[i] by {
            assert(before[i] ==> after[i]);
        }
        lemma_unmatched_after_setting(before_front, after_front);
        if unmatched_count(after) == unmatched_count(before) {
            assert(after =~= after_front.push(after.last()));
            assert(before =~= before_front.push(before.last()));
        }
    } else {
        assert(after =~= before);
    }
}

/// Of `len` flags that are all unset, `len` are unset.
pub proof fn lemma_unmatched_fresh(len: nat)
    ensures
        unmatched_count(Seq::new(len, |i: int| false)) == len,
    decreases len,
{
    if len > 0 {
        lemma_unmatched_fresh((len - 1) as nat);
        assert(Seq::new(len, |i: int| false).drop_last() =~= Seq::new(
            (len - 1) as nat,
            |i: int| false,
        ));
    }
}

/// The match state of the rules of one run.
///
/// A rule goes from unmatched to matched and never back; recording a match
/// twice changes nothing that can be observed.
pub struct MatchTracker {
    counts: Vec<usize>,
    remaining: usize,
}

impl View for MatchTracker {
    type V = Seq<bool>;

    /// For each rule, whether it was matched.
    closed spec fn view(&self) -> Seq<bool> {
        Seq::new(self.counts@.len(), |i: int| self.counts@[i] > 0)
    }
}

impl MatchTracker {
    /// Whether the stored number of unmatched rules is the true one.
    pub closed spec fn wf(&self) -> bool {
        self.remaining == unmatched_count(self@)
    }

    /// The state of `rule_count` rules, none of them matched.
    pub fn new(rule_count: usize) -> (tracker: MatchTracker)
        ensures
            tracker.wf(),
            tracker@ == Seq::new(rule_count as nat, |i: int| false),
    {
        let mut counts: Vec<usize> = Vec::new();
        let mut i: usize = 0;
        while i < rule_count
            invariant
                i <= rule_count,
                counts@.len() == i,
                forall|k: int| 0 <= k < i ==> counts@[k] == 0,
            decreases rule_count - i,
        {
            counts.push(0);
            i += 1;
        }
        let tracker = MatchTracker { counts, remaining: rule_count };
        proof {
            assert(tracker@ =~= Seq::new(rule_count as nat, |i: int| false));
            lemma_unmatched_fresh(rule_count as nat);
        }
        tracker
    }

    /// The number of rules.
    pub fn len(&self) -> (len: usize)
        ensures
            len == self@.len(),
    {
        self.counts.len()
    }

    /// Whether rule `rule` was matched.
    pub fn is_matched(&self, rule: usize) -> (matched: bool)
        requires
            rule < self@.len(),
        ensures
            matched == self@[rule as int],
    {
        self.counts[rule] > 0
    }

    /// The number of rules that are still unmatched.
    pub fn remaining(&self) -> (remaining: usize)
        requires
            self.wf(),
        ensures
            remaining == unmatched_count(self@),
    {
        self.remaining
    }

    /// Whether every rule was matched.
    pub fn is_complete(&self) -> (complete: bool)
        requires
            self.wf(),
        ensures
            complete == (unmatched_count(self@) == 0),
            complete == (forall|i: int| 0 <= i < self@.len() ==> self@[i]),
    {
        proof {
            lemma_unmatched_zero(self@);
        }
        self.remaining == 0
    }

    /// Records a match of rule `rule`. Only the first match of a rule lowers
    /// the number of unmatched rules.
    pub fn record(&mut self, rule: usize)
        requires
            old(self).wf(),
            rule < old(self)@.len(),
        ensures
            final(self).wf(),
            final(self)@ == old(self)@.update(rule as int, true),
    {
        proof {
            lemma_unmatched_set(self@, rule as int);
            lemma_unmatched_bound(self@.update(rule as int, true));
        }
        let count = self.counts[rule];
        if count == 0 {
            self.remaining = self.remaining - 1;
        }
        let next = if count < usize::MAX {
            count + 1
        } else {
            count
        };
        self.counts.set(rule, next);
        assert(self@ =~= old(self)@.update(rule as int, true));
    }
}

} // verus!
