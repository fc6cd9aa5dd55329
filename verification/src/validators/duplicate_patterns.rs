//! The duplicate detector: rules that repeat an earlier rule, as written or
//! once the separators around the pattern are taken off.
use crate::fx::{text_set, text_set_insert, text_set_new};
use crate::parser::{rule_views, CodeOwnerRule, RuleView};
use crate::text::{among_first, holds_first, lemma_holds_one_more};
use vstd::prelude::*;

verus! {

/// How a rule repeats an earlier one.
#[derive(Clone, Copy, Debug, PartialEq, Eq, Structural)]
pub enum DuplicateKind {
    /// An earlier rule was written with the same text.
    Exact,
    /// No earlier rule was written with the same text, but one has the same
    /// pattern: the two differ in their separators only.
    Normalized,
}

/// A rule that repeats an earlier one.
#[derive(Clone, Copy, Debug, PartialEq, Eq, Structural)]
pub struct Duplicate {
    /// The index of the rule in the list.
    pub index: usize,
    /// How it repeats an earlier rule.
    pub kind: DuplicateKind,
}

/// The texts that `rules` were written as, in order.
pub open spec fn written_texts(rules: Seq<RuleView>) -> Seq<Seq<char>> {
    rules.map_values(|rule: RuleView| rule.original_path)
}

/// The patterns of `rules`, in order.
pub open spec fn patterns_of(rules: Seq<RuleView>) -> Seq<Seq<char>> {
    rules.map_values(|rule: RuleView| rule.pattern)
}

/// Whether rule `i` was written with the same text as an earlier rule.
pub open spec fn repeats_text(rules: Seq<RuleView>, i: int) -> bool {
    among_first(written_texts(rules), i, rules[i].original_path)
}

/// Whether rule `i` has the same pattern as an earlier rule.
pub open spec fn repeats_pattern(rules: Seq<RuleView>, i: int) -> bool {
    among_first(patterns_of(rules), i, rules[i].pattern)
}

/// Whether rule `i` repeats an earlier rule.
pub open spec fn is_duplicate(rules: Seq<RuleView>, i: int) -> bool {
    repeats_text(rules, i) || repeats_pattern(rules, i)
}

/// How rule `i` repeats an earlier rule, where it does.
pub open spec fn kind_of(rules: Seq<RuleView>, i: int) -> DuplicateKind {
    if repeats_text(rules, i) {
        DuplicateKind::Exact
    } else {
        DuplicateKind::Normalized
    }
}

/// The duplicates among `rules`, in order.
pub open spec fn duplicates_in(rules: Seq<RuleView>) -> Seq<Duplicate>
    decreases rules.len(),
{
    if rules.len() == 0 {
        Seq::empty()
    } else if is_duplicate(rules, rules.len() - 1) {
        duplicates_in(rules.drop_last()).push(
            Duplicate { index: (rules.len() - 1) as usize, kind: kind_of(rules, rules.len() - 1) },
        )
    } else {
        duplicates_in(rules.drop_last())
    }
}

/// The rules that repeat an earlier rule, in order.
pub open spec fn duplicate_rules(rules: Seq<RuleView>) -> Seq<RuleView>
    decreases rules.len(),
{
    if rules.len() == 0 {
        Seq::empty()
    } else if is_duplicate(rules, rules.len() - 1) {
        duplicate_rules(rules.drop_last()).push(rules.last())
    } else {
        duplicate_rules(rules.drop_last())
    }
}

/// Whether a rule repeats an earlier one does not depend on the rules after it.
pub proof fn lemma_duplicate_in_prefix(rules: Seq<RuleView>, len: int, i: int)
    requires
        0 <= i < len <= rules.len(),
    ensures
        repeats_text(rules.take(len), i) == repeats_text(rules, i),
        repeats_pattern(rules.take(len), i) == repeats_pattern(rules, i),
        is_duplicate(rules.take(len), i) == is_duplicate(rules, i),
        kind_of(rules.take(len), i) == kind_of(rules, i),
{
    let front = rules.take(len);
    assert(written_texts(front) =~= written_texts(rules).take(len));
    assert(patterns_of(front) =~= patterns_of(rules).take(len));
    if repeats_text(front, i) {
        let j = choose|j: int| 0 <= j < i && #[trigger] written_texts(front)[j] == front[i].original_path;
        assert(written_texts(rules)[j] == rules[i].original_path);
    }
    if repeats_text(rules, i) {
        let j = choose|j: int| 0 <= j < i && #[trigger] written_texts(rules)[j] == rules[i].original_path;
        assert(written_texts(front)[j] == front[i].original_path);
    }
    if repeats_pattern(front, i) {
        let j = choose|j: int| 0 <= j < i && #[trigger] patterns_of(front)[j] == front[i].pattern;
        assert(patterns_of(rules)[j] == rules[i].pattern);
    }
    if repeats_pattern(rules, i) {
        let j = choose|j: int| 0 <= j < i && #[trigger] patterns_of(rules)[j] == rules[i].pattern;
        assert(patterns_of(front)[j] == front[i].pattern);
    }
}

/// The duplicates are the rules that repeat an earlier rule, each once and in
/// the order of the list.
pub proof fn lemma_duplicates_in(rules: Seq<RuleView>)
    requires
        rules.len() <= usize::MAX,
    ensures
        duplicates_in(rules).len() == duplicate_rules(rules).len(),
        duplicates_in(rules).len() <= rules.len(),
        forall|d: int|
            0 <= d < duplicates_in(rules).len() ==> {
                let found = #[trigger] duplicates_in(rules)[d];
                &&& found.index < rules.len()
                &&& is_duplicate(rules, found.index as int)
                &&& found.kind == kind_of(rules, found.index as int)
                &&& duplicate_rules(rules)[d] == rules[found.index as int]
            },
        forall|d: int, e: int|
            0 <= d < e < duplicates_in(rules).len() ==> duplicates_in(rules)[d].index
                < duplicates_in(rules)[e].index,
        forall|i: int|
            0 <= i < rules.len() && is_duplicate(rules, i) ==> exists|d: int|
                0 <= d < duplicates_in(rules).len() && (#[trigger] duplicates_in(rules)[d]).index == i,
    decreases rules.len(),
{
    if rules.len() > 0 {
        let front = rules.drop_last();
        let last = rules.len() - 1;
        lemma_duplicates_in(front);
        assert(front =~= rules.take(last));
        assert forall|d: int| 0 <= d < duplicates_in(front).len() implies {
            let found = #[trigger] duplicates_in(front)[d];
            &&& is_duplicate(rules, found.index as int)
            &&& found.kind == kind_of(rules, found.index as int)
        } by {
            lemma_duplicate_in_prefix(rules, last, duplicates_in(front)[d].index as int);
        }
        assert forall|i: int| 0 <= i < rules.len() && is_duplicate(rules, i) implies exists|d: int|
            0 <= d < duplicates_in(rules).len() && (#[trigger] duplicates_in(rules)[d]).index
                == i by {
            if i < last {
                lemma_duplicate_in_prefix(rules, last, i);
                let d = choose|d: int|
                    0 <= d < duplicates_in(front).len() && (#[trigger] duplicates_in(front)[d]).index
                        == i;
                assert(duplicates_in(rules)[d].index == i);
            } else {
                let d = duplicates_in(front).len() as int;
                assert(duplicates_in(rules)[d].index == i);
            }
        }
    }
}

/// Appending a copy of a rule of the list adds exactly one duplicate, the copy,
/// and leaves the others as they were.
pub proof fn lemma_copy_is_one_more(rules: Seq<RuleView>, k: int)
    requires
        0 <= k < rules.len(),
    ensures
        duplicate_rules(rules.push(rules[k])) == duplicate_rules(rules).push(rules[k]),
        duplicates_in(rules.push(rules[k])).len() == duplicates_in(rules).len() + 1,
        duplicates_in(rules.push(rules[k])).drop_last() == duplicates_in(rules),
        duplicates_in(rules.push(rules[k])).last().kind == DuplicateKind::Exact,
{
    let longer = rules.push(rules[k]);
    assert(longer.drop_last() =~= rules);
    assert(written_texts(longer)[k] == longer[rules.len() as int].original_path);
    assert(repeats_text(longer, rules.len() as int));
    assert(duplicates_in(longer).drop_last() =~= duplicates_in(rules));
}

/// A rule that no earlier rule equals in text or in pattern is not reported:
/// the first of several equal rules never is.
pub proof fn lemma_first_is_kept(rules: Seq<RuleView>, i: int)
    requires
        rules.len() <= usize::MAX,
        0 <= i < rules.len(),
        forall|j: int|
            0 <= j < i ==> (#[trigger] rules[j]).original_path != rules[i].original_path
                && rules[j].pattern != rules[i].pattern,
    ensures
        !is_duplicate(rules, i),
        forall|d: int|
            0 <= d < duplicates_in(rules).len() ==> (#[trigger] duplicates_in(rules)[d]).index != i,
{
    lemma_duplicates_in(rules);
    if repeats_text(rules, i) {
        let j = choose|j: int| 0 <= j < i && #[trigger] written_texts(rules)[j] == rules[i].original_path;
        assert(rules[j].original_path == rules[i].original_path);
    }
    if repeats_pattern(rules, i) {
        let j = choose|j: int| 0 <= j < i && #[trigger] patterns_of(rules)[j] == rules[i].pattern;
        assert(rules[j].pattern == rules[i].pattern);
    }
}

/// Finds the rules that repeat an earlier rule, in one pass over the list.
pub fn find_duplicates(rules: &[CodeOwnerRule]) -> (found: Vec<Duplicate>)
    ensures
        found@ == duplicates_in(rule_views(rules@)),
{
    let ghost views = rule_views(rules@);
    let mut texts = text_set_new();
    let mut patterns = text_set_new();
    let mut found: Vec<Duplicate> = Vec::new();
    let mut i: usize = 0;
    assert(views.take(0) =~= Seq::empty());
    while i < rules.len()
        invariant
            i <= rules@.len(),
            views == rule_views(rules@),
            holds_first(text_set(texts), written_texts(views), i as int),
            holds_first(text_set(patterns), patterns_of(views), i as int),
            found@ == duplicates_in(views.take(i as int)),
        decreases rules.len() - i,
    {
        let rule = &rules[i];
        proof {
            assert(views.take(i + 1).drop_last() =~= views.take(i as int));
            lemma_duplicate_in_prefix(views, i + 1, i as int);
            assert(views[i as int] == rule@);
            lemma_holds_one_more(text_set(texts), written_texts(views), i as int);
            lemma_holds_one_more(text_set(patterns), patterns_of(views), i as int);
        }
        let repeats_text_here = !text_set_insert(&mut texts, rule.original_path.as_str());
        let repeats_pattern_here = !text_set_insert(&mut patterns, rule.pattern.as_str());
        if repeats_text_here || repeats_pattern_here {
            let kind = if repeats_text_here {
                DuplicateKind::Exact
            } else {
                DuplicateKind::Normalized
            };
            found.push(Duplicate { index: i, kind });
        }
        i += 1;
    }
    assert(views.take(i as int) =~= views);
    found
}

/// The rules that repeat an earlier rule, in the order of the list. The
/// first of several equal rules is not among them.
pub fn validate_duplicates(rules: &[CodeOwnerRule]) -> (duplicates: Vec<CodeOwnerRule>)
    ensures
        rule_views(duplicates@) == duplicate_rules(rule_views(rules@)),
{
    let ghost views = rule_views(rules@);
    let found = find_duplicates(rules);
    let count = rules.len();
    proof {
        assert(views.len() == count);
        lemma_duplicates_in(views);
    }
    let mut duplicates: Vec<CodeOwnerRule> = Vec::new();
    let mut d: usize = 0;
    while d < found.len()
        invariant
            d <= found@.len(),
            views == rule_views(rules@),
            found@ == duplicates_in(views),
            found@.len() == duplicate_rules(views).len(),
            forall|e: int|
                0 <= e < found@.len() ==> (#[trigger] found@[e]).index < rules@.len()
                    && duplicate_rules(views)[e] == views[found@[e].index as int],
            rule_views(duplicates@) == duplicate_rules(views).take(d as int),
        decreases found.len() - d,
    {
        let ghost held = rule_views(duplicates@);
        let rule = rules[found[d].index].clone();
        duplicates.push(rule);
        proof {
            assert(rule_views(duplicates@) =~= held.push(rule@));
            assert(duplicate_rules(views).take(d + 1) =~= duplicate_rules(views).take(d as int).push(
                duplicate_rules(views)[d as int],
            ));
        }
        d += 1;
    }
    assert(duplicate_rules(views).take(d as int) =~= duplicate_rules(views));
    duplicates
}

} // verus!
