//! The shadowing detector: rules that an earlier rule already covers, and
//! rules that cover a later one.
//!
//! Where the last matching rule wins, a broad rule before a narrow one makes
//! the narrow one say more than its author may have meant.
use crate::globs::{
    builder_add, builder_build, builder_new, builder_patterns, error_message, glob_compiles,
    glob_matches, set_builds, set_matches, set_patterns,
};
use crate::parser::{rule_views, CodeOwnerRule, RuleView};
use crate::pattern::GlobError;
use vstd::prelude::*;

verus! {

/// A rule with the glob that it is matched by.
#[derive(Debug)]
pub struct GlobRule {
    /// The rule.
    pub rule: CodeOwnerRule,
    /// The text of the glob that stands for the rule.
    pub glob: String,
}

/// A rule and its glob as mathematical text.
pub struct GlobRuleView {
    pub rule: RuleView,
    pub glob: Seq<char>,
}

impl View for GlobRule {
    type V = GlobRuleView;

    open spec fn view(&self) -> GlobRuleView {
        GlobRuleView { rule: self.rule@, glob: self.glob@ }
    }
}

/// The views of `rules`, in order.
pub open spec fn glob_rule_views(rules: Seq<GlobRule>) -> Seq<GlobRuleView> {
    rules.map_values(|rule: GlobRule| rule@)
}

/// The globs of `rules`, in order.
pub open spec fn glob_texts(rules: Seq<GlobRuleView>) -> Seq<Seq<char>> {
    rules.map_values(|rule: GlobRuleView| rule.glob)
}

/// Whether the glob of every rule compiles.
pub open spec fn globs_compile(rules: Seq<GlobRuleView>) -> bool {
    forall|i: int| 0 <= i < rules.len() ==> glob_compiles((#[trigger] rules[i]).glob)
}

/// Whether the glob of rule `by` matches the text that rule `of` was written as.
pub open spec fn covers(rules: Seq<GlobRuleView>, by: int, of: int) -> bool {
    glob_matches(rules[by].glob, rules[of].rule.original_path)
}

/// Whether an earlier rule covers rule `i`.
pub open spec fn is_shadowed(rules: Seq<GlobRuleView>, i: int) -> bool {
    exists|j: int| 0 <= j < i && #[trigger] covers(rules, j, i)
}

/// Whether rule `i` covers a later rule.
pub open spec fn is_shadowing(rules: Seq<GlobRuleView>, i: int) -> bool {
    exists|j: int| i < j < rules.len() && #[trigger] covers(rules, i, j)
}

/// Whether rule `i` is reported: an earlier rule covers it, or it covers a
/// later one.
pub open spec fn violates(rules: Seq<GlobRuleView>, i: int) -> bool {
    is_shadowed(rules, i) || is_shadowing(rules, i)
}

/// The reported rules among the first `len`, in order.
pub open spec fn violating_among(rules: Seq<GlobRuleView>, len: nat) -> Seq<RuleView>
    decreases len,
{
    if len == 0 {
        Seq::empty()
    } else if violates(rules, len - 1) {
        violating_among(rules, (len - 1) as nat).push(rules[len - 1].rule)
    } else {
        violating_among(rules, (len - 1) as nat)
    }
}

/// The reported rules, in order.
pub open spec fn violating_rules(rules: Seq<GlobRuleView>) -> Seq<RuleView> {
    violating_among(rules, rules.len())
}

/// Whether the check can be carried out: there is no rule, or every glob
/// compiles and the glob engine takes them as one set.
pub open spec fn can_compare(rules: Seq<GlobRuleView>) -> bool {
    rules.len() == 0 || (globs_compile(rules) && set_builds(glob_texts(rules)))
}

/// Whether one of the first `upto` hits lies before `limit`.
pub open spec fn hit_before(hits: Seq<usize>, upto: int, limit: int) -> bool {
    exists|u: int| 0 <= u < upto && (#[trigger] hits[u]) < limit
}

/// Whether one of the first `upto` hits is `index`.
pub open spec fn hit_at(hits: Seq<usize>, upto: int, index: int) -> bool {
    exists|u: int| 0 <= u < upto && (#[trigger] hits[u]) == index
}

/// Whether rule `i` covers a rule after it and before `limit`.
pub open spec fn covers_before(rules: Seq<GlobRuleView>, i: int, limit: int) -> bool {
    exists|j: int| i < j < limit && #[trigger] covers(rules, i, j)
}

/// `len` flags, none of them set.
fn unset_flags(len: usize) -> (flags: Vec<bool>)
    ensures
        flags@.len() == len,
        forall|i: int| 0 <= i < len ==> !flags@[i],
{
    let mut flags: Vec<bool> = Vec::new();
    let mut i: usize = 0;
    while i < len
        invariant
            i <= len,
            flags@.len() == i,
            forall|k: int| 0 <= k < i ==> !flags@[k],
        decreases len - i,
    {
        flags.push(false);
        i += 1;
    }
    flags
}

/// Finds the rules that an earlier rule covers and the rules that cover a
/// later one. Every rule is tested against the globs of all rules at once.
///
/// The reported rules come in the order of the list, each once.
pub fn validate_avoid_shadowing(rules: &[GlobRule]) -> (res: Result<Vec<CodeOwnerRule>, GlobError>)
    ensures
        res.is_ok() == can_compare(glob_rule_views(rules@)),
        res matches Ok(violating) ==> rule_views(violating@) == violating_rules(
            glob_rule_views(rules@),
        ),
{
    let ghost views = glob_rule_views(rules@);
    let count = rules.len();
    if count == 0 {
        let none: Vec<CodeOwnerRule> = Vec::new();
        assert(rule_views(none@) =~= violating_rules(views));
        return Ok(none);
    }
    let mut builder = builder_new();
    let mut i: usize = 0;
    while i < count
        invariant
            i <= count,
            count == rules@.len(),
            views == glob_rule_views(rules@),
            builder_patterns(builder) == glob_texts(views).take(i as int),
            forall|k: int| 0 <= k < i ==> glob_compiles((#[trigger] views[k]).glob),
        decreases count - i,
    {
        match builder_add(&mut builder, rules[i].glob.as_str()) {
            Ok(()) => {
                assert(glob_texts(views).take(i + 1) =~= glob_texts(views).take(i as int).push(
                    views[i as int].glob,
                ));
            },
            Err(error) => {
                assert(!glob_compiles(views[i as int].glob));
                return Err(GlobError { message: error_message(&error) });
            },
        }
        i += 1;
    }
    assert(glob_texts(views).take(i as int) =~= glob_texts(views));
    let set = match builder_build(&builder) {
        Ok(set) => set,
        Err(error) => {
            return Err(GlobError { message: error_message(&error) });
        },
    };
    let mut shadowed = unset_flags(count);
    let mut shadowing = unset_flags(count);
    let mut j: usize = 0;
    while j < count
        invariant
            j <= count,
            count == rules@.len(),
            views == glob_rule_views(rules@),
            set_patterns(set) == glob_texts(views),
            shadowed@.len() == count,
            shadowing@.len() == count,
            forall|c: int| 0 <= c < j ==> #[trigger] shadowed@[c] == is_shadowed(views, c),
            forall|c: int| 0 <= c < count ==> #[trigger] shadowing@[c] == covers_before(views, c, j as int),
        decreases count - j,
    {
        let hits = set_matches(&set, rules[j].rule.original_path.as_str());
        let ghost was_shadowing = shadowing@;
        let ghost was_shadowed = shadowed@;
        let mut found = false;
        let mut t: usize = 0;
        while t < hits.len()
            invariant
                t <= hits@.len(),
                j < count,
                shadowing@.len() == count,
                forall|u: int| 0 <= u < hits@.len() ==> hits@[u] < count,
                found == hit_before(hits@, t as int, j as int),
                forall|c: int|
                    0 <= c < count ==> #[trigger] shadowing@[c] == (was_shadowing[c] || (c < j
                        && hit_at(hits@, t as int, c))),
            decreases hits.len() - t,
        {
            let by = hits[t];
            let ghost held = shadowing@;
            if by < j {
                found = true;
                shadowing.set(by, true);
            }
            proof {
                assert(hit_before(hits@, t + 1, j as int) == (hit_before(hits@, t as int, j as int)
                    || by < j)) by {
                    if by < j {
                        assert(hits@[t as int] < j);
                    }
                    if hit_before(hits@, t as int, j as int) {
                        let u = choose|u: int| 0 <= u < t && (#[trigger] hits@[u]) < j;
                        assert(0 <= u < t + 1 && hits@[u] < j);
                    }
                    if hit_before(hits@, t + 1, j as int) {
                        let u = choose|u: int| 0 <= u < t + 1 && (#[trigger] hits@[u]) < j;
                        if u < t {
                            assert(hit_before(hits@, t as int, j as int));
                        }
                    }
                }
                assert forall|c: int| 0 <= c < count implies #[trigger] shadowing@[c] == (
                was_shadowing[c] || (c < j && hit_at(hits@, t + 1, c))) by {
                    assert(hit_at(hits@, t + 1, c) == (hit_at(hits@, t as int, c) || by == c)) by {
                        if by == c {
                            assert(hits@[t as int] == c);
                        }
                        if hit_at(hits@, t as int, c) {
                            let u = choose|u: int| 0 <= u < t && (#[trigger] hits@[u]) == c;
                            assert(0 <= u < t + 1 && hits@[u] == c);
                        }
                        if hit_at(hits@, t + 1, c) {
                            let u = choose|u: int| 0 <= u < t + 1 && (#[trigger] hits@[u]) == c;
                            if u < t {
                                assert(hit_at(hits@, t as int, c));
                            }
                        }
                    }
                }
            }
            t += 1;
        }
        shadowed.set(j, found);
        proof {
            let path = views[j as int].rule.original_path;
            assert(found == is_shadowed(views, j as int)) by {
                if found {
                    let u = choose|u: int| 0 <= u < hits@.len() && (#[trigger] hits@[u]) < j;
                    let by = hits@[u];
                    assert(hits@.contains(by));
                    assert(glob_texts(views)[by as int] == views[by as int].glob);
                    assert(covers(views, by as int, j as int));
                }
                if is_shadowed(views, j as int) {
                    let by = choose|by: int| 0 <= by < j && #[trigger] covers(views, by, j as int);
                    assert(glob_texts(views)[by] == views[by].glob);
                    assert(hits@.contains(by as usize));
                    let u = choose|u: int| 0 <= u < hits@.len() && hits@[u] == by as usize;
                    assert(hits@[u] < j);
                }
            }
            assert forall|c: int| 0 <= c < count implies #[trigger] shadowing@[c] == covers_before(
                views,
                c,
                j + 1,
            ) by {
                assert(glob_texts(views)[c] == views[c].glob);
                if c < j && hit_at(hits@, hits@.len() as int, c) {
                    let u = choose|u: int| 0 <= u < hits@.len() && (#[trigger] hits@[u]) == c;
                    assert(hits@.contains(c as usize));
                    assert(covers(views, c, j as int));
                }
                if covers_before(views, c, j as int) {
                    let later = choose|later: int| c < later < j && #[trigger] covers(views, c, later);
                    assert(c < later < j + 1 && covers(views, c, later));
                }
                if covers_before(views, c, j + 1) {
                    let later = choose|later: int|
                        c < later < j + 1 && #[trigger] covers(views, c, later);
                    if later < j {
                        assert(covers_before(views, c, j as int));
                    } else {
                        assert(hits@.contains(c as usize));
                        let u = choose|u: int| 0 <= u < hits@.len() && hits@[u] == c as usize;
                        assert(hit_at(hits@, hits@.len() as int, c));
                    }
                }
            }
        }
        j += 1;
    }
    let mut violating: Vec<CodeOwnerRule> = Vec::new();
    let mut k: usize = 0;
    while k < count
        invariant
            k <= count,
            count == rules@.len(),
            views == glob_rule_views(rules@),
            shadowed@.len() == count,
            shadowing@.len() == count,
            forall|c: int| 0 <= c < count ==> #[trigger] shadowed@[c] == is_shadowed(views, c),
            forall|c: int|
                0 <= c < count ==> #[trigger] shadowing@[c] == covers_before(views, c, count as int),
            rule_views(violating@) == violating_among(views, k as nat),
        decreases count - k,
    {
        proof {
            assert(covers_before(views, k as int, count as int) == is_shadowing(views, k as int));
        }
        if shadowed[k] || shadowing[k] {
            let ghost held = rule_views(violating@);
            violating.push(rules[k].rule.clone());
            assert(rule_views(violating@) =~= held.push(views[k as int].rule));
        }
        k += 1;
    }
    Ok(violating)
}

} // verus!
