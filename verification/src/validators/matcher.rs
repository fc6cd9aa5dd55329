//! The combined matcher: the globs of many rules in one set, so that a path
//! is tested against all of them at once.
use crate::fx::{index_map_get, index_map_insert, index_map_new};
use crate::globs::{
    builder_add, builder_build, builder_new, builder_patterns, error_message, glob_compiles,
    glob_matches, set_builds, set_matches, set_patterns, strictly_ascending,
};
use crate::parser::{CodeOwnerRule, RuleView};
use crate::pattern::{compile_primitives, pattern_compiles, primitives_of, GlobError};
use globset::GlobSet;
use rustc_hash::FxHashMap;
use vstd::prelude::*;

verus! {

/// The globs that `rule` is matched by.
pub open spec fn rule_globs(rule: RuleView) -> Seq<Seq<char>> {
    primitives_of(rule.pattern, rule.original_path)
}

/// Whether every glob of `rule` compiles.
pub open spec fn rule_compiles(rule: RuleView) -> bool {
    pattern_compiles(rule.pattern, rule.original_path)
}

/// Whether `path` satisfies `rule`: the rule compiles, and one of its globs
/// matches the path.
pub open spec fn rule_matches(rule: RuleView, path: Seq<char>) -> bool {
    rule_compiles(rule) && exists|k: int|
        0 <= k < rule_globs(rule).len() && glob_matches(#[trigger] rule_globs(rule)[k], path)
}

/// The views of `rules`, in order.
pub open spec fn ref_views(rules: Seq<&CodeOwnerRule>) -> Seq<RuleView> {
    rules.map_values(|rule: &CodeOwnerRule| rule@)
}

/// The globs of the rules that compile, rule by rule.
pub open spec fn compiled_globs(rules: Seq<RuleView>) -> Seq<Seq<char>>
    decreases rules.len(),
{
    if rules.len() == 0 {
        Seq::empty()
    } else if rule_compiles(rules.last()) {
        compiled_globs(rules.drop_last()) + rule_globs(rules.last())
    } else {
        compiled_globs(rules.drop_last())
    }
}

/// For each glob of `compiled_globs`, the index of the rule that it belongs to.
pub open spec fn compiled_owners(rules: Seq<RuleView>) -> Seq<int>
    decreases rules.len(),
{
    if rules.len() == 0 {
        Seq::empty()
    } else if rule_compiles(rules.last()) {
        compiled_owners(rules.drop_last()) + Seq::new(
            rule_globs(rules.last()).len(),
            |k: int| rules.len() - 1,
        )
    } else {
        compiled_owners(rules.drop_last())
    }
}

/// Whether `owners` binds the number of each glob of `compiled_globs(rules)`,
/// and no other number, to the index of its rule.
pub open spec fn is_owner_map(owners: Map<usize, usize>, rules: Seq<RuleView>) -> bool {
    &&& forall|k: usize| owners.contains_key(k) <==> k < compiled_globs(rules).len()
    &&& forall|k: usize|
        k < compiled_globs(rules).len() ==> #[trigger] owners[k] == compiled_owners(rules)[k as int]
}

/// Whether the compiled glob number `k` is glob `j` of rule `r`.
pub open spec fn is_slot_of(rules: Seq<RuleView>, k: int, r: int, j: int) -> bool {
    &&& 0 <= k < compiled_globs(rules).len()
    &&& compiled_owners(rules)[k] == r
    &&& compiled_globs(rules)[k] == rule_globs(rules[r])[j]
}

/// Whether glob `j` of rule `r` is among the compiled globs.
pub open spec fn has_slot(rules: Seq<RuleView>, r: int, j: int) -> bool {
    exists|k: int| #[trigger] is_slot_of(rules, k, r, j)
}

/// Every compiled glob belongs to a rule that compiles, and every glob of
/// such a rule is among the compiled ones.
pub proof fn lemma_compiled_index(rules: Seq<RuleView>)
    ensures
        compiled_owners(rules).len() == compiled_globs(rules).len(),
        compiled_globs(rules).len() <= 2 * rules.len(),
        forall|k: int|
            0 <= k < compiled_globs(rules).len() ==> {
                let r = #[trigger] compiled_owners(rules)[k];
                &&& 0 <= r < rules.len()
                &&& rule_compiles(rules[r])
                &&& exists|j: int|
                    0 <= j < rule_globs(rules[r]).len() && #[trigger] is_slot_of(rules, k, r, j)
            },
        forall|r: int, j: int|
            0 <= r < rules.len() && rule_compiles(rules[r]) && 0 <= j < rule_globs(rules[r]).len()
                ==> #[trigger] has_slot(rules, r, j),
        forall|k: int, m: int|
            0 <= k <= m < compiled_globs(rules).len() ==> compiled_owners(rules)[k]
                <= compiled_owners(rules)[m],
    decreases rules.len(),
{
    if rules.len() > 0 {
        let front = rules.drop_last();
        let last = rules.last();
        lemma_compiled_index(front);
        let globs = compiled_globs(rules);
        let owners = compiled_owners(rules);
        let base = compiled_globs(front).len() as int;
        assert forall|k: int| 0 <= k < globs.len() implies {
            let r = #[trigger] owners[k];
            &&& 0 <= r < rules.len()
            &&& rule_compiles(rules[r])
            &&& exists|j: int|
                0 <= j < rule_globs(rules[r]).len() && #[trigger] is_slot_of(rules, k, r, j)
        } by {
            if k < base {
                let r = compiled_owners(front)[k];
                assert(front[r] == rules[r]);
                let j = choose|j: int|
                    0 <= j < rule_globs(front[r]).len() && #[trigger] is_slot_of(front, k, r, j);
                assert(is_slot_of(rules, k, r, j));
            } else {
                assert(is_slot_of(rules, k, rules.len() - 1, k - base));
            }
        }
        assert forall|r: int, j: int|
            0 <= r < rules.len() && rule_compiles(rules[r]) && 0 <= j < rule_globs(
                rules[r],
            ).len() implies #[trigger] has_slot(rules, r, j) by {
            if r < rules.len() - 1 {
                assert(front[r] == rules[r]);
                assert(has_slot(front, r, j));
                let k = choose|k: int| #[trigger] is_slot_of(front, k, r, j);
                assert(is_slot_of(rules, k, r, j));
            } else {
                assert(is_slot_of(rules, base + j, r, j));
            }
        }
    }
}

/// Whether every one of `rules` compiles.
pub open spec fn all_compile(rules: Seq<RuleView>) -> bool {
    forall|r: int| 0 <= r < rules.len() ==> rule_compiles(#[trigger] rules[r])
}

/// A list of one rule compiles exactly where the globs of that rule do, and
/// its compiled globs are then the globs of the rule. So the build of one
/// rule succeeds only where the test of its pattern does, and where that
/// test succeeds the build fails only if the glob engine refuses the set.
pub proof fn lemma_one_rule_compiles(rule: RuleView)
    ensures
        all_compile(seq![rule]) == pattern_compiles(rule.pattern, rule.original_path),
        pattern_compiles(rule.pattern, rule.original_path) ==> compiled_globs(seq![rule])
            == primitives_of(rule.pattern, rule.original_path),
{
    let one = seq![rule];
    assert(one[0] == rule);
    assert(one.drop_last() =~= Seq::empty());
    assert(compiled_globs(one.drop_last()) =~= Seq::empty());
    if rule_compiles(rule) {
        assert(compiled_globs(one) =~= rule_globs(rule));
    }
}

/// Builds the combined matcher of `rules` and, beside it, the table that
/// leads from the number of each glob in it back to the index of its rule.
///
/// A malformed glob is an error: the build fails on the first rule that does
/// not compile. It fails, too, where the glob engine refuses the set as a
/// whole.
pub fn build_globset_with_mapping(rules: &[&CodeOwnerRule]) -> (res: Result<
    (GlobSet, FxHashMap<usize, usize>),
    GlobError,
>)
    ensures
        res.is_ok() == (all_compile(ref_views(rules@)) && set_builds(
            compiled_globs(ref_views(rules@)),
        )),
        res matches Ok((set, owners)) ==> {
            &&& set_patterns(set) == compiled_globs(ref_views(rules@))
            &&& compiled_globs(ref_views(rules@)).len() <= usize::MAX
            &&& is_owner_map(owners@, ref_views(rules@))
        },
{
    let ghost views = ref_views(rules@);
    let mut builder = builder_new();
    let mut owners = index_map_new();
    let mut glob_idx: usize = 0;
    let mut rule_idx: usize = 0;
    assert(views.take(0) =~= Seq::empty());
    while rule_idx < rules.len()
        invariant
            views == ref_views(rules@),
            rule_idx <= rules@.len(),
            forall|r: int| 0 <= r < rule_idx ==> rule_compiles(#[trigger] views[r]),
            builder_patterns(builder) == compiled_globs(views.take(rule_idx as int)),
            is_owner_map(owners@, views.take(rule_idx as int)),
            glob_idx == compiled_globs(views.take(rule_idx as int)).len(),
        decreases rules.len() - rule_idx,
    {
        let rule = rules[rule_idx];
        let ghost before = views.take(rule_idx as int);
        let ghost after = views.take(rule_idx + 1);
        proof {
            assert(after.drop_last() =~= before);
            assert(after.last() == rule@);
            assert(views[rule_idx as int] == rule@);
            lemma_compiled_index(before);
        }
        let texts = compile_primitives(rule.pattern.as_str(), rule.original_path.as_str());
        let ghost base = builder_patterns(builder);
        let ghost old_owners = owners@;
        let ghost sources = rule_globs(rule@);
        let mut j: usize = 0;
        while j < texts.len()
            invariant
                j <= texts@.len(),
                views == ref_views(rules@),
                rule_idx < rules@.len(),
                views[rule_idx as int] == rule@,
                texts.deep_view() == sources,
                sources == rule_globs(rule@),
                forall|k: int| 0 <= k < j ==> glob_compiles(#[trigger] sources[k]),
                glob_idx == base.len() + j,
                builder_patterns(builder) == base + sources.take(j as int),
                forall|k: usize| owners@.contains_key(k) <==> k < base.len() + j,
                forall|k: usize| k < base.len() ==> #[trigger] owners@[k] == old_owners[k],
                forall|k: usize|
                    base.len() <= k < base.len() + j ==> #[trigger] owners@[k] == rule_idx,
            decreases texts.len() - j,
        {
            assert(texts.deep_view()[j as int] == texts@[j as int]@);
            match builder_add(&mut builder, texts[j].as_str()) {
                Ok(()) => {},
                Err(error) => {
                    assert(!glob_compiles(rule_globs(rule@)[j as int]));
                    assert(!rule_compiles(views[rule_idx as int]));
                    return Err(GlobError { message: error_message(&error) });
                },
            }
            index_map_insert(&mut owners, glob_idx, rule_idx);
            proof {
                assert(sources.take(j + 1) =~= sources.take(j as int).push(sources[j as int]));
                assert(builder_patterns(builder) =~= base + sources.take(j + 1));
            }
            glob_idx += 1;
            j += 1;
        }
        proof {
            assert(sources.take(sources.len() as int) =~= sources);
            assert(rule_compiles(rule@));
            assert(compiled_globs(after) == base + sources);
            lemma_compiled_index(after);
        }
        rule_idx += 1;
    }
    assert(views.take(rule_idx as int) =~= views);
    match builder_build(&builder) {
        Ok(set) => Ok((set, owners)),
        Err(error) => Err(GlobError { message: error_message(&error) }),
    }
}

/// Whether one of the first `upto` hits is a glob of rule `rule`.
pub open spec fn is_owner_of_hit(owners: Seq<int>, hits: Seq<usize>, upto: int, rule: int) -> bool {
    exists|t: int| 0 <= t < upto && owners[(#[trigger] hits[t]) as int] == rule
}

/// The combined matcher of a list of rules, with the way back from each of
/// its globs to the rule that the glob belongs to.
///
/// It does not change once built, and may be read by many workers at once.
pub struct RuleMatcher {
    set: GlobSet,
    owners: FxHashMap<usize, usize>,
    count: usize,
    rules: Ghost<Seq<RuleView>>,
}

impl RuleMatcher {
    #[verifier::type_invariant]
    spec fn consistent(self) -> bool {
        &&& set_patterns(self.set) == compiled_globs(self.rules@)
        &&& compiled_globs(self.rules@).len() <= usize::MAX
        &&& is_owner_map(self.owners@, self.rules@)
        &&& self.count == self.rules@.len()
        &&& all_compile(self.rules@)
    }

    /// The rules that the matcher was built from.
    pub closed spec fn rules(&self) -> Seq<RuleView> {
        self.rules@
    }

    /// Builds the matcher of `rules`. Every rule has to compile.
    pub fn build(rules: &[&CodeOwnerRule]) -> (res: Result<RuleMatcher, GlobError>)
        ensures
            res.is_ok() == (all_compile(ref_views(rules@)) && set_builds(
                compiled_globs(ref_views(rules@)),
            )),
            res matches Ok(matcher) ==> matcher.rules() == ref_views(rules@),
    {
        match build_globset_with_mapping(rules) {
            Ok((set, owners)) => Ok(
                RuleMatcher { set, owners, count: rules.len(), rules: Ghost(ref_views(rules@)) },
            ),
            Err(error) => Err(error),
        }
    }

    /// The number of rules that the matcher was built from.
    pub fn rule_count(&self) -> (count: usize)
        ensures
            count == self.rules().len(),
    {
        proof {
            use_type_invariant(self);
        }
        self.count
    }

    /// The rules that `path` satisfies, by index: in ascending order, each once.
    pub fn matched_rules(&self, path: &str) -> (matched: Vec<usize>)
        ensures
            strictly_ascending(matched@),
            forall|i: int| 0 <= i < matched@.len() ==> matched@[i] < self.rules().len(),
            forall|r: int|
                0 <= r < self.rules().len() ==> (matched@.contains(r as usize) <==> rule_matches(
                    #[trigger] self.rules()[r],
                    path@,
                )),
    {
        proof {
            use_type_invariant(self);
            lemma_compiled_index(self.rules());
        }
        let ghost rules = self.rules();
        let ghost globs = compiled_globs(rules);
        let ghost owners = compiled_owners(rules);
        let count = self.count;
        assert(rules.len() == count);
        let hits = set_matches(&self.set, path);
        let mut matched: Vec<usize> = Vec::new();
        let mut i: usize = 0;
        while i < hits.len()
            invariant
                i <= hits@.len(),
                rules.len() == count,
                is_owner_map(self.owners@, rules),
                owners == compiled_owners(rules),
                globs == compiled_globs(rules),
                owners.len() == globs.len(),
                strictly_ascending(hits@),
                strictly_ascending(matched@),
                forall|t: int| 0 <= t < hits@.len() ==> hits@[t] < globs.len(),
                forall|k: int| 0 <= k < globs.len() ==> 0 <= #[trigger] owners[k] < rules.len(),
                forall|k: int, m: int| 0 <= k <= m < globs.len() ==> owners[k] <= owners[m],
                forall|t: int| 0 <= t < i ==> matched@.contains(owners[hits@[t] as int] as usize),
                forall|m: int|
                    0 <= m < matched@.len() ==> is_owner_of_hit(
                        owners,
                        hits@,
                        i as int,
                        #[trigger] matched@[m] as int,
                    ),
                i > 0 ==> matched@.len() > 0 && matched@.last() == owners[hits@[i - 1] as int],
            decreases hits.len() - i,
        {
            let found = index_map_get(&self.owners, hits[i]);
            assert(self.owners@.contains_key(hits@[i as int]));
            assert(self.owners@[hits@[i as int]] == owners[hits@[i as int] as int]);
            let owner = found.unwrap();
            let ghost held = matched@;
            if matched.len() == 0 || matched[matched.len() - 1] != owner {
                proof {
                    if i > 0 {
                        assert(hits@[i - 1] < hits@[i as int]);
                        assert(owners[hits@[i - 1] as int] <= owners[hits@[i as int] as int]);
                    }
                }
                matched.push(owner);
                assert(matched@[held.len() as int] == owner);
            }
            proof {
                assert(matched@.last() == owner);
                assert forall|t: int| 0 <= t < i + 1 implies matched@.contains(
                    owners[hits@[t] as int] as usize,
                ) by {
                    if t < i {
                        let at = choose|at: int|
                            0 <= at < held.len() && held[at] == owners[hits@[t] as int] as usize;
                        assert(matched@[at] == held[at]);
                    } else {
                        assert(matched@[matched@.len() - 1] == owner);
                    }
                }
                assert forall|m: int| 0 <= m < matched@.len() implies is_owner_of_hit(
                    owners,
                    hits@,
                    i + 1,
                    #[trigger] matched@[m] as int,
                ) by {
                    if m < held.len() {
                        assert(matched@[m] == held[m]);
                        let t = choose|t: int|
                            0 <= t < i && owners[(#[trigger] hits@[t]) as int] == held[m] as int;
                        assert(0 <= t < i + 1 && owners[hits@[t] as int] == matched@[m] as int);
                    } else {
                        assert(owners[hits@[i as int] as int] == matched@[m] as int);
                    }
                }
            }
            i += 1;
        }
        proof {
            assert forall|r: int| 0 <= r < rules.len() implies (matched@.contains(r as usize)
                <==> rule_matches(#[trigger] rules[r], path@)) by {
                if matched@.contains(r as usize) {
                    let m = choose|m: int| 0 <= m < matched@.len() && matched@[m] == r as usize;
                    assert(is_owner_of_hit(owners, hits@, hits@.len() as int, matched@[m] as int));
                    let t = choose|t: int|
                        0 <= t < hits@.len() && owners[(#[trigger] hits@[t]) as int] == r;
                    let k = hits@[t] as int;
                    assert(hits@.contains(k as usize));
                    let j = choose|j: int|
                        0 <= j < rule_globs(rules[r]).len() && #[trigger] is_slot_of(rules, k, r, j);
                    assert(glob_matches(rule_globs(rules[r])[j], path@));
                }
                if rule_matches(rules[r], path@) {
                    let j = choose|j: int|
                        0 <= j < rule_globs(rules[r]).len() && glob_matches(
                            #[trigger] rule_globs(rules[r])[j],
                            path@,
                        );
                    assert(has_slot(rules, r, j));
                    let k = choose|k: int| #[trigger] is_slot_of(rules, k, r, j);
                    assert(hits@.contains(k as usize));
                    let t = choose|t: int| 0 <= t < hits@.len() && hits@[t] == k as usize;
                    assert(matched@.contains(owners[hits@[t] as int] as usize));
                }
            }
        }
        matched
    }
}

} // verus!
