//! Which checks to run, and the run itself.
use crate::parser::{rule_views, CodeOwnerRule, RuleView};
use crate::pattern::GlobError;
use crate::text::{
    chars_of, range_spells, scan, segments_from, segments_of, trim, trim_range, Boundary,
};
use crate::validators::duplicate_patterns::{duplicate_rules, validate_duplicates};
use crate::validators::existence::{can_check, missing_rules, validate_directory, RepoTree, TreeView};
use vstd::prelude::*;

verus! {

/// The checks that were asked for. Where none was, all are run.
#[derive(Debug, Clone)]
pub struct ValidatorArgs {
    /// Whether the existence check was asked for.
    pub exists: bool,
    /// Whether the duplicate check was asked for.
    pub duplicate_patterns: bool,
}

impl Default for ValidatorArgs {
    fn default() -> (args: ValidatorArgs)
        ensures
            !args.exists,
            !args.duplicate_patterns,
    {
        ValidatorArgs { exists: false, duplicate_patterns: false }
    }
}

/// Whether one of `segments`, without the white space around it, is `word`.
pub open spec fn any_spells(segments: Seq<Seq<char>>, word: Seq<char>) -> bool {
    exists|i: int| 0 <= i < segments.len() && trim(#[trigger] segments[i]) == word
}

/// Whether a list of checks, written with commas between them, names `word`.
pub open spec fn names_check(list: Seq<char>, word: Seq<char>) -> bool {
    any_spells(segments_of(list), word)
}

/// The name of the existence check.
pub open spec fn exists_name() -> Seq<char> {
    "exists"@
}

/// The name of the duplicate check.
pub open spec fn duplicates_name() -> Seq<char> {
    "duplicate_patterns"@
}

/// The name that stands for every check.
pub open spec fn all_name() -> Seq<char> {
    "all"@
}

/// One of a segment and the segments after it spells a word exactly where
/// the segment does or one of those after it does.
proof fn lemma_any_spells_cons(first: Seq<char>, rest: Seq<Seq<char>>, word: Seq<char>)
    ensures
        any_spells(seq![first] + rest, word) == (trim(first) == word || any_spells(rest, word)),
{
    let all = seq![first] + rest;
    if trim(first) == word {
        assert(trim(all[0]) == word);
    }
    if any_spells(rest, word) {
        let i = choose|i: int| 0 <= i < rest.len() && trim(#[trigger] rest[i]) == word;
        assert(trim(all[i + 1]) == word);
    }
    if any_spells(all, word) {
        let i = choose|i: int| 0 <= i < all.len() && trim(#[trigger] all[i]) == word;
        if i > 0 {
            assert(trim(rest[i - 1]) == word);
        }
    }
}

impl ValidatorArgs {
    /// Reads the checks to run from a list of their names, written with
    /// commas between them. White space around a name does not count, `all`
    /// stands for every check, and other names say nothing.
    pub fn from_env(args_str: &str) -> (args: ValidatorArgs)
        ensures
            args.exists == (names_check(args_str@, exists_name()) || names_check(
                args_str@,
                all_name(),
            )),
            args.duplicate_patterns == (names_check(args_str@, duplicates_name()) || names_check(
                args_str@,
                all_name(),
            )),
    {
        let chars = chars_of(args_str);
        let exists_word = chars_of("exists");
        let duplicates_word = chars_of("duplicate_patterns");
        let all_word = chars_of("all");
        let mut args = ValidatorArgs { exists: false, duplicate_patterns: false };
        let mut from: usize = 0;
        loop
            invariant
                from <= chars@.len(),
                chars@ == args_str@,
                exists_word@ == exists_name(),
                duplicates_word@ == duplicates_name(),
                all_word@ == all_name(),
                (names_check(chars@, exists_name()) || names_check(chars@, all_name())) == (
                args.exists || any_spells(segments_from(chars@, from as int), exists_name())
                    || any_spells(segments_from(chars@, from as int), all_name())),
                (names_check(chars@, duplicates_name()) || names_check(chars@, all_name())) == (
                args.duplicate_patterns || any_spells(
                    segments_from(chars@, from as int),
                    duplicates_name(),
                ) || any_spells(segments_from(chars@, from as int), all_name())),
            ensures
                args.exists == (names_check(chars@, exists_name()) || names_check(
                    chars@,
                    all_name(),
                )),
                args.duplicate_patterns == (names_check(chars@, duplicates_name()) || names_check(
                    chars@,
                    all_name(),
                )),
            decreases chars@.len() - from,
        {
            let end = scan(&chars, from, Boundary::Comma);
            let (start, stop) = trim_range(&chars, from, end);
            let ghost segment = chars@.subrange(from as int, end as int);
            let ghost rest = if end < chars@.len() {
                segments_from(chars@, end + 1)
            } else {
                Seq::empty()
            };
            proof {
                assert(segments_from(chars@, from as int) =~= seq![segment] + rest);
                lemma_any_spells_cons(segment, rest, exists_name());
                lemma_any_spells_cons(segment, rest, duplicates_name());
                lemma_any_spells_cons(segment, rest, all_name());
            }
            let names_all = range_spells(&chars, start, stop, &all_word);
            if names_all || range_spells(&chars, start, stop, &exists_word) {
                args.exists = true;
            }
            if names_all || range_spells(&chars, start, stop, &duplicates_word) {
                args.duplicate_patterns = true;
            }
            if end < chars.len() {
                from = end + 1;
            } else {
                break;
            }
        }
        args
    }

    /// Whether every check is to be run because none was asked for.
    pub fn should_run_all(&self) -> (all: bool)
        ensures
            all == (!self.exists && !self.duplicate_patterns),
    {
        !self.exists && !self.duplicate_patterns
    }

    /// Whether the existence check is to be run.
    pub fn runs_exists(&self) -> (yes: bool)
        ensures
            yes == runs_existence(*self),
    {
        self.should_run_all() || self.exists
    }

    /// Whether the duplicate check is to be run.
    pub fn runs_duplicates(&self) -> (yes: bool)
        ensures
            yes == runs_duplicate_check(*self),
    {
        self.should_run_all() || self.duplicate_patterns
    }
}

/// Whether the existence check is to be run: it was asked for, or nothing was.
pub open spec fn runs_existence(args: ValidatorArgs) -> bool {
    args.exists || !args.duplicate_patterns
}

/// Whether the duplicate check is to be run: it was asked for, or nothing was.
pub open spec fn runs_duplicate_check(args: ValidatorArgs) -> bool {
    args.duplicate_patterns || !args.exists
}

/// The failures of a run as mathematical text: the name of a check, and a
/// rule that failed it.
pub open spec fn failure_views(failures: Seq<(String, CodeOwnerRule)>) -> Seq<
    (Seq<char>, RuleView),
> {
    failures.map_values(|failure: (String, CodeOwnerRule)| (failure.0@, failure.1@))
}

/// Each of `rules` under the name of the check that it failed.
pub open spec fn labelled(name: Seq<char>, rules: Seq<RuleView>) -> Seq<(Seq<char>, RuleView)> {
    rules.map_values(|rule: RuleView| (name, rule))
}

/// What the existence check reports of `rules` in `tree`: the rules that
/// nothing satisfies, or nothing where the check cannot be carried out.
pub open spec fn existence_failures(rules: Seq<RuleView>, tree: TreeView) -> Seq<RuleView> {
    if can_check(rules) {
        missing_rules(rules, tree)
    } else {
        Seq::empty()
    }
}

/// The failures of a run: those of the existence check where it is run, then
/// those of the duplicate check where it is run.
pub open spec fn failures_of(args: ValidatorArgs, rules: Seq<RuleView>, tree: TreeView) -> Seq<
    (Seq<char>, RuleView),
> {
    let existence = if runs_existence(args) {
        labelled(exists_name(), existence_failures(rules, tree))
    } else {
        Seq::empty()
    };
    let duplicates = if runs_duplicate_check(args) {
        labelled(duplicates_name(), duplicate_rules(rules))
    } else {
        Seq::empty()
    };
    existence + duplicates
}

/// Appends each of `rules` to `failures`, under the name `name`.
fn label_into(failures: &mut Vec<(String, CodeOwnerRule)>, name: &str, rules: Vec<CodeOwnerRule>)
    ensures
        failure_views(final(failures)@) == failure_views(old(failures)@) + labelled(
            name@,
            rule_views(rules@),
        ),
{
    let ghost before = failure_views(failures@);
    let ghost all = rules@;
    assert(failure_views(failures@) =~= before + labelled(name@, rule_views(all.take(0))));
    for rule in it: rules
        invariant
            it.seq() == all,
            failure_views(failures@) == before + labelled(
                name@,
                rule_views(all.take(it.index() as int)),
            ),
    {
        let ghost held = failure_views(failures@);
        failures.push((name.to_string(), rule));
        proof {
            assert(failure_views(failures@) =~= held.push((name@, rule@)));
            assert(rule_views(all.take(it.index() + 1)) =~= rule_views(
                all.take(it.index() as int),
            ).push(rule@));
            assert(failure_views(failures@) =~= before + labelled(
                name@,
                rule_views(all.take(it.index() + 1)),
            ));
        }
    }
    assert(all.take(all.len() as int) =~= all);
}

/// What a run found.
#[derive(Debug)]
pub struct ValidationOutcome {
    /// The rules that failed a check, each under the name of that check.
    pub failures: Vec<(String, CodeOwnerRule)>,
    /// Why the existence check could not be carried out, where it was to be
    /// run and could not.
    pub existence_error: Option<GlobError>,
}

impl ValidationOutcome {
    /// Whether the run is a success: every check that was to be run was
    /// carried out, and no rule failed one.
    pub fn succeeded(&self) -> (yes: bool)
        ensures
            yes == (self.failures@.len() == 0 && self.existence_error.is_none()),
    {
        self.failures.len() == 0 && self.existence_error.is_none()
    }
}

/// Runs the checks that `args` selects on `rules`, against the repository
/// that `repo` describes. Each failure names its check: `exists` or
/// `duplicate_patterns`.
///
/// Where the existence check cannot be carried out, it reports no rule, and
/// the outcome holds the error in place of a verdict.
pub fn run_validator(args: &ValidatorArgs, rules: &[CodeOwnerRule], repo: &RepoTree) -> (outcome:
    ValidationOutcome)
    ensures
        failure_views(outcome.failures@) == failures_of(*args, rule_views(rules@), repo@),
        outcome.existence_error.is_some() == (runs_existence(*args) && !can_check(
            rule_views(rules@),
        )),
{
    let mut failures: Vec<(String, CodeOwnerRule)> = Vec::new();
    let mut existence_error: Option<GlobError> = None;
    let ghost views = rule_views(rules@);
    assert(failure_views(failures@) =~= Seq::empty());
    if args.runs_exists() {
        match validate_directory(repo, rules) {
            Ok(missing) => {
                label_into(&mut failures, "exists", missing);
            },
            Err(error) => {
                existence_error = Some(error);
            },
        }
        assert(failure_views(failures@) =~= labelled(
            exists_name(),
            existence_failures(views, repo@),
        ));
    }
    if args.runs_duplicates() {
        label_into(&mut failures, "duplicate_patterns", validate_duplicates(rules));
    }
    assert(failure_views(failures@) =~= failures_of(*args, views, repo@));
    ValidationOutcome { failures, existence_error }
}

} // verus!
