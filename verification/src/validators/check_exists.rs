//! The outcome of the existence check, rule by rule, for a report, and the
//! form in which a path of the tree is compared.
//!
//! What std's `PathBuf::pop` leaves of a path is taken on trust here: it has
//! a name, and nothing is proved of it.
use crate::parser::{rule_views, CodeOwnerRule, RuleView};
use crate::pattern::GlobError;
use crate::text::chars_of;
use crate::validators::existence::{
    can_check, rule_status, rule_statuses, RepoTree, RuleStatus, TreeView,
};
use vstd::prelude::*;

verus! {

/// What the existence check says of one rule.
#[derive(Debug)]
pub struct ValidationResult {
    /// Whether something in the repository satisfies the rule.
    pub matched: bool,
    /// The owners of the rule.
    pub owners: Vec<String>,
    /// The rule as it was written.
    pub original_path: String,
}

/// A result as mathematical text.
pub struct ResultView {
    pub matched: bool,
    pub owners: Seq<Seq<char>>,
    pub original_path: Seq<char>,
}

impl View for ValidationResult {
    type V = ResultView;

    open spec fn view(&self) -> ResultView {
        ResultView {
            matched: self.matched,
            owners: self.owners.deep_view(),
            original_path: self.original_path@,
        }
    }
}

/// What the existence check says of `rule` in `tree`.
pub open spec fn result_of(rule: RuleView, tree: TreeView) -> ResultView {
    ResultView {
        matched: rule_status(rule, tree) == RuleStatus::Matched,
        owners: rule.owners,
        original_path: rule.original_path,
    }
}

/// Checks every rule against the repository and reports on each, in the
/// order of the rules.
pub fn validate_directory(repo: &RepoTree, rules: &[CodeOwnerRule]) -> (res: Result<
    Vec<ValidationResult>,
    GlobError,
>)
    ensures
        res.is_ok() == can_check(rule_views(rules@)),
        res matches Ok(results) ==> results@.len() == rules@.len() && forall|i: int|
            0 <= i < rules@.len() ==> (#[trigger] results@[i])@ == result_of(rules@[i]@, repo@),
{
    let statuses = match rule_statuses(repo, rules) {
        Ok(statuses) => statuses,
        Err(error) => {
            return Err(error);
        },
    };
    let mut results: Vec<ValidationResult> = Vec::new();
    let mut i: usize = 0;
    while i < rules.len()
        invariant
            i <= rules@.len(),
            statuses@.len() == rules@.len(),
            forall|k: int|
                0 <= k < rules@.len() ==> #[trigger] statuses@[k] == rule_status(rules@[k]@, repo@),
            results@.len() == i,
            forall|k: int| 0 <= k < i ==> (#[trigger] results@[k])@ == result_of(rules@[k]@, repo@),
        decreases rules.len() - i,
    {
        let copy = rules[i].clone();
        results.push(
            ValidationResult {
                matched: statuses[i] == RuleStatus::Matched,
                owners: copy.owners,
                original_path: copy.original_path,
            },
        );
        i += 1;
    }
    Ok(results)
}

/// The text of a path without its last component: what `PathBuf::pop` of std
/// leaves of it, on the platform at hand.
pub uninterp spec fn without_last_component(path: Seq<char>) -> Seq<char>;

/// `PathBuf::pop` of std: truncates the path to its parent, and leaves it as
/// it is where it has none.
#[verifier::external_body]
fn pop_path(path: &str) -> (parent: String)
    ensures
        parent@ == without_last_component(path@),
{
    let mut buffer = std::path::PathBuf::from(path);
    buffer.pop();
    buffer.to_string_lossy().into_owned()
}

/// A path as the walk is to compare it: one that ends with a separator
/// loses its last component, any other path stays as it is.
pub fn normalize_path(path: &str) -> (normalized: String)
    ensures
        normalized@ == (if path@.len() > 0 && path@.last() == '/' {
            without_last_component(path@)
        } else {
            path@
        }),
{
    let chars = chars_of(path);
    if chars.len() > 0 && chars[chars.len() - 1] == '/' {
        pop_path(path)
    } else {
        path.to_string()
    }
}

} // verus!
