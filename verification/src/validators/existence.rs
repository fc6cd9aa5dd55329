//! The existence engine: which rules are satisfied by something in the
//! repository.
//!
//! Anchored rules with a plain path are looked up directly. All other rules
//! are checked by one walk over the tree: each entry is tested against the
//! globs of all of them at once, and the walk may end as soon as every rule
//! is matched.
use crate::fx::{text_set, text_set_contains, text_set_insert, text_set_new};
use crate::globs::{glob_matches, set_builds};
use crate::parser::{rule_views, validate_pattern, CodeOwnerRule, RuleView};
use crate::pattern::{
    any_depth_prefix, contains_wildcard, has_wildcard, is_anchored, is_below_root, is_directory,
    starts_with_separator, stays_below_root, subtree_suffix, GlobError,
};
use crate::text::{
    among_first, chars_of, find_component, has_inner_component, holds_first, lemma_holds_one_more,
};
use crate::validators::matcher::{
    all_compile, compiled_globs, compiled_owners, has_slot, is_slot_of, lemma_compiled_index,
    ref_views, rule_compiles, rule_globs, rule_matches, RuleMatcher,
};
use crate::validators::tracker::{lemma_unmatched_zero, unmatched_count, MatchTracker};
use rustc_hash::FxHashSet;
use vstd::prelude::*;

verus! {

/// One entry of the repository, as a walk of the tree delivers it.
#[derive(Debug)]
pub struct WalkEntry {
    /// The path of the entry below the root of the repository, or `None`
    /// where the entry does not lie below that root.
    pub relative_path: Option<String>,
    /// The last component of the entry's path, where it has one.
    pub file_name: Option<String>,
    /// Whether the entry is a directory.
    pub is_dir: bool,
}

/// An entry as mathematical text.
pub struct EntryView {
    pub relative_path: Option<Seq<char>>,
    pub file_name: Option<Seq<char>>,
    pub is_dir: bool,
}

impl View for WalkEntry {
    type V = EntryView;

    open spec fn view(&self) -> EntryView {
        EntryView {
            relative_path: match self.relative_path {
                Some(path) => Some(path@),
                None => None,
            },
            file_name: match self.file_name {
                Some(name) => Some(name@),
                None => None,
            },
            is_dir: self.is_dir,
        }
    }
}

/// The views of `entries`, in order.
pub open spec fn entry_views(entries: Seq<WalkEntry>) -> Seq<EntryView> {
    entries.map_values(|entry: WalkEntry| entry@)
}

/// What the walk does after an entry.
#[derive(Clone, Copy, Debug, PartialEq, Eq, Structural)]
pub enum WalkAction {
    /// Go on, into the entry where it is a directory.
    Continue,
    /// Go on, but not into this directory.
    Skip,
    /// Stop the walk.
    Quit,
}

/// `.git`
pub open spec fn git_dir_name() -> Seq<char> {
    seq!['.', 'g', 'i', 't']
}

/// Whether an entry is a directory of version-control metadata.
pub open spec fn is_git_dir(entry: EntryView) -> bool {
    entry.is_dir && entry.file_name == Some(git_dir_name())
}

/// Whether an entry belongs to the version-control metadata: it is such a
/// directory, or its path leads through one.
pub open spec fn is_metadata(entry: EntryView) -> bool {
    is_git_dir(entry) || (entry.relative_path matches Some(path) && has_inner_component(
        path,
        git_dir_name(),
    ))
}

/// Whether `entry` satisfies `rule`: it is no metadata, lies below the root,
/// and its path there satisfies the rule.
pub open spec fn entry_matches(rule: RuleView, entry: EntryView) -> bool {
    &&& !is_metadata(entry)
    &&& entry.relative_path matches Some(path) && rule_matches(rule, path)
}

/// Whether one of `entries` satisfies `rule`.
pub open spec fn found_in(rule: RuleView, entries: Seq<EntryView>) -> bool {
    exists|k: int| 0 <= k < entries.len() && #[trigger] entry_matches(rule, entries[k])
}

/// What the walk does after `entry`, where `flags` says which rules were
/// matched before it: the metadata is not entered, and the walk ends once no
/// rule is unmatched.
pub open spec fn next_action(entry: EntryView, flags: Seq<bool>) -> WalkAction {
    if is_metadata(entry) {
        WalkAction::Skip
    } else if unmatched_count(flags) == 0 {
        WalkAction::Quit
    } else {
        WalkAction::Continue
    }
}

/// Tests a file name for `.git`.
fn is_git_name(name: &str) -> (yes: bool)
    ensures
        yes == (name@ == git_dir_name()),
{
    if name.unicode_len() != 4 {
        return false;
    }
    let yes = name.get_char(0) == '.' && name.get_char(1) == 'g' && name.get_char(2) == 'i'
        && name.get_char(3) == 't';
    assert(yes == (name@ =~= git_dir_name()));
    yes
}

/// Tests an entry for version-control metadata.
pub fn skips_entry(entry: &WalkEntry) -> (yes: bool)
    ensures
        yes == is_metadata(entry@),
{
    let is_git_dir = entry.is_dir && match &entry.file_name {
        Some(name) => is_git_name(name.as_str()),
        None => false,
    };
    is_git_dir || match &entry.relative_path {
        Some(path) => {
            let git = chars_of(".git");
            proof {
                reveal_strlit(".git");
                assert(git@ =~= git_dir_name());
            }
            find_component(&chars_of(path.as_str()), &git, true)
        },
        None => false,
    }
}

/// Takes one entry of the walk: records a match for every rule that the
/// entry satisfies, and says how the walk goes on.
///
/// An entry is tested only where the walk continues after it.
pub fn visit_entry(matcher: &RuleMatcher, tracker: &mut MatchTracker, entry: &WalkEntry) -> (action:
    WalkAction)
    requires
        old(tracker).wf(),
        old(tracker)@.len() == matcher.rules().len(),
    ensures
        final(tracker).wf(),
        final(tracker)@.len() == old(tracker)@.len(),
        action == next_action(entry@, old(tracker)@),
        forall|r: int|
            0 <= r < matcher.rules().len() ==> #[trigger] final(tracker)@[r] == (old(tracker)@[r] || (
            action == WalkAction::Continue && entry_matches(matcher.rules()[r], entry@))),
{
    if skips_entry(entry) {
        return WalkAction::Skip;
    }
    if tracker.is_complete() {
        return WalkAction::Quit;
    }
    match &entry.relative_path {
        Some(path) => {
            let matched = matcher.matched_rules(path.as_str());
            let count = matcher.rule_count();
            let ghost rules = matcher.rules();
            let ghost before = tracker@;
            let mut i: usize = 0;
            while i < matched.len()
                invariant
                    i <= matched@.len(),
                    tracker.wf(),
                    tracker@.len() == before.len(),
                    before.len() == rules.len(),
                    forall|t: int| 0 <= t < matched@.len() ==> matched@[t] < rules.len(),
                    forall|r: int|
                        0 <= r < rules.len() ==> #[trigger] tracker@[r] == (before[r] || exists|
                            t: int,
                        | 0 <= t < i && matched@[t] == r),
                decreases matched.len() - i,
            {
                let ghost earlier = tracker@;
                tracker.record(matched[i]);
                proof {
                    assert forall|r: int| 0 <= r < rules.len() implies #[trigger] tracker@[r] == (
                    before[r] || exists|t: int| 0 <= t < i + 1 && matched@[t] == r) by {
                        if r == matched@[i as int] {
                            assert(0 <= i < i + 1 && matched@[i as int] == r);
                        } else {
                            assert(tracker@[r] == earlier[r]);
                            if exists|t: int| 0 <= t < i + 1 && matched@[t] == r {
                                let t = choose|t: int| 0 <= t < i + 1 && matched@[t] == r;
                                assert(0 <= t < i && matched@[t] == r);
                            }
                        }
                    }
                }
                i += 1;
            }
            proof {
                assert(rules.len() == count);
                assert forall|r: int| 0 <= r < rules.len() implies #[trigger] tracker@[r] == (
                before[r] || entry_matches(rules[r], entry@)) by {
                    assert(matched@.contains(r as usize) <==> rule_matches(rules[r], path@));
                    if exists|t: int| 0 <= t < matched@.len() && matched@[t] == r {
                        let t = choose|t: int| 0 <= t < matched@.len() && matched@[t] == r;
                        assert(matched@[t] == r as usize);
                    }
                    if matched@.contains(r as usize) {
                        let t = choose|t: int| 0 <= t < matched@.len() && matched@[t] == r as usize;
                        assert(0 <= t < matched@.len() && matched@[t] == r);
                    }
                }
            }
        },
        None => {},
    }
    WalkAction::Continue
}

/// Adding an entry adds its matches to those of the entries before it.
pub proof fn lemma_found_in_push(rule: RuleView, entries: Seq<EntryView>, entry: EntryView)
    ensures
        found_in(rule, entries.push(entry)) == (found_in(rule, entries) || entry_matches(rule, entry)),
{
    let longer = entries.push(entry);
    if found_in(rule, entries) {
        let k = choose|k: int| 0 <= k < entries.len() && #[trigger] entry_matches(rule, entries[k]);
        assert(entry_matches(rule, longer[k]));
    }
    if entry_matches(rule, entry) {
        assert(entry_matches(rule, longer[entries.len() as int]));
    }
    if found_in(rule, longer) {
        let k = choose|k: int| 0 <= k < longer.len() && #[trigger] entry_matches(rule, longer[k]);
        if k < entries.len() {
            assert(entry_matches(rule, entries[k]));
        }
    }
}

/// What is found in the first entries is found in all of them.
pub proof fn lemma_found_in_prefix(rule: RuleView, entries: Seq<EntryView>, len: int)
    requires
        0 <= len <= entries.len(),
        found_in(rule, entries.take(len)),
    ensures
        found_in(rule, entries),
{
    let k = choose|k: int| 0 <= k < len && #[trigger] entry_matches(rule, entries.take(len)[k]);
    assert(entry_matches(rule, entries[k]));
}

/// Takes the entries of a walk in the order given, until the walk ends or
/// every rule is matched.
///
/// The rules matched afterwards are those matched before and those that one
/// of the entries satisfies: ending the walk early changes nothing.
pub fn walk_entries(matcher: &RuleMatcher, tracker: &mut MatchTracker, entries: &[WalkEntry])
    requires
        old(tracker).wf(),
        old(tracker)@.len() == matcher.rules().len(),
    ensures
        final(tracker).wf(),
        final(tracker)@.len() == old(tracker)@.len(),
        forall|r: int|
            0 <= r < matcher.rules().len() ==> #[trigger] final(tracker)@[r] == (old(tracker)@[r]
                || found_in(matcher.rules()[r], entry_views(entries@))),
{
    let ghost rules = matcher.rules();
    let ghost before = tracker@;
    let ghost views = entry_views(entries@);
    let mut i: usize = 0;
    let mut done = false;
    assert(views.take(0) =~= Seq::empty());
    while i < entries.len() && !done
        invariant
            i <= entries@.len(),
            views == entry_views(entries@),
            tracker.wf(),
            tracker@.len() == before.len(),
            before.len() == rules.len(),
            rules == matcher.rules(),
            done ==> unmatched_count(tracker@) == 0,
            forall|r: int|
                0 <= r < rules.len() ==> #[trigger] tracker@[r] == (before[r] || found_in(
                    rules[r],
                    views.take(i as int),
                )),
        decreases entries.len() - i,
    {
        let ghost earlier = tracker@;
        let action = visit_entry(matcher, tracker, &entries[i]);
        proof {
            assert(views.take(i + 1) =~= views.take(i as int).push(views[i as int]));
            assert forall|r: int| 0 <= r < rules.len() implies #[trigger] tracker@[r] == (before[r]
                || found_in(rules[r], views.take(i + 1))) by {
                lemma_found_in_push(rules[r], views.take(i as int), views[i as int]);
                if action != WalkAction::Continue && entry_matches(rules[r], views[i as int]) {
                    lemma_unmatched_zero(earlier);
                }
            }
        }
        match action {
            WalkAction::Quit => {
                assert(tracker@ =~= earlier);
                done = true;
            },
            _ => {},
        }
        i += 1;
    }
    proof {
        assert forall|r: int| 0 <= r < rules.len() implies #[trigger] tracker@[r] == (before[r]
            || found_in(rules[r], views)) by {
            if i < entries@.len() {
                lemma_unmatched_zero(tracker@);
                if found_in(rules[r], views.take(i as int)) {
                    lemma_found_in_prefix(rules[r], views, i as int);
                }
            } else {
                assert(views.take(i as int) =~= views);
            }
        }
    }
}

/// What is known of a repository: the answers to direct lookups, and the
/// entries that a walk of its tree delivered.
#[derive(Debug)]
pub struct RepoTree {
    /// The paths, relative to the root, at which something exists.
    pub existing: Vec<String>,
    /// The entries of the tree, in the order in which the walk delivered them.
    pub entries: Vec<WalkEntry>,
}

/// A repository as mathematical text.
pub struct TreeView {
    pub existing: Seq<Seq<char>>,
    pub entries: Seq<EntryView>,
}

impl View for RepoTree {
    type V = TreeView;

    open spec fn view(&self) -> TreeView {
        TreeView { existing: self.existing.deep_view(), entries: entry_views(self.entries@) }
    }
}

/// What the existence check found of one rule.
#[derive(Clone, Copy, Debug, PartialEq, Eq, Structural)]
pub enum RuleStatus {
    /// Something in the repository satisfies the rule.
    Matched,
    /// Nothing in the repository satisfies the rule.
    Missing,
    /// A glob of the rule is malformed, so the rule could not be checked.
    Uncompilable,
}

/// Whether a rule is checked by direct lookup: it is anchored, and its pattern
/// is a plain path.
pub open spec fn is_direct(rule: RuleView) -> bool {
    is_anchored(rule.original_path) && !has_wildcard(rule.pattern)
}

/// What the existence check finds of `rule` in `tree`.
pub open spec fn rule_status(rule: RuleView, tree: TreeView) -> RuleStatus {
    if is_direct(rule) {
        if stays_below_root(rule.pattern) && tree.existing.contains(rule.pattern) {
            RuleStatus::Matched
        } else {
            RuleStatus::Missing
        }
    } else if !rule_compiles(rule) {
        RuleStatus::Uncompilable
    } else if found_in(rule, tree.entries) {
        RuleStatus::Matched
    } else {
        RuleStatus::Missing
    }
}

/// The rules that are checked by walking the tree, in order.
pub open spec fn walked_rules(rules: Seq<RuleView>) -> Seq<RuleView>
    decreases rules.len(),
{
    if rules.len() == 0 {
        Seq::empty()
    } else if is_direct(rules.last()) {
        walked_rules(rules.drop_last())
    } else {
        walked_rules(rules.drop_last()).push(rules.last())
    }
}

/// Whether the existence check of `rules` can be carried out: no rule needs
/// the walk, or the combined matcher of those that do can be built.
pub open spec fn can_check(rules: Seq<RuleView>) -> bool {
    walked_rules(rules).len() == 0 || set_builds(compiled_globs(walked_rules(rules)))
}

/// As many of the first rules are walked, at least as many of all are.
pub proof fn lemma_walked_rules_grow(rules: Seq<RuleView>, len: int)
    requires
        0 <= len <= rules.len(),
    ensures
        walked_rules(rules.take(len)).len() <= walked_rules(rules).len(),
    decreases rules.len(),
{
    if len == rules.len() {
        assert(rules.take(len) =~= rules);
    } else {
        lemma_walked_rules_grow(rules.drop_last(), len);
        assert(rules.drop_last().take(len) =~= rules.take(len));
    }
}

/// The rules that take part in the walk, in order: those that are not looked
/// up directly and whose globs compile.
pub open spec fn checked_rules(rules: Seq<RuleView>) -> Seq<RuleView>
    decreases rules.len(),
{
    if rules.len() == 0 {
        Seq::empty()
    } else if is_direct(rules.last()) || !rule_compiles(rules.last()) {
        checked_rules(rules.drop_last())
    } else {
        checked_rules(rules.drop_last()).push(rules.last())
    }
}

/// The rules that take part in the walk all compile, and their globs are the
/// globs of the walked rules that compile.
pub proof fn lemma_checked_rules(rules: Seq<RuleView>)
    ensures
        all_compile(checked_rules(rules)),
        checked_rules(rules).len() <= walked_rules(rules).len(),
        compiled_globs(checked_rules(rules)) == compiled_globs(walked_rules(rules)),
    decreases rules.len(),
{
    if rules.len() > 0 {
        let front = rules.drop_last();
        let last = rules.last();
        lemma_checked_rules(front);
        if !is_direct(last) {
            assert(walked_rules(rules).drop_last() =~= walked_rules(front));
            if rule_compiles(last) {
                let checked = checked_rules(rules);
                assert(checked.drop_last() =~= checked_rules(front));
                assert forall|r: int| 0 <= r < checked.len() implies rule_compiles(
                    #[trigger] checked[r],
                ) by {
                    if r < checked.len() - 1 {
                        assert(checked[r] == checked_rules(front)[r]);
                    }
                }
            }
        }
    }
}

/// The rules of the walk among the first `len` rules are the first of all
/// rules of the walk.
pub proof fn lemma_checked_prefix(rules: Seq<RuleView>, len: int)
    requires
        0 <= len <= rules.len(),
    ensures
        checked_rules(rules.take(len)).len() <= checked_rules(rules).len(),
        checked_rules(rules.take(len)) == checked_rules(rules).take(
            checked_rules(rules.take(len)).len() as int,
        ),
    decreases rules.len(),
{
    if len == rules.len() {
        assert(rules.take(len) =~= rules);
        assert(checked_rules(rules).take(checked_rules(rules).len() as int) =~= checked_rules(rules));
    } else {
        let front = rules.drop_last();
        lemma_checked_prefix(front, len);
        assert(front.take(len) =~= rules.take(len));
        let part = checked_rules(rules.take(len));
        assert(checked_rules(rules).take(part.len() as int) =~= checked_rules(front).take(
            part.len() as int,
        ));
    }
}

/// Tests whether any rule has to be checked by a walk.
pub fn needs_walk(rules: &[CodeOwnerRule]) -> (yes: bool)
    ensures
        yes == (walked_rules(rule_views(rules@)).len() > 0),
{
    let ghost views = rule_views(rules@);
    let mut i: usize = 0;
    assert(views.take(0) =~= Seq::empty());
    while i < rules.len()
        invariant
            i <= rules@.len(),
            views == rule_views(rules@),
            walked_rules(views.take(i as int)).len() == 0,
        decreases rules.len() - i,
    {
        proof {
            assert(views.take(i + 1).drop_last() =~= views.take(i as int));
            assert(views.take(i + 1).last() == rules@[i as int]@);
        }
        if !is_direct_rule(&rules[i]) {
            proof {
                lemma_walked_rules_grow(views, i + 1);
            }
            return true;
        }
        i += 1;
    }
    assert(views.take(i as int) =~= views);
    false
}

/// Tests a rule for the direct lookup.
pub fn is_direct_rule(rule: &CodeOwnerRule) -> (yes: bool)
    ensures
        yes == is_direct(rule@),
{
    let pattern = chars_of(rule.pattern.as_str());
    let original = chars_of(rule.original_path.as_str());
    starts_with_separator(&original) && !contains_wildcard(&pattern)
}

/// The set of the paths in `paths`.
fn path_set<'a>(paths: &'a Vec<String>) -> (set: FxHashSet<&'a str>)
    ensures
        forall|text: Seq<char>| text_set(set).contains(text) <==> paths.deep_view().contains(text),
{
    let ghost texts = paths.deep_view();
    let mut set = text_set_new();
    let mut i: usize = 0;
    while i < paths.len()
        invariant
            i <= paths@.len(),
            texts == paths.deep_view(),
            holds_first(text_set(set), texts, i as int),
        decreases paths.len() - i,
    {
        proof {
            assert(texts[i as int] == paths@[i as int]@);
            lemma_holds_one_more(text_set(set), texts, i as int);
        }
        let _ = text_set_insert(&mut set, paths[i].as_str());
        i += 1;
    }
    proof {
        assert forall|text: Seq<char>| text_set(set).contains(text) <==> texts.contains(text) by {
            if among_first(texts, i as int, text) {
                let k = choose|k: int| 0 <= k < i && #[trigger] texts[k] == text;
                assert(texts[k] == text);
            }
            if texts.contains(text) {
                let k = choose|k: int| 0 <= k < texts.len() && texts[k] == text;
                assert(0 <= k < i && texts[k] == text);
            }
        }
    }
    set
}

/// Picks the rules that take part in the walk. Beside them it says, for each
/// rule that is not looked up directly, whether it compiles, and whether
/// there is such a rule at all.
pub(crate) fn select_checked<'a>(rules: &'a [CodeOwnerRule]) -> (picked: (
    Vec<&'a CodeOwnerRule>,
    Vec<bool>,
    bool,
))
    ensures
        ref_views(picked.0@) == checked_rules(rule_views(rules@)),
        picked.1@.len() == rules@.len(),
        forall|k: int|
            0 <= k < rules@.len() && !is_direct(rules@[k]@) ==> #[trigger] picked.1@[k]
                == rule_compiles(rules@[k]@),
        picked.2 == (walked_rules(rule_views(rules@)).len() > 0),
{
    let ghost views = rule_views(rules@);
    let mut checked: Vec<&CodeOwnerRule> = Vec::new();
    let mut compiles: Vec<bool> = Vec::new();
    let mut any_walked = false;
    let mut i: usize = 0;
    assert(views.take(0) =~= Seq::empty());
    while i < rules.len()
        invariant
            i <= rules@.len(),
            views == rule_views(rules@),
            compiles@.len() == i,
            ref_views(checked@) == checked_rules(views.take(i as int)),
            any_walked == (walked_rules(views.take(i as int)).len() > 0),
            forall|k: int|
                0 <= k < i && !is_direct(views[k]) ==> #[trigger] compiles@[k] == rule_compiles(
                    views[k],
                ),
        decreases rules.len() - i,
    {
        proof {
            assert(views.take(i + 1).drop_last() =~= views.take(i as int));
            assert(views.take(i + 1).last() == rules@[i as int]@);
        }
        let rule = &rules[i];
        let walked = !is_direct_rule(rule);
        let compiled = walked && validate_pattern(
            rule.pattern.as_str(),
            rule.original_path.as_str(),
        ).is_ok();
        if walked {
            any_walked = true;
        }
        if compiled {
            checked.push(rule);
            assert(ref_views(checked@) =~= checked_rules(views.take(i + 1)));
        }
        compiles.push(compiled);
        i += 1;
    }
    assert(views.take(i as int) =~= views);
    (checked, compiles, any_walked)
}

/// Checks every rule against the repository: the anchored plain paths by
/// direct lookup, the others by one walk over the entries, each entry tested
/// against all of them at once.
///
/// The statuses come in the order of the rules. A rule with a malformed glob
/// is reported as such and takes no part in the walk, so it does not keep the
/// others from being checked.
pub fn rule_statuses(repo: &RepoTree, rules: &[CodeOwnerRule]) -> (res: Result<
    Vec<RuleStatus>,
    GlobError,
>)
    ensures
        res.is_ok() == can_check(rule_views(rules@)),
        res matches Ok(statuses) ==> statuses@.len() == rules@.len() && forall|i: int|
            0 <= i < rules@.len() ==> #[trigger] statuses@[i] == rule_status(rules@[i]@, repo@),
{
    let ghost views = rule_views(rules@);
    let (checked, compiles, any_walked) = select_checked(rules);
    let ghost checked_views = checked_rules(views);
    let total = checked.len();
    proof {
        lemma_checked_rules(views);
        assert(checked_views.len() == total);
    }
    let engine: Option<(RuleMatcher, MatchTracker)> = if !any_walked {
        None
    } else {
        match RuleMatcher::build(checked.as_slice()) {
            Ok(matcher) => {
                let mut tracker = MatchTracker::new(checked.len());
                walk_entries(&matcher, &mut tracker, repo.entries.as_slice());
                Some((matcher, tracker))
            },
            Err(error) => {
                return Err(error);
            },
        }
    };
    let existing = path_set(&repo.existing);
    let mut statuses: Vec<RuleStatus> = Vec::new();
    let mut w: usize = 0;
    let mut i: usize = 0;
    assert(views.take(0) =~= Seq::empty());
    while i < rules.len()
        invariant
            i <= rules@.len(),
            views == rule_views(rules@),
            checked_views == checked_rules(views),
            checked_views.len() == total,
            compiles@.len() == rules@.len(),
            forall|k: int|
                0 <= k < rules@.len() && !is_direct(rules@[k]@) ==> #[trigger] compiles@[k]
                    == rule_compiles(rules@[k]@),
            w == checked_rules(views.take(i as int)).len(),
            statuses@.len() == i,
            forall|text: Seq<char>|
                text_set(existing).contains(text) <==> repo.existing.deep_view().contains(text),
            checked_views.len() > 0 ==> engine.is_some(),
            engine matches Some((_, tracker)) ==> {
                &&& tracker@.len() == checked_views.len()
                &&& forall|r: int|
                    0 <= r < checked_views.len() ==> #[trigger] tracker@[r] == found_in(
                        checked_views[r],
                        entry_views(repo.entries@),
                    )
            },
            forall|k: int| 0 <= k < i ==> #[trigger] statuses@[k] == rule_status(rules@[k]@, repo@),
        decreases rules.len() - i,
    {
        proof {
            assert(views.take(i + 1).drop_last() =~= views.take(i as int));
            assert(views.take(i + 1).last() == rules@[i as int]@);
            assert(views[i as int] == rules@[i as int]@);
            lemma_checked_prefix(views, i + 1);
        }
        let rule = &rules[i];
        let status = if is_direct_rule(rule) {
            if is_below_root(rule.pattern.as_str()) && text_set_contains(
                &existing,
                rule.pattern.as_str(),
            ) {
                RuleStatus::Matched
            } else {
                RuleStatus::Missing
            }
        } else if !compiles[i] {
            RuleStatus::Uncompilable
        } else {
            proof {
                let part = checked_rules(views.take(i + 1));
                assert(part == checked_rules(views.take(i as int)).push(rule@));
                assert(part[w as int] == rule@);
                assert(checked_views.take(part.len() as int)[w as int] == checked_views[w as int]);
            }
            match &engine {
                Some((_, tracker)) => {
                    let matched = tracker.is_matched(w);
                    w += 1;
                    if matched {
                        RuleStatus::Matched
                    } else {
                        RuleStatus::Missing
                    }
                },
                None => RuleStatus::Missing,
            }
        };
        statuses.push(status);
        i += 1;
    }
    Ok(statuses)
}

/// The rules among `rules` that are not matched in `tree`, in order: those
/// checked by direct lookup where `direct` is set, the others where it is not.
pub open spec fn failing(rules: Seq<RuleView>, tree: TreeView, direct: bool) -> Seq<RuleView>
    decreases rules.len(),
{
    if rules.len() == 0 {
        Seq::empty()
    } else if is_direct(rules.last()) == direct && rule_status(rules.last(), tree)
        != RuleStatus::Matched {
        failing(rules.drop_last(), tree, direct).push(rules.last())
    } else {
        failing(rules.drop_last(), tree, direct)
    }
}

/// The rules that the existence check reports: first the unmatched among the
/// rules checked by direct lookup, then the unmatched among the others.
pub open spec fn missing_rules(rules: Seq<RuleView>, tree: TreeView) -> Seq<RuleView> {
    failing(rules, tree, true) + failing(rules, tree, false)
}

/// The rules that nothing in the repository satisfies.
///
/// A rule that could not be checked is among them: it was not matched.
pub fn validate_directory(repo: &RepoTree, rules: &[CodeOwnerRule]) -> (res: Result<
    Vec<CodeOwnerRule>,
    GlobError,
>)
    ensures
        res.is_ok() == can_check(rule_views(rules@)),
        res matches Ok(missing) ==> rule_views(missing@) == missing_rules(rule_views(rules@), repo@),
{
    let ghost views = rule_views(rules@);
    let statuses = match rule_statuses(repo, rules) {
        Ok(statuses) => statuses,
        Err(error) => {
            return Err(error);
        },
    };
    let mut missing: Vec<CodeOwnerRule> = Vec::new();
    let mut i: usize = 0;
    assert(views.take(0) =~= Seq::empty());
    while i < rules.len()
        invariant
            i <= rules@.len(),
            views == rule_views(rules@),
            statuses@.len() == rules@.len(),
            forall|k: int|
                0 <= k < rules@.len() ==> #[trigger] statuses@[k] == rule_status(rules@[k]@, repo@),
            rule_views(missing@) == failing(views.take(i as int), repo@, true),
        decreases rules.len() - i,
    {
        proof {
            assert(views.take(i + 1).drop_last() =~= views.take(i as int));
            assert(views.take(i + 1).last() == rules@[i as int]@);
        }
        if is_direct_rule(&rules[i]) && statuses[i] != RuleStatus::Matched {
            missing.push(rules[i].clone());
            assert(rule_views(missing@) =~= failing(views.take(i + 1), repo@, true));
        }
        i += 1;
    }
    assert(views.take(i as int) =~= views);
    let ghost direct_missing = rule_views(missing@);
    i = 0;
    assert(rule_views(missing@) =~= direct_missing + failing(views.take(0), repo@, false));
    while i < rules.len()
        invariant
            i <= rules@.len(),
            views == rule_views(rules@),
            statuses@.len() == rules@.len(),
            forall|k: int|
                0 <= k < rules@.len() ==> #[trigger] statuses@[k] == rule_status(rules@[k]@, repo@),
            direct_missing == failing(views, repo@, true),
            rule_views(missing@) == direct_missing + failing(views.take(i as int), repo@, false),
        decreases rules.len() - i,
    {
        proof {
            assert(views.take(i + 1).drop_last() =~= views.take(i as int));
            assert(views.take(i + 1).last() == rules@[i as int]@);
        }
        if !is_direct_rule(&rules[i]) && statuses[i] != RuleStatus::Matched {
            let ghost held = rule_views(missing@);
            missing.push(rules[i].clone());
            proof {
                let grown = failing(views.take(i + 1), repo@, false);
                assert(grown == failing(views.take(i as int), repo@, false).push(rules@[i as int]@));
                assert(rule_views(missing@) =~= held.push(rules@[i as int]@));
                assert(rule_views(missing@) =~= direct_missing + grown);
            }
        }
        i += 1;
    }
    assert(views.take(i as int) =~= views);
    Ok(missing)
}

/// Whether two descriptions of a repository hold the same facts, in whatever
/// order: the same lookup answers, and the same entries as often.
pub open spec fn same_facts(a: TreeView, b: TreeView) -> bool {
    &&& a.existing.to_multiset() == b.existing.to_multiset()
    &&& a.entries.to_multiset() == b.entries.to_multiset()
}

/// The status of a rule does not depend on the order in which the entries
/// were delivered: however the workers of a walk interleave, each rule ends
/// matched or unmatched as in any other run over the same entries.
pub proof fn lemma_status_ignores_order(rule: RuleView, a: TreeView, b: TreeView)
    requires
        same_facts(a, b),
    ensures
        rule_status(rule, a) == rule_status(rule, b),
{
    a.existing.to_multiset_ensures();
    b.existing.to_multiset_ensures();
    a.entries.to_multiset_ensures();
    b.entries.to_multiset_ensures();
    assert(a.existing.contains(rule.pattern) <==> a.existing.to_multiset().count(rule.pattern) > 0);
    assert(b.existing.contains(rule.pattern) <==> b.existing.to_multiset().count(rule.pattern) > 0);
    if found_in(rule, a.entries) {
        let k = choose|k: int| 0 <= k < a.entries.len() && #[trigger] entry_matches(rule, a.entries[k]);
        let entry = a.entries[k];
        assert(a.entries.contains(entry));
        assert(a.entries.to_multiset().count(entry) > 0);
        assert(b.entries.to_multiset().count(entry) > 0);
        assert(b.entries.contains(entry));
        let m = choose|m: int| 0 <= m < b.entries.len() && b.entries[m] == entry;
        assert(entry_matches(rule, b.entries[m]));
    }
    if found_in(rule, b.entries) {
        let k = choose|k: int| 0 <= k < b.entries.len() && #[trigger] entry_matches(rule, b.entries[k]);
        let entry = b.entries[k];
        assert(b.entries.contains(entry));
        assert(b.entries.to_multiset().count(entry) > 0);
        assert(a.entries.to_multiset().count(entry) > 0);
        assert(a.entries.contains(entry));
        let m = choose|m: int| 0 <= m < a.entries.len() && a.entries[m] == entry;
        assert(entry_matches(rule, a.entries[m]));
    }
}

/// The rules reported as missing do not depend on the order in which the
/// entries were delivered.
pub proof fn lemma_missing_ignores_order(rules: Seq<RuleView>, a: TreeView, b: TreeView)
    requires
        same_facts(a, b),
    ensures
        missing_rules(rules, a) == missing_rules(rules, b),
{
    lemma_failing_ignores_order(rules, a, b, true);
    lemma_failing_ignores_order(rules, a, b, false);
}

proof fn lemma_failing_ignores_order(rules: Seq<RuleView>, a: TreeView, b: TreeView, direct: bool)
    requires
        same_facts(a, b),
    ensures
        failing(rules, a, direct) == failing(rules, b, direct),
    decreases rules.len(),
{
    if rules.len() > 0 {
        lemma_failing_ignores_order(rules.drop_last(), a, b, direct);
        lemma_status_ignores_order(rules.last(), a, b);
    }
}

/// An anchored rule whose pattern holds no wildcard is matched exactly where
/// its pattern, taken as a path from the root, stays below the root and
/// something exists there. Nothing that the walk delivers counts for it,
/// whatever its name and wherever it lies.
pub proof fn lemma_direct_rule_status(rule: RuleView, tree: TreeView)
    requires
        is_anchored(rule.original_path),
        !has_wildcard(rule.pattern),
    ensures
        rule_status(rule, tree) == RuleStatus::Matched <==> stays_below_root(rule.pattern)
            && tree.existing.contains(rule.pattern),
        rule_status(rule, tree) != RuleStatus::Uncompilable,
{
}

/// An anchored rule whose pattern holds no wildcard is reported as missing
/// where nothing exists at its pattern: entries of the same name elsewhere in
/// the tree, or outside the repository, do not count for it.
pub proof fn lemma_anchored_rule_counts_at_its_place_only(
    rules: Seq<RuleView>,
    tree: TreeView,
    at: int,
)
    requires
        0 <= at < rules.len(),
        is_anchored(rules[at].original_path),
        !has_wildcard(rules[at].pattern),
        !tree.existing.contains(rules[at].pattern),
    ensures
        missing_rules(rules, tree).contains(rules[at]),
{
    lemma_direct_rule_status(rules[at], tree);
    lemma_unmatched_rule_is_reported(rules, tree, at);
}

/// A rule that is not matched is reported as missing.
pub proof fn lemma_unmatched_rule_is_reported(rules: Seq<RuleView>, tree: TreeView, at: int)
    requires
        0 <= at < rules.len(),
        rule_status(rules[at], tree) != RuleStatus::Matched,
    ensures
        missing_rules(rules, tree).contains(rules[at]),
{
    let direct = is_direct(rules[at]);
    lemma_failing_holds(rules, tree, direct, at);
    let part = failing(rules, tree, direct);
    let k = choose|k: int| 0 <= k < part.len() && part[k] == rules[at];
    if direct {
        assert(missing_rules(rules, tree)[k] == rules[at]);
    } else {
        assert(missing_rules(rules, tree)[failing(rules, tree, true).len() + k] == rules[at]);
    }
}

/// Every rule that is reported as missing is a rule of the list that is not
/// matched.
pub proof fn lemma_reported_rule_is_unmatched(rules: Seq<RuleView>, tree: TreeView, at: int)
    requires
        0 <= at < missing_rules(rules, tree).len(),
    ensures
        exists|i: int|
            0 <= i < rules.len() && #[trigger] rules[i] == missing_rules(rules, tree)[at]
                && rule_status(rules[i], tree) != RuleStatus::Matched,
{
    let direct_part = failing(rules, tree, true);
    if at < direct_part.len() {
        lemma_failing_is_unmatched(rules, tree, true, at);
    } else {
        lemma_failing_is_unmatched(rules, tree, false, at - direct_part.len());
    }
}

proof fn lemma_failing_holds(rules: Seq<RuleView>, tree: TreeView, direct: bool, at: int)
    requires
        0 <= at < rules.len(),
        is_direct(rules[at]) == direct,
        rule_status(rules[at], tree) != RuleStatus::Matched,
    ensures
        failing(rules, tree, direct).contains(rules[at]),
    decreases rules.len(),
{
    let part = failing(rules, tree, direct);
    if at == rules.len() - 1 {
        assert(part[part.len() - 1] == rules[at]);
    } else {
        let front = rules.drop_last();
        lemma_failing_holds(front, tree, direct, at);
        let k = choose|k: int|
            0 <= k < failing(front, tree, direct).len() && failing(front, tree, direct)[k]
                == front[at];
        assert(part[k] == rules[at]);
    }
}

proof fn lemma_failing_is_unmatched(rules: Seq<RuleView>, tree: TreeView, direct: bool, at: int)
    requires
        0 <= at < failing(rules, tree, direct).len(),
    ensures
        exists|i: int|
            0 <= i < rules.len() && #[trigger] rules[i] == failing(rules, tree, direct)[at]
                && rule_status(rules[i], tree) != RuleStatus::Matched,
    decreases rules.len(),
{
    let front = rules.drop_last();
    let part = failing(front, tree, direct);
    if at < part.len() {
        lemma_failing_is_unmatched(front, tree, direct, at);
        let i = choose|i: int|
            0 <= i < front.len() && #[trigger] front[i] == part[at] && rule_status(front[i], tree)
                != RuleStatus::Matched;
        assert(rules[i] == failing(rules, tree, direct)[at]);
    } else {
        assert(rules[rules.len() - 1] == failing(rules, tree, direct)[at]);
    }
}

/// A rule that is checked by the walk is matched exactly where it compiles
/// and an entry outside the metadata directories, with a path below the root
/// that one of its globs matches, was delivered.
pub proof fn lemma_walked_rule_status(rule: RuleView, tree: TreeView)
    requires
        !is_direct(rule),
    ensures
        rule_status(rule, tree) == RuleStatus::Matched <==> rule_compiles(rule) && found_in(
            rule,
            tree.entries,
        ),
        rule_status(rule, tree) == RuleStatus::Uncompilable <==> !rule_compiles(rule),
{
}

/// An entry that does not lie below the root of the repository satisfies no
/// rule, whatever its name.
pub proof fn lemma_outside_root_counts_for_nothing(rule: RuleView, entry: EntryView)
    requires
        entry.relative_path.is_none(),
    ensures
        !entry_matches(rule, entry),
{
}

/// A match at any depth counts for a rule that is not anchored: once an
/// entry outside the metadata directories was delivered whose path below the
/// root one glob of the rule matches, the rule is matched.
pub proof fn lemma_match_at_any_depth_counts(
    rule: RuleView,
    tree: TreeView,
    entry: int,
    path: Seq<char>,
    glob: int,
)
    requires
        !is_anchored(rule.original_path),
        rule_compiles(rule),
        0 <= entry < tree.entries.len(),
        !is_metadata(tree.entries[entry]),
        tree.entries[entry].relative_path == Some(path),
        0 <= glob < rule_globs(rule).len(),
        glob_matches(rule_globs(rule)[glob], path),
    ensures
        rule_status(rule, tree) == RuleStatus::Matched,
{
    assert(entry_matches(rule, tree.entries[entry]));
}

/// An anchored rule compiles to globs that are rooted at the top of the
/// repository: the pattern itself and, for a directory, what lies beneath it.
/// None of them carries the prefix that lets a glob match at any depth.
pub proof fn lemma_anchored_globs(rule: RuleView)
    requires
        is_anchored(rule.original_path),
    ensures
        is_directory(rule.original_path) ==> rule_globs(rule) == seq![
            rule.pattern,
            rule.pattern + subtree_suffix(),
        ],
        !is_directory(rule.original_path) ==> rule_globs(rule) == seq![rule.pattern],
{
    assert(is_directory(rule.original_path) ==> rule_globs(rule) =~= seq![
        rule.pattern,
        rule.pattern + subtree_suffix(),
    ]);
    assert(!is_directory(rule.original_path) ==> rule_globs(rule) =~= seq![rule.pattern]);
}

/// A rule that is not anchored compiles to globs that carry the prefix for
/// any depth, unless its pattern holds a wildcard of its own and names no
/// directory: then the pattern stands as it was written.
pub proof fn lemma_unanchored_globs(rule: RuleView)
    requires
        !is_anchored(rule.original_path),
    ensures
        is_directory(rule.original_path) ==> rule_globs(rule) == seq![
            any_depth_prefix() + rule.pattern,
            any_depth_prefix() + rule.pattern + subtree_suffix(),
        ],
        !is_directory(rule.original_path) && has_wildcard(rule.pattern) ==> rule_globs(rule)
            == seq![rule.pattern],
        !is_directory(rule.original_path) && !has_wildcard(rule.pattern) ==> rule_globs(rule)
            == seq![any_depth_prefix() + rule.pattern],
{
    assert(is_directory(rule.original_path) ==> rule_globs(rule) =~= seq![
        any_depth_prefix() + rule.pattern,
        any_depth_prefix() + rule.pattern + subtree_suffix(),
    ]);
    assert(!is_directory(rule.original_path) && has_wildcard(rule.pattern) ==> rule_globs(rule)
        =~= seq![rule.pattern]);
    assert(!is_directory(rule.original_path) && !has_wildcard(rule.pattern) ==> rule_globs(rule)
        =~= seq![any_depth_prefix() + rule.pattern]);
}

/// The glob that stands for the directory of a directory rule itself.
pub open spec fn directory_glob(rule: RuleView) -> Seq<char> {
    if is_anchored(rule.original_path) {
        rule.pattern
    } else {
        any_depth_prefix() + rule.pattern
    }
}

/// A directory rule is satisfied by the paths that the glob of the directory
/// itself matches and by those that the glob of all beneath it matches, and
/// by no other path.
pub proof fn lemma_directory_rule(rule: RuleView, path: Seq<char>)
    requires
        is_directory(rule.original_path),
        rule_compiles(rule),
    ensures
        rule_matches(rule, path) <==> glob_matches(directory_glob(rule), path) || glob_matches(
            directory_glob(rule) + subtree_suffix(),
            path,
        ),
{
    let globs = rule_globs(rule);
    assert(globs =~= seq![directory_glob(rule), directory_glob(rule) + subtree_suffix()]);
    if glob_matches(directory_glob(rule), path) {
        assert(glob_matches(globs[0], path));
    }
    if glob_matches(directory_glob(rule) + subtree_suffix(), path) {
        assert(glob_matches(globs[1], path));
    }
}

/// In the combined matcher of rules that compile, a glob that leads back to
/// a directory rule matches a path exactly where the glob of the directory
/// itself or the glob of all beneath it does.
pub proof fn lemma_directory_rule_in_matcher(rules: Seq<RuleView>, at: int, path: Seq<char>)
    requires
        all_compile(rules),
        0 <= at < rules.len(),
        is_directory(rules[at].original_path),
    ensures
        (exists|k: int|
            0 <= k < compiled_globs(rules).len() && #[trigger] compiled_owners(rules)[k] == at
                && glob_matches(compiled_globs(rules)[k], path)) <==> glob_matches(
            directory_glob(rules[at]),
            path,
        ) || glob_matches(directory_glob(rules[at]) + subtree_suffix(), path),
{
    let rule = rules[at];
    let globs = rule_globs(rule);
    assert(globs =~= seq![directory_glob(rule), directory_glob(rule) + subtree_suffix()]);
    lemma_compiled_index(rules);
    if exists|k: int|
        0 <= k < compiled_globs(rules).len() && #[trigger] compiled_owners(rules)[k] == at
            && glob_matches(compiled_globs(rules)[k], path) {
        let k = choose|k: int|
            0 <= k < compiled_globs(rules).len() && #[trigger] compiled_owners(rules)[k] == at
                && glob_matches(compiled_globs(rules)[k], path);
        let j = choose|j: int| 0 <= j < globs.len() && #[trigger] is_slot_of(rules, k, at, j);
        assert(compiled_globs(rules)[k] == globs[j]);
    }
    if glob_matches(directory_glob(rule), path) {
        assert(has_slot(rules, at, 0));
        let k = choose|k: int| #[trigger] is_slot_of(rules, k, at, 0);
        assert(compiled_owners(rules)[k] == at && glob_matches(compiled_globs(rules)[k], path));
    }
    if glob_matches(directory_glob(rule) + subtree_suffix(), path) {
        assert(has_slot(rules, at, 1));
        let k = choose|k: int| #[trigger] is_slot_of(rules, k, at, 1);
        assert(compiled_owners(rules)[k] == at && glob_matches(compiled_globs(rules)[k], path));
    }
}

} // verus!
