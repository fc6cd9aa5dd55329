//! The pattern compiler: from a rule's text to the globs that stand for it.
//!
//! A rule is *anchored* when its source text starts with a separator, and a
//! *directory* rule when it ends with one. The two, with whether the pattern
//! already holds a wildcard, decide which globs the rule is matched by.
use crate::globs::glob_compiles;
use crate::text::{chars_of, find_component, has_component};
use vstd::prelude::*;

verus! {

/// The glob engine refused a glob, or a set of globs as a whole.
#[derive(Debug)]
pub struct GlobError {
    /// What the glob engine said.
    pub message: String,
}

/// The shape of one glob that a rule compiles to.
#[derive(Clone, Copy, Debug, PartialEq, Eq, Structural)]
pub enum PrimitiveForm {
    /// The pattern itself.
    Exact,
    /// Everything beneath the pattern: `pattern/**`.
    Subtree,
    /// The pattern at any depth: `**/pattern`.
    AnyDepth,
    /// Everything beneath the pattern, at any depth: `**/pattern/**`.
    AnyDepthSubtree,
}

/// Whether a rule's source text roots it at the top of the repository.
pub open spec fn is_anchored(original_path: Seq<char>) -> bool {
    original_path.len() > 0 && original_path[0] == '/'
}

/// Whether a rule's source text names a directory and all beneath it.
pub open spec fn is_directory(original_path: Seq<char>) -> bool {
    original_path.len() > 0 && original_path.last() == '/'
}

/// Whether a pattern holds a wildcard of its own.
pub open spec fn has_wildcard(pattern: Seq<char>) -> bool {
    pattern.contains('*') || pattern.contains('?') || pattern.contains('[')
}

/// `..`
pub open spec fn parent_name() -> Seq<char> {
    seq!['.', '.']
}

/// Whether a path, taken from the root of the repository, stays below that
/// root: it has no root of its own, and no component of it leads up.
pub open spec fn stays_below_root(path: Seq<char>) -> bool {
    !(path.len() > 0 && path[0] == '/') && !has_component(path, parent_name())
}

/// The forms that a rule compiles to, by its three properties.
pub open spec fn primitive_forms(anchored: bool, directory: bool, wildcard: bool) -> Seq<
    PrimitiveForm,
> {
    if anchored && directory {
        seq![PrimitiveForm::Exact, PrimitiveForm::Subtree]
    } else if anchored {
        seq![PrimitiveForm::Exact]
    } else if directory {
        seq![PrimitiveForm::AnyDepth, PrimitiveForm::AnyDepthSubtree]
    } else if wildcard {
        seq![PrimitiveForm::Exact]
    } else {
        seq![PrimitiveForm::AnyDepth]
    }
}

/// `**/`
pub open spec fn any_depth_prefix() -> Seq<char> {
    seq!['*', '*', '/']
}

/// `/**`
pub open spec fn subtree_suffix() -> Seq<char> {
    seq!['/', '*', '*']
}

/// The glob of form `form` for `pattern`.
pub open spec fn render(form: PrimitiveForm, pattern: Seq<char>) -> Seq<char> {
    match form {
        PrimitiveForm::Exact => pattern,
        PrimitiveForm::Subtree => pattern + subtree_suffix(),
        PrimitiveForm::AnyDepth => any_depth_prefix() + pattern,
        PrimitiveForm::AnyDepthSubtree => any_depth_prefix() + pattern + subtree_suffix(),
    }
}

/// The globs that a rule with this pattern and this source text is matched by.
pub open spec fn primitives_of(pattern: Seq<char>, original_path: Seq<char>) -> Seq<Seq<char>> {
    primitive_forms(
        is_anchored(original_path),
        is_directory(original_path),
        has_wildcard(pattern),
    ).map_values(|form: PrimitiveForm| render(form, pattern))
}

/// Whether every glob of a rule with this pattern and this source text
/// compiles.
pub open spec fn pattern_compiles(pattern: Seq<char>, original_path: Seq<char>) -> bool {
    forall|k: int|
        0 <= k < primitives_of(pattern, original_path).len() ==> glob_compiles(
            #[trigger] primitives_of(pattern, original_path)[k],
        )
}

/// Decides the forms of a rule from its three properties.
pub fn classify(anchored: bool, directory: bool, wildcard: bool) -> (forms: Vec<PrimitiveForm>)
    ensures
        forms@ == primitive_forms(anchored, directory, wildcard),
{
    let mut forms: Vec<PrimitiveForm> = Vec::new();
    if anchored && directory {
        forms.push(PrimitiveForm::Exact);
        forms.push(PrimitiveForm::Subtree);
    } else if anchored {
        forms.push(PrimitiveForm::Exact);
    } else if directory {
        forms.push(PrimitiveForm::AnyDepth);
        forms.push(PrimitiveForm::AnyDepthSubtree);
    } else if wildcard {
        forms.push(PrimitiveForm::Exact);
    } else {
        forms.push(PrimitiveForm::AnyDepth);
    }
    assert(forms@ =~= primitive_forms(anchored, directory, wildcard));
    forms
}

/// Writes out the glob of form `form` for `pattern`.
pub fn render_primitive(form: PrimitiveForm, pattern: &str) -> (glob: String)
    ensures
        glob@ == render(form, pattern@),
{
    proof {
        reveal_strlit("**/");
        reveal_strlit("/**");
        assert("**/"@ =~= any_depth_prefix());
        assert("/**"@ =~= subtree_suffix());
    }
    match form {
        PrimitiveForm::Exact => pattern.to_string(),
        PrimitiveForm::Subtree => {
            let mut glob = pattern.to_string();
            glob.append("/**");
            glob
        },
        PrimitiveForm::AnyDepth => {
            let mut glob = "**/".to_string();
            glob.append(pattern);
            glob
        },
        PrimitiveForm::AnyDepthSubtree => {
            let mut glob = "**/".to_string();
            glob.append(pattern);
            glob.append("/**");
            glob
        },
    }
}

/// Whether `chars` holds `c`.
pub fn holds_char(chars: &Vec<char>, c: char) -> (yes: bool)
    ensures
        yes == chars@.contains(c),
{
    let mut i: usize = 0;
    while i < chars.len()
        invariant
            i <= chars@.len(),
            forall|k: int| 0 <= k < i ==> chars@[k] != c,
        decreases chars.len() - i,
    {
        if chars[i] == c {
            return true;
        }
        i += 1;
    }
    false
}

/// Tests a rule's source text for a leading separator.
pub fn starts_with_separator(original_path: &Vec<char>) -> (yes: bool)
    ensures
        yes == is_anchored(original_path@),
{
    original_path.len() > 0 && original_path[0] == '/'
}

/// Tests a rule's source text for a trailing separator.
pub fn ends_with_separator(original_path: &Vec<char>) -> (yes: bool)
    ensures
        yes == is_directory(original_path@),
{
    original_path.len() > 0 && original_path[original_path.len() - 1] == '/'
}

/// Tests a pattern for a wildcard of its own.
pub fn contains_wildcard(pattern: &Vec<char>) -> (yes: bool)
    ensures
        yes == has_wildcard(pattern@),
{
    holds_char(pattern, '*') || holds_char(pattern, '?') || holds_char(pattern, '[')
}

/// Tests that a path, taken from the root of the repository, stays below it.
pub fn is_below_root(path: &str) -> (yes: bool)
    ensures
        yes == stays_below_root(path@),
{
    let chars = chars_of(path);
    let parent = chars_of("..");
    proof {
        reveal_strlit("..");
        assert(parent@ =~= parent_name());
    }
    !(chars.len() > 0 && chars[0] == '/') && !find_component(&chars, &parent, false)
}

/// Compiles a rule's text to its globs, in the order in which they are matched.
pub fn compile_primitives(pattern: &str, original_path: &str) -> (globs: Vec<String>)
    ensures
        globs.deep_view() == primitives_of(pattern@, original_path@),
        1 <= globs@.len() <= 2,
{
    let pattern_chars = chars_of(pattern);
    let original_chars = chars_of(original_path);
    let forms = classify(
        starts_with_separator(&original_chars),
        ends_with_separator(&original_chars),
        contains_wildcard(&pattern_chars),
    );
    let mut globs: Vec<String> = Vec::new();
    let mut i: usize = 0;
    while i < forms.len()
        invariant
            i <= forms@.len(),
            globs@.len() == i,
            forall|k: int| 0 <= k < i ==> (#[trigger] globs@[k])@ == render(forms@[k], pattern@),
        decreases forms.len() - i,
    {
        let glob = render_primitive(forms[i], pattern);
        globs.push(glob);
        i += 1;
    }
    assert(globs.deep_view() =~= primitives_of(pattern@, original_path@));
    globs
}

} // verus!
