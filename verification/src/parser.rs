//! The rule model: one ownership rule per line of text.
//!
//! A line holds a pattern and, after it, the owners of what the pattern
//! matches, set apart by white space. Blank lines and lines that start with
//! `#` say nothing.
use crate::globs::{builder_add, builder_new, glob_compiles};
use crate::pattern::{compile_primitives, pattern_compiles, primitives_of};
use crate::text::{
    chars_of, lemma_scan_until, lines_of, scan, scan_until, split_lines, split_tokens, string_of,
    tokens_of, Boundary,
};
use vstd::prelude::*;

verus! {

/// A rule as mathematical text.
pub struct RuleView {
    pub pattern: Seq<char>,
    pub owners: Seq<Seq<char>>,
    pub original_path: Seq<char>,
}

/// One ownership rule: a pattern, who owns what it matches, and the text it
/// was written as.
#[derive(Debug, Eq, PartialEq)]
pub struct CodeOwnerRule {
    /// The pattern without its leading and trailing separator.
    pub pattern: String,
    /// The owners, in the order in which they were written.
    pub owners: Vec<String>,
    /// The pattern as it was written, separators included.
    pub original_path: String,
}

/// A line that yields no rule, though it is neither blank nor a comment.
pub struct InvalidLine {
    /// The number of the line, counted from one.
    pub line_number: usize,
    /// The line as it was written.
    pub content: String,
}

impl View for CodeOwnerRule {
    type V = RuleView;

    open spec fn view(&self) -> RuleView {
        RuleView {
            pattern: self.pattern@,
            owners: self.owners.deep_view(),
            original_path: self.original_path@,
        }
    }
}

impl Clone for CodeOwnerRule {
    fn clone(&self) -> (rule: Self)
        ensures
            rule@ == self@,
    {
        let mut owners: Vec<String> = Vec::new();
        let mut i: usize = 0;
        while i < self.owners.len()
            invariant
                i <= self.owners@.len(),
                owners@.len() == i,
                forall|k: int| 0 <= k < i ==> (#[trigger] owners@[k])@ == self.owners@[k]@,
            decreases self.owners.len() - i,
        {
            owners.push(self.owners[i].clone());
            i += 1;
        }
        assert(owners.deep_view() =~= self.owners.deep_view());
        CodeOwnerRule {
            pattern: self.pattern.clone(),
            owners,
            original_path: self.original_path.clone(),
        }
    }
}

/// The views of `rules`, in order.
pub open spec fn rule_views(rules: Seq<CodeOwnerRule>) -> Seq<RuleView> {
    rules.map_values(|rule: CodeOwnerRule| rule@)
}

/// An invalid line as mathematical text.
pub struct InvalidLineView {
    pub line_number: nat,
    pub content: Seq<char>,
}

impl View for InvalidLine {
    type V = InvalidLineView;

    open spec fn view(&self) -> InvalidLineView {
        InvalidLineView { line_number: self.line_number as nat, content: self.content@ }
    }
}

/// The views of `lines`, in order.
pub open spec fn invalid_views(lines: Seq<InvalidLine>) -> Seq<InvalidLineView> {
    lines.map_values(|line: InvalidLine| line@)
}

/// What one line says.
pub enum ParsedLine {
    /// Nothing: the line is blank or a comment.
    Skipped,
    /// A rule.
    Rule(CodeOwnerRule),
    /// No rule, though it should: its pattern is empty or malformed.
    Invalid(InvalidLine),
}

/// What one line says, as mathematical text.
pub enum ParsedLineView {
    Skipped,
    Rule(RuleView),
    Invalid(InvalidLineView),
}

impl View for ParsedLine {
    type V = ParsedLineView;

    open spec fn view(&self) -> ParsedLineView {
        match self {
            ParsedLine::Skipped => ParsedLineView::Skipped,
            ParsedLine::Rule(rule) => ParsedLineView::Rule(rule@),
            ParsedLine::Invalid(line) => ParsedLineView::Invalid(line@),
        }
    }
}

/// A pattern as it was written, without one leading and one trailing
/// separator.
pub open spec fn normalize(token: Seq<char>) -> Seq<char> {
    let rest = if token.len() > 0 && token[0] == '/' {
        token.drop_first()
    } else {
        token
    };
    if rest.len() > 0 && rest.last() == '/' {
        rest.drop_last()
    } else {
        rest
    }
}

/// Whether a line says nothing: it is blank, or the first character in it
/// that is no white space is `#`.
pub open spec fn is_skipped(line: Seq<char>) -> bool {
    let start = scan_until(line, 0, Boundary::NonWhitespace);
    start >= line.len() || line[start] == '#'
}

/// The rule that a line spells: its first word is the pattern as written,
/// the words after it are the owners.
pub open spec fn spelled_rule(line: Seq<char>) -> RuleView {
    let tokens = tokens_of(line);
    RuleView { pattern: normalize(tokens[0]), owners: tokens.drop_first(), original_path: tokens[0] }
}

/// Whether a rule may enter the list: its pattern is not empty, and its
/// globs compile.
pub open spec fn is_valid_rule(rule: RuleView) -> bool {
    rule.pattern.len() > 0 && pattern_compiles(rule.pattern, rule.original_path)
}

/// What the line with number `line_number` says.
pub open spec fn line_meaning(line: Seq<char>, line_number: nat) -> ParsedLineView {
    if is_skipped(line) {
        ParsedLineView::Skipped
    } else if is_valid_rule(spelled_rule(line)) {
        ParsedLineView::Rule(spelled_rule(line))
    } else {
        ParsedLineView::Invalid(InvalidLineView { line_number, content: line })
    }
}

/// The rules that `lines` spell, in order. Lines are numbered from one.
pub open spec fn parsed_rules(lines: Seq<Seq<char>>) -> Seq<RuleView>
    decreases lines.len(),
{
    if lines.len() == 0 {
        Seq::empty()
    } else {
        match line_meaning(lines.last(), lines.len()) {
            ParsedLineView::Rule(rule) => parsed_rules(lines.drop_last()).push(rule),
            _ => parsed_rules(lines.drop_last()),
        }
    }
}

/// The invalid lines among `lines`, in order. Lines are numbered from one.
pub open spec fn parsed_invalid(lines: Seq<Seq<char>>) -> Seq<InvalidLineView>
    decreases lines.len(),
{
    if lines.len() == 0 {
        Seq::empty()
    } else {
        match line_meaning(lines.last(), lines.len()) {
            ParsedLineView::Invalid(line) => parsed_invalid(lines.drop_last()).push(line),
            _ => parsed_invalid(lines.drop_last()),
        }
    }
}

/// Every rule that the lines spell is valid: its pattern is not empty, its
/// globs compile, and its pattern is its text without the separators around it.
pub proof fn lemma_parsed_rules_are_valid(lines: Seq<Seq<char>>)
    ensures
        parsed_rules(lines).len() <= lines.len(),
        forall|i: int|
            0 <= i < parsed_rules(lines).len() ==> {
                let rule = #[trigger] parsed_rules(lines)[i];
                is_valid_rule(rule) && rule.pattern == normalize(rule.original_path)
            },
    decreases lines.len(),
{
    if lines.len() > 0 {
        lemma_parsed_rules_are_valid(lines.drop_last());
    }
}

/// No line is dropped in silence: every line that is neither blank nor a
/// comment spells a rule of the list or is among the invalid lines, under
/// its own number and with its own text.
pub proof fn lemma_every_line_is_accounted_for(lines: Seq<Seq<char>>, at: int)
    requires
        0 <= at < lines.len(),
        !is_skipped(lines[at]),
    ensures
        is_valid_rule(spelled_rule(lines[at])) ==> parsed_rules(lines).contains(
            spelled_rule(lines[at]),
        ),
        !is_valid_rule(spelled_rule(lines[at])) ==> parsed_invalid(lines).contains(
            InvalidLineView { line_number: (at + 1) as nat, content: lines[at] },
        ),
    decreases lines.len(),
{
    let front = lines.drop_last();
    if at == lines.len() - 1 {
        if is_valid_rule(spelled_rule(lines[at])) {
            let rules = parsed_rules(lines);
            assert(rules[rules.len() - 1] == spelled_rule(lines[at]));
        } else {
            let invalid = parsed_invalid(lines);
            assert(invalid[invalid.len() - 1] == InvalidLineView {
                line_number: (at + 1) as nat,
                content: lines[at],
            });
        }
    } else {
        lemma_every_line_is_accounted_for(front, at);
        assert(front[at] == lines[at]);
        if is_valid_rule(spelled_rule(lines[at])) {
            let i = choose|i: int|
                0 <= i < parsed_rules(front).len() && parsed_rules(front)[i] == spelled_rule(
                    lines[at],
                );
            assert(parsed_rules(lines)[i] == spelled_rule(lines[at]));
        } else {
            let wanted = InvalidLineView { line_number: (at + 1) as nat, content: lines[at] };
            let i = choose|i: int|
                0 <= i < parsed_invalid(front).len() && parsed_invalid(front)[i] == wanted;
            assert(parsed_invalid(lines)[i] == wanted);
        }
    }
}

/// Strips one leading and one trailing separator from a pattern as written.
pub fn normalize_token(token: &Vec<char>) -> (pattern: String)
    ensures
        pattern@ == normalize(token@),
{
    let start: usize = if token.len() > 0 && token[0] == '/' {
        1
    } else {
        0
    };
    let end: usize = if token.len() > start && token[token.len() - 1] == '/' {
        token.len() - 1
    } else {
        token.len()
    };
    proof {
        let rest = if token@.len() > 0 && token@[0] == '/' {
            token@.drop_first()
        } else {
            token@
        };
        assert(rest =~= token@.subrange(start as int, token@.len() as int));
        assert(normalize(token@) =~= token@.subrange(start as int, end as int));
    }
    string_of(token, start, end)
}

/// Tests that the globs of a rule compile, on a builder that is thrown away.
pub fn validate_pattern(pattern: &str, original_path: &str) -> (res: Result<(), &'static str>)
    ensures
        res.is_ok() == pattern_compiles(pattern@, original_path@),
        res matches Err(reason) ==> reason@ == "invalid pattern"@,
{
    let globs = compile_primitives(pattern, original_path);
    let ghost texts = primitives_of(pattern@, original_path@);
    let mut scratch = builder_new();
    let mut i: usize = 0;
    while i < globs.len()
        invariant
            i <= globs@.len(),
            globs.deep_view() == texts,
            texts == primitives_of(pattern@, original_path@),
            forall|k: int| 0 <= k < i ==> glob_compiles(#[trigger] texts[k]),
        decreases globs.len() - i,
    {
        assert(globs.deep_view()[i as int] == globs@[i as int]@);
        if builder_add(&mut scratch, globs[i].as_str()).is_err() {
            assert(!glob_compiles(texts[i as int]));
            return Err("invalid pattern");
        }
        i += 1;
    }
    Ok(())
}

/// Reads one line.
pub fn parse_line(line: &str, line_number: usize) -> (parsed: ParsedLine)
    ensures
        parsed@ == line_meaning(line@, line_number as nat),
{
    let chars = chars_of(line);
    let start = scan(&chars, 0, Boundary::NonWhitespace);
    if start >= chars.len() || chars[start] == '#' {
        return ParsedLine::Skipped;
    }
    let mut tokens = split_tokens(&chars);
    proof {
        lemma_scan_until(chars@, start as int, Boundary::Whitespace);
        assert(tokens_of(chars@).len() >= 1);
    }
    let ghost words = tokens.deep_view();
    let original_path = tokens.remove(0);
    assert(tokens.deep_view() =~= words.drop_first());
    assert(original_path@ == words[0]);
    let pattern = normalize_token(&chars_of(original_path.as_str()));
    if pattern.as_str().is_empty() || validate_pattern(
        pattern.as_str(),
        original_path.as_str(),
    ).is_err() {
        return ParsedLine::Invalid(InvalidLine { line_number, content: line.to_string() });
    }
    ParsedLine::Rule(CodeOwnerRule { pattern, owners: tokens, original_path })
}

/// Reads the rules that `lines` spell. The lines that should spell a rule and
/// do not are handed back beside them, each with its number.
pub fn parse_lines(lines: &[String]) -> (parsed: (Vec<CodeOwnerRule>, Vec<InvalidLine>))
    ensures
        rule_views(parsed.0@) == parsed_rules(lines.deep_view()),
        invalid_views(parsed.1@) == parsed_invalid(lines.deep_view()),
{
    let ghost texts = lines.deep_view();
    let mut rules: Vec<CodeOwnerRule> = Vec::new();
    let mut invalid: Vec<InvalidLine> = Vec::new();
    let mut i: usize = 0;
    assert(texts.take(0) =~= Seq::empty());
    assert(rule_views(rules@) =~= parsed_rules(texts.take(0)));
    assert(invalid_views(invalid@) =~= parsed_invalid(texts.take(0)));
    while i < lines.len()
        invariant
            i <= lines@.len(),
            texts == lines.deep_view(),
            rule_views(rules@) == parsed_rules(texts.take(i as int)),
            invalid_views(invalid@) == parsed_invalid(texts.take(i as int)),
        decreases lines.len() - i,
    {
        proof {
            assert(texts.take(i + 1).drop_last() =~= texts.take(i as int));
            assert(texts.take(i + 1).last() == lines@[i as int]@);
        }
        let ghost held_rules = rule_views(rules@);
        let ghost held_invalid = invalid_views(invalid@);
        match parse_line(lines[i].as_str(), i + 1) {
            ParsedLine::Skipped => {},
            ParsedLine::Rule(rule) => {
                rules.push(rule);
                assert(rule_views(rules@) =~= held_rules.push(rule@));
            },
            ParsedLine::Invalid(line) => {
                invalid.push(line);
                assert(invalid_views(invalid@) =~= held_invalid.push(line@));
            },
        }
        i += 1;
    }
    assert(texts.take(i as int) =~= texts);
    (rules, invalid)
}

/// Reads the rules of an ownership file from its text.
pub fn parse_codeowners(content: &str) -> (parsed: (Vec<CodeOwnerRule>, Vec<InvalidLine>))
    ensures
        rule_views(parsed.0@) == parsed_rules(lines_of(content@)),
        invalid_views(parsed.1@) == parsed_invalid(lines_of(content@)),
{
    let lines = split_lines(&chars_of(content));
    parse_lines(lines.as_slice())
}

} // verus!
