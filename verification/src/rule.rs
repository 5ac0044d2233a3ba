//! Rewrite rules: how one line of source text becomes a rule, and what a rule
//! does to a buffer.

use vstd::prelude::*;
use crate::error::ErrorKind;
use crate::text::{
    find, leftmost, lemma_leftmost_is_leftmost, occurs, replace_first, rewrite, to_chars,
};

verus! {

/// One clause of a program.
#[derive(Clone, Debug, PartialEq, Eq)]
pub enum Rule {
    /// `pattern:replacement`: on a match, rewrite and keep running.
    Continuing(String, String),
    /// `pattern::replacement`: on a match, rewrite and stop the run.
    Terminating(String, String),
    /// Any other line. It never matches.
    Comment(String),
}

/// What applying one rule to a buffer gives.
#[derive(Clone, Debug, PartialEq, Eq)]
pub enum RuleResult {
    /// A continuing rule matched; this is the new buffer.
    Continue(String),
    /// A terminating rule matched; this is the new buffer.
    End(String),
    /// The rule did not match.
    NoMatch,
}

/// The mathematical value of a [`Rule`].
pub ghost enum RuleView {
    Continuing(Seq<char>, Seq<char>),
    Terminating(Seq<char>, Seq<char>),
    Comment(Seq<char>),
}

/// The mathematical value of a [`RuleResult`].
pub ghost enum RuleResultView {
    Continue(Seq<char>),
    End(Seq<char>),
    NoMatch,
}

impl View for Rule {
    type V = RuleView;

    open spec fn view(&self) -> RuleView {
        match self {
            Rule::Continuing(p, r) => RuleView::Continuing(p@, r@),
            Rule::Terminating(p, r) => RuleView::Terminating(p@, r@),
            Rule::Comment(s) => RuleView::Comment(s@),
        }
    }
}

impl View for RuleResult {
    type V = RuleResultView;

    open spec fn view(&self) -> RuleResultView {
        match self {
            RuleResult::Continue(s) => RuleResultView::Continue(s@),
            RuleResult::End(s) => RuleResultView::End(s@),
            RuleResult::NoMatch => RuleResultView::NoMatch,
        }
    }
}

impl RuleResultView {
    /// The new buffer, where the rule matched.
    pub open spec fn buffer(self) -> Option<Seq<char>> {
        match self {
            RuleResultView::Continue(b) => Some(b),
            RuleResultView::End(b) => Some(b),
            RuleResultView::NoMatch => None,
        }
    }
}

/// The separator of a terminating rule.
pub open spec fn terminating_separator() -> Seq<char> {
    seq![':', ':']
}

/// The separator of a continuing rule.
pub open spec fn continuing_separator() -> Seq<char> {
    seq![':']
}

impl RuleView {
    /// A rule that matches has a pattern that is not empty, and a continuing
    /// rule does not rewrite its pattern to itself.
    pub open spec fn wf(self) -> bool {
        match self {
            RuleView::Continuing(p, r) => p.len() > 0 && p != r,
            RuleView::Terminating(p, r) => p.len() > 0,
            RuleView::Comment(s) => true,
        }
    }

    /// The text that the rule looks for. A comment looks for nothing.
    pub open spec fn pattern(self) -> Option<Seq<char>> {
        match self {
            RuleView::Continuing(p, r) => Some(p),
            RuleView::Terminating(p, r) => Some(p),
            RuleView::Comment(s) => None,
        }
    }

    /// The text that the rule puts in the place of its pattern.
    pub open spec fn replacement(self) -> Option<Seq<char>> {
        match self {
            RuleView::Continuing(p, r) => Some(r),
            RuleView::Terminating(p, r) => Some(r),
            RuleView::Comment(s) => None,
        }
    }

    /// The rule has a pattern, and the pattern occurs in `buffer`.
    pub open spec fn pattern_occurs_in(self, buffer: Seq<char>) -> bool {
        self.pattern() matches Some(p) && occurs(buffer, p)
    }

    /// What the rule does to `buffer`: the leftmost occurrence of its pattern
    /// is replaced, and nothing else.
    pub open spec fn apply(self, buffer: Seq<char>) -> RuleResultView {
        match self {
            RuleView::Continuing(p, r) => match rewrite(buffer, p, r) {
                Some(b) => RuleResultView::Continue(b),
                None => RuleResultView::NoMatch,
            },
            RuleView::Terminating(p, r) => match rewrite(buffer, p, r) {
                Some(b) => RuleResultView::End(b),
                None => RuleResultView::NoMatch,
            },
            RuleView::Comment(s) => RuleResultView::NoMatch,
        }
    }

    /// The rule matches `buffer`.
    pub open spec fn applies(self, buffer: Seq<char>) -> bool {
        !(self.apply(buffer) is NoMatch)
    }

    /// The rule as a line of text.
    pub open spec fn text(self) -> Seq<char> {
        match self {
            RuleView::Continuing(p, r) => p + continuing_separator() + r,
            RuleView::Terminating(p, r) => p + terminating_separator() + r,
            RuleView::Comment(s) => seq!['#', ' '] + s,
        }
    }
}

/// A rule matches a buffer exactly when it has a pattern and the pattern
/// occurs in the buffer.
pub proof fn lemma_applies_iff_pattern_occurs(rule: RuleView, buffer: Seq<char>)
    ensures
        rule.applies(buffer) <==> rule.pattern_occurs_in(buffer),
{
    if let Some(p) = rule.pattern() {
        lemma_leftmost_is_leftmost(buffer, p);
    }
}

/// The rule that one line of source text stands for. A line that holds `::`
/// is a terminating rule, split at the first `::`. Any other line that holds
/// `:` is a continuing rule, split at the first `:`. Every other line is a
/// comment. A rule with an empty pattern is refused, and so is a continuing
/// rule whose replacement equals its pattern.
pub open spec fn parse_line(line: Seq<char>) -> Result<RuleView, ErrorKind> {
    match leftmost(line, terminating_separator()) {
        Some(i) => {
            let rule = RuleView::Terminating(
                line.subrange(0, i),
                line.subrange(i + 2, line.len() as int),
            );
            if rule.wf() {
                Ok(rule)
            } else {
                Err(ErrorKind::PatternError)
            }
        },
        None => match leftmost(line, continuing_separator()) {
            Some(i) => {
                let rule = RuleView::Continuing(
                    line.subrange(0, i),
                    line.subrange(i + 1, line.len() as int),
                );
                if rule.wf() {
                    Ok(rule)
                } else {
                    Err(ErrorKind::PatternError)
                }
            },
            None => Ok(RuleView::Comment(line)),
        },
    }
}

impl Rule {
    /// Compiles one line of source text into a rule.
    pub fn parse(line: String) -> (r: Result<Rule, ErrorKind>)
        ensures
            match r {
                Ok(rule) => parse_line(line@) == Ok::<RuleView, ErrorKind>(rule@) && rule@.wf(),
                Err(e) => parse_line(line@) == Err::<RuleView, ErrorKind>(e)
                    && e == ErrorKind::PatternError,
            },
    {
        let chars = to_chars(line.as_str());
        let end: usize = chars.len();
        let mut double: Vec<char> = Vec::new();
        double.push(':');
        double.push(':');
        let mut single: Vec<char> = Vec::new();
        single.push(':');
        assert(double@ =~= terminating_separator());
        match find(&chars, &double) {
            Some(i) => {
                proof {
                    lemma_leftmost_is_leftmost(chars@, double@);
                }
                let pattern = String::from_str(line.as_str().substring_char(0, i));
                let replacement = String::from_str(line.as_str().substring_char(i + 2, end));
                if i == 0 {
                    Err(ErrorKind::PatternError)
                } else {
                    Ok(Rule::Terminating(pattern, replacement))
                }
            },
            None => match find(&chars, &single) {
                Some(i) => {
                    proof {
                        lemma_leftmost_is_leftmost(chars@, single@);
                    }
                    let pattern = String::from_str(line.as_str().substring_char(0, i));
                    let replacement = String::from_str(line.as_str().substring_char(i + 1, end));
                    if i == 0 || pattern == replacement {
                        Err(ErrorKind::PatternError)
                    } else {
                        Ok(Rule::Continuing(pattern, replacement))
                    }
                },
                None => Ok(Rule::Comment(line)),
            },
        }
    }

    /// Applies the rule to `line`: replaces the leftmost occurrence of the
    /// pattern, or reports that there is none.
    pub fn apply(&self, line: &str) -> (r: RuleResult)
        ensures
            r@ == self@.apply(line@),
            r is NoMatch <==> !self@.pattern_occurs_in(line@),
    {
        proof {
            lemma_applies_iff_pattern_occurs(self@, line@);
        }
        match self {
            Rule::Continuing(p, t) => match replace_first(line, p.as_str(), t.as_str()) {
                Some(b) => RuleResult::Continue(b),
                None => RuleResult::NoMatch,
            },
            Rule::Terminating(p, t) => match replace_first(line, p.as_str(), t.as_str()) {
                Some(b) => RuleResult::End(b),
                None => RuleResult::NoMatch,
            },
            Rule::Comment(_) => RuleResult::NoMatch,
        }
    }

    /// The rule as a line of text, as a trace shows it.
    pub fn to_text(&self) -> (r: String)
        ensures
            r@ == self@.text(),
    {
        match self {
            Rule::Continuing(p, t) => {
                let mut out = String::from_str(p.as_str());
                out.append(":");
                out.append(t.as_str());
                proof {
                    reveal_strlit(":");
                }
                out
            },
            Rule::Terminating(p, t) => {
                let mut out = String::from_str(p.as_str());
                out.append("::");
                out.append(t.as_str());
                proof {
                    reveal_strlit("::");
                }
                out
            },
            Rule::Comment(s) => {
                let mut out = String::from_str("# ");
                out.append(s.as_str());
                proof {
                    reveal_strlit("# ");
                }
                out
            },
        }
    }
}

} // verus!
