//! Programs: ordered lists of rules, compiled from source text one line at a
//! time, and the scan that picks the rule to fire.

use vstd::prelude::*;
use crate::error::ErrorKind;
use crate::rule::{parse_line, Rule, RuleResult, RuleResultView, RuleView};
use crate::text::to_chars;

verus! {

/// An ordered list of rules. The order matters: each step fires the first
/// rule that matches.
#[derive(Clone, Debug, PartialEq, Eq)]
pub struct Program(pub Vec<Rule>);

impl View for Program {
    type V = Seq<RuleView>;

    open spec fn view(&self) -> Seq<RuleView> {
        self.0@.map_values(|r: Rule| r@)
    }
}

/// The lines of `source`: the runs of characters between line feeds. A text
/// with `n` line feeds has `n + 1` lines, some of which may be empty.
pub open spec fn lines(source: Seq<char>) -> Seq<Seq<char>>
    decreases source.len(),
{
    if source.len() == 0 {
        seq![Seq::<char>::empty()]
    } else {
        let before = lines(source.drop_last());
        if source.last() == '\n' {
            before.push(Seq::<char>::empty())
        } else {
            before.drop_last().push(before.last().push(source.last()))
        }
    }
}

/// The program that `source` stands for: one rule per line, in the order of
/// the lines. If any line is refused, so is the whole source.
pub open spec fn compile(source: Seq<char>) -> Result<Seq<RuleView>, ErrorKind> {
    let ls = lines(source);
    if forall|k: int| 0 <= k < ls.len() ==> (#[trigger] parse_line(ls[k])) is Ok {
        Ok(Seq::new(ls.len(), |k: int| parse_line(ls[k])->Ok_0))
    } else {
        Err(ErrorKind::PatternError)
    }
}

/// Every rule of the program is well formed.
pub open spec fn all_wf(rules: Seq<RuleView>) -> bool {
    forall|k: int| 0 <= k < rules.len() ==> (#[trigger] rules[k]).wf()
}

/// Rule `i` matches `buffer` and no earlier rule does.
pub open spec fn is_first_applicable(rules: Seq<RuleView>, buffer: Seq<char>, i: int) -> bool {
    &&& 0 <= i < rules.len()
    &&& rules[i].applies(buffer)
    &&& forall|j: int| 0 <= j < i ==> !(#[trigger] rules[j]).applies(buffer)
}

/// Some rule of the program matches `buffer`.
pub open spec fn some_applicable(rules: Seq<RuleView>, buffer: Seq<char>) -> bool {
    exists|i: int| 0 <= i < rules.len() && (#[trigger] rules[i]).applies(buffer)
}

/// The position of the first rule that matches `buffer`, or `None` where no
/// rule matches.
pub open spec fn first_applicable(rules: Seq<RuleView>, buffer: Seq<char>) -> Option<int> {
    if some_applicable(rules, buffer) {
        Some(choose|i: int| is_first_applicable(rules, buffer, i))
    } else {
        None
    }
}

/// What one scan of the program does to `buffer`: the result of the first
/// rule that matches, or `NoMatch` where none does.
pub open spec fn fire(rules: Seq<RuleView>, buffer: Seq<char>) -> RuleResultView {
    match first_applicable(rules, buffer) {
        Some(i) => rules[i].apply(buffer),
        None => RuleResultView::NoMatch,
    }
}

/// A rule that matches at `k` implies a first matching rule at or before `k`.
pub proof fn lemma_first_applicable_exists(rules: Seq<RuleView>, buffer: Seq<char>, k: int)
    requires
        0 <= k < rules.len(),
        rules[k].applies(buffer),
    ensures
        exists|i: int| 0 <= i <= k && is_first_applicable(rules, buffer, i),
    decreases k,
{
    if forall|j: int| 0 <= j < k ==> !(#[trigger] rules[j]).applies(buffer) {
        assert(is_first_applicable(rules, buffer, k));
    } else {
        let j = choose|j: int| 0 <= j < k && (#[trigger] rules[j]).applies(buffer);
        lemma_first_applicable_exists(rules, buffer, j);
    }
}

/// `first_applicable` is the first rule that matches where there is one, and
/// `None` only where no rule matches.
pub proof fn lemma_first_applicable_is_first(rules: Seq<RuleView>, buffer: Seq<char>)
    ensures
        match first_applicable(rules, buffer) {
            Some(i) => is_first_applicable(rules, buffer, i),
            None => forall|j: int| 0 <= j < rules.len() ==> !(#[trigger] rules[j]).applies(buffer),
        },
{
    if some_applicable(rules, buffer) {
        let k = choose|k: int| 0 <= k < rules.len() && (#[trigger] rules[k]).applies(buffer);
        lemma_first_applicable_exists(rules, buffer, k);
    }
}

/// There is only one first matching rule: whatever position is one,
/// `first_applicable` returns it.
pub proof fn lemma_first_applicable_unique(rules: Seq<RuleView>, buffer: Seq<char>, i: int)
    requires
        is_first_applicable(rules, buffer, i),
    ensures
        first_applicable(rules, buffer) == Some(i),
{
    lemma_first_applicable_is_first(rules, buffer);
}

/// One more character either opens a new line or extends the last one.
pub proof fn lemma_lines_push(source: Seq<char>, c: char)
    ensures
        c == '\n' ==> lines(source.push(c)) == lines(source).push(Seq::<char>::empty()),
        c != '\n' ==> lines(source.push(c)) == lines(source).drop_last().push(
            lines(source).last().push(c),
        ),
{
    assert(source.push(c).drop_last() =~= source);
}

/// A text has at least one line.
pub proof fn lemma_lines_nonempty(source: Seq<char>)
    ensures
        lines(source).len() >= 1,
    decreases source.len(),
{
    if source.len() > 0 {
        lemma_lines_nonempty(source.drop_last());
    }
}

/// The lines that a prefix of the text has completed are lines of the whole
/// text, at the same positions.
pub proof fn lemma_lines_prefix(source: Seq<char>, i: int, j: int)
    requires
        0 <= i <= j <= source.len(),
    ensures
        lines(source.take(i)).len() <= lines(source.take(j)).len(),
        forall|k: int|
            0 <= k < lines(source.take(i)).len() - 1 ==> lines(source.take(j))[k] == lines(
                source.take(i),
            )[k],
    decreases j - i,
{
    if i < j {
        lemma_lines_prefix(source, i, j - 1);
        lemma_lines_push(source.take(j - 1), source[j - 1]);
        lemma_lines_nonempty(source.take(i));
        assert(source.take(j - 1).push(source[j - 1]) =~= source.take(j));
    }
}

impl Program {
    /// Every rule of the program is well formed.
    pub open spec fn wf(&self) -> bool {
        all_wf(self@)
    }

    /// Compiles source text into a program: one rule per line, blank lines
    /// included.
    pub fn parse(content: String) -> (r: Result<Program, ErrorKind>)
        ensures
            match r {
                Ok(p) => compile(content@) == Ok::<Seq<RuleView>, ErrorKind>(p@) && p.wf(),
                Err(e) => compile(content@) == Err::<Seq<RuleView>, ErrorKind>(e)
                    && e == ErrorKind::PatternError,
            },
    {
        let chars = to_chars(content.as_str());
        let end: usize = chars.len();
        let mut rules: Vec<Rule> = Vec::new();
        let mut start: usize = 0;
        let mut i: usize = 0;
        let ghost mut done: Seq<Seq<char>> = Seq::empty();
        proof {
            assert(chars@.take(0) =~= Seq::<char>::empty());
        }
        while i < end
            invariant
                start <= i <= end,
                end == chars.len(),
                chars@ == content@,
                lines(chars@.take(i as int)) == done.push(chars@.subrange(start as int, i as int)),
                rules@.len() == done.len(),
                forall|k: int|
                    0 <= k < done.len() ==> parse_line(done[k]) == Ok::<RuleView, ErrorKind>(
                        (#[trigger] rules@[k])@,
                    ),
                forall|k: int| 0 <= k < rules@.len() ==> (#[trigger] rules@[k])@.wf(),
            decreases end - i,
        {
            let ghost current = chars@.subrange(start as int, i as int);
            proof {
                lemma_lines_push(chars@.take(i as int), chars@[i as int]);
                assert(chars@.take(i as int).push(chars@[i as int]) =~= chars@.take(i + 1));
            }
            if chars[i] == '\n' {
                let line = String::from_str(content.as_str().substring_char(start, i));
                match Rule::parse(line) {
                    Ok(rule) => {
                        rules.push(rule);
                    },
                    Err(e) => {
                        proof {
                            lemma_lines_prefix(chars@, i + 1, end as int);
                            assert(chars@.take(end as int) =~= chars@);
                            let ls = lines(chars@);
                            assert(ls[done.len() as int] == current);
                        }
                        return Err(e);
                    },
                }
                proof {
                    done = done.push(current);
                    assert(chars@.subrange(i + 1, i + 1) =~= Seq::<char>::empty());
                }
                start = i + 1;
            } else {
                proof {
                    assert(current.push(chars@[i as int]) =~= chars@.subrange(
                        start as int,
                        i + 1,
                    ));
                }
            }
            i += 1;
        }
        let line = String::from_str(content.as_str().substring_char(start, end));
        let ghost last = chars@.subrange(start as int, end as int);
        proof {
            assert(chars@.take(end as int) =~= chars@);
        }
        match Rule::parse(line) {
            Ok(rule) => {
                rules.push(rule);
                let p = Program(rules);
                proof {
                    let ls = lines(content@);
                    assert forall|k: int| 0 <= k < ls.len() implies (#[trigger] parse_line(ls[k]))
                        == Ok::<RuleView, ErrorKind>(p@[k]) && p@[k].wf() by {
                        if k < done.len() {
                            assert(parse_line(done[k]) == Ok::<RuleView, ErrorKind>(rules@[k]@));
                        }
                    }
                    assert(p@ =~= Seq::new(ls.len(), |k: int| parse_line(ls[k])->Ok_0));
                }
                Ok(p)
            },
            Err(e) => {
                proof {
                    let ls = lines(content@);
                    assert(ls[done.len() as int] == last);
                }
                Err(e)
            },
        }
    }

    /// Scans the rules in order and applies the first one that matches
    /// `buffer`. Returns its position and what it gave, or `None` where no
    /// rule matches.
    pub fn fire(&self, buffer: &str) -> (r: Option<(usize, RuleResult)>)
        ensures
            match r {
                Some((i, result)) => first_applicable(self@, buffer@) == Some(i as int)
                    && result@ == self@[i as int].apply(buffer@) && !(result is NoMatch),
                None => first_applicable(self@, buffer@) is None,
            },
    {
        let mut i: usize = 0;
        while i < self.0.len()
            invariant
                i <= self.0.len(),
                forall|j: int| 0 <= j < i ==> !(#[trigger] self@[j]).applies(buffer@),
            decreases self.0.len() - i,
        {
            let result = self.0[i].apply(buffer);
            match result {
                RuleResult::NoMatch => {},
                _ => {
                    proof {
                        lemma_first_applicable_unique(self@, buffer@, i as int);
                    }
                    return Some((i, result));
                },
            }
            i += 1;
        }
        proof {
            lemma_first_applicable_is_first(self@, buffer@);
        }
        None
    }
}

} // verus!
