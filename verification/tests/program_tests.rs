use mao::error::ErrorKind;
use mao::program::Program;
use mao::rule::{Rule, RuleResult};

fn s(text: &str) -> String {
    text.to_string()
}

#[test]
fn parse_program_gives_one_rule_per_line_in_order() {
    let program = Program::parse(s("a:b\nnote\nc::d")).unwrap();
    assert_eq!(
        program,
        Program(vec![
            Rule::Continuing(s("a"), s("b")),
            Rule::Comment(s("note")),
            Rule::Terminating(s("c"), s("d")),
        ])
    );
}

#[test]
fn parse_program_keeps_blank_lines_as_empty_comments() {
    let program = Program::parse(s("a:b\n\nc:d\n")).unwrap();
    assert_eq!(
        program.0,
        vec![
            Rule::Continuing(s("a"), s("b")),
            Rule::Comment(s("")),
            Rule::Continuing(s("c"), s("d")),
            Rule::Comment(s("")),
        ]
    );
}

#[test]
fn parse_program_of_empty_text_is_one_empty_comment() {
    assert_eq!(Program::parse(s("")), Ok(Program(vec![Rule::Comment(s(""))])));
}

#[test]
fn parse_program_of_line_feeds_only() {
    assert_eq!(
        Program::parse(s("\n\n")),
        Ok(Program(vec![Rule::Comment(s("")), Rule::Comment(s("")), Rule::Comment(s(""))]))
    );
}

#[test]
fn parse_program_single_line() {
    assert_eq!(Program::parse(s("a:b")), Ok(Program(vec![Rule::Continuing(s("a"), s("b"))])));
}

#[test]
fn parse_program_fails_where_any_line_fails() {
    assert_eq!(Program::parse(s("a:a")), Err(ErrorKind::PatternError));
    assert_eq!(Program::parse(s("a:b\nc:c\nd:e")), Err(ErrorKind::PatternError));
    assert_eq!(Program::parse(s("a:b\nd:e\n:x")), Err(ErrorKind::PatternError));
    assert_eq!(Program::parse(s("::x\na:b")), Err(ErrorKind::PatternError));
}

#[test]
fn parse_program_splits_on_line_feed_only() {
    assert_eq!(
        Program::parse(s("a:b\r\nc:d")),
        Ok(Program(vec![Rule::Continuing(s("a"), s("b\r")), Rule::Continuing(s("c"), s("d"))]))
    );
}

#[test]
fn parse_program_handles_text_beyond_ascii() {
    assert_eq!(
        Program::parse(s("\u{e9}:e\n\u{1f600}::\u{fc}\n\u{e9}t\u{e9}")),
        Ok(Program(vec![
            Rule::Continuing(s("\u{e9}"), s("e")),
            Rule::Terminating(s("\u{1f600}"), s("\u{fc}")),
            Rule::Comment(s("\u{e9}t\u{e9}")),
        ]))
    );
}

#[test]
fn fire_applies_the_first_rule_that_matches() {
    let program = Program::parse(s("a:1\nb:2")).unwrap();
    assert_eq!(program.fire("ba"), Some((0, RuleResult::Continue(s("b1")))));
    assert_eq!(program.fire("bb"), Some((1, RuleResult::Continue(s("2b")))));
}

#[test]
fn fire_earlier_rule_wins_over_later_rule() {
    let program = Program(vec![
        Rule::Comment(s("b")),
        Rule::Continuing(s("zz"), s("-")),
        Rule::Terminating(s("b"), s("B")),
        Rule::Continuing(s("a"), s("A")),
    ]);
    assert_eq!(program.fire("ab"), Some((2, RuleResult::End(s("aB")))));
}

#[test]
fn fire_gives_none_where_no_rule_matches() {
    let program = Program::parse(s("a:1\nnote\nb::2")).unwrap();
    assert_eq!(program.fire("ccc"), None);
    assert_eq!(program.fire(""), None);
    assert_eq!(Program(vec![]).fire("abc"), None);
}
