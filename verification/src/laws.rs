//! Laws of the engine: what holds of every rule, program, buffer and
//! configuration.

use vstd::prelude::*;
use vstd::utf8::{is_ascii_chars, is_ascii_chars_encode_utf8};
use crate::engine::{
    byte_len, final_state, initial_state, next_state, run, steps_left, RunConfig, StateView,
    TraceEventView,
};
use crate::error::ErrorKind;
use crate::program::{
    all_wf, compile, fire, first_applicable, is_first_applicable, lemma_first_applicable_exists,
    lemma_first_applicable_is_first, lemma_first_applicable_unique, lemma_lines_push, lines,
};
use crate::rule::{lemma_applies_iff_pattern_occurs, parse_line, RuleResultView, RuleView};
use crate::text::{
    is_leftmost, leftmost, lemma_leftmost_is_leftmost, lemma_leftmost_unique, occurs_at, splice,
};

verus! {

/// A rule whose pattern is absent from the buffer does not match it.
pub proof fn law_absent_pattern_no_match(rule: RuleView, buffer: Seq<char>)
    requires
        !rule.pattern_occurs_in(buffer),
    ensures
        rule.apply(buffer) is NoMatch,
{
    lemma_applies_iff_pattern_occurs(rule, buffer);
}

/// Where the pattern of no rule occurs in the buffer, no rule fires, and a
/// run that is within its limits halts with the buffer as it was.
pub proof fn law_absent_patterns_halt(
    rules: Seq<RuleView>,
    buffer: Seq<char>,
    steps: nat,
    config: RunConfig,
)
    requires
        forall|k: int| 0 <= k < rules.len() ==> !(#[trigger] rules[k]).pattern_occurs_in(buffer),
    ensures
        fire(rules, buffer) is NoMatch,
        steps < config.max_steps && byte_len(buffer) <= config.max_len ==> {
            &&& next_state(rules, StateView::Running(buffer, steps), config) == StateView::Halted(
                buffer,
            )
            &&& final_state(rules, StateView::Running(buffer, steps), config) == StateView::Halted(
                buffer,
            )
        },
{
    lemma_first_applicable_is_first(rules, buffer);
    if let Some(i) = first_applicable(rules, buffer) {
        lemma_applies_iff_pattern_occurs(rules[i], buffer);
    }
    let state = StateView::Running(buffer, steps);
    let next = next_state(rules, state, config);
    assert(final_state(rules, state, config) == final_state(rules, next, config));
}

/// Rule priority. Where the patterns of two rules both occur in the buffer,
/// the rule that fires stands at or before the earlier of the two, so the
/// later one does not fire. Where no rule before the earlier one matches,
/// the earlier one is the rule that fires.
pub proof fn law_rule_priority(rules: Seq<RuleView>, buffer: Seq<char>, i: int, j: int)
    requires
        0 <= i < j < rules.len(),
        rules[i].pattern_occurs_in(buffer),
        rules[j].pattern_occurs_in(buffer),
    ensures
        ({
            let k = first_applicable(rules, buffer)->Some_0;
            &&& first_applicable(rules, buffer) is Some
            &&& 0 <= k <= i
            &&& k != j
            &&& fire(rules, buffer) == rules[k].apply(buffer)
            &&& (forall|m: int| 0 <= m < i ==> !(#[trigger] rules[m]).pattern_occurs_in(buffer))
                ==> k == i
        }),
{
    lemma_applies_iff_pattern_occurs(rules[i], buffer);
    lemma_first_applicable_exists(rules, buffer, i);
    let k = choose|k: int| 0 <= k <= i && is_first_applicable(rules, buffer, k);
    lemma_first_applicable_unique(rules, buffer, k);
    if forall|m: int| 0 <= m < i ==> !(#[trigger] rules[m]).pattern_occurs_in(buffer) {
        if k < i {
            lemma_applies_iff_pattern_occurs(rules[k], buffer);
        }
    }
}

/// Leftmost match. Where the pattern of a rule occurs in the buffer at `p`
/// and again at `q`, the rule rewrites one occurrence only, the leftmost,
/// which starts at or before `p`. What stands before it and what stands
/// after it are kept as they were, so an occurrence at `q` that does not
/// overlap the rewritten one is still there, moved by the difference in
/// length between replacement and pattern.
pub proof fn law_leftmost_match(rule: RuleView, buffer: Seq<char>, p: int, q: int)
    requires
        rule.pattern() is Some,
        occurs_at(buffer, rule.pattern()->Some_0, p),
        occurs_at(buffer, rule.pattern()->Some_0, q),
        p < q,
    ensures
        ({
            let pat = rule.pattern()->Some_0;
            let rep = rule.replacement()->Some_0;
            let k = leftmost(buffer, pat)->Some_0;
            let b = rule.apply(buffer).buffer()->Some_0;
            &&& leftmost(buffer, pat) is Some
            &&& 0 <= k <= p
            &&& is_leftmost(buffer, pat, p) ==> k == p
            &&& rule.apply(buffer).buffer() is Some
            &&& b == buffer.subrange(0, k) + rep + buffer.subrange(
                k + pat.len(),
                buffer.len() as int,
            )
            &&& b.len() == buffer.len() - pat.len() + rep.len()
            &&& b.subrange(0, k) == buffer.subrange(0, k)
            &&& b.subrange(k + rep.len(), b.len() as int) == buffer.subrange(
                k + pat.len(),
                buffer.len() as int,
            )
            &&& k + pat.len() <= q ==> occurs_at(b, pat, q - pat.len() + rep.len())
        }),
{
    let pat = rule.pattern()->Some_0;
    let rep = rule.replacement()->Some_0;
    lemma_leftmost_is_leftmost(buffer, pat);
    let k = leftmost(buffer, pat)->Some_0;
    if is_leftmost(buffer, pat, p) {
        lemma_leftmost_unique(buffer, pat, p);
    }
    let b = splice(buffer, k, pat.len() as int, rep);
    if k + pat.len() <= q {
        let shifted = q - pat.len() + rep.len();
        assert(b.subrange(shifted, shifted + pat.len()) =~= buffer.subrange(q, q + pat.len()));
    }
}

/// A terminating rule that fires ends the run with that one application,
/// whatever rules stand after it and however many steps are left.
pub proof fn law_terminating_rule_halts(
    rules: Seq<RuleView>,
    buffer: Seq<char>,
    steps: nat,
    config: RunConfig,
    i: int,
)
    requires
        steps < config.max_steps,
        byte_len(buffer) <= config.max_len,
        first_applicable(rules, buffer) == Some(i),
        rules[i] is Terminating,
    ensures
        rules[i].apply(buffer) matches RuleResultView::End(b) && next_state(
            rules,
            StateView::Running(buffer, steps),
            config,
        ) == StateView::Halted(b) && final_state(rules, StateView::Running(buffer, steps), config)
            == StateView::Halted(b),
{
    lemma_first_applicable_is_first(rules, buffer);
    let state = StateView::Running(buffer, steps);
    let next = next_state(rules, state, config);
    assert(final_state(rules, state, config) == final_state(rules, next, config));
}

/// The state after `k` steps from `state`.
pub open spec fn state_after(
    rules: Seq<RuleView>,
    state: StateView,
    config: RunConfig,
    k: nat,
) -> StateView
    decreases k,
{
    if k == 0 {
        state
    } else {
        next_state(rules, state_after(rules, state, config, (k - 1) as nat), config)
    }
}

/// Taking `k + 1` steps is taking one step and then `k` more.
pub proof fn lemma_state_after_shift(
    rules: Seq<RuleView>,
    state: StateView,
    config: RunConfig,
    k: nat,
)
    ensures
        state_after(rules, state, config, k + 1) == state_after(
            rules,
            next_state(rules, state, config),
            config,
            k,
        ),
    decreases k,
{
    if k > 0 {
        lemma_state_after_shift(rules, state, config, (k - 1) as nat);
        assert(state_after(rules, state, config, k + 1) == next_state(
            rules,
            state_after(rules, state, config, k),
            config,
        ));
    }
}

/// A run that has ended stays where it is.
pub proof fn lemma_state_after_ended(
    rules: Seq<RuleView>,
    state: StateView,
    config: RunConfig,
    k: nat,
)
    requires
        !(state is Running),
    ensures
        state_after(rules, state, config, k) == state,
    decreases k,
{
    if k > 0 {
        lemma_state_after_ended(rules, state, config, (k - 1) as nat);
    }
}

/// Every run ends: the final state is halted or failed, never running.
pub proof fn law_run_ends(rules: Seq<RuleView>, state: StateView, config: RunConfig)
    ensures
        !(final_state(rules, state, config) is Running),
    decreases steps_left(state, config),
{
    if state is Running {
        law_run_ends(rules, next_state(rules, state, config), config);
    }
}

/// A step from a running state either makes one continuing application, and
/// then counts one step more, or ends the run; and it fails for want of
/// steps only at the limit.
pub proof fn law_step_counts(
    rules: Seq<RuleView>,
    buffer: Seq<char>,
    steps: nat,
    config: RunConfig,
)
    ensures
        match next_state(rules, StateView::Running(buffer, steps), config) {
            StateView::Running(b, n) => n == steps + 1 && steps < config.max_steps && fire(
                rules,
                buffer,
            ) == RuleResultView::Continue(b),
            StateView::Failed(kind) => (kind == ErrorKind::StepLimitExceeded <==> steps
                >= config.max_steps) && (kind == ErrorKind::LengthLimitExceeded <==> steps
                < config.max_steps && byte_len(buffer) > config.max_len),
            StateView::Halted(b) => steps < config.max_steps,
        },
{
}

/// After `k` steps a run that is still going has made exactly `k`
/// continuing applications.
pub proof fn law_steps_counted(
    rules: Seq<RuleView>,
    input: Seq<char>,
    config: RunConfig,
    k: nat,
)
    ensures
        state_after(rules, initial_state(input), config, k) matches StateView::Running(_, n) ==> n
            == k,
    decreases k,
{
    if k > 0 {
        law_steps_counted(rules, input, config, (k - 1) as nat);
        let before = state_after(rules, initial_state(input), config, (k - 1) as nat);
        if let StateView::Running(b, n) = before {
            law_step_counts(rules, b, n, config);
        }
    }
}

/// From a state that has made `steps` continuing applications, the run fails
/// for want of steps exactly when it is still going after the steps that
/// were left.
pub proof fn lemma_step_limit_from(
    rules: Seq<RuleView>,
    buffer: Seq<char>,
    steps: nat,
    config: RunConfig,
)
    requires
        steps <= config.max_steps,
    ensures
        final_state(rules, StateView::Running(buffer, steps), config) == StateView::Failed(
            ErrorKind::StepLimitExceeded,
        ) <==> state_after(
            rules,
            StateView::Running(buffer, steps),
            config,
            (config.max_steps - steps) as nat,
        ) is Running,
    decreases config.max_steps - steps,
{
    let state = StateView::Running(buffer, steps);
    let next = next_state(rules, state, config);
    assert(final_state(rules, state, config) == final_state(rules, next, config));
    if steps < config.max_steps {
        let left = (config.max_steps - steps - 1) as nat;
        lemma_state_after_shift(rules, state, config, left);
        law_step_counts(rules, buffer, steps, config);
        match next {
            StateView::Running(b, n) => {
                lemma_step_limit_from(rules, b, n, config);
            },
            _ => {
                lemma_state_after_ended(rules, next, config, left);
            },
        }
    }
}

/// Step accounting. A run fails with `StepLimitExceeded` if and only if it
/// makes as many continuing applications as the configuration allows
/// without halting: it is still running after that many steps.
pub proof fn law_step_limit(rules: Seq<RuleView>, input: Seq<char>, config: RunConfig)
    ensures
        final_state(rules, initial_state(input), config) == StateView::Failed(
            ErrorKind::StepLimitExceeded,
        ) <==> state_after(rules, initial_state(input), config, config.max_steps as nat)
            is Running,
{
    lemma_step_limit_from(rules, input, 0, config);
}

/// The buffer that a run has before it after `k` steps is longer than the
/// configuration allows.
pub open spec fn too_long_after(
    rules: Seq<RuleView>,
    state: StateView,
    config: RunConfig,
    k: nat,
) -> bool {
    state_after(rules, state, config, k) matches StateView::Running(b, _) && byte_len(b)
        > config.max_len
}

/// From a state that has made `steps` continuing applications, the run fails
/// for length exactly when, within the steps that are left, it comes to a
/// buffer that is too long.
pub proof fn lemma_length_limit_from(
    rules: Seq<RuleView>,
    buffer: Seq<char>,
    steps: nat,
    config: RunConfig,
)
    requires
        steps <= config.max_steps,
    ensures
        final_state(rules, StateView::Running(buffer, steps), config) == StateView::Failed(
            ErrorKind::LengthLimitExceeded,
        ) <==> exists|k: nat|
            k < config.max_steps - steps && #[trigger] too_long_after(
                rules,
                StateView::Running(buffer, steps),
                config,
                k,
            ),
    decreases config.max_steps - steps,
{
    let state = StateView::Running(buffer, steps);
    let next = next_state(rules, state, config);
    law_step_counts(rules, buffer, steps, config);
    if steps < config.max_steps && byte_len(buffer) > config.max_len {
        assert(too_long_after(rules, state, config, 0));
    } else if steps < config.max_steps {
        match next {
            StateView::Running(b, n) => {
                lemma_length_limit_from(rules, b, n, config);
                if final_state(rules, next, config) == StateView::Failed(
                    ErrorKind::LengthLimitExceeded,
                ) {
                    let k = choose|k: nat|
                        k < config.max_steps - n && #[trigger] too_long_after(
                            rules,
                            next,
                            config,
                            k,
                        );
                    lemma_state_after_shift(rules, state, config, k);
                    assert(too_long_after(rules, state, config, k + 1));
                }
                assert forall|k: nat|
                    k < config.max_steps - steps && #[trigger] too_long_after(
                        rules,
                        state,
                        config,
                        k,
                    ) implies final_state(rules, next, config) == StateView::Failed(
                    ErrorKind::LengthLimitExceeded,
                ) by {
                    lemma_state_after_shift(rules, state, config, (k - 1) as nat);
                    assert(too_long_after(rules, next, config, (k - 1) as nat));
                }
            },
            _ => {
                assert forall|k: nat|
                    k < config.max_steps - steps implies !#[trigger] too_long_after(
                    rules,
                    state,
                    config,
                    k,
                ) by {
                    if k > 0 {
                        lemma_state_after_shift(rules, state, config, (k - 1) as nat);
                        lemma_state_after_ended(rules, next, config, (k - 1) as nat);
                    }
                }
            },
        }
    }
}

/// Length accounting. A run fails with `LengthLimitExceeded` if and only if,
/// before its steps run out, it comes to a buffer that is longer than the
/// configuration allows.
pub proof fn law_length_limit(rules: Seq<RuleView>, input: Seq<char>, config: RunConfig)
    ensures
        final_state(rules, initial_state(input), config) == StateView::Failed(
            ErrorKind::LengthLimitExceeded,
        ) <==> exists|k: nat|
            k < config.max_steps && #[trigger] too_long_after(
                rules,
                initial_state(input),
                config,
                k,
            ),
{
    lemma_length_limit_from(rules, input, 0, config);
}

/// A run fails only on a limit: for want of steps or for length.
pub proof fn law_run_fails_on_limits_only(
    rules: Seq<RuleView>,
    buffer: Seq<char>,
    steps: nat,
    config: RunConfig,
)
    ensures
        final_state(rules, StateView::Running(buffer, steps), config) matches StateView::Failed(
            kind,
        ) ==> kind == ErrorKind::StepLimitExceeded || kind == ErrorKind::LengthLimitExceeded,
    decreases steps_left(StateView::Running(buffer, steps), config),
{
    let state = StateView::Running(buffer, steps);
    let next = next_state(rules, state, config);
    assert(final_state(rules, state, config) == final_state(rules, next, config));
    match next {
        StateView::Running(b, n) => {
            law_run_fails_on_limits_only(rules, b, n, config);
        },
        _ => {},
    }
}

/// Observing a run does not change it: two configurations with the same
/// limits lead to the same final state, whatever their flags.
pub proof fn law_flags_do_not_matter(
    rules: Seq<RuleView>,
    state: StateView,
    a: RunConfig,
    b: RunConfig,
)
    requires
        a.max_steps == b.max_steps,
        a.max_len == b.max_len,
    ensures
        final_state(rules, state, a) == final_state(rules, state, b),
    decreases steps_left(state, a),
{
    if state is Running {
        law_flags_do_not_matter(rules, next_state(rules, state, a), a, b);
    }
}

/// The lines put together again, with a line feed between each two.
pub open spec fn join_lines(ls: Seq<Seq<char>>) -> Seq<char>
    decreases ls.len(),
{
    if ls.len() == 0 {
        Seq::empty()
    } else if ls.len() == 1 {
        ls[0]
    } else {
        join_lines(ls.drop_last()) + seq!['\n'] + ls.last()
    }
}

/// Splitting a text into lines loses nothing and leaves no line feed inside
/// a line: the lines, joined by line feeds, are the text.
pub proof fn law_lines_join(source: Seq<char>)
    ensures
        lines(source).len() >= 1,
        join_lines(lines(source)) == source,
        forall|k: int, i: int|
            0 <= k < lines(source).len() && 0 <= i < lines(source)[k].len() ==> lines(
                source,
            )[k][i] != '\n',
    decreases source.len(),
{
    if source.len() > 0 {
        let front = source.drop_last();
        let c = source.last();
        law_lines_join(front);
        lemma_lines_push(front, c);
        let before = lines(front);
        let after = lines(source);
        if c == '\n' {
            assert(after.drop_last() =~= before);
        } else if before.len() > 1 {
            assert(after.drop_last() =~= before.drop_last());
        }
    }
}

/// A text without a line feed is one line.
pub proof fn lemma_lines_single(line: Seq<char>)
    requires
        forall|i: int| 0 <= i < line.len() ==> line[i] != '\n',
    ensures
        lines(line) == seq![line],
    decreases line.len(),
{
    if line.len() == 0 {
        assert(line =~= Seq::<char>::empty());
    } else {
        let shorter = line.drop_last();
        lemma_lines_single(shorter);
        lemma_lines_push(shorter, line.last());
        assert(shorter.push(line.last()) =~= line);
    }
}

/// A line without a line feed, put after a text and a line feed, is one more
/// line of the whole.
pub proof fn lemma_lines_append(front: Seq<char>, line: Seq<char>)
    requires
        forall|i: int| 0 <= i < line.len() ==> line[i] != '\n',
    ensures
        lines(front + seq!['\n'] + line) == lines(front).push(line),
    decreases line.len(),
{
    if line.len() == 0 {
        lemma_lines_push(front, '\n');
        assert(line =~= Seq::<char>::empty());
        assert(front + seq!['\n'] + line =~= front.push('\n'));
    } else {
        let shorter = line.drop_last();
        let whole = front + seq!['\n'] + shorter;
        lemma_lines_append(front, shorter);
        lemma_lines_push(whole, line.last());
        assert(shorter.push(line.last()) =~= line);
    }
}

/// Splitting is the only way to cut a text at its line feeds: whatever
/// lines without line feeds are joined, splitting the result gives them
/// back.
pub proof fn law_lines_of_joined(ls: Seq<Seq<char>>)
    requires
        ls.len() >= 1,
        forall|k: int, i: int| 0 <= k < ls.len() && 0 <= i < ls[k].len() ==> ls[k][i] != '\n',
    ensures
        lines(join_lines(ls)) == ls,
    decreases ls.len(),
{
    if ls.len() == 1 {
        lemma_lines_single(ls[0]);
    } else {
        law_lines_of_joined(ls.drop_last());
        lemma_lines_append(join_lines(ls.drop_last()), ls.last());
    }
}

/// What compiles is well formed: a line that is accepted gives a rule whose
/// pattern is not degenerate, and a source that is accepted gives one such
/// rule for each of its lines.
pub proof fn law_compiled_rules_well_formed(source: Seq<char>, line: Seq<char>)
    ensures
        parse_line(line) matches Ok(rule) ==> rule.wf(),
        parse_line(line) matches Err(kind) ==> kind == ErrorKind::PatternError,
        compile(source) matches Ok(rules) ==> rules.len() == lines(source).len() && all_wf(rules),
        compile(source) matches Err(kind) ==> kind == ErrorKind::PatternError,
{
    if let Ok(rules) = compile(source) {
        assert forall|k: int| 0 <= k < rules.len() implies (#[trigger] rules[k]).wf() by {
            assert(parse_line(lines(source)[k]) is Ok);
        }
    }
}

/// A well-formed continuing rule that matches changes the buffer.
pub proof fn law_continuing_rule_makes_progress(rule: RuleView, buffer: Seq<char>)
    requires
        rule is Continuing,
        rule.wf(),
        rule.applies(buffer),
    ensures
        rule.apply(buffer) matches RuleResultView::Continue(b) && b != buffer,
{
    let pat = rule.pattern()->Some_0;
    let rep = rule.replacement()->Some_0;
    lemma_leftmost_is_leftmost(buffer, pat);
    let k = leftmost(buffer, pat)->Some_0;
    let b = splice(buffer, k, pat.len() as int, rep);
    if b == buffer {
        assert(b.subrange(k, k + rep.len()) =~= rep);
    }
}

/// Stepping reaches the end of the run: once as many steps are taken as were
/// left, the state is the final state, and further steps do not move it.
pub proof fn law_steps_reach_final_state(
    rules: Seq<RuleView>,
    state: StateView,
    config: RunConfig,
    k: nat,
)
    requires
        k >= steps_left(state, config),
    ensures
        state_after(rules, state, config, k) == final_state(rules, state, config),
    decreases k,
{
    if state is Running {
        lemma_state_after_shift(rules, state, config, (k - 1) as nat);
        law_steps_reach_final_state(
            rules,
            next_state(rules, state, config),
            config,
            (k - 1) as nat,
        );
    } else {
        lemma_state_after_ended(rules, state, config, k);
    }
}

/// A run reports events only when the configuration traces, and then the
/// first event is the input.
pub proof fn law_trace_only_when_tracing(
    rules: Seq<RuleView>,
    input: Seq<char>,
    config: RunConfig,
)
    ensures
        !config.tracing() ==> run(rules, input, config).trace.len() == 0,
        config.tracing() ==> run(rules, input, config).trace.len() > 0 && run(
            rules,
            input,
            config,
        ).trace[0] == TraceEventView::Input(input),
{
}

/// The length that the engine holds against the limit is at least one and at
/// most four for each character, and exactly one for each character of a
/// buffer of ASCII.
pub proof fn law_byte_len_bounds(buffer: Seq<char>)
    ensures
        buffer.len() <= byte_len(buffer) <= 4 * buffer.len(),
        is_ascii_chars(buffer) ==> byte_len(buffer) == buffer.len(),
    decreases buffer.len(),
{
    if buffer.len() > 0 {
        law_byte_len_bounds(buffer.drop_first());
    }
    if is_ascii_chars(buffer) {
        is_ascii_chars_encode_utf8(buffer);
    }
}

} // verus!
