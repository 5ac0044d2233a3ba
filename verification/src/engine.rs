//! The rewrite engine: a state machine that applies, step by step, the first
//! rule of a program that matches the buffer, until no rule matches, a
//! terminating rule fires, or a limit is hit.

use vstd::prelude::*;
use vstd::utf8::encode_utf8;
use crate::error::ErrorKind;
use crate::program::{fire, first_applicable, lemma_first_applicable_is_first, Program};
use crate::rule::{RuleResult, RuleResultView, RuleView};

verus! {

/// The limits of a run and how it is observed.
#[derive(Clone, Copy, Debug, PartialEq, Eq, Structural)]
pub struct RunConfig {
    /// How many continuing applications a run may make.
    pub max_steps: usize,
    /// How long the buffer may be when a step starts, in bytes of UTF-8.
    pub max_len: usize,
    /// Report what each step does.
    pub debug: bool,
    /// The run is paced step by step by an observer. Implies `debug`.
    pub incremental: bool,
}

/// Where a run stands.
#[derive(Clone, Debug, PartialEq, Eq)]
pub enum State {
    /// Still rewriting: the buffer, and how many continuing applications
    /// were made to reach it.
    Running(String, usize),
    /// Ended normally, with this buffer.
    Halted(String),
    /// Aborted.
    Failed(ErrorKind),
}

/// What a traced run tells its observer.
#[derive(Clone, Debug, PartialEq, Eq)]
pub enum TraceEvent {
    /// The buffer the run starts from.
    Input(String),
    /// A rule fired: the new buffer, and the rule as text.
    Applied(String, String),
    /// The run halted: the scan ended without a continuing rule firing.
    NoRuleApplied,
}

/// A state together with the events that led to it.
#[derive(Clone, Debug, PartialEq, Eq)]
pub struct Report {
    pub state: State,
    pub trace: Vec<TraceEvent>,
}

/// The mathematical value of a [`State`].
pub ghost enum StateView {
    Running(Seq<char>, nat),
    Halted(Seq<char>),
    Failed(ErrorKind),
}

/// The mathematical value of a [`TraceEvent`].
pub ghost enum TraceEventView {
    Input(Seq<char>),
    Applied(Seq<char>, Seq<char>),
    NoRuleApplied,
}

/// The mathematical value of a [`Report`].
pub ghost struct ReportView {
    pub state: StateView,
    pub trace: Seq<TraceEventView>,
}

impl View for State {
    type V = StateView;

    open spec fn view(&self) -> StateView {
        match self {
            State::Running(buffer, steps) => StateView::Running(buffer@, *steps as nat),
            State::Halted(buffer) => StateView::Halted(buffer@),
            State::Failed(kind) => StateView::Failed(*kind),
        }
    }
}

impl View for TraceEvent {
    type V = TraceEventView;

    open spec fn view(&self) -> TraceEventView {
        match self {
            TraceEvent::Input(buffer) => TraceEventView::Input(buffer@),
            TraceEvent::Applied(buffer, rule) => TraceEventView::Applied(buffer@, rule@),
            TraceEvent::NoRuleApplied => TraceEventView::NoRuleApplied,
        }
    }
}

/// The values of a list of events, in order.
pub open spec fn events_view(events: Seq<TraceEvent>) -> Seq<TraceEventView> {
    events.map_values(|e: TraceEvent| e@)
}

impl View for Report {
    type V = ReportView;

    open spec fn view(&self) -> ReportView {
        ReportView { state: self.state@, trace: events_view(self.trace@) }
    }
}

/// The length of `buffer` in bytes of its UTF-8 encoding. For text made of
/// ASCII characters this is the number of characters.
pub open spec fn byte_len(buffer: Seq<char>) -> nat {
    encode_utf8(buffer).len()
}

impl RunConfig {
    /// Events are reported: `debug` is set, or `incremental`, which implies it.
    pub open spec fn tracing(&self) -> bool {
        self.debug || self.incremental
    }

    /// A configuration with the given limits and flags. Asking for an
    /// incremental run switches `debug` on.
    pub fn new(max_steps: usize, max_len: usize, debug: bool, incremental: bool) -> (r: RunConfig)
        ensures
            r == (RunConfig { max_steps, max_len, debug: debug || incremental, incremental }),
    {
        RunConfig { max_steps, max_len, debug: debug || incremental, incremental }
    }

    /// Whether the engine reports events under this configuration.
    pub fn is_tracing(&self) -> (r: bool)
        ensures
            r == self.tracing(),
    {
        self.debug || self.incremental
    }

    /// Whether a run stops for its observer once a step has led to `state`.
    /// An incremental run does so after each continuing application, the
    /// only step that leaves a run going; no run does once it has ended.
    /// Waiting changes nothing in what the run computes.
    pub fn pauses_at(&self, state: &State) -> (r: bool)
        ensures
            r == (self.incremental && state@ is Running),
    {
        self.incremental && state.is_running()
    }
}

impl Default for RunConfig {
    /// At most 50000 steps on a buffer of at most 500 bytes, unobserved.
    fn default() -> (r: RunConfig)
        ensures
            r == (RunConfig { max_steps: 50000, max_len: 500, debug: false, incremental: false }),
    {
        RunConfig { max_steps: 50000, max_len: 500, debug: false, incremental: false }
    }
}

impl TraceEventView {
    /// The line that shows the event.
    pub open spec fn text(self) -> Seq<char> {
        match self {
            TraceEventView::Input(buffer) => "Input: "@ + buffer,
            TraceEventView::Applied(buffer, rule) => "=> "@ + buffer + " (by "@ + rule + ")"@,
            TraceEventView::NoRuleApplied => "No Rule Applied"@,
        }
    }
}

impl TraceEvent {
    /// The line that shows the event to an observer.
    pub fn to_text(&self) -> (r: String)
        ensures
            r@ == self@.text(),
    {
        match self {
            TraceEvent::Input(buffer) => {
                let mut out = String::from_str("Input: ");
                out.append(buffer.as_str());
                out
            },
            TraceEvent::Applied(buffer, rule) => {
                let mut out = String::from_str("=> ");
                out.append(buffer.as_str());
                out.append(" (by ");
                out.append(rule.as_str());
                out.append(")");
                out
            },
            TraceEvent::NoRuleApplied => String::from_str("No Rule Applied"),
        }
    }
}

/// `events` under a configuration that traces, nothing under one that does
/// not.
pub open spec fn traced(config: RunConfig, events: Seq<TraceEventView>) -> Seq<TraceEventView> {
    if config.tracing() {
        events
    } else {
        Seq::empty()
    }
}

/// The state that one step leads to. A step is taken from a running state:
/// the limits are checked, first the steps and then the length of the
/// buffer; then the first rule that matches is applied. A continuing rule
/// counts as one more step; a terminating rule, or no rule at all, halts the
/// run. A state that is not running stays as it is.
pub open spec fn next_state(rules: Seq<RuleView>, state: StateView, config: RunConfig) -> StateView {
    match state {
        StateView::Running(buffer, steps) => {
            if steps >= config.max_steps {
                StateView::Failed(ErrorKind::StepLimitExceeded)
            } else if byte_len(buffer) > config.max_len {
                StateView::Failed(ErrorKind::LengthLimitExceeded)
            } else {
                match fire(rules, buffer) {
                    RuleResultView::Continue(b) => StateView::Running(b, steps + 1),
                    RuleResultView::End(b) => StateView::Halted(b),
                    RuleResultView::NoMatch => StateView::Halted(buffer),
                }
            }
        },
        _ => state,
    }
}

/// The events that the step from `state` reports when it is traced: the
/// application of a rule, if one fired, and that the run halted, if it did.
pub open spec fn step_events(rules: Seq<RuleView>, state: StateView, config: RunConfig) -> Seq<
    TraceEventView,
> {
    match state {
        StateView::Running(buffer, steps) => {
            if steps >= config.max_steps || byte_len(buffer) > config.max_len {
                Seq::empty()
            } else {
                match first_applicable(rules, buffer) {
                    Some(i) => match rules[i].apply(buffer) {
                        RuleResultView::Continue(b) => seq![
                            TraceEventView::Applied(b, rules[i].text()),
                        ],
                        RuleResultView::End(b) => seq![
                            TraceEventView::Applied(b, rules[i].text()),
                            TraceEventView::NoRuleApplied,
                        ],
                        RuleResultView::NoMatch => seq![TraceEventView::NoRuleApplied],
                    },
                    None => seq![TraceEventView::NoRuleApplied],
                }
            }
        },
        _ => Seq::empty(),
    }
}

/// A bound on the number of steps that are left from `state`.
pub open spec fn steps_left(state: StateView, config: RunConfig) -> nat {
    match state {
        StateView::Running(_, steps) => if steps < config.max_steps {
            (config.max_steps - steps + 1) as nat
        } else {
            1
        },
        _ => 0,
    }
}

/// The state in which the run from `state` ends.
pub open spec fn final_state(rules: Seq<RuleView>, state: StateView, config: RunConfig) -> StateView
    decreases steps_left(state, config),
{
    if state is Running {
        final_state(rules, next_state(rules, state, config), config)
    } else {
        state
    }
}

/// The events that the steps from `state` to the end of the run report when
/// they are traced, in order.
pub open spec fn events_from(rules: Seq<RuleView>, state: StateView, config: RunConfig) -> Seq<
    TraceEventView,
>
    decreases steps_left(state, config),
{
    if state is Running {
        step_events(rules, state, config) + events_from(
            rules,
            next_state(rules, state, config),
            config,
        )
    } else {
        Seq::empty()
    }
}

/// The state in which a run on `input` starts.
pub open spec fn initial_state(input: Seq<char>) -> StateView {
    StateView::Running(input, 0)
}

/// What a whole run on `input` gives: the state it ends in, and the events
/// it reports, which are none unless the configuration traces.
pub open spec fn run(rules: Seq<RuleView>, input: Seq<char>, config: RunConfig) -> ReportView {
    ReportView {
        state: final_state(rules, initial_state(input), config),
        trace: traced(
            config,
            seq![TraceEventView::Input(input)] + events_from(rules, initial_state(input), config),
        ),
    }
}

impl State {
    /// The state in which a run on `input` starts: running, with no step
    /// taken.
    pub fn start(input: String) -> (r: State)
        ensures
            r@ == initial_state(input@),
    {
        State::Running(input, 0)
    }

    /// Whether the run is still going.
    pub fn is_running(&self) -> (r: bool)
        ensures
            r == (self@ is Running),
    {
        match self {
            State::Running(_, _) => true,
            _ => false,
        }
    }
}

impl Program {
    /// Takes one step from `state`. Returns the state that the step leads
    /// to and, if the configuration traces, the events of the step.
    pub fn step(&self, state: State, config: &RunConfig) -> (r: Report)
        ensures
            r@.state == next_state(self@, state@, *config),
            r@.trace == traced(*config, step_events(self@, state@, *config)),
    {
        let mut trace: Vec<TraceEvent> = Vec::new();
        match state {
            State::Running(buffer, steps) => {
                if steps >= config.max_steps {
                    Report { state: State::Failed(ErrorKind::StepLimitExceeded), trace }
                } else if buffer.as_str().as_bytes().len() > config.max_len {
                    Report { state: State::Failed(ErrorKind::LengthLimitExceeded), trace }
                } else {
                    proof {
                        lemma_first_applicable_is_first(self@, buffer@);
                    }
                    match self.fire(buffer.as_str()) {
                        Some((i, RuleResult::Continue(b))) => {
                            if config.is_tracing() {
                                trace.push(TraceEvent::Applied(b.clone(), self.0[i].to_text()));
                            }
                            Report { state: State::Running(b, steps + 1), trace }
                        },
                        Some((i, RuleResult::End(b))) => {
                            if config.is_tracing() {
                                trace.push(TraceEvent::Applied(b.clone(), self.0[i].to_text()));
                                trace.push(TraceEvent::NoRuleApplied);
                            }
                            Report { state: State::Halted(b), trace }
                        },
                        _ => {
                            if config.is_tracing() {
                                trace.push(TraceEvent::NoRuleApplied);
                            }
                            Report { state: State::Halted(buffer), trace }
                        },
                    }
                }
            },
            other => Report { state: other, trace },
        }
    }

    /// Runs the program on `input` until it halts or fails. Returns the state
    /// in which the run ended and, if the configuration traces, the events of
    /// the run.
    pub fn eval(&self, input: String, config: &RunConfig) -> (r: Report)
        ensures
            r@ == run(self@, input@, *config),
            !(r@.state is Running),
    {
        let mut trace: Vec<TraceEvent> = Vec::new();
        if config.is_tracing() {
            trace.push(TraceEvent::Input(input.clone()));
        }
        let mut state = State::start(input);
        while state.is_running()
            invariant
                final_state(self@, state@, *config) == final_state(
                    self@,
                    initial_state(input@),
                    *config,
                ),
                events_view(trace@) + traced(*config, events_from(self@, state@, *config))
                    == traced(
                    *config,
                    seq![TraceEventView::Input(input@)] + events_from(
                        self@,
                        initial_state(input@),
                        *config,
                    ),
                ),
            decreases steps_left(state@, *config),
        {
            let Report { state: next, trace: mut events } = self.step(state, config);
            state = next;
            trace.append(&mut events);
        }
        Report { state, trace }
    }
}

} // verus!
