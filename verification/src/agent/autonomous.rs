//! Working without a user: limits, and the commands that a result must pass.
use crate::error::{fail, Error};
use crate::text::{
    blank, is_blank, lemma_texts_push, maybe, number, parse_number, same, split, split_on,
    take_chars, texts, trim, trimmed,
};
use vstd::prelude::*;

verus! {

/// What the model is told when nobody answers it.
pub const DEFAULT_CONTINUATION_PROMPT: &'static str = "Continue working toward the objective. No human input is available; make reasonable assumptions, verify your work, and do not claim completion without evidence.";

/// How much of a failing command's output is kept, in characters.
pub const MAX_GATE_OUTPUT: usize = 6000;

/// The limits of work without a user.
#[derive(Debug)]
pub struct AutonomousConfig {
    pub max_continuations: usize,
    pub max_turns: usize,
    pub max_tokens: u64,
    pub timeout_ms: u64,
    pub continuation_prompt: String,
    pub gates: QualityGateConfig,
}

/// The commands that a result must pass.
#[derive(Debug)]
pub struct QualityGateConfig {
    pub commands: Vec<String>,
    pub max_retries: usize,
    pub timeout_ms: u64,
}

/// How far work without a user has come.
#[derive(Debug)]
pub struct AutonomousStatus {
    pub turns_used: usize,
    pub continuations_used: usize,
    pub tokens_used: u64,
    pub started_at_ms: u128,
    pub last_gate_failure: Option<QualityGateFailure>,
}

/// A command that a result did not pass.
#[derive(Debug)]
pub struct QualityGateFailure {
    pub command: String,
    pub attempt: usize,
    pub exit: String,
    pub output: String,
}

/// The view of a failure.
#[verifier::ext_equal]
pub struct FailureView {
    pub command: Seq<char>,
    pub attempt: usize,
    pub exit: Seq<char>,
    pub output: Seq<char>,
}

impl View for QualityGateFailure {
    type V = FailureView;

    open spec fn view(&self) -> FailureView {
        FailureView {
            command: self.command@,
            attempt: self.attempt,
            exit: self.exit@,
            output: self.output@,
        }
    }
}

impl Clone for QualityGateFailure {
    fn clone(&self) -> (r: Self)
        ensures
            r == *self,
    {
        QualityGateFailure {
            command: self.command.clone(),
            attempt: self.attempt,
            exit: self.exit.clone(),
            output: self.output.clone(),
        }
    }
}

/// Why work without a user ended.
#[derive(Debug, Clone, Copy, PartialEq, Eq, Structural)]
pub enum AutonomousStopReason {
    GatesPassed,
    MaxContinuations,
    MaxTurns,
    MaxTokens,
    Timeout,
    GateRetriesExhausted,
}

/// How work without a user ended.
#[derive(Debug)]
pub struct AutonomousReport {
    pub status: AutonomousStatus,
    pub stop_reason: AutonomousStopReason,
}

/// The view of the gates.
#[verifier::ext_equal]
pub struct GatesView {
    pub commands: Seq<Seq<char>>,
    pub max_retries: usize,
    pub timeout_ms: u64,
}

impl View for QualityGateConfig {
    type V = GatesView;

    open spec fn view(&self) -> GatesView {
        GatesView {
            commands: texts(self.commands@),
            max_retries: self.max_retries,
            timeout_ms: self.timeout_ms,
        }
    }
}

/// The view of the limits.
#[verifier::ext_equal]
pub struct LimitsView {
    pub max_continuations: usize,
    pub max_turns: usize,
    pub max_tokens: u64,
    pub timeout_ms: u64,
    pub continuation_prompt: Seq<char>,
    pub gates: GatesView,
}

impl View for AutonomousConfig {
    type V = LimitsView;

    open spec fn view(&self) -> LimitsView {
        LimitsView {
            max_continuations: self.max_continuations,
            max_turns: self.max_turns,
            max_tokens: self.max_tokens,
            timeout_ms: self.timeout_ms,
            continuation_prompt: self.continuation_prompt@,
            gates: self.gates@,
        }
    }
}

/// The gates where nothing is set: none.
pub open spec fn default_gates() -> GatesView {
    GatesView { commands: Seq::empty(), max_retries: 3, timeout_ms: 300_000 }
}

/// The limits where nothing is set.
pub open spec fn default_limits() -> LimitsView {
    LimitsView {
        max_continuations: 3,
        max_turns: 12,
        max_tokens: 80_000,
        timeout_ms: 1_800_000,
        continuation_prompt: DEFAULT_CONTINUATION_PROMPT@,
        gates: default_gates(),
    }
}

impl Default for QualityGateConfig {
    fn default() -> (r: Self)
        ensures
            r@ == default_gates(),
    {
        let out = QualityGateConfig { commands: Vec::new(), max_retries: 3, timeout_ms: 300_000 };
        assert(out@ =~= default_gates());
        out
    }
}

impl Default for AutonomousConfig {
    fn default() -> (r: Self)
        ensures
            r@ == default_limits(),
    {
        AutonomousConfig {
            max_continuations: 3,
            max_turns: 12,
            max_tokens: 80_000,
            timeout_ms: 1_800_000,
            continuation_prompt: DEFAULT_CONTINUATION_PROMPT.to_owned(),
            gates: QualityGateConfig::default(),
        }
    }
}

/// What is wrong with the gates.
pub open spec fn gates_fault(g: GatesView) -> Option<Seq<char>> {
    if g.timeout_ms == 0 {
        Some("quality gate timeout must be positive"@)
    } else if exists|i: int| 0 <= i < g.commands.len() && blank(#[trigger] g.commands[i]) {
        Some("quality gate command cannot be empty"@)
    } else {
        None
    }
}

/// What is wrong with the limits.
pub open spec fn limits_fault(l: LimitsView) -> Option<Seq<char>> {
    if l.max_turns == 0 {
        Some("autonomous max turns must be positive"@)
    } else if l.max_tokens == 0 {
        Some("autonomous max tokens must be positive"@)
    } else if l.timeout_ms == 0 {
        Some("autonomous timeout must be positive"@)
    } else {
        gates_fault(l.gates)
    }
}

impl QualityGateConfig {
    /// Checks the gates.
    pub fn validate(&self) -> (r: Result<(), Error>)
        ensures
            match gates_fault(self@) {
                None => r is Ok,
                Some(m) => r matches Err(e) && e@ == m,
            },
    {
        if self.timeout_ms == 0 {
            return Err(fail("quality gate timeout must be positive"));
        }
        let mut i: usize = 0;
        while i < self.commands.len()
            invariant
                i <= self.commands.len(),
                self.timeout_ms > 0,
                forall|j: int| 0 <= j < i ==> !blank(#[trigger] self@.commands[j]),
            decreases self.commands.len() - i,
        {
            if is_blank(self.commands[i].as_str()) {
                assert(blank(self@.commands[i as int]));
                return Err(fail("quality gate command cannot be empty"));
            }
            i += 1;
        }
        Ok(())
    }
}

/// What the environment says about work without a user, by variable.
#[derive(Debug)]
pub struct EnvironmentValues {
    pub gates: Option<String>,
    pub max_continuations: Option<String>,
    pub max_turns: Option<String>,
    pub max_tokens: Option<String>,
    pub timeout_ms: Option<String>,
    pub gate_retries: Option<String>,
    pub gate_timeout_ms: Option<String>,
}

/// A number from the environment: the default where nothing is set, or where
/// what is set is no number.
pub open spec fn setting(value: Option<Seq<char>>, limit: nat, default: nat) -> nat {
    match value {
        Some(text) => match number(text, limit) {
            Some(n) => n,
            None => default,
        },
        None => default,
    }
}

/// The parts of a list with commas between them, trimmed, without the empty
/// ones.
pub open spec fn listed(text: Seq<char>) -> Seq<Seq<char>> {
    listed_parts(split_on(text, ','))
}

/// The parts, trimmed, without the empty ones.
pub open spec fn listed_parts(parts: Seq<Seq<char>>) -> Seq<Seq<char>>
    decreases parts.len(),
{
    if parts.len() == 0 {
        Seq::empty()
    } else {
        let before = listed_parts(parts.drop_last());
        if trimmed(parts.last()).len() == 0 {
            before
        } else {
            before.push(trimmed(parts.last()))
        }
    }
}

/// The parts of a list with commas between them.
pub fn parse_list(text: &str) -> (r: Vec<String>)
    ensures
        texts(r@) == listed(text@),
{
    let parts = split(text, ',');
    let ghost all = texts(parts@);
    let mut out: Vec<String> = Vec::new();
    let mut i: usize = 0;
    assert(texts(out@) =~= listed_parts(all.take(0)));
    while i < parts.len()
        invariant
            i <= parts.len(),
            all == texts(parts@),
            texts(out@) == listed_parts(all.take(i as int)),
        decreases parts.len() - i,
    {
        let part = trim(parts[i].as_str());
        proof {
            let now = all.take(i + 1);
            assert(now.drop_last() =~= all.take(i as int));
            assert(now.last() == parts@[i as int]@);
            lemma_texts_push(out@, part);
        }
        if !part.as_str().is_empty() {
            out.push(part);
        }
        i += 1;
    }
    assert(all.take(i as int) =~= all);
    out
}

/// A number from the environment.
fn read_setting(value: &Option<String>, limit: u64, default: u64) -> (r: u64)
    requires
        default <= limit,
    ensures
        r == setting(maybe(*value), limit as nat, default as nat),
        r <= limit,
{
    match value {
        Some(text) => {
            if is_blank(text.as_str()) {
                proof {
                    lemma_blank_is_no_number(text@, limit as nat);
                }
                return default;
            }
            match parse_number(text.as_str(), limit) {
                Some(n) => n,
                None => default,
            }
        },
        None => default,
    }
}

proof fn lemma_blank_is_no_number(s: Seq<char>, limit: nat)
    requires
        blank(s),
    ensures
        number(s, limit) is None,
{
    if s.len() > 0 {
        assert(crate::text::whitespace(s[0]));
        let body = if s[0] == '+' {
            s.drop_first()
        } else {
            s
        };
        if body.len() > 0 && crate::text::all_digits(body) {
            assert('0' <= body[0] <= '9');
        }
    }
}

/// The limits that the environment sets.
pub open spec fn limits_from(env: EnvironmentValues) -> LimitsView {
    let d = default_limits();
    LimitsView {
        max_continuations: setting(
            maybe(env.max_continuations),
            usize::MAX as nat,
            d.max_continuations as nat,
        ) as usize,
        max_turns: setting(maybe(env.max_turns), usize::MAX as nat, d.max_turns as nat) as usize,
        max_tokens: setting(maybe(env.max_tokens), u64::MAX as nat, d.max_tokens as nat) as u64,
        timeout_ms: setting(maybe(env.timeout_ms), u64::MAX as nat, d.timeout_ms as nat) as u64,
        continuation_prompt: d.continuation_prompt,
        gates: GatesView {
            commands: match maybe(env.gates) {
                Some(text) => if blank(text) {
                    Seq::empty()
                } else {
                    listed(text)
                },
                None => Seq::empty(),
            },
            max_retries: setting(
                maybe(env.gate_retries),
                usize::MAX as nat,
                d.gates.max_retries as nat,
            ) as usize,
            timeout_ms: setting(
                maybe(env.gate_timeout_ms),
                u64::MAX as nat,
                d.gates.timeout_ms as nat,
            ) as u64,
        },
    }
}

impl AutonomousConfig {
    /// Checks the limits.
    pub fn validate(&self) -> (r: Result<(), Error>)
        ensures
            match limits_fault(self@) {
                None => r is Ok,
                Some(m) => r matches Err(e) && e@ == m,
            },
    {
        if self.max_turns == 0 {
            return Err(fail("autonomous max turns must be positive"));
        }
        if self.max_tokens == 0 {
            return Err(fail("autonomous max tokens must be positive"));
        }
        if self.timeout_ms == 0 {
            return Err(fail("autonomous timeout must be positive"));
        }
        self.gates.validate()
    }

    /// The limits that the environment sets.
    pub fn from_environment(env: &EnvironmentValues) -> (r: Self)
        ensures
            r@ == limits_from(*env),
    {
        let mut config = Self::default();
        if let Some(commands) = &env.gates {
            if !is_blank(commands.as_str()) {
                config.gates.commands = parse_list(commands.as_str());
            }
        }
        let widest: u64 = usize::MAX as u64;
        config.max_continuations = read_setting(
            &env.max_continuations,
            widest,
            config.max_continuations as u64,
        ) as usize;
        config.max_turns = read_setting(&env.max_turns, widest, config.max_turns as u64) as usize;
        config.max_tokens = read_setting(&env.max_tokens, u64::MAX, config.max_tokens);
        config.timeout_ms = read_setting(&env.timeout_ms, u64::MAX, config.timeout_ms);
        config.gates.max_retries = read_setting(
            &env.gate_retries,
            widest,
            config.gates.max_retries as u64,
        ) as usize;
        config.gates.timeout_ms = read_setting(
            &env.gate_timeout_ms,
            u64::MAX,
            config.gates.timeout_ms,
        );
        assert(config@ =~= limits_from(*env));
        config
    }
}

/// The limits that come with the program are accepted.
pub proof fn the_default_limits_are_valid()
    ensures
        limits_fault(default_limits()) is None,
{
}

// ---------------------------------------------------------------------------
// Running the gates.
// ---------------------------------------------------------------------------

/// What the gates say of a result.
#[derive(Debug)]
pub enum GateOutcome {
    Passed,
    Failed(QualityGateFailure),
    RetriesExhausted(QualityGateFailure),
}

/// What to do about one command.
#[derive(Debug)]
pub enum GateStep {
    /// Run it.
    Run,
    /// Go on to the next one.
    Next,
    /// The result is judged.
    Stop(GateOutcome),
}

/// Runs the gates: it remembers the last failure and what the workspace looked
/// like then, so that nothing is run again on an unchanged workspace.
#[derive(Debug)]
pub struct GateRunner {
    pub(crate) config: QualityGateConfig,
    pub(crate) previous_failure: Option<QualityGateFailure>,
    pub(crate) previous_fingerprint: Option<u64>,
}

/// The view of a runner.
#[verifier::ext_equal]
pub struct RunnerView {
    pub gates: GatesView,
    pub previous: Option<FailureView>,
    pub fingerprint: Option<u64>,
}

/// The view of a failure that may not be there.
pub open spec fn maybe_failure(f: Option<QualityGateFailure>) -> Option<FailureView> {
    match f {
        Some(failure) => Some(failure@),
        None => None,
    }
}

impl View for GateRunner {
    type V = RunnerView;

    closed spec fn view(&self) -> RunnerView {
        RunnerView {
            gates: self.config@,
            previous: maybe_failure(self.previous_failure),
            fingerprint: self.previous_fingerprint,
        }
    }
}

/// One more, held at the largest number.
pub open spec fn one_more(n: usize) -> usize {
    if n < usize::MAX {
        (n + 1) as usize
    } else {
        usize::MAX
    }
}

/// The judgement on a failure: the attempts may be used up.
pub open spec fn is_judgement(step: GateStep, failure: FailureView, max_retries: usize) -> bool {
    match step {
        GateStep::Stop(GateOutcome::RetriesExhausted(f)) => failure.attempt > max_retries && f@
            == failure,
        GateStep::Stop(GateOutcome::Failed(f)) => failure.attempt <= max_retries && f@ == failure,
        _ => false,
    }
}

/// The failure of a command that is not run again.
pub open spec fn unchanged_failure(previous: FailureView) -> FailureView {
    FailureView {
        command: previous.command,
        attempt: one_more(previous.attempt),
        exit: "not rerun: workspace unchanged"@,
        output: "The failed gate was not rerun because the workspace is unchanged."@,
    }
}

/// What is kept of a command's output.
pub open spec fn kept_output(output: Seq<char>) -> Seq<char> {
    if output.len() <= MAX_GATE_OUTPUT {
        trimmed(output)
    } else {
        output.take(MAX_GATE_OUTPUT as int) + "\n[output truncated]"@
    }
}

/// What is kept of a command's output.
pub fn truncate_output(output: &str) -> (r: String)
    ensures
        r@ == kept_output(output@),
{
    if output.unicode_len() <= MAX_GATE_OUTPUT {
        trim(output)
    } else {
        let mut out = take_chars(output, MAX_GATE_OUTPUT);
        out.append("\n[output truncated]");
        out
    }
}

impl GateRunner {
    /// A runner of gates that are in order.
    pub fn new(config: QualityGateConfig) -> (r: Result<Self, Error>)
        ensures
            match gates_fault(config@) {
                None => r matches Ok(runner) && runner@ == (RunnerView {
                    gates: config@,
                    previous: None,
                    fingerprint: None,
                }),
                Some(m) => r matches Err(e) && e@ == m,
            },
    {
        match config.validate() {
            Ok(()) => Ok(
                GateRunner { config, previous_failure: None, previous_fingerprint: None },
            ),
            Err(e) => Err(e),
        }
    }

    /// How many commands there are.
    pub fn count(&self) -> (r: usize)
        ensures
            r == self@.gates.commands.len(),
    {
        self.config.commands.len()
    }

    /// The `index`-th command.
    pub fn command(&self, index: usize) -> (r: &str)
        requires
            index < self@.gates.commands.len(),
        ensures
            r@ == self@.gates.commands[index as int],
    {
        self.config.commands[index].as_str()
    }

    /// How long a command may take, in milliseconds.
    pub fn timeout_ms(&self) -> (r: u64)
        ensures
            r == self@.gates.timeout_ms,
    {
        self.config.timeout_ms
    }

    /// What to do about the `index`-th command, on a workspace that looks like
    /// `fingerprint`. It is not run again where it failed last and nothing has
    /// changed since. Behind the last command, the result has passed.
    pub fn consider(&mut self, index: usize, fingerprint: u64) -> (r: GateStep)
        ensures
            ({
                let s = old(self)@;
                if index >= s.gates.commands.len() {
                    r == GateStep::Stop(GateOutcome::Passed) && final(self)@ == s
                } else if s.previous is Some && s.previous->0.command
                    == s.gates.commands[index as int] && s.fingerprint == Some(fingerprint) {
                    let failure = unchanged_failure(s.previous->0);
                    is_judgement(r, failure, s.gates.max_retries) && final(self)@ == (RunnerView {
                        previous: Some(failure),
                        ..s
                    })
                } else {
                    r == GateStep::Run && final(self)@ == s
                }
            }),
    {
        if index >= self.config.commands.len() {
            return GateStep::Stop(GateOutcome::Passed);
        }
        let same_command = match &self.previous_failure {
            Some(failure) => same(failure.command.as_str(), self.config.commands[index].as_str()),
            None => false,
        };
        let same_workspace = match self.previous_fingerprint {
            Some(known) => known == fingerprint,
            None => false,
        };
        if !(same_command && same_workspace) {
            return GateStep::Run;
        }
        let attempt: usize = match &self.previous_failure {
            Some(failure) => failure.attempt.saturating_add(1),
            None => 1,
        };
        let failure = QualityGateFailure {
            command: self.config.commands[index].clone(),
            attempt,
            exit: "not rerun: workspace unchanged".to_owned(),
            output: "The failed gate was not rerun because the workspace is unchanged.".to_owned(),
        };
        self.previous_failure = Some(failure.clone());
        assert(failure@ =~= unchanged_failure(old(self)@.previous->0));
        assert(self@ =~= RunnerView { previous: Some(failure@), ..old(self)@ });
        self.judge(failure)
    }

    fn judge(&self, failure: QualityGateFailure) -> (r: GateStep)
        ensures
            is_judgement(r, failure@, self@.gates.max_retries),
    {
        if failure.attempt > self.config.max_retries {
            GateStep::Stop(GateOutcome::RetriesExhausted(failure))
        } else {
            GateStep::Stop(GateOutcome::Failed(failure))
        }
    }

    /// Takes in how the `index`-th command went. `fingerprint` is what the
    /// workspace looks like after it.
    pub fn record(
        &mut self,
        index: usize,
        success: bool,
        exit: String,
        output: &str,
        fingerprint: u64,
    ) -> (r: GateStep)
        requires
            index < old(self)@.gates.commands.len(),
        ensures
            ({
                let s = old(self)@;
                let command = s.gates.commands[index as int];
                if success {
                    r == GateStep::Next && final(self)@ == (RunnerView {
                        previous: None,
                        fingerprint: None,
                        ..s
                    })
                } else {
                    let failure = FailureView {
                        command,
                        attempt: if s.previous is Some && s.previous->0.command == command {
                            one_more(s.previous->0.attempt)
                        } else {
                            1
                        },
                        exit: exit@,
                        output: kept_output(output@),
                    };
                    is_judgement(r, failure, s.gates.max_retries) && final(self)@ == (RunnerView {
                        previous: Some(failure),
                        fingerprint: Some(fingerprint),
                        ..s
                    })
                }
            }),
    {
        if success {
            self.previous_failure = None;
            self.previous_fingerprint = None;
            assert(self@ =~= RunnerView { previous: None, fingerprint: None, ..old(self)@ });
            return GateStep::Next;
        }
        let attempt: usize = match &self.previous_failure {
            Some(failure) => if same(
                failure.command.as_str(),
                self.config.commands[index].as_str(),
            ) {
                failure.attempt.saturating_add(1)
            } else {
                1
            },
            None => 1,
        };
        let failure = QualityGateFailure {
            command: self.config.commands[index].clone(),
            attempt,
            exit,
            output: truncate_output(output),
        };
        self.previous_fingerprint = Some(fingerprint);
        self.previous_failure = Some(failure.clone());
        assert(self@ =~= RunnerView {
            previous: Some(failure@),
            fingerprint: Some(fingerprint),
            ..old(self)@
        });
        self.judge(failure)
    }
}

} // verus!
