//! Log records and the throttled progress lines of long computations.

use crate::text::{decimal, decimal_text, joined, joined_text};
use vstd::prelude::*;

verus! {

pub const DEBUG: u32 = 10;

pub const INFO: u32 = 20;

/// Above every level: the threshold of a bridge that nobody listens to.
pub const DISARMED: u32 = 0xFFFF_FFFF;

/// One record on its way to the logger. The seconds that a finished phase
/// took are a double's bits.
#[derive(Debug)]
pub struct Record {
    pub target: &'static str,
    pub level: u32,
    pub message: String,
    pub phase: Option<&'static str>,
    pub seconds: Option<u64>,
}

/// A record as plain values.
#[verifier::ext_equal]
pub struct RecordModel {
    pub target: Seq<char>,
    pub level: u32,
    pub message: Seq<char>,
    pub phase: Option<Seq<char>>,
    pub seconds: Option<u64>,
}

impl View for Record {
    type V = RecordModel;

    open spec fn view(&self) -> RecordModel {
        RecordModel {
            target: self.target@,
            level: self.level,
            message: self.message@,
            phase: match self.phase {
                Some(phase) => Some(phase@),
                None => None,
            },
            seconds: self.seconds,
        }
    }
}

pub open spec fn record_view(record: Option<Record>) -> Option<RecordModel> {
    match record {
        Some(record) => Some(record@),
        None => None,
    }
}

/// The bridge that carries records to the logger: the level it listens from,
/// and whether a dispatch is registered.
#[derive(Debug, Clone, Copy, PartialEq, Eq, Structural)]
pub struct LogBridge {
    pub threshold: u32,
    pub dispatch: bool,
}

impl LogBridge {
    /// A bridge starts out disarmed and without a dispatch.
    pub fn new() -> (bridge: LogBridge)
        ensures
            bridge == (LogBridge { threshold: DISARMED, dispatch: false }),
    {
        LogBridge { threshold: DISARMED, dispatch: false }
    }

    /// Arms the bridge: records at `level` and above get delivered.
    pub fn set_log_level(&mut self, level: u32)
        ensures
            *final(self) == (LogBridge { threshold: level, ..*old(self) }),
    {
        self.threshold = level;
    }

    /// Registers the dispatch; the first registration wins. Says whether
    /// this one is it.
    pub fn install_log_dispatch(&mut self) -> (first: bool)
        ensures
            first == !old(self).dispatch,
            *final(self) == (LogBridge { dispatch: true, ..*old(self) }),
    {
        let first: bool = !self.dispatch;
        self.dispatch = true;
        first
    }

    /// Whether records of a level are delivered.
    pub open spec fn listens(&self, level: u32) -> bool {
        level >= self.threshold
    }

    /// Whether records of a level are delivered.
    pub fn enabled(&self, level: u32) -> (enabled: bool)
        ensures
            enabled == self.listens(level),
    {
        level >= self.threshold
    }

    /// Whether a record of a level is delivered: its level is listened to
    /// and a dispatch is there.
    pub open spec fn delivers(&self, level: u32) -> bool {
        self.listens(level) && self.dispatch
    }

    /// What becomes of a record: delivered or dropped.
    pub open spec fn emitted(&self, record: RecordModel) -> Option<RecordModel> {
        if self.delivers(record.level) {
            Some(record)
        } else {
            None
        }
    }

    /// Makes the record that is to be delivered, if any. The message is built
    /// last: where the record is dropped it may not even be callable.
    pub fn emit<F: FnOnce() -> String>(
        &self,
        target: &'static str,
        level: u32,
        message: F,
        phase: Option<&'static str>,
        seconds: Option<u64>,
    ) -> (delivered: Option<Record>)
        requires
            self.delivers(level) ==> call_requires(message, ()),
        ensures
            delivered is Some == self.delivers(level),
            delivered matches Some(record) ==> {
                &&& call_ensures(message, (), record.message)
                &&& record == (Record { target, level, message: record.message, phase, seconds })
            },
    {
        if !self.enabled(level) {
            return None;
        }
        if !self.dispatch {
            return None;
        }
        let message: String = message();
        Some(Record { target, level, message, phase, seconds })
    }
}

/// Hands a delivered record to the dispatch, once, and forgets what it says:
/// logging never breaks a computation. Without a record the dispatch may not
/// even be callable.
pub fn deliver<E, D: FnOnce(Record) -> Result<(), E>>(record: Option<Record>, dispatch: D)
    requires
        record matches Some(record) ==> call_requires(dispatch, (record,)),
    ensures
        record matches Some(record) ==> exists|outcome: Result<(), E>|
            call_ensures(dispatch, (record,), outcome),
{
    if let Some(record) = record {
        let outcome: Result<(), E> = dispatch(record);
        assert(call_ensures(dispatch, (record,), outcome));
    }
}

/// A disarmed bridge, and one without a dispatch, delivers no level that a
/// logger has.
pub proof fn law_disarmed_bridge_is_silent(bridge: LogBridge, record: RecordModel)
    requires
        bridge.threshold == DISARMED && record.level < DISARMED || !bridge.dispatch,
    ensures
        bridge.emitted(record) is None,
{
}

/// Times one phase: a starting line at construction, the completion at
/// `finish`.
#[derive(Debug)]
pub struct PhaseTimer {
    pub target: &'static str,
    pub phase: &'static str,
    pub done: &'static str,
}

/// The starting line of a phase.
pub open spec fn starting(target: Seq<char>, doing: Seq<char>) -> RecordModel {
    RecordModel { target, level: DEBUG, message: doing, phase: None, seconds: None }
}

/// The completion line of a phase; `seconds` is the time it took, with one
/// decimal, and `elapsed` the same time as a double's bits.
pub open spec fn completion(timer: PhaseTimer, seconds: Seq<char>, elapsed: u64) -> RecordModel {
    RecordModel {
        target: timer.target@,
        level: INFO,
        message: joined_text(seq![timer.done@, " in "@, seconds, " s"@]),
        phase: Some(timer.phase@),
        seconds: Some(elapsed),
    }
}

impl PhaseTimer {
    /// Starts a phase.
    pub fn start(
        bridge: &LogBridge,
        target: &'static str,
        phase: &'static str,
        doing: &'static str,
        done: &'static str,
    ) -> (started: (PhaseTimer, Option<Record>))
        ensures
            started.0 == (PhaseTimer { target, phase, done }),
            record_view(started.1) == bridge.emitted(starting(target@, doing@)),
    {
        let message = || -> (text: String)
            requires
                bridge.delivers(DEBUG),
            ensures
                text@ == doing@,
            { doing.to_owned() };
        let line = bridge.emit(target, DEBUG, message, None, None);
        (PhaseTimer { target, phase, done }, line)
    }

    /// Finishes a phase. `seconds` writes the time it took with one decimal;
    /// neither it nor the line is built for a record that is dropped.
    pub fn finish<F: FnOnce() -> String>(
        self,
        bridge: &LogBridge,
        seconds: F,
        elapsed: u64,
    ) -> (line: Option<Record>)
        requires
            bridge.delivers(INFO) ==> call_requires(seconds, ()),
        ensures
            line is Some == bridge.delivers(INFO),
            line matches Some(line) ==> exists|text: String|
                #[trigger] call_ensures(seconds, (), text) && line@ == completion(
                    self,
                    text@,
                    elapsed,
                ),
    {
        let done = self.done;
        let message = || -> (line: String)
            requires
                bridge.delivers(INFO),
            ensures
                exists|text: String| #[trigger]
                    call_ensures(seconds, (), text) && line@ == joined_text(
                        seq![done@, " in "@, text@, " s"@],
                    ),
            {
                let text: String = seconds();
                let pieces: [&str; 4] = [done, " in ", text.as_str(), " s"];
                assert(pieces@.map_values(|piece: &str| piece@) =~= seq![
                    done@,
                    " in "@,
                    text@,
                    " s"@,
                ]);
                joined(&pieces)
            };
        bridge.emit(self.target, INFO, message, Some(self.phase), Some(elapsed))
    }
}

/// Starts timing the decoding of an artifact's payload.
pub fn decode_timer(bridge: &LogBridge) -> (started: (PhaseTimer, Option<Record>))
    ensures
        started.0.target@ == "cafein.artifact"@,
        started.0.phase@ == "artifact.load.decode"@,
        started.0.done@ == "decoded the artifact payload"@,
        record_view(started.1) == bridge.emitted(
            starting("cafein.artifact"@, "decoding the artifact payload"@),
        ),
{
    PhaseTimer::start(
        bridge,
        "cafein.artifact",
        "artifact.load.decode",
        "decoding the artifact payload",
        "decoded the artifact payload",
    )
}

/// Runs below this many origins never tick.
pub const MIN_TOTAL: usize = 40;

/// How many progress lines a run has at most.
pub const MAX_LINES: usize = 20;

/// The origins between two progress lines.
pub open spec fn tick_step(total: usize) -> int {
    let step = (total + MAX_LINES - 1) / MAX_LINES as int;
    if step > 1 {
        step
    } else {
        1
    }
}

/// Emits throttled progress lines from a run over many origins: one line at
/// each step of about a twentieth.
#[derive(Debug, Clone, Copy, PartialEq, Eq, Structural)]
pub struct ProgressTicker {
    pub total: usize,
    pub step: usize,
    pub armed: bool,
}

/// The line after `done` of `total` origins; `seconds` is the elapsed time
/// with one decimal.
pub open spec fn progress_line(
    label: Seq<char>,
    done: nat,
    total: nat,
    seconds: Seq<char>,
) -> RecordModel {
    RecordModel {
        target: "cafein.matrix"@,
        level: INFO,
        message: joined_text(
            seq![
                label,
                " "@,
                decimal_text(done * 100 / total),
                "% ("@,
                decimal_text(done),
                "/"@,
                decimal_text(total),
                " origins, "@,
                seconds,
                " s elapsed)"@,
            ],
        ),
        phase: None,
        seconds: None,
    }
}

impl ProgressTicker {
    pub open spec fn wf(&self) -> bool {
        &&& self.step == tick_step(self.total)
        &&& self.armed ==> self.total >= MIN_TOTAL
    }

    /// Whether a run of a size ticks at all on a bridge.
    pub open spec fn ticks(bridge: LogBridge, total: usize) -> bool {
        total >= MIN_TOTAL && bridge.delivers(INFO)
    }

    /// A ticker for a run over `total` origins; disarmed when logging is off
    /// or the run is small.
    pub fn new(bridge: &LogBridge, total: usize) -> (ticker: ProgressTicker)
        ensures
            ticker.wf(),
            ticker.total == total,
            ticker.armed == ProgressTicker::ticks(*bridge, total),
    {
        let armed: bool = total >= MIN_TOTAL && bridge.enabled(INFO) && bridge.dispatch;
        let full: usize = total / MAX_LINES;
        let rest: usize = total % MAX_LINES;
        proof {
            assert(total == full * 20 + rest);
        }
        let rounded: usize = if rest > 0 {
            full + 1
        } else {
            full
        };
        let step: usize = if rounded > 1 {
            rounded
        } else {
            1
        };
        ProgressTicker { total, step, armed }
    }

    /// Whether the completion of one more origin, `done` in all, emits a
    /// line.
    pub open spec fn due(&self, bridge: LogBridge, done: nat) -> bool {
        self.armed && done % self.step as nat == 0 && bridge.delivers(INFO)
    }

    /// One more completed origin, `done` in all. `seconds` writes the elapsed
    /// time with one decimal; neither it nor the line is built unless the
    /// line is due.
    pub fn tick<F: FnOnce() -> String>(
        &self,
        bridge: &LogBridge,
        label: &str,
        done: usize,
        seconds: F,
    ) -> (line: Option<Record>)
        requires
            self.wf(),
            done <= self.total,
            self.due(*bridge, done as nat) ==> call_requires(seconds, ()),
        ensures
            line is Some == self.due(*bridge, done as nat),
            line matches Some(line) ==> exists|text: String|
                #[trigger] call_ensures(seconds, (), text) && line@ == progress_line(
                    label@,
                    done as nat,
                    self.total as nat,
                    text@,
                ),
    {
        if !self.armed || done % self.step != 0 {
            return None;
        }
        let total: usize = self.total;
        let message = || -> (line: String)
            requires
                bridge.delivers(INFO),
            ensures
                exists|text: String| #[trigger]
                    call_ensures(seconds, (), text) && line@ == progress_line(
                        label@,
                        done as nat,
                        total as nat,
                        text@,
                    ).message,
            {
                let text: String = seconds();
                progress_text(label, done, total, text.as_str())
            };
        bridge.emit("cafein.matrix", INFO, message, None, None)
    }
}

fn progress_text(label: &str, done: usize, total: usize, seconds: &str) -> (message: String)
    requires
        done <= total,
        total > 0,
    ensures
        message@ == progress_line(label@, done as nat, total as nat, seconds@).message,
{
    let percent: u128 = done as u128 * 100 / total as u128;
    proof {
        assert(done * 100 / total as int <= 100) by (nonlinear_arith)
            requires
                0 <= done <= total,
                total > 0,
        ;
    }
    let percent_text = decimal(percent as u64);
    let done_text = decimal(done as u64);
    let total_text = decimal(total as u64);
    let pieces: [&str; 10] = [
        label,
        " ",
        percent_text.as_str(),
        "% (",
        done_text.as_str(),
        "/",
        total_text.as_str(),
        " origins, ",
        seconds,
        " s elapsed)",
    ];
    assert(pieces@.map_values(|piece: &str| piece@) =~= seq![
        label@,
        " "@,
        decimal_text((done * 100 / total as int) as nat),
        "% ("@,
        decimal_text(done as nat),
        "/"@,
        decimal_text(total as nat),
        " origins, "@,
        seconds@,
        " s elapsed)"@,
    ]);
    joined(&pieces)
}

/// Whether a run carries a progress counter at all.
pub fn progress_hook(ticker: &ProgressTicker) -> (hooked: bool)
    ensures
        hooked == ticker.armed,
{
    ticker.armed
}

/// The completed counts up to `done` at which a line falls due.
pub open spec fn lines_upto(step: nat, done: nat) -> nat
    decreases done,
{
    if done == 0 {
        0
    } else {
        lines_upto(step, (done - 1) as nat) + if done % step == 0 {
            1nat
        } else {
            0
        }
    }
}

/// A run has at most twenty lines, and every run that is not empty has some
/// step within it.
pub proof fn law_lines_are_throttled(total: usize)
    requires
        total > 0,
    ensures
        lines_upto(tick_step(total) as nat, total as nat) <= MAX_LINES,
        1 <= tick_step(total) <= total,
{
    let step = tick_step(total);
    assert(step * 20 >= total);
    lemma_lines(step as nat, total as nat);
    assert(total as int / step <= 20) by (nonlinear_arith)
        requires
            step * 20 >= total,
            step >= 1,
    ;
}

proof fn lemma_lines(step: nat, done: nat)
    requires
        step > 0,
    ensures
        lines_upto(step, done) == done / step,
    decreases done,
{
    if done > 0 {
        lemma_lines(step, (done - 1) as nat);
        let q = done / step;
        let r = done % step;
        vstd::arithmetic::div_mod::lemma_fundamental_div_mod(done as int, step as int);
        if r == 0 {
            assert(q > 0 && done - 1 == step * (q - 1) + (step - 1)) by (nonlinear_arith)
                requires
                    done == step * q + r,
                    r == 0,
                    done > 0,
                    step > 0,
            ;
            vstd::arithmetic::div_mod::lemma_fundamental_div_mod_converse(
                done - 1,
                step as int,
                q - 1,
                step - 1,
            );
        } else {
            vstd::arithmetic::div_mod::lemma_fundamental_div_mod_converse(
                done - 1,
                step as int,
                q as int,
                r - 1,
            );
        }
    }
}

/// The line that reports the width a computation runs at.
pub open spec fn width_line(label: Seq<char>, width: nat) -> RecordModel {
    RecordModel {
        target: "cafein.matrix"@,
        level: DEBUG,
        message: joined_text(seq![label, " on "@, decimal_text(width), " workers"@]),
        phase: None,
        seconds: None,
    }
}

/// Reports the width a computation runs at.
pub fn report_width(bridge: &LogBridge, label: &str, width: usize) -> (line: Option<Record>)
    ensures
        record_view(line) == bridge.emitted(width_line(label@, width as nat)),
{
    let message = || -> (line: String)
        requires
            bridge.delivers(DEBUG),
        ensures
            line@ == width_line(label@, width as nat).message,
        {
            let width_text = decimal(width as u64);
            let pieces: [&str; 4] = [label, " on ", width_text.as_str(), " workers"];
            assert(pieces@.map_values(|piece: &str| piece@) =~= seq![
                label@,
                " on "@,
                decimal_text(width as nat),
                " workers"@,
            ]);
            joined(&pieces)
        };
    bridge.emit("cafein.matrix", DEBUG, message, None, None)
}

/// A bridge delivers a record exactly where it has a dispatch and the record's
/// level is at its threshold or above; what it delivers is the record itself.
pub proof fn law_bridges_deliver_from_their_threshold(bridge: LogBridge, record: RecordModel)
    ensures
        bridge.delivers(record.level) <==> bridge.dispatch && record.level >= bridge.threshold,
        bridge.emitted(record) is Some <==> bridge.dispatch && record.level >= bridge.threshold,
        bridge.emitted(record) matches Some(delivered) ==> delivered == record,
{
}

/// A phase starts with a debug line of what it does and ends with an info line
/// that bears its name and the time it took.
pub proof fn law_phases_end_with_their_time(
    timer: PhaseTimer,
    doing: Seq<char>,
    seconds: Seq<char>,
    elapsed: u64,
)
    ensures
        starting(timer.target@, doing).level == 10,
        starting(timer.target@, doing).message == doing,
        starting(timer.target@, doing).seconds is None,
        starting(timer.target@, doing).phase is None,
        starting(timer.target@, doing).target == timer.target@,
        completion(timer, seconds, elapsed).level == 20,
        completion(timer, seconds, elapsed).phase == Some(timer.phase@),
        completion(timer, seconds, elapsed).seconds == Some(elapsed),
        completion(timer, seconds, elapsed).target == timer.target@,
        completion(timer, seconds, elapsed).message == timer.done@ + " in "@ + seconds + " s"@,
{
    reveal_with_fuel(joined_text, 5);
    let pieces = seq![timer.done@, " in "@, seconds, " s"@];
    assert(pieces.drop_last() =~= seq![timer.done@, " in "@, seconds]);
    assert(seq![timer.done@, " in "@, seconds].drop_last() =~= seq![timer.done@, " in "@]);
    assert(seq![timer.done@, " in "@].drop_last() =~= seq![timer.done@]);
    assert(seq![timer.done@].drop_last() =~= Seq::<Seq<char>>::empty());
    assert(joined_text(pieces) =~= timer.done@ + " in "@ + seconds + " s"@);
}

/// The step between two lines is the least that keeps a run within twenty
/// lines.
pub proof fn law_steps_are_the_least(total: usize)
    requires
        total > 0,
    ensures
        20 * tick_step(total) >= total,
        20 * (tick_step(total) - 1) < total,
        tick_step(total) >= 1,
{
}

/// A run ticks exactly where it has forty origins and its lines are delivered,
/// and then at every whole step.
pub proof fn law_runs_tick_at_whole_steps(
    bridge: LogBridge,
    ticker: ProgressTicker,
    done: nat,
)
    ensures
        ProgressTicker::ticks(bridge, ticker.total) <==> ticker.total >= 40 && bridge.dispatch && 20
            >= bridge.threshold,
        ticker.due(bridge, done) <==> ticker.armed && done % (ticker.step as nat) == 0
            && bridge.dispatch && 20 >= bridge.threshold,
{
}

/// Progress and width lines are told for matrices, progress as information and
/// width for debugging.
pub proof fn law_matrix_lines_have_their_level(
    label: Seq<char>,
    done: nat,
    total: nat,
    seconds: Seq<char>,
    width: nat,
)
    ensures
        progress_line(label, done, total, seconds).level == 20,
        width_line(label, width).level == 10,
        progress_line(label, done, total, seconds).target == width_line(label, width).target,
        progress_line(label, done, total, seconds).phase is None,
        width_line(label, width).phase is None,
        width_line(label, width).message == label + " on "@ + decimal_text(width) + " workers"@,
{
    reveal_with_fuel(joined_text, 5);
    let number = decimal_text(width);
    let pieces = seq![label, " on "@, number, " workers"@];
    assert(pieces.drop_last() =~= seq![label, " on "@, number]);
    assert(seq![label, " on "@, number].drop_last() =~= seq![label, " on "@]);
    assert(seq![label, " on "@].drop_last() =~= seq![label]);
    assert(seq![label].drop_last() =~= Seq::<Seq<char>>::empty());
    assert(joined_text(pieces) =~= label + " on "@ + number + " workers"@);
}

} // verus!
