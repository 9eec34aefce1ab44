//! The state that one telemetry link feeds: a window per channel, the event
//! log and the counters, and the single step that a read outcome causes.

use crate::number::{spec_parse_i16, ParseError};
use crate::protocol::{
    classify, rejection, spec_classify, spec_rejection, Channel, Decision, DecisionView,
};
use crate::window::{History, Window};
use vstd::prelude::*;

verus! {

/// The capacity of every window of a connection.
pub const WINDOW_SIZE: usize = 256;

/// How serious a logged event is.
#[derive(Clone, Copy, Debug, PartialEq, Eq, Structural)]
pub enum LogLevel {
    /// A line was understood and applied.
    Info,
    /// The sender reported a fault.
    Warn,
    /// A line was malformed, or reading failed.
    Error,
}

/// One entry of the event log.
#[derive(Debug, PartialEq, Eq)]
pub struct EventEntry {
    /// How many lines had been received when the entry was logged.
    pub sequence: u128,
    /// What happened.
    pub message: String,
    /// How serious it is.
    pub severity: LogLevel,
}

/// An `EventEntry` with its message as a sequence of characters.
#[verifier::ext_equal]
pub struct EventView {
    pub sequence: nat,
    pub message: Seq<char>,
    pub severity: LogLevel,
}

impl View for EventEntry {
    type V = EventView;

    open spec fn view(&self) -> EventView {
        EventView {
            sequence: self.sequence as nat,
            message: self.message@,
            severity: self.severity,
        }
    }
}

/// The views of `entries`, in order.
pub open spec fn views_of(entries: Seq<EventEntry>) -> Seq<EventView> {
    Seq::new(entries.len(), |i: int| entries[i]@)
}

/// How many of `events` are of the given severity.
pub open spec fn count_of(events: Seq<EventView>, severity: LogLevel) -> nat
    decreases events.len(),
{
    if events.len() == 0 {
        0
    } else {
        count_of(events.drop_last(), severity) + if events.last().severity == severity {
            1nat
        } else {
            0nat
        }
    }
}

/// How an attempt to read a line ended.
#[derive(Debug, PartialEq, Eq)]
pub enum ReadOutcome {
    /// A line arrived.
    Line(String),
    /// The source answered, but with no line.
    NoLine,
    /// Nothing arrived in time.
    TimedOut,
    /// Reading failed for the reason given.
    IoFailure(String),
}

/// A `ReadOutcome` with its texts as sequences of characters.
pub enum ReadOutcomeView {
    Line(Seq<char>),
    NoLine,
    TimedOut,
    IoFailure(Seq<char>),
}

impl View for ReadOutcome {
    type V = ReadOutcomeView;

    open spec fn view(&self) -> ReadOutcomeView {
        match self {
            ReadOutcome::Line(line) => ReadOutcomeView::Line(line@),
            ReadOutcome::NoLine => ReadOutcomeView::NoLine,
            ReadOutcome::TimedOut => ReadOutcomeView::TimedOut,
            ReadOutcome::IoFailure(detail) => ReadOutcomeView::IoFailure(detail@),
        }
    }
}

/// What a connection is to its users.
#[verifier::ext_equal]
pub struct ConnectionView {
    pub coolant_pressure: History,
    pub oil_pressure: History,
    pub oil_temperature: History,
    pub battery_voltage: History,
    pub engine_rpm: History,
    pub signal_strength: History,
    /// Lines received so far, ignored ones included.
    pub received_count: nat,
    /// Errors counted so far.
    pub error_count: nat,
    /// The event log, oldest entry first.
    pub events: Seq<EventView>,
}

impl ConnectionView {
    /// The state of a connection that has read nothing yet: empty windows,
    /// counters at zero, and a log that holds one greeting.
    pub open spec fn initial() -> ConnectionView {
        ConnectionView {
            coolant_pressure: History::empty(WINDOW_SIZE as nat),
            oil_pressure: History::empty(WINDOW_SIZE as nat),
            oil_temperature: History::empty(WINDOW_SIZE as nat),
            battery_voltage: History::empty(WINDOW_SIZE as nat),
            engine_rpm: History::empty(WINDOW_SIZE as nat),
            signal_strength: History::empty(WINDOW_SIZE as nat),
            received_count: 0,
            error_count: 0,
            events: seq![
                EventView {
                    sequence: 0,
                    message: "w e l c o m e  t o  l e m o n s  d o m i n a t i o n"@,
                    severity: LogLevel::Info,
                },
            ],
        }
    }

    /// The history of `channel`.
    pub open spec fn history(self, channel: Channel) -> History {
        match channel {
            Channel::CoolantPressure => self.coolant_pressure,
            Channel::OilPressure => self.oil_pressure,
            Channel::OilTemperature => self.oil_temperature,
            Channel::BatteryVoltage => self.battery_voltage,
            Channel::EngineRpm => self.engine_rpm,
            Channel::SignalStrength => self.signal_strength,
        }
    }

    /// The same state with `history` in the place of the history of
    /// `channel`.
    pub open spec fn with_history(self, channel: Channel, history: History) -> ConnectionView {
        match channel {
            Channel::CoolantPressure => ConnectionView { coolant_pressure: history, ..self },
            Channel::OilPressure => ConnectionView { oil_pressure: history, ..self },
            Channel::OilTemperature => ConnectionView { oil_temperature: history, ..self },
            Channel::BatteryVoltage => ConnectionView { battery_voltage: history, ..self },
            Channel::EngineRpm => ConnectionView { engine_rpm: history, ..self },
            Channel::SignalStrength => ConnectionView { signal_strength: history, ..self },
        }
    }

    /// The same state with one more line received.
    pub open spec fn with_receipt(self) -> ConnectionView {
        ConnectionView { received_count: self.received_count + 1, ..self }
    }

    /// The same state with one more error counted.
    pub open spec fn with_error(self) -> ConnectionView {
        ConnectionView { error_count: self.error_count + 1, ..self }
    }

    /// The same state with one more entry at the end of the log. The entry's
    /// sequence number is the number of lines received.
    pub open spec fn with_event(self, severity: LogLevel, message: Seq<char>) -> ConnectionView {
        ConnectionView {
            events: self.events.push(
                EventView { sequence: self.received_count, message, severity },
            ),
            ..self
        }
    }

    /// The state after a line was received.
    ///
    /// The line is counted, whatever it holds. An ignored line does nothing
    /// more. A channel update whose value is a sample enters the channel's
    /// history and is logged as information; one whose value is no sample is
    /// logged and counted as an error and enters no history. A fault is
    /// logged as a warning. A rejected line is logged and counted as an
    /// error.
    pub open spec fn after_line(self, line: Seq<char>) -> ConnectionView {
        let counted = self.with_receipt();
        match spec_classify(line) {
            DecisionView::Ignore => counted,
            DecisionView::ChannelUpdate(channel, value) => match spec_parse_i16(value) {
                Ok(sample) => counted.with_history(
                    channel,
                    counted.history(channel).with_sample(sample),
                ).with_event(LogLevel::Info, line),
                Err(e) => counted.with_event(LogLevel::Error, e.spec_message()).with_error(),
            },
            DecisionView::Fault(detail) => counted.with_event(LogLevel::Warn, "Fault: "@ + detail),
            DecisionView::Unrecognized(rejected) => counted.with_event(
                LogLevel::Error,
                spec_rejection(rejected),
            ).with_error(),
        }
    }

    /// The state after one attempt to read a line.
    ///
    /// A line is handled as `after_line` says. A read that timed out changes
    /// nothing. A read that gave no line logs an error. A read that failed
    /// logs and counts an error; no line is counted for it.
    pub open spec fn after(self, outcome: ReadOutcomeView) -> ConnectionView {
        match outcome {
            ReadOutcomeView::Line(line) => self.after_line(line),
            ReadOutcomeView::NoLine => self.with_event(LogLevel::Error, "Empty line?"@),
            ReadOutcomeView::TimedOut => self,
            ReadOutcomeView::IoFailure(detail) => self.with_event(
                LogLevel::Error,
                "Failed to read line: "@ + detail,
            ).with_error(),
        }
    }

    /// The state after each of `outcomes` was applied in turn.
    pub open spec fn after_all(self, outcomes: Seq<ReadOutcomeView>) -> ConnectionView
        decreases outcomes.len(),
    {
        if outcomes.len() == 0 {
            self
        } else {
            self.after_all(outcomes.drop_last()).after(outcomes.last())
        }
    }

    /// Whether the counters have room for the step that `outcome` causes: a
    /// line is counted, and a line or a failed read may count an error.
    pub open spec fn has_room(self, outcome: ReadOutcomeView) -> bool {
        &&& outcome is Line ==> self.received_count < u128::MAX
        &&& outcome is Line || outcome is IoFailure ==> self.error_count < u128::MAX
    }

    /// What holds of every state that a connection can reach: the samples of
    /// each history fit its capacity; no more errors are counted than the log
    /// holds error entries; and the sequence numbers in the log never fall
    /// from one entry to the next nor exceed the number of lines received.
    pub open spec fn sound(self) -> bool {
        &&& forall|channel: Channel| #[trigger] self.history(channel).fits()
        &&& self.error_count <= count_of(self.events, LogLevel::Error)
        &&& forall|i: int|
            0 <= i < self.events.len() ==> (#[trigger] self.events[i]).sequence
                <= self.received_count
        &&& forall|i: int, j: int|
            0 <= i <= j < self.events.len() ==> (#[trigger] self.events[i]).sequence <= (
            #[trigger] self.events[j]).sequence
    }
}

/// One telemetry link: a window per channel, the event log, and the counters
/// of lines received and of errors.
pub struct Connection {
    oil_temps: Window,
    oil_pressures: Window,
    coolant_pressures: Window,
    voltages: Window,
    rpms: Window,
    rssis: Window,
    counter: u128,
    error_counter: u128,
    events: Vec<EventEntry>,
}

impl View for Connection {
    type V = ConnectionView;

    closed spec fn view(&self) -> ConnectionView {
        ConnectionView {
            coolant_pressure: self.coolant_pressures@,
            oil_pressure: self.oil_pressures@,
            oil_temperature: self.oil_temps@,
            battery_voltage: self.voltages@,
            engine_rpm: self.rpms@,
            signal_strength: self.rssis@,
            received_count: self.counter as nat,
            error_count: self.error_counter as nat,
            events: views_of(self.events@),
        }
    }
}

impl Connection {
    /// A connection that has read nothing yet.
    pub fn init() -> (connection: Connection)
        ensures
            connection@ == ConnectionView::initial(),
            connection@.sound(),
    {
        let mut events: Vec<EventEntry> = Vec::new();
        events.push(
            EventEntry {
                sequence: 0,
                message: "w e l c o m e  t o  l e m o n s  d o m i n a t i o n".to_owned(),
                severity: LogLevel::Info,
            },
        );
        let connection = Connection {
            oil_temps: Window::new(WINDOW_SIZE),
            oil_pressures: Window::new(WINDOW_SIZE),
            coolant_pressures: Window::new(WINDOW_SIZE),
            voltages: Window::new(WINDOW_SIZE),
            rpms: Window::new(WINDOW_SIZE),
            rssis: Window::new(WINDOW_SIZE),
            counter: 0,
            error_counter: 0,
            events,
        };
        proof {
            assert(connection@.events =~= ConnectionView::initial().events);
            lemma_initial_is_sound();
        }
        connection
    }

    /// The window of `channel`.
    pub fn window(&self, channel: Channel) -> (window: &Window)
        ensures
            window@ == self@.history(channel),
    {
        match channel {
            Channel::CoolantPressure => &self.coolant_pressures,
            Channel::OilPressure => &self.oil_pressures,
            Channel::OilTemperature => &self.oil_temps,
            Channel::BatteryVoltage => &self.voltages,
            Channel::EngineRpm => &self.rpms,
            Channel::SignalStrength => &self.rssis,
        }
    }

    /// The number of lines received so far, ignored ones included.
    pub fn received_count(&self) -> (count: u128)
        ensures
            count == self@.received_count,
    {
        self.counter
    }

    /// The number of errors counted so far.
    pub fn error_count(&self) -> (count: u128)
        ensures
            count == self@.error_count,
    {
        self.error_counter
    }

    /// The event log, oldest entry first.
    pub fn events(&self) -> (log: &Vec<EventEntry>)
        ensures
            views_of(log@) == self@.events,
    {
        &self.events
    }

    /// The entries of the event log, newest first.
    pub fn newest_first(&self) -> (log: Vec<&EventEntry>)
        ensures
            log@.len() == self@.events.len(),
            forall|i: int|
                0 <= i < log@.len() ==> (#[trigger] log@[i])@ == self@.events[log@.len() - 1 - i],
    {
        let len = self.events.len();
        let mut log: Vec<&EventEntry> = Vec::new();
        let mut i: usize = 0;
        while i < len
            invariant
                i <= len == self.events@.len(),
                log@.len() == i,
                forall|j: int| 0 <= j < i ==> *(#[trigger] log@[j]) == self.events@[len - 1 - j],
            decreases len - i,
        {
            log.push(&self.events[len - 1 - i]);
            i += 1;
        }
        log
    }

    /// Appends an entry to the event log, numbered with the lines received.
    pub fn log(&mut self, lvl: LogLevel, msg: String)
        ensures
            final(self)@ == old(self)@.with_event(lvl, msg@),
            old(self)@.sound() ==> final(self)@.sound(),
    {
        let ghost message = msg@;
        self.events.push(EventEntry { sequence: self.counter, message: msg, severity: lvl });
        proof {
            assert(self@.events =~= old(self)@.events.push(
                EventView { sequence: old(self)@.received_count, message, severity: lvl },
            ));
            if old(self)@.sound() {
                lemma_with_event_is_sound(old(self)@, lvl, message);
            }
        }
    }

    /// Counts one more error.
    fn inc_error(&mut self)
        requires
            old(self)@.error_count < u128::MAX,
        ensures
            final(self)@ == old(self)@.with_error(),
    {
        self.error_counter = self.error_counter + 1;
    }

    /// Offers `value` to the window of `channel`.
    fn route(&mut self, channel: Channel, value: &str) -> (r: Result<(), ParseError>)
        ensures
            final(self)@ == old(self)@.with_history(
                channel,
                old(self)@.history(channel).with_text(value@),
            ),
            final(self)@.history(channel).fits(),
            match spec_parse_i16(value@) {
                Ok(_) => r == Ok::<(), ParseError>(()),
                Err(e) => r == Err::<(), ParseError>(e),
            },
    {
        match channel {
            Channel::CoolantPressure => self.coolant_pressures.put(value),
            Channel::OilPressure => self.oil_pressures.put(value),
            Channel::OilTemperature => self.oil_temps.put(value),
            Channel::BatteryVoltage => self.voltages.put(value),
            Channel::EngineRpm => self.rpms.put(value),
            Channel::SignalStrength => self.rssis.put(value),
        }
    }

    /// Whether the counters have room for the step that `outcome` causes.
    pub fn has_room(&self, outcome: &ReadOutcome) -> (room: bool)
        ensures
            room == self@.has_room(outcome@),
    {
        match outcome {
            ReadOutcome::Line(_) => self.counter < u128::MAX && self.error_counter < u128::MAX,
            ReadOutcome::IoFailure(_) => self.error_counter < u128::MAX,
            ReadOutcome::NoLine => true,
            ReadOutcome::TimedOut => true,
        }
    }

    /// Takes one step if the counters have room for it, and says whether it
    /// did. Without room the connection stays as it was.
    pub fn tick(&mut self, outcome: ReadOutcome) -> (stepped: bool)
        ensures
            stepped == old(self)@.has_room(outcome@),
            stepped ==> final(self)@ == old(self)@.after(outcome@),
            !stepped ==> final(self)@ == old(self)@,
            old(self)@.sound() ==> final(self)@.sound(),
    {
        if self.has_room(&outcome) {
            self.read(outcome);
            true
        } else {
            false
        }
    }

    /// Takes one step: applies the outcome of one attempt to read a line.
    ///
    /// The counters must have room for the step.
    pub fn read(&mut self, outcome: ReadOutcome)
        requires
            old(self)@.has_room(outcome@),
        ensures
            final(self)@ == old(self)@.after(outcome@),
            outcome is TimedOut ==> final(self)@ == old(self)@,
            old(self)@.sound() ==> final(self)@.sound(),
    {
        proof {
            if old(self)@.sound() {
                lemma_after_is_sound(old(self)@, outcome@);
            }
        }
        match outcome {
            ReadOutcome::Line(line) => {
                self.counter = self.counter + 1;
                match classify(line.as_str()) {
                    Decision::Ignore => {},
                    Decision::ChannelUpdate(channel, value) => {
                        match self.route(channel, value.as_str()) {
                            Ok(()) => {
                                self.log(LogLevel::Info, line);
                            },
                            Err(e) => {
                                self.log(LogLevel::Error, e.message());
                                self.inc_error();
                            },
                        }
                    },
                    Decision::Fault(detail) => {
                        self.log(LogLevel::Warn, "Fault: ".to_owned().concat(detail.as_str()));
                    },
                    Decision::Unrecognized(rejected) => {
                        self.log(LogLevel::Error, rejection(rejected.as_str()));
                        self.inc_error();
                    },
                }
            },
            ReadOutcome::NoLine => {
                self.log(LogLevel::Error, "Empty line?".to_owned());
            },
            ReadOutcome::TimedOut => {},
            ReadOutcome::IoFailure(detail) => {
                self.log(
                    LogLevel::Error,
                    "Failed to read line: ".to_owned().concat(detail.as_str()),
                );
                self.inc_error();
            },
        }
    }
}

/// One more entry adds one to the count of its own severity and nothing to
/// the other counts.
proof fn lemma_count_of_push(events: Seq<EventView>, event: EventView, severity: LogLevel)
    ensures
        count_of(events.push(event), severity) == count_of(events, severity) + if event.severity
            == severity {
            1nat
        } else {
            0nat
        },
{
    assert(events.push(event).drop_last() =~= events);
}

/// A connection starts in a sound state.
pub proof fn lemma_initial_is_sound()
    ensures
        ConnectionView::initial().sound(),
{
    let state = ConnectionView::initial();
    assert forall|channel: Channel| #[trigger] state.history(channel).fits() by {}
}

/// Logging keeps a sound state sound.
pub proof fn lemma_with_event_is_sound(
    state: ConnectionView,
    severity: LogLevel,
    message: Seq<char>,
)
    requires
        state.sound(),
    ensures
        state.with_event(severity, message).sound(),
        severity == LogLevel::Error ==> state.with_event(severity, message).with_error().sound(),
{
    let next = state.with_event(severity, message);
    lemma_count_of_push(state.events, next.events.last(), LogLevel::Error);
    assert forall|channel: Channel| #[trigger] next.history(channel).fits() by {
        assert(state.history(channel).fits());
    }
    if severity == LogLevel::Error {
        let counted = next.with_error();
        assert forall|channel: Channel| #[trigger] counted.history(channel).fits() by {
            assert(state.history(channel).fits());
        }
    }
}

/// Every step keeps a sound state sound: the invariants of a connection hold
/// after any sequence of read outcomes.
pub proof fn lemma_after_is_sound(state: ConnectionView, outcome: ReadOutcomeView)
    requires
        state.sound(),
    ensures
        state.after(outcome).sound(),
{
    match outcome {
        ReadOutcomeView::Line(line) => {
            let counted = state.with_receipt();
            assert(counted.sound()) by {
                assert forall|channel: Channel| #[trigger] counted.history(channel).fits() by {
                    assert(state.history(channel).fits());
                }
            }
            match spec_classify(line) {
                DecisionView::Ignore => {},
                DecisionView::ChannelUpdate(channel, value) => match spec_parse_i16(value) {
                    Ok(sample) => {
                        let updated = counted.with_history(
                            channel,
                            counted.history(channel).with_sample(sample),
                        );
                        assert(updated.sound()) by {
                            assert(counted.history(channel).fits());
                            assert forall|other: Channel| #[trigger]
                                updated.history(other).fits() by {
                                assert(counted.history(other).fits());
                            }
                        }
                        lemma_with_event_is_sound(updated, LogLevel::Info, line);
                    },
                    Err(e) => {
                        lemma_with_event_is_sound(counted, LogLevel::Error, e.spec_message());
                    },
                },
                DecisionView::Fault(detail) => {
                    lemma_with_event_is_sound(counted, LogLevel::Warn, "Fault: "@ + detail);
                },
                DecisionView::Unrecognized(rejected) => {
                    lemma_with_event_is_sound(counted, LogLevel::Error, spec_rejection(rejected));
                },
            }
        },
        ReadOutcomeView::NoLine => {
            lemma_with_event_is_sound(state, LogLevel::Error, "Empty line?"@);
        },
        ReadOutcomeView::TimedOut => {},
        ReadOutcomeView::IoFailure(detail) => {
            lemma_with_event_is_sound(state, LogLevel::Error, "Failed to read line: "@ + detail);
        },
    }
}

/// A read that timed out leaves the whole state as it was.
pub proof fn lemma_timeout_changes_nothing(state: ConnectionView)
    ensures
        state.after(ReadOutcomeView::TimedOut) == state,
{
}

/// As long as no read fails, no more errors are counted than lines were
/// received. A failed read counts an error without a line, so the bound
/// holds only of the other outcomes.
pub proof fn lemma_errors_within_received(state: ConnectionView, outcome: ReadOutcomeView)
    requires
        state.error_count <= state.received_count,
        !(outcome is IoFailure),
    ensures
        state.after(outcome).error_count <= state.after(outcome).received_count,
{
}

/// What a received line changes, by what it asks for.
///
/// Every line is counted. An ignored line changes nothing else. A fault adds
/// a warning that holds its detail. A rejected line, and a channel update
/// whose value is no sample, each add an error entry and count an error. Only
/// a channel update whose value is a sample reaches a history, that of its
/// channel, and it is logged as information under the line's own text. No
/// other history changes.
pub proof fn lemma_line_effects(state: ConnectionView, line: Seq<char>)
    ensures
        state.after_line(line).received_count == state.received_count + 1,
        match spec_classify(line) {
            DecisionView::Ignore => state.after_line(line) == state.with_receipt(),
            DecisionView::Fault(detail) => {
                &&& state.after_line(line).error_count == state.error_count
                &&& state.after_line(line).events == state.events.push(
                    EventView {
                        sequence: state.received_count + 1,
                        message: "Fault: "@ + detail,
                        severity: LogLevel::Warn,
                    },
                )
                &&& forall|channel: Channel| #[trigger]
                    state.after_line(line).history(channel) == state.history(channel)
            },
            DecisionView::Unrecognized(_) => {
                &&& state.after_line(line).error_count == state.error_count + 1
                &&& state.after_line(line).events.len() == state.events.len() + 1
                &&& state.after_line(line).events.drop_last() == state.events
                &&& state.after_line(line).events.last().severity == LogLevel::Error
                &&& forall|channel: Channel| #[trigger]
                    state.after_line(line).history(channel) == state.history(channel)
            },
            DecisionView::ChannelUpdate(updated, value) => match spec_parse_i16(value) {
                Ok(sample) => {
                    &&& state.after_line(line).error_count == state.error_count
                    &&& state.after_line(line).events == state.events.push(
                        EventView {
                            sequence: state.received_count + 1,
                            message: line,
                            severity: LogLevel::Info,
                        },
                    )
                    &&& state.after_line(line).history(updated) == state.history(
                        updated,
                    ).with_sample(sample)
                    &&& forall|channel: Channel|
                        channel != updated ==> #[trigger] state.after_line(line).history(channel)
                            == state.history(channel)
                },
                Err(_) => {
                    &&& state.after_line(line).error_count == state.error_count + 1
                    &&& state.after_line(line).events.len() == state.events.len() + 1
                    &&& state.after_line(line).events.drop_last() == state.events
                    &&& state.after_line(line).events.last().severity == LogLevel::Error
                    &&& forall|channel: Channel| #[trigger]
                        state.after_line(line).history(channel) == state.history(channel)
                },
            },
        },
{
    let next = state.after_line(line);
    if next.events.len() == state.events.len() + 1 {
        assert(next.events.drop_last() =~= state.events);
    }
}

/// What one step can change, whatever the outcome.
///
/// The count of received lines grows by one for a line and stays for every
/// other outcome, so it never falls. The log keeps every entry it had and
/// gains at most one, numbered with the new count of received lines. The
/// error count grows by at most one, and only together with an error entry.
/// No capacity changes, and a history changes only when a line updates its
/// channel with a value that is a sample; every other history stays.
pub proof fn lemma_step_effects(state: ConnectionView, outcome: ReadOutcomeView)
    ensures
        state.after(outcome).received_count == state.received_count + if outcome is Line {
            1nat
        } else {
            0nat
        },
        state.after(outcome).events == state.events || (state.after(outcome).events.len()
            == state.events.len() + 1 && state.after(outcome).events.drop_last() == state.events
            && state.after(outcome).events.last().sequence == state.after(
            outcome,
        ).received_count),
        state.after(outcome).error_count == state.error_count || (state.after(outcome).error_count
            == state.error_count + 1 && state.after(outcome).events.len() == state.events.len() + 1
            && state.after(outcome).events.last().severity == LogLevel::Error),
        forall|channel: Channel|
            (#[trigger] state.after(outcome).history(channel)).capacity == state.history(
                channel,
            ).capacity,
        forall|channel: Channel| #[trigger]
            state.after(outcome).history(channel) != state.history(channel) ==> {
                &&& outcome matches ReadOutcomeView::Line(line)
                &&& spec_classify(line) matches DecisionView::ChannelUpdate(updated, value)
                &&& updated == channel
                &&& spec_parse_i16(value) matches Ok(sample)
                &&& state.after(outcome).history(channel) == state.history(channel).with_sample(
                    sample,
                )
            },
{
    let next = state.after(outcome);
    if next.events.len() == state.events.len() + 1 {
        assert(next.events.drop_last() =~= state.events);
    }
}

/// What any number of steps leaves in place.
///
/// A sound state stays sound. The count of received lines never falls, and
/// grows by no more than the number of steps. The log is never cut: every
/// entry stays where it was, and at most one entry is added per step. No
/// window changes its capacity.
pub proof fn lemma_steps_keep_the_past(state: ConnectionView, outcomes: Seq<ReadOutcomeView>)
    requires
        state.sound(),
    ensures
        state.after_all(outcomes).sound(),
        state.received_count <= state.after_all(outcomes).received_count <= state.received_count
            + outcomes.len(),
        state.events.len() <= state.after_all(outcomes).events.len() <= state.events.len()
            + outcomes.len(),
        state.after_all(outcomes).events.take(state.events.len() as int) == state.events,
        forall|channel: Channel|
            (#[trigger] state.after_all(outcomes).history(channel)).capacity == state.history(
                channel,
            ).capacity,
    decreases outcomes.len(),
{
    if outcomes.len() == 0 {
        assert(state.events.take(state.events.len() as int) =~= state.events);
    } else {
        let before = state.after_all(outcomes.drop_last());
        lemma_steps_keep_the_past(state, outcomes.drop_last());
        lemma_after_is_sound(before, outcomes.last());
        lemma_step_effects(before, outcomes.last());
        let next = before.after(outcomes.last());
        assert(next.events.take(state.events.len() as int) =~= before.events.take(
            state.events.len() as int,
        )) by {
            if next.events != before.events {
                assert(next.events.drop_last() == before.events);
            }
        }
        assert forall|channel: Channel|
            (#[trigger] next.history(channel)).capacity == state.history(channel).capacity by {
            assert(before.history(channel).capacity == state.history(channel).capacity);
        }
    }
}

} // verus!
