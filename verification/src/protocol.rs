//! The wire protocol: what a received line asks for.
//!
//! A data line is a single word `KEY:VALUE`. Six keys name a channel, the key
//! `FLT` reports a fault, and an empty line or the acknowledgment of the
//! handshake asks for nothing.

use crate::text::{chars_of, is_blank, lemma_run_bounds, lemma_run_is, run, scan, spells, Class};
use vstd::prelude::*;

verus! {

/// A telemetry signal with a history of its own.
#[derive(Clone, Copy, Debug, PartialEq, Eq, Structural)]
pub enum Channel {
    /// Coolant pressure in PSI, key `P_C`.
    CoolantPressure,
    /// Oil pressure in PSI, key `P_O`.
    OilPressure,
    /// Oil temperature in degrees Fahrenheit, key `T_O`.
    OilTemperature,
    /// Battery voltage in millivolts, key `VBA`.
    BatteryVoltage,
    /// Engine speed in revolutions per minute, key `RPM`.
    EngineRpm,
    /// Received signal strength, key `RSI`.
    SignalStrength,
}

/// What to do with a received line.
#[derive(Debug, PartialEq, Eq)]
pub enum Decision {
    /// Nothing: the line is empty or acknowledges the handshake.
    Ignore,
    /// Offer the text to the history of the channel.
    ChannelUpdate(Channel, String),
    /// Report the fault that the text describes.
    Fault(String),
    /// Reject the line, which is carried whole.
    Unrecognized(String),
}

/// A `Decision` with its texts as sequences of characters.
pub enum DecisionView {
    Ignore,
    ChannelUpdate(Channel, Seq<char>),
    Fault(Seq<char>),
    Unrecognized(Seq<char>),
}

impl View for Decision {
    type V = DecisionView;

    open spec fn view(&self) -> DecisionView {
        match self {
            Decision::Ignore => DecisionView::Ignore,
            Decision::ChannelUpdate(channel, value) => DecisionView::ChannelUpdate(
                *channel,
                value@,
            ),
            Decision::Fault(detail) => DecisionView::Fault(detail@),
            Decision::Unrecognized(line) => DecisionView::Unrecognized(line@),
        }
    }
}

/// The channel that `key` names, if it names one.
pub open spec fn channel_of(key: Seq<char>) -> Option<Channel> {
    if key == "P_C"@ {
        Some(Channel::CoolantPressure)
    } else if key == "P_O"@ {
        Some(Channel::OilPressure)
    } else if key == "T_O"@ {
        Some(Channel::OilTemperature)
    } else if key == "VBA"@ {
        Some(Channel::BatteryVoltage)
    } else if key == "RPM"@ {
        Some(Channel::EngineRpm)
    } else if key == "RSI"@ {
        Some(Channel::SignalStrength)
    } else {
        None
    }
}

/// The only word of `line`, if `line` is one word with nothing but
/// whitespace before and after it.
pub open spec fn sole_word(line: Seq<char>) -> Option<Seq<char>> {
    let from = run(line, Class::Blank);
    let to = from + run(line.skip(from), Class::Solid);
    let end = to + run(line.skip(to), Class::Blank);
    if from < to && end == line.len() {
        Some(line.subrange(from, to))
    } else {
        None
    }
}

/// The two sides of the colon in `word`, if `word` holds exactly one colon.
pub open spec fn key_value(word: Seq<char>) -> Option<(Seq<char>, Seq<char>)> {
    let colon = run(word, Class::Except(':'));
    let value = word.skip(colon + 1);
    if colon < word.len() && run(value, Class::Except(':')) == value.len() {
        Some((word.take(colon), value))
    } else {
        None
    }
}

/// What a line asks for.
///
/// A line of one word `KEY:VALUE` updates the channel that `KEY` names or,
/// with the key `FLT`, reports a fault. An empty line and the line `init ok`
/// are ignored. Every other line is rejected: a word without a colon or with
/// several, an unknown key, more than one word, whitespace alone.
pub open spec fn spec_classify(line: Seq<char>) -> DecisionView {
    match sole_word(line) {
        Some(word) => match key_value(word) {
            Some((key, value)) => if key == "FLT"@ {
                DecisionView::Fault(value)
            } else {
                match channel_of(key) {
                    Some(channel) => DecisionView::ChannelUpdate(channel, value),
                    None => DecisionView::Unrecognized(line),
                }
            },
            None => DecisionView::Unrecognized(line),
        },
        None => if line.len() == 0 || line == "init ok"@ {
            DecisionView::Ignore
        } else {
            DecisionView::Unrecognized(line)
        },
    }
}

/// The words that report a rejected line: its only word, or else the whole
/// line between quotes.
pub open spec fn spec_rejection(line: Seq<char>) -> Seq<char> {
    match sole_word(line) {
        Some(word) => "Invalid key value pair "@ + word,
        None => "Invalid data line '"@ + line + "'"@,
    }
}

/// Where the only word of `chars` starts and ends, if there is exactly one.
fn find_sole_word(chars: &Vec<char>) -> (bounds: Option<(usize, usize)>)
    ensures
        match bounds {
            Some((from, to)) => from < to <= chars@.len() && sole_word(chars@) == Some(
                chars@.subrange(from as int, to as int),
            ),
            None => sole_word(chars@) is None,
        },
{
    let len = chars.len();
    let from = scan(chars, 0, len, Class::Blank);
    let to = scan(chars, from, len, Class::Solid);
    let end = scan(chars, to, len, Class::Blank);
    proof {
        assert(chars@.subrange(0, len as int) =~= chars@);
    }
    if from < to && end == len {
        Some((from, to))
    } else {
        None
    }
}

/// Where the only colon between `from` and `to` stands, if there is exactly
/// one.
fn find_sole_colon(chars: &Vec<char>, from: usize, to: usize) -> (colon: Option<usize>)
    requires
        from <= to <= chars@.len(),
    ensures
        match colon {
            Some(at) => from <= at < to && key_value(chars@.subrange(from as int, to as int))
                == Some(
                (chars@.subrange(from as int, at as int), chars@.subrange(at + 1, to as int)),
            ),
            None => key_value(chars@.subrange(from as int, to as int)) is None,
        },
{
    let at = scan(chars, from, to, Class::Except(':'));
    if at == to {
        return None;
    }
    let end = scan(chars, at + 1, to, Class::Except(':'));
    proof {
        let word = chars@.subrange(from as int, to as int);
        assert(word.skip(at - from + 1) =~= chars@.subrange(at + 1, to as int));
        assert(word.take(at - from) =~= chars@.subrange(from as int, at as int));
    }
    if end == to {
        Some(at)
    } else {
        None
    }
}

/// The channel that the characters from `from` up to `to` name, if any.
fn find_channel(chars: &Vec<char>, from: usize, to: usize) -> (channel: Option<Channel>)
    requires
        from <= to <= chars@.len(),
    ensures
        channel == channel_of(chars@.subrange(from as int, to as int)),
{
    if spells(chars, from, to, &chars_of("P_C")) {
        Some(Channel::CoolantPressure)
    } else if spells(chars, from, to, &chars_of("P_O")) {
        Some(Channel::OilPressure)
    } else if spells(chars, from, to, &chars_of("T_O")) {
        Some(Channel::OilTemperature)
    } else if spells(chars, from, to, &chars_of("VBA")) {
        Some(Channel::BatteryVoltage)
    } else if spells(chars, from, to, &chars_of("RPM")) {
        Some(Channel::EngineRpm)
    } else if spells(chars, from, to, &chars_of("RSI")) {
        Some(Channel::SignalStrength)
    } else {
        None
    }
}

/// Decides what a received line asks for.
pub fn classify(line: &str) -> (decision: Decision)
    ensures
        decision@ == spec_classify(line@),
{
    let chars = chars_of(line);
    match find_sole_word(&chars) {
        Some((from, to)) => match find_sole_colon(&chars, from, to) {
            Some(colon) => {
                let value = line.substring_char(colon + 1, to).to_owned();
                if spells(&chars, from, colon, &chars_of("FLT")) {
                    Decision::Fault(value)
                } else {
                    match find_channel(&chars, from, colon) {
                        Some(channel) => Decision::ChannelUpdate(channel, value),
                        None => Decision::Unrecognized(line.to_owned()),
                    }
                }
            },
            None => Decision::Unrecognized(line.to_owned()),
        },
        None => {
            assert(chars@.subrange(0, chars@.len() as int) =~= chars@);
            if chars.len() == 0 || spells(&chars, 0, chars.len(), &chars_of("init ok")) {
                Decision::Ignore
            } else {
                Decision::Unrecognized(line.to_owned())
            }
        },
    }
}

/// The words that report a rejected line.
pub fn rejection(line: &str) -> (words: String)
    ensures
        words@ == spec_rejection(line@),
{
    let chars = chars_of(line);
    match find_sole_word(&chars) {
        Some((from, to)) => "Invalid key value pair ".to_owned().concat(
            line.substring_char(from, to),
        ),
        None => "Invalid data line '".to_owned().concat(line).concat("'"),
    }
}

/// A word with nothing but whitespace around it is the only word of the
/// line, however much whitespace there is on either side.
pub proof fn lemma_padded_word_is_sole(before: Seq<char>, word: Seq<char>, after: Seq<char>)
    requires
        forall|i: int| 0 <= i < before.len() ==> is_blank(#[trigger] before[i]),
        word.len() > 0,
        forall|i: int| 0 <= i < word.len() ==> !is_blank(#[trigger] word[i]),
        forall|i: int| 0 <= i < after.len() ==> is_blank(#[trigger] after[i]),
    ensures
        sole_word(before + word + after) == Some(word),
{
    let line = before + word + after;
    let from = before.len() as int;
    let to = from + word.len();
    assert(line[from] == word[0]);
    lemma_run_is(line, Class::Blank, from);
    assert(line.skip(from) =~= word + after);
    if after.len() > 0 {
        assert((word + after)[word.len() as int] == after[0]);
    }
    lemma_run_is(word + after, Class::Solid, word.len() as int);
    assert(line.skip(to) =~= after);
    lemma_run_is(after, Class::Blank, after.len() as int);
    assert(line.subrange(from, to) =~= word);
}

/// The only word of a line is a word, and the line is that word with nothing
/// but whitespace before and after it. A line of any other shape has no only
/// word: it is empty, all whitespace, or holds two words or more.
pub proof fn lemma_sole_word_is_padded(line: Seq<char>)
    ensures
        sole_word(line) matches Some(word) ==> {
            let from = run(line, Class::Blank);
            let to = from + word.len();
            &&& 0 <= from < to <= line.len()
            &&& line == line.take(from) + word + line.skip(to)
            &&& forall|i: int| 0 <= i < from ==> is_blank(#[trigger] line[i])
            &&& forall|i: int| 0 <= i < word.len() ==> !is_blank(#[trigger] word[i])
            &&& forall|i: int| to <= i < line.len() ==> is_blank(#[trigger] line[i])
        },
{
    if let Some(word) = sole_word(line) {
        let from = run(line, Class::Blank);
        lemma_run_bounds(line, Class::Blank);
        let middle = line.skip(from);
        lemma_run_bounds(middle, Class::Solid);
        let to = from + run(middle, Class::Solid);
        let tail = line.skip(to);
        lemma_run_bounds(tail, Class::Blank);
        assert(line =~= line.take(from) + word + line.skip(to));
        assert forall|i: int| 0 <= i < word.len() implies !is_blank(#[trigger] word[i]) by {
            assert(word[i] == middle[i]);
            assert(Class::Solid.has(middle[i]));
        }
        assert forall|i: int| to <= i < line.len() implies is_blank(#[trigger] line[i]) by {
            assert(line[i] == tail[i - to]);
            assert(Class::Blank.has(tail[i - to]));
        }
    }
}

/// A key and a value without a colon in them, joined by a colon, are split
/// again into that key and that value. Either may be empty.
pub proof fn lemma_joined_pair_is_split(key: Seq<char>, value: Seq<char>)
    requires
        forall|i: int| 0 <= i < key.len() ==> #[trigger] key[i] != ':',
        forall|i: int| 0 <= i < value.len() ==> #[trigger] value[i] != ':',
    ensures
        key_value(key + seq![':'] + value) == Some((key, value)),
{
    let word = key + seq![':'] + value;
    let colon = key.len() as int;
    assert(word[colon] == ':');
    lemma_run_is(word, Class::Except(':'), colon);
    assert(word.skip(colon + 1) =~= value);
    lemma_run_is(value, Class::Except(':'), value.len() as int);
    assert(word.take(colon) =~= key);
}

/// What a word is split into holds no colon, and the word is the key, a
/// colon and the value. A word without a colon, or with two or more, is not
/// split.
pub proof fn lemma_split_pair_is_joined(word: Seq<char>)
    ensures
        key_value(word) matches Some((key, value)) ==> {
            &&& word == key + seq![':'] + value
            &&& forall|i: int| 0 <= i < key.len() ==> #[trigger] key[i] != ':'
            &&& forall|i: int| 0 <= i < value.len() ==> #[trigger] value[i] != ':'
        },
{
    if let Some((key, value)) = key_value(word) {
        lemma_run_bounds(word, Class::Except(':'));
        lemma_run_bounds(value, Class::Except(':'));
        assert(word =~= key + seq![':'] + value);
        assert forall|i: int| 0 <= i < key.len() implies #[trigger] key[i] != ':' by {
            assert(Class::Except(':').has(word[i]));
        }
        assert forall|i: int| 0 <= i < value.len() implies #[trigger] value[i] != ':' by {
            assert(Class::Except(':').has(value[i]));
        }
    }
}

/// The empty line and the acknowledgment of the handshake are ignored.
pub proof fn lemma_sentinels_are_ignored()
    ensures
        spec_classify(""@) == DecisionView::Ignore,
        spec_classify("init ok"@) == DecisionView::Ignore,
{
    reveal_strlit("");
    reveal_strlit("init ok");
    let line = "init ok"@;
    lemma_run_is(line, Class::Blank, 0);
    assert(line.skip(0) =~= line);
    lemma_run_is(line, Class::Solid, 4);
    let rest = line.skip(4);
    assert(rest[0] == ' ' && rest[1] == 'o');
    lemma_run_is(rest, Class::Blank, 1);
}

} // verus!
