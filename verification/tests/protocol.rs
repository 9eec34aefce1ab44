use pitwall::protocol::{classify, rejection, Channel, Decision};

fn update(channel: Channel, value: &str) -> Decision {
    Decision::ChannelUpdate(channel, value.to_string())
}

fn unrecognized(line: &str) -> Decision {
    Decision::Unrecognized(line.to_string())
}

#[test]
fn every_key_names_its_channel() {
    assert_eq!(classify("P_C:12"), update(Channel::CoolantPressure, "12"));
    assert_eq!(classify("P_O:40"), update(Channel::OilPressure, "40"));
    assert_eq!(classify("T_O:210"), update(Channel::OilTemperature, "210"));
    assert_eq!(classify("VBA:13800"), update(Channel::BatteryVoltage, "13800"));
    assert_eq!(classify("RPM:4500"), update(Channel::EngineRpm, "4500"));
    assert_eq!(classify("RSI:-70"), update(Channel::SignalStrength, "-70"));
}

#[test]
fn fault_carries_its_detail() {
    assert_eq!(classify("FLT:OVERTEMP"), Decision::Fault("OVERTEMP".to_string()));
    assert_eq!(classify("FLT:"), Decision::Fault(String::new()));
    assert_eq!(classify("FLT:12"), Decision::Fault("12".to_string()));
}

#[test]
fn empty_line_and_acknowledgment_are_ignored() {
    assert_eq!(classify(""), Decision::Ignore);
    assert_eq!(classify("init ok"), Decision::Ignore);
}

#[test]
fn near_acknowledgments_are_rejected() {
    assert_eq!(classify("init  ok"), unrecognized("init  ok"));
    assert_eq!(classify(" init ok"), unrecognized(" init ok"));
    assert_eq!(classify("init ok "), unrecognized("init ok "));
    assert_eq!(classify("init ok!"), unrecognized("init ok!"));
    assert_eq!(classify("INIT OK"), unrecognized("INIT OK"));
    assert_eq!(classify("init"), unrecognized("init"));
}

#[test]
fn unknown_keys_are_rejected() {
    assert_eq!(classify("XYZ:5"), unrecognized("XYZ:5"));
    assert_eq!(classify("rpm:5"), unrecognized("rpm:5"));
    assert_eq!(classify("RPMS:5"), unrecognized("RPMS:5"));
    assert_eq!(classify("RP:5"), unrecognized("RP:5"));
    assert_eq!(classify(":5"), unrecognized(":5"));
    assert_eq!(classify("flt:x"), unrecognized("flt:x"));
}

#[test]
fn a_word_needs_exactly_one_colon() {
    assert_eq!(classify("RPM"), unrecognized("RPM"));
    assert_eq!(classify("RPM4500"), unrecognized("RPM4500"));
    assert_eq!(classify("RPM:45:00"), unrecognized("RPM:45:00"));
    assert_eq!(classify("RPM::4500"), unrecognized("RPM::4500"));
    assert_eq!(classify("RPM:4500:"), unrecognized("RPM:4500:"));
    assert_eq!(classify(":"), unrecognized(":"));
    assert_eq!(classify("::"), unrecognized("::"));
    assert_eq!(classify("FLT:a:b"), unrecognized("FLT:a:b"));
}

#[test]
fn more_than_one_word_is_rejected() {
    assert_eq!(classify("RPM:4500 extra"), unrecognized("RPM:4500 extra"));
    assert_eq!(classify("RPM:4500 P_O:40"), unrecognized("RPM:4500 P_O:40"));
    assert_eq!(classify("FLT:OVER TEMP"), unrecognized("FLT:OVER TEMP"));
    assert_eq!(classify("RPM: 4500"), unrecognized("RPM: 4500"));
    assert_eq!(classify("a b c"), unrecognized("a b c"));
    assert_eq!(classify("RPM:1\tx"), unrecognized("RPM:1\tx"));
}

#[test]
fn whitespace_alone_is_rejected() {
    assert_eq!(classify(" "), unrecognized(" "));
    assert_eq!(classify("   "), unrecognized("   "));
    assert_eq!(classify("\t"), unrecognized("\t"));
    assert_eq!(classify(" \t\r\n\x0C"), unrecognized(" \t\r\n\x0C"));
}

#[test]
fn whitespace_around_the_word_is_dropped() {
    assert_eq!(classify(" RPM:4500"), update(Channel::EngineRpm, "4500"));
    assert_eq!(classify("RPM:4500 "), update(Channel::EngineRpm, "4500"));
    assert_eq!(classify("\t RPM:4500\r"), update(Channel::EngineRpm, "4500"));
    assert_eq!(classify("  FLT:LOWOIL  "), Decision::Fault("LOWOIL".to_string()));
    assert_eq!(classify("  XYZ:5  "), unrecognized("  XYZ:5  "));
}

#[test]
fn values_are_carried_as_written() {
    assert_eq!(classify("RPM:"), update(Channel::EngineRpm, ""));
    assert_eq!(classify("RPM:notanumber"), update(Channel::EngineRpm, "notanumber"));
    assert_eq!(classify("RPM:99999"), update(Channel::EngineRpm, "99999"));
    assert_eq!(classify("RSI:+5"), update(Channel::SignalStrength, "+5"));
}

#[test]
fn characters_outside_ascii_are_handled() {
    assert_eq!(classify("RPM:é"), update(Channel::EngineRpm, "é"));
    assert_eq!(classify("é"), unrecognized("é"));
    assert_eq!(classify("FLT:überhitzt"), Decision::Fault("überhitzt".to_string()));
    assert_eq!(classify("éé:RPM:1"), unrecognized("éé:RPM:1"));
    assert_eq!(classify("ü RPM:1"), unrecognized("ü RPM:1"));
    // A no-break space and a vertical tab separate no words.
    assert_eq!(classify("RPM:1\u{a0}2"), update(Channel::EngineRpm, "1\u{a0}2"));
    assert_eq!(classify("RPM:1\x0B2"), update(Channel::EngineRpm, "1\x0B2"));
    assert_eq!(classify("\u{a0}"), unrecognized("\u{a0}"));
}

#[test]
fn classification_agrees_with_splitting() {
    let alphabet = ['R', 'P', 'M', ':', ' ', '1', '\t', 'F', 'L', 'T'];
    let mut texts: Vec<String> = vec![String::new()];
    let mut from = 0;
    for _ in 0..5 {
        let until = texts.len();
        for i in from..until {
            for c in alphabet {
                let mut t = texts[i].clone();
                t.push(c);
                texts.push(t);
            }
        }
        from = until;
    }
    for line in &texts {
        let words: Vec<&str> = line.split_ascii_whitespace().collect();
        let expected = if words.len() == 1 {
            let parts: Vec<&str> = words[0].split(':').collect();
            if parts.len() == 2 && parts[0] == "RPM" {
                update(Channel::EngineRpm, parts[1])
            } else if parts.len() == 2 && parts[0] == "FLT" {
                Decision::Fault(parts[1].to_string())
            } else {
                unrecognized(line)
            }
        } else if line.is_empty() || line == "init ok" {
            Decision::Ignore
        } else {
            unrecognized(line)
        };
        assert_eq!(classify(line), expected, "{:?}", line);
    }
}

#[test]
fn rejection_names_the_word_or_quotes_the_line() {
    assert_eq!(rejection("XYZ:5"), "Invalid key value pair XYZ:5");
    assert_eq!(rejection("  XYZ:5 "), "Invalid key value pair XYZ:5");
    assert_eq!(rejection("RPM"), "Invalid key value pair RPM");
    assert_eq!(rejection("a b"), "Invalid data line 'a b'");
    assert_eq!(rejection("  "), "Invalid data line '  '");
    assert_eq!(rejection("RPM:1 x"), "Invalid data line 'RPM:1 x'");
    assert_eq!(rejection("é:1"), "Invalid key value pair é:1");
}
