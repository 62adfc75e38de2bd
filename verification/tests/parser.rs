use amcx::parsing_error::{InnerParsingError, NumberError};
use amcx::raw::{AccelSR, Bits, Clock, Config, GyroSR};
use amcx::raw_parsing::{
    parse_config, parse_duration, parse_references, parse_sample, parse_sensors, raw_parse,
};

#[test]
fn config_valid() {
    let config = parse_config(Some((1, "?[ BITS=8 ACCEL_SR=4 GYRO_SR=500 CLOCK=milli ]"))).unwrap();
    assert_eq!(
        config,
        Config { bits: Bits::_8, clock: Clock::Milli, accel_sr: AccelSR::_4, gyro_sr: GyroSR::_500 }
    );
    // both spellings of the range keys are accepted
    let config = parse_config(Some((1, "?[ BITS=32 ACC_FS=16 GYRO_FS=2000 CLOCK=micro ]"))).unwrap();
    assert_eq!(config.bits.as_u8(), 32);
    assert_eq!(config.clock, Clock::Micro);
    assert_eq!(config.accel_sr, AccelSR::_16);
    assert_eq!(config.gyro_sr, GyroSR::_2000);
    // BITS is optional and defaults to 16; the clock match ignores case
    let config = parse_config(Some((1, "?[ ACCEL_SR=2 GYRO_SR=250 CLOCK=MICRO ]"))).unwrap();
    assert_eq!(config.bits, Bits::_16);
    assert_eq!(config.clock, Clock::Micro);
}

#[test]
fn config_invalid() {
    let invalid_block = "[ BITS=16 ACC_FS=2 GYRO_FS=250 CLOCK=micro ]";
    let invalid_duplicate = "?[ BITS=16 ACC_FS=2 GYRO_FS=250 BITS=16 CLOCK=micro ]";
    let invalid_key_value = "?[ UNKNOWN:10 BITS=16 ACC_FS=2 GYRO_FS=250 CLOCK=micro ]";
    let invalid_key = "?[ UNKNOWN=10 BITS=16 ACC_FS=2 GYRO_FS=250 CLOCK=micro ]";
    let invalid_bits = "?[ BITS=15 ACC_FS=2 GYRO_FS=250 CLOCK=micro ]";
    let invalid_acc = "?[ BITS=16 ACC_FS=3 GYRO_FS=250 CLOCK=micro ]";
    let invalid_gyro = "?[ BITS=16 ACC_FS=2 GYRO_FS=20 CLOCK=micro ]";
    let invalid_clock = "?[ BITS=16 ACC_FS=2 GYRO_FS=250 CLOCK=sec ]";
    let invalid_missing = "?[ BITS=16 GYRO_FS=250 CLOCK=micro ]";

    let invalid = [
        invalid_block,
        invalid_duplicate,
        invalid_key_value,
        invalid_key,
        invalid_bits,
        invalid_acc,
        invalid_gyro,
        invalid_clock,
        invalid_missing,
    ];

    for inv in invalid {
        assert!(parse_config(Some((1, inv))).is_err());
    }
    // a missing line is reported without a line number
    let err = parse_config(None).unwrap_err();
    assert_eq!(err.line, None);
}

#[test]
fn config_error_kinds() {
    let err = parse_config(Some((1, "?[ BITS=16 ACC_FS=2 GYRO_FS=250 BITS=16 CLOCK=micro ]")))
        .unwrap_err();
    match err.inner {
        InnerParsingError::ConfigDuplicate(key) => assert_eq!(key, "BITS"),
        other => panic!("wrong error: {:?}", other),
    }
    // the two spellings of a range key name one config slot
    let err =
        parse_config(Some((1, "?[ ACC_FS=2 ACCEL_SR=2 GYRO_FS=250 CLOCK=micro ]"))).unwrap_err();
    match err.inner {
        InnerParsingError::ConfigDuplicate(key) => assert_eq!(key, "ACCEL_SR"),
        other => panic!("wrong error: {:?}", other),
    }
    let err = parse_config(Some((1, "?[ ACC_FS=2 GYRO_FS=250 ]"))).unwrap_err();
    match err.inner {
        InnerParsingError::ConfigMissing(key) => assert_eq!(key, "CLOCK"),
        other => panic!("wrong error: {:?}", other),
    }
    let err = parse_config(Some((1, "?[ UNKNOWN=10 ACC_FS=2 GYRO_FS=250 CLOCK=micro ]")))
        .unwrap_err();
    match err.inner {
        InnerParsingError::ConfigUnknownKey(key) => assert_eq!(key, "UNKNOWN"),
        other => panic!("wrong error: {:?}", other),
    }
    let err = parse_config(Some((1, "?[ BITS=15 ACC_FS=2 GYRO_FS=250 CLOCK=micro ]")))
        .unwrap_err();
    match err.inner {
        InnerParsingError::ConfigUnsupportedValue { value, key, valid_values } => {
            assert_eq!(value, "15");
            assert_eq!(key, "BITS");
            assert_eq!(valid_values, vec!["8", "16", "32"]);
        },
        other => panic!("wrong error: {:?}", other),
    }
    let err = parse_config(Some((1, "?[ UNKNOWN:10 ACC_FS=2 GYRO_FS=250 CLOCK=micro ]")))
        .unwrap_err();
    match err.inner {
        InnerParsingError::TokenUnexpected { expected, found } => {
            assert_eq!(expected, "KEY=VALUE");
            assert_eq!(found, "UNKNOWN:10");
        },
        other => panic!("wrong error: {:?}", other),
    }
}

#[test]
fn reference_valid() {
    let names = parse_references(Some((2, "&[ Hips Spine Head ]"))).unwrap();
    assert_eq!(names, vec!["Hips".to_string(), "Spine".to_string(), "Head".to_string()]);
    let names = parse_sensors("L_Arm   R_Arm").unwrap();
    assert_eq!(names, vec!["L_Arm".to_string(), "R_Arm".to_string()]);
    // an empty reference line holds no sensors
    assert_eq!(parse_references(Some((2, "&[ ]"))).unwrap().len(), 0);
}

#[test]
fn reference_invalid() {
    // a duplicate name is fatal and carries the line number
    let err = parse_references(Some((7, "&[A A]"))).unwrap_err();
    assert_eq!(err.line, Some(7));
    match err.inner {
        InnerParsingError::SensorNameDuplicate(name) => assert_eq!(name, "A"),
        other => panic!("wrong error: {:?}", other),
    }
    // the brackets are mandatory
    assert!(parse_references(Some((2, "[ A B ]"))).is_err());
    assert!(parse_references(Some((2, "&[ A B"))).is_err());
    assert!(parse_references(None).is_err());
}

#[test]
fn sample_valid() {
    assert_eq!(parse_sample("1 2 3 4 5 6").unwrap(), [1, 2, 3, 4, 5, 6]);
    assert_eq!(
        parse_sample("-32768 32767 0 -1 +5 2147483647").unwrap(),
        [-32768, 32767, 0, -1, 5, 2147483647]
    );
    assert_eq!(parse_sample(" -2147483648 1 1 1 1 1 ").unwrap(), [-2147483648, 1, 1, 1, 1, 1]);
}

#[test]
fn sample_invalid() {
    // too few integers
    match parse_sample("1 2 3 4 5").unwrap_err() {
        InnerParsingError::TokenExpected(what) => assert_eq!(what, "number"),
        other => panic!("wrong error: {:?}", other),
    }
    // too many integers
    match parse_sample("1 2 3 4 5 6 7").unwrap_err() {
        InnerParsingError::TokenUnexpected { expected, found } => {
            assert_eq!(expected, "]");
            assert_eq!(found, "7");
        },
        other => panic!("wrong error: {:?}", other),
    }
    // malformed and out-of-range integers
    match parse_sample("1 2 x 4 5 6").unwrap_err() {
        InnerParsingError::NumberParsing(e) => assert_eq!(e, NumberError::InvalidDigit),
        other => panic!("wrong error: {:?}", other),
    }
    match parse_sample("2147483648 2 3 4 5 6").unwrap_err() {
        InnerParsingError::NumberParsing(e) => assert_eq!(e, NumberError::PosOverflow),
        other => panic!("wrong error: {:?}", other),
    }
    match parse_sample("-2147483649 2 3 4 5 6").unwrap_err() {
        InnerParsingError::NumberParsing(e) => assert_eq!(e, NumberError::NegOverflow),
        other => panic!("wrong error: {:?}", other),
    }
}

#[test]
fn duration_valid() {
    assert_eq!(parse_duration("10", &Clock::Milli).unwrap(), 10_000);
    assert_eq!(parse_duration("10", &Clock::Micro).unwrap(), 10);
    assert_eq!(parse_duration("0", &Clock::Milli).unwrap(), 0);
    assert_eq!(parse_duration("4294967295", &Clock::Milli).unwrap(), 4_294_967_295_000);
}

#[test]
fn duration_invalid() {
    assert!(parse_duration("", &Clock::Milli).is_err());
    assert!(parse_duration("abc", &Clock::Micro).is_err());
    // a delta is unsigned
    assert!(parse_duration("-5", &Clock::Milli).is_err());
    assert!(parse_duration("4294967296", &Clock::Milli).is_err());
}

#[test]
fn parsing_valid() {
    let text = "?[ BITS=16 ACC_FS=2 GYRO_FS=250 CLOCK=micro ]\n\
                &[ A B ]\n\
                10\n\
                [ 1 2 3 4 5 6 ]\n\
                [ 7 8 9 10 11 12 ]\n\
                20\n\
                [ 0 0 1 0 0 0 ]\n\
                [ 1 1 1 1 1 1 ]\n";
    let file = raw_parse(text).unwrap();
    assert_eq!(file.config.bits, Bits::_16);
    assert_eq!(file.config.clock, Clock::Micro);
    assert_eq!(file.sensors, vec!["A".to_string(), "B".to_string()]);
    assert_eq!(file.clusters.len(), 2);
    assert_eq!(file.clusters[0].delta, 10);
    assert_eq!(file.clusters[0].samples, vec![[1, 2, 3, 4, 5, 6], [7, 8, 9, 10, 11, 12]]);
    assert_eq!(file.clusters[1].delta, 20);
    assert_eq!(file.clusters[1].samples, vec![[0, 0, 1, 0, 0, 0], [1, 1, 1, 1, 1, 1]]);
}

#[test]
fn parsing_invalid() {
    // nothing at all
    let err = raw_parse("").unwrap_err();
    assert_eq!(err.line, None);
    // something else where the config line must stand
    let err = raw_parse("x\n&[ A ]\n").unwrap_err();
    assert_eq!(err.line, Some(1));
    // missing reference line
    assert!(raw_parse("?[ ACC_FS=2 GYRO_FS=250 CLOCK=micro ]\n").is_err());
    // a cluster needs one sample block per sensor
    let err = raw_parse(
        "?[ ACC_FS=2 GYRO_FS=250 CLOCK=micro ]\n&[ A B ]\n10\n[ 1 2 3 4 5 6 ]\n",
    )
    .unwrap_err();
    assert_eq!(err.line, None);
    match err.inner {
        InnerParsingError::TokenExpected(what) => assert_eq!(what, "[...]"),
        other => panic!("wrong error: {:?}", other),
    }
    // a delta line must be a bare integer
    let err = raw_parse("?[ ACC_FS=2 GYRO_FS=250 CLOCK=micro ]\n&[ A ]\nten\n[ 1 2 3 4 5 6 ]\n")
        .unwrap_err();
    assert_eq!(err.line, Some(3));
}

#[test]
fn amcx_parser_config_valid() {
    let valid_config = "?[ BITS=16 ACC_FS=2 GYRO_FS=250 CLOCK=micro ]";
    let config = parse_config(Some((0, valid_config))).unwrap();
    assert_eq!(config.bits.as_u8(), 16);
    assert_eq!(config.clock, Clock::Micro);
    assert_eq!(config.accel_sr.range_g(), 2);
    assert_eq!(config.gyro_sr.range_deg(), 250);

    let valid_config_spacing = "?[BITS=16   ACC_FS=2    GYRO_FS=250 CLOCK=micro]";
    let config = parse_config(Some((0, valid_config_spacing))).unwrap();
    assert_eq!(config.bits.as_u8(), 16);
    assert_eq!(config.clock, Clock::Micro);
    assert_eq!(config.accel_sr.range_g(), 2);
    assert_eq!(config.gyro_sr.range_deg(), 250);

    let valid_config_default_bits = "?[ ACC_FS=2 GYRO_FS=250 CLOCK=micro ]";
    let config = parse_config(Some((0, valid_config_default_bits))).unwrap();
    assert_eq!(config.bits.as_u8(), 16);
    assert_eq!(config.clock, Clock::Micro);
    assert_eq!(config.accel_sr.range_g(), 2);
    assert_eq!(config.gyro_sr.range_deg(), 250);
}

#[test]
fn amcx_parser_config_invalid() {
    let invalid_block = "[ BITS=16 ACC_FS=2 GYRO_FS=250 CLOCK=micro ]";
    let invalid_duplicate = "?[ BITS=16 ACC_FS=2 GYRO_FS=250 BITS=16 CLOCK=micro ]";
    let invalid_key_value = "?[ UNKNOWN:10 BITS=16 ACC_FS=2 GYRO_FS=250 CLOCK=micro ]";
    let invalid_key = "?[ UNKNOWN=10 BITS=16 ACC_FS=2 GYRO_FS=250 CLOCK=micro ]";
    let invalid_bits = "?[ BITS=15 ACC_FS=2 GYRO_FS=250 CLOCK=micro ]";
    let invalid_acc = "?[ BITS=16 ACC_FS=3 GYRO_FS=250 CLOCK=micro ]";
    let invalid_gyro = "?[ BITS=16 ACC_FS=2 GYRO_FS=20 CLOCK=micro ]";
    let invalid_clock = "?[ BITS=16 ACC_FS=2 GYRO_FS=250 CLOCK=sec ]";
    let invalid_missing = "?[ BITS=16 GYRO_FS=250 CLOCK=micro ]";

    let invalid = [
        invalid_block,
        invalid_duplicate,
        invalid_key_value,
        invalid_key,
        invalid_bits,
        invalid_acc,
        invalid_gyro,
        invalid_clock,
        invalid_missing,
    ];

    for inv in invalid {
        assert!(parse_config(Some((1, inv))).is_err());
    }
}

#[test]
fn amcx_parser_reference_valid() {
    let names = parse_references(Some((2, "&[A]"))).unwrap();
    assert_eq!(names, vec!["A".to_string()]);
    let names = parse_references(Some((2, "&[  A   B  ]"))).unwrap();
    assert_eq!(names, vec!["A".to_string(), "B".to_string()]);
}

#[test]
fn amcx_parser_reference_invalid() {
    // the duplicate name is the one reported
    let err = parse_references(Some((2, "&[ A B B ]"))).unwrap_err();
    match err.inner {
        InnerParsingError::SensorNameDuplicate(name) => assert_eq!(name, "B"),
        other => panic!("wrong error: {:?}", other),
    }
    match parse_sensors("C C").unwrap_err() {
        InnerParsingError::SensorNameDuplicate(name) => assert_eq!(name, "C"),
        other => panic!("wrong error: {:?}", other),
    }
}

#[test]
fn amcx_parser_sample_valid() {
    assert_eq!(parse_sample("0 0 0 0 0 0").unwrap(), [0; 6]);
    assert_eq!(parse_sample("  10   -20 30 -40 50 -60 ").unwrap(), [10, -20, 30, -40, 50, -60]);
}

#[test]
fn amcx_parser_sample_invalid() {
    assert!(parse_sample("").is_err());
    assert!(parse_sample("1 2 3").is_err());
    assert!(parse_sample("1 2 3 4 5 6.5").is_err());
    assert!(parse_sample("1 2 3 4 5 six").is_err());
}

#[test]
fn amcx_parser_duration_valid() {
    assert_eq!(parse_duration("+7", &Clock::Micro).unwrap(), 7);
    assert_eq!(parse_duration("1000", &Clock::Milli).unwrap(), 1_000_000);
}

#[test]
fn amcx_parser_duration_invalid() {
    assert!(parse_duration("+", &Clock::Micro).is_err());
    assert!(parse_duration("1 0", &Clock::Micro).is_err());
    assert!(parse_duration("0x10", &Clock::Micro).is_err());
}

#[test]
fn amcx_parser_parsing_valid() {
    // blank lines and indentation are ignored; line numbers count raw lines
    let text = "\n  ?[ ACC_FS=8 GYRO_FS=1000 CLOCK=milli ]  \n\n &[ Root Child ]\n\n5\n [ 1 2 3 4 5 6 ]\n[ 6 5 4 3 2 1 ]\n\n";
    let file = raw_parse(text).unwrap();
    assert_eq!(file.config.accel_sr, AccelSR::_8);
    assert_eq!(file.config.gyro_sr, GyroSR::_1000);
    assert_eq!(file.config.clock, Clock::Milli);
    assert_eq!(file.sensors, vec!["Root".to_string(), "Child".to_string()]);
    assert_eq!(file.clusters.len(), 1);
    assert_eq!(file.clusters[0].delta, 5);
    // a capture may hold no clusters at all
    let file = raw_parse("?[ ACC_FS=2 GYRO_FS=250 CLOCK=micro ]\n&[ A ]\n").unwrap();
    assert_eq!(file.clusters.len(), 0);
}

#[test]
fn amcx_parser_parsing_invalid() {
    // the config error keeps its line number behind blank lines
    let err = raw_parse("\n\n?[ ACC_FS=3 GYRO_FS=250 CLOCK=micro ]\n&[ A ]\n").unwrap_err();
    assert_eq!(err.line, Some(3));
    // a malformed sample block is attributed to its line
    let err = raw_parse(
        "?[ ACC_FS=2 GYRO_FS=250 CLOCK=micro ]\n&[ A ]\n10\n( 1 2 3 4 5 6 )\n",
    )
    .unwrap_err();
    assert_eq!(err.line, Some(4));
    match err.inner {
        InnerParsingError::TokenUnexpected { expected, .. } => assert_eq!(expected, "[...]"),
        other => panic!("wrong error: {:?}", other),
    }
}
