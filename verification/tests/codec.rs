use session_link::codec::{decode, encode, encode_response, DecodeError};
use session_link::command::Command;
use session_link::number::Number;
use session_link::response::{Parameters, Response};

fn number(text: &str) -> Number {
    Number::parse(text.as_bytes()).unwrap()
}

fn value_of(number: &Number) -> f64 {
    std::str::from_utf8(number.as_bytes()).unwrap().parse().unwrap()
}

fn parameters(entries: &[(&str, &str)]) -> Response {
    let mut mapping = Parameters::new();
    for (name, value) in entries {
        assert!(mapping.insert(name.to_string(), number(value)));
    }
    Response::Parameters(mapping)
}

fn json(frame: &[u8]) -> serde_json::Value {
    serde_json::from_slice(frame).unwrap()
}

#[test]
fn commands_without_fields_are_a_tag() {
    assert_eq!(encode(&Command::ListParameters), b"{\"type\":\"ListParameters\"}\n".to_vec());
    assert_eq!(encode(&Command::ListSignals), b"{\"type\":\"ListSignals\"}\n".to_vec());
    assert_eq!(
        encode(&Command::CloseListenerThread),
        b"{\"type\":\"CloseListenerThread\"}\n".to_vec()
    );
}

#[test]
fn commands_with_a_name_carry_it() {
    let get = Command::GetParameterValue { name: "gain".to_string() };
    assert_eq!(encode(&get), b"{\"type\":\"GetParameterValue\",\"name\":\"gain\"}\n".to_vec());
    let subscribe = Command::SubscribeToSignal { name: "speed".to_string() };
    assert_eq!(
        encode(&subscribe),
        b"{\"type\":\"SubscribeToSignal\",\"name\":\"speed\"}\n".to_vec()
    );
}

#[test]
fn set_parameter_value_is_written_with_its_number() {
    let set = Command::SetParameterValue { name: "gain".to_string(), value: number("3.5") };
    let frame = encode(&set);
    assert_eq!(
        frame,
        b"{\"type\":\"SetParameterValue\",\"name\":\"gain\",\"value\":3.5}\n".to_vec()
    );
    let read = json(&frame);
    assert_eq!(read["type"].as_str(), Some("SetParameterValue"));
    assert_eq!(read["name"].as_str(), Some("gain"));
    assert_eq!(read["value"].as_f64(), Some(3.5));
    assert_eq!(read.as_object().unwrap().len(), 3);
}

#[test]
fn a_frame_is_one_line() {
    let name = "two\nlines \"quoted\" back\\slash\ttab \u{1}".to_string();
    let frame = encode(&Command::GetParameterValue { name: name.clone() });
    assert_eq!(frame.last(), Some(&b'\n'));
    assert_eq!(frame.iter().filter(|b| **b == b'\n').count(), 1);
    assert_eq!(json(&frame)["name"].as_str(), Some(name.as_str()));
}

#[test]
fn names_are_escaped_as_a_json_writer_does() {
    let name = "a\"b\\c\u{8}\u{c}\n\r\t\u{0}\u{1f}\u{7f}é€😀".to_string();
    let frame = encode(&Command::SubscribeToSignal { name: name.clone() });
    let expected = format!(
        "{{\"type\":\"SubscribeToSignal\",\"name\":{}}}\n",
        serde_json::to_string(&name).unwrap()
    );
    assert_eq!(String::from_utf8(frame).unwrap(), expected);
}

#[test]
fn parameters_frame_is_decoded() {
    let frame = b"{\"type\":\"Parameters\",\"0\":{\"gain\":3.5,\"offset\":-1.0}}";
    match decode(frame) {
        Ok(Response::Parameters(mapping)) => {
            assert_eq!(mapping.len(), 2);
            assert_eq!(mapping.name_at(0), "gain");
            assert_eq!(value_of(mapping.value_at(0)), 3.5);
            assert_eq!(mapping.name_at(1), "offset");
            assert_eq!(value_of(mapping.value_at(1)), -1.0);
            assert_eq!(mapping.get("offset").map(value_of), Some(-1.0));
            assert_eq!(mapping.get("phase"), None);
            assert_eq!(mapping.position("offset"), Some(1));
        }
        other => panic!("{:?}", other),
    }
}

#[test]
fn done_frame_is_decoded() {
    assert_eq!(decode(b"{\"type\":\"Done\"}\n"), Ok(Response::Done));
    assert_eq!(decode(b"{\"type\":\"Done\"}"), Ok(Response::Done));
}

#[test]
fn an_empty_mapping_is_decoded() {
    assert_eq!(decode(b"{\"type\":\"Parameters\",\"0\":{}}\n"), Ok(parameters(&[])));
}

#[test]
fn a_tag_without_its_fields_is_an_unknown_variant() {
    let frames: [&[u8]; 6] = [
        b"{\"type\":\"Parameters\"}",
        b"{\"type\":\"Parameters\"}\n",
        b"{\"type\":\"Parameters\"",
        b"{\"type\":\"Parameters\",\"1\":{\"gain\":3.5}}",
        b"{\"type\":\"Parameters\",\"name\":\"gain\"}",
        b"{\"type\":\"Parameters\",\"0\"",
    ];
    for frame in frames {
        assert_eq!(decode(frame), Err(DecodeError::UnknownVariant), "{:?}", frame);
    }
}

#[test]
fn other_bytes_are_malformed() {
    let frames: [&[u8]; 15] = [
        b"",
        b"\n",
        b"garbage",
        b"{\"type\":\"Bogus\"}",
        b"{\"type\":\"ListParameters\"}",
        b"{\"type\":\"Done\"}\n\n",
        b"{\"type\":\"Done\",\"0\":{}}",
        b"{\"type\":\"Done\"} ",
        b"{\"type\":\"Parameters\",\"0\":{\"gain\":3.5}",
        b"{\"type\":\"Parameters\",\"0\":{\"gain\":3.5,}}",
        b"{\"type\":\"Parameters\",\"0\":{\"gain\":\"high\"}}",
        b"{\"type\":\"Parameters\",\"0\":{\"gain\":3.5}}x",
        b"{\"type\":\"Parameters\",\"0\":[]}",
        b"{\"type\":\"Parameters\",\"0\":",
        b"{\"type\":\"Parameter\"}",
    ];
    for frame in frames {
        assert_eq!(decode(frame), Err(DecodeError::MalformedFrame), "{:?}", frame);
    }
}

#[test]
fn values_that_are_not_finite_are_malformed() {
    for value in ["NaN", "Infinity", "-Infinity", "inf", "nan", "1e", "--1", "01", ".5", "5."] {
        let frame = format!("{{\"type\":\"Parameters\",\"0\":{{\"gain\":{}}}}}", value);
        assert_eq!(decode(frame.as_bytes()), Err(DecodeError::MalformedFrame), "{}", value);
    }
}

#[test]
fn a_name_that_is_written_twice_is_malformed() {
    let frame = b"{\"type\":\"Parameters\",\"0\":{\"gain\":1,\"gain\":2}}";
    assert_eq!(decode(frame), Err(DecodeError::MalformedFrame));
}

#[test]
fn a_name_that_is_no_utf8_is_malformed() {
    let mut frame = b"{\"type\":\"Parameters\",\"0\":{\"".to_vec();
    frame.extend_from_slice(&[0xff, 0xfe]);
    frame.extend_from_slice(b"\":1}}");
    assert_eq!(decode(&frame), Err(DecodeError::MalformedFrame));
    let mut cut = b"{\"type\":\"Parameters\",\"0\":{\"".to_vec();
    cut.extend_from_slice(&"é".as_bytes()[..1]);
    cut.extend_from_slice(b"\":1}}");
    assert_eq!(decode(&cut), Err(DecodeError::MalformedFrame));
}

#[test]
fn names_beyond_ascii_are_read_as_text() {
    let frame = "{\"type\":\"Parameters\",\"0\":{\"größe\":2,\"温度\":21.5}}";
    match decode(frame.as_bytes()) {
        Ok(Response::Parameters(mapping)) => {
            assert_eq!(mapping.name_at(0), "größe");
            assert_eq!(mapping.name_at(1), "温度");
            assert_eq!(value_of(mapping.value_at(1)), 21.5);
        }
        other => panic!("{:?}", other),
    }
}

#[test]
fn escapes_that_the_encoder_does_not_write_are_refused() {
    for name in ["\\u0041", "\\/", "\\u000A", "\\u000a", "\\x41", "\\"] {
        let frame = format!("{{\"type\":\"Parameters\",\"0\":{{\"{}\":1}}}}", name);
        assert_eq!(decode(frame.as_bytes()), Err(DecodeError::MalformedFrame), "{}", name);
    }
}

#[test]
fn responses_come_back_from_their_frames() {
    let responses = [
        Response::Done,
        parameters(&[]),
        parameters(&[("gain", "3.5")]),
        parameters(&[("gain", "3.5"), ("offset", "-1.0"), ("rate", "1e-7"), ("big", "-12.5E+300")]),
        parameters(&[("", "0"), ("a\"b", "1"), ("c\\d", "2"), ("e\nf", "3"), ("\u{0}\u{1f}", "4")]),
        parameters(&[("größe", "2"), ("温度", "21.5"), ("😀", "-0")]),
    ];
    for response in responses {
        let frame = encode_response(&response);
        assert_eq!(frame.last(), Some(&b'\n'));
        assert_eq!(decode(&frame), Ok(response.clone()));
        assert_eq!(decode(&frame[..frame.len() - 1]), Ok(response));
    }
}

#[test]
fn many_parameters_come_back_from_their_frame() {
    let mut mapping = Parameters::new();
    for i in 0..200 {
        assert!(mapping.insert(format!("parameter {}", i), number(&format!("{}.25", i))));
    }
    let response = Response::Parameters(mapping);
    assert_eq!(decode(&encode_response(&response)), Ok(response));
}

#[test]
fn response_frames_are_json() {
    let response = parameters(&[("gain", "3.5"), ("off\"set", "-1.0")]);
    let read = json(&encode_response(&response));
    assert_eq!(read["type"].as_str(), Some("Parameters"));
    assert_eq!(read["0"]["gain"].as_f64(), Some(3.5));
    assert_eq!(read["0"]["off\"set"].as_f64(), Some(-1.0));
    assert_eq!(read["0"].as_object().unwrap().len(), 2);
    assert_eq!(json(&encode_response(&Response::Done))["type"].as_str(), Some("Done"));
}

#[test]
fn a_mapping_keeps_each_name_once() {
    let mut mapping = Parameters::new();
    assert!(mapping.insert("gain".to_string(), number("1")));
    assert!(!mapping.insert("gain".to_string(), number("2")));
    assert_eq!(mapping.len(), 1);
    assert_eq!(mapping.get("gain").map(value_of), Some(1.0));
}

#[test]
fn different_commands_have_different_frames() {
    let commands = [
        Command::ListParameters,
        Command::ListSignals,
        Command::CloseListenerThread,
        Command::GetParameterValue { name: "gain".to_string() },
        Command::GetParameterValue { name: "gain\"".to_string() },
        Command::SubscribeToSignal { name: "gain".to_string() },
        Command::SetParameterValue { name: "gain".to_string(), value: number("1") },
        Command::SetParameterValue { name: "gain".to_string(), value: number("1.0") },
        Command::SetParameterValue { name: "gain\",\"value\":1".to_string(), value: number("1") },
    ];
    for (i, one) in commands.iter().enumerate() {
        for (j, other) in commands.iter().enumerate() {
            assert_eq!(encode(one) == encode(other), i == j);
        }
    }
}

#[test]
fn a_table_of_parameters_goes_by_name() {
    let frame = "{\"type\":\"Parameters\",\"0\":{\"offset\":-1.0,\"gain\":3.5,\"Zeta\":1,\"gains\":2,\"\":0,\"é\":4}}";
    match decode(frame.as_bytes()) {
        Ok(Response::Parameters(mapping)) => {
            let names: Vec<String> = mapping.sorted().into_iter().map(|entry| entry.0).collect();
            assert_eq!(names, vec!["", "Zeta", "gain", "gains", "offset", "é"]);
            let values: Vec<f64> = mapping.sorted().iter().map(|entry| value_of(&entry.1)).collect();
            assert_eq!(values, vec![0.0, 1.0, 3.5, 2.0, -1.0, 4.0]);
            assert_eq!(mapping.name_at(0), "offset");
        }
        other => panic!("{:?}", other),
    }
}
