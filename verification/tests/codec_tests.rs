use msg_relay::codec::{encode_frame, encode_message, parse_message_list};
use msg_relay::message::BridgeMessage;

fn msg(from: &str, fg: &str, to: &str, tg: &str, text: &str) -> BridgeMessage {
    BridgeMessage {
        from_name: from.to_string(),
        from_group: fg.to_string(),
        to_name: to.to_string(),
        to_group: tg.to_string(),
        message: text.to_string(),
        error_msg: None,
        sig: None,
    }
}

#[test]
fn encode_is_exact_json() {
    let m = msg("A1", "A", "B1", "B", "hello");
    assert_eq!(
        encode_message(&m),
        "{\"from_name\":\"A1\",\"from_group\":\"A\",\"to_name\":\"B1\",\
         \"to_group\":\"B\",\"message\":\"hello\",\"error_msg\":null,\"sig\":null}"
    );
    assert_eq!(
        encode_frame(&m),
        "{\"from_name\":\"A1\",\"from_group\":\"A\",\"to_name\":\"B1\",\
         \"to_group\":\"B\",\"message\":\"hello\",\"error_msg\":null,\"sig\":null}/*1^/"
    );
}

#[test]
fn encode_renders_error_and_signature() {
    let mut m = msg("A1", "A", "B1", "B", "x");
    m.error_msg = Some("can't find target".to_string());
    m.sig = Some(vec![0, 7, 255]);
    assert_eq!(
        encode_message(&m),
        "{\"from_name\":\"A1\",\"from_group\":\"A\",\"to_name\":\"B1\",\
         \"to_group\":\"B\",\"message\":\"x\",\
         \"error_msg\":\"can't find target\",\"sig\":[0,7,255]}"
    );
}

#[test]
fn frame_round_trip_plain() {
    let m = msg("A1", "A", "B1", "B", "hello");
    let wire = encode_frame(&m);
    let decoded = parse_message_list(&wire);
    assert_eq!(decoded.len(), 1);
    assert_eq!(decoded[0], m);
}

#[test]
fn frame_round_trip_with_signature_and_error() {
    let mut m = msg("A1", "A", "B1", "B", "payload");
    m.error_msg = Some("can't find target".to_string());
    m.sig = Some((0u16..=255).map(|b| b as u8).collect());
    let wire = encode_frame(&m);
    let decoded = parse_message_list(&wire);
    assert_eq!(decoded.len(), 1);
    assert_eq!(decoded[0], m);
}

#[test]
fn frame_round_trip_escaped_payload() {
    let m = msg("A1", "A", "B1", "B", "say \"hi\\there\" {x;y}");
    let wire = encode_frame(&m);
    let decoded = parse_message_list(&wire);
    assert_eq!(decoded.len(), 1);
    assert_eq!(decoded[0].message, "say \"hi\\there\" {x;y}");
}

#[test]
fn concatenated_frames_decode_in_order() {
    let mut wire = String::new();
    for i in 0..100 {
        let m = msg("A1", "A", "B1", "B", &format!("message number {}", i));
        wire.push_str(&encode_frame(&m));
    }
    let decoded = parse_message_list(&wire);
    assert_eq!(decoded.len(), 100);
    for i in 0..100 {
        assert_eq!(decoded[i].message, format!("message number {}", i));
        assert_eq!(decoded[i].from_name, "A1");
        assert_eq!(decoded[i].to_name, "B1");
    }
}

#[test]
fn malformed_fragments_are_dropped() {
    let m = msg("A1", "A", "B1", "B", "good");
    let wire = format!("not json at all/*1^/{}{{\"partial\":/*1^/", encode_frame(&m));
    let decoded = parse_message_list(&wire);
    assert_eq!(decoded.len(), 1);
    assert_eq!(decoded[0].message, "good");
}

#[test]
fn empty_fragments_are_dropped() {
    assert_eq!(parse_message_list("").len(), 0);
    assert_eq!(parse_message_list("/*1^//*1^/").len(), 0);
}

#[test]
fn reordered_fields_are_not_a_bridge_message() {
    // the wire grammar fixes the field order; anything else is discarded
    let wire = "{\"from_group\":\"A\",\"from_name\":\"A1\",\"to_name\":\"B1\",\
        \"to_group\":\"B\",\"message\":\"hello\",\"error_msg\":null,\"sig\":null}/*1^/";
    assert_eq!(parse_message_list(wire).len(), 0);
}

#[test]
fn payload_holding_the_delimiter_is_mis_split() {
    // the known framing limitation: the delimiter inside a payload splits
    // the frame apart and the message is lost
    let m = msg("A1", "A", "B1", "B", "evil /*1^/ payload");
    let wire = encode_frame(&m);
    assert_eq!(parse_message_list(&wire).len(), 0);
}
