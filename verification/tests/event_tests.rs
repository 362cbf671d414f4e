use event_router::event::Event;

fn encode_text(event: &Event) -> String {
    String::from_utf8(event.encode()).expect("wire records are valid text")
}

#[test]
fn encode_plain_event() {
    let event = Event::new(
        String::from("overlap"),
        1,
        String::from("{}"),
        String::from("t0"),
        0,
    );
    assert_eq!(
        encode_text(&event),
        "{\"type\":\"overlap\",\"version\":1,\"payload\":{},\"created_at\":\"t0\",\"created_at_micros\":0}"
    );
}

#[test]
fn encode_structured_payload_verbatim() {
    let event = Event::new(
        String::from("signup"),
        12,
        String::from("{\"user\":\"ada\",\"count\":3}"),
        String::from("2018-11-03T10:00:00Z"),
        1541239200000000,
    );
    assert_eq!(
        encode_text(&event),
        "{\"type\":\"signup\",\"version\":12,\"payload\":{\"user\":\"ada\",\"count\":3},\"created_at\":\"2018-11-03T10:00:00Z\",\"created_at_micros\":1541239200000000}"
    );
}

#[test]
fn encode_escapes_quotes_and_backslashes() {
    let event = Event::new(
        String::from("a\"b\\c"),
        0,
        String::from("null"),
        String::from("\\\""),
        9,
    );
    assert_eq!(
        encode_text(&event),
        "{\"type\":\"a\\\"b\\\\c\",\"version\":0,\"payload\":null,\"created_at\":\"\\\\\\\"\",\"created_at_micros\":9}"
    );
}

#[test]
fn encode_largest_counters() {
    let event = Event::new(
        String::from("t"),
        u32::MAX,
        String::from("0"),
        String::from(""),
        u64::MAX,
    );
    assert_eq!(
        encode_text(&event),
        "{\"type\":\"t\",\"version\":4294967295,\"payload\":0,\"created_at\":\"\",\"created_at_micros\":18446744073709551615}"
    );
}

#[test]
fn wire_round_trips_through_a_json_decoder() {
    let event = Event::new(
        String::from("overlap"),
        7,
        String::from("{\"nested\":[1,2,{\"deep\":\"q\\\"uote\"}]}"),
        String::from("line\\feed"),
        123456789,
    );
    let text = encode_text(&event);
    let value: serde_json::Value = serde_json::from_str(&text).expect("the wire record is JSON");

    assert_eq!(value.get("type").unwrap().as_str().unwrap(), "overlap");
    assert_eq!(value.get("version").unwrap().as_u64().unwrap(), 7);
    assert_eq!(
        value.get("created_at").unwrap().as_str().unwrap(),
        "line\\feed"
    );
    assert_eq!(
        value.get("created_at_micros").unwrap().as_u64().unwrap(),
        123456789
    );
    let payload = value.get("payload").unwrap();
    let deep = payload.get("nested").unwrap().get(2).unwrap();
    assert_eq!(deep.get("deep").unwrap().as_str().unwrap(), "q\"uote");

    // Encoding what was decoded loses no field.
    let reencoded: serde_json::Value =
        serde_json::from_str(&serde_json::to_string(&value).unwrap()).unwrap();
    assert_eq!(value, reencoded);
}
