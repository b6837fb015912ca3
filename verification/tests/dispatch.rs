use pipeline_rs::parse::json::DispatchError;
use pipeline_rs::parse::json::JSONStreamHelper;
use pipeline_rs::parse::json::RecordHandler;

/// Keeps every record that it is handed and refuses the one at index `refuse_at`.
struct Collector {
    records: Vec<String>,
    refuse_at: Option<usize>,
}

impl Collector {
    fn new() -> Self {
        Collector { records: Vec::new(), refuse_at: None }
    }

    fn refusing(at: usize) -> Self {
        Collector { records: Vec::new(), refuse_at: Some(at) }
    }
}

impl RecordHandler for Collector {
    type Failure = String;

    fn handle(&mut self, record: &[u8]) -> Result<(), String> {
        let index = self.records.len();
        self.records.push(String::from_utf8(record.to_vec()).unwrap());
        if self.refuse_at == Some(index) {
            Err(format!("refused record {index}"))
        } else {
            Ok(())
        }
    }
}

fn records(helper: &JSONStreamHelper<Collector>, key: &str) -> Vec<String> {
    helper.handler(key).unwrap().records.clone()
}

#[test]
fn array_items_are_handed_over_in_order() {
    let source = br#"{
        "messages": [
            {"id": "1", "content": "Hello"},
            {"id": "2", "content": "World"}
        ]
    }"#;
    let mut helper = JSONStreamHelper::default();
    helper.on_object("messages", Collector::new());
    assert!(helper.run(source).is_ok());
    assert_eq!(
        records(&helper, "messages"),
        vec![r#"{"id":"1","content":"Hello"}"#, r#"{"id":"2","content":"World"}"#]
    );
}

#[test]
fn object_is_handed_over_once() {
    let source = br#"{"guild": {"id": "7", "name": "g"}, "other": 1}"#;
    let mut helper = JSONStreamHelper::default();
    helper.on_object("guild", Collector::new());
    assert!(helper.run(source).is_ok());
    assert_eq!(records(&helper, "guild"), vec![r#"{"id":"7","name":"g"}"#]);
}

#[test]
fn registered_scalar_is_skipped() {
    let source = br#"{"guild": 12, "channel": "text", "messages": null}"#;
    let mut helper = JSONStreamHelper::default();
    helper
        .on_object("guild", Collector::new())
        .on_object("channel", Collector::new())
        .on_object("messages", Collector::new());
    assert!(helper.run(source).is_ok());
    assert!(records(&helper, "guild").is_empty());
    assert!(records(&helper, "channel").is_empty());
    assert!(records(&helper, "messages").is_empty());
}

#[test]
fn array_of_scalars_is_handed_over_item_by_item() {
    let source = br#"{"ids": [1, "two", true, null, [3], 4.5e1]}"#;
    let mut helper = JSONStreamHelper::default();
    helper.on_object("ids", Collector::new());
    assert!(helper.run(source).is_ok());
    assert_eq!(records(&helper, "ids"), vec!["1", r#""two""#, "true", "null", "[3]", "4.5e1"]);
}

#[test]
fn empty_array_hands_over_nothing() {
    let source = br#"{"messages": []}"#;
    let mut helper = JSONStreamHelper::default();
    helper.on_object("messages", Collector::new());
    assert!(helper.run(source).is_ok());
    assert!(records(&helper, "messages").is_empty());
}

#[test]
fn empty_object_document_is_accepted() {
    let mut helper = JSONStreamHelper::default();
    helper.on_object("messages", Collector::new());
    assert!(helper.run(b"{}").is_ok());
    assert!(records(&helper, "messages").is_empty());
}

#[test]
fn unregistered_keys_are_skipped_whole() {
    let source = br#"{
        "a": {"deep": [{"deeper": [1, 2, {"x": null}]}]},
        "b": [[[[]]]],
        "c": "text",
        "messages": [{"id": "1"}],
        "d": 1e400
    }"#;
    let mut helper = JSONStreamHelper::default();
    helper.on_object("messages", Collector::new());
    assert!(helper.run(source).is_ok());
    assert_eq!(records(&helper, "messages"), vec![r#"{"id":"1"}"#]);
}

#[test]
fn unregistered_value_of_great_depth_is_skipped() {
    let depth = 5000;
    let mut source = String::from(r#"{"deep": "#);
    source.push_str(&"[".repeat(depth));
    source.push_str(&"]".repeat(depth));
    source.push_str(r#", "messages": [1]}"#);
    let mut helper = JSONStreamHelper::default();
    helper.on_object("messages", Collector::new());
    assert!(helper.run(source.as_bytes()).is_ok());
    assert_eq!(records(&helper, "messages"), vec!["1"]);
}

#[test]
fn registered_value_of_great_depth_is_handed_over() {
    let depth = 300;
    let mut nested = String::new();
    nested.push_str(&"[".repeat(depth));
    nested.push_str(&"]".repeat(depth));
    let source = format!(r#"{{"deep": {{"v": {nested}}}}}"#);
    let mut helper = JSONStreamHelper::default();
    helper.on_object("deep", Collector::new());
    assert!(helper.run(source.as_bytes()).is_ok());
    assert_eq!(records(&helper, "deep"), vec![format!(r#"{{"v":{nested}}}"#)]);
}

#[test]
fn later_registration_replaces_earlier() {
    let source = br#"{"messages": [1, 2, 3]}"#;
    let mut helper = JSONStreamHelper::default();
    helper.on_object("messages", Collector::refusing(0)).on_object("messages", Collector::new());
    assert!(helper.run(source).is_ok());
    assert_eq!(records(&helper, "messages"), vec!["1", "2", "3"]);
}

#[test]
fn key_occurring_twice_is_handled_twice() {
    let source = br#"{"m": [1], "x": 0, "m": {"a": 2}}"#;
    let mut helper = JSONStreamHelper::default();
    helper.on_object("m", Collector::new());
    assert!(helper.run(source).is_ok());
    assert_eq!(records(&helper, "m"), vec!["1", r#"{"a":2}"#]);
}

#[test]
fn refusal_ends_the_run_at_once() {
    let source = br#"{"first": [1, 2, 3], "second": {"a": 1}}"#;
    let mut helper = JSONStreamHelper::default();
    helper.on_object("first", Collector::refusing(1)).on_object("second", Collector::new());
    match helper.run(source) {
        Err(DispatchError::Handler(failure)) => assert_eq!(failure, "refused record 1"),
        _ => panic!("the refusal did not end the run"),
    }
    assert_eq!(records(&helper, "first"), vec!["1", "2"]);
    assert!(records(&helper, "second").is_empty());
}

#[test]
fn refusal_hides_a_later_fault() {
    let source = br#"{"first": [1, 2], "second": tru"#;
    let mut helper = JSONStreamHelper::default();
    helper.on_object("first", Collector::refusing(0));
    assert!(matches!(helper.run(source), Err(DispatchError::Handler(_))));
}

#[test]
fn top_level_array_is_a_fault() {
    let mut helper = JSONStreamHelper::default();
    helper.on_object("messages", Collector::new());
    assert!(matches!(helper.run(b"[1, 2]"), Err(DispatchError::Malformed(_))));
    assert!(matches!(helper.run(b"12"), Err(DispatchError::Malformed(_))));
    assert!(matches!(helper.run(b""), Err(DispatchError::Malformed(_))));
}

#[test]
fn truncated_document_is_a_fault() {
    let mut helper = JSONStreamHelper::default();
    helper.on_object("messages", Collector::new());
    assert!(matches!(helper.run(br#"{"messages": [1, 2"#), Err(DispatchError::Malformed(_))));
    assert_eq!(records(&helper, "messages"), vec!["1", "2"]);
    assert!(matches!(helper.run(br#"{"a": 1"#), Err(DispatchError::Malformed(_))));
    assert!(matches!(helper.run(br#"{"a""#), Err(DispatchError::Malformed(_))));
    assert!(matches!(helper.run(br#"{"#), Err(DispatchError::Malformed(_))));
}

#[test]
fn fault_inside_a_registered_value_is_a_fault_of_the_document() {
    let mut helper = JSONStreamHelper::default();
    helper.on_object("messages", Collector::new());
    assert!(matches!(
        helper.run(br#"{"messages": [{"id": 1}, {"id": 01}]}"#),
        Err(DispatchError::Malformed(_))
    ));
    assert_eq!(records(&helper, "messages"), vec![r#"{"id":1}"#]);
}

#[test]
fn fault_inside_a_skipped_value_is_a_fault_of_the_document() {
    let mut helper = JSONStreamHelper::default();
    helper.on_object("messages", Collector::new());
    assert!(matches!(
        helper.run(br#"{"other": {"a": [1, 2,]}, "messages": [1]}"#),
        Err(DispatchError::Malformed(_))
    ));
    assert!(records(&helper, "messages").is_empty());
    assert!(matches!(helper.run(br#"{"a": 1 "b": 2}"#), Err(DispatchError::Malformed(_))));
    assert!(matches!(helper.run(br#"{"a": 1,}"#), Err(DispatchError::Malformed(_))));
}

#[test]
fn what_follows_the_root_object_is_not_read() {
    let mut helper = JSONStreamHelper::default();
    helper.on_object("messages", Collector::new());
    assert!(helper.run(br#"{"messages": [1]} trailing"#).is_ok());
}

#[test]
fn two_runs_over_the_same_bytes_do_the_same() {
    let source = br#"{"a": [1, {"b": [2]}], "skip": [0], "c": {"d": "e"}}"#.to_vec();
    let copy = source.clone();
    let mut first = JSONStreamHelper::default();
    first.on_object("a", Collector::new()).on_object("c", Collector::new());
    let mut second = JSONStreamHelper::default();
    second.on_object("a", Collector::new()).on_object("c", Collector::new());
    assert!(first.run(&source).is_ok());
    assert!(second.run(&copy).is_ok());
    assert_eq!(records(&first, "a"), records(&second, "a"));
    assert_eq!(records(&first, "c"), records(&second, "c"));
    assert_eq!(records(&first, "a"), vec!["1", r#"{"b":[2]}"#]);
    assert_eq!(records(&first, "c"), vec![r#"{"d":"e"}"#]);
}

#[test]
fn strings_are_written_out_again_with_their_escapes() {
    let source = "{\"m\": [\"a\\nb \\u00e9 \\\"q\\\" \u{1F600}\"]}";
    let mut helper = JSONStreamHelper::default();
    helper.on_object("m", Collector::new());
    assert!(helper.run(source.as_bytes()).is_ok());
    assert_eq!(records(&helper, "m"), vec!["\"a\\nb \u{e9} \\\"q\\\" \u{1F600}\""]);
}

#[test]
fn handler_lookup_tells_what_is_registered() {
    let mut helper = JSONStreamHelper::default();
    helper.on_object("messages", Collector::new());
    assert!(helper.handler("messages").is_some());
    assert!(helper.handler("guild").is_none());
    assert!(JSONStreamHelper::<Collector>::new().handler("messages").is_none());
}

#[test]
fn every_cut_document_is_a_fault() {
    let source = r#"{"guild":{"id":"1","name":"gé"},"n":[1,-2.5e3,true,false,null,"s",[],{}],"messages":[{"id":"10","tags":["a","b"]},{"id":"11"}],"end":{"x":{"y":[{"z":1}]}}}"#.as_bytes();
    for cut in 0..source.len() {
        let mut helper = JSONStreamHelper::default();
        helper.on_object("guild", Collector::new()).on_object("messages", Collector::new());
        let outcome = helper.run(&source[..cut]);
        assert!(matches!(outcome, Err(DispatchError::Malformed(_))), "cut at {cut}");
    }
    let mut helper = JSONStreamHelper::default();
    helper.on_object("guild", Collector::new()).on_object("messages", Collector::new());
    assert!(helper.run(source).is_ok());
    assert_eq!(records(&helper, "guild"), vec!["{\"id\":\"1\",\"name\":\"g\u{e9}\"}"]);
    assert_eq!(
        records(&helper, "messages"),
        vec![r#"{"id":"10","tags":["a","b"]}"#, r#"{"id":"11"}"#]
    );
}

#[test]
fn every_damaged_document_ends_the_run_in_order() {
    let source = br#"{"guild":{"id":"1"},"n":[1,[2],{"a":null}],"messages":[{"id":"10"},[true],"s"]}"#;
    let damage = [b'{', b'}', b'[', b']', b',', b':', b'"', b'x', b' ', b'0', b'\\', 0x00, 0xff];
    for at in 0..source.len() {
        for byte in damage {
            let mut damaged = source.to_vec();
            damaged[at] = byte;
            let mut helper = JSONStreamHelper::default();
            helper.on_object("guild", Collector::new()).on_object("messages", Collector::new());
            match helper.run(&damaged) {
                Ok(()) | Err(DispatchError::Malformed(_)) => {}
                _ => panic!("damage at {at} with {byte}"),
            }
        }
    }
}

#[test]
fn records_do_not_depend_on_how_the_document_is_spelt() {
    let plain = br#"{"a":[{"k":"A/B","n":1.50}],"b":{"t":true}}"#;
    let spaced = b"\n{ \"a\" :\t[ { \"k\" : \"\\u0041\\/B\" , \"n\" : 1.50 } ] ,\r\n \"b\" : { \"t\" : true } }\n";
    let mut first = JSONStreamHelper::default();
    first.on_object("a", Collector::new()).on_object("b", Collector::new());
    let mut second = JSONStreamHelper::default();
    second.on_object("a", Collector::new()).on_object("b", Collector::new());
    assert!(first.run(plain).is_ok());
    assert!(second.run(spaced).is_ok());
    assert_eq!(records(&first, "a"), vec![r#"{"k":"A/B","n":1.50}"#]);
    assert_eq!(records(&first, "a"), records(&second, "a"));
    assert_eq!(records(&first, "b"), records(&second, "b"));
}

#[test]
fn escaped_key_is_matched_by_what_it_spells() {
    let source = br#"{"\u006dessages": [1], "messages ": [2]}"#;
    let mut helper = JSONStreamHelper::default();
    helper.on_object("messages", Collector::new());
    assert!(helper.run(source).is_ok());
    assert_eq!(records(&helper, "messages"), vec!["1"]);
}

#[test]
fn document_that_is_no_object_calls_no_handler() {
    for source in [&br#"[{"messages": [1, 2]}]"#[..], b"12", b"\"messages\"", b"", b"  ", b"]"] {
        let mut helper = JSONStreamHelper::default();
        helper.on_object("messages", Collector::new());
        assert!(matches!(helper.run(source), Err(DispatchError::Malformed(_))));
        assert!(records(&helper, "messages").is_empty());
    }
}

#[test]
fn what_was_handed_over_before_a_fault_stands() {
    let mut helper = JSONStreamHelper::default();
    helper.on_object("messages", Collector::new()).on_object("x", Collector::new());
    assert!(matches!(
        helper.run(br#"{"messages": [1, 2], "y": [3"#),
        Err(DispatchError::Malformed(_))
    ));
    assert_eq!(records(&helper, "messages"), vec!["1", "2"]);
    assert!(records(&helper, "x").is_empty());

    let mut helper = JSONStreamHelper::default();
    helper.on_object("messages", Collector::new()).on_object("x", Collector::new());
    assert!(matches!(
        helper.run(br#"{"messages": [1, 2], "x": [3, [4], {"a": 5"#),
        Err(DispatchError::Malformed(_))
    ));
    assert_eq!(records(&helper, "messages"), vec!["1", "2"]);
    assert_eq!(records(&helper, "x"), vec!["3", "[4]"]);

    let mut helper = JSONStreamHelper::default();
    helper.on_object("x", Collector::new());
    assert!(matches!(helper.run(br#"{"x": {"a": [1, 2"#), Err(DispatchError::Malformed(_))));
    assert!(records(&helper, "x").is_empty());
}

#[test]
fn failure_of_the_run_is_the_one_of_the_handler() {
    let source = br#"{"a": [1], "b": [2, 3]}"#;
    let mut helper = JSONStreamHelper::default();
    helper.on_object("a", Collector::new()).on_object("b", Collector::refusing(1));
    match helper.run(source) {
        Err(DispatchError::Handler(failure)) => assert_eq!(failure, "refused record 1"),
        _ => panic!("the refusal did not end the run"),
    }
    assert_eq!(records(&helper, "a"), vec!["1"]);
    assert_eq!(records(&helper, "b"), vec!["2", "3"]);
}
