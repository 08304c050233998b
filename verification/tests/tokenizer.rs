use log_event::{
    tokenize, BuildError, Conversion, ConvertError, KeyOrder, LogEvent, Lookup, LookupBuf,
    Tokenizer, TokenizerConfig, Value,
};

fn convert(conversion: Conversion, part: &str) -> Option<Value> {
    match conversion.convert(part) {
        Ok(value) => Some(value),
        Err(ConvertError::ReadElsewhere) => match conversion {
            Conversion::Float => part.parse::<f64>().ok().map(|f| Value::Float(f.to_bits())),
            _ => None,
        },
        Err(_) => None,
    }
}

fn parse_log(
    text: &str,
    fields: &str,
    field: Option<LookupBuf>,
    drop_field: bool,
    types: &[(&str, &str)],
) -> LogEvent {
    let event = LogEvent::from_pairs(vec![("message".to_string(), Value::text(text))]);
    let field_names = fields.split(' ').map(LookupBuf::from).collect::<Vec<_>>();
    let parser = TokenizerConfig {
        field_names,
        field,
        drop_field,
        types: types.iter().map(|&(k, v)| (LookupBuf::from(k), v.to_string())).collect(),
    }
    .build(LookupBuf::from("message"))
    .unwrap();

    let source = event.get(&parser.field_path().as_lookup()).and_then(|v| v.to_string_lossy());
    let values = source.map(|source| {
        tokenize(&source)
            .iter()
            .enumerate()
            .map(|(i, part)| if i < parser.len() { convert(parser.target(i).1, part) } else { None })
            .collect::<Vec<_>>()
    });
    let mut output = Vec::new();
    parser.transform(&mut output, event, values);
    assert_eq!(output.len(), 1);
    output.pop().unwrap()
}

#[test]
fn generate_config() {
    let config = TokenizerConfig::default();
    assert!(config.field_names.is_empty());
    assert!(config.field.is_none());
    assert!(!config.drop_field);
    assert!(config.types.is_empty());
    let stage = config.build(LookupBuf::from("message")).unwrap();
    assert_eq!(stage.len(), 0);
    assert_eq!(stage.field_path(), &LookupBuf::from("message"));
    assert!(!stage.drop_field());
}

#[test]
fn tokenizer_adds_parsed_field_to_event() {
    let log = parse_log("1234 5678", "status time", None, false, &[]);

    assert_eq!(log.get(&Lookup::from("status")), Some(&Value::text("1234")));
    assert_eq!(log.get(&Lookup::from("time")), Some(&Value::text("5678")));
    assert!(log.get(&Lookup::from("message")).is_some());
}

#[test]
fn tokenizer_does_drop_parsed_field() {
    let log = parse_log("1234 5678", "status time", Some(LookupBuf::from("message")), true, &[]);

    assert_eq!(log.get(&Lookup::from("status")), Some(&Value::text("1234")));
    assert_eq!(log.get(&Lookup::from("time")), Some(&Value::text("5678")));
    assert!(log.get(&Lookup::from("message")).is_none());
}

#[test]
fn tokenizer_does_not_drop_same_name_parsed_field() {
    let log = parse_log("1234 yes", "status message", Some(LookupBuf::from("message")), true, &[]);

    assert_eq!(log.get(&Lookup::from("status")), Some(&Value::text("1234")));
    assert_eq!(log.get(&Lookup::from("message")), Some(&Value::text("yes")));
}

#[test]
fn tokenizer_coerces_fields_to_types() {
    let log = parse_log(
        "1234 yes 42.3 word",
        "code flag number rest",
        None,
        false,
        &[("flag", "bool"), ("code", "integer"), ("number", "float")],
    );

    assert_eq!(log.get(&Lookup::from("number")), Some(&Value::Float(42.3f64.to_bits())));
    assert_eq!(log.get(&Lookup::from("flag")), Some(&Value::Boolean(true)));
    assert_eq!(log.get(&Lookup::from("code")), Some(&Value::Integer(1234)));
    assert_eq!(log.get(&Lookup::from("rest")), Some(&Value::Bytes("word".into())));
}

#[test]
fn tokenizer_keeps_dash_as_dash() {
    let log = parse_log(
        "1234 - foo",
        "code who why",
        None,
        false,
        &[("code", "integer"), ("who", "string"), ("why", "string")],
    );
    assert_eq!(log.get(&Lookup::from("code")), Some(&Value::Integer(1234)));
    assert_eq!(log.get(&Lookup::from("who")), Some(&Value::Bytes("-".into())));
    assert_eq!(log.get(&Lookup::from("why")), Some(&Value::Bytes("foo".into())));
}

#[test]
fn tokenizer_passes_a_record_without_the_field_on() {
    let stage = Tokenizer::new(vec![LookupBuf::from("a")], LookupBuf::from("absent"), true, vec![]);
    let event = LogEvent::from_pairs(vec![("message".to_string(), Value::text("x"))]);
    let mut output = vec![LogEvent::new()];
    stage.transform(&mut output, event.clone(), None);
    assert_eq!(output, vec![LogEvent::new(), event]);
}

#[test]
fn tokenizer_leaves_surplus_parts_and_fields_alone() {
    let stage = Tokenizer::new(
        vec![LookupBuf::from("a"), LookupBuf::from("b")],
        LookupBuf::from("message"),
        false,
        vec![],
    );
    let mut event = LogEvent::new();
    stage.apply(&mut event, vec![Some(Value::Integer(1)), None, Some(Value::Integer(3))]);
    assert_eq!(event.into_pairs(), vec![("a".to_string(), Value::Integer(1))]);

    let mut event = LogEvent::new();
    stage.apply(&mut event, vec![Some(Value::Integer(1))]);
    assert_eq!(event.into_pairs(), vec![("a".to_string(), Value::Integer(1))]);
}

#[test]
fn tokenizer_pairs_names_with_conversions() {
    let stage = Tokenizer::new(
        vec![LookupBuf::from("a"), LookupBuf::from("b"), LookupBuf::from("c")],
        LookupBuf::from("message"),
        true,
        vec![
            (LookupBuf::from("c"), Conversion::Integer),
            (LookupBuf::from("a"), Conversion::Float),
            (LookupBuf::from("c"), Conversion::Boolean),
            (LookupBuf::from("z"), Conversion::Timestamp),
        ],
    );
    assert_eq!(stage.len(), 3);
    assert_eq!(stage.target(0), (&LookupBuf::from("a"), Conversion::Float));
    assert_eq!(stage.target(1), (&LookupBuf::from("b"), Conversion::Bytes));
    assert_eq!(stage.target(2), (&LookupBuf::from("c"), Conversion::Integer));
    assert!(stage.drop_field());
    assert_eq!(stage.field_path(), &LookupBuf::from("message"));
}

#[test]
fn conversions_have_names() {
    assert_eq!(Conversion::from_name("asis"), Some(Conversion::Bytes));
    assert_eq!(Conversion::from_name("bytes"), Some(Conversion::Bytes));
    assert_eq!(Conversion::from_name("string"), Some(Conversion::Bytes));
    assert_eq!(Conversion::from_name("integer"), Some(Conversion::Integer));
    assert_eq!(Conversion::from_name("int"), Some(Conversion::Integer));
    assert_eq!(Conversion::from_name("float"), Some(Conversion::Float));
    assert_eq!(Conversion::from_name("bool"), Some(Conversion::Boolean));
    assert_eq!(Conversion::from_name("boolean"), Some(Conversion::Boolean));
    assert_eq!(Conversion::from_name("timestamp"), Some(Conversion::Timestamp));
    assert_eq!(Conversion::from_name("Integer"), None);
    assert_eq!(Conversion::from_name(""), None);
}

#[test]
fn build_refuses_what_it_cannot_use() {
    let config = TokenizerConfig {
        field_names: vec![LookupBuf::from("a")],
        field: None,
        drop_field: false,
        types: vec![
            (LookupBuf::from("a"), "int".to_string()),
            (LookupBuf::from("b"), "int".to_string()),
            (LookupBuf::from("a"), "nonsense".to_string()),
            (LookupBuf::from("a"), "more nonsense".to_string()),
        ],
    };
    assert_eq!(
        config.build(LookupBuf::from("message")).err(),
        Some(BuildError::UnknownConversion { at: 2 })
    );
    let config = TokenizerConfig {
        field_names: vec![LookupBuf::from("a")],
        field: Some(LookupBuf::from("source")),
        drop_field: true,
        types: vec![(LookupBuf::from("a"), "int".to_string()), (LookupBuf::from("b"), "float".to_string())],
    };
    let stage = config.build(LookupBuf::from("message")).unwrap();
    assert_eq!(stage.len(), 1);
    assert_eq!(stage.target(0), (&LookupBuf::from("a"), Conversion::Integer));
    assert_eq!(stage.field_path(), &LookupBuf::from("source"));
    assert!(stage.drop_field());
    let config = TokenizerConfig {
        field_names: vec![LookupBuf::from("a")],
        field: None,
        drop_field: false,
        types: vec![(LookupBuf::from("b"), "nonsense".to_string())],
    };
    assert_eq!(
        config.build(LookupBuf::from("message")).err(),
        Some(BuildError::UnknownConversion { at: 0 })
    );
}

#[test]
fn keys_are_ordered_by_their_bytes() {
    assert_eq!(log_event::key_order("a", "b"), KeyOrder::Before);
    assert_eq!(log_event::key_order("b", "a"), KeyOrder::After);
    assert_eq!(log_event::key_order("a", "a"), KeyOrder::Same);
    assert_eq!(log_event::key_order("", "a"), KeyOrder::Before);
    assert_eq!(log_event::key_order("a", "ab"), KeyOrder::Before);
    assert_eq!(log_event::key_order("ab", "b"), KeyOrder::Before);
    assert_eq!(log_event::key_order("Z", "a"), KeyOrder::Before);
    assert_eq!(log_event::key_order("z", "é"), KeyOrder::Before);
    assert_eq!(log_event::key_order("é", "e"), KeyOrder::After);
}

#[test]
fn parts_are_read_as_whole_numbers() {
    assert_eq!(Conversion::Integer.convert("1234"), Ok(Value::Integer(1234)));
    assert_eq!(Conversion::Integer.convert("-1234"), Ok(Value::Integer(-1234)));
    assert_eq!(Conversion::Integer.convert("+7"), Ok(Value::Integer(7)));
    assert_eq!(Conversion::Integer.convert("007"), Ok(Value::Integer(7)));
    assert_eq!(Conversion::Integer.convert("0"), Ok(Value::Integer(0)));
    assert_eq!(Conversion::Integer.convert("-0"), Ok(Value::Integer(0)));
    assert_eq!(Conversion::Integer.convert("9223372036854775807"), Ok(Value::Integer(i64::MAX)));
    assert_eq!(Conversion::Integer.convert("-9223372036854775808"), Ok(Value::Integer(i64::MIN)));
    for part in ["", "-", "+", "12a", "a12", "1 2", " 1", "1.0", "--1", "9223372036854775808",
        "-9223372036854775809", "99999999999999999999999999", "１２"]
    {
        assert_eq!(Conversion::Integer.convert(part), Err(ConvertError::NotAnInteger));
    }
}

#[test]
fn parts_are_read_as_truth_values_and_bytes() {
    for part in ["true", "t", "yes", "y"] {
        assert_eq!(Conversion::Boolean.convert(part), Ok(Value::Boolean(true)));
    }
    for part in ["false", "f", "no", "n"] {
        assert_eq!(Conversion::Boolean.convert(part), Ok(Value::Boolean(false)));
    }
    for part in ["", "True", "1", "yes "] {
        assert_eq!(Conversion::Boolean.convert(part), Err(ConvertError::NotABoolean));
    }
    assert_eq!(Conversion::Bytes.convert("wörd"), Ok(Value::Bytes("wörd".as_bytes().to_vec())));
    assert_eq!(Conversion::Float.convert("1.5"), Err(ConvertError::ReadElsewhere));
    assert_eq!(Conversion::Timestamp.convert("now"), Err(ConvertError::ReadElsewhere));
}

#[test]
fn values_are_written_as_text() {
    assert_eq!(Value::text("some").to_string_lossy(), Some("some".to_string()));
    assert_eq!(Value::Bytes(vec![0x66, 0xff]).to_string_lossy(), Some("f\u{fffd}".to_string()));
    assert_eq!(Value::Integer(0).to_string_lossy(), Some("0".to_string()));
    assert_eq!(Value::Integer(1234).to_string_lossy(), Some("1234".to_string()));
    assert_eq!(Value::Integer(-50).to_string_lossy(), Some("-50".to_string()));
    assert_eq!(Value::Integer(i64::MIN).to_string_lossy(), Some(i64::MIN.to_string()));
    assert_eq!(Value::Integer(i64::MAX).to_string_lossy(), Some(i64::MAX.to_string()));
    assert_eq!(Value::Boolean(true).to_string_lossy(), Some("true".to_string()));
    assert_eq!(Value::Boolean(false).to_string_lossy(), Some("false".to_string()));
    assert_eq!(Value::Null.to_string_lossy(), Some("<null>".to_string()));
    assert_eq!(Value::Float(0).to_string_lossy(), None);
    assert_eq!(Value::Array(vec![]).to_string_lossy(), None);
    assert_eq!(Value::Object(vec![]).to_string_lossy(), None);
}

#[test]
fn a_text_is_cut_at_its_spaces() {
    assert_eq!(tokenize("1234 5678"), vec!["1234", "5678"]);
    assert_eq!(tokenize("  a\tb \n c\r\n"), vec!["a", "b", "c"]);
    assert_eq!(tokenize("one"), vec!["one"]);
    assert_eq!(tokenize("1234 - foo"), vec!["1234", "-", "foo"]);
    assert_eq!(tokenize("é  ü"), vec!["é", "ü"]);
    assert_eq!(tokenize(""), Vec::<String>::new());
    assert_eq!(tokenize("   "), Vec::<String>::new());
}
