use log_event::{EntryError, LogEvent, Lookup, LookupBuf, Secrets, Target, TargetValue, Value};

fn target() -> TargetValue {
    TargetValue {
        value: LogEvent::from_pairs(vec![
            ("message".to_string(), Value::text("hello")),
            ("map".to_string(), Value::Object(vec![("a".to_string(), Value::Integer(1))])),
        ]),
        metadata: LogEvent::new(),
        secrets: Secrets::new(),
    }
}

#[test]
fn a_target_reads_and_writes_its_record() {
    let mut target = target();
    assert_eq!(target.target_get(&Lookup::from("message")), Some(&Value::text("hello")));
    assert_eq!(target.target_get(&Lookup::from("absent")), None);
    assert_eq!(target.target_insert(LookupBuf::from_str("map.b").unwrap(), Value::Integer(2)), Ok(()));
    assert_eq!(
        target.target_insert(LookupBuf::from_str("no.such.parent").unwrap(), Value::Null),
        Err(EntryError::MissingParent { at: 1 })
    );
    assert_eq!(target.target_get(&Lookup::from_str("map.b").unwrap()), Some(&Value::Integer(2)));
    assert_eq!(target.target_remove(&Lookup::from_str("map.a").unwrap(), true), Some(Value::Integer(1)));
    assert_eq!(target.target_remove(&Lookup::from_str("map.b").unwrap(), true), Some(Value::Integer(2)));
    assert_eq!(target.target_get(&Lookup::from("map")), None);
    assert!(target.metadata.is_empty());
}

#[test]
fn metadata_is_apart_from_the_record() {
    let mut target = target();
    assert_eq!(target.set_metadata(LookupBuf::from("message"), Value::Integer(7)), Ok(()));
    assert_eq!(target.get_metadata(&Lookup::from("message")), Some(&Value::Integer(7)));
    assert_eq!(target.target_get(&Lookup::from("message")), Some(&Value::text("hello")));
    assert_eq!(target.get_metadata(&Lookup::from("map")), None);
    assert_eq!(target.remove_metadata(&Lookup::from("message")), Some(Value::Integer(7)));
    assert_eq!(target.remove_metadata(&Lookup::from("message")), None);
    assert_eq!(target.get_metadata(&Lookup::from("message")), None);
}

#[test]
fn secrets_are_kept_by_name() {
    let mut target = target();
    assert_eq!(target.get_secret("token"), None);
    target.insert_secret("token", "one");
    target.insert_secret("other", "two");
    assert_eq!(target.get_secret("token"), Some("one"));
    target.insert_secret("token", "three");
    assert_eq!(target.get_secret("token"), Some("three"));
    assert_eq!(target.get_secret("other"), Some("two"));
    target.remove_secret("token");
    target.remove_secret("never there");
    assert_eq!(target.get_secret("token"), None);
    assert_eq!(target.get_secret("other"), Some("two"));
    assert_eq!(target.target_get(&Lookup::from("token")), None);
    assert_eq!(target.get_metadata(&Lookup::from("token")), None);

    let mut secrets = Secrets::new();
    secrets.insert_secret("", "empty name");
    assert_eq!(secrets.get_secret(""), Some("empty name"));
    secrets.remove_secret("");
    assert_eq!(secrets.get_secret(""), None);
}
