use log_event::{
    ConversionError, Document, Entry, EntryError, Kind, LogEvent, Lookup, LookupBuf, Segment,
    Shape, Value,
};

fn text(s: &str) -> Document {
    Document::Text(s.to_string())
}

fn object(mut members: Vec<(&str, Document)>) -> Document {
    members.sort_by(|a, b| a.0.as_bytes().cmp(b.0.as_bytes()));
    Document::Object(members.into_iter().map(|(k, v)| (k.to_string(), v)).collect())
}

fn fixture() -> Document {
    object(vec![
        ("integer", Document::Integer(1)),
        ("negative", Document::Integer(-42)),
        ("float", Document::Float(1.5f64.to_bits())),
        ("nulled", Document::Null),
        ("basic", Document::Bool(true)),
        ("text", text("some text")),
        (
            "list",
            Document::Array(vec![
                Document::Null,
                Document::Bool(false),
                Document::Integer(-1),
                text("in a list"),
                object(vec![("inner", Document::Integer(7))]),
                Document::Array(vec![Document::Integer(1), Document::Integer(2)]),
            ]),
        ),
        (
            "map",
            object(vec![
                ("basic", Document::Bool(true)),
                ("list", Document::Array(vec![Document::Null, text("x")])),
                ("map", object(vec![("buddy", Document::Integer(-1))])),
            ]),
        ),
    ])
}

fn to_json(document: &Document) -> serde_json::Value {
    match document {
        Document::Null => serde_json::Value::Null,
        Document::Bool(b) => serde_json::Value::Bool(*b),
        Document::Integer(i) => serde_json::Value::Number((*i).into()),
        Document::Float(bits) => match serde_json::Number::from_f64(f64::from_bits(*bits)) {
            Some(n) => serde_json::Value::Number(n),
            None => serde_json::Value::Null,
        },
        Document::Timestamp(t) => {
            serde_json::Value::String(format!("{}.{:09}", t.seconds, t.nanos))
        }
        Document::Text(s) => serde_json::Value::String(s.clone()),
        Document::Array(elements) => serde_json::Value::Array(elements.iter().map(to_json).collect()),
        Document::Object(members) => serde_json::Value::Object(
            members.iter().map(|(k, v)| (k.clone(), to_json(v))).collect(),
        ),
    }
}

fn from_json(json: &serde_json::Value) -> Document {
    match json {
        serde_json::Value::Null => Document::Null,
        serde_json::Value::Bool(b) => Document::Bool(*b),
        serde_json::Value::Number(n) => match n.as_i64() {
            Some(i) => Document::Integer(i),
            None => Document::Float(n.as_f64().unwrap().to_bits()),
        },
        serde_json::Value::String(s) => Document::Text(s.clone()),
        serde_json::Value::Array(elements) => Document::Array(elements.iter().map(from_json).collect()),
        serde_json::Value::Object(members) => {
            let mut pairs: Vec<(String, Document)> =
                members.iter().map(|(k, v)| (k.clone(), from_json(v))).collect();
            pairs.sort_by(|a, b| a.0.as_bytes().cmp(b.0.as_bytes()));
            Document::Object(pairs)
        }
    }
}

fn path(s: &str) -> LookupBuf {
    LookupBuf::from_str(s).unwrap()
}

#[test]
fn json_value_to_vector_log_event_to_json_value() {
    let documents = vec![
        fixture(),
        object(vec![]),
        object(vec![("status", Document::Null)]),
        object(vec![("n", Document::Integer(i64::MIN)), ("m", Document::Integer(i64::MAX))]),
        object(vec![("deep", object(vec![("deeper", object(vec![("deepest", Document::Array(vec![]))]))]))]),
    ];
    for document in documents {
        let serde_value = to_json(&document);
        let event = LogEvent::try_from(from_json(&serde_value)).unwrap();
        let serde_value_again: serde_json::Value = to_json(&event.clone().try_into().unwrap());
        assert_eq!(serde_value, serde_value_again);
        assert_eq!(event.to_document(), document);
    }
}

#[test]
fn entry() {
    let mut event = LogEvent::try_from(fixture()).unwrap();

    let lookup = LookupBuf::from_str("non-existing").unwrap();
    let entry = event.entry(lookup).unwrap();
    let fallback = serde_json::Value::String(
        "If you don't see this, the `LogEvent::entry` API is not working on non-existing lookups."
            .to_string(),
    );
    entry.or_insert_with(|| Value::from_document(&from_json(&fallback)));
    let json: serde_json::Value = to_json(&event.clone().try_into().unwrap());
    assert_eq!(json.pointer("/non-existing"), Some(&fallback));

    let lookup = LookupBuf::from_str("nulled").unwrap();
    let entry = event.entry(lookup).unwrap();
    let fallback = serde_json::Value::String(
        "If you see this, the `LogEvent::entry` API is not working on existing, single segment lookups."
            .to_string(),
    );
    entry.or_insert_with(|| Value::from_document(&from_json(&fallback)));
    let json: serde_json::Value = to_json(&event.clone().try_into().unwrap());
    assert_eq!(json.pointer("/nulled"), Some(&serde_json::Value::Null));

    let lookup = LookupBuf::from_str("map.basic").unwrap();
    let entry = event.entry(lookup).unwrap();
    let fallback = serde_json::Value::String(
        "If you see this, the `LogEvent::entry` API is not working on existing, double segment lookups."
            .to_string(),
    );
    entry.or_insert_with(|| Value::from_document(&from_json(&fallback)));
    let json: serde_json::Value = to_json(&event.clone().try_into().unwrap());
    assert_eq!(json.pointer("/map/basic"), Some(&serde_json::Value::Bool(true)));

    let lookup = LookupBuf::from_str("map.map.buddy").unwrap();
    let entry = event.entry(lookup).unwrap();
    let fallback = serde_json::Value::String(
        "If you see this, the `LogEvent::entry` API is not working on existing, multi-segment lookups."
            .to_string(),
    );
    entry.or_insert_with(|| Value::from_document(&from_json(&fallback)));
    let json: serde_json::Value = to_json(&event.clone().try_into().unwrap());
    assert_eq!(json.pointer("/map/map/buddy"), Some(&serde_json::Value::Number((-1).into())));

    let lookup = LookupBuf::from_str("map.map.non-existing").unwrap();
    let entry = event.entry(lookup).unwrap();
    let fallback = serde_json::Value::String(
        "If you don't see this, the `LogEvent::entry` API is not working on non-existing multi-segment lookups."
            .to_string(),
    );
    entry.or_insert_with(|| Value::from_document(&from_json(&fallback)));
    let json: serde_json::Value = to_json(&event.clone().try_into().unwrap());
    assert_eq!(json.pointer("/map/map/non-existing"), Some(&fallback));
}

#[test]
fn entry_says_whether_the_slot_is_taken() {
    let mut event = LogEvent::try_from(fixture()).unwrap();
    assert!(event.entry(path("nulled")).unwrap().is_occupied());
    assert!(!event.entry(path("absent")).unwrap().is_occupied());
    assert!(matches!(event.entry(path("map.map.buddy")).unwrap(), Entry::Occupied(_)));
    assert!(matches!(event.entry(path("map.map.other")).unwrap(), Entry::Vacant(_)));
}

#[test]
fn entry_put_replaces_and_hands_back() {
    let mut event = LogEvent::try_from(fixture()).unwrap();
    let previous = event.entry(path("map.basic")).unwrap().put(Value::Integer(5));
    assert_eq!(previous, Some(Value::Boolean(true)));
    let previous = event.entry(path("map.fresh")).unwrap().put(Value::Integer(6));
    assert_eq!(previous, None);
    assert_eq!(event.get(&Lookup::from_str("map.basic").unwrap()), Some(&Value::Integer(5)));
    assert_eq!(event.get(&Lookup::from_str("map.fresh").unwrap()), Some(&Value::Integer(6)));
}

#[test]
fn entry_or_insert_keeps_what_is_there() {
    let mut event = LogEvent::try_from(fixture()).unwrap();
    *event.entry(path("integer")).unwrap().or_insert(Value::Null) = Value::Integer(2);
    assert_eq!(event.get(&Lookup::from("integer")), Some(&Value::Integer(2)));
    let slot = event.entry(path("fresh")).unwrap().or_insert(Value::Integer(9));
    assert_eq!(*slot, Value::Integer(9));
    assert_eq!(event.get(&Lookup::from("fresh")), Some(&Value::Integer(9)));
}

#[test]
fn entry_errors_name_the_segment() {
    let mut event = LogEvent::try_from(fixture()).unwrap();
    assert_eq!(
        event.entry(path("brand.new.path")).err(),
        Some(EntryError::MissingParent { at: 1 })
    );
    assert_eq!(
        event.entry(path("map.map.buddy.deeper")).err(),
        Some(EntryError::NotAnObject { at: 3, found: Kind::Integer })
    );
    assert_eq!(
        event.entry(path("list.inner")).err(),
        Some(EntryError::NotAnObject { at: 1, found: Kind::Array })
    );
    assert_eq!(event.entry(path("list[0]")).err(), Some(EntryError::ArrayIndex { at: 1 }));
    assert_eq!(event.entry(path("map.list[1].x")).err(), Some(EntryError::ArrayIndex { at: 2 }));
    assert_eq!(event.entry(path("absent[0].x")).err(), Some(EntryError::ArrayIndex { at: 1 }));
    assert_eq!(event.to_document(), fixture());
}

#[test]
fn get_walks_objects_and_arrays() {
    let event = LogEvent::try_from(fixture()).unwrap();
    assert_eq!(event.get(&Lookup::from("integer")), Some(&Value::Integer(1)));
    assert_eq!(event.get(&Lookup::from_str("map.map.buddy").unwrap()), Some(&Value::Integer(-1)));
    assert_eq!(event.get(&Lookup::from_str("list[2]").unwrap()), Some(&Value::Integer(-1)));
    assert_eq!(event.get(&Lookup::from_str("list[4].inner").unwrap()), Some(&Value::Integer(7)));
    assert_eq!(event.get(&Lookup::from_str("list[5][1]").unwrap()), Some(&Value::Integer(2)));
    assert_eq!(event.get(&Lookup::from_str("map.list[1]").unwrap()), Some(&Value::text("x")));
    assert_eq!(event.get(&Lookup::from("nulled")), Some(&Value::Null));
    assert_eq!(event.get(&Lookup::from("absent")), None);
    assert!(event.contains(&Lookup::from("nulled")));
    assert!(!event.contains(&Lookup::from("absent")));
}

#[test]
fn get_finds_nothing_on_a_mismatch() {
    let mut event = LogEvent::try_from(fixture()).unwrap();
    let index_first = Lookup::from_segments(vec![Segment::Index(0)]).unwrap();
    let index_then_field =
        Lookup::from_segments(vec![Segment::Index(0), Segment::Field("integer")]).unwrap();
    let mismatches = vec![
        index_first,
        index_then_field,
        Lookup::from_str("list.inner").unwrap(),
        Lookup::from_str("map[0]").unwrap(),
        Lookup::from_str("integer.below").unwrap(),
        Lookup::from_str("integer[0]").unwrap(),
        Lookup::from_str("list[6]").unwrap(),
        Lookup::from_str("list[18446744073709551615]").unwrap(),
        Lookup::from_str("map.absent.further").unwrap(),
        Lookup::from_str("nulled.further").unwrap(),
    ];
    for lookup in mismatches {
        assert_eq!(event.get(&lookup), None);
        assert!(event.get_mut(&lookup).is_none());
        assert!(!event.contains(&lookup));
        assert_eq!(event.remove(&lookup, true), None);
    }
    assert_eq!(event.to_document(), fixture());
}

#[test]
fn get_mut_writes_in_place() {
    let mut event = LogEvent::try_from(fixture()).unwrap();
    *event.get_mut(&Lookup::from_str("map.map.buddy").unwrap()).unwrap() = Value::Integer(3);
    *event.get_mut(&Lookup::from_str("list[1]").unwrap()).unwrap() = Value::Boolean(true);
    assert_eq!(event.get(&Lookup::from_str("map.map.buddy").unwrap()), Some(&Value::Integer(3)));
    assert_eq!(event.get(&Lookup::from_str("list[1]").unwrap()), Some(&Value::Boolean(true)));
    assert_eq!(event.get(&Lookup::from_str("list[0]").unwrap()), Some(&Value::Null));
    assert!(event.get_mut(&Lookup::from("absent")).is_none());
}

#[test]
fn insert_then_get_returns_the_value() {
    let mut event = LogEvent::try_from(fixture()).unwrap();
    for text in ["fresh", "integer", "map.fresh", "map.map.buddy", "map.map.fresh"] {
        let value = Value::text(text);
        assert!(event.insert(path(text), value.clone()).is_ok());
        assert_eq!(event.get(&Lookup::from_str(text).unwrap()), Some(&value));
    }
}

#[test]
fn insert_twice_changes_nothing_more() {
    let mut once = LogEvent::try_from(fixture()).unwrap();
    assert_eq!(once.insert(path("map.map.buddy"), Value::Integer(10)), Ok(Some(Value::Integer(-1))));
    assert_eq!(once.insert(path("map.fresh"), Value::Integer(11)), Ok(None));
    let mut twice = once.clone();
    assert_eq!(twice.insert(path("map.map.buddy"), Value::Integer(10)), Ok(Some(Value::Integer(10))));
    assert_eq!(twice.insert(path("map.fresh"), Value::Integer(11)), Ok(Some(Value::Integer(11))));
    assert_eq!(once, twice);
}

#[test]
fn insert_extends_existing_nesting_only() {
    let mut event = LogEvent::try_from(object(vec![(
        "map",
        object(vec![("map", object(vec![("buddy", Document::Integer(-1))]))]),
    )]))
    .unwrap();
    assert_eq!(event.insert(path("map.map.non-existing"), Value::Integer(1)), Ok(None));
    assert_eq!(
        event.insert(path("brand.new.path"), Value::Integer(1)),
        Err(EntryError::MissingParent { at: 1 })
    );
    assert_eq!(
        event.to_document(),
        object(vec![(
            "map",
            object(vec![(
                "map",
                object(vec![("buddy", Document::Integer(-1)), ("non-existing", Document::Integer(1))])
            )])
        )])
    );
}

#[test]
fn insert_keeps_the_keys_in_order() {
    let mut event = LogEvent::new();
    for key in ["m", "z", "a", "mm", "b", "", "é", "Z"] {
        assert_eq!(event.insert(LookupBuf::from(key), Value::text(key)), Ok(None));
    }
    let keys: Vec<String> = event.into_pairs().into_iter().map(|(k, _)| k).collect();
    assert_eq!(keys, vec!["", "Z", "a", "b", "m", "mm", "z", "é"]);
}

#[test]
fn remove_with_and_without_prune() {
    let start = object(vec![("a", object(vec![("b", Document::Integer(1))]))]);
    let mut event = LogEvent::try_from(object(vec![("a", object(vec![("b", Document::Integer(1))]))])).unwrap();
    assert_eq!(event.remove(&Lookup::from_str("a.b").unwrap(), true), Some(Value::Integer(1)));
    assert_eq!(event.to_document(), object(vec![]));
    assert!(event.is_empty());

    let mut event = LogEvent::try_from(start).unwrap();
    assert_eq!(event.remove(&Lookup::from_str("a.b").unwrap(), false), Some(Value::Integer(1)));
    assert_eq!(event.to_document(), object(vec![("a", object(vec![]))]));
    assert!(!event.is_empty());
}

#[test]
fn remove_prunes_up_to_the_first_container_that_keeps_something() {
    let mut event = LogEvent::try_from(object(vec![
        ("keep", Document::Integer(0)),
        (
            "a",
            object(vec![
                ("other", Document::Null),
                ("b", object(vec![("c", Document::Array(vec![Document::Integer(1)]))])),
            ]),
        ),
    ]))
    .unwrap();
    assert_eq!(event.remove(&Lookup::from_str("a.b.c[0]").unwrap(), true), Some(Value::Integer(1)));
    assert_eq!(
        event.to_document(),
        object(vec![("keep", Document::Integer(0)), ("a", object(vec![("other", Document::Null)]))])
    );
}

#[test]
fn remove_does_not_prune_what_was_empty_before() {
    let document = object(vec![("a", object(vec![("b", object(vec![]))]))]);
    let mut event = LogEvent::try_from(object(vec![("a", object(vec![("b", object(vec![]))]))])).unwrap();
    assert_eq!(event.remove(&Lookup::from_str("a.b.c").unwrap(), true), None);
    assert_eq!(event.to_document(), document);
}

#[test]
fn remove_from_an_array_moves_the_rest_up() {
    let mut event = LogEvent::try_from(fixture()).unwrap();
    assert_eq!(event.remove(&Lookup::from_str("list[1]").unwrap(), false), Some(Value::Boolean(false)));
    assert_eq!(event.get(&Lookup::from_str("list[1]").unwrap()), Some(&Value::Integer(-1)));
    assert_eq!(event.get(&Lookup::from_str("list[0]").unwrap()), Some(&Value::Null));
    assert_eq!(event.get(&Lookup::from_str("list[5]").unwrap()), None);
}

#[test]
fn remove_hands_back_whole_subtrees() {
    let mut event = LogEvent::try_from(fixture()).unwrap();
    let taken = event.remove(&Lookup::from_str("map.map").unwrap(), false).unwrap();
    assert_eq!(taken, Value::Object(vec![("buddy".to_string(), Value::Integer(-1))]));
    assert!(!event.contains(&Lookup::from_str("map.map").unwrap()));
    assert!(event.contains(&Lookup::from_str("map.basic").unwrap()));
}

#[test]
fn keys_list_containers_and_leaves() {
    let event = LogEvent::try_from(object(vec![(
        "map",
        object(vec![("basic", Document::Bool(true)), ("nested", object(vec![("x", Document::Integer(1))]))]),
    )]))
    .unwrap();
    let keys = event.keys();
    let expected: Vec<Lookup> = ["map", "map.basic", "map.nested", "map.nested.x"]
        .iter()
        .map(|s| Lookup::from_str(s).unwrap())
        .collect();
    assert_eq!(keys, expected);

    let fields = event.all_fields();
    assert_eq!(fields.len(), 4);
    for (i, (lookup, value)) in fields.iter().enumerate() {
        assert_eq!(lookup, &expected[i]);
        assert_eq!(event.get(lookup), Some(*value));
    }
    assert_eq!(fields[1].1, &Value::Boolean(true));
    assert_eq!(fields[3].1, &Value::Integer(1));
}

#[test]
fn keys_walk_arrays_by_position() {
    let event = LogEvent::try_from(object(vec![
        ("b", Document::Array(vec![Document::Null, object(vec![("k", Document::Integer(1))])])),
        ("a", Document::Integer(0)),
    ]))
    .unwrap();
    let expected: Vec<Lookup> = ["a", "b", "b[0]", "b[1]", "b[1].k"]
        .iter()
        .map(|s| Lookup::from_str(s).unwrap())
        .collect();
    assert_eq!(event.keys(), expected);
    assert_eq!(LogEvent::new().keys(), Vec::<Lookup>::new());
    assert!(LogEvent::new().all_fields().is_empty());
}

#[test]
fn keys_are_all_the_paths_that_resolve() {
    let event = LogEvent::try_from(fixture()).unwrap();
    let keys = event.keys();
    assert_eq!(keys.len(), 23);
    for key in keys.iter() {
        assert!(event.contains(key));
    }
    for text in ["map.map.buddy", "list[4].inner", "list[5][0]", "nulled"] {
        assert!(keys.contains(&Lookup::from_str(text).unwrap()));
    }
}

#[test]
fn status_scenario() {
    let mut event = LogEvent::try_from(object(vec![("status", Document::Null)])).unwrap();
    assert_eq!(event.insert(LookupBuf::from("status"), Value::text("404")), Ok(Some(Value::Null)));
    assert_eq!(event.get(&Lookup::from("status")), Some(&Value::Bytes(b"404".to_vec())));
    assert_eq!(event.to_document(), object(vec![("status", text("404"))]));
    assert_eq!(to_json(&event.to_document()).to_string(), "{\"status\":\"404\"}");
}

#[test]
fn only_an_object_is_a_record() {
    assert_eq!(
        LogEvent::try_from(Document::Array(vec![])).err(),
        Some(ConversionError::NotAnObject { found: Shape::Array })
    );
    assert_eq!(
        LogEvent::try_from(Document::Null).err(),
        Some(ConversionError::NotAnObject { found: Shape::Null })
    );
    assert_eq!(
        LogEvent::try_from(text("{}")).err(),
        Some(ConversionError::NotAnObject { found: Shape::Text })
    );
    assert_eq!(
        LogEvent::try_from(Document::Integer(1)).err(),
        Some(ConversionError::NotAnObject { found: Shape::Integer })
    );
    assert!(LogEvent::try_from(object(vec![])).unwrap().is_empty());
}

#[test]
fn take_gives_the_root_object() {
    let event = LogEvent::try_from(object(vec![("b", Document::Integer(2)), ("a", Document::Integer(1))])).unwrap();
    assert_eq!(
        event.take(),
        Value::Object(vec![("a".to_string(), Value::Integer(1)), ("b".to_string(), Value::Integer(2))])
    );
    assert_eq!(LogEvent::new().take(), Value::Object(vec![]));
}

#[test]
fn from_pairs_orders_and_keeps_the_later() {
    let event = LogEvent::from_pairs(vec![
        ("b".to_string(), Value::Integer(1)),
        ("a".to_string(), Value::Integer(2)),
        ("b".to_string(), Value::Integer(3)),
    ]);
    assert_eq!(
        event.into_pairs(),
        vec![("a".to_string(), Value::Integer(2)), ("b".to_string(), Value::Integer(3))]
    );
}

#[test]
fn extend_passes_over_what_cannot_be_written() {
    let mut event = LogEvent::from_iter(vec![
        (path("a"), Value::Object(vec![])),
        (path("missing.below"), Value::Integer(1)),
        (path("a.b"), Value::Integer(2)),
    ]);
    event.extend(vec![(path("a.b[0]"), Value::Null), (path("c"), Value::Null)]);
    assert_eq!(
        event.to_document(),
        object(vec![("a", object(vec![("b", Document::Integer(2))])), ("c", Document::Null)])
    );
}

#[test]
fn bytes_go_out_as_text() {
    let event = LogEvent::from_pairs(vec![
        ("plain".to_string(), Value::Bytes(b"caf\xc3\xa9".to_vec())),
        ("broken".to_string(), Value::Bytes(vec![b'a', 0xff, b'b'])),
    ]);
    assert_eq!(event.to_document(), object(vec![("plain", text("café")), ("broken", text("a\u{fffd}b"))]));
    assert_eq!(Value::from_document(&text("café")), Value::Bytes(vec![b'c', b'a', b'f', 0xc3, 0xa9]));
}

#[test]
fn walk_hands_fields_out_one_at_a_time() {
    let event = LogEvent::try_from(fixture()).unwrap();
    let all = event.all_fields();
    let mut walker = event.walk();
    let (first, value) = walker.next().unwrap();
    assert_eq!(first, Lookup::from("basic"));
    assert_eq!(value, &Value::Boolean(true));
    let mut count = 1;
    while let Some((lookup, value)) = walker.next() {
        assert_eq!((&lookup, value), (&all[count].0, all[count].1));
        count += 1;
    }
    assert_eq!(count, all.len());
    assert!(walker.next().is_none());
    assert!(walker.next().is_none());
    assert!(LogEvent::new().walk().next().is_none());
}

#[test]
fn walk_lists_nested_empty_containers() {
    let event = LogEvent::try_from(object(vec![
        ("a", object(vec![])),
        ("b", Document::Array(vec![Document::Array(vec![]), object(vec![])])),
        ("c", Document::Null),
    ]))
    .unwrap();
    let texts: Vec<String> = event.keys().iter().map(|key| key.to_text()).collect();
    assert_eq!(texts, vec!["a", "b", "b[0]", "b[1]", "c"]);
}

#[test]
fn index_reads_what_is_there() {
    let event = LogEvent::try_from(fixture()).unwrap();
    assert_eq!(event[&Lookup::from("integer")], Value::Integer(1));
    assert_eq!(event[&Lookup::from_str("map.map.buddy").unwrap()], Value::Integer(-1));
    let mut event = event;
    *event.index_mut(&Lookup::from_str("list[0]").unwrap()) = Value::Integer(8);
    assert_eq!(event[&Lookup::from_str("list[0]").unwrap()], Value::Integer(8));
}

#[test]
fn well_formed_means_keys_in_order() {
    assert!(LogEvent::try_from(fixture()).unwrap().is_well_formed());
    assert!(fixture().is_valid());
    let unordered = Value::Object(vec![
        ("b".to_string(), Value::Null),
        ("a".to_string(), Value::Null),
    ]);
    let repeated = Value::Object(vec![
        ("a".to_string(), Value::Null),
        ("a".to_string(), Value::Null),
    ]);
    assert!(!unordered.is_well_formed());
    assert!(!repeated.is_well_formed());
    assert!(!Value::Array(vec![Value::Null, unordered.clone()]).is_well_formed());
    assert!(Value::Array(vec![Value::Null, Value::Object(vec![])]).is_well_formed());
    assert!(!Document::Object(vec![("b".to_string(), Document::Null), ("a".to_string(), Document::Null)])
        .is_valid());
    assert!(!Document::Array(vec![Document::Object(vec![
        ("a".to_string(), Document::Null),
        ("a".to_string(), Document::Null)
    ])])
    .is_valid());
    let mut event = LogEvent::try_from(fixture()).unwrap();
    *event.get_mut(&Lookup::from("nulled")).unwrap() = unordered;
    assert!(!event.is_well_formed());
    for text in ["nulled", "nulled.a", "nulled.b", "nulled.c", "nulled[0]", "text", "zzz"] {
        let lookup = Lookup::from_str(text).unwrap();
        let found = event.get(&lookup).is_some();
        assert_eq!(event.contains(&lookup), found);
        assert_eq!(event.get_mut(&lookup).is_some(), found);
    }
}

#[test]
fn values_know_their_kind() {
    assert_eq!(Value::text("x").kind(), Kind::Bytes);
    assert_eq!(Value::Integer(1).kind(), Kind::Integer);
    assert_eq!(Value::Float(0).kind(), Kind::Float);
    assert_eq!(Value::Boolean(true).kind(), Kind::Boolean);
    assert_eq!(Value::Object(vec![]).kind(), Kind::Object);
    assert_eq!(Value::Array(vec![]).kind(), Kind::Array);
    assert_eq!(Value::Null.kind(), Kind::Null);
    assert!(Value::Object(vec![]).is_empty_container());
    assert!(Value::Array(vec![]).is_empty_container());
    assert!(!Value::Array(vec![Value::Null]).is_empty_container());
    assert!(!Value::Null.is_empty_container());
    assert_eq!(fixture().shape(), Shape::Object);
}
