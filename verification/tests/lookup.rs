use log_event::{Lookup, LookupBuf, LookupError, Segment, SegmentBuf};

#[test]
fn dotted_text_is_a_run_of_fields() {
    let lookup = Lookup::from_str("map.map.buddy").unwrap();
    assert_eq!(
        lookup.as_slice(),
        &[Segment::Field("map"), Segment::Field("map"), Segment::Field("buddy")]
    );
    assert_eq!(lookup.len(), 3);
    assert_eq!(lookup.segment(2), Segment::Field("buddy"));
    assert_eq!(Lookup::from_str("non-existing").unwrap().as_slice(), &[Segment::Field("non-existing")]);
    assert_eq!(Lookup::from_str("with space").unwrap().as_slice(), &[Segment::Field("with space")]);
    assert_eq!(Lookup::from_str("ünï.cödé").unwrap().as_slice(), &[Segment::Field("ünï"), Segment::Field("cödé")]);
}

#[test]
fn a_bracket_holds_a_position() {
    assert_eq!(
        Lookup::from_str("array[2]").unwrap().as_slice(),
        &[Segment::Field("array"), Segment::Index(2)]
    );
    assert_eq!(
        Lookup::from_str("a[0][10].b[007].c").unwrap().as_slice(),
        &[
            Segment::Field("a"),
            Segment::Index(0),
            Segment::Index(10),
            Segment::Field("b"),
            Segment::Index(7),
            Segment::Field("c")
        ]
    );
    assert_eq!(
        Lookup::from_str("a[18446744073709551615]").unwrap().as_slice(),
        &[Segment::Field("a"), Segment::Index(usize::MAX)]
    );
}

#[test]
fn what_is_no_path_is_refused() {
    assert_eq!(Lookup::from_str("").err(), Some(LookupError::Empty));
    assert_eq!(Lookup::from_str(".").err(), Some(LookupError::MissingName { at: 0 }));
    assert_eq!(Lookup::from_str(".a").err(), Some(LookupError::MissingName { at: 0 }));
    assert_eq!(Lookup::from_str("[0]").err(), Some(LookupError::MissingName { at: 0 }));
    assert_eq!(Lookup::from_str("]").err(), Some(LookupError::MissingName { at: 0 }));
    assert_eq!(Lookup::from_str("a.").err(), Some(LookupError::MissingName { at: 2 }));
    assert_eq!(Lookup::from_str("a..b").err(), Some(LookupError::MissingName { at: 2 }));
    assert_eq!(Lookup::from_str("a.[0]").err(), Some(LookupError::MissingName { at: 2 }));
    assert_eq!(Lookup::from_str("a[").err(), Some(LookupError::MalformedIndex { at: 1 }));
    assert_eq!(Lookup::from_str("a[]").err(), Some(LookupError::MalformedIndex { at: 1 }));
    assert_eq!(Lookup::from_str("a[1").err(), Some(LookupError::MalformedIndex { at: 1 }));
    assert_eq!(Lookup::from_str("a[x]").err(), Some(LookupError::MalformedIndex { at: 1 }));
    assert_eq!(Lookup::from_str("a[1x]").err(), Some(LookupError::MalformedIndex { at: 1 }));
    assert_eq!(Lookup::from_str("a[-1]").err(), Some(LookupError::MalformedIndex { at: 1 }));
    assert_eq!(Lookup::from_str("a[1.5]").err(), Some(LookupError::MalformedIndex { at: 1 }));
    assert_eq!(Lookup::from_str("a[[1]]").err(), Some(LookupError::MalformedIndex { at: 1 }));
    assert_eq!(Lookup::from_str("é.b[1][").err(), Some(LookupError::MalformedIndex { at: 6 }));
    assert_eq!(
        Lookup::from_str("a[18446744073709551616]").err(),
        Some(LookupError::MalformedIndex { at: 1 })
    );
    assert_eq!(
        Lookup::from_str("a[99999999999999999999999999]").err(),
        Some(LookupError::MalformedIndex { at: 1 })
    );
    assert_eq!(Lookup::from_str("a]").err(), Some(LookupError::Unexpected { at: 1 }));
    assert_eq!(Lookup::from_str("a[1]b").err(), Some(LookupError::Unexpected { at: 4 }));
    assert_eq!(Lookup::from_str("a[1]]").err(), Some(LookupError::Unexpected { at: 4 }));
}

#[test]
fn owned_and_borrowed_paths_agree() {
    let owned = LookupBuf::from_str("a.b[3]").unwrap();
    assert_eq!(
        owned.as_slice(),
        &[SegmentBuf::Field("a".to_string()), SegmentBuf::Field("b".to_string()), SegmentBuf::Index(3)]
    );
    let borrowed = owned.as_lookup();
    assert_eq!(borrowed, Lookup::from_str("a.b[3]").unwrap());
    assert_eq!(borrowed.into_buf(), owned);
    assert_eq!(owned.clone(), owned);
    assert_eq!(borrowed.clone(), borrowed);
    assert!(owned.same_as(&LookupBuf::from_str("a.b[3]").unwrap()));
    assert!(!owned.same_as(&LookupBuf::from_str("a.b[4]").unwrap()));
    assert!(!owned.same_as(&LookupBuf::from_str("a.b").unwrap()));
    assert!(!owned.same_as(&LookupBuf::from_str("a.c[3]").unwrap()));
    assert_eq!(LookupBuf::from_str("x[").err(), Some(LookupError::MalformedIndex { at: 1 }));
}

#[test]
fn from_takes_the_text_as_one_name() {
    assert_eq!(Lookup::from("a.b").as_slice(), &[Segment::Field("a.b")]);
    assert_eq!(LookupBuf::from("a[0]").as_slice(), &[SegmentBuf::Field("a[0]".to_string())]);
    assert!(Lookup::from("a").starts_with_field());
    assert!(LookupBuf::from("a").starts_with_field());
}

#[test]
fn a_path_is_never_empty() {
    assert!(Lookup::from_segments(vec![]).is_none());
    assert!(LookupBuf::from_segments(vec![]).is_none());
    let index_first = Lookup::from_segments(vec![Segment::Index(1)]).unwrap();
    assert_eq!(index_first.len(), 1);
    assert!(!index_first.starts_with_field());
    assert!(!LookupBuf::from_segments(vec![SegmentBuf::Index(1)]).unwrap().starts_with_field());
    assert_eq!(
        Lookup::child(index_first.as_slice(), Segment::Field("x")).as_slice(),
        &[Segment::Index(1), Segment::Field("x")]
    );
}

#[test]
fn paths_are_ordered_segment_by_segment() {
    let a = LookupBuf::from_str("a.b").unwrap();
    let b = LookupBuf::from_str("a.c").unwrap();
    let c = LookupBuf::from_str("a.b.c").unwrap();
    assert!(a < b);
    assert!(a < c);
    assert!(c < b);
    assert_ne!(a, b);
}

#[test]
fn a_path_is_written_as_it_is_read() {
    for text in ["a", "map.map.buddy", "array[2]", "a[0][10].b[7].c", "a[18446744073709551615]", "ü.é"] {
        assert_eq!(Lookup::from_str(text).unwrap().to_text(), text);
        assert_eq!(LookupBuf::from_str(text).unwrap().to_text(), text);
    }
    assert_eq!(Lookup::from_str("a[007]").unwrap().to_text(), "a[7]");
    assert_eq!(Lookup::from_segments(vec![Segment::Index(3), Segment::Field("x")]).unwrap().to_text(), "[3].x");
}
