use std::collections::{BTreeSet, HashMap, HashSet};
use validatron::validators::{
    decimal_text, is_equal, is_max_length, is_min_length, is_required, max, min, option_max,
    option_min,
};
use validatron::{Error, ErrorMap, Location, Result, Validate};

struct Check(bool);

impl Validate for Check {
    fn validate(&self) -> Result<()> {
        if self.0 {
            Ok(())
        } else {
            Err(Error::new("failed"))
        }
    }
}

fn reasons(e: &Error) -> Vec<String> {
    match e {
        Error::Unstructured(v) => v.clone(),
        Error::Structured(_) => panic!("expected a flat list of reasons"),
    }
}

#[test]
fn validation_is_repeatable() {
    let items = vec![Check(true), Check(false), Check(false)];
    let first = items.validate();
    let second = items.validate();
    assert!(first.is_err());
    assert_eq!(first, second);

    let v = vec![1, 2, 3];
    assert_eq!(is_min_length(&v, 4), is_min_length(&v, 4));
}

#[test]
fn independent_fields_are_all_reported() {
    let e = Error::build()
        .try_at_named("A", min(&1u32, 2))
        .try_at_named("B", max(&9u32, 3))
        .build()
        .unwrap_err();
    match e {
        Error::Structured(m) => {
            assert_eq!(m.len(), 2);
            assert!(m.contains_key(&Location::Named("A".into())));
            assert!(m.contains_key(&Location::Named("B".into())));
        }
        Error::Unstructured(_) => panic!("expected a structured report"),
    }
}

#[test]
fn passing_checks_leave_no_report() {
    let mut eb = Error::build();
    eb.try_at_named("a", min(&5, 1))
        .try_at_index(3, Ok(()))
        .try_at_key("k", is_required(&Some(1)));
    assert!(!eb.contains_errors());
    assert_eq!(eb.build(), Ok(()));

    let items = vec![Check(true), Check(true)];
    assert_eq!(items.validate(), Ok(()));
    let empty: Vec<Check> = vec![];
    assert_eq!(empty.validate(), Ok(()));
}

#[test]
fn merging_reasons_keeps_their_order() {
    let mut a = Error::new("a");
    a.merge(Error::new("b"));
    a.merge(Error::new("c"));
    assert_eq!(a, Error::Unstructured(vec!["a".into(), "b".into(), "c".into()]));
}

#[test]
fn reasons_meet_a_structured_report() {
    let mut e = Error::Structured(ErrorMap::single(
        Location::Named("dummy".into()),
        Error::new("x"),
    ));
    e.merge(Error::new("b"));

    let mut expected = Error::Structured(ErrorMap::single(
        Location::Named("dummy".into()),
        Error::new("x"),
    ));
    expected.merge(Error::Structured(ErrorMap::single(
        Location::Key("errors".into()),
        Error::new("b"),
    )));
    assert_eq!(e, expected);

    match &e {
        Error::Structured(m) => {
            assert_eq!(m.len(), 2);
            assert_eq!(
                m.get(&Location::Key("errors".into())).unwrap(),
                &Error::new("b")
            );
        }
        Error::Unstructured(_) => panic!("expected a structured report"),
    }

    // a second batch of reasons joins the first one under the same key
    e.merge(Error::new("c"));
    match &e {
        Error::Structured(m) => {
            assert_eq!(
                reasons(m.get(&Location::Key("errors".into())).unwrap()),
                vec!["b".to_string(), "c".to_string()]
            );
        }
        Error::Unstructured(_) => panic!("expected a structured report"),
    }
}

#[test]
fn failing_positions_are_reported_by_index() {
    let items = vec![Check(true), Check(false), Check(true), Check(false)];
    match items.validate().unwrap_err() {
        Error::Structured(m) => {
            assert_eq!(m.len(), 2);
            assert!(!m.contains_key(&Location::Index(0)));
            assert_eq!(m.get(&Location::Index(1)).unwrap(), &Error::new("failed"));
            assert!(!m.contains_key(&Location::Index(2)));
            assert_eq!(m.get(&Location::Index(3)).unwrap(), &Error::new("failed"));
        }
        Error::Unstructured(_) => panic!("expected a structured report"),
    }
}

#[test]
fn failing_values_are_reported_by_key() {
    let mut data = HashMap::new();
    data.insert("a place", Check(true));
    data.insert("a different place", Check(false));
    match data.validate().unwrap_err() {
        Error::Structured(m) => {
            assert_eq!(m.len(), 1);
            assert_eq!(
                m.get(&Location::Key("a different place".into())).unwrap(),
                &Error::new("failed")
            );
        }
        Error::Unstructured(_) => panic!("expected a structured report"),
    }
}

#[test]
fn bounds_are_inclusive() {
    assert!(min(&5, 5).is_ok());
    assert!(min(&4, 5).is_err());
    assert!(max(&5, 5).is_ok());
    assert!(max(&6, 5).is_err());
    assert_eq!(
        reasons(&min(&4, 5).unwrap_err()),
        vec!["'4' must be greater than or equal to '5'".to_string()]
    );
    assert_eq!(
        reasons(&max(&6, 5).unwrap_err()),
        vec!["'6' must be less than or equal to '5'".to_string()]
    );
}

#[test]
fn optional_bounds_skip_absent_values() {
    assert!(option_min(&None::<u64>, 1).is_ok());
    assert!(option_min(&Some(3), 2).is_ok());
    assert!(option_min(&Some(1), 2).is_err());
    assert!(option_max(&None::<u64>, 1).is_ok());
    assert!(option_max(&Some(3), 2).is_err());
    assert!(option_max(&Some(2), 2).is_ok());
}

#[test]
fn length_limits_are_inclusive() {
    let empty: Vec<i32> = vec![];
    assert!(is_min_length(&empty, 0).is_ok());
    assert_eq!(
        reasons(&is_min_length(&[1, 2], 3).unwrap_err()),
        vec!["sequence does not have enough elements, it has 2 but the minimum is 3".to_string()]
    );
    assert!(is_max_length(&[1, 2], 2).is_ok());
    assert_eq!(
        reasons(&is_max_length(&[1, 2, 3], 2).unwrap_err()),
        vec!["sequence has too many elements, it has 3 but the maximum is 2".to_string()]
    );
}

#[test]
fn equality_reason_names_both_values() {
    assert_eq!(
        reasons(&is_equal(&3, 4).unwrap_err()),
        vec!["'3' must equal '4'".to_string()]
    );
    assert!(is_equal(&String::from("hello world"), "hello world").is_ok());
}

#[test]
fn absent_required_value() {
    assert!(is_required(&Some(42)).is_ok());
    assert_eq!(
        is_required::<i64>(&None).unwrap_err(),
        Error::new("a value is required.")
    );
}

#[test]
fn decimal_rendering() {
    assert_eq!(decimal_text(0), "0");
    assert_eq!(decimal_text(7), "7");
    assert_eq!(decimal_text(10), "10");
    assert_eq!(decimal_text(4096), "4096");
    assert_eq!(decimal_text(usize::MAX), usize::MAX.to_string());
}

#[test]
fn location_texts() {
    assert_eq!(Location::Named("field".into()).text(), "field");
    assert_eq!(Location::Index(12).text(), "12");
    assert_eq!(Location::Key("a key".into()).text(), "a key");
}

#[test]
fn whole_value_reasons() {
    let mut eb = Error::build();
    eb.because("inconsistent").at_named("a", "bad");
    let e = eb.build().unwrap_err();
    match e {
        Error::Structured(m) => {
            assert_eq!(m.len(), 2);
            assert_eq!(
                m.get(&Location::Key("errors".into())).unwrap(),
                &Error::new("inconsistent")
            );
            assert_eq!(
                m.get(&Location::Named("a".into())).unwrap(),
                &Error::new("bad")
            );
        }
        Error::Unstructured(_) => panic!("expected a structured report"),
    }

    let only_reasons = Error::build().because("one").because("two").build();
    assert_eq!(
        only_reasons,
        Err(Error::Unstructured(vec!["one".into(), "two".into()]))
    );
}

#[test]
fn repeated_location_merges_reports() {
    let e = Error::build()
        .at_index(1, "first")
        .at_index(1, "second")
        .build()
        .unwrap_err();
    match e {
        Error::Structured(m) => {
            assert_eq!(m.len(), 1);
            assert_eq!(
                reasons(m.get(&Location::Index(1)).unwrap()),
                vec!["first".to_string(), "second".to_string()]
            );
        }
        Error::Unstructured(_) => panic!("expected a structured report"),
    }
}

#[test]
fn builder_is_empty_after_build() {
    let mut eb = Error::build();
    eb.at_location(Location::Key("k".into()), "bad");
    assert!(eb.contains_errors());
    assert!(eb.build().is_err());
    assert!(!eb.contains_errors());
    assert_eq!(eb.build(), Ok(()));
}

#[test]
fn fallible_values() {
    let ok: std::result::Result<Check, String> = Ok(Check(false));
    assert_eq!(ok.validate(), Err(Error::new("failed")));
    let good: std::result::Result<Check, String> = Ok(Check(true));
    assert_eq!(good.validate(), Ok(()));
    let bad: std::result::Result<Check, String> = Err("nope".into());
    assert_eq!(bad.validate(), Err(Error::new("value is already an error")));
}

#[test]
fn optional_values_delegate() {
    assert_eq!(Some(Check(false)).validate(), Err(Error::new("failed")));
    assert_eq!(None::<Check>.validate(), Ok(()));
}

#[derive(PartialEq, Eq, Hash, PartialOrd, Ord)]
struct Level(u8);

impl Validate for Level {
    fn validate(&self) -> Result<()> {
        max(&self.0, 5)
    }
}

#[test]
fn sets_are_validated_by_position() {
    let mut hashed = HashSet::new();
    hashed.insert(Level(9));
    match hashed.validate().unwrap_err() {
        Error::Structured(m) => {
            assert_eq!(m.len(), 1);
            assert_eq!(
                reasons(m.get(&Location::Index(0)).unwrap()),
                vec!["'9' must be less than or equal to '5'".to_string()]
            );
        }
        Error::Unstructured(_) => panic!("expected a structured report"),
    }

    let mut ordered = BTreeSet::new();
    ordered.insert(Level(1));
    ordered.insert(Level(9));
    ordered.insert(Level(2));
    match ordered.validate().unwrap_err() {
        Error::Structured(m) => {
            assert_eq!(m.len(), 1);
            assert!(m.contains_key(&Location::Index(2)));
        }
        Error::Unstructured(_) => panic!("expected a structured report"),
    }
}

#[test]
fn unequal_reports_compare_unequal() {
    assert_ne!(Error::new("a"), Error::new("b"));
    assert_ne!(
        Error::new("a"),
        Error::Structured(ErrorMap::single(Location::Index(0), Error::new("a")))
    );
    assert_ne!(
        Error::Structured(ErrorMap::single(Location::Index(0), Error::new("a"))),
        Error::Structured(ErrorMap::single(Location::Key("0".into()), Error::new("a")))
    );
    let mut two = Error::Structured(ErrorMap::single(Location::Index(0), Error::new("a")));
    two.merge(Error::Structured(ErrorMap::single(Location::Index(1), Error::new("b"))));
    let mut reversed = Error::Structured(ErrorMap::single(Location::Index(1), Error::new("b")));
    reversed.merge(Error::Structured(ErrorMap::single(Location::Index(0), Error::new("a"))));
    assert_eq!(two, reversed);
}

#[test]
fn reasons_follow_the_structured_side_in_either_order() {
    let structured = || {
        Error::Structured(ErrorMap::single(
            Location::Key("errors".into()),
            Error::new("y"),
        ))
    };

    let mut flat_first = Error::new("x");
    flat_first.merge(structured());
    let mut structured_first = structured();
    structured_first.merge(Error::new("x"));

    assert_eq!(flat_first, structured_first);
    match &flat_first {
        Error::Structured(m) => {
            assert_eq!(m.len(), 1);
            assert_eq!(
                reasons(m.get(&Location::Key("errors".into())).unwrap()),
                vec!["y".to_string(), "x".to_string()]
            );
        }
        Error::Unstructured(_) => panic!("expected a structured report"),
    }
}

#[test]
fn map_validation_is_repeatable() {
    let mut data = HashMap::new();
    for i in 0..20u32 {
        data.insert(i, Level(i as u8));
    }
    let first = data.validate();
    let second = data.validate();
    assert!(first.is_err());
    assert_eq!(first, second);
    match first.unwrap_err() {
        Error::Structured(m) => assert_eq!(m.len(), 14),
        Error::Unstructured(_) => panic!("expected a structured report"),
    }
}
