use std::collections::HashMap;
use validatron::validators::{is_max_length, is_min_length};
use validatron::{Error, Result, Validate};

#[test]
fn test_min_seq_len() {
    struct Foo {
        a: Vec<i32>,
    }

    impl Validate for Foo {
        fn validate(&self) -> Result<()> {
            Error::build().try_at_named("a", is_min_length(&self.a, 5)).build()
        }
    }

    let f = Foo { a: vec![] };
    assert!(f.validate().is_err());

    let f = Foo {
        a: vec![1, 2, 3, 4],
    };
    assert!(f.validate().is_err());

    let f = Foo {
        a: vec![1, 2, 3, 4, 5],
    };
    assert!(f.validate().is_ok());
}

#[test]
fn test_max_seq_len() {
    struct Foo {
        a: Vec<i32>,
    }

    impl Validate for Foo {
        fn validate(&self) -> Result<()> {
            Error::build().try_at_named("a", is_max_length(&self.a, 5)).build()
        }
    }

    let f = Foo { a: vec![] };
    assert!(f.validate().is_ok());

    let f = Foo {
        a: vec![1, 2, 3, 4, 5],
    };
    assert!(f.validate().is_ok());

    let f = Foo {
        a: vec![1, 2, 3, 4, 5, 6],
    };
    assert!(f.validate().is_err());
}

#[test]
fn test_min_seq_len_map() {
    struct Foo {
        a: HashMap<&'static str, i32>,
    }

    impl Validate for Foo {
        fn validate(&self) -> Result<()> {
            let entries: Vec<_> = self.a.iter().collect();
            Error::build().try_at_named("a", is_min_length(&entries, 2)).build()
        }
    }

    let f = Foo { a: HashMap::new() };
    assert!(f.validate().is_err());

    let f = Foo {
        a: vec![("hello", 1), ("world", 42)].into_iter().collect(),
    };
    assert!(f.validate().is_ok());
}
