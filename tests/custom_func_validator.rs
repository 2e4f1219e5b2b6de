use validatron::{Error, ErrorMap, Location, Result, Validate};

#[test]
fn test_custom_field_validator() {
    fn is_u64_valid(x: &u64) -> Result<()> {
        if *x <= 1 {
            Err(Error::new("is greater than 1"))
        } else {
            Ok(())
        }
    }

    struct Foo {
        a: u64,
    }

    impl Validate for Foo {
        fn validate(&self) -> Result<()> {
            Error::build().try_at_named("a", is_u64_valid(&self.a)).build()
        }
    }

    assert!(Foo { a: 72 }.validate().is_ok());
    assert!(Foo { a: 0 }.validate().is_err());
}

struct Foo {
    bar: String,
    baz: String,
}

fn check_foo(x: &Foo) -> Result<()> {
    if x.bar == x.baz && &x.baz == "foo" {
        Ok(())
    } else {
        Err(Error::new("not foo"))
    }
}

impl Validate for Foo {
    fn validate(&self) -> Result<()> {
        Error::build().try_at_named("check_foo", check_foo(self)).build()
    }
}

#[test]
fn custom_fn_module() {
    assert!(Foo {
        bar: "foo".to_string(),
        baz: "foo".to_string()
    }
    .validate()
    .is_ok());

    let e = Foo {
        bar: "baz".to_string(),
        baz: "foo".to_string(),
    }
    .validate()
    .unwrap_err();

    assert_eq!(
        e,
        Error::Structured(ErrorMap::single(
            Location::Named("check_foo".into()),
            Error::Unstructured(vec!["not foo".into()])
        ))
    )
}

#[test]
fn uses_existing_function() {
    struct Foo(Option<i32>);

    impl Validate for Foo {
        fn validate(&self) -> Result<()> {
            Error::build()
                .try_at_index(
                    0,
                    if Option::is_some(&self.0) {
                        Ok(())
                    } else {
                        Err(Error::new("Predicate \"is_some\" failed"))
                    },
                )
                .build()
        }
    }

    assert!(Foo(Some(32)).validate().is_ok());

    let x = Foo(None);
    let e = x.validate().unwrap_err();

    println!("{:#?}", e);
    assert_eq!(
        e,
        Error::Structured(ErrorMap::single(
            Location::Index(0),
            Error::Unstructured(vec!["Predicate \"is_some\" failed".into()])
        ))
    )
}
