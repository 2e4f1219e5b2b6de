use validatron::validators::{is_equal, max, min};
use validatron::{Error, Result, Validate};

#[test]
fn field_min_validator() {
    struct Foo {
        a: u64,
    }

    impl Validate for Foo {
        fn validate(&self) -> Result<()> {
            Error::build().try_at_named("a", min(&self.a, 10)).build()
        }
    }

    assert_eq!(Foo { a: 10 }.validate().is_ok(), true);
    assert_eq!(Foo { a: 20 }.validate().is_ok(), true);
    assert_eq!(Foo { a: 0 }.validate().is_ok(), false);
}

#[test]
fn field_max_validator() {
    struct Foo {
        a: u64,
    }

    impl Validate for Foo {
        fn validate(&self) -> Result<()> {
            Error::build().try_at_named("a", max(&self.a, 10)).build()
        }
    }

    assert_eq!(Foo { a: 10 }.validate().is_ok(), true);
    assert_eq!(Foo { a: 20 }.validate().is_ok(), false);
    assert_eq!(Foo { a: 0 }.validate().is_ok(), true);
}

#[test]
fn field_equal_validator() {
    struct Foo {
        a: u64,
        b: String,
    }

    impl Validate for Foo {
        fn validate(&self) -> Result<()> {
            Error::build()
                .try_at_named("a", is_equal(&self.a, 10))
                .try_at_named("a", is_equal(&self.a, 10))
                .try_at_named("a", is_equal(&self.a, 9 + 1))
                .try_at_named("b", is_equal(&self.b, "hello world!"))
                .build()
        }
    }

    assert_eq!(
        Foo {
            a: 10,
            b: "hello world!".into()
        }
        .validate()
        .is_ok(),
        true
    );
    assert_eq!(
        Foo {
            a: 20,
            b: "".into()
        }
        .validate()
        .is_ok(),
        false
    );
}
