use validatron::validators::is_required;
use validatron::{Error, Result, Validate};

#[test]
fn test_struct_with_derive_required_validator() {
    struct Foo {
        a: Option<u64>,
    }

    impl Validate for Foo {
        fn validate(&self) -> Result<()> {
            Error::build().try_at_named("a", is_required(&self.a)).build()
        }
    }

    assert_eq!(Foo { a: None }.validate().is_ok(), false);
    assert_eq!(Foo { a: Some(12) }.validate().is_ok(), true);
}
