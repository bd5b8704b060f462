use jjpwrgem::ast::Document;
use jjpwrgem::schema::{Error, PrimitiveType, Schema, schema_as_primitive, validate, value_as_primitive};
use jjpwrgem::tokens::Span;

#[test]
fn it_works() {
    for (json, schema) in [
        ("true", Schema::Bool),
        ("false", Schema::Bool),
        (r#""string""#, Schema::String),
        ("null", Schema::Null),
        ("-42", Schema::Integer),
        ("[1,2,3]", Schema::Array),
        ("{}", Schema::Object),
    ] {
        let doc = Document::parse(json).unwrap();
        assert!(validate(&doc, &schema).is_ok(), "{json}");
    }
}

#[test]
fn integer_is_subset_of_number() {
    for (json, schema) in [
        ("123.0", Schema::Number),
        ("123.0", Schema::Integer),
        ("123", Schema::Number),
        ("123", Schema::Integer),
    ] {
        let doc = Document::parse(json).unwrap();
        assert!(validate(&doc, &schema).is_ok(), "{json}");
    }
}

#[test]
fn number_is_not_subset_of_integer() {
    let doc = Document::parse("123.5").unwrap();
    assert_eq!(
        validate(&doc, &Schema::Integer),
        Err(Error::MismatchedTypes {
            range: Span::new(0, 5),
            expected: PrimitiveType::Integer,
            actual: PrimitiveType::Number
        })
    );
}

#[test]
fn it_doesnt_work() {
    for (json, schema) in [
        ("true", Schema::String),
        ("false", Schema::String),
        ("null", Schema::Bool),
        ("123", Schema::Bool),
        ("[1,2,3]", Schema::Bool),
        ("{}", Schema::Bool),
        ("true", Schema::Null),
        ("false", Schema::Null),
    ] {
        assert!(validate(&Document::parse(json).unwrap(), &schema).is_err(), "{json}");
    }
}

#[test]
fn primitive_types() {
    assert!(PrimitiveType::Integer.is_subset(PrimitiveType::Number));
    assert!(!PrimitiveType::Number.is_subset(PrimitiveType::Integer));
    assert!(PrimitiveType::Null.is_subset(PrimitiveType::Null));
    assert_eq!(schema_as_primitive(&Schema::Bool), PrimitiveType::Boolean);
    assert_eq!(PrimitiveType::Object.name(), "object");
    let doc = Document::parse("1.000e3").unwrap();
    assert_eq!(value_as_primitive(doc.root(), &doc), PrimitiveType::Integer);
    let doc = Document::parse("1.000e-3").unwrap();
    assert_eq!(value_as_primitive(doc.root(), &doc), PrimitiveType::Number);
    let doc = Document::parse("-0.01").unwrap();
    assert_eq!(value_as_primitive(doc.root(), &doc), PrimitiveType::Number);
}

#[test]
fn mismatch_message_and_range() {
    let doc = Document::parse(" \"x\" ").unwrap();
    let err = validate(&doc, &Schema::Number).unwrap_err();
    assert_eq!(err.message(), "mismatched types. expected number but found string");
    assert_eq!(*err.range(), Span::new(2, 3));
}

#[test]
fn the_exponent_decides_whether_a_number_is_an_integer() {
    for (json, expected) in [
        ("1e-5", PrimitiveType::Number),
        ("123.0", PrimitiveType::Integer),
        ("-42", PrimitiveType::Integer),
        ("100e-2", PrimitiveType::Integer),
        ("100e-3", PrimitiveType::Number),
        ("1.5e1", PrimitiveType::Integer),
        ("1.25E1", PrimitiveType::Number),
        ("1e400", PrimitiveType::Integer),
        ("0.0e-3", PrimitiveType::Integer),
        ("7e-99999999999999999999999999", PrimitiveType::Number),
        ("1.5e+99999999999999999999999999", PrimitiveType::Integer),
    ] {
        let doc = Document::parse(json).unwrap();
        assert_eq!(value_as_primitive(doc.root(), &doc), expected, "{json}");
    }
}
