use passacre::bignum::BigNat;
use passacre::error::PassacreErrorKind;
use passacre::schema::{multibase_of_schema, Schema, SchemaBase, StandardToplevel, WordList};
use passacre::util::clone_from_slice;

fn strings(xs: &[&str]) -> Vec<String> {
    xs.iter().map(|s| s.to_string()).collect()
}

fn lists() -> Vec<WordList> {
    vec![WordList { name: String::from("food"), words: strings(&["spam", "eggs", "sausage"]) }]
}

fn digits() -> SchemaBase {
    SchemaBase::Choices(strings(&["0", "1", "2", "3", "4", "5", "6", "7", "8", "9"]))
}

#[test]
fn schema_builds_words_and_digits() {
    let schema = Schema {
        value: vec![
            SchemaBase::WellKnown(String::from("food")),
            digits(),
            SchemaBase::Separator(String::from(" ")),
            SchemaBase::SameAs(1),
            SchemaBase::SameAs(0),
        ],
        shuffle: false,
    };
    let m = multibase_of_schema(&schema, &lists()).unwrap();
    assert_eq!(m.length_product().to_u64(), Some(900));
    assert_eq!(m.encode(&BigNat::from_u64(300)).unwrap(), "eggs0 0spam");
    assert_eq!(StandardToplevel.entropy_bits(&schema, &lists()).unwrap(), 10);
}

#[test]
fn schema_with_subschema_and_shuffle() {
    let sub = Schema { value: vec![digits(), digits()], shuffle: false };
    let schema = Schema {
        value: vec![SchemaBase::Subschema(sub), SchemaBase::Choices(strings(&["a", "b"]))],
        shuffle: true,
    };
    let m = multibase_of_schema(&schema, &lists()).unwrap();
    assert_eq!(m.length_product().to_u64(), Some(400));
    assert!(m.is_shuffled());
}

#[test]
fn schema_errors() {
    let unknown = Schema { value: vec![SchemaBase::WellKnown(String::from("nope"))], shuffle: false };
    assert_eq!(multibase_of_schema(&unknown, &lists()).err().unwrap().kind, PassacreErrorKind::UserError);
    let forward = Schema { value: vec![SchemaBase::SameAs(0)], shuffle: false };
    assert_eq!(multibase_of_schema(&forward, &lists()).err().unwrap().kind, PassacreErrorKind::UserError);
    let empty = Schema { value: vec![SchemaBase::Choices(vec![])], shuffle: false };
    assert_eq!(multibase_of_schema(&empty, &lists()).err().unwrap().kind, PassacreErrorKind::UserError);
    let nested = Schema { value: vec![SchemaBase::Subschema(empty)], shuffle: false };
    assert_eq!(StandardToplevel.entropy_bits(&nested, &lists()).unwrap_err().kind, PassacreErrorKind::UserError);
}

#[test]
fn clone_from_slice_copies_the_shorter_length() {
    let mut dst = [0u8; 4];
    assert_eq!(clone_from_slice(&mut dst, &[1, 2]), 2);
    assert_eq!(dst, [1, 2, 0, 0]);
    let mut small = [9u8; 2];
    assert_eq!(clone_from_slice(&mut small, &[5, 6, 7]), 2);
    assert_eq!(small, [5, 6]);
}
