use unique_uuid::allocate;
use unique_uuid::allocate_with;
use unique_uuid::decode;
use unique_uuid::Namespace;

#[test]
fn fresh_store_bootstrap() {
    let a = allocate(None, Namespace::Tag, "boot").unwrap();
    let store = a.rewritten.expect("a fresh key must rewrite the store");
    let reg = decode(store.as_str()).unwrap();
    assert_eq!(reg.tag_count(), 1);
    assert_eq!(reg.type_count(), 0);
    assert_eq!(reg.lookup(Namespace::Tag, "boot"), Some(a.id));
}

#[test]
fn idempotent_second_call_returns_same_id() {
    let a1 = allocate(None, Namespace::Tag, "stable").unwrap();
    let store = a1.rewritten.expect("a fresh key must rewrite the store");
    let a2 = allocate(Some(store.as_str()), Namespace::Tag, "stable").unwrap();
    assert_eq!(a2.id, a1.id);
    assert!(a2.rewritten.is_none());
    let a3 = allocate(Some(store.as_str()), Namespace::Tag, "stable").unwrap();
    assert_eq!(a3.id, a1.id);
}

#[test]
fn namespace_isolation_same_key() {
    let a1 = allocate(None, Namespace::Tag, "X").unwrap();
    let store1 = a1.rewritten.expect("a fresh key must rewrite the store");
    let a2 = allocate(Some(store1.as_str()), Namespace::Type, "X").unwrap();
    let store2 = a2.rewritten.expect("a key new to its namespace must rewrite the store");
    let back_tag = allocate(Some(store2.as_str()), Namespace::Tag, "X").unwrap();
    let back_type = allocate(Some(store2.as_str()), Namespace::Type, "X").unwrap();
    assert_eq!(back_tag.id, a1.id);
    assert_eq!(back_type.id, a2.id);
    assert!(back_tag.rewritten.is_none());
    assert!(back_type.rewritten.is_none());
}

#[test]
fn scenario_two_tags_no_types() {
    let a1 = allocate(None, Namespace::Tag, "test1").unwrap();
    let u1 = a1.id;
    let store1 = a1.rewritten.expect("a fresh key must rewrite the store");
    let again = allocate(Some(store1.as_str()), Namespace::Tag, "test1").unwrap();
    assert_eq!(again.id, u1);
    assert!(again.rewritten.is_none());
    let a2 = allocate(Some(store1.as_str()), Namespace::Tag, "test2").unwrap();
    let u2 = a2.id;
    assert_ne!(u2, u1);
    let store2 = a2.rewritten.expect("a fresh key must rewrite the store");
    let reg = decode(store2.as_str()).unwrap();
    assert_eq!(reg.tag_count(), 2);
    assert_eq!(reg.type_count(), 0);
    assert_eq!(reg.lookup(Namespace::Tag, "test1"), Some(u1));
    assert_eq!(reg.lookup(Namespace::Tag, "test2"), Some(u2));
}

#[test]
fn corrupt_store_is_rejected() {
    assert!(allocate(Some("this is not a store"), Namespace::Tag, "k").is_err());
}

#[test]
fn corrupt_uuid_literal_is_rejected() {
    let text = "[unique_tags]\n\"k\" = \"not-a-uuid\"\n";
    assert!(allocate(Some(text), Namespace::Tag, "k").is_err());
}

#[test]
fn pair_before_any_section_is_rejected() {
    let text = "\"k\" = \"0a0b0c0d-0e0f-4a1b-8c2d-3e4f5a6b7c8d\"\n";
    assert!(allocate(Some(text), Namespace::Tag, "k").is_err());
}

#[test]
fn duplicate_key_in_section_is_rejected() {
    let text = "[unique_tags]\n\"k\" = \"0a0b0c0d-0e0f-4a1b-8c2d-3e4f5a6b7c8d\"\n\"k\" = \"1a1b1c1d-1e1f-4a1b-8c2d-3e4f5a6b7c8d\"\n";
    assert!(allocate(Some(text), Namespace::Tag, "other").is_err());
}

#[test]
fn generated_uuid_has_version_and_variant_bits() {
    let a = allocate(None, Namespace::Tag, "versioned").unwrap();
    assert_eq!((a.id >> 76) & 0xf, 4);
    assert_eq!((a.id >> 62) & 0x3, 2);
}

#[test]
fn allocate_with_uses_supplied_uuid_on_miss() {
    let fresh: u128 = 0x0102030405060708090a0b0c0d0e0f10;
    let a = allocate_with(None, Namespace::Type, "T", fresh).unwrap();
    assert_eq!(a.id, fresh);
    let store = a.rewritten.expect("a fresh key must rewrite the store");
    let reg = decode(store.as_str()).unwrap();
    assert_eq!(reg.lookup(Namespace::Type, "T"), Some(fresh));
    assert_eq!(reg.tag_count(), 0);
    assert_eq!(reg.type_count(), 1);
}

#[test]
fn allocate_with_ignores_supplied_uuid_on_hit() {
    let first = allocate_with(None, Namespace::Tag, "k", 7).unwrap();
    let store = first.rewritten.expect("a fresh key must rewrite the store");
    let second = allocate_with(Some(store.as_str()), Namespace::Tag, "k", 1234).unwrap();
    assert_eq!(second.id, 7);
    assert!(second.rewritten.is_none());
}

#[test]
fn empty_key_is_allocatable() {
    let a = allocate(None, Namespace::Tag, "").unwrap();
    let store = a.rewritten.expect("a fresh key must rewrite the store");
    let reg = decode(store.as_str()).unwrap();
    assert_eq!(reg.lookup(Namespace::Tag, ""), Some(a.id));
    let again = allocate(Some(store.as_str()), Namespace::Tag, "").unwrap();
    assert_eq!(again.id, a.id);
}

#[test]
fn type_key_joins_prefix_and_name() {
    assert_eq!(unique_uuid::type_key("", "Test"), "::Test");
    assert_eq!(unique_uuid::type_key("my_mod", "Widget"), "my_mod::Widget");
    assert_eq!(unique_uuid::Test::key(), "::Test");
}
