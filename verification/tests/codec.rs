use unique_uuid::decode;
use unique_uuid::encode;
use unique_uuid::uuid_text::format_uuid;
use unique_uuid::uuid_text::parse_uuid;
use unique_uuid::Namespace;
use unique_uuid::Registry;

#[test]
fn uuid_text_exact_value() {
    let n: u128 = 0xa1a2a3a4b1b2c1c2d1d2d3d4d5d6d7d8;
    assert_eq!(format_uuid(n), "a1a2a3a4-b1b2-c1c2-d1d2-d3d4d5d6d7d8");
    assert_eq!(format_uuid(0), "00000000-0000-0000-0000-000000000000");
    assert_eq!(
        format_uuid(u128::MAX),
        "ffffffff-ffff-ffff-ffff-ffffffffffff"
    );
}

#[test]
fn uuid_text_round_trip() {
    let n: u128 = 0x0123456789abcdef0123456789abcdef;
    assert_eq!(parse_uuid(format_uuid(n).as_str()), Some(n));
    assert_eq!(
        parse_uuid("a1a2a3a4-b1b2-c1c2-d1d2-d3d4d5d6d7d8"),
        Some(0xa1a2a3a4b1b2c1c2d1d2d3d4d5d6d7d8)
    );
}

#[test]
fn uuid_text_rejects_bad_forms() {
    assert_eq!(parse_uuid(""), None);
    assert_eq!(parse_uuid("a1a2a3a4b1b2c1c2d1d2d3d4d5d6d7d8"), None);
    assert_eq!(parse_uuid("a1a2a3a4-b1b2-c1c2-d1d2-d3d4d5d6d7dg"), None);
    assert_eq!(parse_uuid("a1a2a3a4-b1b2-c1c2-d1d2+d3d4d5d6d7d8"), None);
    assert_eq!(parse_uuid("a1a2a3a4-b1b2-c1c2-d1d2-d3d4d5d6d7d"), None);
}

#[test]
fn encode_exact_text() {
    let mut reg = Registry::new();
    reg.insert(Namespace::Tag, "alpha", 1);
    reg.insert(Namespace::Type, "::Test", 2);
    let text = encode(&reg);
    assert_eq!(
        text,
        "[unique_tags]\n\"alpha\" = \"00000000-0000-0000-0000-000000000001\"\n[unique_type_tags]\n\"::Test\" = \"00000000-0000-0000-0000-000000000002\"\n"
    );
}

#[test]
fn reload_reproduces_known_mapping() {
    let mut reg = Registry::new();
    reg.insert(Namespace::Tag, "one", 0x11);
    reg.insert(Namespace::Tag, "two", 0x22);
    reg.insert(Namespace::Type, "::Widget", 0x33);
    let text = encode(&reg);
    let back = decode(text.as_str()).unwrap();
    assert_eq!(back.tag_count(), 2);
    assert_eq!(back.type_count(), 1);
    assert_eq!(back.lookup(Namespace::Tag, "one"), Some(0x11));
    assert_eq!(back.lookup(Namespace::Tag, "two"), Some(0x22));
    assert_eq!(back.lookup(Namespace::Type, "::Widget"), Some(0x33));
    assert_eq!(back.lookup(Namespace::Type, "one"), None);
}

#[test]
fn awkward_keys_survive_reload() {
    let mut reg = Registry::new();
    reg.insert(Namespace::Tag, "with \"quotes\"", 1);
    reg.insert(Namespace::Tag, "back\\slash", 2);
    reg.insert(Namespace::Tag, "line\nbreak\tand\rreturn", 3);
    reg.insert(Namespace::Tag, "", 4);
    let text = encode(&reg);
    let back = decode(text.as_str()).unwrap();
    assert_eq!(back.lookup(Namespace::Tag, "with \"quotes\""), Some(1));
    assert_eq!(back.lookup(Namespace::Tag, "back\\slash"), Some(2));
    assert_eq!(back.lookup(Namespace::Tag, "line\nbreak\tand\rreturn"), Some(3));
    assert_eq!(back.lookup(Namespace::Tag, ""), Some(4));
    assert_eq!(back.tag_count(), 4);
}

#[test]
fn sections_may_be_absent_or_reordered() {
    let only_types = "[unique_type_tags]\n\"::T\" = \"00000000-0000-0000-0000-00000000000a\"\n";
    let reg = decode(only_types).unwrap();
    assert_eq!(reg.tag_count(), 0);
    assert_eq!(reg.lookup(Namespace::Type, "::T"), Some(0xa));

    let reordered = "[unique_type_tags]\n\"::T\" = \"00000000-0000-0000-0000-00000000000a\"\n[unique_tags]\n\"t\" = \"00000000-0000-0000-0000-00000000000b\"\n";
    let reg2 = decode(reordered).unwrap();
    assert_eq!(reg2.lookup(Namespace::Type, "::T"), Some(0xa));
    assert_eq!(reg2.lookup(Namespace::Tag, "t"), Some(0xb));
}

#[test]
fn empty_text_is_empty_registry() {
    let reg = decode("").unwrap();
    assert_eq!(reg.tag_count(), 0);
    assert_eq!(reg.type_count(), 0);
}

#[test]
fn blank_lines_are_ignored() {
    let text = "\n[unique_tags]\n\n\"t\" = \"00000000-0000-0000-0000-00000000000b\"\n\n";
    let reg = decode(text).unwrap();
    assert_eq!(reg.lookup(Namespace::Tag, "t"), Some(0xb));
}

#[test]
fn repeated_section_header_is_rejected() {
    let text = "[unique_tags]\n[unique_tags]\n";
    assert!(decode(text).is_err());
}

#[test]
fn uppercase_uuid_is_rejected() {
    let text = "[unique_tags]\n\"k\" = \"A1A2A3A4-B1B2-C1C2-D1D2-D3D4D5D6D7D8\"\n";
    assert!(decode(text).is_err());
}
