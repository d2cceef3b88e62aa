use duvet::attribute::Attribute;
use duvet::schema::EntityId;

fn test() -> Attribute<u32> {
    Attribute::new("duvet::attribute::tests::TEST")
}

fn test_crate() -> Attribute<u32> {
    Attribute::new("duvet::attribute::tests::TEST_CRATE")
}

fn test_pub() -> Attribute<u32> {
    Attribute::new("duvet::attribute::tests::TEST_PUB")
}

#[test]
fn type_test() {
    assert_eq!(test().to_string(), "duvet::attribute::tests::TEST");
    assert_eq!(
        test_crate().to_string(),
        "duvet::attribute::tests::TEST_CRATE"
    );
    assert_eq!(test_pub().to_string(), "duvet::attribute::tests::TEST_PUB");
    assert_ne!(test().key, test_crate().key);
    assert_ne!(test().key, test_pub().key);
}

#[test]
fn the_key_is_the_digest_of_the_path() {
    // SHA-1 of "abc"
    let abc: Attribute<()> = Attribute::new("abc");
    assert_eq!(
        abc.key,
        [
            0xa9, 0x99, 0x3e, 0x36, 0x47, 0x06, 0x81, 0x6a, 0xba, 0x3e, 0x25, 0x71, 0x78, 0x50,
            0xc2, 0x6c, 0x9c, 0xd0, 0xd8, 0x9d
        ]
    );
    assert_eq!(abc.dependency().key, abc.key);
    assert_eq!(abc.dependency().path, "abc");
}

#[test]
fn keys_of_values_and_of_listings() {
    let abc: Attribute<()> = Attribute::new("abc");
    let id = EntityId::new(0x0102_0304);
    let prefixed = abc.prefix_with(id.get());
    assert_eq!(prefixed.len(), 24);
    assert_eq!(&prefixed[..4], &[1, 2, 3, 4]);
    assert_eq!(&prefixed[4..], &abc.key[..]);
    let suffixed = abc.suffix_with(id.get());
    assert_eq!(suffixed.len(), 24);
    assert_eq!(&suffixed[..20], &abc.key[..]);
    assert_eq!(&suffixed[20..], &[1, 2, 3, 4]);
}
