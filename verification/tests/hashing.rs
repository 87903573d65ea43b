use rustchain::chain::hashing::CanonicalEncoding;
use rustchain::chain::time::Timestamp;

#[test]
fn a_field_cannot_borrow_bytes_from_its_neighbour() {
    let split_left = CanonicalEncoding::new("domain").text("a|b").text("c");
    let split_right = CanonicalEncoding::new("domain").text("a").text("b|c");

    assert_ne!(split_left.hash_hex(), split_right.hash_hex());
}

#[test]
fn an_empty_field_is_not_an_absent_one() {
    let empty = CanonicalEncoding::new("domain").optional_text(Some(""));
    let absent = CanonicalEncoding::new("domain").optional_text(None);

    assert_ne!(empty.hash_hex(), absent.hash_hex());
}

#[test]
fn the_domain_separates_identical_field_lists() {
    let one = CanonicalEncoding::new("rustchain.a.v1").text("payload");
    let other = CanonicalEncoding::new("rustchain.b.v1").text("payload");

    assert_ne!(one.hash_hex(), other.hash_hex());
}

#[test]
fn timestamps_outside_the_nanosecond_range_stay_distinct() {
    let min = chrono::DateTime::<chrono::Utc>::MIN_UTC;
    let max = chrono::DateTime::<chrono::Utc>::MAX_UTC;
    let earliest = CanonicalEncoding::new("domain").time(&Timestamp {
        secs: min.timestamp(),
        nanos: min.timestamp_subsec_nanos(),
    });
    let latest = CanonicalEncoding::new("domain").time(&Timestamp {
        secs: max.timestamp(),
        nanos: max.timestamp_subsec_nanos(),
    });

    assert!(min.timestamp_nanos_opt().is_none());
    assert!(max.timestamp_nanos_opt().is_none());
    assert_ne!(earliest.hash_hex(), latest.hash_hex());
}

#[test]
fn subsecond_precision_is_preserved() {
    let base = Timestamp::unix_epoch();
    let later = Timestamp { secs: 0, nanos: 1 };

    assert_ne!(
        CanonicalEncoding::new("domain").time(&base).hash_hex(),
        CanonicalEncoding::new("domain").time(&later).hash_hex()
    );
}

#[test]
fn the_encoding_is_length_prefixed() {
    let encoded = CanonicalEncoding::new("ab").text("cde").into_bytes();

    assert_eq!(
        encoded,
        [
            &2u64.to_be_bytes()[..],
            b"ab",
            &3u64.to_be_bytes()[..],
            b"cde"
        ]
        .concat()
    );
}

#[test]
fn integers_and_flags_are_eight_and_one_byte_fields() {
    let encoded = CanonicalEncoding::new("d").integer(258).flag(true).into_bytes();

    assert_eq!(
        encoded,
        [
            &1u64.to_be_bytes()[..],
            b"d",
            &8u64.to_be_bytes()[..],
            &258u64.to_be_bytes()[..],
            &1u64.to_be_bytes()[..],
            &[1u8][..],
        ]
        .concat()
    );
}

#[test]
fn an_absent_text_is_a_zero_tag_and_a_present_one_a_one_tag() {
    let absent = CanonicalEncoding::new("").optional_text(None).into_bytes();
    let present = CanonicalEncoding::new("").optional_text(Some("x")).into_bytes();

    assert_eq!(absent, [&0u64.to_be_bytes()[..], &1u64.to_be_bytes()[..], &[0u8][..]].concat());
    assert_eq!(
        present,
        [&0u64.to_be_bytes()[..], &2u64.to_be_bytes()[..], &[1u8][..], b"x"].concat()
    );
}

#[test]
fn the_hash_of_an_encoding_is_its_sha256_in_hex() {
    // SHA-256 of the eight zero bytes that encode an empty domain.
    let hash = CanonicalEncoding::new("").hash_hex();

    assert_eq!(
        hash,
        "af5570f5a1810b7af78caf4bc70a660f0df51e42baf91d4de5b2328de0e83dfc"
    );
}

#[test]
fn the_same_bytes_come_only_from_the_same_fields() {
    let one = CanonicalEncoding::new("a").text("bc").into_bytes();
    let other = CanonicalEncoding::new("ab").text("c").into_bytes();
    let same = CanonicalEncoding::new("a").text("bc").into_bytes();

    assert_ne!(one, other);
    assert_eq!(one, same);
}
