use home_listings::address::{parse_address, HomeAddress};
use home_listings::listing::{parse_price, ExtractionError, Fragment, HomeListing};
use home_listings::stats::{classify_stat, StatToken};

fn frag(price: &str, stats: &[&str], address: &str) -> Fragment {
    Fragment {
        price_text: price.to_string(),
        stats: stats.iter().map(|s| s.to_string()).collect(),
        address_text: address.to_string(),
    }
}

#[test]
fn price_with_separators() {
    assert_eq!(parse_price("$350,000").unwrap(), 350000);
    assert_eq!(parse_price("$1,234,567").unwrap(), 1234567);
}

#[test]
fn price_not_numeric() {
    match parse_price("$Contact agent") {
        Err(ExtractionError::Price(t)) => assert_eq!(t, "$Contact agent"),
        other => panic!("unexpected {:?}", other),
    }
    assert!(matches!(parse_price(""), Err(ExtractionError::Price(_))));
    assert!(matches!(parse_price("$"), Err(ExtractionError::Price(_))));
    assert!(matches!(parse_price("$99,999,999,999"), Err(ExtractionError::Price(_))));
}

#[test]
fn lot_in_square_feet() {
    assert_eq!(classify_stat("6,000 sq ft lot"), StatToken::LotArea(6000));
}

#[test]
fn lot_in_acres() {
    assert_eq!(classify_stat("0.5 acres lot"), StatToken::LotAcres(21780));
    assert_eq!(classify_stat("0.25 acres lot"), StatToken::LotAcres(10890));
    assert_eq!(classify_stat("0.17 acres lot"), StatToken::LotAcres(7405));
    assert_eq!(classify_stat("0.001 acres lot"), StatToken::LotAcres(44));
    assert_eq!(classify_stat("2 acres lot"), StatToken::LotAcres(87120));
}

#[test]
fn acreage_order_kept() {
    let figures = ["0.01", "0.1", "0.17", "0.5", "1", "1.25", "3", "10.5"];
    let mut last = -1;
    for f in figures {
        match classify_stat(&format!("{} acres lot", f)) {
            StatToken::LotAcres(n) => {
                assert!(n >= last);
                last = n;
            }
            other => panic!("unexpected {:?}", other),
        }
    }
}

#[test]
fn lot_other_word_count_ignored() {
    assert_eq!(classify_stat("lot"), StatToken::Unrecognized);
    assert_eq!(classify_stat("big lot here now ok"), StatToken::Unrecognized);
    assert_eq!(classify_stat("a.b acres lot"), StatToken::Unrecognized);
}

#[test]
fn beds_baths_and_area() {
    assert_eq!(classify_stat("3 beds"), StatToken::Beds(3));
    assert_eq!(classify_stat("1 bed"), StatToken::Beds(1));
    assert_eq!(classify_stat("2.5 baths"), StatToken::Baths(2));
    assert_eq!(classify_stat("— beds"), StatToken::Beds(-1));
    assert_eq!(classify_stat("1,850 sq ft"), StatToken::HouseArea(1850));
    assert_eq!(classify_stat("— sq ft"), StatToken::HouseArea(0));
    assert_eq!(classify_stat("Price cut"), StatToken::Unrecognized);
}

#[test]
fn address_examples_with_equal_street_and_city() {
    let a = parse_address("123 Main St, Springfield, IL 62701").unwrap();
    assert_eq!(a.street, "123 Main St");
    assert_eq!(a.apt, None);
    assert_eq!(a.city, "Springfield");
    assert_eq!(a.state, "IL");
    assert_eq!(a.zip, 62701);
    let b = parse_address("123 Main St, Apt 4, Springfield, IL 62701").unwrap();
    assert_eq!(b.street, "123 Main St");
    assert_eq!(b.apt, Some(4));
    assert_eq!(b.city, "Springfield");
    assert_eq!(b.state, "IL");
    assert_eq!(b.zip, 62701);
    let back = parse_address(&b.to_key()).unwrap();
    assert_eq!(back.apt, Some(4));
    assert_eq!(back.city, "Springfield");
}

#[test]
fn address_without_unit() {
    let a = parse_address("123 Main Street, Springfield, IL 62701").unwrap();
    assert_eq!(a.street, "123 Main Street");
    assert_eq!(a.apt, None);
    assert_eq!(a.city, "Springfield");
    assert_eq!(a.state, "IL");
    assert_eq!(a.zip, 62701);
}

#[test]
fn address_with_unit() {
    let a = parse_address("123 Main Street, Apt 4, Springfield, IL 62701").unwrap();
    assert_eq!(a.street, "123 Main Street");
    assert_eq!(a.apt, Some(4));
    assert_eq!(a.city, "Springfield");
    assert_eq!(a.state, "IL");
    assert_eq!(a.zip, 62701);
    let b = parse_address("9 Oak Avenue, #12, Hull, TX 77564").unwrap();
    assert_eq!(b.apt, Some(12));
}

#[test]
fn address_malformed() {
    for bad in [
        "123 Main Street, Springfield, ILL 62701",
        "123 Main Street, Springfield, I 62701",
        "123 Main Street, Springfield, I1 62701",
        "1 Elm, Springfield, IL 62701",
        "Main St, Springfield, IL 62701",
        "123 Main Street, Springfield, IL 627O1",
        "123 Main Street, Apt four, Springfield, IL 62701",
        "",
    ] {
        match parse_address(bad) {
            Err(ExtractionError::Address(t)) => assert_eq!(t, bad),
            other => panic!("{} gave {:?}", bad, other),
        }
    }
}

#[test]
fn address_keys() {
    let a = parse_address("123 Main Street, Springfield, IL 62701").unwrap();
    assert_eq!(a.to_key(), "123 Main Street, Springfield, IL 62701");
    let b = parse_address("123 Main Street,  Apt 4 , Springfield,IL 62701").unwrap();
    assert_eq!(b.to_key(), "123 Main Street, 4, Springfield, IL 62701");
    let c = HomeAddress {
        street: "5 Bay Rd".to_string(),
        apt: Some(0),
        city: "Hull".to_string(),
        state: "TX".to_string(),
        zip: 7,
    };
    assert_eq!(c.to_key(), "5 Bay Rd, 0, Hull, TX 7");
}

#[test]
fn listing_extracted() {
    let f = frag(
        "$350,000",
        &["3 beds", "2 baths", "1,850 sq ft", "6,000 sq ft lot"],
        "123 Main Street, Springfield, IL 62701",
    );
    let l = HomeListing::new_from_redfin(&f).unwrap();
    assert_eq!(l.current_price, 350000);
    assert_eq!(l.beds, 3);
    assert_eq!(l.baths, 2);
    assert_eq!(l.sqft, 1850);
    assert_eq!(l.lot_size, 6000);
    assert_eq!(l.address.city, "Springfield");
}

#[test]
fn listing_lot_only() {
    let f = frag("$80,000", &["— beds", "— baths", "0.5 acres lot"], "40 County Road 1, Hull, TX 77564");
    let l = HomeListing::new_from_redfin(&f).unwrap();
    assert_eq!(l.beds, -1);
    assert_eq!(l.baths, -1);
    assert_eq!(l.sqft, 0);
    assert_eq!(l.lot_size, 21780);
}

#[test]
fn listing_errors() {
    let bad_price = frag("Sold", &["3 beds", "2 baths"], "123 Main Street, Springfield, IL 62701");
    assert!(matches!(HomeListing::new_from_redfin(&bad_price), Err(ExtractionError::Price(_))));
    let bad_addr = frag("$1", &["3 beds", "2 baths"], "somewhere");
    assert!(matches!(HomeListing::new_from_redfin(&bad_addr), Err(ExtractionError::Address(_))));
    let no_baths = frag("$1", &["3 beds"], "123 Main Street, Springfield, IL 62701");
    assert!(matches!(HomeListing::new_from_redfin(&no_baths), Err(ExtractionError::Invariant(_))));
    let same_area = frag(
        "$1",
        &["3 beds", "2 baths", "6,000 sq ft", "6,000 sq ft lot"],
        "123 Main Street, Springfield, IL 62701",
    );
    assert!(matches!(HomeListing::new_from_redfin(&same_area), Err(ExtractionError::Invariant(_))));
}

#[test]
fn key_reads_back_as_address() {
    for text in [
        "123 Main Street, Springfield, IL 62701",
        "123 Main Street, Unit 40, Springfield, IL 62701",
        "9 Oak Avenue,#0012,Hull,TX 077564",
    ] {
        let a = parse_address(text).unwrap();
        let b = parse_address(&a.to_key()).unwrap();
        assert_eq!(b.street, a.street);
        assert_eq!(b.apt, a.apt);
        assert_eq!(b.city, a.city);
        assert_eq!(b.state, a.state);
        assert_eq!(b.zip, a.zip);
    }
    let with_unit = parse_address("123 Main Street, Unit 4, Springfield, IL 62701").unwrap();
    let without = parse_address("123 Main Street, Springfield, IL 62701").unwrap();
    assert_ne!(with_unit.to_key(), without.to_key());
}
