//! The register text grammar: printing, parsing, parse failures, equality and
//! the locator-only ordering.

use core::cmp::Ordering;
use zkvm_core::ident::Identifier;
use zkvm_core::register::Register;

fn ident(s: &str) -> Identifier {
    Identifier::from_text(s).unwrap()
}

fn member(loc: u64, name: &str) -> Register {
    Register::Member(loc, vec![ident(name)])
}

#[test]
fn test_register_display() {
    // Register::Locator
    assert_eq!("r0", Register::Locator(0).to_text());
    assert_eq!("r1", Register::Locator(1).to_text());
    assert_eq!("r2", Register::Locator(2).to_text());
    assert_eq!("r3", Register::Locator(3).to_text());
    assert_eq!("r4", Register::Locator(4).to_text());

    // Register::Member
    assert_eq!("r0.owner", member(0, "owner").to_text());
    assert_eq!("r1.owner", member(1, "owner").to_text());
    assert_eq!("r2.owner", member(2, "owner").to_text());
    assert_eq!("r3.owner", member(3, "owner").to_text());
    assert_eq!("r4.owner", member(4, "owner").to_text());
}

#[test]
fn test_register_partial_ord() {
    // Register::Locator
    assert_eq!(
        Some(Ordering::Equal),
        Register::Locator(0).partial_cmp(&Register::Locator(0))
    );
    assert_eq!(
        Some(Ordering::Less),
        Register::Locator(0).partial_cmp(&Register::Locator(1))
    );
    assert_eq!(
        Some(Ordering::Greater),
        Register::Locator(1).partial_cmp(&Register::Locator(0))
    );

    // Register::Member
    assert_eq!(
        Some(Ordering::Equal),
        member(0, "owner").partial_cmp(&member(0, "owner"))
    );
    assert_eq!(
        Some(Ordering::Less),
        member(0, "owner").partial_cmp(&member(1, "owner"))
    );
    assert_eq!(
        Some(Ordering::Greater),
        member(1, "owner").partial_cmp(&member(0, "owner"))
    );
}

#[test]
fn test_register_eq() {
    // Register::Locator
    assert_eq!(Register::Locator(0), Register::Locator(0));
    assert_ne!(Register::Locator(0), Register::Locator(1));
    assert_ne!(Register::Locator(0), Register::Locator(2));
    assert_ne!(Register::Locator(0), Register::Locator(3));
    assert_ne!(Register::Locator(0), Register::Locator(4));

    // Register::Member
    assert_eq!(member(0, "owner"), member(0, "owner"));
    assert_ne!(member(0, "owner"), member(1, "owner"));
    assert_ne!(member(0, "owner"), member(2, "owner"));
    assert_ne!(member(0, "owner"), member(3, "owner"));
    assert_ne!(member(0, "owner"), member(4, "owner"));
}

#[test]
fn test_register_to_string() {
    // Register::Locator
    assert_eq!(Register::Locator(0).to_text(), "r0".to_string());
    assert_eq!(Register::Locator(1).to_text(), "r1".to_string());
    assert_eq!(Register::Locator(2).to_text(), "r2".to_string());
    assert_eq!(Register::Locator(3).to_text(), "r3".to_string());
    assert_eq!(Register::Locator(4).to_text(), "r4".to_string());

    // Register::Member
    assert_eq!(member(0, "owner").to_text(), "r0.owner".to_string());
    assert_eq!(member(1, "owner").to_text(), "r1.owner".to_string());
    assert_eq!(member(2, "owner").to_text(), "r2.owner".to_string());
    assert_eq!(member(3, "owner").to_text(), "r3.owner".to_string());
    assert_eq!(member(4, "owner").to_text(), "r4.owner".to_string());
}

#[test]
fn test_register_parse() {
    // Register::Locator
    assert_eq!(Register::Locator(0), Register::parse("r0").unwrap());
    assert_eq!(Register::Locator(1), Register::parse("r1").unwrap());
    assert_eq!(Register::Locator(2), Register::parse("r2").unwrap());
    assert_eq!(Register::Locator(3), Register::parse("r3").unwrap());
    assert_eq!(Register::Locator(4), Register::parse("r4").unwrap());

    // Register::Member
    assert_eq!(member(0, "owner"), Register::parse("r0.owner").unwrap());
    assert_eq!(member(1, "owner"), Register::parse("r1.owner").unwrap());
    assert_eq!(member(2, "owner"), Register::parse("r2.owner").unwrap());
    assert_eq!(member(3, "owner"), Register::parse("r3.owner").unwrap());
    assert_eq!(member(4, "owner"), Register::parse("r4.owner").unwrap());
}

#[test]
fn test_register_parser_fails() {
    assert!(Register::parse("").is_err());
    assert!(Register::parse("r").is_err());
}

#[test]
fn test_register_multi_segment_round_trip() {
    // A multi-segment member path prints and parses back unchanged.
    let reg = Register::Member(3, vec![ident("owner"), ident("amount")]);
    let text = reg.to_text();
    assert_eq!(text, "r3.owner.amount");
    assert_eq!(reg, Register::parse(&text).unwrap());

    let reg2 = Register::parse("r1.owner").unwrap();
    assert_eq!(reg2.to_text(), "r1.owner");
}

#[test]
fn test_register_order_ignores_path() {
    // Two members of the same locator are order-equal even with different
    // paths, and ordering follows the locator whatever the paths hold.
    let a = member(0, "owner");
    let b = member(0, "amount");
    assert_eq!(Some(Ordering::Equal), a.partial_cmp(&b));
    assert_ne!(a, b);

    let c = Register::Member(0, vec![ident("zzz")]);
    let d = Register::Member(1, vec![ident("aaa")]);
    assert_eq!(Some(Ordering::Less), c.partial_cmp(&d));
    assert!(Register::Locator(0) < Register::Locator(1));
}
