use lib2d::{Ident, IdentTable, InvalidIdentError};

#[test]
fn round_trip_returns_the_name() {
    let mut t = IdentTable::new();
    let a = Ident::from_str(&mut t, "hero.png");
    let b = Ident::from_str(&mut t, "");
    assert_eq!(a.as_str(&t), "hero.png");
    assert_eq!(b.as_str(&t), "");
}

#[test]
fn equal_names_give_equal_idents() {
    let mut t = IdentTable::new();
    let a = Ident::from_str(&mut t, "tile");
    let b = Ident::from_str(&mut t, "other");
    let c = Ident::from_str(&mut t, "tile");
    assert_eq!(a, c);
    assert_ne!(a, b);
    assert_eq!(a.as_u64(), 0);
    assert_eq!(b.as_u64(), 1);
}

#[test]
fn unknown_ident_reads_empty() {
    let t = IdentTable::new();
    assert_eq!(Ident(42).as_str(&t), "");
}

#[test]
fn lookup_finds_only_interned_names() {
    let mut t = IdentTable::new();
    let a = Ident::from_str(&mut t, "x");
    assert_eq!(t.lookup("x"), Ok(a));
    assert_eq!(t.lookup("y"), Err(InvalidIdentError));
}
