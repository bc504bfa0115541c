use policy::Xperm;

#[test]
fn constructors() {
    assert_eq!(Xperm::new(1, 2, true), Xperm { low: 1, high: 2, reset: true });
    assert_eq!(Xperm::single(0x8910), Xperm { low: 0x8910, high: 0x8910, reset: false });
    assert_eq!(Xperm::range(0x10, 0x20), Xperm { low: 0x10, high: 0x20, reset: false });
    assert_eq!(Xperm::complement(0x10, 0x20), Xperm { low: 0x10, high: 0x20, reset: true });
    assert_eq!(Xperm::all(), Xperm { low: 0x0000, high: 0xFFFF, reset: false });
}

#[test]
fn contains_is_inclusive() {
    let x = Xperm::range(0x8910, 0x8926);
    assert!(x.contains(0x8910));
    assert!(x.contains(0x8920));
    assert!(x.contains(0x8926));
    assert!(!x.contains(0x890F));
    assert!(!x.contains(0x8927));
    assert!(Xperm::all().contains(0));
    assert!(Xperm::all().contains(0xFFFF));
    assert!(!Xperm::range(5, 4).contains(5));
}

#[test]
fn texts() {
    assert_eq!(Xperm::single(0x8910).to_text(), "{ 0x8910 }");
    assert_eq!(Xperm::range(0x8910, 0x8926).to_text(), "{ 0x8910-0x8926 }");
    assert_eq!(Xperm::complement(0xa, 0xa).to_text(), "~{ 0x000A }");
    assert_eq!(Xperm::all().to_text(), "{ 0x0000-0xFFFF }");
}
