use bluez_handle::{BlueZHandle, BlueZType};
use std::cmp::Ordering;

fn service(handle: u16) -> BlueZHandle {
    BlueZHandle {
        typ: BlueZType::Service,
        parent: 0,
        handle,
    }
}

fn characteristic(parent: u16, handle: u16) -> BlueZHandle {
    BlueZHandle {
        typ: BlueZType::Characteristic,
        parent,
        handle,
    }
}

#[test]
fn parent_sorts_after_child() {
    let p = service(0x25);
    assert_eq!(p.cmp(&characteristic(0x25, 0x10)), Ordering::Greater);
    assert_eq!(p.cmp(&characteristic(0x25, 0x30)), Ordering::Greater);
    assert!(p > characteristic(0x25, 0x10));
}

#[test]
fn child_before_parent_goes_by_handles() {
    let p = service(0x25);
    assert_eq!(characteristic(0x25, 0x10).cmp(&p), Ordering::Less);
    assert_eq!(characteristic(0x25, 0x30).cmp(&p), Ordering::Greater);
}

#[test]
fn unrelated_handles_go_by_value() {
    assert_eq!(service(0x10).cmp(&service(0x20)), Ordering::Less);
    assert_eq!(service(0x20).cmp(&service(0x10)), Ordering::Greater);
    assert_eq!(
        characteristic(0x01, 0x20).cmp(&characteristic(0x02, 0x20)),
        Ordering::Equal
    );
    assert_eq!(
        characteristic(0x01, 0x20).partial_cmp(&characteristic(0x02, 0x21)),
        Some(Ordering::Less)
    );
}

#[test]
fn compare_is_reflexive() {
    let h = characteristic(0x25, 0x26);
    assert_eq!(h.cmp(&h), Ordering::Equal);
    let s = service(0x25);
    assert_eq!(s.cmp(&s), Ordering::Equal);
    // A handle that is its own parent sorts after itself.
    let z = service(0);
    assert_eq!(z.cmp(&z), Ordering::Greater);
}
