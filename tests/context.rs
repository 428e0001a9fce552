use vessels::{Checksum, Context, Iterator, Resource, Serde, TypePair};

fn pair(c: u64) -> TypePair {
    TypePair { construct: c, deconstruct: 0 }
}

#[test]
fn fresh_context_is_empty() {
    let ctx = Context::new();
    assert_eq!(ctx.len(), 0);
    assert_eq!(ctx.only(), None);
    assert_eq!(ctx.get(0), None);
}

#[test]
fn root_context_holds_fork_zero() {
    let ctx = Context::new_with(pair(2));
    assert_eq!(ctx.len(), 1);
    assert_eq!(ctx.get(0), Some(pair(2)));
    assert_eq!(ctx.only(), Some((0, pair(2))));
}

#[test]
fn handles_count_up_from_one() {
    let mut ctx = Context::new_with(pair(2));
    assert_eq!(ctx.create(pair(1)), Some(1));
    assert_eq!(ctx.create(pair(3)), Some(2));
    assert_eq!(ctx.create(pair(4)), Some(3));
    assert_eq!(ctx.len(), 4);
    assert_eq!(ctx.get(2), Some(pair(3)));
    assert_eq!(ctx.only(), None);
}

#[test]
fn released_handles_are_reissued_last_first() {
    let mut ctx = Context::new_with(pair(2));
    for _ in 0..4 {
        ctx.create(pair(1)).unwrap();
    }
    assert!(ctx.release(2));
    assert!(ctx.release(4));
    assert!(!ctx.release(4));
    assert_eq!(ctx.len(), 3);
    assert_eq!(ctx.get(4), None);
    assert_eq!(ctx.create(pair(5)), Some(4));
    assert_eq!(ctx.create(pair(5)), Some(2));
    assert_eq!(ctx.create(pair(5)), Some(5));
}

#[test]
fn released_root_is_not_reissued() {
    let mut ctx = Context::new_with(pair(2));
    assert!(ctx.release(0));
    assert_eq!(ctx.len(), 0);
    assert_eq!(ctx.create(pair(1)), Some(1));
}

#[test]
fn added_handles_are_never_issued_again() {
    let mut ctx = Context::new();
    ctx.add(3, pair(1));
    assert_eq!(ctx.create(pair(1)), Some(4));
    assert!(!ctx.add(4, pair(7)));
    assert_eq!(ctx.get(4), Some(pair(1)));
    assert!(ctx.add(4, pair(1)));
    assert!(ctx.release(3));
    ctx.add(3, pair(1));
    assert_eq!(ctx.create(pair(1)), Some(5));
}

#[test]
fn resource_with_payload_reifies() {
    let r = Resource::new(String::from("data"), Checksum([7; 32]));
    assert_eq!(r.checksum(), Checksum([7; 32]));
    assert_eq!(r.reify().ok(), Some(String::from("data")));
}

#[test]
fn reference_resource_fails_and_returns_itself() {
    let r: Resource<u32> = Resource::new_ref(Checksum([1; 32]));
    let e = r.reify().err().unwrap();
    assert_eq!(e.resource.checksum(), Checksum([1; 32]));
    assert_eq!(e.message(), "reification failed: no suitable acquisition method");
}

#[test]
fn clone_ref_keeps_checksum_drops_payload() {
    let r = Resource::new(5u8, Checksum([9; 32]));
    let c = r.clone_ref();
    assert!(c.same_as(&r));
    assert!(c.reify().is_err());
    assert_eq!(r.reify().ok(), Some(5));
}

#[test]
fn resources_compare_by_checksum() {
    let mut bytes = [0u8; 32];
    let a = Resource::new(1u8, Checksum(bytes));
    let b = Resource::new(2u8, Checksum(bytes));
    bytes[31] = 1;
    let c = Resource::new(1u8, Checksum(bytes));
    assert!(a.same_as(&b));
    assert!(!a.same_as(&c));
    assert!(Checksum([3; 32]) == Checksum([3; 32]));
    assert!(Checksum([3; 32]) != Checksum([4; 32]));
}

#[test]
fn wrappers_hold_their_value() {
    assert_eq!(Iterator::new(vec![1, 2]).0, vec![1, 2]);
    assert_eq!(Serde::new(4u8).0, 4);
}

#[test]
fn handle_space_runs_out() {
    let mut ctx = Context::new();
    ctx.add(u32::MAX, pair(1));
    assert_eq!(ctx.create(pair(1)), None);
    assert!(ctx.release(u32::MAX));
    assert_eq!(ctx.create(pair(1)), Some(u32::MAX));
    assert_eq!(ctx.create(pair(1)), None);
}

#[test]
fn checksum_renders_as_hex() {
    let mut bytes = [0u8; 32];
    bytes[0] = 0xAB;
    bytes[1] = 0x05;
    bytes[31] = 0xF0;
    let hex = Checksum(bytes).to_hex();
    assert_eq!(hex.len(), 64);
    assert!(hex.starts_with("AB05"));
    assert!(hex.ends_with("00F0"));
    assert_eq!(Checksum([0x1F; 32]).to_hex(), "1F".repeat(32));
}

#[test]
fn checksum_debug_text_has_prefix() {
    assert_eq!(Checksum([0xAB; 32]).debug_text(), format!("Checksum {}", "AB".repeat(32)));
}
