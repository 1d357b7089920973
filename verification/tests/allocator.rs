//! Which allocator a binary reports.

use lb::lb_core::allocator::{allocator_name, register};

#[test]
fn defaults_to_system_then_sticks() {
    let mut registered = None;
    assert_eq!(allocator_name(registered), "system");
    register(&mut registered, "jemalloc");
    assert_eq!(allocator_name(registered), "jemalloc");
    register(&mut registered, "mimalloc");
    assert_eq!(
        allocator_name(registered),
        "jemalloc",
        "first registration wins"
    );
}
