//! Tests for the remote URL wrapper.

use fursion::remote::Remote;

#[test]
fn remote_keeps_url() {
    let remote = Remote::new("http://example.fursion");
    assert_eq!(remote.get(), "http://example.fursion");
}

#[test]
fn remote_clone_names_same_url() {
    let remote = Remote::new("http://example.fursion");
    let copy = remote.clone();
    assert_eq!(copy.get(), remote.get());
}
