//! Canonicalization of full labels.

use siderophile::canon::canonicalize;
use siderophile::canon::get_base_trait_name;
use siderophile::canon::simplify_trait_paths;
use siderophile::canon::strip_hash_suffix;

#[test]
fn test_1() {
    assert_eq!(simplify_trait_paths("<&mut std::collections::hash::table::RawTable<K,V> as std::collections::hash::table::Put<K,V>>::borrow_table_mut"), "<&mut std::collections::hash::table::RawTable<K,V> as Put<K,V>>::borrow_table_mut");
}

#[test]
fn test_2() {
    assert_eq!(
        simplify_trait_paths("<futures::lock::TryLock<T> as core::ops::deref::Deref>::deref"),
        "<futures::lock::TryLock<T> as Deref>::deref"
    );
}

#[test]
fn test_3() {
    assert_eq!(simplify_trait_paths("<network::proto::state_synchronizer::RequestChunk as ::protobuf::Message>::default_instance"), "<network::proto::state_synchronizer::RequestChunk as Message>::default_instance");
}

#[test]
fn test_4() {
    assert_eq!(
        simplify_trait_paths("<T as failure::as_fail::AsFail>::as_fail"),
        "<T as AsFail>::as_fail"
    );
}

#[test]
fn mod_test_1() {
    assert_eq!(simplify_trait_paths("<&mut std::collections::hash::table::RawTable<K,V> as std::collections::hash::table::Put<K,V>>::borrow_table_mut"), "<&mut std::collections::hash::table::RawTable<K,V> as Put<K,V>>::borrow_table_mut");
}

#[test]
fn mod_test_2() {
    assert_eq!(
        simplify_trait_paths("<futures::lock::TryLock<T> as core::ops::deref::Deref>::deref"),
        "<futures::lock::TryLock<T> as Deref>::deref"
    );
}

#[test]
fn mod_test_3() {
    assert_eq!(simplify_trait_paths("<network::proto::state_synchronizer::RequestChunk as ::protobuf::Message>::default_instance"), "<network::proto::state_synchronizer::RequestChunk as Message>::default_instance");
}

#[test]
fn mod_test_4() {
    assert_eq!(
        simplify_trait_paths("<T as failure::as_fail::AsFail>::as_fail"),
        "<T as AsFail>::as_fail"
    );
}

#[test]
fn matching_test_1() {
    assert_eq!(simplify_trait_paths("<&mut std::collections::hash::table::RawTable<K,V> as std::collections::hash::table::Put<K,V>>::borrow_table_mut"), "<&mut std::collections::hash::table::RawTable<K,V> as Put<K,V>>::borrow_table_mut");
}

#[test]
fn matching_test_2() {
    assert_eq!(
        simplify_trait_paths("<futures::lock::TryLock<T> as core::ops::deref::Deref>::deref"),
        "<futures::lock::TryLock<T> as Deref>::deref"
    );
}

#[test]
fn matching_test_3() {
    assert_eq!(simplify_trait_paths("<network::proto::state_synchronizer::RequestChunk as ::protobuf::Message>::default_instance"), "<network::proto::state_synchronizer::RequestChunk as Message>::default_instance");
}

#[test]
fn matching_test_4() {
    assert_eq!(
        simplify_trait_paths("<T as failure::as_fail::AsFail>::as_fail"),
        "<T as AsFail>::as_fail"
    );
}

#[test]
fn plain_label_unchanged() {
    assert_eq!(simplify_trait_paths("core::ptr::drop_in_place"), "core::ptr::drop_in_place");
    assert_eq!(canonicalize("core::ptr::drop_in_place"), "core::ptr::drop_in_place");
}

#[test]
fn strip_hash_removes_exactly_the_suffix() {
    assert_eq!(strip_hash_suffix("foo::bar::h0123456789abcdef"), "foo::bar");
    // fifteen digits only: not a disambiguation suffix
    assert_eq!(strip_hash_suffix("foo::bar::h0123456789abcde"), "foo::bar::h0123456789abcde");
    // uppercase digits: not a disambiguation suffix
    assert_eq!(strip_hash_suffix("foo::bar::h0123456789ABCDEF"), "foo::bar::h0123456789ABCDEF");
    // no `h`
    assert_eq!(strip_hash_suffix("foo::bar::0123456789abcdef0"), "foo::bar::0123456789abcdef0");
    assert_eq!(strip_hash_suffix("short"), "short");
}

#[test]
fn canonical_without_trait_sep_is_the_strip() {
    // a label with no " as " only loses its suffix
    let l = "std::vec::Vec<u8>::push::hfedcba9876543210";
    assert_eq!(canonicalize(l), strip_hash_suffix(l));
}

#[test]
fn canonical_trait_impl_label() {
    assert_eq!(
        canonicalize("<T as failure::as_fail::AsFail>::as_fail::h0011223344556677"),
        "<T as AsFail>::as_fail"
    );
}

#[test]
fn canonical_is_idempotent_on_samples() {
    let samples = [
        "<&mut std::collections::hash::table::RawTable<K,V> as std::collections::hash::table::Put<K,V>>::borrow_table_mut",
        "<futures::lock::TryLock<T> as core::ops::deref::Deref>::deref",
        "mycrate::plain::h0123456789abcdef",
        "a as b",
        "",
    ];
    for s in samples {
        let once = canonicalize(s);
        assert_eq!(canonicalize(&once), once);
    }
}

#[test]
fn base_trait_name_keeps_generics() {
    assert_eq!(
        get_base_trait_name("std::collections::hash::table::Put<K,V>>::borrow_table_mut"),
        Some("Put<K,V>>::borrow_table_mut".to_string())
    );
}
