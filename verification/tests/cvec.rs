use dns::{CVec, CVec63};
use std::collections::hash_map::DefaultHasher;
use std::hash::{Hash, Hasher};
use std::mem::size_of;
use std::num::NonZeroU8;

#[test]
fn cvec_size() {
    println!("Option<u8>: {}", size_of::<Option<u8>>());
    println!("Option<NonZeroU8>: {}", size_of::<Option<NonZeroU8>>());
    println!("Vec<u8>: {}", size_of::<Vec<u8>>());
    println!("Option<Vec<u8>>: {}", size_of::<Option<Vec<u8>>>());
    println!("CVec<u8, 15>: {}", size_of::<CVec<u8, 15>>());
    println!("CVec<u8, 16>: {}", size_of::<CVec<u8, 16>>());
    println!("CVec<u8, 23>: {}", size_of::<CVec<u8, 23>>());
    println!("CVec<u8, 31>: {}", size_of::<CVec<u8, 31>>());
    println!("CVec<u8, 35>: {}", size_of::<CVec<u8, 35>>());
    println!("CVec<u8, 39>: {}", size_of::<CVec<u8, 39>>());
    println!("CVec<u8, 47>: {}", size_of::<CVec<u8, 47>>());
    println!("CVec<u8, 55>: {}", size_of::<CVec<u8, 55>>());
    println!("CVec<u8, 63>: {}", size_of::<CVec<u8, 63>>());
}

#[test]
fn cvec_push_transitions_to_ext() {
    let mut s: CVec<u8, 3> = CVec::from(&[1u8, 2u8][..]);
    assert_eq!(s.as_slice(), &[1, 2]);
    assert!(matches!(s, CVec::Int(_)));

    s.push(3);
    assert_eq!(s.as_slice(), &[1, 2, 3]);
    assert!(matches!(s, CVec::Int(_)));

    s.push(4);
    assert_eq!(s.as_slice(), &[1, 2, 3, 4]);
    assert!(matches!(s, CVec::Ext(_)));

    s.push(5);
    assert_eq!(s.as_slice(), &[1, 2, 3, 4, 5]);
    assert!(matches!(s, CVec::Ext(_)));
}

#[test]
fn cvec_extend_from_slice_hits_int_and_ext() {
    let mut s: CVec<u8, 4> = CVec::from(&[1u8, 2u8][..]);
    s.extend_from_slice(&[3u8, 4u8]);
    assert_eq!(s.as_slice(), &[1, 2, 3, 4]);
    assert!(matches!(s, CVec::Int(_)));

    s.extend_from_slice(&[5]);
    assert_eq!(s.as_slice(), &[1, 2, 3, 4, 5]);
    assert!(matches!(s, CVec::Ext(_)));

    let mut other: CVec<u8, 3> = CVec::from(&[1u8, 2u8, 3u8, 4u8][..]);
    assert!(matches!(other, CVec::Ext(_)));
    other.extend_from_slice(&[5u8, 6u8]);
    assert_eq!(other.as_slice(), &[1, 2, 3, 4, 5, 6]);
    assert!(matches!(other, CVec::Ext(_)));
}

#[test]
fn cvec_new_and_default_are_empty_inline() {
    let a: CVec<u8, 8> = CVec::new();
    assert_eq!(a.len(), 0);
    assert!(a.is_empty());
    assert!(matches!(a, CVec::Int(_)));
    let b: CVec<u8, 8> = CVec::default();
    assert!(b.is_empty());
    assert!(matches!(b, CVec::Int(_)));
    assert_eq!(a.capacity(), 8);
}

#[test]
fn cvec_len_counts_items_in_both_forms() {
    let a: CVec<u8, 2> = CVec::from(vec![7u8, 8u8]);
    assert_eq!(a.len(), 2);
    assert!(!a.is_empty());
    assert!(matches!(a, CVec::Int(_)));
    let b: CVec<u8, 2> = CVec::from(vec![7u8, 8u8, 9u8]);
    assert_eq!(b.len(), 3);
    assert!(matches!(b, CVec::Ext(_)));
    assert!(b.capacity() >= 3);
}

#[test]
fn cvec_push_then_read_gives_old_items_and_new_one() {
    let mut a: CVec<u16, 1> = CVec::new();
    a.push(500);
    assert_eq!(a.as_slice(), &[500]);
    a.push(600);
    assert_eq!(a.as_slice(), &[500, 600]);
    a.extend_from_slice(&[]);
    assert_eq!(a.as_slice(), &[500, 600]);
}

#[test]
fn cvec_inline_boundary_exact_fit_stays_inline() {
    let mut a: CVec<u8, 4> = CVec::new();
    a.extend_from_slice(&[1, 2, 3, 4]);
    assert!(matches!(a, CVec::Int(_)));
    let mut b: CVec<u8, 4> = CVec::new();
    b.extend_from_slice(&[1, 2, 3, 4, 5]);
    assert!(matches!(b, CVec::Ext(_)));
    assert_eq!(b.as_slice(), &[1, 2, 3, 4, 5]);
}

#[test]
fn cvec_equality_ignores_form() {
    let a: CVec<u8, 2> = CVec::from(&[1u8, 2u8][..]);
    let b: CVec<u8, 2> = CVec::Ext(vec![1u8, 2u8]);
    assert!(a == b);
    let c: CVec<u8, 2> = CVec::from(&[1u8, 3u8][..]);
    assert!(a != c);
    let d: CVec<u8, 2> = CVec::from(&[1u8][..]);
    assert!(a != d);
}

#[test]
fn cvec_order_is_lexicographic() {
    let a: CVec63 = CVec::from(&b"abc"[..]);
    let b: CVec63 = CVec::from(&b"abd"[..]);
    let c: CVec63 = CVec::from(&b"ab"[..]);
    assert!(a < b);
    assert!(c < a);
    assert_eq!(a.partial_cmp(&a), Some(std::cmp::Ordering::Equal));
    assert_eq!(b.partial_cmp(&c), Some(std::cmp::Ordering::Greater));
}

#[test]
fn cvec_text_decodes_utf8() {
    let a: CVec63 = CVec::from("g.co".as_bytes());
    assert_eq!(a.to_string(), "g.co");
    let b: CVec63 = CVec::from("caf\u{e9}".as_bytes());
    assert_eq!(b.len(), 5);
    assert_eq!(b.to_string(), "caf\u{e9}");
}

#[test]
fn txt_record_counts_each_line() {
    let t = CVec63::txt(&["you're (not) welcome", "(not) really."]);
    let mut want = vec![20u8];
    want.extend_from_slice(b"you're (not) welcome");
    want.push(13);
    want.extend_from_slice(b"(not) really.");
    assert_eq!(t.as_slice(), &want[..]);
    assert!(matches!(t, CVec::Int(_)));
}

#[test]
fn txt_record_cuts_long_line() {
    let long = "x".repeat(300);
    let t = CVec63::txt(&[long.as_str(), ""]);
    assert_eq!(t.len(), 1 + 255 + 1);
    assert_eq!(t.as_slice()[0], 255);
    assert_eq!(t.as_slice()[256], 0);
    assert!(matches!(t, CVec::Ext(_)));
    let empty = CVec63::txt(&[]);
    assert!(empty.is_empty());
}

#[test]
fn cvec_hash_ignores_form() {
    let a: CVec<u8, 2> = CVec::from(&[1u8, 2u8][..]);
    let b: CVec<u8, 2> = CVec::Ext(vec![1u8, 2u8]);
    let mut ha = DefaultHasher::new();
    a.hash(&mut ha);
    let mut hb = DefaultHasher::new();
    b.hash(&mut hb);
    assert_eq!(ha.finish(), hb.finish());
    let mut hs = DefaultHasher::new();
    [1u8, 2u8][..].hash(&mut hs);
    assert_eq!(ha.finish(), hs.finish());
}

#[test]
fn cvec_extend_equals_pushes() {
    let mut a: CVec<u8, 3> = CVec::from(&[1u8][..]);
    let mut b = a.clone();
    a.extend_from_slice(&[2, 3, 4]);
    for x in [2u8, 3, 4] {
        b.push(x);
    }
    assert_eq!(a.as_slice(), b.as_slice());
    assert_eq!(matches!(a, CVec::Int(_)), matches!(b, CVec::Int(_)));
    assert!(matches!(a, CVec::Ext(_)));
}

#[test]
fn cvec_clone_keeps_items_and_form() {
    let a: CVec<u8, 4> = CVec::from(&[9u8, 8u8][..]);
    let b = a.clone();
    assert!(matches!(b, CVec::Int(_)));
    assert_eq!(b.as_ref(), &[9, 8]);
    let c: CVec<u8, 1> = CVec::from(vec![1u8, 2u8]);
    let d = c.clone();
    assert!(matches!(d, CVec::Ext(_)));
    assert_eq!(d.as_ref(), &[1, 2]);
    println!("{:?}", d);
}

#[test]
fn cvec_equality_and_hash_for_wider_items() {
    let a: CVec<u16, 2> = CVec::from(&[300u16, 400u16][..]);
    let b: CVec<u16, 2> = CVec::Ext(vec![300u16, 400u16]);
    let c: CVec<u16, 2> = CVec::Ext(vec![300u16]);
    assert!(a == b);
    assert!(a != c);
    let mut ha = DefaultHasher::new();
    a.hash(&mut ha);
    let mut hb = DefaultHasher::new();
    b.hash(&mut hb);
    assert_eq!(ha.finish(), hb.finish());
}

#[test]
fn txt_record_of_fitting_lines_is_inline() {
    let t: CVec<u8, 4> = CVec::txt(&["ab", "c"]);
    assert_eq!(t.as_slice(), &[2, b'a', b'b', 1, b'c']);
    assert!(matches!(t, CVec::Ext(_)));
    let u: CVec<u8, 5> = CVec::txt(&["ab", "c"]);
    assert!(matches!(u, CVec::Int(_)));
    let e: CVec<u8, 5> = CVec::txt(&["", ""]);
    assert_eq!(e.as_slice(), &[0, 0]);
}
