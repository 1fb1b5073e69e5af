use elastic_array::ElasticArray36;
use std::cmp::Ordering;
use txflow_core::nibble_slice::NibbleSlice;

const D: [u8; 3] = [0x01u8, 0x23, 0x45];

#[test]
fn basics() {
    let n = NibbleSlice::new(&D);
    assert_eq!(n.len(), 6);
    assert!(!n.is_empty());

    let n = NibbleSlice::new_offset(&D, 6);
    assert!(n.is_empty());

    let n = NibbleSlice::new_offset(&D, 3);
    assert_eq!(n.len(), 3);
    for i in 0..3 {
        assert_eq!(n.at(i), i as u8 + 3);
    }
}

#[test]
fn iterator() {
    let n = NibbleSlice::new(&D);
    let mut nibbles: Vec<u8> = vec![];
    let mut it = n.iter();
    while let Some(x) = it.next() {
        nibbles.push(x);
    }
    assert_eq!(nibbles, (0u8..6).collect::<Vec<_>>())
}

#[test]
fn mid() {
    let n = NibbleSlice::new(&D);
    let m = n.mid(2);
    for i in 0..4 {
        assert_eq!(m.at(i), i as u8 + 2);
    }
    let m = n.mid(3);
    for i in 0..3 {
        assert_eq!(m.at(i), i as u8 + 3);
    }
}

#[test]
fn encoded() {
    let n = NibbleSlice::new(&D);
    assert_eq!(n.encoded(false), ElasticArray36::from_slice(&[0x00, 0x01, 0x23, 0x45]));
    assert_eq!(n.encoded(true), ElasticArray36::from_slice(&[0x20, 0x01, 0x23, 0x45]));
    assert_eq!(n.mid(1).encoded(false), ElasticArray36::from_slice(&[0x11, 0x23, 0x45]));
    assert_eq!(n.mid(1).encoded(true), ElasticArray36::from_slice(&[0x31, 0x23, 0x45]));
}

#[test]
fn from_encoded() {
    let n = NibbleSlice::new(&D);
    assert_eq!((n, false), NibbleSlice::from_encoded(&[0x00, 0x01, 0x23, 0x45]));
    assert_eq!((n, true), NibbleSlice::from_encoded(&[0x20, 0x01, 0x23, 0x45]));
    assert_eq!((n.mid(1), false), NibbleSlice::from_encoded(&[0x11, 0x23, 0x45]));
    assert_eq!((n.mid(1), true), NibbleSlice::from_encoded(&[0x31, 0x23, 0x45]));
}

#[test]
fn shared() {
    let n = NibbleSlice::new(&D);

    let other = &[0x01u8, 0x23, 0x01, 0x23, 0x45, 0x67];
    let m = NibbleSlice::new(other);

    assert_eq!(n.common_prefix(&m), 4);
    assert_eq!(m.common_prefix(&n), 4);
    assert_eq!(n.mid(1).common_prefix(&m.mid(1)), 3);
    assert_eq!(n.mid(1).common_prefix(&m.mid(2)), 0);
    assert_eq!(n.common_prefix(&m.mid(4)), 6);
    assert!(!n.starts_with(&m.mid(4)));
    assert!(m.mid(4).starts_with(&n));
}

#[test]
fn compare() {
    let other = &[0x01u8, 0x23, 0x01, 0x23, 0x45];
    let n = NibbleSlice::new(&D);
    let m = NibbleSlice::new(other);

    assert!(n != m);
    assert!(n > m);
    assert!(m < n);

    assert!(n == m.mid(4));
    assert!(n >= m.mid(4));
    assert!(n <= m.mid(4));
}

#[test]
fn nibble_formula_with_offset() {
    let b = [0xabu8, 0xcd, 0xef];
    for o in 0..=6usize {
        let v = NibbleSlice::new_offset(&b, o);
        assert_eq!(v.len(), 6 - o);
        for i in 0..v.len() {
            let k = o + i;
            let expected = if k % 2 == 0 { (b[k / 2] >> 4) & 0xF } else { b[k / 2] & 0xF };
            assert_eq!(v.at(i), expected);
        }
    }
}

#[test]
fn hex_prefix_scenario() {
    let n = NibbleSlice::new_offset(&D, 0);
    assert_eq!(&n.encoded(false)[..], &[0x00u8, 0x01, 0x23, 0x45][..]);
    let n = NibbleSlice::new_offset(&D, 1);
    assert_eq!(&n.encoded(true)[..], &[0x31u8, 0x23, 0x45][..]);
}

#[test]
fn encode_empty_view() {
    let n = NibbleSlice::new_offset(&D, 6);
    assert_eq!(&n.encoded(false)[..], &[0x00u8][..]);
    assert_eq!(&n.encoded(true)[..], &[0x20u8][..]);
}

#[test]
fn encoded_leftmost_prefixes() {
    let n = NibbleSlice::new(&D);
    assert_eq!(&n.encoded_leftmost(3, false)[..], &[0x10u8, 0x12][..]);
    assert_eq!(&n.encoded_leftmost(2, true)[..], &[0x20u8, 0x01][..]);
    assert_eq!(&n.encoded_leftmost(100, false)[..], &[0x00u8, 0x01, 0x23, 0x45][..]);
    assert_eq!(&n.encoded_leftmost(0, false)[..], &[0x00u8][..]);
}

#[test]
fn round_trip_all_offsets() {
    let b = [0x9au8, 0x0f, 0x71, 0x30];
    for o in 0..=8usize {
        let v = NibbleSlice::new_offset(&b, o);
        for leaf in [false, true] {
            let e = v.encoded(leaf);
            let (w, l) = NibbleSlice::from_encoded(&e[..]);
            assert!(w == v);
            assert_eq!(l, leaf);
        }
    }
}

#[test]
fn mid_composes() {
    let b = [0x12u8, 0x34, 0x56, 0x78];
    let v = NibbleSlice::new_offset(&b, 1);
    for i in 0..=v.len() {
        for j in 0..=(v.len() - i) {
            assert!(v.mid(i).mid(j) == v.mid(i + j));
        }
    }
}

#[test]
fn common_prefix_symmetric_and_starts_with() {
    let a = [0x12u8, 0x34, 0x56];
    let b = [0x12u8, 0x35];
    let x = NibbleSlice::new(&a);
    let y = NibbleSlice::new(&b);
    assert_eq!(x.common_prefix(&y), 3);
    assert_eq!(y.common_prefix(&x), 3);
    assert!(!x.starts_with(&y));
    let z = NibbleSlice::new_offset(&b, 1);
    assert_eq!(z.common_prefix(&x.mid(1)), 2);
    let p = x.mid(3);
    let q = NibbleSlice::new_offset(&[0x45u8], 0);
    assert!(p.starts_with(&q));
    assert_eq!(p.common_prefix(&q), q.len());
}

#[test]
fn order_is_transitive() {
    let a = NibbleSlice::new(&[0x12u8]);
    let b = NibbleSlice::new(&[0x12u8, 0x00]);
    let c = NibbleSlice::new(&[0x13u8]);
    assert!(a <= b);
    assert!(b <= c);
    assert!(a <= c);
    assert_eq!(a.partial_cmp(&b), Some(Ordering::Less));
    assert_eq!(c.partial_cmp(&b), Some(Ordering::Greater));
    assert_eq!(a.compare(&a), Ordering::Equal);
}
