use nibble_vec::NibbleVec;

fn from_values(vals: &[u8]) -> NibbleVec {
    let mut nv = NibbleVec::new();
    for v in vals.iter() {
        nv.push(*v);
    }
    nv
}

/// Splitting at any index and joining the parts restores the original.
#[test]
fn split_join_inverse() {
    let vals: Vec<u8> = vec![8, 7, 6, 5, 11, 10, 9];
    let original = from_values(&vals);
    for idx in 0..=vals.len() {
        let mut head = original.clone();
        let tail = head.split(idx);
        let rejoined = head.join(&tail);
        assert!(rejoined == original);
        assert!(rejoined.eq_nibbles(&vals));
    }
}

/// Split parts' lengths sum to the original's; join's length is the sum.
#[test]
fn length_conservation() {
    let vals: Vec<u8> = vec![1, 2, 3, 4, 5];
    let original = from_values(&vals);
    for idx in 0..=vals.len() {
        let mut head = original.clone();
        let tail = head.split(idx);
        assert_eq!(head.len() + tail.len(), vals.len());
        assert_eq!(head.len(), idx);
        let joined = head.join(&tail);
        assert_eq!(joined.len(), vals.len());
    }
}

/// Splitting at zero empties the receiver; splitting at the length returns an
/// empty tail and leaves the receiver untouched.
#[test]
fn split_boundary() {
    let vals: Vec<u8> = vec![12, 0, 15, 3];
    let mut at_zero = from_values(&vals);
    let tail = at_zero.split(0);
    assert!(at_zero.eq_nibbles(&[]));
    assert!(tail.eq_nibbles(&vals));

    let mut at_len = from_values(&vals);
    let tail = at_len.split(vals.len());
    assert!(at_len.eq_nibbles(&vals));
    assert!(tail.eq_nibbles(&[]));
}

/// An odd-length sequence keeps the unused lower half of its final byte at
/// zero: appending right after a mid-byte split must see a clean half byte.
#[test]
fn zero_padding_after_odd_split() {
    let mut nv = from_values(&[8, 7, 6, 5]);
    let tail = nv.split(3);
    assert!(nv.eq_nibbles(&[8, 7, 6]));
    assert!(tail.eq_nibbles(&[5]));
    nv.push(1);
    assert_eq!(nv.get(3), 1);

    let mut odd_tail = from_values(&[9, 14, 2]);
    let tail = odd_tail.split(1);
    assert!(tail.eq_nibbles(&[14, 2]));
    odd_tail.push(15);
    assert_eq!(odd_tail.get(0), 9);
    assert_eq!(odd_tail.get(1), 15);
}

/// Values above 15 are silently truncated to their low four bits.
#[test]
fn push_truncates_high_bits() {
    let mut nv = NibbleVec::new();
    nv.push(0xAB);
    nv.push(0xFF);
    assert_eq!(nv.get(0), 0x0B);
    assert_eq!(nv.get(1), 0x0F);
}

/// Structural equality compares logical contents; an independent clone stays
/// equal until one side changes.
#[test]
fn equality_and_clone() {
    let a = from_values(&[1, 2, 3]);
    let b = from_values(&[1, 2, 3]);
    let c = from_values(&[1, 2, 4]);
    assert!(a == b);
    assert!(a != c);
    assert!(NibbleVec::new() == NibbleVec::new());

    let mut d = a.clone();
    assert!(d == a);
    d.push(9);
    assert!(d != a);
    assert!(a.eq_nibbles(&[1, 2, 3]));
    assert_eq!(d.len(), 4);
}

/// A sequence built from whole bytes reads back both halves of every byte.
#[test]
fn from_byte_vec_reads_back() {
    let nv = NibbleVec::from_byte_vec(vec![0x87, 0x65]);
    assert_eq!(nv.len(), 4);
    assert_eq!(nv.get(0), 8);
    assert_eq!(nv.get(1), 7);
    assert_eq!(nv.get(2), 6);
    assert_eq!(nv.get(3), 5);

    let empty = NibbleVec::from_byte_vec(vec![]);
    assert_eq!(empty.len(), 0);
}

/// The debug rendering lists the nibble values in logical order.
#[test]
fn debug_rendering() {
    assert_eq!(from_values(&[8, 7, 6, 5]).debug_string(), "NibbleVec [8, 7, 6, 5]");
    assert_eq!(NibbleVec::new().debug_string(), "NibbleVec []");
    assert_eq!(from_values(&[15]).debug_string(), "NibbleVec [15]");
    assert_eq!(from_values(&[10, 0]).debug_string(), "NibbleVec [10, 0]");
}

/// eq_nibbles rejects a different length and a different value.
#[test]
fn eq_nibbles_mismatch() {
    let nv = from_values(&[4, 2]);
    assert!(nv.eq_nibbles(&[4, 2]));
    assert!(!nv.eq_nibbles(&[4]));
    assert!(!nv.eq_nibbles(&[4, 2, 0]));
    assert!(!nv.eq_nibbles(&[4, 3]));
}
