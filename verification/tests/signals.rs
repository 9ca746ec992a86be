use logicsim::signal::{signal_zeros, Signal};

fn sig(bits: &[bool]) -> Signal {
    Signal::from_bits(bits.to_vec())
}

#[test]
fn zeros_width_and_content() {
    let s = signal_zeros(5);
    assert_eq!(s.width(), 5);
    for i in 0..5 {
        assert!(!s.get_bit(i));
    }
    assert!(!s.any());
}

#[test]
fn not_negates_each_bit_and_keeps_width() {
    let s = sig(&[true, false, true]);
    let n = s.not();
    assert_eq!(n.width(), 3);
    assert!(!n.get_bit(0));
    assert!(n.get_bit(1));
    assert!(!n.get_bit(2));
}

#[test]
fn double_negation_restores_signal() {
    let s = sig(&[true, false, false, true]);
    let back = s.not().not();
    assert!(back.same_bits(&s));
}

#[test]
fn and_or_pointwise() {
    let a = sig(&[true, true, false, false]);
    let b = sig(&[true, false, true, false]);
    let c = a.and(&b);
    assert!(c.get_bit(0) && !c.get_bit(1) && !c.get_bit(2) && !c.get_bit(3));
    let d = a.or(&b);
    assert!(d.get_bit(0) && d.get_bit(1) && d.get_bit(2) && !d.get_bit(3));
}

#[test]
fn any_detects_a_single_set_bit() {
    assert!(!sig(&[false, false, false]).any());
    assert!(sig(&[false, false, true]).any());
}

#[test]
fn load_is_little_endian() {
    // bit 0 is least significant: [true, false, true] denotes 1 + 4 = 5
    assert_eq!(sig(&[true, false, true]).load_u64(), 5);
    assert_eq!(sig(&[false, true]).load_u64(), 2);
    assert_eq!(sig(&[]).load_u64(), 0);
    assert_eq!(sig(&[true; 8]).load_u64(), 255);
}

#[test]
fn from_u64_load_round_trip() {
    for v in [0u64, 1, 2, 5, 100, 255] {
        let s = Signal::from_u64(v, 8);
        assert_eq!(s.width(), 8);
        assert_eq!(s.load_u64(), v % 256);
    }
    // truncation keeps the low bits only
    let s = Signal::from_u64(0x1F3, 4);
    assert_eq!(s.load_u64(), 0x3);
}

#[test]
fn same_bits_requires_equal_width_and_content() {
    assert!(sig(&[true, false]).same_bits(&sig(&[true, false])));
    assert!(!sig(&[true, false]).same_bits(&sig(&[true])));
    assert!(!sig(&[true, false]).same_bits(&sig(&[true, true])));
}
