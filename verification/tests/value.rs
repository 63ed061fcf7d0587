use fress::value::{FALSE_HANDLE, NIL_HANDLE, TRUE_HANDLE};
use fress::Value;

#[test]
fn testbed() {
    let x = Value { handle: 7 };
    assert_eq!(x.handle, 7);
}

#[test]
fn is_immediate() {
    assert!(Value { handle: 7 }.is_immediate())
}

#[test]
fn is_not() {
    assert!(Value::NIL().is_not() && Value::FALSE().is_not())
}

#[test]
fn is_so() {
    assert!(Value { handle: 0 }.is_so())
}

#[test]
fn is_nil() {
    assert!(Value { handle: 7 }.is_nil())
}

#[test]
fn is_true() {
    assert!(Value { handle: !0 }.is_true())
}

#[test]
fn is_false() {
    assert!(Value { handle: !0 - 8 }.is_false())
}

#[test]
fn is_immediate_number() {
    assert!(Value { handle: 1 }.is_immediate_number() && Value { handle: 5 }.is_immediate_number())
}

#[test]
fn from_u64() {
    let x: u64 = 17;
    let y: Value = x.into();
    let z: u64 = y.into();
    assert_eq!(x, z)
}

#[test]
fn constants_have_their_handles() {
    assert_eq!(Value::NIL().handle, NIL_HANDLE);
    assert_eq!(Value::TRUE().handle, TRUE_HANDLE);
    assert_eq!(Value::FALSE().handle, FALSE_HANDLE);
    assert!(Value::TRUE().is_true() && Value::TRUE().is_so());
    assert!(!Value::TRUE().is_not());
}

#[test]
fn immediates_are_odd() {
    assert!(!Value { handle: 0 }.is_immediate());
    assert!(!Value { handle: 8 }.is_immediate());
    assert!(Value { handle: 9 }.is_immediate());
}

#[test]
fn only_nil_and_false_are_not() {
    assert!(!Value { handle: 0x17 }.is_not());
    assert!(Value { handle: 0x17 }.is_so());
    assert!(!Value { handle: 7 }.is_so());
    assert!(!Value { handle: !0 - 8 }.is_so());
}

#[test]
fn immediate_numbers_end_in_01() {
    assert!(!Value { handle: 7 }.is_immediate_number());
    assert!(!Value { handle: 3 }.is_immediate_number());
    assert!(!Value { handle: 4 }.is_immediate_number());
    assert!(Value { handle: 0x11 }.is_immediate_number());
}

#[test]
fn numbers_are_tagged_immediates() {
    let v: Value = Value::from(17u64);
    assert_eq!(v.handle, 17 * 4 + 1);
    assert!(v.is_immediate_number());
    assert!(v.is_immediate());
    let w: Value = Value::from(0u64);
    assert_eq!(w.handle, 1);
    assert_eq!(u64::from(w), 0);
}

#[test]
fn numbers_below_two_to_the_62_round_trip() {
    for x in [0u64, 1, 2, 1000, (1u64 << 62) - 1] {
        let v: Value = x.into();
        let y: u64 = v.into();
        assert_eq!(x, y);
    }
}

#[test]
fn numbers_above_lose_their_top_bits() {
    let x: u64 = (1u64 << 62) + 5;
    let v: Value = x.into();
    assert_eq!(v.handle, 5 * 4 + 1);
    assert_eq!(u64::from(v), 5);
}
