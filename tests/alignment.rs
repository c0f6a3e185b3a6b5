#[test]
fn align_0() {
    assert!(shadow::align_8(0) == 0);
}

#[test]
fn align_1() {
    assert!(shadow::align_8(1) == 0);
}

#[test]
fn align_2() {
    assert!(shadow::align_8(2) == 0);
}

#[test]
fn align_3() {
    assert!(shadow::align_8(3) == 0);
}

#[test]
fn align_4() {
    assert!(shadow::align_8(4) == 0);
}

#[test]
fn align_5() {
    assert!(shadow::align_8(5) == 0);
}

#[test]
fn align_6() {
    assert!(shadow::align_8(6) == 0);
}

#[test]
fn align_7() {
    assert!(shadow::align_8(7) == 0);
}

#[test]
fn align_8() {
    assert!(shadow::align_8(8) == 8);
}

#[test]
fn align_9() {
    assert!(shadow::align_8(9) == 8);
}

#[test]
fn align_up_to_eight() {
    assert_eq!(shadow::align_next_8(0), 0);
    assert_eq!(shadow::align_next_8(1), 8);
    assert_eq!(shadow::align_next_8(7), 8);
    assert_eq!(shadow::align_next_8(8), 8);
    assert_eq!(shadow::align_next_8(9), 16);
    assert_eq!(shadow::align_next_8(4095), 4096);
}

#[test]
fn align_down_large() {
    assert_eq!(shadow::align_8(4095), 4088);
    assert_eq!(shadow::align_8(usize::MAX), usize::MAX - 7);
}
