use ndlazy::fmt::{dec_str, shape_str};

#[test]
fn decimal_rendering() {
    assert_eq!(dec_str(0), "0");
    assert_eq!(dec_str(7), "7");
    assert_eq!(dec_str(10), "10");
    assert_eq!(dec_str(409), "409");
    assert_eq!(dec_str(1_000_000), "1000000");
}

#[test]
fn shape_rendering() {
    assert_eq!(shape_str(&vec![]), "[]");
    assert_eq!(shape_str(&vec![5]), "[5]");
    assert_eq!(shape_str(&vec![2, 3, 4]), "[2, 3, 4]");
    assert_eq!(shape_str(&vec![10, 0]), "[10, 0]");
}
