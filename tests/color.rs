use beacon::color::RGB;

#[test]
fn new_keeps_channels() {
    let c = RGB::new(1, 2, 3);
    assert_eq!((c.red, c.green, c.blue), (1, 2, 3));
}

#[test]
fn new_from_array_keeps_order() {
    let c = RGB::new_from_array([249, 255, 254]);
    assert_eq!(c, RGB::new(249, 255, 254));
}

#[test]
fn new_from_number_unpacks_cyan() {
    assert_eq!(RGB::new_from_number(0x00ffff), RGB::new(0, 255, 255));
}

#[test]
fn new_from_number_unpacks_each_byte() {
    assert_eq!(RGB::new_from_number(0x123456), RGB::new(0x12, 0x34, 0x56));
}

#[test]
fn new_from_number_ignores_high_bits() {
    assert_eq!(RGB::new_from_number(0xff80_4020), RGB::new(0x80, 0x40, 0x20));
}
