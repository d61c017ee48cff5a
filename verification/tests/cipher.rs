use sneaky::cipher::{alphabetic_rot, string_rot, MAX_ROTATION};

fn check(message: &str, output: &str, n: u8) {
    let mut message_copy = message.to_string();
    string_rot(&mut message_copy, n);
    assert_eq!(output, &message_copy);
    string_rot(&mut message_copy, 26 - n);
    assert_eq!(message, &message_copy);
}

#[test]
fn empty_string() {
    check("", "", 1);
}

#[test]
fn full_rotate() {
    check("this is a 26 rotate", "this is a 26 rotate", 26);
}

#[test]
fn rotate() {
    check(
        "qwertyuiopasdfghjklzxcvbnmQWERTYUIOPASDFGHJKLZXCVBNM",
        "djreglhvbcnfqstuwxymkpioazDJREGLHVBCNFQSTUWXYMKPIOAZ",
        13,
    );
}

#[test]
fn special_chars() {
    check("1234567890!@#$%^&*()_+-=", "1234567890!@#$%^&*()_+-=", 1)
}

#[test]
fn letters_of_other_alphabets_stay() {
    check("héllo wörld, Ünïcode \u{1F600}", "iémmp xösme, Üoïdpef \u{1F600}", 1);
}

#[test]
fn bytes_that_are_no_letters_stay() {
    let mut bytes = vec![0x40, 0x5b, 0x60, 0x7b, 0x00, 0xff, 0xc3, 0xa9];
    alphabetic_rot(&mut bytes, 7);
    assert_eq!(bytes, vec![0x40, 0x5b, 0x60, 0x7b, 0x00, 0xff, 0xc3, 0xa9]);
}

#[test]
fn rotation_wraps_within_each_case() {
    let mut bytes = b"AZaz".to_vec();
    alphabetic_rot(&mut bytes, 1);
    assert_eq!(bytes, b"BAba".to_vec());
    let mut bytes = b"AZaz".to_vec();
    // 230 = 8 * 26 + 22
    alphabetic_rot(&mut bytes, MAX_ROTATION);
    assert_eq!(bytes, b"WVwv".to_vec());
    let mut message = String::from("AZaz");
    string_rot(&mut message, 25);
    assert_eq!(message, "ZYzy");
}
