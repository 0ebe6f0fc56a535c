use zkas_shielded::text::{decimal, hex, hex32, trim, unhex};

#[test]
fn hex_is_lower_case_and_reads_back() {
    assert_eq!(hex(&[0x00, 0xab, 0xff]), "00abff");
    assert_eq!(hex32(&[0x5a; 32]), "5a".repeat(32));
    assert_eq!(unhex("00abff").unwrap(), vec![0x00, 0xab, 0xff]);
    assert_eq!(unhex(" 00ABff\n").unwrap(), vec![0x00, 0xab, 0xff]);
    assert_eq!(unhex("").unwrap(), Vec::<u8>::new());
    assert!(unhex("abc").is_none());
    assert!(unhex("zz").is_none());
    assert!(unhex("é").is_none());
    assert_eq!(unhex("+f").unwrap(), vec![15]);
    assert!(unhex("f+").is_none());
}

#[test]
fn decimals_are_plain() {
    assert_eq!(decimal(0), "0");
    assert_eq!(decimal(1_234_567_890), "1234567890");
    assert_eq!(decimal(u128::MAX), u128::MAX.to_string());
}

#[test]
fn trimming_takes_white_space_off_both_ends() {
    let t = |s: &str| trim(s).into_iter().collect::<String>();
    for s in ["", "  ", "a", " a b ", "\t\u{a0}x\u{3000}", "\u{200b}y", "\u{85}\u{2028}z\r\n"] {
        assert_eq!(t(s), s.trim());
    }
}
