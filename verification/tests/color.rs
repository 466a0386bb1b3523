use hex_window::{
    from_hex, from_u8_rgb, hex2num_code, hex_to_rgb, num2hex_code, rgb_to_hex, to_hex, to_hex_u8,
    WinErr,
};

#[test]
fn packs_channels_red_first() {
    assert_eq!(from_u8_rgb(0x12, 0x34, 0x56), 0x123456);
    assert_eq!(from_u8_rgb(0, 0, 0), 0);
    assert_eq!(from_u8_rgb(255, 255, 255), 0xFFFFFF);
    assert_eq!(from_u8_rgb(1, 0, 0), 65536);
    assert_eq!(from_u8_rgb(0, 1, 0), 256);
}

#[test]
fn digit_values() {
    assert_eq!(hex2num_code('0'), Ok(0));
    assert_eq!(hex2num_code('7'), Ok(7));
    assert_eq!(hex2num_code('9'), Ok(9));
    assert_eq!(hex2num_code('a'), Ok(10));
    assert_eq!(hex2num_code('f'), Ok(15));
    assert_eq!(hex2num_code('A'), Ok(10));
    assert_eq!(hex2num_code('F'), Ok(15));
}

#[test]
fn digit_values_match_std() {
    for n in 0u32..0x250 {
        if let Some(c) = char::from_u32(n) {
            match c.to_digit(16) {
                Some(d) => assert_eq!(hex2num_code(c), Ok(d as u8)),
                None => assert_eq!(hex2num_code(c), Err(WinErr::InvalidHexChar(c))),
            }
        }
    }
}

#[test]
fn non_digits_are_named() {
    assert_eq!(hex2num_code('g'), Err(WinErr::InvalidHexChar('g')));
    assert_eq!(hex2num_code('G'), Err(WinErr::InvalidHexChar('G')));
    assert_eq!(hex2num_code('/'), Err(WinErr::InvalidHexChar('/')));
    assert_eq!(hex2num_code(':'), Err(WinErr::InvalidHexChar(':')));
    assert_eq!(hex2num_code('@'), Err(WinErr::InvalidHexChar('@')));
    assert_eq!(hex2num_code('`'), Err(WinErr::InvalidHexChar('`')));
    assert_eq!(hex2num_code(' '), Err(WinErr::InvalidHexChar(' ')));
    assert_eq!(hex2num_code('é'), Err(WinErr::InvalidHexChar('é')));
}

#[test]
fn from_hex_reads_the_first_digit_as_the_high_one() {
    assert_eq!(from_hex("FF".to_string()), Ok(255));
    assert_eq!(from_hex("0f".to_string()), Ok(15));
    assert_eq!(from_hex("f0".to_string()), Ok(240));
    assert_eq!(from_hex("1A".to_string()), Ok(26));
    assert_eq!(from_hex("A".to_string()), Ok(10));
    assert_eq!(from_hex("".to_string()), Ok(0));
    assert_eq!(from_hex("00".to_string()), Ok(0));
}

#[test]
fn from_hex_names_the_last_bad_character() {
    assert_eq!(from_hex("1G".to_string()), Err(WinErr::InvalidHexChar('G')));
    assert_eq!(from_hex("G1".to_string()), Err(WinErr::InvalidHexChar('G')));
    assert_eq!(from_hex("XY".to_string()), Err(WinErr::InvalidHexChar('Y')));
    assert_eq!(from_hex("-".to_string()), Err(WinErr::InvalidHexChar('-')));
}

#[test]
fn decodes_colour_codes() {
    assert_eq!(hex_to_rgb("FF00FF".to_string()), Ok(0xFF00FF));
    assert_eq!(hex_to_rgb("ff00ff".to_string()), Ok(0xFF00FF));
    assert_eq!(hex_to_rgb("0F0F0F".to_string()), Ok(0x0F0F0F));
    assert_eq!(hex_to_rgb("000000".to_string()), Ok(0));
    assert_eq!(hex_to_rgb("FFFFFF".to_string()), Ok(16777215));
    assert_eq!(hex_to_rgb("123456".to_string()), Ok(0x123456));
    assert_eq!(hex_to_rgb("aBcDeF".to_string()), Ok(0xABCDEF));
    assert_eq!(hex_to_rgb("CC00FF".to_string()), Ok(0xCC00FF));
}

#[test]
fn wrong_length_is_refused_with_the_code() {
    assert_eq!(hex_to_rgb("FFF".to_string()), Err(WinErr::InvalidHexCode("FFF".to_string())));
    assert_eq!(hex_to_rgb("".to_string()), Err(WinErr::InvalidHexCode("".to_string())));
    assert_eq!(
        hex_to_rgb("FFFFFFF".to_string()),
        Err(WinErr::InvalidHexCode("FFFFFFF".to_string()))
    );
    assert_eq!(
        hex_to_rgb("#FFFFFF".to_string()),
        Err(WinErr::InvalidHexCode("#FFFFFF".to_string()))
    );
    assert_eq!(hex_to_rgb("GGGGG".to_string()), Err(WinErr::InvalidHexCode("GGGGG".to_string())));
}

#[test]
fn bad_character_is_named() {
    assert_eq!(hex_to_rgb("GG0000".to_string()), Err(WinErr::InvalidHexChar('G')));
    assert_eq!(hex_to_rgb("ZG0000".to_string()), Err(WinErr::InvalidHexChar('G')));
    assert_eq!(hex_to_rgb("Z00000".to_string()), Err(WinErr::InvalidHexChar('Z')));
    assert_eq!(hex_to_rgb("00X0Y0".to_string()), Err(WinErr::InvalidHexChar('X')));
    assert_eq!(hex_to_rgb("0000XY".to_string()), Err(WinErr::InvalidHexChar('Y')));
    assert_eq!(hex_to_rgb("00000 ".to_string()), Err(WinErr::InvalidHexChar(' ')));
    assert_eq!(hex_to_rgb("é12345".to_string()), Err(WinErr::InvalidHexChar('é')));
}

#[test]
fn decoded_colours_fit_in_24_bits() {
    for code in ["FFFFFF", "ffffff", "000000", "80FF01", "fedcba"] {
        assert!(hex_to_rgb(code.to_string()).unwrap() <= 0xFFFFFF);
    }
}

#[test]
fn digit_characters() {
    assert_eq!(num2hex_code(0), Ok('0'));
    assert_eq!(num2hex_code(9), Ok('9'));
    assert_eq!(num2hex_code(10), Ok('A'));
    assert_eq!(num2hex_code(15), Ok('F'));
    assert_eq!(num2hex_code(16), Err(WinErr::InvalidNumCode(16)));
    assert_eq!(num2hex_code(255), Err(WinErr::InvalidNumCode(255)));
}

#[test]
fn to_hex_has_eight_digits() {
    assert_eq!(to_hex(255), Ok("000000FF".to_string()));
    assert_eq!(to_hex(0), Ok("00000000".to_string()));
    assert_eq!(to_hex(0xDEADBEEF), Ok("DEADBEEF".to_string()));
    assert_eq!(to_hex(0x00FF0000), Ok("00FF0000".to_string()));
    assert_eq!(to_hex(u32::MAX), Ok("FFFFFFFF".to_string()));
    assert_eq!(to_hex(0x12345678), Ok("12345678".to_string()));
}

#[test]
fn to_hex_matches_format() {
    for n in [0u32, 1, 15, 16, 4095, 65536, 0xABCDEF, 0x7FFFFFFF, 0x80000000, u32::MAX] {
        assert_eq!(to_hex(n).unwrap(), format!("{:08X}", n));
    }
}

#[test]
fn to_hex_u8_has_two_digits() {
    assert_eq!(to_hex_u8(0), Ok("00".to_string()));
    assert_eq!(to_hex_u8(10), Ok("0A".to_string()));
    assert_eq!(to_hex_u8(171), Ok("AB".to_string()));
    assert_eq!(to_hex_u8(255), Ok("FF".to_string()));
    for n in 0u8..=255 {
        assert_eq!(to_hex_u8(n).unwrap(), format!("{:02X}", n));
    }
}

#[test]
fn rgb_to_hex_has_six_digits() {
    assert_eq!(rgb_to_hex(0xFF0000), Ok("FF0000".to_string()));
    assert_eq!(rgb_to_hex(0), Ok("000000".to_string()));
    assert_eq!(rgb_to_hex(0xFFFFFF), Ok("FFFFFF".to_string()));
    assert_eq!(rgb_to_hex(0x0A0B0C), Ok("0A0B0C".to_string()));
}

#[test]
fn rgb_to_hex_refuses_more_than_24_bits() {
    assert_eq!(rgb_to_hex(0x1000000), Err(WinErr::InvalidRGBValue(16777216)));
    assert_eq!(rgb_to_hex(u32::MAX), Err(WinErr::InvalidRGBValue(u32::MAX)));
}

#[test]
fn code_round_trip_gives_upper_case() {
    for code in ["ff00ff", "FF00FF", "0a1b2c", "AbCdEf", "000000", "987654", "fFfFfF"] {
        let rgb = hex_to_rgb(code.to_string()).unwrap();
        assert_eq!(rgb_to_hex(rgb).unwrap(), code.to_uppercase());
        let r = to_hex_u8((rgb >> 16) as u8).unwrap();
        let g = to_hex_u8((rgb >> 8) as u8).unwrap();
        let b = to_hex_u8(rgb as u8).unwrap();
        assert_eq!(format!("{r}{g}{b}"), code.to_uppercase());
    }
}

#[test]
fn colour_round_trip_gives_the_colour() {
    for rgb in [0u32, 1, 255, 256, 65535, 65536, 0x123456, 0xFEDCBA, 0xFFFFFF] {
        assert_eq!(hex_to_rgb(rgb_to_hex(rgb).unwrap()), Ok(rgb));
    }
}
