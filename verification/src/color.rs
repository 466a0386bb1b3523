use crate::error::WinErr;
use vstd::prelude::*;
use vstd::string::*;

verus! {

/// The largest colour value: 24 bits, eight for each of red, green and blue.
pub const MAX_RGB: u32 = 0xFFFFFF;

/// Whether `c` is one of `0-9`, `a-f`, `A-F`.
pub open spec fn is_hex_digit(c: char) -> bool {
    ||| 48 <= c as int <= 57
    ||| 65 <= c as int <= 70
    ||| 97 <= c as int <= 102
}

/// The value, 0 to 15, of a hexadecimal digit.
pub open spec fn hex_value(c: char) -> int
    recommends
        is_hex_digit(c),
{
    if c as int <= 57 {
        c as int - 48
    } else if c as int <= 70 {
        c as int - 55
    } else {
        c as int - 87
    }
}

/// The upper-case digit that stands for a value from 0 to 15.
pub open spec fn hex_char(n: int) -> char
    recommends
        0 <= n < 16,
{
    if n < 10 {
        (n + 48) as char
    } else {
        (n + 55) as char
    }
}

/// `c` with a lower-case ASCII letter turned into its upper-case form.
pub open spec fn upper(c: char) -> char {
    if 97 <= c as int <= 122 {
        (c as int - 32) as char
    } else {
        c
    }
}

/// Whether every character of `s` is a hexadecimal digit.
pub open spec fn all_hex(s: Seq<char>) -> bool {
    forall|i: int| 0 <= i < s.len() ==> is_hex_digit(#[trigger] s[i])
}

/// The number that the digits of `s` spell in base 16, first digit highest.
pub open spec fn hex_number(s: Seq<char>) -> int
    decreases s.len(),
{
    if s.len() == 0 {
        0
    } else {
        16 * hex_number(s.drop_last()) + hex_value(s.last())
    }
}

/// The last character of `s` that is no hexadecimal digit, if there is one.
pub open spec fn last_non_hex(s: Seq<char>) -> Option<char>
    decreases s.len(),
{
    if s.len() == 0 {
        None
    } else if !is_hex_digit(s.last()) {
        Some(s.last())
    } else {
        last_non_hex(s.drop_last())
    }
}

/// The `width` lowest base-16 digits of `n`, highest first, in upper case.
pub open spec fn hex_string(n: nat, width: nat) -> Seq<char>
    decreases width,
{
    if width == 0 {
        Seq::empty()
    } else {
        hex_string(n / 16, (width - 1) as nat).push(hex_char((n % 16) as int))
    }
}

/// Three channels packed into one value, red highest.
pub open spec fn pack(r: int, g: int, b: int) -> int {
    r * 65536 + g * 256 + b
}

/// Whether `s` is a colour code: six hexadecimal digits.
pub open spec fn is_hex_code(s: Seq<char>) -> bool {
    s.len() == 6 && all_hex(s)
}

/// The colour that the code `s` stands for: two digits each for red, green, blue.
pub open spec fn rgb_of(s: Seq<char>) -> int
    recommends
        is_hex_code(s),
{
    pack(
        hex_number(s.subrange(0, 2)),
        hex_number(s.subrange(2, 4)),
        hex_number(s.subrange(4, 6)),
    )
}

/// The character that a six-character code is refused for: of the first pair
/// of digits that holds one, the last character that is no hexadecimal digit.
pub open spec fn offending_char(s: Seq<char>) -> Option<char>
    recommends
        s.len() == 6,
{
    if last_non_hex(s.subrange(0, 2)) is Some {
        last_non_hex(s.subrange(0, 2))
    } else if last_non_hex(s.subrange(2, 4)) is Some {
        last_non_hex(s.subrange(2, 4))
    } else {
        last_non_hex(s.subrange(4, 6))
    }
}

/// What decoding the code `s` gives: the colour of a valid code, `InvalidHexCode`
/// with the code for a wrong length, `InvalidHexChar` with the offending character.
pub open spec fn decodes_to(s: Seq<char>, r: Result<u32, WinErr>) -> bool {
    if s.len() != 6 {
        r matches Err(WinErr::InvalidHexCode(t)) && t@ == s
    } else {
        match offending_char(s) {
            Some(c) => r == Err::<u32, WinErr>(WinErr::InvalidHexChar(c)),
            None => r matches Ok(v) && v as int == rgb_of(s),
        }
    }
}

/// The six-digit code of a colour: two upper-case digits for each channel.
pub open spec fn hex_triplet(rgb: nat) -> Seq<char> {
    hex_string(rgb / 65536 % 256, 2) + hex_string(rgb / 256 % 256, 2) + hex_string(rgb % 256, 2)
}

/// Packs three channels into one colour value.
pub fn from_u8_rgb(r: u8, g: u8, b: u8) -> (rgb: u32)
    ensures
        rgb as int == pack(r as int, g as int, b as int),
        rgb <= MAX_RGB,
{
    let (r, g, b) = (r as u32, g as u32, b as u32);
    assert(((r << 16) | (g << 8) | b) == r * 65536 + g * 256 + b) by (bit_vector)
        requires
            r < 256,
            g < 256,
            b < 256,
    ;
    (r << 16) | (g << 8) | b
}

/// The value of one hexadecimal digit.
pub fn hex2num_code(c: char) -> (r: Result<u8, WinErr>)
    ensures
        is_hex_digit(c) ==> r == Ok::<u8, WinErr>(hex_value(c) as u8),
        !is_hex_digit(c) ==> r == Err::<u8, WinErr>(WinErr::InvalidHexChar(c)),
{
    let n: u32 = c as u32;
    if 48 <= n && n <= 57 {
        Ok((n - 48) as u8)
    } else if 65 <= n && n <= 70 {
        Ok((n - 55) as u8)
    } else if 97 <= n && n <= 102 {
        Ok((n - 87) as u8)
    } else {
        Err(WinErr::InvalidHexChar(c))
    }
}

/// The value of a string of at most two hexadecimal digits, the first digit
/// highest. The characters are read from the last to the first, and the first
/// one read that is no digit is named in the error.
pub fn from_hex(input: String) -> (r: Result<u8, WinErr>)
    requires
        input@.len() <= 2,
    ensures
        match last_non_hex(input@) {
            Some(c) => r == Err::<u8, WinErr>(WinErr::InvalidHexChar(c)),
            None => r matches Ok(v) && v as int == hex_number(input@),
        },
{
    let s = input.as_str();
    let n = s.unicode_len();
    let mut output: u8 = 0;
    let mut weight: u8 = 1;
    let mut i: usize = 0;
    proof {
        reveal_with_fuel(last_non_hex, 3);
        reveal_with_fuel(hex_number, 3);
    }
    while i < n
        invariant
            s@ == input@,
            n == s@.len(),
            n <= 2,
            i <= n,
            forall|k: int| n - i <= k < n ==> is_hex_digit(#[trigger] s@[k]),
            i == 0 ==> output == 0 && weight == 1,
            i == 1 ==> output == hex_value(s@[n - 1]) && weight == 16,
            i == 2 ==> output == 16 * hex_value(s@[0]) + hex_value(s@[1]),
        decreases n - i,
    {
        let c = s.get_char(n - 1 - i);
        let val = match hex2num_code(c) {
            Ok(v) => v,
            Err(e) => {
                proof {
                    reveal_with_fuel(last_non_hex, 3);
                    if n == 2 {
                        assert(s@.drop_last().last() == s@[0]);
                    }
                }
                return Err(e);
            },
        };
        output = output + val * weight;
        i = i + 1;
        if i < 2 {
            weight = weight * 16;
        }
    }
    Ok(output)
}

/// Converts a colour code such as `0F0F0F` into its colour value.
pub fn hex_to_rgb(code: String) -> (r: Result<u32, WinErr>)
    ensures
        decodes_to(code@, r),
        r is Ok <==> is_hex_code(code@),
        r matches Ok(v) ==> v <= MAX_RGB,
{
    if code.as_str().unicode_len() != 6 {
        return Err(WinErr::InvalidHexCode(code));
    }
    proof {
        lemma_pairs_cover(code@);
    }
    let s = code.as_str();
    let r = match from_hex(String::from_str(s.substring_char(0, 2))) {
        Ok(v) => v,
        Err(e) => {
            return Err(e);
        },
    };
    let g = match from_hex(String::from_str(s.substring_char(2, 4))) {
        Ok(v) => v,
        Err(e) => {
            return Err(e);
        },
    };
    let b = match from_hex(String::from_str(s.substring_char(4, 6))) {
        Ok(v) => v,
        Err(e) => {
            return Err(e);
        },
    };
    Ok(from_u8_rgb(r, g, b))
}

/// A code of six characters holds a character that is no hexadecimal digit
/// exactly when one of its three pairs does.
pub proof fn lemma_pairs_cover(s: Seq<char>)
    requires
        s.len() == 6,
    ensures
        offending_char(s) is None <==> all_hex(s),
{
    reveal_with_fuel(last_non_hex, 3);
    let a = s.subrange(0, 2);
    let b = s.subrange(2, 4);
    let c = s.subrange(4, 6);
    assert(a.last() == s[1] && a.drop_last().last() == s[0]);
    assert(b.last() == s[3] && b.drop_last().last() == s[2]);
    assert(c.last() == s[5] && c.drop_last().last() == s[4]);
}

/// The upper-case digit of a value from 0 to 15.
pub fn num2hex_code(num: u8) -> (r: Result<char, WinErr>)
    ensures
        num < 16 ==> r == Ok::<char, WinErr>(hex_char(num as int)),
        num >= 16 ==> r == Err::<char, WinErr>(WinErr::InvalidNumCode(num)),
{
    if num <= 9 {
        Ok((num + 48) as char)
    } else if num <= 15 {
        Ok((num + 55) as char)
    } else {
        Err(WinErr::InvalidNumCode(num))
    }
}

/// `n` with its `i` lowest base-16 digits taken off.
pub open spec fn without_low_digits(n: nat, i: nat) -> nat
    decreases i,
{
    if i == 0 {
        n
    } else {
        without_low_digits(n, (i - 1) as nat) / 16
    }
}

proof fn lemma_shift_is_division(num: u32, i: u32)
    requires
        i < 8,
    ensures
        (num >> (4 * i)) as nat == without_low_digits(num as nat, i as nat),
        ((num >> (4 * i)) & 0xF) as nat == without_low_digits(num as nat, i as nat) % 16,
    decreases i,
{
    let s: u32 = (4 * i) as u32;
    let x: u32 = num >> s;
    assert(x & 0xF == x % 16) by (bit_vector);
    if i == 0 {
        assert(num >> 0u32 == num) by (bit_vector);
    } else {
        lemma_shift_is_division(num, (i - 1) as u32);
        let t: u32 = (4 * (i - 1)) as u32;
        assert(num >> s == (num >> t) / 16) by (bit_vector)
            requires
                s == t + 4,
                t < 32,
        ;
    }
}

/// Converts a number to eight upper-case hexadecimal digits, leading zeros included.
pub fn to_hex(num: u32) -> (r: Result<String, WinErr>)
    ensures
        r matches Ok(s) && s@ == hex_string(num as nat, 8),
{
    let mut out = String::new();
    let mut i: u32 = 8;
    while i > 0
        invariant
            i <= 8,
            out@ == hex_string(without_low_digits(num as nat, i as nat), (8 - i) as nat),
        decreases i,
    {
        i = i - 1;
        let shift: u32 = i * 4;
        let hex_digit = ((num >> shift) & 0xF) as u8;
        proof {
            lemma_shift_is_division(num, i);
        }
        let hex_char = match num2hex_code(hex_digit) {
            Ok(c) => c,
            Err(e) => {
                return Err(e);
            },
        };
        out.push(hex_char);
    }
    Ok(out)
}

/// Converts a byte to two upper-case hexadecimal digits, leading zero included.
pub fn to_hex_u8(num: u8) -> (r: Result<String, WinErr>)
    ensures
        r matches Ok(s) && s@ == hex_string(num as nat, 2),
{
    let mut out = String::new();
    let mut i: u32 = 2;
    while i > 0
        invariant
            i <= 2,
            out@ == hex_string(without_low_digits(num as nat, i as nat), (2 - i) as nat),
        decreases i,
    {
        i = i - 1;
        let shift: u32 = i * 4;
        let hex_digit = (num >> shift) & 0xF;
        proof {
            lemma_shift_is_division(num as u32, i);
            let wide: u32 = num as u32;
            assert(((num >> shift) & 0xF) as u32 == (wide >> shift) & 0xF) by (bit_vector)
                requires
                    wide == num as u32,
                    shift < 8,
            ;
        }
        let hex_char = match num2hex_code(hex_digit) {
            Ok(c) => c,
            Err(e) => {
                return Err(e);
            },
        };
        out.push(hex_char);
    }
    Ok(out)
}

/// Converts a colour value to its code of six upper-case hexadecimal digits.
/// A value above `0xFFFFFF` is no colour and is refused.
pub fn rgb_to_hex(rgb: u32) -> (r: Result<String, WinErr>)
    ensures
        rgb > MAX_RGB ==> r == Err::<String, WinErr>(WinErr::InvalidRGBValue(rgb)),
        rgb <= MAX_RGB ==> (r matches Ok(s) && s@ == hex_triplet(rgb as nat)),
{
    if rgb > MAX_RGB {
        return Err(WinErr::InvalidRGBValue(rgb));
    }
    let red = ((rgb >> 16) & 0xFF) as u8;
    let green = ((rgb >> 8) & 0xFF) as u8;
    let blue = (rgb & 0xFF) as u8;
    assert((rgb >> 16) & 0xFF == rgb / 65536 % 256) by (bit_vector);
    assert((rgb >> 8) & 0xFF == rgb / 256 % 256) by (bit_vector);
    assert(rgb & 0xFF == rgb % 256) by (bit_vector);
    let mut out = match to_hex_u8(red) {
        Ok(s) => s,
        Err(e) => {
            return Err(e);
        },
    };
    match to_hex_u8(green) {
        Ok(s) => out.append(s.as_str()),
        Err(e) => {
            return Err(e);
        },
    }
    match to_hex_u8(blue) {
        Ok(s) => out.append(s.as_str()),
        Err(e) => {
            return Err(e);
        },
    }
    Ok(out)
}

/// Two hexadecimal digits spell a number below 256, and the two digits of
/// that number are the same two in upper case.
pub proof fn lemma_pair_round_trip(s: Seq<char>)
    requires
        s.len() == 2,
        all_hex(s),
    ensures
        hex_number(s) == 16 * hex_value(s[0]) + hex_value(s[1]),
        0 <= hex_number(s) < 256,
        hex_string(hex_number(s) as nat, 2) == seq![upper(s[0]), upper(s[1])],
{
    reveal_with_fuel(hex_number, 3);
    reveal_with_fuel(hex_string, 3);
    assert(s.last() == s[1] && s.drop_last().last() == s[0]);
    assert(is_hex_digit(s[0]) && is_hex_digit(s[1]));
    let n = hex_number(s) as nat;
    assert(n / 16 == hex_value(s[0]) && n % 16 == hex_value(s[1]));
    assert(hex_char(hex_value(s[0])) == upper(s[0]));
    assert(hex_char(hex_value(s[1])) == upper(s[1]));
    assert(hex_string(n, 2) =~= seq![upper(s[0]), upper(s[1])]);
}

/// The two digits of a number below 256 are hexadecimal digits and spell it.
pub proof fn lemma_byte_round_trip(n: nat)
    requires
        n < 256,
    ensures
        hex_string(n, 2).len() == 2,
        all_hex(hex_string(n, 2)),
        hex_number(hex_string(n, 2)) == n,
{
    reveal_with_fuel(hex_number, 3);
    reveal_with_fuel(hex_string, 3);
    let t = hex_string(n, 2);
    assert(t =~= seq![hex_char((n / 16 % 16) as int), hex_char((n % 16) as int)]);
    assert(t.last() == t[1] && t.drop_last().last() == t[0]);
    assert(hex_value(t[0]) == n / 16 && is_hex_digit(t[0]));
    assert(hex_value(t[1]) == n % 16 && is_hex_digit(t[1]));
}

/// The colour of a code fits in 24 bits.
pub proof fn rgb_of_is_a_colour(s: Seq<char>)
    requires
        is_hex_code(s),
    ensures
        0 <= rgb_of(s) <= MAX_RGB,
{
    assert forall|k: int| 0 <= k < 2 implies is_hex_digit(#[trigger] s.subrange(0, 2)[k])
        && is_hex_digit(s.subrange(2, 4)[k]) && is_hex_digit(s.subrange(4, 6)[k]) by {
        assert(is_hex_digit(s[k]) && is_hex_digit(s[k + 2]) && is_hex_digit(s[k + 4]));
    }
    lemma_pair_round_trip(s.subrange(0, 2));
    lemma_pair_round_trip(s.subrange(2, 4));
    lemma_pair_round_trip(s.subrange(4, 6));
}

/// Decoding a colour code and encoding the colour again gives the code back
/// in upper case.
pub proof fn code_round_trip(s: Seq<char>)
    requires
        is_hex_code(s),
    ensures
        hex_triplet(rgb_of(s) as nat) == s.map_values(|c: char| upper(c)),
{
    let a = s.subrange(0, 2);
    let b = s.subrange(2, 4);
    let c = s.subrange(4, 6);
    assert forall|k: int| 0 <= k < 2 implies is_hex_digit(#[trigger] a[k]) && is_hex_digit(b[k])
        && is_hex_digit(c[k]) by {
        assert(is_hex_digit(s[k]) && is_hex_digit(s[k + 2]) && is_hex_digit(s[k + 4]));
    }
    lemma_pair_round_trip(a);
    lemma_pair_round_trip(b);
    lemma_pair_round_trip(c);
    lemma_channels(hex_number(a), hex_number(b), hex_number(c));
    let rgb = rgb_of(s) as nat;
    let t = hex_string(rgb / 65536 % 256, 2) + hex_string(rgb / 256 % 256, 2) + hex_string(
        rgb % 256,
        2,
    );
    let u = s.map_values(|c: char| upper(c));
    assert(t.len() == 6 && u.len() == 6);
    assert forall|i: int| 0 <= i < 6 implies t[i] == u[i] by {
        if i < 2 {
            assert(t[i] == hex_string(hex_number(a) as nat, 2)[i] && a[i] == s[i]);
        } else if i < 4 {
            assert(t[i] == hex_string(hex_number(b) as nat, 2)[i - 2] && b[i - 2] == s[i]);
        } else {
            assert(t[i] == hex_string(hex_number(c) as nat, 2)[i - 4] && c[i - 4] == s[i]);
        }
    }
    assert(t =~= u);
}

/// Each channel of a packed colour is found again by division.
pub proof fn lemma_channels(r: int, g: int, b: int)
    requires
        0 <= r < 256,
        0 <= g < 256,
        0 <= b < 256,
    ensures
        0 <= pack(r, g, b) <= MAX_RGB,
        pack(r, g, b) / 65536 % 256 == r,
        pack(r, g, b) / 256 % 256 == g,
        pack(r, g, b) % 256 == b,
{
}

/// Encoding a colour and decoding the code gives the colour back.
pub proof fn colour_round_trip(rgb: nat)
    requires
        rgb <= MAX_RGB,
    ensures
        is_hex_code(hex_triplet(rgb)),
        rgb_of(hex_triplet(rgb)) == rgb,
{
    let r = rgb / 65536 % 256;
    let g = rgb / 256 % 256;
    let b = rgb % 256;
    lemma_byte_round_trip(r);
    lemma_byte_round_trip(g);
    lemma_byte_round_trip(b);
    let t = hex_triplet(rgb);
    assert(t.len() == 6);
    assert(t.subrange(0, 2) =~= hex_string(r, 2));
    assert(t.subrange(2, 4) =~= hex_string(g, 2));
    assert(t.subrange(4, 6) =~= hex_string(b, 2));
    assert forall|i: int| 0 <= i < t.len() implies is_hex_digit(#[trigger] t[i]) by {
        if i < 2 {
            assert(t[i] == hex_string(r, 2)[i]);
        } else if i < 4 {
            assert(t[i] == hex_string(g, 2)[i - 2]);
        } else {
            assert(t[i] == hex_string(b, 2)[i - 4]);
        }
    }
    assert(rgb == r * 65536 + g * 256 + b);
}

/// `String::push` appends the one character to the end of the string.
pub assume_specification[ String::push ](s: &mut String, c: char)
    ensures
        final(s)@ == old(s)@.push(c),
;

} // verus!
