use vstd::prelude::*;
use crate::text::string_from_chars;
use vstd::string::StringSliceAdditionalSpecFns;

verus! {

/// The byte is an ASCII decimal digit.
pub open spec fn is_digit_byte(b: u8) -> bool {
    48 <= b <= 57
}

/// An ISBN-13 (as bytes) can be turned into an ISBN-10: it has at least 12 bytes and
/// bytes 3 to 11 (the nine digits shared by both forms) are decimal digits.
pub open spec fn isbn13_convertible(b: Seq<u8>) -> bool {
    &&& b.len() >= 12
    &&& forall|i: int| 3 <= i < 12 ==> is_digit_byte(#[trigger] b[i])
}

/// The weighted sum of the first `n` of the nine shared digits: the i-th digit
/// (from 0) weighs 10 - i.
pub open spec fn isbn_weighted_sum(b: Seq<u8>, n: int) -> int
    decreases n,
{
    if n <= 0 {
        0
    } else {
        isbn_weighted_sum(b, n - 1) + (11 - n) * (b[3 + n - 1] - 48)
    }
}

/// The check value: 11 minus the weighted sum of the nine digits modulo 11 (from 1 to 11).
pub open spec fn isbn_check_value(b: Seq<u8>) -> int {
    11 - isbn_weighted_sum(b, 9) % 11
}

/// The check characters: `X` for 10, else the decimal writing of the check value
/// (so `11` when the weighted sum is a multiple of 11).
pub open spec fn isbn_check_chars(b: Seq<u8>) -> Seq<char> {
    let c = isbn_check_value(b);
    if c == 10 {
        seq!['X']
    } else if c == 11 {
        seq!['1', '1']
    } else {
        seq![(48 + c) as char]
    }
}

/// The ISBN-10 of a convertible ISBN-13: its nine shared digits, then the check characters.
pub open spec fn isbn10_of(b: Seq<u8>) -> Seq<char> {
    b.subrange(3, 12).map_values(|x: u8| x as char) + isbn_check_chars(b)
}

/// Turns an ISBN-13 into the matching ISBN-10: `Err(())` unless bytes 3 to 11 of
/// `isbn13` are decimal digits.
pub fn isbn13to10(isbn13: &str) -> (res: Result<String, ()>)
    ensures
        res is Ok <==> isbn13_convertible(isbn13.spec_bytes()),
        res matches Ok(s) ==> s@ == isbn10_of(isbn13.spec_bytes()),
{
    let bytes = isbn13.as_bytes();
    if bytes.len() < 12 {
        return Err(());
    }
    let mut chars: Vec<char> = Vec::new();
    let mut checksum: u32 = 0;
    let mut i: usize = 0;
    while i < 9
        invariant
            i <= 9,
            bytes@ == isbn13.spec_bytes(),
            bytes@.len() >= 12,
            forall|j: int| 3 <= j < 3 + i ==> is_digit_byte(#[trigger] bytes@[j]),
            checksum == isbn_weighted_sum(bytes@, i as int),
            checksum <= 90 * i,
            chars@ == bytes@.subrange(3, 3 + i as int).map_values(|x: u8| x as char),
        decreases 9 - i,
    {
        let b = bytes[3 + i];
        if b < 48 || b > 57 {
            return Err(());
        }
        let d: u32 = (b - 48) as u32;
        let w: u32 = 10 - i as u32;
        assert(w * d <= 90) by (nonlinear_arith)
            requires
                w <= 10,
                d <= 9,
        ;
        checksum = checksum + w * d;
        chars.push(b as char);
        assert(bytes@.subrange(3, 3 + i as int + 1).map_values(|x: u8| x as char)
            == bytes@.subrange(3, 3 + i as int).map_values(|x: u8| x as char).push(b as char));
        i = i + 1;
    }
    let check = 11 - checksum % 11;
    if check == 10 {
        chars.push('X');
    } else if check == 11 {
        chars.push('1');
        chars.push('1');
    } else {
        chars.push(((48 + check) as u8) as char);
    }
    assert(chars@ == isbn10_of(bytes@));
    Ok(string_from_chars(&chars))
}

/// The check value completes the weighted sum of the nine digits to a multiple of
/// 11, and lies between 1 and 11.
pub proof fn lemma_isbn_check_value(b: Seq<u8>)
    ensures
        (isbn_weighted_sum(b, 9) + isbn_check_value(b)) % 11 == 0,
        1 <= isbn_check_value(b) <= 11,
{
    let w = isbn_weighted_sum(b, 9);
    assert((w - w % 11) % 11 == 0) by (nonlinear_arith);
    assert(0 <= w % 11 < 11) by (nonlinear_arith);
    assert((w + 11 - w % 11) % 11 == 0) by (nonlinear_arith)
        requires (w - w % 11) % 11 == 0;
}

} // verus!
