use vstd::prelude::*;

verus! {

/// Marker of a byte that is no symbol of any alphabet.
pub const INVALID: i8 = -1;

/// Marker of a byte reserved for check digits, which are not supported.
pub const CHECK_DIGIT: i8 = -2;

/// The canonical symbol of digit `d`: `0-9`, then the letters without `I`, `L`, `O`, `U`.
pub open spec fn symbol(d: int) -> u8 {
    if d < 10 {
        (48 + d) as u8
    } else if d < 18 {
        (55 + d) as u8
    } else if d < 20 {
        (56 + d) as u8
    } else if d < 22 {
        (57 + d) as u8
    } else if d < 27 {
        (58 + d) as u8
    } else {
        (59 + d) as u8
    }
}

/// The canonical reading of byte `b`: its digit, with `O` read as 0 and `I`, `L`
/// read as 1 in either case, or one of the two markers.
pub open spec fn canonical_value(b: u8) -> i8 {
    if 48 <= b <= 57 {
        (b - 48) as i8
    } else if b == 79 || b == 111 {
        0
    } else if b == 73 || b == 105 || b == 76 || b == 108 {
        1
    } else if 65 <= b <= 72 {
        (b - 55) as i8
    } else if 97 <= b <= 104 {
        (b - 87) as i8
    } else if b == 74 || b == 75 {
        (b - 56) as i8
    } else if b == 106 || b == 107 {
        (b - 88) as i8
    } else if b == 77 || b == 78 {
        (b - 57) as i8
    } else if b == 109 || b == 110 {
        (b - 89) as i8
    } else if 80 <= b <= 84 {
        (b - 58) as i8
    } else if 112 <= b <= 116 {
        (b - 90) as i8
    } else if 86 <= b <= 90 {
        (b - 59) as i8
    } else if 118 <= b <= 122 {
        (b - 91) as i8
    } else if b == 85 || b == 117 || b == 42 || b == 126 || b == 36 || b == 61 {
        CHECK_DIGIT
    } else {
        INVALID
    }
}

/// The lower case of an ASCII letter; any other byte is kept.
pub open spec fn lower(b: u8) -> u8 {
    if 65 <= b <= 90 {
        (b + 32) as u8
    } else {
        b
    }
}

/// `u` is one of the 32 canonical (upper-case) symbols.
pub open spec fn is_symbol(u: u8) -> bool {
    0 <= canonical_value(u) && symbol(canonical_value(u) as int) == u
}

/// Symbols are told apart by their digit, and each digit reads back as itself.
pub proof fn lemma_symbol(d: int)
    requires
        0 <= d < 32,
    ensures
        canonical_value(symbol(d)) == d,
        is_symbol(symbol(d)),
        forall|e: int| 0 <= e < 32 && e != d ==> symbol(e) != symbol(d),
{
}

/// Looks up the canonical reading of a byte.
pub fn canonical_digit(b: u8) -> (r: i8)
    ensures
        r == canonical_value(b),
{
    if 48 <= b && b <= 57 {
        (b - 48) as i8
    } else if b == 79 || b == 111 {
        0
    } else if b == 73 || b == 105 || b == 76 || b == 108 {
        1
    } else if 65 <= b && b <= 72 {
        (b - 55) as i8
    } else if 97 <= b && b <= 104 {
        (b - 87) as i8
    } else if b == 74 || b == 75 {
        (b - 56) as i8
    } else if b == 106 || b == 107 {
        (b - 88) as i8
    } else if b == 77 || b == 78 {
        (b - 57) as i8
    } else if b == 109 || b == 110 {
        (b - 89) as i8
    } else if 80 <= b && b <= 84 {
        (b - 58) as i8
    } else if 112 <= b && b <= 116 {
        (b - 90) as i8
    } else if 86 <= b && b <= 90 {
        (b - 59) as i8
    } else if 118 <= b && b <= 122 {
        (b - 91) as i8
    } else if b == 85 || b == 117 || b == 42 || b == 126 || b == 36 || b == 61 {
        CHECK_DIGIT
    } else {
        INVALID
    }
}

/// The canonical symbol of a digit.
pub fn canonical_symbol(d: u8) -> (r: u8)
    requires
        d < 32,
    ensures
        r == symbol(d as int),
{
    if d < 10 {
        48 + d
    } else if d < 18 {
        55 + d
    } else if d < 20 {
        56 + d
    } else if d < 22 {
        57 + d
    } else if d < 27 {
        58 + d
    } else {
        59 + d
    }
}

/// The 32 canonical symbols in digit order.
pub fn canonical_order() -> (r: [u8; 32])
    ensures
        forall|i: int| 0 <= i < 32 ==> r@[i] == symbol(i),
{
    let mut r: [u8; 32] = [0u8; 32];
    let mut i: usize = 0;
    while i < 32
        invariant
            i <= 32,
            forall|k: int| 0 <= k < i ==> r@[k] == symbol(k),
        decreases 32 - i,
    {
        r[i] = canonical_symbol(i as u8);
        i = i + 1;
    }
    r
}

} // verus!
