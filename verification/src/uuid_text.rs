//! Canonical hyphenated text form of a 128-bit UUID.
//!
//! A UUID is carried through the library as a plain `u128` (the big-endian
//! interpretation of its 16 bytes).  This module defines the canonical
//! lowercase hyphenated rendering (8-4-4-4-12 hex digits) as a spec-level
//! sequence of characters, and verified executable functions that format a
//! value into that form and parse it back.

use vstd::prelude::*;

verus! {

/// The lowercase hex digit character for a nibble value in `0..16`.
pub open spec fn hex_digit(v: int) -> char {
    if v == 0 {
        '0'
    } else if v == 1 {
        '1'
    } else if v == 2 {
        '2'
    } else if v == 3 {
        '3'
    } else if v == 4 {
        '4'
    } else if v == 5 {
        '5'
    } else if v == 6 {
        '6'
    } else if v == 7 {
        '7'
    } else if v == 8 {
        '8'
    } else if v == 9 {
        '9'
    } else if v == 10 {
        'a'
    } else if v == 11 {
        'b'
    } else if v == 12 {
        'c'
    } else if v == 13 {
        'd'
    } else if v == 14 {
        'e'
    } else {
        'f'
    }
}

/// The `d`-th nibble of `n`, counting from the most significant (`d` in `0..32`).
pub open spec fn nibble(n: u128, d: int) -> int
    recommends
        0 <= d < 32,
{
    ((n >> ((124 - 4 * d) as u128)) & 0xf) as int
}

/// Positions of the four hyphens in the canonical 36-character form.
pub open spec fn is_hyphen_pos(i: int) -> bool {
    i == 8 || i == 13 || i == 18 || i == 23
}

/// Which nibble of the value the character at position `i` renders
/// (valid for non-hyphen positions of the 36-character form).
pub open spec fn digit_index(i: int) -> int {
    if i < 8 {
        i
    } else if i < 13 {
        i - 1
    } else if i < 18 {
        i - 2
    } else if i < 23 {
        i - 3
    } else {
        i - 4
    }
}

/// The character at position `i` of the canonical form of `n`.
pub open spec fn uuid_char_at(n: u128, i: int) -> char {
    if is_hyphen_pos(i) {
        '-'
    } else {
        hex_digit(nibble(n, digit_index(i)))
    }
}

/// The canonical lowercase hyphenated text of `n`: 36 characters,
/// 32 hex digits with hyphens after the 8th, 12th, 16th and 20th digit.
pub open spec fn uuid_chars(n: u128) -> Seq<char> {
    Seq::new(36, |i: int| uuid_char_at(n, i))
}

/// Every nibble is a value below 16.
pub proof fn lemma_nibble_bound(n: u128, d: int)
    ensures
        0 <= nibble(n, d) < 16,
{
    let sh = (124 - 4 * d) as u128;
    assert((n >> sh) & 0xf < 16) by (bit_vector);
}

/// Distinct nibble values render as distinct hex digit characters.
pub proof fn lemma_hex_digit_injective(a: int, b: int)
    requires
        0 <= a < 16,
        0 <= b < 16,
        hex_digit(a) == hex_digit(b),
    ensures
        a == b,
{
}

/// A value is determined by its 32 nibbles.
pub proof fn lemma_nibbles_determine(m: u128, n: u128)
    requires
        forall|d: int| 0 <= d < 32 ==> nibble(m, d) == nibble(n, d),
    ensures
        m == n,
{
    assert(nibble(m, 0) == nibble(n, 0));
    assert(nibble(m, 1) == nibble(n, 1));
    assert(nibble(m, 2) == nibble(n, 2));
    assert(nibble(m, 3) == nibble(n, 3));
    assert(nibble(m, 4) == nibble(n, 4));
    assert(nibble(m, 5) == nibble(n, 5));
    assert(nibble(m, 6) == nibble(n, 6));
    assert(nibble(m, 7) == nibble(n, 7));
    assert(nibble(m, 8) == nibble(n, 8));
    assert(nibble(m, 9) == nibble(n, 9));
    assert(nibble(m, 10) == nibble(n, 10));
    assert(nibble(m, 11) == nibble(n, 11));
    assert(nibble(m, 12) == nibble(n, 12));
    assert(nibble(m, 13) == nibble(n, 13));
    assert(nibble(m, 14) == nibble(n, 14));
    assert(nibble(m, 15) == nibble(n, 15));
    assert(nibble(m, 16) == nibble(n, 16));
    assert(nibble(m, 17) == nibble(n, 17));
    assert(nibble(m, 18) == nibble(n, 18));
    assert(nibble(m, 19) == nibble(n, 19));
    assert(nibble(m, 20) == nibble(n, 20));
    assert(nibble(m, 21) == nibble(n, 21));
    assert(nibble(m, 22) == nibble(n, 22));
    assert(nibble(m, 23) == nibble(n, 23));
    assert(nibble(m, 24) == nibble(n, 24));
    assert(nibble(m, 25) == nibble(n, 25));
    assert(nibble(m, 26) == nibble(n, 26));
    assert(nibble(m, 27) == nibble(n, 27));
    assert(nibble(m, 28) == nibble(n, 28));
    assert(nibble(m, 29) == nibble(n, 29));
    assert(nibble(m, 30) == nibble(n, 30));
    assert(nibble(m, 31) == nibble(n, 31));
    assert(m == n) by (bit_vector)
        requires
            (m >> 124u128) & 0xf == (n >> 124u128) & 0xf,
            (m >> 120u128) & 0xf == (n >> 120u128) & 0xf,
            (m >> 116u128) & 0xf == (n >> 116u128) & 0xf,
            (m >> 112u128) & 0xf == (n >> 112u128) & 0xf,
            (m >> 108u128) & 0xf == (n >> 108u128) & 0xf,
            (m >> 104u128) & 0xf == (n >> 104u128) & 0xf,
            (m >> 100u128) & 0xf == (n >> 100u128) & 0xf,
            (m >> 96u128) & 0xf == (n >> 96u128) & 0xf,
            (m >> 92u128) & 0xf == (n >> 92u128) & 0xf,
            (m >> 88u128) & 0xf == (n >> 88u128) & 0xf,
            (m >> 84u128) & 0xf == (n >> 84u128) & 0xf,
            (m >> 80u128) & 0xf == (n >> 80u128) & 0xf,
            (m >> 76u128) & 0xf == (n >> 76u128) & 0xf,
            (m >> 72u128) & 0xf == (n >> 72u128) & 0xf,
            (m >> 68u128) & 0xf == (n >> 68u128) & 0xf,
            (m >> 64u128) & 0xf == (n >> 64u128) & 0xf,
            (m >> 60u128) & 0xf == (n >> 60u128) & 0xf,
            (m >> 56u128) & 0xf == (n >> 56u128) & 0xf,
            (m >> 52u128) & 0xf == (n >> 52u128) & 0xf,
            (m >> 48u128) & 0xf == (n >> 48u128) & 0xf,
            (m >> 44u128) & 0xf == (n >> 44u128) & 0xf,
            (m >> 40u128) & 0xf == (n >> 40u128) & 0xf,
            (m >> 36u128) & 0xf == (n >> 36u128) & 0xf,
            (m >> 32u128) & 0xf == (n >> 32u128) & 0xf,
            (m >> 28u128) & 0xf == (n >> 28u128) & 0xf,
            (m >> 24u128) & 0xf == (n >> 24u128) & 0xf,
            (m >> 20u128) & 0xf == (n >> 20u128) & 0xf,
            (m >> 16u128) & 0xf == (n >> 16u128) & 0xf,
            (m >> 12u128) & 0xf == (n >> 12u128) & 0xf,
            (m >> 8u128) & 0xf == (n >> 8u128) & 0xf,
            (m >> 4u128) & 0xf == (n >> 4u128) & 0xf,
            (m >> 0u128) & 0xf == (n >> 0u128) & 0xf,
    ;
}

/// The canonical text determines the value: no two values share it.
pub proof fn lemma_uuid_chars_injective(m: u128, n: u128)
    requires
        uuid_chars(m) == uuid_chars(n),
    ensures
        m == n,
{
    assert forall|d: int| 0 <= d < 32 implies nibble(m, d) == nibble(n, d) by {
        let i = if d < 8 {
            d
        } else if d < 12 {
            d + 1
        } else if d < 16 {
            d + 2
        } else if d < 20 {
            d + 3
        } else {
            d + 4
        };
        assert(uuid_chars(m)[i] == uuid_chars(n)[i]);
        assert(uuid_chars(m)[i] == uuid_char_at(m, i));
        assert(uuid_chars(n)[i] == uuid_char_at(n, i));
        assert(!is_hyphen_pos(i));
        assert(digit_index(i) == d);
        assert(hex_digit(nibble(m, d)) == hex_digit(nibble(n, d)));
        lemma_nibble_bound(m, d);
        lemma_nibble_bound(n, d);
        lemma_hex_digit_injective(nibble(m, d), nibble(n, d));
    }
    lemma_nibbles_determine(m, n);
}

/// Setting an aligned nibble of `a` that was zero makes it `v`.
proof fn lemma_or_nibble_same(a: u128, v: u128, sh: u128)
    requires
        v < 16,
        sh <= 124,
        (a >> sh) & 0xf == 0,
    ensures
        ((a | (v << sh)) >> sh) & 0xf == v,
{
    assert(((a | (v << sh)) >> sh) & 0xf == v) by (bit_vector)
        requires
            v < 16,
            sh <= 124,
            (a >> sh) & 0xf == 0,
    ;
}

/// Setting one aligned nibble leaves every other aligned nibble unchanged.
proof fn lemma_or_nibble_other(a: u128, v: u128, sh: u128, sh2: u128)
    requires
        v < 16,
        sh <= 124,
        sh2 <= 124,
        sh % 4 == 0,
        sh2 % 4 == 0,
        sh != sh2,
    ensures
        ((a | (v << sh)) >> sh2) & 0xf == (a >> sh2) & 0xf,
{
    assert(((a | (v << sh)) >> sh2) & 0xf == (a >> sh2) & 0xf) by (bit_vector)
        requires
            v < 16,
            sh <= 124,
            sh2 <= 124,
            sh % 4 == 0,
            sh2 % 4 == 0,
            sh != sh2,
    ;
}

/// Every aligned nibble of zero is zero.
proof fn lemma_zero_nibbles(sh: u128)
    requires
        sh <= 124,
    ensures
        (0u128 >> sh) & 0xf == 0,
{
    assert((0u128 >> sh) & 0xf == 0) by (bit_vector);
}

/// The lowercase hex digit character for a nibble value.
fn hex_char(v: u128) -> (c: char)
    requires
        v < 16,
    ensures
        c == hex_digit(v as int),
{
    if v == 0 {
        '0'
    } else if v == 1 {
        '1'
    } else if v == 2 {
        '2'
    } else if v == 3 {
        '3'
    } else if v == 4 {
        '4'
    } else if v == 5 {
        '5'
    } else if v == 6 {
        '6'
    } else if v == 7 {
        '7'
    } else if v == 8 {
        '8'
    } else if v == 9 {
        '9'
    } else if v == 10 {
        'a'
    } else if v == 11 {
        'b'
    } else if v == 12 {
        'c'
    } else if v == 13 {
        'd'
    } else if v == 14 {
        'e'
    } else {
        'f'
    }
}

/// The nibble value of a lowercase hex digit character, or `None`.
fn hex_val(c: char) -> (r: Option<u128>)
    ensures
        match r {
            Some(v) => v < 16 && hex_digit(v as int) == c,
            None => forall|v: int| 0 <= v < 16 ==> hex_digit(v) != c,
        },
{
    if c == '0' {
        Some(0)
    } else if c == '1' {
        Some(1)
    } else if c == '2' {
        Some(2)
    } else if c == '3' {
        Some(3)
    } else if c == '4' {
        Some(4)
    } else if c == '5' {
        Some(5)
    } else if c == '6' {
        Some(6)
    } else if c == '7' {
        Some(7)
    } else if c == '8' {
        Some(8)
    } else if c == '9' {
        Some(9)
    } else if c == 'a' {
        Some(10)
    } else if c == 'b' {
        Some(11)
    } else if c == 'c' {
        Some(12)
    } else if c == 'd' {
        Some(13)
    } else if c == 'e' {
        Some(14)
    } else if c == 'f' {
        Some(15)
    } else {
        None
    }
}

/// Renders `n` in the canonical lowercase hyphenated form.
pub fn format_uuid(n: u128) -> (s: String)
    ensures
        s@ == uuid_chars(n),
{
    let mut s = String::new();
    let mut i: usize = 0;
    while i < 36
        invariant
            i <= 36,
            s@.len() == i,
            forall|j: int| 0 <= j < i ==> s@[j] == uuid_char_at(n, j),
        decreases 36 - i,
    {
        let c: char = if i == 8 || i == 13 || i == 18 || i == 23 {
            '-'
        } else {
            let d: usize = if i < 8 {
                i
            } else if i < 13 {
                i - 1
            } else if i < 18 {
                i - 2
            } else if i < 23 {
                i - 3
            } else {
                i - 4
            };
            let sh: u128 = 124 - 4 * (d as u128);
            let nib: u128 = (n >> sh) & 0xf;
            proof {
                lemma_nibble_bound(n, d as int);
                assert(nib as int == nibble(n, d as int));
                assert(d as int == digit_index(i as int));
            }
            hex_char(nib)
        };
        crate::wrappers::push_char(&mut s, c);
        i = i + 1;
    }
    proof {
        assert(s@ =~= uuid_chars(n));
    }
    s
}

/// How many of the 32 hex digits lie before position `i` of the canonical form.
pub open spec fn digit_count(i: int) -> int {
    if i <= 8 {
        i
    } else if i <= 13 {
        i - 1
    } else if i <= 18 {
        i - 2
    } else if i <= 23 {
        i - 3
    } else {
        i - 4
    }
}

/// Parses the canonical lowercase hyphenated form; `None` exactly when the
/// text is not the canonical form of any value.
pub fn parse_uuid(s: &str) -> (r: Option<u128>)
    ensures
        match r {
            Some(n) => s@ == uuid_chars(n),
            None => forall|n: u128| s@ != uuid_chars(n),
        },
{
    let len = s.unicode_len();
    if len != 36 {
        proof {
            assert forall|n: u128| s@ != uuid_chars(n) by {
                assert(uuid_chars(n).len() == 36);
            }
        }
        return None;
    }
    let mut acc: u128 = 0;
    let mut i: usize = 0;
    proof {
        assert forall|dd: int| 0 <= dd < 32 implies nibble(acc, dd) == 0 by {
            lemma_zero_nibbles((124 - 4 * dd) as u128);
        }
    }
    while i < 36
        invariant
            i <= 36,
            s@.len() == 36,
            forall|j: int| 0 <= j < i ==> s@[j] == uuid_char_at(acc, j),
            forall|dd: int| digit_count(i as int) <= dd < 32 ==> nibble(acc, dd) == 0,
        decreases 36 - i,
    {
        let c = s.get_char(i);
        if i == 8 || i == 13 || i == 18 || i == 23 {
            if c != '-' {
                proof {
                    assert forall|n: u128| s@ != uuid_chars(n) by {
                        assert(uuid_chars(n)[i as int] == '-');
                        assert(s@[i as int] != '-');
                    }
                }
                return None;
            }
        } else {
            let d: usize = if i < 8 {
                i
            } else if i < 13 {
                i - 1
            } else if i < 18 {
                i - 2
            } else if i < 23 {
                i - 3
            } else {
                i - 4
            };
            proof {
                assert(d as int == digit_index(i as int));
                assert(d as int == digit_count(i as int));
            }
            match hex_val(c) {
                None => {
                    proof {
                        assert forall|n: u128| s@ != uuid_chars(n) by {
                            lemma_nibble_bound(n, d as int);
                            assert(uuid_chars(n)[i as int] == hex_digit(nibble(n, d as int)));
                            assert(s@[i as int] != hex_digit(nibble(n, d as int)));
                        }
                    }
                    return None;
                },
                Some(v) => {
                    let sh: u128 = 124 - 4 * (d as u128);
                    let ghost acc0 = acc;
                    acc = acc | (v << sh);
                    proof {
                        assert(nibble(acc0, d as int) == 0);
                        lemma_or_nibble_same(acc0, v, sh);
                        assert(nibble(acc, d as int) == v);
                        assert forall|dd: int|
                            0 <= dd < 32 && dd != d as int implies nibble(acc, dd) == nibble(
                            acc0,
                            dd,
                        ) by {
                            lemma_or_nibble_other(acc0, v, sh, (124 - 4 * dd) as u128);
                        }
                        assert(uuid_char_at(acc, i as int) == hex_digit(v as int));
                        assert forall|j: int| 0 <= j < i implies s@[j] == uuid_char_at(acc, j) by {
                            assert(s@[j] == uuid_char_at(acc0, j));
                            if !is_hyphen_pos(j) {
                                assert(0 <= digit_index(j) < digit_count(i as int));
                                assert(nibble(acc, digit_index(j)) == nibble(acc0, digit_index(j)));
                            }
                        }
                    }
                },
            }
        }
        i = i + 1;
    }
    proof {
        assert(s@ =~= uuid_chars(acc));
    }
    Some(acc)
}

} // verus!
