//! Verified helpers for building and comparing strings.
//!
//! Canonical tag strings are ordered lexicographically by Unicode scalar
//! value; the order here is the one total order the library defines on
//! tags. The appenders build decimal and hexadecimal renderings of
//! integers character by character, against exact sequence specifications.

use vstd::prelude::*;

verus! {

/// Strict lexicographic order on character sequences, comparing Unicode
/// scalar values position by position; a proper prefix is smaller.
pub open spec fn seq_lt(a: Seq<char>, b: Seq<char>) -> bool
    decreases a.len(),
{
    if b.len() == 0 {
        false
    } else if a.len() == 0 {
        true
    } else if a[0] as u32 != b[0] as u32 {
        (a[0] as u32) < (b[0] as u32)
    } else {
        seq_lt(a.drop_first(), b.drop_first())
    }
}

/// Non-strict lexicographic order.
pub open spec fn seq_le(a: Seq<char>, b: Seq<char>) -> bool {
    seq_lt(a, b) || a == b
}

pub proof fn lemma_seq_lt_irreflexive(a: Seq<char>)
    ensures
        !seq_lt(a, a),
    decreases a.len(),
{
    if a.len() > 0 {
        lemma_seq_lt_irreflexive(a.drop_first());
    }
}

/// Exactly one of `a < b`, `a == b`, `b < a` holds.
pub proof fn lemma_seq_lt_total(a: Seq<char>, b: Seq<char>)
    ensures
        seq_lt(a, b) || seq_lt(b, a) || a == b,
    decreases a.len(),
{
    if a.len() == 0 && b.len() == 0 {
        assert(a =~= b);
    } else if a.len() > 0 && b.len() > 0 {
        if a[0] as u32 == b[0] as u32 {
            vstd::utf8::char_u32_cast(a[0], a[0] as u32);
            vstd::utf8::char_u32_cast(b[0], a[0] as u32);
            assert(a[0] == b[0]);
            lemma_seq_lt_total(a.drop_first(), b.drop_first());
            if !seq_lt(a, b) && !seq_lt(b, a) {
                assert(a.drop_first() == b.drop_first());
                assert(a.len() == b.len());
                assert forall|i: int| 0 <= i < a.len() implies a[i] == b[i] by {
                    if i >= 1 {
                        assert(a[i] == a.drop_first()[i - 1]);
                        assert(b[i] == b.drop_first()[i - 1]);
                    }
                }
                assert(a =~= b);
            }
        }
    }
}

pub proof fn lemma_seq_lt_asymmetric(a: Seq<char>, b: Seq<char>)
    requires
        seq_lt(a, b),
    ensures
        !seq_lt(b, a),
    decreases a.len(),
{
    if a.len() > 0 && b.len() > 0 && a[0] as u32 == b[0] as u32 {
        lemma_seq_lt_asymmetric(a.drop_first(), b.drop_first());
    }
}

pub proof fn lemma_seq_lt_transitive(a: Seq<char>, b: Seq<char>, c: Seq<char>)
    requires
        seq_lt(a, b),
        seq_lt(b, c),
    ensures
        seq_lt(a, c),
    decreases a.len(),
{
    // b < c forces c to be non-empty; if a is empty, a < c at once.
    if a.len() > 0 {
        if a[0] as u32 == b[0] as u32 && b[0] as u32 == c[0] as u32 {
            lemma_seq_lt_transitive(a.drop_first(), b.drop_first(), c.drop_first());
        }
    }
}

/// Compare two strings in the lexicographic order of their characters.
pub fn string_lt(a: &String, b: &String) -> (r: bool)
    ensures
        r == seq_lt(a@, b@),
{
    let alen = a.as_str().unicode_len();
    let blen = b.as_str().unicode_len();
    let mut i: usize = 0;
    assert(a@.skip(0) =~= a@);
    assert(b@.skip(0) =~= b@);
    while i < alen && i < blen
        invariant
            alen == a@.len(),
            blen == b@.len(),
            i <= alen,
            i <= blen,
            seq_lt(a@, b@) == seq_lt(a@.skip(i as int), b@.skip(i as int)),
        decreases alen - i,
    {
        let ca = a.as_str().get_char(i);
        let cb = b.as_str().get_char(i);
        let ua = ca as u32;
        let ub = cb as u32;
        if ua != ub {
            assert(a@.skip(i as int)[0] == ca);
            assert(b@.skip(i as int)[0] == cb);
            return ua < ub;
        }
        proof {
            assert(a@.skip(i as int).drop_first() =~= a@.skip(i + 1));
            assert(b@.skip(i as int).drop_first() =~= b@.skip(i + 1));
            assert(a@.skip(i as int)[0] == ca);
            assert(b@.skip(i as int)[0] == cb);
        }
        i = i + 1;
    }
    proof {
        assert(a@.skip(i as int).len() == alen - i);
        assert(b@.skip(i as int).len() == blen - i);
    }
    i >= alen && i < blen
}

/// The character for one digit value, `0..f`.
pub open spec fn hex_digit_char(d: int) -> char {
    if d == 0 {
        '0'
    } else if d == 1 {
        '1'
    } else if d == 2 {
        '2'
    } else if d == 3 {
        '3'
    } else if d == 4 {
        '4'
    } else if d == 5 {
        '5'
    } else if d == 6 {
        '6'
    } else if d == 7 {
        '7'
    } else if d == 8 {
        '8'
    } else if d == 9 {
        '9'
    } else if d == 10 {
        'a'
    } else if d == 11 {
        'b'
    } else if d == 12 {
        'c'
    } else if d == 13 {
        'd'
    } else if d == 14 {
        'e'
    } else {
        'f'
    }
}

/// The decimal rendering of a non-negative integer, without leading zeros.
pub open spec fn dec_chars(n: int) -> Seq<char>
    decreases n,
{
    if n < 10 {
        seq![hex_digit_char(n)]
    } else {
        dec_chars(n / 10) + seq![hex_digit_char(n % 10)]
    }
}

/// The lowest `width` hexadecimal digits of `n`, most significant first.
pub open spec fn hex_chars(n: int, width: nat) -> Seq<char>
    decreases width,
{
    if width == 0 {
        Seq::empty()
    } else {
        hex_chars(n / 16, (width - 1) as nat) + seq![hex_digit_char(n % 16)]
    }
}

/// Lexicographic order is antisymmetric: orderings in both directions
/// force equality.
pub proof fn lemma_seq_le_antisymmetric(a: Seq<char>, b: Seq<char>)
    requires
        seq_le(a, b),
        seq_le(b, a),
    ensures
        a == b,
{
    if a != b {
        lemma_seq_lt_asymmetric(a, b);
    }
}

/// Distinct digit values render as distinct characters.
pub proof fn lemma_hex_digit_injective(x: int, y: int)
    requires
        0 <= x < 16,
        0 <= y < 16,
        hex_digit_char(x) == hex_digit_char(y),
    ensures
        x == y,
{
}

/// A fixed-width hexadecimal rendering has exactly that width.
pub proof fn lemma_hex_chars_len(n: int, width: nat)
    ensures
        hex_chars(n, width).len() == width,
    decreases width,
{
    if width > 0 {
        lemma_hex_chars_len(n / 16, (width - 1) as nat);
    }
}

/// Equal fixed-width hexadecimal renderings come from numbers equal in
/// their lowest `width` digits.
pub proof fn lemma_hex_chars_injective(x: int, y: int, width: nat)
    requires
        x >= 0,
        y >= 0,
        hex_chars(x, width) == hex_chars(y, width),
    ensures
        x % pow16(width as int) == y % pow16(width as int),
    decreases width,
{
    if width == 0 {
        assert(pow16(0) == 1);
    } else {
        lemma_hex_chars_len(x / 16, (width - 1) as nat);
        lemma_hex_chars_len(y / 16, (width - 1) as nat);
        let hx = hex_chars(x / 16, (width - 1) as nat);
        let hy = hex_chars(y / 16, (width - 1) as nat);
        assert(hx.push(hex_digit_char(x % 16)) == hy.push(hex_digit_char(y % 16))) by {
            assert(hx + seq![hex_digit_char(x % 16)] =~= hx.push(hex_digit_char(x % 16)));
            assert(hy + seq![hex_digit_char(y % 16)] =~= hy.push(hex_digit_char(y % 16)));
        }
        assert(hx =~= hy) by {
            assert(hx.len() == hy.len());
            assert(forall|i: int|
                0 <= i < hx.len() ==> hx[i] == #[trigger] hx.push(hex_digit_char(x % 16))[i]);
            assert(forall|i: int|
                0 <= i < hy.len() ==> hy[i] == #[trigger] hy.push(hex_digit_char(y % 16))[i]);
        }
        assert(hex_digit_char(x % 16) == hex_digit_char(y % 16)) by {
            assert(hx.push(hex_digit_char(x % 16))[hx.len() as int] == hex_digit_char(
                x % 16,
            ));
            assert(hy.push(hex_digit_char(y % 16))[hy.len() as int] == hex_digit_char(
                y % 16,
            ));
        }
        assert(0 <= x % 16 < 16) by {
            vstd::arithmetic::div_mod::lemma_mod_bound(x, 16);
        }
        assert(0 <= y % 16 < 16) by {
            vstd::arithmetic::div_mod::lemma_mod_bound(y, 16);
        }
        lemma_hex_digit_injective(x % 16, y % 16);
        lemma_hex_chars_injective(x / 16, y / 16, (width - 1) as nat);
        // combine the digit and the higher digits
        assert(x % pow16(width as int) == y % pow16(width as int)) by {
            lemma_pow16_decompose(x, width as int);
            lemma_pow16_decompose(y, width as int);
        }
    }
}

/// Sixteen to the given power.
pub open spec fn pow16(w: int) -> int
    decreases w,
{
    if w <= 0 {
        1
    } else {
        16 * pow16(w - 1)
    }
}

/// A number's residue modulo `16^w` decomposes into its lowest digit and
/// the residue of its remaining digits.
pub proof fn lemma_pow16_decompose(x: int, w: int)
    requires
        x >= 0,
        w >= 1,
    ensures
        x % pow16(w) == 16 * ((x / 16) % pow16(w - 1)) + x % 16,
{
    let p = pow16(w - 1);
    lemma_pow16_pos(w - 1);
    vstd::arithmetic::div_mod::lemma_fundamental_div_mod(x, 16);
    vstd::arithmetic::div_mod::lemma_fundamental_div_mod(x / 16, p);
    vstd::arithmetic::div_mod::lemma_mod_bound(x, 16);
    vstd::arithmetic::div_mod::lemma_mod_bound(x / 16, p);
    // x == (16 p) ((x/16)/p) + 16 ((x/16) % p) + x % 16, with the tail in range
    assert(x == (16 * p) * ((x / 16) / p) + (16 * ((x / 16) % p) + x % 16))
        by (nonlinear_arith)
        requires
            x == 16 * (x / 16) + x % 16,
            x / 16 == p * ((x / 16) / p) + (x / 16) % p,
    ;
    assert(0 <= 16 * ((x / 16) % p) + x % 16 < 16 * p) by (nonlinear_arith)
        requires
            0 <= (x / 16) % p < p,
            0 <= x % 16 < 16,
    ;
    vstd::arithmetic::div_mod::lemma_fundamental_div_mod_converse(
        x,
        16 * p,
        (x / 16) / p,
        16 * ((x / 16) % p) + x % 16,
    );
}

/// Sixteen to any power is positive.
pub proof fn lemma_pow16_pos(w: int)
    ensures
        pow16(w) >= 1,
    decreases w,
{
    if w > 0 {
        lemma_pow16_pos(w - 1);
    }
}

/// Append one digit character.
pub fn append_hex_digit(s: &mut String, d: u8)
    requires
        d < 16,
    ensures
        final(s)@ == old(s)@ + seq![hex_digit_char(d as int)],
{
    match d {
        0 => {
            proof {
                reveal_strlit("0");
            }
            s.append("0");
            proof {
                assert(s@ =~= old(s)@ + seq![hex_digit_char(d as int)]);
            }
        },
        1 => {
            proof {
                reveal_strlit("1");
            }
            s.append("1");
            proof {
                assert(s@ =~= old(s)@ + seq![hex_digit_char(d as int)]);
            }
        },
        2 => {
            proof {
                reveal_strlit("2");
            }
            s.append("2");
            proof {
                assert(s@ =~= old(s)@ + seq![hex_digit_char(d as int)]);
            }
        },
        3 => {
            proof {
                reveal_strlit("3");
            }
            s.append("3");
            proof {
                assert(s@ =~= old(s)@ + seq![hex_digit_char(d as int)]);
            }
        },
        4 => {
            proof {
                reveal_strlit("4");
            }
            s.append("4");
            proof {
                assert(s@ =~= old(s)@ + seq![hex_digit_char(d as int)]);
            }
        },
        5 => {
            proof {
                reveal_strlit("5");
            }
            s.append("5");
            proof {
                assert(s@ =~= old(s)@ + seq![hex_digit_char(d as int)]);
            }
        },
        6 => {
            proof {
                reveal_strlit("6");
            }
            s.append("6");
            proof {
                assert(s@ =~= old(s)@ + seq![hex_digit_char(d as int)]);
            }
        },
        7 => {
            proof {
                reveal_strlit("7");
            }
            s.append("7");
            proof {
                assert(s@ =~= old(s)@ + seq![hex_digit_char(d as int)]);
            }
        },
        8 => {
            proof {
                reveal_strlit("8");
            }
            s.append("8");
            proof {
                assert(s@ =~= old(s)@ + seq![hex_digit_char(d as int)]);
            }
        },
        9 => {
            proof {
                reveal_strlit("9");
            }
            s.append("9");
            proof {
                assert(s@ =~= old(s)@ + seq![hex_digit_char(d as int)]);
            }
        },
        10 => {
            proof {
                reveal_strlit("a");
            }
            s.append("a");
            proof {
                assert(s@ =~= old(s)@ + seq![hex_digit_char(d as int)]);
            }
        },
        11 => {
            proof {
                reveal_strlit("b");
            }
            s.append("b");
            proof {
                assert(s@ =~= old(s)@ + seq![hex_digit_char(d as int)]);
            }
        },
        12 => {
            proof {
                reveal_strlit("c");
            }
            s.append("c");
            proof {
                assert(s@ =~= old(s)@ + seq![hex_digit_char(d as int)]);
            }
        },
        13 => {
            proof {
                reveal_strlit("d");
            }
            s.append("d");
            proof {
                assert(s@ =~= old(s)@ + seq![hex_digit_char(d as int)]);
            }
        },
        14 => {
            proof {
                reveal_strlit("e");
            }
            s.append("e");
            proof {
                assert(s@ =~= old(s)@ + seq![hex_digit_char(d as int)]);
            }
        },
        _ => {
            proof {
                reveal_strlit("f");
            }
            s.append("f");
            proof {
                assert(s@ =~= old(s)@ + seq![hex_digit_char(d as int)]);
            }
        },
    }
}

/// Append the decimal rendering of `n`.
pub fn append_u64_dec(s: &mut String, n: u64)
    ensures
        final(s)@ == old(s)@ + dec_chars(n as int),
    decreases n,
{
    if n < 10 {
        append_hex_digit(s, n as u8);
    } else {
        append_u64_dec(s, n / 10);
        append_hex_digit(s, (n % 10) as u8);
        proof {
            assert(s@ =~= old(s)@ + dec_chars(n as int));
        }
    }
}

/// Append exactly two decimal digits, zero-padded.
pub fn append_two_dec(s: &mut String, n: u8)
    requires
        n < 100,
    ensures
        final(s)@ == old(s)@ + seq![
            hex_digit_char(n as int / 10),
            hex_digit_char(n as int % 10),
        ],
{
    append_hex_digit(s, n / 10);
    append_hex_digit(s, n % 10);
    proof {
        assert(s@ =~= old(s)@ + seq![
            hex_digit_char(n as int / 10),
            hex_digit_char(n as int % 10),
        ]);
    }
}

/// Append the lowest `width` hexadecimal digits of `n`.
pub fn append_hex_u128(s: &mut String, n: u128, width: usize)
    ensures
        final(s)@ == old(s)@ + hex_chars(n as int, width as nat),
    decreases width,
{
    if width > 0 {
        append_hex_u128(s, n / 16, width - 1);
        append_hex_digit(s, (n % 16) as u8);
        proof {
            assert(s@ =~= old(s)@ + hex_chars(n as int, width as nat));
        }
    } else {
        proof {
            assert(s@ =~= old(s)@ + hex_chars(n as int, width as nat));
        }
    }
}

} // verus!
