use vstd::prelude::*;

verus! {

/// The value of a byte string read as a big-endian base-256 number.
pub open spec fn be_val(b: Seq<u8>) -> nat
    decreases b.len(),
{
    if b.len() == 0 {
        0
    } else {
        be_val(b.drop_last()) * 256 + b.last() as nat
    }
}

/// The base-58 digits of `n`, most significant first; empty for zero.
pub open spec fn b58_digits(n: nat) -> Seq<nat>
    decreases n,
{
    if n == 0 {
        Seq::empty()
    } else {
        b58_digits(n / 58).push(n % 58)
    }
}

/// The character standing for the base-58 digit `d`: the alphabet runs
/// `1`-`9`, then upper case without `I` and `O`, then lower case without `l`.
pub open spec fn b58_char(d: nat) -> char {
    if d == 0 {
        '1'
    } else if d == 1 {
        '2'
    } else if d == 2 {
        '3'
    } else if d == 3 {
        '4'
    } else if d == 4 {
        '5'
    } else if d == 5 {
        '6'
    } else if d == 6 {
        '7'
    } else if d == 7 {
        '8'
    } else if d == 8 {
        '9'
    } else if d == 9 {
        'A'
    } else if d == 10 {
        'B'
    } else if d == 11 {
        'C'
    } else if d == 12 {
        'D'
    } else if d == 13 {
        'E'
    } else if d == 14 {
        'F'
    } else if d == 15 {
        'G'
    } else if d == 16 {
        'H'
    } else if d == 17 {
        'J'
    } else if d == 18 {
        'K'
    } else if d == 19 {
        'L'
    } else if d == 20 {
        'M'
    } else if d == 21 {
        'N'
    } else if d == 22 {
        'P'
    } else if d == 23 {
        'Q'
    } else if d == 24 {
        'R'
    } else if d == 25 {
        'S'
    } else if d == 26 {
        'T'
    } else if d == 27 {
        'U'
    } else if d == 28 {
        'V'
    } else if d == 29 {
        'W'
    } else if d == 30 {
        'X'
    } else if d == 31 {
        'Y'
    } else if d == 32 {
        'Z'
    } else if d == 33 {
        'a'
    } else if d == 34 {
        'b'
    } else if d == 35 {
        'c'
    } else if d == 36 {
        'd'
    } else if d == 37 {
        'e'
    } else if d == 38 {
        'f'
    } else if d == 39 {
        'g'
    } else if d == 40 {
        'h'
    } else if d == 41 {
        'i'
    } else if d == 42 {
        'j'
    } else if d == 43 {
        'k'
    } else if d == 44 {
        'm'
    } else if d == 45 {
        'n'
    } else if d == 46 {
        'o'
    } else if d == 47 {
        'p'
    } else if d == 48 {
        'q'
    } else if d == 49 {
        'r'
    } else if d == 50 {
        's'
    } else if d == 51 {
        't'
    } else if d == 52 {
        'u'
    } else if d == 53 {
        'v'
    } else if d == 54 {
        'w'
    } else if d == 55 {
        'x'
    } else if d == 56 {
        'y'
    } else {
        'z'
    }
}

/// How many zero bytes the byte string starts with; each one becomes a
/// leading `1` in the base-58 text.
pub open spec fn leading_zeros(b: Seq<u8>) -> nat
    decreases b.len(),
{
    if b.len() == 0 || b.first() != 0 {
        0
    } else {
        1 + leading_zeros(b.drop_first())
    }
}

/// The base-58 text of a byte string: one `1` per leading zero byte, then
/// the base-58 digits of the big-endian value, most significant first.
pub open spec fn base58_of(b: Seq<u8>) -> Seq<char> {
    Seq::new(leading_zeros(b), |i: int| '1') + b58_digits(be_val(b)).map_values(
        |d: nat| b58_char(d),
    )
}

/// The value of a little-endian string of base-58 digits, as the encoder
/// accumulates it: the first digit is the least significant.
spec fn le_val(d: Seq<u8>) -> nat
    decreases d.len(),
{
    if d.len() == 0 {
        0
    } else {
        d.first() as nat + 58 * le_val(d.drop_first())
    }
}

/// 58 raised to the power `e`: the weight of the digit at position `e` of a
/// little-endian base-58 digit string.
spec fn p58(e: nat) -> nat
    decreases e,
{
    if e == 0 {
        1nat
    } else {
        58 * p58((e - 1) as nat)
    }
}

/// A little-endian digit string is in canonical form when it carries no
/// leading zero digit, that is, its most significant (last) digit is nonzero.
spec fn canonical(d: Seq<u8>) -> bool {
    d.len() > 0 ==> d.last() != 0
}

/// Appending a digit at the most significant end adds its weighted value.
proof fn lemma_le_val_snoc(s: Seq<u8>, x: u8)
    ensures
        le_val(s.push(x)) == le_val(s) + p58(s.len()) * (x as nat),
    decreases s.len(),
{
    if s.len() == 0 {
        assert(s.push(x).drop_first() =~= Seq::<u8>::empty());
        assert(s.push(x).first() == x);
        assert(le_val(Seq::<u8>::empty()) == 0);
        assert(le_val(s) == 0);
        assert(p58(s.len()) == 1);
    } else {
        assert(s.push(x).drop_first() =~= s.drop_first().push(x));
        assert(s.push(x).first() == s.first());
        lemma_le_val_snoc(s.drop_first(), x);
        let w = p58((s.len() - 1) as nat);
        assert(le_val(s.push(x)) == s.first() as nat + 58 * (le_val(s.drop_first()) + w * (
        x as nat)));
        assert(58 * (le_val(s.drop_first()) + w * (x as nat)) == 58 * le_val(s.drop_first())
            + (58 * w) * (x as nat)) by (nonlinear_arith);
        assert(p58(s.len()) == 58 * w);
        assert(le_val(s) == s.first() as nat + 58 * le_val(s.drop_first()));
    }
}

/// A canonical, nonempty digit string has a nonzero value.
proof fn lemma_le_val_pos(d: Seq<u8>)
    requires
        d.len() > 0,
        d.last() != 0,
    ensures
        le_val(d) > 0,
    decreases d.len(),
{
    if d.len() > 1 {
        assert(d.drop_first().last() == d.last());
        lemma_le_val_pos(d.drop_first());
    }
}

/// The digits of the value of a canonical little-endian digit string are
/// exactly that string read most significant first.
proof fn lemma_b58_digits_reverse(d: Seq<u8>)
    requires
        forall|i: int| 0 <= i < d.len() ==> d[i] < 58,
        canonical(d),
    ensures
        b58_digits(le_val(d)) =~= d.reverse().map_values(|x: u8| x as nat),
    decreases d.len(),
{
    if d.len() == 0 {
    } else {
        let tail = d.drop_first();
        let n = le_val(d);
        vstd::arithmetic::div_mod::lemma_fundamental_div_mod_converse(
            n as int,
            58,
            le_val(tail) as int,
            d[0] as int,
        );
        assert(n % 58 == d[0] as nat);
        assert(n / 58 == le_val(tail));
        if tail.len() == 0 {
            assert(n == d[0]);
            assert(d.last() == d[0]);
            vstd::arithmetic::div_mod::lemma_basic_div(n as int, 58);
            vstd::arithmetic::div_mod::lemma_small_mod(n, 58);
            assert(b58_digits(n) == b58_digits(0).push(n % 58));
            assert(b58_digits(n) =~= seq![d[0] as nat]);
        } else {
            assert(tail.last() == d.last());
            lemma_b58_digits_reverse(tail);
            lemma_le_val_pos(tail);
            assert(n > 0);
            assert(b58_digits(n) == b58_digits(le_val(tail)).push(d[0] as nat));
            assert(d.reverse() =~= tail.reverse().push(d[0]));
            assert(tail.reverse().push(d[0]).map_values(|x: u8| x as nat) =~= tail.reverse()
                .map_values(|x: u8| x as nat)
                .push(d[0] as nat));
        }
    }
}

/// A scan that stops at the first nonzero byte counts the leading zeros.
proof fn lemma_leading_zeros_from_scan(b: Seq<u8>, z: int)
    requires
        0 <= z <= b.len(),
        forall|i: int| 0 <= i < z ==> b[i] == 0,
        z < b.len() ==> b[z] != 0,
    ensures
        leading_zeros(b) == z,
    decreases z,
{
    if z == 0 {
    } else {
        lemma_leading_zeros_from_scan(b.drop_first(), z - 1);
    }
}

/// One multiply-and-carry step keeps the combined value of the processed
/// prefix, the carry and the unprocessed suffix unchanged.
proof fn lemma_step_value(p: nat, w: nat, c: nat, d: nat, rest: nat, g: nat, c2: nat)
    requires
        d * 256 + c == c2 * 58 + g,
    ensures
        p + w * (c + 256 * (d + 58 * rest)) == (p + w * g) + (w * 58) * (c2 + 256 * rest),
{
    assert(p + w * (c + 256 * (d + 58 * rest)) == (p + w * g) + (w * 58) * (c2 + 256 * rest))
        by (nonlinear_arith)
        requires
            d * 256 + c == c2 * 58 + g,
    ;
}

/// Folds one more byte into the little-endian base-58 digit string: the
/// value it holds is multiplied by 256 and the byte is added, and the
/// digits stay canonical.
fn mul_add_digits(digits: &mut Vec<u8>, byte: u8)
    requires
        forall|i: int| 0 <= i < old(digits)@.len() ==> old(digits)@[i] < 58,
        canonical(old(digits)@),
    ensures
        forall|i: int| 0 <= i < final(digits)@.len() ==> final(digits)@[i] < 58,
        canonical(final(digits)@),
        le_val(final(digits)@) == 256 * le_val(old(digits)@) + byte as nat,
{
    let ghost snap = digits@;
    let ghost target = 256 * le_val(snap) + byte as nat;
    let dl: usize = digits.len();
    let mut carry: u32 = byte as u32;
    let mut j: usize = 0;
    proof {
        assert(digits@.take(0) =~= Seq::<u8>::empty());
        assert(snap.skip(0) =~= snap);
        assert(le_val(digits@.take(0)) == 0);
        assert(p58(0nat) == 1);
    }
    while j < dl
        invariant
            j <= dl,
            dl == digits@.len(),
            snap.len() == dl,
            carry <= 255,
            byte as nat == byte as u32 as nat,
            target == 256 * le_val(snap) + byte as nat,
            forall|k: int| j <= k < dl ==> digits@[k] == snap[k],
            forall|k: int| 0 <= k < j ==> digits@[k] < 58,
            forall|k: int| 0 <= k < dl ==> snap[k] < 58,
            canonical(snap),
            le_val(digits@.take(j as int)) + p58(j as nat) * (carry as nat + 256 * le_val(
                snap.skip(j as int),
            )) == target,
            j == dl && dl > 0 ==> carry > 0,
        decreases dl - j,
    {
        let ghost pre = digits@;
        let ghost w = p58(j as nat);
        let t: u32 = (digits[j] as u32) * 256 + carry;
        let g: u8 = (t % 58) as u8;
        let c2: u32 = t / 58;
        proof {
            vstd::arithmetic::div_mod::lemma_fundamental_div_mod(t as int, 58);
            vstd::arithmetic::div_mod::lemma_mod_division_less_than_divisor(t as int, 58);
            assert(g < 58);
            assert(t as nat == c2 as nat * 58 + g as nat);
        }
        digits[j] = g;
        proof {
            assert(digits@ == pre.update(j as int, g));
            assert(digits@.take(j as int) =~= pre.take(j as int));
            assert(digits@.take(j + 1) =~= digits@.take(j as int).push(g));
            lemma_le_val_snoc(digits@.take(j as int), g);
            assert(le_val(digits@.take(j + 1)) == le_val(pre.take(j as int)) + w * (g as nat));
            assert(snap.skip(j as int).drop_first() =~= snap.skip(j + 1));
            assert(snap.skip(j as int).first() == snap[j as int]);
            assert(le_val(snap.skip(j as int)) == snap[j as int] as nat + 58 * le_val(
                snap.skip(j + 1),
            ));
            lemma_step_value(
                le_val(pre.take(j as int)),
                w,
                carry as nat,
                snap[j as int] as nat,
                le_val(snap.skip(j + 1)),
                g as nat,
                c2 as nat,
            );
            assert(p58((j + 1) as nat) == 58 * w);
            assert(w * 58 == 58 * w);
            assert(le_val(digits@.take(j + 1)) + p58((j + 1) as nat) * (c2 as nat + 256 * le_val(
                snap.skip(j + 1),
            )) == target);
            if j + 1 == dl {
                assert(snap[j as int] == snap.last());
                assert(t >= 256);
                vstd::arithmetic::div_mod::lemma_div_is_ordered(256, t as int, 58);
                assert(c2 >= 4);
            }
        }
        carry = c2;
        j = j + 1;
    }
    proof {
        assert(digits@.take(dl as int) =~= digits@);
        assert(snap.skip(dl as int) =~= Seq::<u8>::empty());
        assert(le_val(digits@) + p58(dl as nat) * (carry as nat) == target);
    }
    let ghost mid = digits@;
    while carry > 0
        invariant
            forall|k: int| 0 <= k < digits@.len() ==> digits@[k] < 58,
            le_val(digits@) + p58(digits@.len()) * (carry as nat) == target,
            carry == 0 ==> canonical(digits@),
            digits@.len() >= mid.len(),
            forall|k: int| 0 <= k < mid.len() ==> digits@[k] == mid[k],
        decreases carry,
    {
        let ghost pre = digits@;
        let ghost w = p58(pre.len());
        let g: u8 = (carry % 58) as u8;
        let c2: u32 = carry / 58;
        proof {
            vstd::arithmetic::div_mod::lemma_fundamental_div_mod(carry as int, 58);
            vstd::arithmetic::div_mod::lemma_mod_division_less_than_divisor(carry as int, 58);
            vstd::arithmetic::div_mod::lemma_div_decreases(carry as int, 58);
            assert(g < 58);
            assert(carry as nat == c2 as nat * 58 + g as nat);
        }
        digits.push(g);
        proof {
            lemma_le_val_snoc(pre, g);
            assert(le_val(digits@) == le_val(pre) + w * (g as nat));
            assert(p58(digits@.len()) == 58 * w);
            assert(w * (g as nat) + (w * 58) * (c2 as nat) == w * (g as nat + 58 * c2 as nat))
                by (nonlinear_arith);
            assert(w * (carry as nat) == w * (g as nat) + (58 * w) * (c2 as nat))
                by (nonlinear_arith)
                requires
                    carry as nat == c2 as nat * 58 + g as nat,
            ;
            assert(le_val(digits@) + p58(digits@.len()) * (c2 as nat) == target);
            if c2 == 0 {
                assert(carry as nat == g as nat);
                assert(digits@.last() == g);
                assert(g > 0);
            }
        }
        carry = c2;
    }
    proof {
        assert(le_val(digits@) == target);
    }
}

/// The base-58 alphabet as text.
spec fn b58_alphabet() -> Seq<char> {
    "123456789ABCDEFGHJKLMNPQRSTUVWXYZabcdefghijkmnopqrstuvwxyz"@
}

/// Each alphabet position holds the character of its digit.
proof fn lemma_alphabet(d: nat)
    requires
        d < 58,
    ensures
        b58_alphabet().len() == 58,
        b58_alphabet()[d as int] == b58_char(d),
{
    reveal_strlit("123456789ABCDEFGHJKLMNPQRSTUVWXYZabcdefghijkmnopqrstuvwxyz");
}

/// Appends the character of one base-58 digit to the text being built.
fn append_digit(s: &mut String, d: u8)
    requires
        d < 58,
    ensures
        final(s)@ == old(s)@.push(b58_char(d as nat)),
{
    let alpha: &str = "123456789ABCDEFGHJKLMNPQRSTUVWXYZabcdefghijkmnopqrstuvwxyz";
    proof {
        lemma_alphabet(d as nat);
        assert(alpha@ == b58_alphabet());
    }
    let piece: &str = alpha.substring_char(d as usize, d as usize + 1);
    proof {
        assert(piece@ =~= seq![b58_char(d as nat)]);
    }
    s.append(piece);
    proof {
        assert(old(s)@ + piece@ =~= old(s)@.push(b58_char(d as nat)));
    }
}

/// Encodes a byte string as base-58 text: one `1` for each leading zero
/// byte, then the base-58 digits of the big-endian value, most significant
/// first.
pub fn base58_encode(bytes: &Vec<u8>) -> (s: String)
    ensures
        s@ == base58_of(bytes@),
{
    let n: usize = bytes.len();
    let mut zeros: usize = 0;
    while zeros < n && bytes[zeros] == 0
        invariant
            zeros <= n == bytes@.len(),
            forall|k: int| 0 <= k < zeros ==> bytes@[k] == 0,
        decreases n - zeros,
    {
        zeros = zeros + 1;
    }
    proof {
        lemma_leading_zeros_from_scan(bytes@, zeros as int);
    }
    let mut digits: Vec<u8> = Vec::new();
    let mut i: usize = 0;
    proof {
        assert(bytes@.take(0) =~= Seq::<u8>::empty());
    }
    while i < n
        invariant
            i <= n == bytes@.len(),
            forall|k: int| 0 <= k < digits@.len() ==> digits@[k] < 58,
            canonical(digits@),
            le_val(digits@) == be_val(bytes@.take(i as int)),
        decreases n - i,
    {
        mul_add_digits(&mut digits, bytes[i]);
        proof {
            assert(bytes@.take(i + 1).drop_last() =~= bytes@.take(i as int));
            assert(bytes@.take(i + 1).last() == bytes@[i as int]);
        }
        i = i + 1;
    }
    proof {
        assert(bytes@.take(n as int) =~= bytes@);
        lemma_b58_digits_reverse(digits@);
    }
    let dl: usize = digits.len();
    let mut s: String = String::new();
    let mut k: usize = 0;
    while k < zeros
        invariant
            k <= zeros,
            s@.len() == k,
            forall|i2: int| 0 <= i2 < k ==> s@[i2] == '1',
        decreases zeros - k,
    {
        proof {
            reveal_strlit("1");
        }
        s.append("1");
        k = k + 1;
    }
    let mut idx: usize = dl;
    while idx > 0
        invariant
            idx <= dl == digits@.len(),
            forall|k2: int| 0 <= k2 < digits@.len() ==> digits@[k2] < 58,
            s@.len() == zeros + (dl - idx),
            forall|i2: int| 0 <= i2 < zeros ==> s@[i2] == '1',
            forall|i2: int|
                zeros <= i2 < s@.len() ==> s@[i2] == b58_char(
                    digits@[dl - 1 - (i2 - zeros)] as nat,
                ),
        decreases idx,
    {
        idx = idx - 1;
        append_digit(&mut s, digits[idx]);
    }
    proof {
        assert(s@ =~= base58_of(bytes@));
    }
    s
}

} // verus!
