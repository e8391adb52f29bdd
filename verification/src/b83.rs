//! Base83 encoding of unsigned integers with the character set of Pannellum.
use vstd::prelude::*;
use vstd::arithmetic::power::{pow, lemma_pow_positive, lemma_pow_adds, lemma_pow1};
use vstd::arithmetic::div_mod::{
    lemma_div_denominator, lemma_fundamental_div_mod, lemma_mod_bound, lemma_div_pos_is_pos,
    lemma_div_is_ordered_by_denominator,
};
use vstd::arithmetic::mul::lemma_mul_strictly_positive;

verus! {

/// The 83 symbols of Pannellum's Base83 alphabet, digit value `i` at index `i`.
pub open spec fn b83_alphabet() -> Seq<char> {
    seq!['0', '1', '2', '3', '4', '5', '6', '7', '8', '9', 'A', 'B', 'C', 'D', 'E', 'F', 'G', 'H', 'I', 'J', 'K', 'L', 'M', 'N', 'O', 'P', 'Q', 'R', 'S', 'T', 'U', 'V', 'W', 'X', 'Y', 'Z', 'a', 'b', 'c', 'd', 'e', 'f', 'g', 'h', 'i', 'j', 'k', 'l', 'm', 'n', 'o', 'p', 'q', 'r', 's', 't', 'u', 'v', 'w', 'x', 'y', 'z', '#', '$', '%', '*', '+', ',', '-', '.', ':', ';', '=', '?', '@', '[', ']', '^', '_', '{', '|', '}', '~']
}

/// The Base83 digit with value `d`.
pub open spec fn b83_digit(d: int) -> char {
    b83_alphabet()[d]
}

/// The `length` Base83 digits of `val`, most significant first; digits above
/// `length` are dropped, as the encoder does.
pub open spec fn encode_value(val: nat, length: nat) -> Seq<char>
    decreases length,
{
    if length == 0 {
        Seq::empty()
    } else {
        encode_value(val / 83, (length - 1) as nat).push(b83_digit((val % 83) as int))
    }
}

/// The concatenation of the `length`-digit encodings of every value of `vals`.
pub open spec fn encode_spec(vals: Seq<u32>, length: nat) -> Seq<char>
    decreases vals.len(),
{
    if vals.len() == 0 {
        Seq::empty()
    } else {
        encode_spec(vals.drop_last(), length) + encode_value(vals.last() as nat, length)
    }
}

/// The value of a Base83 digit.
pub open spec fn b83_digit_value(c: char) -> int {
    match c {
        '0' => 0,
        '1' => 1,
        '2' => 2,
        '3' => 3,
        '4' => 4,
        '5' => 5,
        '6' => 6,
        '7' => 7,
        '8' => 8,
        '9' => 9,
        'A' => 10,
        'B' => 11,
        'C' => 12,
        'D' => 13,
        'E' => 14,
        'F' => 15,
        'G' => 16,
        'H' => 17,
        'I' => 18,
        'J' => 19,
        'K' => 20,
        'L' => 21,
        'M' => 22,
        'N' => 23,
        'O' => 24,
        'P' => 25,
        'Q' => 26,
        'R' => 27,
        'S' => 28,
        'T' => 29,
        'U' => 30,
        'V' => 31,
        'W' => 32,
        'X' => 33,
        'Y' => 34,
        'Z' => 35,
        'a' => 36,
        'b' => 37,
        'c' => 38,
        'd' => 39,
        'e' => 40,
        'f' => 41,
        'g' => 42,
        'h' => 43,
        'i' => 44,
        'j' => 45,
        'k' => 46,
        'l' => 47,
        'm' => 48,
        'n' => 49,
        'o' => 50,
        'p' => 51,
        'q' => 52,
        'r' => 53,
        's' => 54,
        't' => 55,
        'u' => 56,
        'v' => 57,
        'w' => 58,
        'x' => 59,
        'y' => 60,
        'z' => 61,
        '#' => 62,
        '$' => 63,
        '%' => 64,
        '*' => 65,
        '+' => 66,
        ',' => 67,
        '-' => 68,
        '.' => 69,
        ':' => 70,
        ';' => 71,
        '=' => 72,
        '?' => 73,
        '@' => 74,
        '[' => 75,
        ']' => 76,
        '^' => 77,
        '_' => 78,
        '{' => 79,
        '|' => 80,
        '}' => 81,
        '~' => 82,
        _ => 0,
    }
}

/// The number that a string of Base83 digits denotes, most significant first.
pub open spec fn decode_value(s: Seq<char>) -> nat
    decreases s.len(),
{
    if s.len() == 0 {
        0
    } else {
        (decode_value(s.drop_last()) * 83 + b83_digit_value(s.last())) as nat
    }
}

/// Digit `j` of the `length`-digit encoding of `val` is `(val / 83^(length-1-j)) % 83`.
pub proof fn lemma_encode_value_index(val: nat, length: nat, j: int)
    requires
        0 <= j < length,
    ensures
        encode_value(val, length).len() == length,
        encode_value(val, length)[j] == b83_digit(
            ((val / (pow(83, (length - 1 - j) as nat) as nat)) % 83) as int,
        ),
    decreases length,
{
    lemma_encode_value_len(val, length);
    lemma_pow_positive(83, (length - 1 - j) as nat);
    if j == length - 1 {
        assert(pow(83, 0) == 1) by {
            vstd::arithmetic::power::lemma_pow0(83);
        }
        assert(val / 1 == val);
    } else {
        lemma_encode_value_index(val / 83, (length - 1) as nat, j);
        let e = (length - 2 - j) as nat;
        lemma_pow_positive(83, e);
        lemma_div_denominator(val as int, 83, pow(83, e));
        lemma_pow_adds(83, 1, e);
        lemma_pow1(83);
        assert((1 + e) as nat == (length - 1 - j) as nat);
        assert(pow(83, (length - 1 - j) as nat) == 83 * pow(83, e));
        assert(encode_value(val, length)[j] == encode_value(val / 83, (length - 1) as nat)[j]);
        assert((val / 83) as int / pow(83, e) == val as int / (83 * pow(83, e)));
    }
}

/// The encoding of one value has exactly `length` digits.
pub proof fn lemma_encode_value_len(val: nat, length: nat)
    ensures
        encode_value(val, length).len() == length,
    decreases length,
{
    if length > 0 {
        lemma_encode_value_len(val / 83, (length - 1) as nat);
    }
}

/// The encoding of `vals` has `length` digits per value.
pub proof fn lemma_encode_spec_len(vals: Seq<u32>, length: nat)
    ensures
        encode_spec(vals, length).len() == vals.len() * length,
    decreases vals.len(),
{
    if vals.len() > 0 {
        lemma_encode_spec_len(vals.drop_last(), length);
        lemma_encode_value_len(vals.last() as nat, length);
        assert(vals.len() * length == (vals.len() - 1) * length + length) by (nonlinear_arith);
    }
}

/// Encoding a concatenation is concatenating the encodings: every value is
/// encoded on its own, in input order.
pub proof fn lemma_encode_concat(a: Seq<u32>, b: Seq<u32>, length: nat)
    ensures
        encode_spec(a + b, length) == encode_spec(a, length) + encode_spec(b, length),
    decreases b.len(),
{
    if b.len() == 0 {
        assert(a + b =~= a);
        assert(encode_spec(a, length) + encode_spec(b, length) =~= encode_spec(a, length));
    } else {
        lemma_encode_concat(a, b.drop_last(), length);
        assert((a + b).drop_last() =~= a + b.drop_last());
        assert((a + b).last() == b.last());
        assert(encode_spec(a, length) + encode_spec(b.drop_last(), length) + encode_value(
            b.last() as nat,
            length,
        ) =~= encode_spec(a, length) + (encode_spec(b.drop_last(), length) + encode_value(
            b.last() as nat,
            length,
        )));
    }
}

/// Decoding a digit gives back its value.
pub proof fn lemma_digit_roundtrip(d: int)
    requires
        0 <= d < 83,
    ensures
        b83_digit_value(b83_digit(d)) == d,
{
    if d == 0 {
    } else if d == 1 {
    } else if d == 2 {
    } else if d == 3 {
    } else if d == 4 {
    } else if d == 5 {
    } else if d == 6 {
    } else if d == 7 {
    } else if d == 8 {
    } else if d == 9 {
    } else if d == 10 {
    } else if d == 11 {
    } else if d == 12 {
    } else if d == 13 {
    } else if d == 14 {
    } else if d == 15 {
    } else if d == 16 {
    } else if d == 17 {
    } else if d == 18 {
    } else if d == 19 {
    } else if d == 20 {
    } else if d == 21 {
    } else if d == 22 {
    } else if d == 23 {
    } else if d == 24 {
    } else if d == 25 {
    } else if d == 26 {
    } else if d == 27 {
    } else if d == 28 {
    } else if d == 29 {
    } else if d == 30 {
    } else if d == 31 {
    } else if d == 32 {
    } else if d == 33 {
    } else if d == 34 {
    } else if d == 35 {
    } else if d == 36 {
    } else if d == 37 {
    } else if d == 38 {
    } else if d == 39 {
    } else if d == 40 {
    } else if d == 41 {
    } else if d == 42 {
    } else if d == 43 {
    } else if d == 44 {
    } else if d == 45 {
    } else if d == 46 {
    } else if d == 47 {
    } else if d == 48 {
    } else if d == 49 {
    } else if d == 50 {
    } else if d == 51 {
    } else if d == 52 {
    } else if d == 53 {
    } else if d == 54 {
    } else if d == 55 {
    } else if d == 56 {
    } else if d == 57 {
    } else if d == 58 {
    } else if d == 59 {
    } else if d == 60 {
    } else if d == 61 {
    } else if d == 62 {
    } else if d == 63 {
    } else if d == 64 {
    } else if d == 65 {
    } else if d == 66 {
    } else if d == 67 {
    } else if d == 68 {
    } else if d == 69 {
    } else if d == 70 {
    } else if d == 71 {
    } else if d == 72 {
    } else if d == 73 {
    } else if d == 74 {
    } else if d == 75 {
    } else if d == 76 {
    } else if d == 77 {
    } else if d == 78 {
    } else if d == 79 {
    } else if d == 80 {
    } else if d == 81 {
    } else if d == 82 {
    }
}

/// A value below `83^length` is recovered exactly from its `length`-digit
/// encoding: the encoding is the Base83 numeral of the value.
pub proof fn lemma_encode_value_roundtrip(val: nat, length: nat)
    requires
        val < pow(83, length),
    ensures
        decode_value(encode_value(val, length)) == val,
    decreases length,
{
    if length == 0 {
        vstd::arithmetic::power::lemma_pow0(83);
    } else {
        lemma_pow_adds(83, 1, (length - 1) as nat);
        lemma_pow1(83);
        assert(pow(83, length) == 83 * pow(83, (length - 1) as nat));
        assert(val / 83 < pow(83, (length - 1) as nat)) by {
            vstd::arithmetic::div_mod::lemma_div_is_ordered(
                val as int, (83 * pow(83, (length - 1) as nat) - 1) as int, 83);
            vstd::arithmetic::div_mod::lemma_div_multiples_vanish_fancy(
                pow(83, (length - 1) as nat), 82, 83);
        }
        lemma_encode_value_roundtrip(val / 83, (length - 1) as nat);
        lemma_mod_bound(val as int, 83);
        lemma_digit_roundtrip((val % 83) as int);
        let s = encode_value(val, length);
        assert(s.drop_last() == encode_value(val / 83, (length - 1) as nat));
        lemma_fundamental_div_mod(val as int, 83);
    }
}

/// Block `k` of the encoding (characters `k * length` to `(k + 1) * length`)
/// is the encoding of `vals[k]`, and it decodes to `vals[k]` when that value
/// is below `83^length`.
pub proof fn lemma_encode_blocks(vals: Seq<u32>, length: nat, k: int)
    requires
        0 <= k < vals.len(),
    ensures
        encode_spec(vals, length).subrange(k * length, (k + 1) * length) == encode_value(
            vals[k] as nat,
            length,
        ),
        vals[k] < pow(83, length) ==> decode_value(
            encode_spec(vals, length).subrange(k * length, (k + 1) * length),
        ) == vals[k],
    decreases vals.len(),
{
    let n = vals.len();
    let front = encode_spec(vals.drop_last(), length);
    let back = encode_value(vals.last() as nat, length);
    lemma_encode_spec_len(vals.drop_last(), length);
    lemma_encode_value_len(vals.last() as nat, length);
    assert(k * length + length == (k + 1) * length) by (nonlinear_arith);
    if k < n - 1 {
        lemma_encode_blocks(vals.drop_last(), length, k);
        assert((k + 1) * length <= (n - 1) * length) by (nonlinear_arith)
            requires
                k + 1 <= n - 1,
        ;
        assert(0 <= k * length) by (nonlinear_arith)
            requires
                0 <= k,
        ;
        assert((front + back).subrange(k * length, (k + 1) * length) =~= front.subrange(
            k * length,
            (k + 1) * length,
        ));
    } else {
        assert(k * length == (n - 1) * length);
        assert((front + back).subrange(k * length, (k + 1) * length) =~= back);
    }
    if vals[k] < pow(83, length) {
        lemma_encode_value_roundtrip(vals[k] as nat, length);
    }
}

/// Computes `83^e`.
fn pow83(e: u32) -> (r: u32)
    requires
        e <= 5,
    ensures
        r == pow(83, e as nat),
{
    let mut r: u32 = 1;
    let mut i: u32 = 0;
    proof {
        vstd::arithmetic::power::lemma_pow0(83);
    }
    while i < e
        invariant
            i <= e <= 5,
            r == pow(83, i as nat),
        decreases e - i,
    {
        proof {
            lemma_pow_adds(83, i as nat, 1);
            lemma_pow1(83);
            vstd::arithmetic::power::lemma_pow_increases(83, i as nat, 4);
            reveal_with_fuel(pow, 5);
        }
        r = r * 83;
        i = i + 1;
    }
    r
}

/// The Base83 digit with value `d`.
fn digit_char(d: u32) -> (c: char)
    requires
        d < 83,
    ensures
        c == b83_digit(d as int),
{
    let alphabet: [char; 83] = ['0', '1', '2', '3', '4', '5', '6', '7', '8', '9', 'A', 'B', 'C', 'D', 'E', 'F', 'G', 'H', 'I', 'J', 'K', 'L', 'M', 'N', 'O', 'P', 'Q', 'R', 'S', 'T', 'U', 'V', 'W', 'X', 'Y', 'Z', 'a', 'b', 'c', 'd', 'e', 'f', 'g', 'h', 'i', 'j', 'k', 'l', 'm', 'n', 'o', 'p', 'q', 'r', 's', 't', 'u', 'v', 'w', 'x', 'y', 'z', '#', '$', '%', '*', '+', ',', '-', '.', ':', ';', '=', '?', '@', '[', ']', '^', '_', '{', '|', '}', '~'];
    proof {
        assert(alphabet@ == b83_alphabet());
    }
    alphabet[d as usize]
}

/// Encodes every value of `vals` as `length` Base83 digits, most significant
/// first, and concatenates the encodings.
pub fn encode(vals: &[u32], length: usize) -> (res: String)
    requires
        vals@.len() > 0 ==> length <= 6,
        vals@.len() * length <= isize::MAX,
    ensures
        res@ == encode_spec(vals@, length as nat),
{
    let mut result = String::new();
    let mut k: usize = 0;
    while k < vals.len()
        invariant
            k <= vals@.len(),
            vals@.len() > 0 ==> length <= 6,
            result@ == encode_spec(vals@.take(k as int), length as nat),
        decreases vals@.len() - k,
    {
        let val = vals[k];
        let ghost before = result@;
        let mut i: usize = 1;
        while i <= length
            invariant
                1 <= i <= length + 1,
                length <= 6,
                result@ == before + encode_value(val as nat, length as nat).take(i - 1),
            decreases length + 1 - i,
        {
            let power = pow83((length - i) as u32);
            proof {
                lemma_pow_positive(83, (length - i) as nat);
            }
            let idx = (val / power) % 83;
            let c = digit_char(idx);
            proof {
                lemma_encode_value_index(val as nat, length as nat, i - 1);
                assert(encode_value(val as nat, length as nat).take(i as int)
                    == encode_value(val as nat, length as nat).take(i - 1).push(c));
            }
            push_char(&mut result, c);
            i = i + 1;
        }
        proof {
            lemma_encode_value_len(val as nat, length as nat);
            assert(encode_value(val as nat, length as nat).take(length as int)
                == encode_value(val as nat, length as nat));
            assert(vals@.take(k + 1).drop_last() == vals@.take(k as int));
        }
        k = k + 1;
    }
    proof {
        assert(vals@.take(vals@.len() as int) == vals@);
    }
    result
}

/// Appends one character to a string with `String::push` of std.
///
/// Claimed of std: the string afterwards is the old one followed by `c`.
#[verifier::external_body]
pub(crate) fn push_char(s: &mut String, c: char)
    ensures
        final(s)@ == old(s)@.push(c),
{
    s.push(c);
}

} // verus!
