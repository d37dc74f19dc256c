use vstd::prelude::*;

verus! {

use vstd::string::StrSliceExecFns;
use vstd::string::StringExecFns;

/// Characters that may stand unescaped inside a JSON string: printable
/// ASCII without the quote and the backslash.
pub open spec fn plain_char(c: char) -> bool {
    0x20 <= c as u32 <= 0x7e && c != '"' && c != '\\'
}

/// Every character of the sequence is a `plain_char`.
pub open spec fn json_plain(s: Seq<char>) -> bool {
    forall|i: int| 0 <= i < s.len() ==> plain_char(#[trigger] s[i])
}

/// Whether a text can stand unescaped inside a JSON string.
pub fn is_json_plain(s: &str) -> (r: bool)
    ensures
        r == json_plain(s@),
{
    let n = s.unicode_len();
    let mut i: usize = 0;
    while i < n
        invariant
            n == s@.len(),
            0 <= i <= n,
            forall|k: int| 0 <= k < i ==> plain_char(#[trigger] s@[k]),
        decreases n - i,
    {
        let c = s.get_char(i);
        let u = c as u32;
        if !(0x20 <= u && u <= 0x7e) || c == '"' || c == '\\' {
            return false;
        }
        i += 1;
    }
    true
}

/// The character for one digit value, hexadecimal below 16, decimal below 10.
pub open spec fn digit_char(d: int) -> char {
    if d == 0 {
        '0'
    } else if d == 1 {
        '1'
    } else if d == 2 {
        '2'
    } else if d == 3 {
        '3'
    } else if d == 4 {
        '4'
    } else if d == 5 {
        '5'
    } else if d == 6 {
        '6'
    } else if d == 7 {
        '7'
    } else if d == 8 {
        '8'
    } else if d == 9 {
        '9'
    } else if d == 10 {
        'a'
    } else if d == 11 {
        'b'
    } else if d == 12 {
        'c'
    } else if d == 13 {
        'd'
    } else if d == 14 {
        'e'
    } else {
        'f'
    }
}

/// Lower-case hexadecimal text of a byte sequence, two digits per byte.
pub open spec fn hex_of(b: Seq<u8>) -> Seq<char>
    decreases b.len(),
{
    if b.len() == 0 {
        Seq::<char>::empty()
    } else {
        hex_of(b.drop_last()) + seq![
            digit_char(b.last() as int / 16),
            digit_char(b.last() as int % 16),
        ]
    }
}

/// Decimal text of a non-negative integer, no sign, no leading zero.
pub open spec fn dec_str(n: int) -> Seq<char>
    recommends
        n >= 0,
    decreases n,
{
    if n < 10 {
        seq![digit_char(n)]
    } else {
        dec_str(n / 10) + seq![digit_char(n % 10)]
    }
}

fn digit_str(d: u8) -> (r: &'static str)
    requires
        d < 16,
    ensures
        r@ == seq![digit_char(d as int)],
{
    let r: &'static str = if d == 0 {
        "0"
    } else if d == 1 {
        "1"
    } else if d == 2 {
        "2"
    } else if d == 3 {
        "3"
    } else if d == 4 {
        "4"
    } else if d == 5 {
        "5"
    } else if d == 6 {
        "6"
    } else if d == 7 {
        "7"
    } else if d == 8 {
        "8"
    } else if d == 9 {
        "9"
    } else if d == 10 {
        "a"
    } else if d == 11 {
        "b"
    } else if d == 12 {
        "c"
    } else if d == 13 {
        "d"
    } else if d == 14 {
        "e"
    } else {
        "f"
    };
    proof {
        reveal_strlit("0");
        reveal_strlit("1");
        reveal_strlit("2");
        reveal_strlit("3");
        reveal_strlit("4");
        reveal_strlit("5");
        reveal_strlit("6");
        reveal_strlit("7");
        reveal_strlit("8");
        reveal_strlit("9");
        reveal_strlit("a");
        reveal_strlit("b");
        reveal_strlit("c");
        reveal_strlit("d");
        reveal_strlit("e");
        reveal_strlit("f");
        assert(r@ =~= seq![digit_char(d as int)]);
    }
    r
}

/// Lower-case hexadecimal rendering of a byte vector.
pub fn to_hex(bytes: &Vec<u8>) -> (r: String)
    ensures
        r@ == hex_of(bytes@),
{
    let mut s = String::new();
    let mut i: usize = 0;
    while i < bytes.len()
        invariant
            0 <= i <= bytes@.len(),
            s@ == hex_of(bytes@.take(i as int)),
        decreases bytes@.len() - i,
    {
        let b = bytes[i];
        s.append(digit_str(b / 16));
        s.append(digit_str(b % 16));
        proof {
            assert(bytes@.take(i + 1).drop_last() =~= bytes@.take(i as int));
            assert(bytes@.take(i + 1).last() == bytes@[i as int]);
            assert(s@ =~= hex_of(bytes@.take(i + 1)));
        }
        i += 1;
    }
    proof {
        assert(bytes@.take(bytes@.len() as int) =~= bytes@);
    }
    s
}

/// Decimal rendering of an unsigned integer.
pub fn u64_to_dec(n: u64) -> (r: String)
    ensures
        r@ == dec_str(n as int),
    decreases n,
{
    if n < 10 {
        String::from_str(digit_str(n as u8))
    } else {
        let mut s = u64_to_dec(n / 10);
        s.append(digit_str((n % 10) as u8));
        proof {
            assert(s@ =~= dec_str(n as int));
        }
        s
    }
}

/// Whether a character is a decimal digit.
pub open spec fn is_digit(c: char) -> bool {
    0x30 <= c as u32 <= 0x39
}

/// The value a decimal digit character denotes.
pub open spec fn digit_val(c: char) -> int {
    c as u32 - 0x30
}

/// The number a digit string denotes, most significant digit first.
pub open spec fn dec_val(s: Seq<char>) -> int
    decreases s.len(),
{
    if s.len() == 0 {
        0
    } else {
        dec_val(s.drop_last()) * 10 + digit_val(s.last())
    }
}

/// Powers of ten.
pub open spec fn pow10(k: int) -> int
    decreases k,
{
    if k <= 0 {
        1
    } else {
        10 * pow10(k - 1)
    }
}

/// The code points of the decimal digit characters.
pub proof fn lemma_digit_codepoints()
    ensures
        '0' as u32 == 0x30,
        '1' as u32 == 0x31,
        '2' as u32 == 0x32,
        '3' as u32 == 0x33,
        '4' as u32 == 0x34,
        '5' as u32 == 0x35,
        '6' as u32 == 0x36,
        '7' as u32 == 0x37,
        '8' as u32 == 0x38,
        '9' as u32 == 0x39,
{
}

/// A digit other than '0' denotes at least one.
pub proof fn lemma_nonzero_digit(c: char)
    requires
        is_digit(c),
        c != '0',
    ensures
        digit_val(c) >= 1,
{
    assert('0' as u32 == 0x30);
}

/// `digit_char` inverts `digit_val` on digit characters.
pub proof fn lemma_digit_char_inverse(c: char)
    requires
        is_digit(c),
    ensures
        0 <= digit_val(c) < 10,
        digit_char(digit_val(c)) == c,
{
    lemma_digit_codepoints();
}

pub proof fn lemma_pow10_pos(k: int)
    ensures
        pow10(k) >= 1,
    decreases k,
{
    if k > 0 {
        lemma_pow10_pos(k - 1);
    }
}

/// Decimal text denotes its number: all digits, at least one, the first
/// one zero only for zero itself, and the value reads back exactly.
pub proof fn lemma_dec_str_digits(n: int)
    requires
        n >= 0,
    ensures
        forall|i: int| 0 <= i < dec_str(n).len() ==> is_digit(#[trigger] dec_str(n)[i]),
        dec_str(n).len() >= 1,
        n >= 1 ==> dec_str(n)[0] != '0',
        dec_val(dec_str(n)) == n,
    decreases n,
{
    reveal_with_fuel(dec_val, 3);
    if n < 10 {
        assert(dec_str(n) =~= seq![digit_char(n)]);
        assert(seq![digit_char(n)].drop_last() =~= Seq::<char>::empty());
        assert(dec_val(dec_str(n)) == digit_val(digit_char(n)));
        assert(digit_val(digit_char(n)) == n);
        assert(is_digit(digit_char(n)));
        if n >= 1 {
            assert(digit_char(n) != '0');
        }
    } else {
        lemma_dec_str_digits(n / 10);
        assert(dec_str(n) == dec_str(n / 10) + seq![digit_char(n % 10)]);
        assert(dec_str(n).drop_last() =~= dec_str(n / 10));
        assert(dec_str(n).last() == digit_char(n % 10));
        assert(digit_val(digit_char(n % 10)) == n % 10);
        assert(dec_val(dec_str(n)) == (n / 10) * 10 + n % 10);
        assert((n / 10) * 10 + n % 10 == n);
        assert(dec_str(n)[0] == dec_str(n / 10)[0]);
        assert forall|i: int| 0 <= i < dec_str(n).len() implies is_digit(
            #[trigger] dec_str(n)[i],
        ) by {
            if i < dec_str(n).len() - 1 {
                assert(dec_str(n)[i] == dec_str(n / 10)[i]);
            } else {
                assert(dec_str(n)[i] == digit_char(n % 10));
                assert(is_digit(digit_char(n % 10)));
            }
        }
    }
}

/// A digit string's value is non-negative.
pub proof fn lemma_dec_val_nonneg(s: Seq<char>)
    requires
        forall|i: int| 0 <= i < s.len() ==> is_digit(#[trigger] s[i]),
    ensures
        dec_val(s) >= 0,
    decreases s.len(),
{
    if s.len() > 0 {
        assert(forall|i: int|
            0 <= i < s.drop_last().len() ==> is_digit(#[trigger] s.drop_last()[i]));
        lemma_dec_val_nonneg(s.drop_last());
        assert(is_digit(s.last()));
    }
}

/// A digit string that does not open with zero denotes at least one.
pub proof fn lemma_dec_val_pos(s: Seq<char>)
    requires
        forall|i: int| 0 <= i < s.len() ==> is_digit(#[trigger] s[i]),
        s.len() >= 1,
        s[0] != '0',
    ensures
        dec_val(s) >= 1,
    decreases s.len(),
{
    reveal_with_fuel(dec_val, 3);
    if s.len() == 1 {
        assert(is_digit(s[0]));
        lemma_nonzero_digit(s[0]);
        assert(s.drop_last() =~= Seq::<char>::empty());
        assert(s.last() == s[0]);
        assert(dec_val(s) == digit_val(s[0]));
    } else {
        assert(forall|i: int|
            0 <= i < s.drop_last().len() ==> is_digit(#[trigger] s.drop_last()[i]));
        lemma_dec_val_pos(s.drop_last());
        assert(is_digit(s.last()));
    }
}

/// Splitting a digit string splits its value by the tail's power of ten.
pub proof fn lemma_dec_val_concat(a: Seq<char>, b: Seq<char>)
    ensures
        dec_val(a + b) == dec_val(a) * pow10(b.len() as int) + dec_val(b),
    decreases b.len(),
{
    if b.len() == 0 {
        assert(a + b =~= a);
    } else {
        lemma_dec_val_concat(a, b.drop_last());
        assert((a + b).drop_last() =~= a + b.drop_last());
        assert((a + b).last() == b.last());
        assert(dec_val(a + b) == (dec_val(a) * pow10(b.len() - 1) + dec_val(b.drop_last())) * 10
            + digit_val(b.last()));
        assert((dec_val(a) * pow10(b.len() - 1) + dec_val(b.drop_last())) * 10 + digit_val(
            b.last(),
        ) == dec_val(a) * (pow10(b.len() - 1) * 10) + (dec_val(b.drop_last()) * 10 + digit_val(
            b.last(),
        ))) by (nonlinear_arith);
        assert(pow10(b.len() as int) == 10 * pow10(b.len() - 1));
    }
}

/// A prefix of decimal text never denotes more than the whole.
pub proof fn lemma_dec_prefix_bound(n: int, j: int)
    requires
        n >= 0,
        0 <= j <= dec_str(n).len(),
    ensures
        0 <= dec_val(dec_str(n).take(j)) <= n,
{
    lemma_dec_str_digits(n);
    let s = dec_str(n);
    assert(s =~= s.take(j) + s.skip(j));
    lemma_dec_val_concat(s.take(j), s.skip(j));
    assert(forall|i: int| 0 <= i < s.take(j).len() ==> is_digit(#[trigger] s.take(j)[i]));
    assert(forall|i: int| 0 <= i < s.skip(j).len() ==> is_digit(#[trigger] s.skip(j)[i]));
    lemma_dec_val_nonneg(s.take(j));
    lemma_dec_val_nonneg(s.skip(j));
    lemma_pow10_pos(s.skip(j).len() as int);
    assert(dec_val(s.take(j)) * pow10(s.skip(j).len() as int) >= dec_val(s.take(j))) by (
    nonlinear_arith)
        requires
            dec_val(s.take(j)) >= 0,
            pow10(s.skip(j).len() as int) >= 1,
    ;
}

/// The canonical decimal text is the only digit string without a leading
/// zero that denotes its value.
pub proof fn lemma_dec_canonical(s: Seq<char>)
    requires
        forall|i: int| 0 <= i < s.len() ==> is_digit(#[trigger] s[i]),
        s.len() >= 1,
        s.len() > 1 ==> s[0] != '0',
    ensures
        s == dec_str(dec_val(s)),
    decreases s.len(),
{
    reveal_with_fuel(dec_val, 3);
    if s.len() == 1 {
        assert(is_digit(s[0]));
        lemma_digit_char_inverse(s[0]);
        assert(s.drop_last() =~= Seq::<char>::empty());
        assert(dec_val(s) == digit_val(s[0]));
        assert(0 <= dec_val(s) < 10);
        assert(digit_char(digit_val(s[0])) == s[0]);
        assert(s =~= seq![digit_char(dec_val(s))]);
    } else {
        let t = s.drop_last();
        assert(forall|i: int| 0 <= i < t.len() ==> is_digit(#[trigger] t[i]));
        assert(t[0] == s[0]);
        lemma_dec_canonical(t);
        lemma_digit_char_inverse(s.last());
        lemma_dec_val_pos(t);
        let vt = dec_val(t);
        let d = digit_val(s.last());
        assert(is_digit(s.last()));
        assert(0 <= d < 10);
        let v = dec_val(s);
        assert(v == vt * 10 + d);
        assert(v >= 10) by (nonlinear_arith)
            requires
                v == vt * 10 + d,
                vt >= 1,
                d >= 0,
        ;
        assert(v / 10 == vt && v % 10 == d) by (nonlinear_arith)
            requires
                v == vt * 10 + d,
                0 <= d < 10,
                vt >= 0,
        ;
        assert(dec_str(v) == dec_str(vt) + seq![digit_char(d)]);
        assert(digit_char(d) == s.last());
        assert(s =~= t + seq![s.last()]);
        assert(s =~= dec_str(v));
    }
}

} // verus!
