//! Numbers written as text.
use vstd::prelude::*;

verus! {

/// The character of a digit below sixteen, in lower case.
pub open spec fn digit_char(d: int) -> char {
    if d < 10 {
        ('0' as int + d) as char
    } else {
        ('a' as int + d - 10) as char
    }
}

/// A natural number in decimal, without leading zeros.
pub open spec fn decimal_nat(n: nat) -> Seq<char>
    decreases n,
{
    if n < 10 {
        seq![digit_char(n as int)]
    } else {
        decimal_nat(n / 10).push(digit_char(n as int % 10))
    }
}

/// An integer in decimal: a minus sign where it is negative, then its magnitude.
pub open spec fn decimal(i: int) -> Seq<char> {
    if i < 0 {
        seq!['-'] + decimal_nat((-i) as nat)
    } else {
        decimal_nat(i as nat)
    }
}

/// A byte in lower case hexadecimal, without a leading zero: one character below sixteen, else two.
pub open spec fn hex_byte(b: u8) -> Seq<char> {
    if b < 16 {
        seq![digit_char(b as int)]
    } else {
        seq![digit_char(b as int / 16), digit_char(b as int % 16)]
    }
}

/// Some bytes in hexadecimal, each as `hex_byte` writes it, with nothing between them.
pub open spec fn hex_bytes(bytes: Seq<u8>) -> Seq<char>
    decreases bytes.len(),
{
    if bytes.len() == 0 {
        Seq::empty()
    } else {
        hex_bytes(bytes.drop_last()) + hex_byte(bytes.last())
    }
}

/// The text of one digit.
fn digit_text(d: u8) -> (text: &'static str)
    requires
        d < 16,
    ensures
        text@ == seq![digit_char(d as int)],
{
    proof {
        reveal_strlit("0");
        reveal_strlit("1");
        reveal_strlit("2");
        reveal_strlit("3");
        reveal_strlit("4");
        reveal_strlit("5");
        reveal_strlit("6");
        reveal_strlit("7");
        reveal_strlit("8");
        reveal_strlit("9");
        reveal_strlit("a");
        reveal_strlit("b");
        reveal_strlit("c");
        reveal_strlit("d");
        reveal_strlit("e");
        reveal_strlit("f");
    }
    let text = match d {
        0 => "0",
        1 => "1",
        2 => "2",
        3 => "3",
        4 => "4",
        5 => "5",
        6 => "6",
        7 => "7",
        8 => "8",
        9 => "9",
        10 => "a",
        11 => "b",
        12 => "c",
        13 => "d",
        14 => "e",
        _ => "f",
    };
    assert(text@ =~= seq![digit_char(d as int)]);
    text
}

/// Appends a natural number in decimal.
pub fn push_decimal_u64(out: &mut String, n: u64)
    ensures
        final(out)@ == old(out)@ + decimal_nat(n as nat),
    decreases n,
{
    if n >= 10 {
        push_decimal_u64(out, n / 10);
    }
    out.append(digit_text((n % 10) as u8));
    assert(out@ =~= old(out)@ + decimal_nat(n as nat));
}

/// Appends an integer in decimal.
pub fn push_decimal_i64(out: &mut String, i: i64)
    ensures
        final(out)@ == old(out)@ + decimal(i as int),
{
    if i < 0 {
        proof {
            reveal_strlit("-");
        }
        let magnitude: u64 = (-(i + 1)) as u64 + 1;
        out.append("-");
        push_decimal_u64(out, magnitude);
        assert(out@ =~= old(out)@ + decimal(i as int));
    } else {
        push_decimal_u64(out, i as u64);
    }
}

/// Appends a byte in hexadecimal.
pub fn push_hex_byte(out: &mut String, b: u8)
    ensures
        final(out)@ == old(out)@ + hex_byte(b),
{
    if b >= 16 {
        out.append(digit_text(b / 16));
    }
    out.append(digit_text(b % 16));
    assert(out@ =~= old(out)@ + hex_byte(b));
}

/// Appends some bytes in hexadecimal.
pub fn push_hex_bytes(out: &mut String, bytes: &[u8])
    ensures
        final(out)@ == old(out)@ + hex_bytes(bytes@),
{
    let ghost before = out@;
    let mut i: usize = 0;
    assert(before =~= before + hex_bytes(bytes@.take(0)));
    while i < bytes.len()
        invariant
            i <= bytes@.len(),
            out@ == before + hex_bytes(bytes@.take(i as int)),
        decreases bytes@.len() - i,
    {
        push_hex_byte(out, bytes[i]);
        proof {
            let longer = bytes@.take(i + 1);
            assert(longer.drop_last() =~= bytes@.take(i as int));
            assert(out@ =~= before + hex_bytes(longer));
        }
        i += 1;
    }
    assert(bytes@.take(i as int) =~= bytes@);
}

/// The number that some decimal digits stand for.
pub open spec fn decimal_value(text: Seq<char>) -> int
    decreases text.len(),
{
    if text.len() == 0 {
        0
    } else {
        decimal_value(text.drop_last()) * 10 + (text.last() as int - '0' as int)
    }
}

/// A natural number in decimal reads back as the number. It is made of digits, at least one, and
/// starts with a zero only where the number is zero.
pub proof fn law_decimal_nat(n: nat)
    ensures
        decimal_value(decimal_nat(n)) == n,
        decimal_nat(n).len() > 0,
        forall|i: int|
            0 <= i < decimal_nat(n).len() ==> '0' <= (#[trigger] decimal_nat(n)[i]) <= '9',
        decimal_nat(n)[0] == '0' ==> n == 0 && decimal_nat(n).len() == 1,
    decreases n,
{
    let text = decimal_nat(n);
    if n >= 10 {
        let front = decimal_nat(n / 10);
        law_decimal_nat(n / 10);
        assert(text.drop_last() =~= front);
        assert(text[0] == front[0]);
        assert forall|i: int| 0 <= i < text.len() implies '0' <= (#[trigger] text[i]) <= '9' by {
            if i < front.len() {
                assert(text[i] == front[i]);
            }
        }
    } else {
        assert(text.drop_last() =~= Seq::empty());
        reveal_with_fuel(decimal_value, 2);
    }
}

/// An integer in decimal reads back as the integer, behind a minus sign where it is negative.
pub proof fn law_decimal(i: int)
    ensures
        i >= 0 ==> decimal(i)[0] != '-' && decimal_value(decimal(i)) == i,
        i < 0 ==> decimal(i)[0] == '-' && decimal(i).len() > 1 && decimal_value(decimal(i).skip(1))
            == -i,
        i >= 0 ==> decimal(i) == decimal_nat(i as nat),
        i < 0 ==> decimal(i).skip(1) == decimal_nat((-i) as nat),
{
    if i < 0 {
        law_decimal_nat((-i) as nat);
        assert(decimal(i).skip(1) =~= decimal_nat((-i) as nat));
    } else {
        law_decimal_nat(i as nat);
    }
}

/// The number that a hexadecimal digit in lower case stands for.
pub open spec fn hex_value(c: char) -> int {
    if '0' <= c <= '9' {
        c as int - '0' as int
    } else {
        c as int - 'a' as int + 10
    }
}

/// A byte in hexadecimal reads back as the byte: from one digit where it is below sixteen, from two
/// elsewhere.
pub proof fn law_hex_byte(b: u8)
    ensures
        b < 16 ==> hex_byte(b).len() == 1 && hex_value(hex_byte(b)[0]) == b,
        b >= 16 ==> hex_byte(b).len() == 2 && hex_value(hex_byte(b)[0]) * 16 + hex_value(
            hex_byte(b)[1],
        ) == b,
        forall|i: int|
            0 <= i < hex_byte(b).len() ==> {
                let c = #[trigger] hex_byte(b)[i];
                '0' <= c <= '9' || 'a' <= c <= 'f'
            },
{
}

/// The hexadecimal text of two lists of bytes, one behind the other, is that of the first followed
/// by that of the second; a list of one byte has the text of the byte.
pub proof fn law_hex_bytes(a: Seq<u8>, b: Seq<u8>, byte: u8)
    ensures
        hex_bytes(a + b) == hex_bytes(a) + hex_bytes(b),
        hex_bytes(seq![byte]) == hex_byte(byte),
        hex_bytes(Seq::empty()) == Seq::<char>::empty(),
    decreases b.len(),
{
    if b.len() == 0 {
        assert(a + b =~= a);
        assert(hex_bytes(a) + hex_bytes(b) =~= hex_bytes(a));
    } else {
        law_hex_bytes(a, b.drop_last(), byte);
        assert((a + b).drop_last() =~= a + b.drop_last());
        assert((a + b).last() == b.last());
        assert(hex_bytes(a + b) =~= hex_bytes(a) + hex_bytes(b));
    }
    assert(seq![byte].drop_last() =~= Seq::empty());
    assert(hex_bytes(Seq::empty()) =~= Seq::<char>::empty());
    assert(hex_bytes(seq![byte]) =~= hex_byte(byte));
}

} // verus!
