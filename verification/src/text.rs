//! Small text helpers: comparing strings and writing numbers.
use vstd::prelude::*;

verus! {

/// Character-by-character string equality.
pub fn str_eq(a: &str, b: &str) -> (r: bool)
    ensures
        r == (a@ == b@),
{
    let n = a.unicode_len();
    if n != b.unicode_len() {
        return false;
    }
    let mut i: usize = 0;
    while i < n
        invariant
            n == a@.len(),
            n == b@.len(),
            0 <= i <= n,
            forall|k: int| 0 <= k < i ==> a@[k] == b@[k],
        decreases n - i,
    {
        if a.get_char(i) != b.get_char(i) {
            return false;
        }
        i = i + 1;
    }
    assert(a@ =~= b@);
    true
}


/// The character of a decimal digit.
pub open spec fn digit_char(d: nat) -> char {
    if d == 0 {
        '0'
    } else if d == 1 {
        '1'
    } else if d == 2 {
        '2'
    } else if d == 3 {
        '3'
    } else if d == 4 {
        '4'
    } else if d == 5 {
        '5'
    } else if d == 6 {
        '6'
    } else if d == 7 {
        '7'
    } else if d == 8 {
        '8'
    } else {
        '9'
    }
}

/// Decimal notation of `v`, without leading zeros.
pub open spec fn decimal(v: nat) -> Seq<char>
    decreases v,
{
    if v < 10 {
        seq![digit_char(v)]
    } else {
        decimal(v / 10).push(digit_char(v % 10))
    }
}

/// `s` padded on the left with zeros to at least `width` characters.
pub open spec fn zero_pad(s: Seq<char>, width: nat) -> Seq<char> {
    if s.len() >= width {
        s
    } else {
        Seq::new((width - s.len()) as nat, |i: int| '0') + s
    }
}

/// The one-character string of a decimal digit.
fn digit_str(d: u32) -> (r: &'static str)
    requires
        d < 10,
    ensures
        r@ == seq![digit_char(d as nat)],
{
    proof {
        reveal_strlit("0");
        reveal_strlit("1");
        reveal_strlit("2");
        reveal_strlit("3");
        reveal_strlit("4");
        reveal_strlit("5");
        reveal_strlit("6");
        reveal_strlit("7");
        reveal_strlit("8");
        reveal_strlit("9");
    }
    if d == 0 {
        "0"
    } else if d == 1 {
        "1"
    } else if d == 2 {
        "2"
    } else if d == 3 {
        "3"
    } else if d == 4 {
        "4"
    } else if d == 5 {
        "5"
    } else if d == 6 {
        "6"
    } else if d == 7 {
        "7"
    } else if d == 8 {
        "8"
    } else {
        "9"
    }
}

/// Appends the decimal notation of `v`.
pub fn push_decimal(out: &mut String, v: u32)
    ensures
        final(out)@ == old(out)@ + decimal(v as nat),
    decreases v,
{
    if v >= 10 {
        push_decimal(out, v / 10);
    }
    out.append(digit_str(v % 10));
    proof {
        if v >= 10 {
            assert(old(out)@ + decimal(v as nat) =~= old(out)@ + decimal((v / 10) as nat) + seq![
                digit_char((v % 10) as nat),
            ]);
        }
    }
}

/// Appends the decimal notation of `v`, padded on the left with zeros to
/// at least `width` characters.
pub fn push_padded(out: &mut String, v: u32, width: usize)
    ensures
        final(out)@ == old(out)@ + zero_pad(decimal(v as nat), width as nat),
{
    let mut digits = String::new();
    push_decimal(&mut digits, v);
    assert(digits@ =~= decimal(v as nat));
    let len = digits.as_str().unicode_len();
    let ghost start = out@;
    if len < width {
        proof {
            reveal_strlit("0");
        }
        let mut k: usize = len;
        while k < width
            invariant
                len <= k <= width,
                out@ == start + Seq::new((k - len) as nat, |i: int| '0'),
            decreases width - k,
        {
            out.append("0");
            proof {
                reveal_strlit("0");
            }
            assert(out@ =~= start + Seq::new((k + 1 - len) as nat, |i: int| '0'));
            k = k + 1;
        }
    }
    out.append(digits.as_str());
    assert(out@ =~= start + zero_pad(decimal(v as nat), width as nat)) by {
        assert(digits@.len() == len);
    }
}

/// The value of a decimal digit character, or `None` for any other character.
pub open spec fn digit_value(c: char) -> Option<nat> {
    if c == '0' {
        Some(0)
    } else if c == '1' {
        Some(1)
    } else if c == '2' {
        Some(2)
    } else if c == '3' {
        Some(3)
    } else if c == '4' {
        Some(4)
    } else if c == '5' {
        Some(5)
    } else if c == '6' {
        Some(6)
    } else if c == '7' {
        Some(7)
    } else if c == '8' {
        Some(8)
    } else if c == '9' {
        Some(9)
    } else {
        None
    }
}

/// The number a string of decimal digits reads as, most significant first,
/// or `None` when some character is not a digit.
pub open spec fn read_decimal(s: Seq<char>) -> Option<nat>
    decreases s.len(),
{
    if s.len() == 0 {
        Some(0)
    } else {
        match (read_decimal(s.drop_last()), digit_value(s.last())) {
            (Some(h), Some(d)) => Some(h * 10 + d),
            _ => None,
        }
    }
}

/// Law: decimal notation reads back as its number. It is one digit for a
/// number below ten, at most two below a hundred, and starts with a zero
/// only for zero itself.
pub proof fn lemma_decimal_reads_back(v: nat)
    ensures
        read_decimal(decimal(v)) == Some(v),
        decimal(v).len() >= 1,
        v < 10 ==> decimal(v).len() == 1,
        v < 100 ==> decimal(v).len() <= 2,
        v < 1000 ==> decimal(v).len() <= 3,
        decimal(v)[0] == '0' ==> v == 0,
    decreases v,
{
    assert(digit_value(digit_char(v % 10)) == Some((v % 10) as nat));
    if v >= 10 {
        lemma_decimal_reads_back(v / 10);
        let s = decimal(v);
        assert(s.drop_last() =~= decimal(v / 10));
        assert(s.last() == digit_char(v % 10));
        vstd::arithmetic::div_mod::lemma_fundamental_div_mod(v as int, 10);
        assert(s[0] == decimal(v / 10)[0]);
        assert(read_decimal(s.drop_last()) == Some((v / 10) as nat));
        assert(read_decimal(s) == Some(((v / 10) * 10 + v % 10) as nat));
        assert((v / 10) * 10 + v % 10 == v);
    } else {
        assert(decimal(v).drop_last() =~= Seq::<char>::empty());
        assert(v % 10 == v);
        assert(decimal(v).last() == digit_char(v));
        assert(read_decimal(decimal(v).drop_last()) == Some(0nat));
        assert(read_decimal(decimal(v)) == Some(v));
    }
}

/// Law: padding with zeros on the left keeps the number a string reads as,
/// and makes the string at least as long as asked.
pub proof fn lemma_zero_pad_reads_same(s: Seq<char>, width: nat)
    ensures
        read_decimal(zero_pad(s, width)) == read_decimal(s),
        zero_pad(s, width).len() == if s.len() >= width {
            s.len() as int
        } else {
            width as int
        },
    decreases s.len(),
{
    if s.len() < width {
        let z = Seq::new((width - s.len()) as nat, |i: int| '0');
        if s.len() == 0 {
            lemma_zeros_read_zero((width - s.len()) as nat);
            assert(z + s =~= z);
        } else {
            lemma_zero_pad_reads_same(s.drop_last(), (width - 1) as nat);
            assert((z + s).drop_last() =~= zero_pad(s.drop_last(), (width - 1) as nat));
            assert((z + s).last() == s.last());
        }
    }
}

/// A string of zeros reads as zero.
proof fn lemma_zeros_read_zero(n: nat)
    ensures
        read_decimal(Seq::new(n, |i: int| '0')) == Some(0nat),
    decreases n,
{
    if n > 0 {
        lemma_zeros_read_zero((n - 1) as nat);
        assert(Seq::new(n, |i: int| '0').drop_last() =~= Seq::new((n - 1) as nat, |i: int| '0'));
    }
}

} // verus!
