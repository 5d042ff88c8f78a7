//! Reading and writing numbers.
use vstd::prelude::*;
use vstd::slice::slice_subrange;
use vstd::string::*;

verus! {

/// The digit of a value below sixteen.
pub open spec fn digit(d: int) -> char {
    if d < 10 {
        (0x30 + d) as char
    } else {
        (0x61 + d - 10) as char
    }
}

/// A number written in a base, without leading zeros.
pub open spec fn digits_of(n: nat, base: nat) -> Seq<char>
    decreases n,
{
    if base < 2 || n < base {
        seq![digit(n as int)]
    } else {
        proof {
            assert(n / base < n) by (nonlinear_arith)
                requires
                    n >= base,
                    base >= 2,
            ;
        }
        digits_of(n / base, base).push(digit((n % base) as int))
    }
}

/// Bytes written as two hexadecimal digits each.
pub open spec fn hex_of(data: Seq<u8>) -> Seq<char>
    decreases data.len(),
{
    if data.len() == 0 {
        Seq::empty()
    } else {
        hex_of(data.drop_last()).push(digit((data.last() / 16) as int)).push(
            digit((data.last() % 16) as int),
        )
    }
}

fn digit_text(d: u8) -> (r: &'static str)
    requires
        d < 16,
    ensures
        r@ == seq![digit(d as int)],
{
    proof {
        reveal_strlit("0");
        reveal_strlit("1");
        reveal_strlit("2");
        reveal_strlit("3");
        reveal_strlit("4");
        reveal_strlit("5");
        reveal_strlit("6");
        reveal_strlit("7");
        reveal_strlit("8");
        reveal_strlit("9");
        reveal_strlit("a");
        reveal_strlit("b");
        reveal_strlit("c");
        reveal_strlit("d");
        reveal_strlit("e");
        reveal_strlit("f");
    }
    let r: &'static str = match d {
        0 => "0",
        1 => "1",
        2 => "2",
        3 => "3",
        4 => "4",
        5 => "5",
        6 => "6",
        7 => "7",
        8 => "8",
        9 => "9",
        10 => "a",
        11 => "b",
        12 => "c",
        13 => "d",
        14 => "e",
        _ => "f",
    };
    assert(r@ =~= seq![digit(d as int)]);
    r
}

/// A number written in a base up to sixteen.
pub fn write_number(n: u64, base: u64) -> (r: String)
    requires
        2 <= base <= 16,
    ensures
        r@ == digits_of(n as nat, base as nat),
    decreases n,
{
    if n < base {
        let r: String = digit_text(n as u8).to_owned();
        r
    } else {
        assert(n / base < n) by (nonlinear_arith)
            requires
                n >= base,
                base >= 2,
        ;
        let mut r: String = write_number(n / base, base);
        let d: u64 = n % base;
        let ghost head = r@;
        r.append(digit_text(d as u8));
        assert(r@ =~= head.push(digit(d as int)));
        r
    }
}

/// A number written in base ten.
pub fn decimal(n: usize) -> (r: String)
    ensures
        r@ == digits_of(n as nat, 10),
{
    write_number(n as u64, 10)
}

/// Bytes written as two hexadecimal digits each.
pub fn hex(data: &[u8]) -> (r: String)
    ensures
        r@ == hex_of(data@),
{
    let mut r: String = String::new();
    let mut i: usize = 0;
    assert(data@.take(0) =~= Seq::<u8>::empty());
    while i < data.len()
        invariant
            i <= data@.len(),
            r@ == hex_of(data@.take(i as int)),
        decreases data@.len() - i,
    {
        let b: u8 = data[i];
        let ghost head = r@;
        r.append(digit_text(b / 16));
        r.append(digit_text(b % 16));
        proof {
            assert(data@.take(i + 1).drop_last() =~= data@.take(i as int));
            assert(r@ =~= head.push(digit((b / 16) as int)).push(digit((b % 16) as int)));
        }
        i += 1;
    }
    assert(data@.take(i as int) =~= data@);
    r
}

/// A decimal digit.
pub open spec fn is_digit(b: u8) -> bool {
    0x30 <= b <= 0x39
}

/// A hexadecimal digit, in either case.
pub open spec fn is_hex_digit(b: u8) -> bool {
    is_digit(b) || 0x41 <= b <= 0x46 || 0x61 <= b <= 0x66
}

/// The number that decimal digits write.
pub open spec fn value_of(s: Seq<u8>) -> nat
    decreases s.len(),
{
    if s.len() == 0 {
        0
    } else {
        value_of(s.drop_last()) * 10 + (s.last() - 0x30) as nat
    }
}

/// The digits of a number in text: all of it, or all behind a plus sign.
pub open spec fn unsigned(s: Seq<u8>) -> Seq<u8> {
    if s.len() > 0 && s[0] == 0x2b {
        s.drop_first()
    } else {
        s
    }
}

/// The number below 2^64 that text writes: decimal digits, at least one, with or without a plus
/// sign before them, and nothing else.
pub open spec fn number_in(s: Seq<u8>) -> Option<u64> {
    let d = unsigned(s);
    if d.len() > 0 && (forall|i: int| 0 <= i < d.len() ==> is_digit(#[trigger] d[i])) && value_of(d)
        <= u64::MAX {
        Some(value_of(d) as u64)
    } else {
        None
    }
}

proof fn lemma_value_grows(s: Seq<u8>, n: int)
    requires
        0 <= n <= s.len(),
        forall|i: int| 0 <= i < s.len() ==> is_digit(#[trigger] s[i]),
    ensures
        value_of(s.take(n)) <= value_of(s),
    decreases s.len() - n,
{
    if n < s.len() {
        lemma_value_grows(s, n + 1);
        assert(s.take(n + 1).drop_last() =~= s.take(n));
    } else {
        assert(s.take(n) =~= s);
    }
}

/// The number that text writes.
pub fn read_number(s: &[u8]) -> (r: Option<u64>)
    ensures
        r == number_in(s@),
{
    let from: usize = if s.len() > 0 && s[0] == 0x2b {
        1
    } else {
        0
    };
    let d = slice_subrange(s, from, s.len());
    assert(d@ =~= unsigned(s@));
    if d.len() == 0 {
        return None;
    }
    let mut k: usize = 0;
    while k < d.len()
        invariant
            k <= d@.len(),
            d@ == unsigned(s@),
            forall|i: int| 0 <= i < k ==> is_digit(#[trigger] d@[i]),
        decreases d@.len() - k,
    {
        if d[k] < 0x30 || d[k] > 0x39 {
            assert(!is_digit(d@[k as int]));
            return None;
        }
        k += 1;
    }
    let mut value: u64 = 0;
    let mut i: usize = 0;
    assert(d@.take(0) =~= Seq::<u8>::empty());
    while i < d.len()
        invariant
            i <= d@.len(),
            d@ == unsigned(s@),
            forall|j: int| 0 <= j < d@.len() ==> is_digit(#[trigger] d@[j]),
            value == value_of(d@.take(i as int)),
        decreases d@.len() - i,
    {
        assert(is_digit(d@[i as int]));
        let x: u64 = (d[i] - 0x30) as u64;
        proof {
            assert(d@.take(i + 1).drop_last() =~= d@.take(i as int));
            lemma_value_grows(d@, i + 1);
        }
        if value > (u64::MAX - x) / 10 {
            return None;
        }
        value = value * 10 + x;
        i += 1;
    }
    assert(d@.take(i as int) =~= d@);
    Some(value)
}

/// The digits of a value below sixteen are `0` to `9` and then `a` to `f`.
pub proof fn law_digits_are_lower_case(d: int)
    requires
        0 <= d < 16,
    ensures
        d < 10 ==> digit(d) as u32 == 0x30 + d,
        d >= 10 ==> digit(d) as u32 == 0x61 + (d - 10),
{
}

/// A number below the base is written as its digit, and each further digit is written behind
/// those of the number that it makes larger, up to the last one.
pub proof fn law_digits_are_written_in_order(n: nat, d: nat, base: nat)
    requires
        2 <= base <= 16,
        d < base,
    ensures
        digits_of(d, base) == seq![digit(d as int)],
        n > 0 ==> digits_of(n * base + d, base) == digits_of(n, base).push(digit(d as int)),
{
    if n > 0 {
        let m = n * base + d;
        assert(m >= base && m / base == n && m % base == d) by {
            vstd::arithmetic::div_mod::lemma_fundamental_div_mod_converse(
                m as int,
                base as int,
                n as int,
                d as int,
            );
            assert(n * base >= base) by (nonlinear_arith)
                requires
                    n > 0,
            ;
        }
    }
}

/// Bytes are written one after the other, each as the digit of its upper half and then that of
/// its lower half.
pub proof fn law_bytes_are_written_one_after_the_other(a: Seq<u8>, x: u8, b: Seq<u8>)
    ensures
        hex_of(Seq::empty()) == Seq::<char>::empty(),
        hex_of(seq![x]) == seq![digit((x / 16) as int), digit((x % 16) as int)],
        hex_of(a + b) == hex_of(a) + hex_of(b),
    decreases b.len(),
{
    reveal_with_fuel(hex_of, 2);
    assert(seq![x].drop_last() =~= Seq::<u8>::empty());
    assert(hex_of(seq![x]) =~= seq![digit((x / 16) as int), digit((x % 16) as int)]);
    if b.len() == 0 {
        assert(a + b =~= a);
        assert(hex_of(a) + hex_of(b) =~= hex_of(a));
    } else {
        law_bytes_are_written_one_after_the_other(a, x, b.drop_last());
        assert((a + b).drop_last() =~= a + b.drop_last());
        assert(hex_of(a + b) =~= hex_of(a) + hex_of(b));
    }
}

/// Different bytes are written differently.
pub proof fn law_writing_bytes_loses_nothing(a: Seq<u8>, b: Seq<u8>)
    requires
        hex_of(a) == hex_of(b),
    ensures
        a == b,
    decreases a.len(),
{
    lemma_hex_length(a);
    lemma_hex_length(b);
    if a.len() > 0 {
        let n = hex_of(a).len();
        let (x, y) = (a.last(), b.last());
        assert(b.len() > 0);
        let (p, q) = (hex_of(a.drop_last()), hex_of(b.drop_last()));
        assert(hex_of(a) == p.push(digit((x / 16) as int)).push(digit((x % 16) as int)));
        assert(hex_of(b) == q.push(digit((y / 16) as int)).push(digit((y % 16) as int)));
        assert(hex_of(a)[n - 1] == digit((x % 16) as int));
        assert(hex_of(b)[n - 1] == digit((y % 16) as int));
        assert(hex_of(a)[n - 2] == digit((x / 16) as int));
        assert(hex_of(b)[n - 2] == digit((y / 16) as int));
        law_digits_are_lower_case((x / 16) as int);
        law_digits_are_lower_case((x % 16) as int);
        law_digits_are_lower_case((y / 16) as int);
        law_digits_are_lower_case((y % 16) as int);
        assert(digit((x / 16) as int) == digit((y / 16) as int));
        assert(digit((x % 16) as int) == digit((y % 16) as int));
        assert(x == 16 * (x / 16) + x % 16);
        assert(y == 16 * (y / 16) + y % 16);
        assert(hex_of(a.drop_last()) =~= hex_of(a).take(n - 2));
        assert(hex_of(b.drop_last()) =~= hex_of(b).take(n - 2));
        law_writing_bytes_loses_nothing(a.drop_last(), b.drop_last());
        assert(a =~= a.drop_last().push(x));
        assert(b =~= b.drop_last().push(y));
    } else {
        assert(a =~= b);
    }
}

proof fn lemma_hex_length(data: Seq<u8>)
    ensures
        hex_of(data).len() == 2 * data.len(),
    decreases data.len(),
{
    if data.len() > 0 {
        lemma_hex_length(data.drop_last());
    }
}

/// A digit makes the number before it ten times as large and is added to it, as long as that is
/// below 2^64. A plus sign may stand before it all. Nothing else is a number.
pub proof fn law_digits_are_read_in_order(s: Seq<u8>, x: u8, k: int)
    ensures
        number_in(Seq::empty()) is None,
        0x30 <= x <= 0x39 ==> number_in(seq![x]) == Some((x - 0x30) as u64),
        0x30 <= x <= 0x39 && number_in(s) is Some ==> number_in(s.push(x)) == if number_in(s)->0
            * 10 + (x - 0x30) <= u64::MAX {
            Some((number_in(s)->0 * 10 + (x - 0x30)) as u64)
        } else {
            None
        },
        s.len() > 0 && s[0] != 0x2b ==> number_in(seq![0x2bu8] + s) == number_in(s),
        s.len() > 0 && number_in(s.drop_last()) is None && s.len() > 1 && !(s.len() == 2 && s[0]
            == 0x2b) ==> number_in(s) is None,
        0 <= k < s.len() && !(0x30 <= s[k] <= 0x39) && !(k == 0 && s[k] == 0x2b) ==> number_in(
            s,
        ) is None,
{
    let one = seq![x];
    reveal_with_fuel(value_of, 2);
    assert(unsigned(Seq::<u8>::empty()) =~= Seq::<u8>::empty());
    assert(one.drop_last() =~= Seq::<u8>::empty());
    if 0x30 <= x <= 0x39 {
        assert(unsigned(one) =~= one);
        assert(value_of(one) == x - 0x30);
        assert forall|i: int| 0 <= i < one.len() implies is_digit(#[trigger] one[i]) by {}
    }
    let t = s.push(x);
    if number_in(s) is Some {
        let d = unsigned(s);
        assert(unsigned(t) =~= d.push(x));
        assert(d.push(x).drop_last() =~= d);
        if 0x30 <= x <= 0x39 {
            assert forall|i: int| 0 <= i < d.push(x).len() implies is_digit(
                #[trigger] d.push(x)[i],
            ) by {
                if i < d.len() {
                    assert(is_digit(d[i]));
                }
            }
        }
    }
    if s.len() > 0 && s[0] != 0x2b {
        assert((seq![0x2bu8] + s).drop_first() =~= s);
    }
    if s.len() > 1 && !(s.len() == 2 && s[0] == 0x2b) && number_in(s) is Some {
        let d = unsigned(s);
        let e = unsigned(s.drop_last());
        assert(e =~= d.drop_last());
        assert forall|i: int| 0 <= i < e.len() implies is_digit(#[trigger] e[i]) by {
            assert(is_digit(d[i]));
        }
        assert(is_digit(d[d.len() - 1]));
    }
    if 0 <= k < s.len() && number_in(s) is Some {
        let d = unsigned(s);
        if s[0] == 0x2b {
            if k > 0 {
                assert(is_digit(d[k - 1]));
            }
        } else {
            assert(is_digit(d[k]));
        }
    }
}

} // verus!
