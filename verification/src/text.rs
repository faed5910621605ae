//! Decimal text of integers.
use vstd::prelude::*;
use vstd::string::*;

verus! {

/// The character of a decimal digit.
pub open spec fn digit(d: int) -> char {
    (48 + d) as char
}

/// A natural number in decimal.
pub open spec fn decimal(n: int) -> Seq<char>
    decreases n,
{
    if n < 10 {
        seq![digit(n)]
    } else {
        decimal(n / 10).push(digit(n % 10))
    }
}

/// An integer in decimal, with a sign where it is negative.
pub open spec fn signed_decimal(n: int) -> Seq<char> {
    if n < 0 {
        seq!['-'] + decimal(-n)
    } else {
        decimal(n)
    }
}

/// Numbers in decimal between brackets, separated by a comma and a space.
pub open spec fn list_body(s: Seq<usize>) -> Seq<char>
    decreases s.len(),
{
    if s.len() == 0 {
        seq![]
    } else if s.len() == 1 {
        decimal(s[0] as int)
    } else {
        list_body(s.drop_last()) + seq![',', ' '] + decimal(s.last() as int)
    }
}

pub open spec fn list_text(s: Seq<usize>) -> Seq<char> {
    seq!['['] + list_body(s) + seq![']']
}

fn digit_text(d: u128) -> (r: &'static str)
    requires
        d < 10,
    ensures
        r@ == seq![digit(d as int)],
{
    proof {
        reveal_strlit("0");
        reveal_strlit("1");
        reveal_strlit("2");
        reveal_strlit("3");
        reveal_strlit("4");
        reveal_strlit("5");
        reveal_strlit("6");
        reveal_strlit("7");
        reveal_strlit("8");
        reveal_strlit("9");
    }
    match d {
        0 => "0",
        1 => "1",
        2 => "2",
        3 => "3",
        4 => "4",
        5 => "5",
        6 => "6",
        7 => "7",
        8 => "8",
        _ => "9",
    }
}

/// The decimal text of an unsigned integer.
pub fn unsigned_text(n: u128) -> (r: String)
    ensures
        r@ == decimal(n as int),
    decreases n,
{
    if n < 10 {
        String::from_str(digit_text(n))
    } else {
        let mut r = unsigned_text(n / 10);
        r.append(digit_text(n % 10));
        proof {
            assert(r@ =~= decimal(n as int / 10).push(digit(n as int % 10)));
        }
        r
    }
}

/// The decimal text of an integer.
pub fn signed_text(n: i128) -> (r: String)
    ensures
        r@ == signed_decimal(n as int),
{
    if n < 0 {
        let size: u128 = (-(n + 1)) as u128 + 1;
        let mut r = String::from_str("-");
        r.append(unsigned_text(size).as_str());
        proof {
            reveal_strlit("-");
            assert(r@ =~= seq!['-'] + decimal(-(n as int)));
        }
        r
    } else {
        unsigned_text(n as u128)
    }
}

/// The text of a list of sizes.
pub fn sizes_text(s: &Vec<usize>) -> (r: String)
    ensures
        r@ == list_text(s@),
{
    let mut r = String::from_str("[");
    let mut i: usize = 0;
    proof {
        reveal_strlit("[");
        reveal_strlit(", ");
        reveal_strlit("]");
        assert(s@.take(0) =~= Seq::empty());
        assert(r@ =~= seq!['['] + list_body(s@.take(0)));
    }
    while i < s.len()
        invariant
            i <= s@.len(),
            r@ == seq!['['] + list_body(s@.take(i as int)),
        decreases s@.len() - i,
    {
        proof {
            reveal_strlit(", ");
            assert(s@.take(i + 1).drop_last() =~= s@.take(i as int));
            assert(s@.take(i + 1).last() == s@[i as int]);
            if i == 0 {
                assert(s@.take(1)[0] == s@[0]);
            }
        }
        if i > 0 {
            r.append(", ");
        }
        r.append(unsigned_text(s[i] as u128).as_str());
        proof {
            let head = list_body(s@.take(i as int));
            let num = decimal(s@[i as int] as int);
            if i > 0 {
                assert(list_body(s@.take(i + 1)) == head + seq![',', ' '] + num);
                assert(r@ =~= seq!['['] + (head + seq![',', ' '] + num));
            } else {
                assert(s@.take(0) =~= Seq::empty());
                assert(r@ =~= seq!['['] + num);
            }
        }
        i += 1;
    }
    r.append("]");
    proof {
        reveal_strlit("]");
        assert(s@.take(i as int) =~= s@);
        assert(r@ =~= list_text(s@));
    }
    r
}

/// The number that decimal digits write.
pub open spec fn read_decimal(s: Seq<char>) -> int
    decreases s.len(),
{
    if s.len() == 0 {
        0
    } else {
        10 * read_decimal(s.drop_last()) + (s.last() as int - 48)
    }
}

/// A decimal text reads back as its number, consists of digits, and has a leading zero only where
/// it is that zero.
pub proof fn lemma_decimal_reads_back(n: int)
    requires
        n >= 0,
    ensures
        read_decimal(decimal(n)) == n,
        decimal(n).len() > 0,
        forall|i: int| 0 <= i < decimal(n).len() ==> '0' <= #[trigger] decimal(n)[i] <= '9',
        decimal(n)[0] == '0' ==> n == 0 && decimal(n).len() == 1,
    decreases n,
{
    if n < 10 {
        assert(decimal(n).drop_last() =~= Seq::<char>::empty());
        reveal_with_fuel(read_decimal, 2);
    } else {
        lemma_decimal_reads_back(n / 10);
        assert(decimal(n).drop_last() =~= decimal(n / 10));
    }
}

/// A negative number's text is a minus sign and the text of its size; no two numbers have one
/// text.
pub proof fn lemma_signed_decimal(m: int, n: int)
    ensures
        n < 0 ==> signed_decimal(n) == seq!['-'] + signed_decimal(-n),
        n >= 0 ==> read_decimal(signed_decimal(n)) == n,
        signed_decimal(m) == signed_decimal(n) ==> m == n,
{
    let (a, b) = (if m < 0 { -m } else { m }, if n < 0 { -n } else { n });
    lemma_decimal_reads_back(a);
    lemma_decimal_reads_back(b);
    if signed_decimal(m) == signed_decimal(n) {
        if m < 0 && n < 0 {
            assert(signed_decimal(m).skip(1) =~= decimal(a));
            assert(signed_decimal(n).skip(1) =~= decimal(b));
        } else if m < 0 || n < 0 {
            assert(signed_decimal(m)[0] == signed_decimal(n)[0]);
        }
    }
}

/// Lists are written between brackets, item after item with a comma and a space between.
pub proof fn lemma_list_text(s: Seq<usize>, t: Seq<usize>, n: usize)
    requires
        s.len() > 0,
        t.len() > 0,
    ensures
        list_text(Seq::<usize>::empty()) == seq!['[', ']'],
        list_text(seq![n]) == seq!['['] + decimal(n as int) + seq![']'],
        list_body(s + t) == list_body(s) + seq![',', ' '] + list_body(t),
        list_text(s) == seq!['['] + list_body(s) + seq![']'],
    decreases t.len(),
{
    assert(list_text(Seq::<usize>::empty()) =~= seq!['[', ']']);
    assert((s + t).drop_last() =~= s + t.drop_last());
    assert((s + t).last() == t.last());
    let comma = seq![',', ' '];
    if t.len() == 1 {
        assert(s + t.drop_last() =~= s);
    } else {
        let rest = t.drop_last();
        lemma_list_text(s, rest, n);
        assert(list_body(s + t) =~= list_body(s) + comma + (list_body(rest) + comma + decimal(
            t.last() as int,
        )));
    }
}

} // verus!
