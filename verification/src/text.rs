//! Short strings, held as `smol_str::SmolStr`.

use smol_str::SmolStr;
use vstd::prelude::*;
use vstd::string::StringExecFns;

verus! {

/// Declares `smol_str::SmolStr`, an immutable string.
#[verifier::external_type_specification]
#[verifier::external_body]
pub struct ExSmolStr(smol_str::SmolStr);

/// The characters that a `SmolStr` holds.
pub uninterp spec fn smol_str_chars(s: SmolStr) -> Seq<char>;

/// Calls `SmolStr::new`, which copies the text it is given.
#[verifier::external_body]
pub(crate) fn smol_str(text: &str) -> (s: SmolStr)
    ensures
        smol_str_chars(s) == text@,
{
    SmolStr::new(text)
}

/// `SmolStr::as_str` borrows the text that the string holds.
pub assume_specification[ SmolStr::as_str ](s: &SmolStr) -> (borrowed: &str)
    ensures
        borrowed@ == smol_str_chars(*s),
;

/// `SmolStr::clone` copies an inline or static string bit by bit and shares a
/// heap-allocated one, so the clone is the same string.
pub assume_specification[ <SmolStr as Clone>::clone ](s: &SmolStr) -> (copy: SmolStr)
    ensures
        copy == *s,
;

/// Compares two string slices with std's `==`, which is equality of their
/// texts.
#[verifier::external_body]
pub(crate) fn str_eq(a: &str, b: &str) -> (equal: bool)
    ensures
        equal == (a@ == b@),
{
    a == b
}

/// The decimal digit of a number below ten.
pub open spec fn digit(d: int) -> char {
    (0x30 + d) as char
}

/// A natural number in decimal.
pub open spec fn decimal(n: nat) -> Seq<char>
    decreases n,
{
    if n < 10 {
        seq![digit(n as int)]
    } else {
        decimal(n / 10).push(digit((n % 10) as int))
    }
}

/// An integer in decimal.
pub open spec fn signed_decimal(n: int) -> Seq<char> {
    if n < 0 {
        seq!['-'] + decimal((-n) as nat)
    } else {
        decimal(n as nat)
    }
}

/// Integers in decimal, with a comma and a space between them.
pub open spec fn comma_separated(list: Seq<i64>) -> Seq<char>
    decreases list.len(),
{
    if list.len() == 0 {
        Seq::empty()
    } else if list.len() == 1 {
        signed_decimal(list[0] as int)
    } else {
        comma_separated(list.drop_last()) + seq![',', ' '] + signed_decimal(list.last() as int)
    }
}

/// The number that decimal digits stand for.
pub open spec fn number_read(digits: Seq<char>) -> int
    decreases digits.len(),
{
    if digits.len() == 0 {
        0
    } else {
        10 * number_read(digits.drop_last()) + (digits.last() as int - '0' as int)
    }
}

/// A number in decimal reads back as that number, consists of digits alone and
/// has no leading zero.
pub proof fn decimals_read_back(n: nat)
    ensures
        number_read(decimal(n)) == n,
        decimal(n).len() > 0,
        forall|i: int| 0 <= i < decimal(n).len() ==> '0' <= #[trigger] decimal(n)[i] <= '9',
        n > 0 ==> decimal(n)[0] != '0',
        n == 0 ==> decimal(n).len() == 1,
    decreases n,
{
    if n < 10 {
        let last = decimal(n);
        assert(last.drop_last() =~= Seq::empty());
        assert(number_read(last.drop_last()) == 0);
        assert(last.last() as int == 0x30 + n);
    } else {
        decimals_read_back(n / 10);
        let before = decimal(n / 10);
        let all = decimal(n);
        assert(all.drop_last() =~= before);
        assert(all.last() as int == 0x30 + n % 10);
        assert forall|i: int| 0 <= i < all.len() implies '0' <= #[trigger] all[i] <= '9' by {
            if i < before.len() {
                assert(all[i] == before[i]);
            }
        }
        assert(all[0] == before[0]);
    }
}

/// An integer in decimal has a minus sign exactly if it is negative, and reads
/// back as its distance from zero.
pub proof fn signed_decimals_read_back(n: int)
    ensures
        n >= 0 ==> number_read(signed_decimal(n)) == n,
        n < 0 ==> signed_decimal(n)[0] == '-' && number_read(signed_decimal(n).skip(1)) == -n,
        n >= 0 ==> signed_decimal(n)[0] != '-',
{
    if n < 0 {
        decimals_read_back((-n) as nat);
        assert(signed_decimal(n).skip(1) =~= decimal((-n) as nat));
    } else {
        decimals_read_back(n as nat);
    }
}

/// Every further number of a list is set off by a comma and a space.
pub proof fn lists_grow_by_one_number(list: Seq<i64>, n: i64)
    ensures
        comma_separated(Seq::empty()).len() == 0,
        list.len() == 0 ==> comma_separated(list.push(n)) == signed_decimal(n as int),
        list.len() > 0 ==> comma_separated(list.push(n)) == comma_separated(list) + seq![',', ' ']
            + signed_decimal(n as int),
{
    assert(list.push(n).drop_last() =~= list);
}

fn digit_str(d: u64) -> (s: &'static str)
    requires
        d < 10,
    ensures
        s@ == seq![digit(d as int)],
{
    proof {
        reveal_strlit("0");
        reveal_strlit("1");
        reveal_strlit("2");
        reveal_strlit("3");
        reveal_strlit("4");
        reveal_strlit("5");
        reveal_strlit("6");
        reveal_strlit("7");
        reveal_strlit("8");
        reveal_strlit("9");
    }
    let s: &'static str = match d {
        0 => "0",
        1 => "1",
        2 => "2",
        3 => "3",
        4 => "4",
        5 => "5",
        6 => "6",
        7 => "7",
        8 => "8",
        _ => "9",
    };
    assert(s@ =~= seq![digit(d as int)]);
    s
}

/// Append a number in decimal.
pub(crate) fn push_decimal(out: &mut String, n: u64)
    ensures
        final(out)@ == old(out)@ + decimal(n as nat),
    decreases n,
{
    if n >= 10 {
        push_decimal(out, n / 10);
    }
    out.append(digit_str(n % 10));
    assert(out@ =~= old(out)@ + decimal(n as nat));
}

/// Append an integer in decimal.
pub(crate) fn push_signed_decimal(out: &mut String, n: i64)
    ensures
        final(out)@ == old(out)@ + signed_decimal(n as int),
{
    if n < 0 {
        proof {
            reveal_strlit("-");
        }
        out.append("-");
        push_decimal(out, (-(n as i128)) as u64);
        assert(out@ =~= old(out)@ + signed_decimal(n as int));
    } else {
        push_decimal(out, n as u64);
    }
}

/// Append integers in decimal, with a comma and a space between them.
pub(crate) fn push_comma_separated(out: &mut String, list: &[i64])
    ensures
        final(out)@ == old(out)@ + comma_separated(list@),
{
    let mut i: usize = 0;
    assert(out@ =~= old(out)@ + comma_separated(list@.take(0)));
    while i < list.len()
        invariant
            i <= list@.len(),
            out@ == old(out)@ + comma_separated(list@.take(i as int)),
        decreases list@.len() - i,
    {
        proof {
            reveal_strlit(", ");
            assert(list@.take(i + 1).drop_last() =~= list@.take(i as int));
            assert(list@.take(i + 1).last() == list@[i as int]);
        }
        if i > 0 {
            out.append(", ");
        }
        push_signed_decimal(out, list[i]);
        assert(out@ =~= old(out)@ + comma_separated(list@.take(i + 1)));
        i += 1;
    }
    assert(list@.take(i as int) =~= list@);
}

} // verus!
