//! Text that the library composes: decimal numbers, labels and paths.

use vstd::prelude::*;
use vstd::string::*;

verus! {

/// The character of a decimal digit.
pub open spec fn digit(d: nat) -> char {
    (('0' as nat) + d) as char
}

/// `n` written in decimal, without leading zeros.
pub open spec fn decimal(n: nat) -> Seq<char>
    decreases n,
{
    if n < 10 {
        seq![digit(n)]
    } else {
        decimal(n / 10).push(digit(n % 10))
    }
}

/// Different numbers are written differently.
pub proof fn lemma_decimal_distinct(a: nat, b: nat)
    ensures
        decimal(a) == decimal(b) ==> a == b,
    decreases a,
{
    lemma_decimal_nonempty(a);
    lemma_decimal_nonempty(b);
    if decimal(a) == decimal(b) {
        assert(decimal(a).last() == digit(a % 10));
        assert(decimal(b).last() == digit(b % 10));
        assert(a % 10 == b % 10);
        if a >= 10 && b >= 10 {
            assert(decimal(a).drop_last() =~= decimal(a / 10));
            assert(decimal(b).drop_last() =~= decimal(b / 10));
            lemma_decimal_distinct(a / 10, b / 10);
        } else if a >= 10 {
            lemma_decimal_nonempty(a / 10);
            assert(decimal(b).len() == 1);
        } else if b >= 10 {
            lemma_decimal_nonempty(b / 10);
            assert(decimal(a).len() == 1);
        }
    }
}

/// A number takes at least one digit.
proof fn lemma_decimal_nonempty(n: nat)
    ensures
        decimal(n).len() > 0,
{
}

/// The text of one decimal digit.
fn digit_text(d: u64) -> (r: &'static str)
    requires
        d < 10,
    ensures
        r@ == seq![digit(d as nat)],
{
    proof {
        reveal_strlit("0");
        reveal_strlit("1");
        reveal_strlit("2");
        reveal_strlit("3");
        reveal_strlit("4");
        reveal_strlit("5");
        reveal_strlit("6");
        reveal_strlit("7");
        reveal_strlit("8");
        reveal_strlit("9");
    }
    match d {
        0 => "0",
        1 => "1",
        2 => "2",
        3 => "3",
        4 => "4",
        5 => "5",
        6 => "6",
        7 => "7",
        8 => "8",
        _ => "9",
    }
}

/// Append `n` in decimal.
pub fn push_decimal(out: &mut String, n: u64)
    ensures
        final(out)@ == old(out)@ + decimal(n as nat),
    decreases n,
{
    if n >= 10 {
        push_decimal(out, n / 10);
    }
    out.append(digit_text(n % 10));
}

/// Put `leaf` below the directory `base`.
///
/// A separator goes between the two unless `base` is empty or ends in one.
pub open spec fn joined_path(base: Seq<char>, leaf: Seq<char>) -> Seq<char> {
    if base.len() == 0 || base.last() == '/' {
        base + leaf
    } else {
        base + seq!['/'] + leaf
    }
}

/// Put `leaf` below the directory `base`.
pub fn join_path(base: &str, leaf: &str) -> (path: String)
    ensures
        path@ == joined_path(base@, leaf@),
{
    let mut path = String::new();
    path.append(base);
    let n: usize = base.unicode_len();
    if n > 0 && base.get_char(n - 1) != '/' {
        proof {
            reveal_strlit("/");
        }
        path.append("/");
        assert("/"@ =~= seq!['/']);
    }
    path.append(leaf);
    path
}

/// The number that decimal digits stand for.
pub open spec fn number_of(digits: Seq<char>) -> nat
    decreases digits.len(),
{
    if digits.len() == 0 {
        0
    } else {
        number_of(digits.drop_last()) * 10 + (digits.last() as nat - '0' as nat) as nat
    }
}

/// Whether text is a number in decimal digits, without a needless zero in front.
pub open spec fn reads_as(text: Seq<char>, n: nat) -> bool {
    &&& text.len() > 0
    &&& forall|i: int| 0 <= i < text.len() ==> '0' <= #[trigger] text[i] <= '9'
    &&& text.len() > 1 ==> text[0] != '0'
    &&& number_of(text) == n
}

/// What is written in decimal reads back as the number.
pub proof fn law_decimal_reads_back(n: nat)
    ensures
        reads_as(decimal(n), n),
        n > 0 ==> decimal(n)[0] != '0',
    decreases n,
{
    let text = decimal(n);
    if n >= 10 {
        law_decimal_reads_back(n / 10);
        assert(text.drop_last() =~= decimal(n / 10));
        assert(text[0] == decimal(n / 10)[0]);
        assert forall|i: int| 0 <= i < text.len() implies '0' <= #[trigger] text[i] <= '9' by {
            if i < text.len() - 1 {
                assert(text[i] == decimal(n / 10)[i]);
            }
        }
    } else {
        assert(text.drop_last() =~= Seq::<char>::empty());
        assert(number_of(text.drop_last()) == 0);
    }
}

/// A number is written behind the text, in decimal digits.
pub proof fn law_number_is_written_behind(out: &mut String, n: u64)
    requires
        call_ensures(push_decimal, (out, n), ()),
    ensures
        final(out)@.len() > old(out)@.len(),
        final(out)@.take(old(out)@.len() as int) == old(out)@,
        reads_as(final(out)@.skip(old(out)@.len() as int), n as nat),
{
    law_decimal_reads_back(n as nat);
    assert(final(out)@.take(old(out)@.len() as int) =~= old(out)@);
    assert(final(out)@.skip(old(out)@.len() as int) =~= decimal(n as nat));
}

/// A joined path begins with the one and ends with the other, and there is a slash
/// between them, and no more than was there already, or one.
pub proof fn law_joined_path(base: &str, leaf: &str, path: String)
    requires
        call_ensures(join_path, (base, leaf), path),
    ensures
        path@.take(base@.len() as int) == base@,
        path@.skip(path@.len() - leaf@.len()) == leaf@,
        base@.len() > 0 ==> path@[path@.len() - leaf@.len() - 1] == '/',
        path@.len() == base@.len() + leaf@.len() + (if base@.len() == 0 || base@[base@.len() - 1]
            == '/' {
            0int
        } else {
            1
        }),
{
    assert(path@.take(base@.len() as int) =~= base@);
    assert(path@.skip(path@.len() - leaf@.len()) =~= leaf@);
}

} // verus!
