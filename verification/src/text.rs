use vstd::prelude::*;

verus! {

/// The character of a decimal digit.
pub open spec fn digit_char(d: nat) -> char {
    (48 + d) as char
}

/// The decimal digits of `n`, most significant first, without leading zeros.
pub open spec fn decimal(n: nat) -> Seq<char>
    decreases n,
{
    if n < 10 {
        seq![digit_char(n)]
    } else {
        decimal(n / 10).push(digit_char(n % 10))
    }
}

/// The decimal digits of `n`, with zeros in front up to `width` characters.
pub open spec fn zero_padded(n: nat, width: nat) -> Seq<char> {
    let digits = decimal(n);
    if digits.len() < width {
        Seq::new((width - digits.len()) as nat, |i: int| '0') + digits
    } else {
        digits
    }
}

/// The number that a sequence of decimal digit characters spells.
pub open spec fn decimal_value(digits: Seq<char>) -> int
    decreases digits.len(),
{
    if digits.len() == 0 {
        0
    } else {
        decimal_value(digits.drop_last()) * 10 + (digits.last() as int - 48)
    }
}

/// The decimal digits of `n` spell `n`.
pub proof fn lemma_decimal_value(n: nat)
    ensures
        decimal_value(decimal(n)) == n,
        decimal(n).len() >= 1,
        forall|i: int| 0 <= i < decimal(n).len() ==> '0' <= #[trigger] decimal(n)[i] <= '9',
    decreases n,
{
    assert(digit_char(n % 10) as int == 48 + n % 10);
    if n < 10 {
        assert(decimal(n).drop_last() =~= Seq::<char>::empty());
        assert(decimal_value(decimal(n).drop_last()) == 0);
    }
    if n >= 10 {
        lemma_decimal_value(n / 10);
        let prefix = decimal(n / 10);
        assert(decimal(n).drop_last() =~= prefix);
        assert(decimal(n).last() == digit_char(n % 10));
        assert(decimal_value(decimal(n)) == decimal_value(prefix) * 10 + (n % 10));
        assert((n / 10) * 10 + n % 10 == n) by (nonlinear_arith);
        assert forall|i: int| 0 <= i < decimal(n).len() implies '0' <= #[trigger] decimal(n)[i]
            <= '9' by {
            if i < prefix.len() {
                assert(decimal(n)[i] == prefix[i]);
            }
        }
    }
}

/// Leading zeros do not change the number that digits spell.
pub proof fn lemma_leading_zeros(count: nat, digits: Seq<char>)
    ensures
        decimal_value(Seq::new(count, |i: int| '0') + digits) == decimal_value(digits),
    decreases digits.len(),
{
    let zeros = Seq::new(count, |i: int| '0');
    if digits.len() == 0 {
        assert(zeros + digits =~= zeros);
        lemma_zeros_value(count);
    } else {
        lemma_leading_zeros(count, digits.drop_last());
        assert((zeros + digits).drop_last() =~= zeros + digits.drop_last());
    }
}

/// A run of zeros spells zero.
pub proof fn lemma_zeros_value(count: nat)
    ensures
        decimal_value(Seq::new(count, |i: int| '0')) == 0,
    decreases count,
{
    if count > 0 {
        lemma_zeros_value((count - 1) as nat);
        assert(Seq::new(count, |i: int| '0').drop_last() =~= Seq::new(
            (count - 1) as nat,
            |i: int| '0',
        ));
    }
}

/// Zero-padded digits still spell the number.
pub proof fn lemma_zero_padded_value(n: nat, width: nat)
    ensures
        decimal_value(zero_padded(n, width)) == n,
        zero_padded(n, width).len() >= width,
{
    lemma_decimal_value(n);
    let digits = decimal(n);
    if digits.len() < width {
        lemma_leading_zeros((width - digits.len()) as nat, digits);
    }
}

/// Distinct numbers have distinct zero-padded digits.
pub proof fn lemma_zero_padded_injective(a: nat, b: nat, width: nat)
    requires
        zero_padded(a, width) == zero_padded(b, width),
    ensures
        a == b,
{
    lemma_zero_padded_value(a, width);
    lemma_zero_padded_value(b, width);
}

/// The text of a decimal digit.
fn digit_text(d: u64) -> (text: &'static str)
    requires
        d < 10,
    ensures
        text@ == seq![digit_char(d as nat)],
{
    proof {
        reveal_strlit("0");
        reveal_strlit("1");
        reveal_strlit("2");
        reveal_strlit("3");
        reveal_strlit("4");
        reveal_strlit("5");
        reveal_strlit("6");
        reveal_strlit("7");
        reveal_strlit("8");
        reveal_strlit("9");
    }
    match d {
        0 => "0",
        1 => "1",
        2 => "2",
        3 => "3",
        4 => "4",
        5 => "5",
        6 => "6",
        7 => "7",
        8 => "8",
        _ => "9",
    }
}

/// The number of decimal digits of `n`.
pub fn digit_count(n: u64) -> (count: u64)
    ensures
        count == decimal(n as nat).len(),
    decreases n,
{
    if n < 10 {
        1
    } else {
        proof {
            assert(power_of_ten(20) == 100_000_000_000_000_000_000) by {
                reveal_with_fuel(power_of_ten, 21);
            }
            lemma_digit_count_bound(n as nat, 20);
        }
        digit_count(n / 10) + 1
    }
}

/// Ten to the power `k`.
pub open spec fn power_of_ten(k: nat) -> nat
    decreases k,
{
    if k == 0 {
        1
    } else {
        10 * power_of_ten((k - 1) as nat)
    }
}

/// A number below `10^k` has at most `k` digits.
proof fn lemma_digit_count_bound(n: nat, k: nat)
    requires
        k >= 1,
        n < power_of_ten(k),
    ensures
        decimal(n).len() <= k,
    decreases n,
{
    if n >= 10 {
        assert(k >= 2) by {
            if k == 1 {
                assert(power_of_ten(0) == 1);
            }
        }
        assert(n / 10 < power_of_ten((k - 1) as nat));
        lemma_digit_count_bound(n / 10, (k - 1) as nat);
    }
}

/// Appends the decimal digits of `n`.
pub fn push_decimal(text: &mut String, n: u64)
    ensures
        final(text)@ == old(text)@ + decimal(n as nat),
    decreases n,
{
    if n >= 10 {
        push_decimal(text, n / 10);
    }
    text.append(digit_text(n % 10));
    proof {
        if n >= 10 {
            assert(decimal(n as nat) == decimal((n / 10) as nat).push(digit_char((n % 10) as nat)));
        }
    }
}

/// Appends the decimal digits of `n`, with zeros in front up to `width`
/// characters.
pub fn push_zero_padded(text: &mut String, n: u64, width: u64)
    ensures
        final(text)@ == old(text)@ + zero_padded(n as nat, width as nat),
{
    let count = digit_count(n);
    let ghost start = text@;
    if count < width {
        let mut zeros: u64 = 0;
        while zeros < width - count
            invariant
                zeros <= width - count,
                count < width,
                text@ == start + Seq::new(zeros as nat, |i: int| '0'),
            decreases width - count - zeros,
        {
            proof {
                reveal_strlit("0");
            }
            text.append("0");
            zeros = zeros + 1;
            assert(text@ =~= start + Seq::new(zeros as nat, |i: int| '0'));
        }
        let ghost padded = text@;
        push_decimal(text, n);
        assert(text@ =~= start + zero_padded(n as nat, width as nat));
    } else {
        push_decimal(text, n);
    }
}

/// A duration, given in nanoseconds, as whole minutes and seconds, each of at
/// least two digits: `MM:SS`.
pub open spec fn duration_text(duration: u64) -> Seq<char> {
    let seconds = duration / 1_000_000_000;
    zero_padded((seconds / 60) as nat, 2) + seq![':'] + zero_padded((seconds % 60) as nat, 2)
}

/// Formats a duration, given in nanoseconds, as `MM:SS`.
pub fn format_duration(duration: u64) -> (text: String)
    ensures
        text@ == duration_text(duration),
{
    let seconds = duration / 1_000_000_000;
    let mut text = String::new();
    push_zero_padded(&mut text, seconds / 60, 2);
    proof {
        reveal_strlit(":");
    }
    text.append(":");
    push_zero_padded(&mut text, seconds % 60, 2);
    assert(text@ =~= duration_text(duration));
    text
}

proof fn lemma_two_digits(n: nat)
    requires
        n < 100,
    ensures
        zero_padded(n, 2).len() == 2,
{
    if n >= 10 {
        assert(decimal(n / 10).len() == 1);
    }
}

/// The text of a duration reads back as its whole seconds: the digits before
/// the colon count minutes (at least two of them), the two after it the
/// seconds, below sixty.
pub proof fn lemma_duration_text_reads_back(duration: u64)
    ensures
        duration_text(duration).len() >= 5,
        duration_text(duration)[duration_text(duration).len() - 3] == ':',
        decimal_value(duration_text(duration).subrange(0, duration_text(duration).len() - 3)) * 60
            + decimal_value(
            duration_text(duration).subrange(
                duration_text(duration).len() - 2,
                duration_text(duration).len() as int,
            ),
        ) == duration / 1_000_000_000,
        decimal_value(
            duration_text(duration).subrange(
                duration_text(duration).len() - 2,
                duration_text(duration).len() as int,
            ),
        ) < 60,
{
    let seconds = duration / 1_000_000_000;
    let minutes_text = zero_padded((seconds / 60) as nat, 2);
    let seconds_text = zero_padded((seconds % 60) as nat, 2);
    lemma_zero_padded_value((seconds / 60) as nat, 2);
    lemma_zero_padded_value((seconds % 60) as nat, 2);
    lemma_two_digits((seconds % 60) as nat);
    let text = duration_text(duration);
    assert(text == minutes_text + seq![':'] + seconds_text);
    let n = text.len() as int;
    assert(text.subrange(0, n - 3) =~= minutes_text);
    assert(text.subrange(n - 2, n) =~= seconds_text);
    assert(text[n - 3] == ':');
}

} // verus!
