//! Text helpers: comparison of strings, decimal numbers and padding.
use vstd::prelude::*;

verus! {

/// Lexicographic order of character sequences, by code point.
pub open spec fn text_lt(a: Seq<char>, b: Seq<char>) -> bool
    decreases a.len(),
{
    if b.len() == 0 {
        false
    } else if a.len() == 0 {
        true
    } else {
        a[0] < b[0] || (a[0] == b[0] && text_lt(a.drop_first(), b.drop_first()))
    }
}

/// No text comes before itself.
pub proof fn text_lt_irreflexive(a: Seq<char>)
    ensures
        !text_lt(a, a),
    decreases a.len(),
{
    if a.len() > 0 {
        text_lt_irreflexive(a.drop_first());
    }
}

/// The order of texts is transitive.
pub proof fn text_lt_transitive(a: Seq<char>, b: Seq<char>, c: Seq<char>)
    requires
        text_lt(a, b),
        text_lt(b, c),
    ensures
        text_lt(a, c),
    decreases a.len(),
{
    if a.len() > 0 && a[0] == b[0] && b[0] == c[0] {
        text_lt_transitive(a.drop_first(), b.drop_first(), c.drop_first());
    }
}

/// Of two different texts one comes before the other.
pub proof fn text_lt_connected(a: Seq<char>, b: Seq<char>)
    ensures
        a == b || text_lt(a, b) || text_lt(b, a),
    decreases a.len(),
{
    if a.len() > 0 && b.len() > 0 && a[0] == b[0] {
        text_lt_connected(a.drop_first(), b.drop_first());
        if a.drop_first() == b.drop_first() {
            assert(a =~= seq![a[0]] + a.drop_first());
            assert(b =~= seq![b[0]] + b.drop_first());
        }
    } else if a.len() == 0 && b.len() == 0 {
        assert(a =~= b);
    }
}

/// Whether `a` comes strictly before `b`.
pub fn text_less(a: &str, b: &str) -> (less: bool)
    ensures
        less == text_lt(a@, b@),
{
    let mut left = a.chars();
    let mut right = b.chars();
    loop
        invariant
            vstd::std_specs::iter::IteratorSpec::decrease(&left) is Some,
            text_lt(a@, b@) == text_lt(
                vstd::std_specs::iter::IteratorSpec::remaining(&left),
                vstd::std_specs::iter::IteratorSpec::remaining(&right),
            ),
        decreases vstd::std_specs::iter::IteratorSpec::decrease(&left)->0,
    {
        match (left.next(), right.next()) {
            (_, None) => {
                return false;
            },
            (None, Some(_)) => {
                return true;
            },
            (Some(c), Some(d)) => {
                if c < d {
                    return true;
                }
                if d < c {
                    return false;
                }
            },
        }
    }
}

/// Whether the two texts hold the same characters.
pub fn text_eq(a: &str, b: &str) -> (same: bool)
    ensures
        same == (a@ == b@),
{
    let mut left = a.chars();
    let mut right = b.chars();
    let ghost mut done: int = 0;
    loop
        invariant
            vstd::std_specs::iter::IteratorSpec::decrease(&left) is Some,
            0 <= done <= a@.len(),
            done <= b@.len(),
            a@.take(done) == b@.take(done),
            vstd::std_specs::iter::IteratorSpec::remaining(&left) == a@.skip(done),
            vstd::std_specs::iter::IteratorSpec::remaining(&right) == b@.skip(done),
        decreases vstd::std_specs::iter::IteratorSpec::decrease(&left)->0,
    {
        match (left.next(), right.next()) {
            (None, None) => {
                proof {
                    assert(a@.take(done) =~= a@);
                    assert(b@.take(done) =~= b@);
                }
                return true;
            },
            (Some(c), Some(d)) => {
                if c != d {
                    proof {
                        assert(a@[done] == c);
                        assert(b@[done] == d);
                    }
                    return false;
                }
                proof {
                    assert(a@.take(done + 1) =~= a@.take(done).push(c));
                    assert(b@.take(done + 1) =~= b@.take(done).push(d));
                    assert(a@.skip(done).drop_first() =~= a@.skip(done + 1));
                    assert(b@.skip(done).drop_first() =~= b@.skip(done + 1));
                    done = done + 1;
                }
            },
            _ => {
                return false;
            },
        }
    }
}

/// Whether `s` begins with `prefix`.
pub fn text_starts_with(s: &str, prefix: &str) -> (starts: bool)
    ensures
        starts == prefix@.is_prefix_of(s@),
{
    let mut left = s.chars();
    let mut right = prefix.chars();
    let ghost mut done: int = 0;
    loop
        invariant
            vstd::std_specs::iter::IteratorSpec::decrease(&right) is Some,
            0 <= done <= prefix@.len(),
            done <= s@.len(),
            s@.take(done) == prefix@.take(done),
            vstd::std_specs::iter::IteratorSpec::remaining(&left) == s@.skip(done),
            vstd::std_specs::iter::IteratorSpec::remaining(&right) == prefix@.skip(done),
        decreases vstd::std_specs::iter::IteratorSpec::decrease(&right)->0,
    {
        match (left.next(), right.next()) {
            (_, None) => {
                proof {
                    assert(prefix@.take(done) =~= prefix@);
                    assert(s@.take(done) =~= s@.subrange(0, prefix@.len() as int));
                }
                return true;
            },
            (Some(c), Some(d)) => {
                if c != d {
                    proof {
                        assert(s@[done] == c);
                        assert(prefix@[done] == d);
                        if prefix@.len() <= s@.len() {
                            assert(s@.subrange(0, prefix@.len() as int)[done] == c);
                        }
                    }
                    return false;
                }
                proof {
                    assert(s@.take(done + 1) =~= s@.take(done).push(c));
                    assert(prefix@.take(done + 1) =~= prefix@.take(done).push(d));
                    assert(s@.skip(done).drop_first() =~= s@.skip(done + 1));
                    assert(prefix@.skip(done).drop_first() =~= prefix@.skip(done + 1));
                    done = done + 1;
                }
            },
            (None, Some(_)) => {
                return false;
            },
        }
    }
}

/// The characters of a text, in order.
pub fn chars_of(s: &str) -> (chars: Vec<char>)
    ensures
        chars@ == s@,
{
    let mut chars: Vec<char> = Vec::new();
    let mut rest = s.chars();
    let ghost mut done: int = 0;
    loop
        invariant
            vstd::std_specs::iter::IteratorSpec::decrease(&rest) is Some,
            0 <= done <= s@.len(),
            chars@ == s@.take(done),
            vstd::std_specs::iter::IteratorSpec::remaining(&rest) == s@.skip(done),
        decreases vstd::std_specs::iter::IteratorSpec::decrease(&rest)->0,
    {
        match rest.next() {
            None => {
                proof {
                    assert(s@.take(done) =~= s@);
                }
                return chars;
            },
            Some(c) => {
                chars.push(c);
                proof {
                    assert(s@.take(done + 1) =~= s@.take(done).push(c));
                    assert(s@.skip(done).drop_first() =~= s@.skip(done + 1));
                    done = done + 1;
                }
            },
        }
    }
}

/// The decimal digit for a number below ten.
pub open spec fn digit(n: nat) -> char {
    if n == 0 {
        '0'
    } else if n == 1 {
        '1'
    } else if n == 2 {
        '2'
    } else if n == 3 {
        '3'
    } else if n == 4 {
        '4'
    } else if n == 5 {
        '5'
    } else if n == 6 {
        '6'
    } else if n == 7 {
        '7'
    } else if n == 8 {
        '8'
    } else {
        '9'
    }
}

/// A number in decimal, without leading zeros.
pub open spec fn decimal(n: nat) -> Seq<char>
    decreases n,
{
    if n < 10 {
        seq![digit(n)]
    } else {
        decimal(n / 10).push(digit(n % 10))
    }
}

/// The one-character text of a digit.
pub fn digit_text(n: u64) -> (s: &'static str)
    requires
        n < 10,
    ensures
        s@ == seq![digit(n as nat)],
{
    proof {
        reveal_strlit("0");
        reveal_strlit("1");
        reveal_strlit("2");
        reveal_strlit("3");
        reveal_strlit("4");
        reveal_strlit("5");
        reveal_strlit("6");
        reveal_strlit("7");
        reveal_strlit("8");
        reveal_strlit("9");
    }
    match n {
        0 => "0",
        1 => "1",
        2 => "2",
        3 => "3",
        4 => "4",
        5 => "5",
        6 => "6",
        7 => "7",
        8 => "8",
        _ => "9",
    }
}

/// Writes `n` in decimal.
pub fn decimal_text(n: u64) -> (s: String)
    ensures
        s@ == decimal(n as nat),
    decreases n,
{
    let mut s = if n < 10 {
        String::new()
    } else {
        decimal_text(n / 10)
    };
    s.append(digit_text(n % 10));
    proof {
        if n < 10 {
            assert(s@ =~= seq![digit(n as nat)]);
        } else {
            assert(s@ =~= decimal((n / 10) as nat).push(digit((n % 10) as nat)));
        }
    }
    s
}

/// A text followed by as many spaces as bring it to `width` characters; a
/// longer text is kept as it is.
pub open spec fn padded(s: Seq<char>, width: nat) -> Seq<char>
    decreases width - s.len(),
{
    if s.len() >= width {
        s
    } else {
        padded(s.push(' '), width)
    }
}

/// Pads `s` on the right with spaces.
pub fn pad_right(s: &str, width: usize) -> (out: String)
    ensures
        out@ == padded(s@, width as nat),
{
    let mut out = s.to_string();
    let mut len: usize = s.unicode_len();
    proof {
        reveal_strlit(" ");
    }
    while len < width
        invariant
            len == out@.len(),
            padded(out@, width as nat) == padded(s@, width as nat),
            " "@ == seq![' '],
        decreases width - len,
    {
        proof {
            assert(out@ + seq![' '] =~= out@.push(' '));
        }
        out.append(" ");
        len = len + 1;
    }
    out
}

/// The text that has the smaller character where the two first differ comes before
/// the other, and so does one that the other goes on from.
pub proof fn differing_texts_are_ordered(a: Seq<char>, b: Seq<char>, k: int)
    requires
        0 <= k <= a.len(),
        k < b.len(),
        a.take(k) == b.take(k),
        k < a.len() ==> a[k] < b[k],
    ensures
        text_lt(a, b),
        !text_lt(b, a),
    decreases k,
{
    if k > 0 {
        assert(a.take(k)[0] == a[0]);
        assert(b.take(k)[0] == b[0]);
        assert(a.drop_first().take(k - 1) =~= a.take(k).drop_first());
        assert(b.drop_first().take(k - 1) =~= b.take(k).drop_first());
        differing_texts_are_ordered(a.drop_first(), b.drop_first(), k - 1);
    }
}

/// The value of a digit is its distance from zero.
pub proof fn digits_stand_in_order(n: nat)
    requires
        n < 10,
    ensures
        digit(n) as int == '0' as int + n,
{
}

/// The number that a text of digits spells.
pub open spec fn number_spelled(s: Seq<char>) -> int
    decreases s.len(),
{
    if s.len() == 0 {
        0
    } else {
        10 * number_spelled(s.drop_last()) + (s.last() as int - '0' as int)
    }
}

/// A number in decimal is a text of digits that spells it, with no zero before the
/// first digit of a longer one.
pub proof fn decimals_spell_their_number(n: nat)
    ensures
        number_spelled(decimal(n)) == n,
        decimal(n).len() >= 1,
        forall|i: int| 0 <= i < decimal(n).len() ==> '0' <= #[trigger] decimal(n)[i] <= '9',
        decimal(n).len() > 1 ==> decimal(n)[0] != '0',
        n == 0 ==> decimal(n) == seq!['0'],
        n > 0 ==> decimal(n)[0] != '0',
    decreases n,
{
    reveal_with_fuel(number_spelled, 2);
    if n >= 10 {
        decimals_spell_their_number(n / 10);
        assert(decimal(n).drop_last() =~= decimal(n / 10));
        digits_stand_in_order(n % 10);
        assert(n == 10 * (n / 10) + n % 10);
    } else {
        assert(decimal(n).drop_last() =~= Seq::<char>::empty());
        digits_stand_in_order(n);
    }
}

/// Padding keeps the text and fills up with spaces to the width, and to no more.
pub proof fn padding_fills_with_spaces(s: Seq<char>, width: nat)
    ensures
        padded(s, width).len() == if s.len() < width {
            width
        } else {
            s.len()
        },
        padded(s, width).take(s.len() as int) == s,
        forall|i: int| s.len() <= i < padded(s, width).len() ==> #[trigger] padded(s, width)[i] == ' ',
    decreases width - s.len(),
{
    if s.len() < width {
        padding_fills_with_spaces(s.push(' '), width);
        let out = padded(s.push(' '), width);
        let n = s.len() as int;
        assert(out.take(n + 1)[n] == ' ');
        assert(out.take(n) =~= out.take(n + 1).take(n));
        assert(s.push(' ').take(n) =~= s);
        assert forall|i: int| n <= i < padded(s, width).len() implies #[trigger] padded(s, width)[i]
            == ' ' by {
            assert(out[i] == padded(s, width)[i]);
            if i == n {
                assert(out.take(n + 1)[n] == out[n]);
            }
        }
    } else {
        assert(padded(s, width).take(s.len() as int) =~= s);
    }
}

} // verus!
