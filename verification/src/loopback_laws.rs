//! Which texts are addresses of the local host.
use vstd::prelude::*;

use crate::loopback;
use crate::text;

verus! {

/// A text without the separator is a single piece.
pub proof fn an_undivided_text_is_one_piece(s: Seq<char>, sep: char)
    requires
        !s.contains(sep),
    ensures
        loopback::pieces(s, sep) == seq![s],
    decreases s.len(),
{
    if s.len() == 0 {
        assert(s =~= Seq::empty());
    } else {
        let init = s.drop_last();
        assert forall|i: int| 0 <= i < init.len() implies init[i] != sep by {
            assert(s[i] == init[i]);
            assert(s.contains(s[i]));
        }
        an_undivided_text_is_one_piece(init, sep);
        assert(s.contains(s[s.len() - 1]));
        assert(loopback::pieces(s, sep) =~= seq![init.push(s.last())]);
        assert(init.push(s.last()) =~= s);
    }
}

/// A separator and a text without one add that text as a further piece.
pub proof fn a_separator_adds_a_piece(s: Seq<char>, t: Seq<char>, sep: char)
    requires
        !t.contains(sep),
    ensures
        loopback::pieces(s + seq![sep] + t, sep) == loopback::pieces(s, sep).push(t),
    decreases t.len(),
{
    let whole = s + seq![sep] + t;
    if t.len() == 0 {
        assert(whole.drop_last() =~= s);
        assert(whole.last() == sep);
        assert(t =~= Seq::empty());
    } else {
        let init = t.drop_last();
        assert forall|i: int| 0 <= i < init.len() implies init[i] != sep by {
            assert(t[i] == init[i]);
            assert(t.contains(t[i]));
        }
        a_separator_adds_a_piece(s, init, sep);
        assert(t.contains(t[t.len() - 1]));
        assert(whole.drop_last() =~= s + seq![sep] + init);
        assert(whole.last() == t.last());
        let before = loopback::pieces(s, sep).push(init);
        assert(before.drop_last() =~= loopback::pieces(s, sep));
        assert(before.last() == init);
        assert(init.push(t.last()) =~= t);
    }
}

proof fn number_of_decimal(n: nat)
    ensures
        loopback::number(text::decimal(n), 10) == Some(n as int),
    decreases n,
{
    reveal_with_fuel(loopback::number, 2);
    if n >= 10 {
        number_of_decimal(n / 10);
        assert(text::decimal(n).drop_last() =~= text::decimal(n / 10));
        text::digits_stand_in_order(n % 10);
        assert(n == (n / 10) * 10 + n % 10);
    } else {
        assert(text::decimal(n).drop_last() =~= Seq::<char>::empty());
        text::digits_stand_in_order(n);
    }
}

/// The numbers up to 255 in decimal are the numbers of an address.
pub proof fn small_decimals_are_octets(n: nat)
    ensures
        loopback::octet(text::decimal(n)) == if n <= 255 {
            Some(n as int)
        } else {
            None
        },
        !text::decimal(n).contains('.'),
        !text::decimal(n).contains(':'),
{
    number_of_decimal(n);
    text::decimals_spell_their_number(n);
    let s = text::decimal(n);
    assert forall|i: int| 0 <= i < s.len() implies s[i] != '.' && s[i] != ':' by {
        assert('0' <= s[i] <= '9');
    }
    reveal_with_fuel(text::decimal, 4);
}

/// Four numbers in decimal with dots between them.
pub open spec fn quad(a: nat, b: nat, c: nat, d: nat) -> Seq<char> {
    text::decimal(a) + seq!['.'] + text::decimal(b) + seq!['.'] + text::decimal(c) + seq!['.']
        + text::decimal(d)
}

proof fn quad_has_four_pieces(a: nat, b: nat, c: nat, d: nat)
    ensures
        loopback::pieces(quad(a, b, c, d), '.') == seq![
            text::decimal(a),
            text::decimal(b),
            text::decimal(c),
            text::decimal(d),
        ],
{
    small_decimals_are_octets(a);
    small_decimals_are_octets(b);
    small_decimals_are_octets(c);
    small_decimals_are_octets(d);
    let ab = text::decimal(a) + seq!['.'] + text::decimal(b);
    let abc = ab + seq!['.'] + text::decimal(c);
    an_undivided_text_is_one_piece(text::decimal(a), '.');
    a_separator_adds_a_piece(text::decimal(a), text::decimal(b), '.');
    a_separator_adds_a_piece(ab, text::decimal(c), '.');
    a_separator_adds_a_piece(abc, text::decimal(d), '.');
    assert(loopback::pieces(quad(a, b, c, d), '.') =~= seq![
        text::decimal(a),
        text::decimal(b),
        text::decimal(c),
        text::decimal(d),
    ]);
}

/// An address of four numbers is one of the local host just where the first is 127.
pub proof fn a_dotted_address_is_local_by_its_first_number(a: nat, b: nat, c: nat, d: nat)
    requires
        a <= 255,
        b <= 255,
        c <= 255,
        d <= 255,
    ensures
        loopback::is_loopback_address(quad(a, b, c, d)) <==> a == 127,
{
    quad_has_four_pieces(a, b, c, d);
    small_decimals_are_octets(a);
    small_decimals_are_octets(b);
    small_decimals_are_octets(c);
    small_decimals_are_octets(d);
}

proof fn no_gap_without_colons(s: Seq<char>, k: int)
    requires
        !s.contains(':'),
        0 <= k,
    ensures
        loopback::gap_from(s, k) is None,
    decreases s.len() - k,
{
    if k + 1 < s.len() {
        assert(s.contains(s[k]));
        no_gap_without_colons(s, k + 1);
    }
}

proof fn first_piece_begins_the_text(s: Seq<char>, sep: char)
    ensures
        ({
            let p = loopback::pieces(s, sep);
            &&& p.len() >= 1
            &&& p[0].is_prefix_of(s)
            &&& p.len() == 1 ==> p[0] == s
            &&& p.len() > 1 ==> p[0].len() < s.len() && s[p[0].len() as int] == sep
        }),
    decreases s.len(),
{
    if s.len() == 0 {
        assert(s =~= Seq::empty());
    } else {
        let init = s.drop_last();
        first_piece_begins_the_text(init, sep);
        let q = loopback::pieces(init, sep);
        let p = loopback::pieces(s, sep);
        assert(q[0] =~= s.subrange(0, q[0].len() as int));
        if q.len() == 1 {
            assert(q[0] == init);
            if s.last() != sep {
                assert(p[0] =~= s);
                assert(s.subrange(0, s.len() as int) =~= s);
            } else {
                assert(p[0] == q[0]);
            }
        } else {
            assert(p[0] == q[0]);
            assert(s[q[0].len() as int] == init[q[0].len() as int]);
        }
    }
}

proof fn only_127_counts_127(s: Seq<char>)
    requires
        loopback::octet(s) == Some(127int),
    ensures
        s == seq!['1', '2', '7'],
{
    reveal_with_fuel(loopback::number, 5);
    let a = s.drop_last();
    let b = a.drop_last();
    if s.len() == 3 {
        let d0 = s[0] as int - '0' as int;
        let d1 = s[1] as int - '0' as int;
        let d2 = s[2] as int - '0' as int;
        assert(a.last() == s[1]);
        assert(b.last() == s[0]);
        assert(b.drop_last() =~= Seq::<char>::empty());
        assert((d0 * 10 + d1) * 10 + d2 == 127);
        assert(s =~= seq!['1', '2', '7']);
    } else if s.len() == 2 {
        assert(a.last() == s[0]);
        assert(a.drop_last() =~= Seq::<char>::empty());
    } else {
        assert(a =~= Seq::<char>::empty());
    }
}

/// A text without colons is an address of the local host only where it begins with
/// `127.`.
pub proof fn local_addresses_without_colons_begin_with_127(s: Seq<char>)
    requires
        !s.contains(':'),
        loopback::is_loopback_address(s),
    ensures
        s.len() > 4,
        s[0] == '1',
        s[1] == '2',
        s[2] == '7',
        s[3] == '.',
        forall|i: int| 0 <= i < s.len() ==> '0' <= #[trigger] s[i] <= '9' || s[i] == '.',
{
    let p = loopback::pieces(s, '.');
    if loopback::dotted(s) is None {
        no_gap_without_colons(s, 0);
        an_undivided_text_is_one_piece(s, ':');
        let one = seq![s];
        reveal_with_fuel(loopback::hex_groups, 3);
        assert(one.drop_last() =~= Seq::<Seq<char>>::empty());
        assert(loopback::mixed_groups(one) matches Some(g) ==> g.len() <= 2);
        assert(false);
    }
    only_127_counts_127(p[0]);
    first_piece_begins_the_text(s, '.');
    assert(s.subrange(0, 3) == p[0]);
    assert(s.subrange(0, 3)[0] == s[0]);
    assert(s.subrange(0, 3)[1] == s[1]);
    assert(s.subrange(0, 3)[2] == s[2]);
    if s.len() == 4 {
        assert(s =~= seq!['1', '2', '7'] + seq!['.'] + Seq::<char>::empty());
        an_undivided_text_is_one_piece(seq!['1', '2', '7'], '.');
        a_separator_adds_a_piece(seq!['1', '2', '7'], Seq::empty(), '.');
    }
    assert forall|i: int| 0 <= i < s.len() implies '0' <= #[trigger] s[i] <= '9' || s[i] == '.' by {
        let k = piece_of_char(s, '.', i);
        if s[i] != '.' {
            let j = choose|j: int| 0 <= j < p[k].len() && p[k][j] == s[i];
            assert(loopback::octet(p[k]) is Some);
            numbers_are_of_digits(p[k], 10, j);
        }
    }
}

/// Every character of a text is the separator or stands in one of its pieces.
proof fn piece_of_char(s: Seq<char>, sep: char, i: int) -> (k: int)
    requires
        0 <= i < s.len(),
    ensures
        s[i] != sep ==> 0 <= k < loopback::pieces(s, sep).len() && loopback::pieces(s, sep)[k].contains(
            s[i],
        ),
    decreases s.len(),
{
    let init = s.drop_last();
    let q = loopback::pieces(init, sep);
    let p = loopback::pieces(s, sep);
    first_piece_begins_the_text(init, sep);
    if i == s.len() - 1 {
        let k = p.len() - 1;
        if s[i] != sep {
            assert(p[k] == q.last().push(s.last()));
            assert(p[k][p[k].len() - 1] == s[i]);
        }
        k
    } else {
        let k = piece_of_char(init, sep, i);
        if s[i] != sep {
            let j = choose|j: int| 0 <= j < q[k].len() && q[k][j] == s[i];
            assert(p[k][j] == q[k][j]);
        }
        k
    }
}

proof fn numbers_are_of_digits(s: Seq<char>, radix: int, j: int)
    requires
        loopback::number(s, radix) is Some,
        0 <= j < s.len(),
    ensures
        loopback::digit_value(s[j], radix) is Some,
    decreases s.len(),
{
    if j < s.len() - 1 {
        numbers_are_of_digits(s.drop_last(), radix, j);
    }
}

proof fn numbers_count_up(s: Seq<char>, radix: int)
    requires
        radix == 10 || radix == 16,
    ensures
        loopback::number(s, radix) matches Some(n) ==> n >= 0,
    decreases s.len(),
{
    if s.len() > 0 {
        numbers_count_up(s.drop_last(), radix);
    }
}

/// A number is zero just where all its digits are, and one just where only the last is
/// one.
proof fn small_numbers_have_small_digits(s: Seq<char>, radix: int)
    requires
        radix == 10 || radix == 16,
    ensures
        loopback::number(s, radix) == Some(0int) <==> forall|j: int|
            0 <= j < s.len() ==> #[trigger] s[j] == '0',
        loopback::number(s, radix) == Some(1int) <==> s.len() > 0 && s.last() == '1' && forall|j: int|
            0 <= j < s.len() - 1 ==> #[trigger] s[j] == '0',
    decreases s.len(),
{
    if s.len() > 0 {
        let init = s.drop_last();
        small_numbers_have_small_digits(init, radix);
        numbers_count_up(init, radix);
        assert forall|j: int| 0 <= j < init.len() implies #[trigger] init[j] == s[j] by {}
        if forall|j: int| 0 <= j < s.len() - 1 ==> #[trigger] s[j] == '0' {
            assert forall|j: int| 0 <= j < init.len() implies #[trigger] init[j] == '0' by {
                assert(s[j] == '0');
            }
            assert(loopback::number(init, radix) == Some(0int));
        }
        if let Some(n) = loopback::number(s, radix) {
            if n <= 1 {
                let m = loopback::number(init, radix)->0;
                assert(m == 0) by (nonlinear_arith)
                    requires
                        m >= 0,
                        radix >= 10,
                        m * radix + (n - m * radix) <= 1,
                        n - m * radix >= 0,
                ;
                assert forall|j: int| 0 <= j < s.len() - 1 implies #[trigger] s[j] == '0' by {
                    assert(init[j] == '0');
                }
            }
        }
    }
}

/// Whether a text is made of hexadecimal digits.
pub open spec fn is_hexadecimal(s: Seq<char>) -> bool {
    forall|i: int|
        0 <= i < s.len() ==> '0' <= #[trigger] s[i] <= '9' || 'a' <= s[i] <= 'f' || 'A' <= s[i] <= 'F'
}

/// Whether a text is zeros followed by a one.
pub open spec fn is_zeros_and_one(s: Seq<char>) -> bool {
    s.len() > 0 && s[s.len() - 1] == '1' && forall|i: int|
        0 <= i < s.len() - 1 ==> #[trigger] s[i] == '0'
}

proof fn hexadecimal_is_a_number(s: Seq<char>)
    requires
        is_hexadecimal(s),
    ensures
        loopback::number(s, 16) is Some,
        !s.contains(':'),
        !s.contains('.'),
    decreases s.len(),
{
    if s.len() > 0 {
        assert('0' <= s[s.len() - 1] <= '9' || 'a' <= s[s.len() - 1] <= 'f' || 'A' <= s[s.len()
            - 1] <= 'F');
        assert forall|i: int| 0 <= i < s.drop_last().len() implies '0' <= #[trigger] s.drop_last()[i]
            <= '9' || 'a' <= s.drop_last()[i] <= 'f' || 'A' <= s.drop_last()[i] <= 'F' by {
            assert(s[i] == s.drop_last()[i]);
        }
        hexadecimal_is_a_number(s.drop_last());
    }
}

/// Two colons and a group of up to four digits are an address of the local host just
/// where the group is one.
pub proof fn a_gap_and_a_group_are_local_where_it_is_one(r: Seq<char>)
    requires
        1 <= r.len() <= 4,
        is_hexadecimal(r),
    ensures
        loopback::is_loopback_address(seq![':', ':'] + r) <==> is_zeros_and_one(r),
{
    let s = seq![':', ':'] + r;
    hexadecimal_is_a_number(r);
    small_numbers_have_small_digits(r, 16);
    assert(!s.contains('.')) by {
        assert forall|i: int| 0 <= i < s.len() implies s[i] != '.' by {
            if i >= 2 {
                assert(r.contains(r[i - 2]));
                assert(s[i] == r[i - 2]);
            }
        }
    }
    an_undivided_text_is_one_piece(s, '.');
    assert(loopback::dotted(s) is None);
    assert(s[0] == ':' && s[1] == ':');
    assert(loopback::gap_from(s, 0) == Some(0int));
    assert(s.take(0) =~= Seq::<char>::empty());
    assert(s.skip(2) =~= r);
    an_undivided_text_is_one_piece(r, ':');
    let one = seq![r];
    reveal_with_fuel(loopback::hex_groups, 2);
    assert(one.drop_last() =~= Seq::<Seq<char>>::empty());
    assert(one.last() == r);
    let n = loopback::number(r, 16)->0;
    let right = Seq::<int>::empty().push(n);
    assert(loopback::right_groups(r) == Some(right));
    let all = Seq::<int>::empty() + loopback::zeros(7) + right;
    assert(loopback::ipv6_groups(s) == Some(all));
    assert(all.len() == 8);
    assert(all[7] == n);
    if n == 1 {
        assert(all =~= loopback::ipv6_loopback());
    }
    assert(loopback::ipv6_loopback()[7] == 1);
}

proof fn no_gap_is_found(s: Seq<char>, k: int)
    requires
        0 <= k,
        forall|i: int| 0 <= i < s.len() - 1 && #[trigger] s[i] == ':' ==> s[i + 1] != ':',
    ensures
        loopback::gap_from(s, k) is None,
    decreases s.len() - k,
{
    if k + 1 < s.len() {
        assert(s[k] == ':' ==> s[k + 1] != ':');
        no_gap_is_found(s, k + 1);
    }
}

proof fn all_groups_are_read(p: Seq<Seq<char>>)
    requires
        forall|i: int|
            0 <= i < p.len() ==> 1 <= (#[trigger] p[i]).len() <= 4 && is_hexadecimal(p[i]),
    ensures
        loopback::hex_groups(p) matches Some(g) && g.len() == p.len() && forall|i: int|
            0 <= i < p.len() ==> Some(#[trigger] g[i]) == loopback::number(p[i], 16),
    decreases p.len(),
{
    if p.len() > 0 {
        let init = p.drop_last();
        assert forall|i: int| 0 <= i < init.len() implies 1 <= (#[trigger] init[i]).len() <= 4
            && is_hexadecimal(init[i]) by {
            assert(p[i] == init[i]);
        }
        all_groups_are_read(init);
        assert(p[p.len() - 1] == p.last());
        hexadecimal_is_a_number(p.last());
        let before = loopback::hex_groups(init)->0;
        let g = before.push(loopback::number(p.last(), 16)->0);
        assert(loopback::hex_groups(p) == Some(g));
        assert forall|i: int| 0 <= i < p.len() implies Some(#[trigger] g[i]) == loopback::number(
            p[i],
            16,
        ) by {
            if i < init.len() {
                assert(g[i] == before[i]);
                assert(init[i] == p[i]);
            }
        }
    }
}

/// A text of groups of up to four digits with single colons between them is an address
/// of the local host just where there are eight, all zero but for a last one of one.
pub proof fn eight_groups_are_local_where_they_count_one(s: Seq<char>)
    requires
        s.contains(':'),
        !s.contains('.'),
        forall|i: int| 0 <= i < s.len() - 1 && #[trigger] s[i] == ':' ==> s[i + 1] != ':',
        forall|i: int|
            0 <= i < loopback::pieces(s, ':').len() ==> 1 <= (#[trigger] loopback::pieces(
                s,
                ':',
            )[i]).len() <= 4 && is_hexadecimal(loopback::pieces(s, ':')[i]),
    ensures
        ({
            let p = loopback::pieces(s, ':');
            loopback::is_loopback_address(s) <==> p.len() == 8 && is_zeros_and_one(p[7]) && forall|
                i: int,
                j: int,
            |
                0 <= i < 7 && 0 <= j < p[i].len() ==> #[trigger] p[i][j] == '0'
        }),
{
    let p = loopback::pieces(s, ':');
    an_undivided_text_is_one_piece(s, '.');
    no_gap_is_found(s, 0);
    all_groups_are_read(p);
    let g = loopback::hex_groups(p)->0;
    let one = loopback::ipv6_loopback();
    assert(loopback::mixed_groups(p) == Some(g));
    if p.len() == 8 {
        assert forall|i: int| 0 <= i < 8 implies Some(#[trigger] g[i]) == loopback::number(p[i], 16) by {}
        small_numbers_have_small_digits(p[7], 16);
        assert(Some(g[7]) == loopback::number(p[7], 16));
        assert forall|i: int| 0 <= i < 7 implies (#[trigger] g[i] == 0 <==> forall|j: int|
            0 <= j < p[i].len() ==> #[trigger] p[i][j] == '0') by {
            small_numbers_have_small_digits(p[i], 16);
        }
        if is_zeros_and_one(p[7]) && forall|i: int, j: int|
            0 <= i < 7 && 0 <= j < p[i].len() ==> #[trigger] p[i][j] == '0' {
            assert forall|i: int| 0 <= i < 8 implies g[i] == one[i] by {}
            assert(g =~= one);
        }
        if g == one {
            assert(g[7] == 1);
            assert forall|i: int, j: int| 0 <= i < 7 && 0 <= j < p[i].len() implies #[trigger] p[i][j]
                == '0' by {
                assert(g[i] == one[i]);
                assert(g[i] == 0);
            }
        }
    }
}

/// Whether a text is made of zeros, colons and dots, but for a one at its end where
/// `one` holds.
pub open spec fn counts_up_to(s: Seq<char>, one: bool) -> bool {
    &&& one ==> s.len() > 0 && s[s.len() - 1] == '1'
    &&& forall|i: int|
        0 <= i < s.len() && (one ==> i < s.len() - 1) ==> #[trigger] s[i] == '0' || s[i] == ':'
            || s[i] == '.'
}

proof fn small_numbers_count_up_to(s: Seq<char>, radix: int, n: int)
    requires
        radix == 10 || radix == 16,
        loopback::number(s, radix) == Some(n),
        n == 0 || n == 1,
    ensures
        counts_up_to(s, n == 1),
{
    small_numbers_have_small_digits(s, radix);
}

proof fn groups_are_of_their_pieces(p: Seq<Seq<char>>)
    requires
        loopback::hex_groups(p) is Some,
    ensures
        loopback::hex_groups(p)->0.len() == p.len(),
        forall|i: int|
            0 <= i < p.len() ==> loopback::number(#[trigger] p[i], 16) == Some(
                loopback::hex_groups(p)->0[i],
            ),
    decreases p.len(),
{
    if p.len() > 0 {
        let init = p.drop_last();
        let before = loopback::hex_groups(init)->0;
        let g = loopback::hex_groups(p)->0;
        assert(g == before.push(loopback::number(p.last(), 16)->0));
        groups_are_of_their_pieces(init);
        assert forall|i: int| 0 <= i < p.len() implies loopback::number(#[trigger] p[i], 16) == Some(
            g[i],
        ) by {
            if i < init.len() {
                assert(init[i] == p[i]);
            }
        }
    }
}

proof fn last_of_the_pieces(s: Seq<char>, sep: char)
    ensures
        ({
            let p = loopback::pieces(s, sep);
            let last = p.last();
            &&& p.len() >= 1
            &&& last.len() <= s.len()
            &&& s.skip(s.len() - last.len()) == last
            &&& forall|i: int|
                0 <= i < s.len() - last.len() ==> #[trigger] s[i] == sep || exists|k: int|
                    0 <= k < p.len() - 1 && (#[trigger] p[k]).contains(s[i])
        }),
    decreases s.len(),
{
    let p = loopback::pieces(s, sep);
    if s.len() == 0 {
        assert(s.skip(0) =~= p.last());
    } else {
        let init = s.drop_last();
        let q = loopback::pieces(init, sep);
        last_of_the_pieces(init, sep);
        let m = init.len() - q.last().len();
        if s.last() == sep {
            assert(s.skip(s.len() as int) =~= Seq::<char>::empty());
            assert forall|i: int| 0 <= i < s.len() implies #[trigger] s[i] == sep || exists|k: int|
                0 <= k < p.len() - 1 && (#[trigger] p[k]).contains(s[i]) by {
                if i < init.len() {
                    assert(init[i] == s[i]);
                    if s[i] != sep {
                        if i < m {
                            let k = choose|k: int|
                                0 <= k < q.len() - 1 && (#[trigger] q[k]).contains(init[i]);
                            assert(p[k] == q[k]);
                        } else {
                            let k = q.len() - 1;
                            assert(p[k] == q.last());
                            assert(init.skip(m)[i - m] == init[i]);
                            assert(p[k].contains(s[i]));
                        }
                    }
                }
            }
        } else {
            assert(p.last() == q.last().push(s.last()));
            assert(s.skip(m) =~= init.skip(m).push(s.last()));
            assert forall|i: int| 0 <= i < m implies #[trigger] s[i] == sep || exists|k: int|
                0 <= k < p.len() - 1 && (#[trigger] p[k]).contains(s[i]) by {
                assert(init[i] == s[i]);
                if s[i] != sep {
                    let k = choose|k: int|
                        0 <= k < q.len() - 1 && (#[trigger] q[k]).contains(init[i]);
                    assert(p[k] == q[k]);
                }
            }
        }
    }
}

/// A text counts as its pieces do: all but the last nothing, the last nothing or one.
proof fn a_text_counts_as_its_pieces(s: Seq<char>, sep: char, one: bool)
    requires
        sep == ':' || sep == '.',
        forall|i: int|
            0 <= i < loopback::pieces(s, sep).len() - 1 ==> counts_up_to(
                #[trigger] loopback::pieces(s, sep)[i],
                false,
            ),
        counts_up_to(loopback::pieces(s, sep).last(), one),
    ensures
        counts_up_to(s, one),
{
    let p = loopback::pieces(s, sep);
    let last = p.last();
    last_of_the_pieces(s, sep);
    let m = s.len() - last.len();
    if one {
        assert(s.skip(m)[last.len() - 1] == s[s.len() - 1]);
    }
    assert forall|i: int| 0 <= i < s.len() && (one ==> i < s.len() - 1) implies #[trigger] s[i]
        == '0' || s[i] == ':' || s[i] == '.' by {
        if i >= m {
            assert(s.skip(m)[i - m] == s[i]);
            assert(last[i - m] == s[i]);
        } else if s[i] != sep {
            let k = choose|k: int| 0 <= k < p.len() - 1 && (#[trigger] p[k]).contains(s[i]);
            let j = choose|j: int| 0 <= j < p[k].len() && p[k][j] == s[i];
            assert(counts_up_to(p[k], false));
            assert(p[k][j] == s[i]);
        }
    }
}

proof fn small_quads_count_up_to(s: Seq<char>, n: int)
    requires
        loopback::dotted(s) matches Some((a, b, c, d)) && a * 256 + b == 0 && c * 256 + d == n,
        n == 0 || n == 1,
    ensures
        counts_up_to(s, n == 1),
{
    let p = loopback::pieces(s, '.');
    numbers_count_up(p[0], 10);
    numbers_count_up(p[1], 10);
    numbers_count_up(p[2], 10);
    numbers_count_up(p[3], 10);
    small_numbers_count_up_to(p[0], 10, 0);
    small_numbers_count_up_to(p[1], 10, 0);
    small_numbers_count_up_to(p[2], 10, 0);
    small_numbers_count_up_to(p[3], 10, n);
    a_text_counts_as_its_pieces(s, '.', n == 1);
}

proof fn mixed_groups_count_up_to(s: Seq<char>, one: bool)
    requires
        ({
            let g = loopback::mixed_groups(loopback::pieces(s, ':'));
            &&& g is Some
            &&& g->0.len() > 0
            &&& g->0.last() == if one { 1int } else { 0 }
            &&& forall|i: int| 0 <= i < g->0.len() - 1 ==> #[trigger] g->0[i] == 0
        }),
    ensures
        counts_up_to(s, one),
{
    let p = loopback::pieces(s, ':');
    let all = loopback::mixed_groups(p)->0;
    first_piece_begins_the_text(s, ':');
    let n: int = if one { 1 } else { 0 };
    match loopback::hex_groups(p) {
        Some(g) => {
            groups_are_of_their_pieces(p);
            assert forall|i: int| 0 <= i < p.len() - 1 implies counts_up_to(#[trigger] p[i], false) by {
                assert(all[i] == 0);
                small_numbers_count_up_to(p[i], 16, 0);
            }
            assert(p[p.len() - 1] == p.last());
            small_numbers_count_up_to(p.last(), 16, n);
        },
        None => {
            let init = p.drop_last();
            let before = loopback::hex_groups(init)->0;
            let (a, b, c, d) = loopback::dotted(p.last())->0;
            assert(all == before.push(a * 256 + b).push(c * 256 + d));
            groups_are_of_their_pieces(init);
            assert forall|i: int| 0 <= i < p.len() - 1 implies counts_up_to(#[trigger] p[i], false) by {
                assert(init[i] == p[i]);
                assert(all[i] == before[i]);
                small_numbers_count_up_to(p[i], 16, 0);
            }
            assert(all[before.len() as int] == a * 256 + b);
            small_quads_count_up_to(p.last(), n);
        },
    }
    a_text_counts_as_its_pieces(s, ':', one);
}

proof fn the_gap_is_there(s: Seq<char>, k: int)
    requires
        0 <= k,
    ensures
        loopback::gap_from(s, k) matches Some(g) ==> k <= g && g + 1 < s.len() && s[g] == ':' && s[g
            + 1] == ':',
    decreases s.len() - k,
{
    if k + 1 < s.len() {
        the_gap_is_there(s, k + 1);
    }
}

/// A text with colons is an address of the local host only where it ends in a one and
/// has nothing but zeros, colons and dots before it.
pub proof fn local_addresses_with_colons_end_in_the_only_one(s: Seq<char>)
    requires
        s.contains(':'),
        loopback::is_loopback_address(s),
    ensures
        s[s.len() - 1] == '1',
        forall|i: int|
            0 <= i < s.len() - 1 ==> #[trigger] s[i] == '0' || s[i] == ':' || s[i] == '.',
{
    if loopback::dotted(s) is Some {
        let p = loopback::pieces(s, '.');
        let i = choose|i: int| 0 <= i < s.len() && s[i] == ':';
        let k = piece_of_char(s, '.', i);
        let j = choose|j: int| 0 <= j < p[k].len() && p[k][j] == s[i];
        assert(loopback::octet(p[k]) is Some);
        numbers_are_of_digits(p[k], 10, j);
        assert(false);
    }
    let one = loopback::ipv6_loopback();
    the_gap_is_there(s, 0);
    match loopback::gap_from(s, 0) {
        None => {
            assert forall|i: int| 0 <= i < 7 implies #[trigger] one[i] == 0 by {}
            mixed_groups_count_up_to(s, true);
            assert(counts_up_to(s, true));
        },
        Some(k) => {
            let l = s.take(k);
            let r = s.skip(k + 2);
            let left = loopback::left_groups(l)->0;
            let right = loopback::right_groups(r)->0;
            let all = left + loopback::zeros(8 - left.len() - right.len()) + right;
            assert(all == one);
            assert(right.len() > 0) by {
                if right.len() == 0 {
                    assert(all[7] == 0);
                    assert(one[7] == 1);
                }
            }
            assert(right.last() == 1) by {
                assert(all[7] == right[right.len() - 1]);
                assert(one[7] == 1);
            }
            assert forall|i: int| 0 <= i < right.len() - 1 implies #[trigger] right[i] == 0 by {
                let at = 8 - right.len() + i;
                assert(all[at] == right[i]);
                assert(one[at] == 0);
            }
            assert(r.len() > 0);
            mixed_groups_count_up_to(r, true);
            assert(counts_up_to(l, false)) by {
                if l.len() > 0 {
                    let p = loopback::pieces(l, ':');
                    first_piece_begins_the_text(l, ':');
                    groups_are_of_their_pieces(p);
                    assert forall|i: int| 0 <= i < p.len() implies counts_up_to(#[trigger] p[i], false) by {
                        assert(all[i] == left[i]);
                        assert(one[i] == 0);
                        small_numbers_count_up_to(p[i], 16, 0);
                    }
                    assert(p[p.len() - 1] == p.last());
                    a_text_counts_as_its_pieces(l, ':', false);
                }
            }
            assert(s[s.len() - 1] == r[r.len() - 1]);
            assert forall|i: int| 0 <= i < s.len() - 1 implies #[trigger] s[i] == '0' || s[i] == ':'
                || s[i] == '.' by {
                if i < k {
                    assert(l[i] == s[i]);
                } else if i >= k + 2 {
                    assert(r[i - k - 2] == s[i]);
                }
            }
        },
    }
}

proof fn the_first_gap_is(s: Seq<char>, j: int, k: int)
    requires
        0 <= j <= k,
        k + 1 < s.len(),
        s[k] == ':',
        s[k + 1] == ':',
        forall|i: int| j <= i < k ==> #[trigger] s[i] != ':' || s[i + 1] != ':',
    ensures
        loopback::gap_from(s, j) == Some(k),
    decreases k - j,
{
    if j < k {
        assert(s[j] != ':' || s[j + 1] != ':');
        the_first_gap_is(s, j + 1, k);
    }
}

/// The groups of a text with colons between them; a text without characters has none.
pub open spec fn groups_in(s: Seq<char>) -> Seq<Seq<char>> {
    if s.len() == 0 {
        Seq::empty()
    } else {
        loopback::pieces(s, ':')
    }
}

/// Whether each of some groups has one to four hexadecimal digits.
pub open spec fn are_groups(p: Seq<Seq<char>>) -> bool {
    forall|i: int| 0 <= i < p.len() ==> 1 <= (#[trigger] p[i]).len() <= 4 && is_hexadecimal(p[i])
}

/// Whether a group is zero.
pub open spec fn is_zero_group(p: Seq<char>) -> bool {
    forall|j: int| 0 <= j < p.len() ==> #[trigger] p[j] == '0'
}

/// Two colons stand for at least one group of zero: groups around them are an address
/// of the local host just where there are at most seven, all zero but for a last one of
/// one behind the colons.
pub proof fn a_gap_stands_for_zeros(l: Seq<char>, r: Seq<char>)
    requires
        forall|i: int| 0 <= i < l.len() - 1 && #[trigger] l[i] == ':' ==> l[i + 1] != ':',
        l.len() > 0 ==> l[l.len() - 1] != ':',
        !l.contains('.'),
        !r.contains('.'),
        are_groups(groups_in(l)),
        are_groups(groups_in(r)),
    ensures
        loopback::is_loopback_address(l + seq![':', ':'] + r) <==> {
            let p = groups_in(l);
            let q = groups_in(r);
            &&& p.len() + q.len() <= 7
            &&& q.len() > 0
            &&& is_zeros_and_one(q[q.len() - 1])
            &&& forall|i: int| 0 <= i < p.len() ==> is_zero_group(#[trigger] p[i])
            &&& forall|i: int| 0 <= i < q.len() - 1 ==> is_zero_group(#[trigger] q[i])
        },
{
    let s = l + seq![':', ':'] + r;
    let k = l.len() as int;
    let p = groups_in(l);
    let q = groups_in(r);
    assert(!s.contains('.')) by {
        assert forall|i: int| 0 <= i < s.len() implies s[i] != '.' by {
            if i < k {
                assert(l.contains(l[i]));
            } else if i >= k + 2 {
                assert(r.contains(r[i - k - 2]));
            }
        }
    }
    an_undivided_text_is_one_piece(s, '.');
    assert forall|i: int| 0 <= i < k implies #[trigger] s[i] != ':' || s[i + 1] != ':' by {
        assert(s[i] == l[i]);
        if i < k - 1 {
            assert(s[i + 1] == l[i + 1]);
        }
    }
    the_first_gap_is(s, 0, k);
    assert(s.take(k) =~= l);
    assert(s.skip(k + 2) =~= r);
    all_groups_are_read(p);
    all_groups_are_read(q);
    let left = loopback::hex_groups(p)->0;
    let right = loopback::hex_groups(q)->0;
    reveal_with_fuel(loopback::hex_groups, 1);
    assert(loopback::left_groups(l) == Some(left)) by {
        if l.len() == 0 {
            assert(left =~= Seq::empty());
        }
    }
    assert(loopback::right_groups(r) == Some(right)) by {
        if r.len() == 0 {
            assert(right =~= Seq::empty());
        }
    }
    let one = loopback::ipv6_loopback();
    if p.len() + q.len() <= 7 {
        let all = left + loopback::zeros(8 - left.len() - right.len()) + right;
        assert(loopback::ipv6_groups(s) == Some(all));
        assert(all.len() == 8);
        assert forall|i: int| 0 <= i < p.len() implies (left[i] == 0 <==> is_zero_group(
            #[trigger] p[i],
        )) by {
            assert(Some(left[i]) == loopback::number(p[i], 16));
            small_numbers_have_small_digits(p[i], 16);
        }
        assert forall|i: int| 0 <= i < q.len() implies (right[i] == 0 <==> is_zero_group(
            #[trigger] q[i],
        )) && (right[i] == 1 <==> is_zeros_and_one(q[i])) by {
            assert(Some(right[i]) == loopback::number(q[i], 16));
            small_numbers_have_small_digits(q[i], 16);
        }
        let at = 8 - right.len();
        if all == one {
            if q.len() == 0 {
                assert(all[7] == 0);
                assert(one[7] == 1);
            }
            assert(all[7] == right[q.len() - 1]);
            assert(one[7] == 1);
            assert(q[q.len() - 1] == q.last());
            assert forall|i: int| 0 <= i < p.len() implies is_zero_group(#[trigger] p[i]) by {
                assert(all[i] == left[i]);
                assert(one[i] == 0);
            }
            assert forall|i: int| 0 <= i < q.len() - 1 implies is_zero_group(#[trigger] q[i]) by {
                assert(all[at + i] == right[i]);
                assert(one[at + i] == 0);
            }
        }
        if q.len() > 0 && is_zeros_and_one(q[q.len() - 1]) && (forall|i: int|
            0 <= i < p.len() ==> is_zero_group(#[trigger] p[i])) && (forall|i: int|
            0 <= i < q.len() - 1 ==> is_zero_group(#[trigger] q[i])) {
            assert forall|i: int| 0 <= i < 8 implies all[i] == one[i] by {
                if i < p.len() {
                    assert(is_zero_group(p[i]));
                    assert(all[i] == left[i]);
                } else if i >= at {
                    let j = i - at;
                    assert(all[i] == right[j]);
                    if j < q.len() - 1 {
                        assert(is_zero_group(q[j]));
                    } else {
                        assert(is_zeros_and_one(q[j]));
                    }
                }
            }
            assert(all =~= one);
        }
    }
}

} // verus!
