//! Textual addresses of the local host: `127.0.0.0/8` in dotted decimal, and
//! `::1` in any of the spellings that an IPv6 address may have.
use vstd::prelude::*;

verus! {

/// The value of a decimal or hexadecimal digit.
pub open spec fn digit_value(c: char, radix: int) -> Option<int> {
    if '0' <= c <= '9' {
        Some(c as int - '0' as int)
    } else if radix == 16 && 'a' <= c <= 'f' {
        Some(c as int - 'a' as int + 10)
    } else if radix == 16 && 'A' <= c <= 'F' {
        Some(c as int - 'A' as int + 10)
    } else {
        None
    }
}

/// The value of a sequence of digits; the empty sequence counts as zero.
pub open spec fn number(s: Seq<char>, radix: int) -> Option<int>
    decreases s.len(),
{
    if s.len() == 0 {
        Some(0)
    } else {
        match (number(s.drop_last(), radix), digit_value(s.last(), radix)) {
            (Some(n), Some(d)) => Some(n * radix + d),
            _ => None,
        }
    }
}

/// The pieces of a text between the occurrences of a separator.
pub open spec fn pieces(s: Seq<char>, sep: char) -> Seq<Seq<char>>
    decreases s.len(),
{
    if s.len() == 0 {
        seq![Seq::empty()]
    } else {
        let before = pieces(s.drop_last(), sep);
        if s.last() == sep {
            before.push(Seq::empty())
        } else {
            before.drop_last().push(before.last().push(s.last()))
        }
    }
}

/// A number from 0 to 255 in decimal, without superfluous zeros.
pub open spec fn octet(s: Seq<char>) -> Option<int> {
    if 1 <= s.len() <= 3 && (s.len() == 1 || s[0] != '0') {
        match number(s, 10) {
            Some(n) => if n <= 255 {
                Some(n)
            } else {
                None
            },
            None => None,
        }
    } else {
        None
    }
}

/// The four numbers of an address in dotted decimal.
pub open spec fn dotted(s: Seq<char>) -> Option<(int, int, int, int)> {
    let p = pieces(s, '.');
    if p.len() == 4 {
        match (octet(p[0]), octet(p[1]), octet(p[2]), octet(p[3])) {
            (Some(a), Some(b), Some(c), Some(d)) => Some((a, b, c, d)),
            _ => None,
        }
    } else {
        None
    }
}

/// A group of one to four hexadecimal digits.
pub open spec fn hex_group(s: Seq<char>) -> Option<int> {
    if 1 <= s.len() <= 4 {
        number(s, 16)
    } else {
        None
    }
}

/// The values of a list of hexadecimal groups.
pub open spec fn hex_groups(p: Seq<Seq<char>>) -> Option<Seq<int>>
    decreases p.len(),
{
    if p.len() == 0 {
        Some(Seq::empty())
    } else {
        match (hex_groups(p.drop_last()), hex_group(p.last())) {
            (Some(before), Some(n)) => Some(before.push(n)),
            _ => None,
        }
    }
}

/// The values of a list of groups, the last of which may be an address in
/// dotted decimal that counts for two.
pub open spec fn mixed_groups(p: Seq<Seq<char>>) -> Option<Seq<int>> {
    match hex_groups(p) {
        Some(groups) => Some(groups),
        None => match (hex_groups(p.drop_last()), dotted(p.last())) {
            (Some(before), Some((a, b, c, d))) => Some(
                before.push(a * 256 + b).push(c * 256 + d),
            ),
            _ => None,
        },
    }
}

/// The groups on the left of a gap: none, or hexadecimal groups.
pub open spec fn left_groups(s: Seq<char>) -> Option<Seq<int>> {
    if s.len() == 0 {
        Some(Seq::empty())
    } else {
        hex_groups(pieces(s, ':'))
    }
}

/// The groups on the right of a gap: none, or a list that may end in dotted
/// decimal.
pub open spec fn right_groups(s: Seq<char>) -> Option<Seq<int>> {
    if s.len() == 0 {
        Some(Seq::empty())
    } else {
        mixed_groups(pieces(s, ':'))
    }
}

/// Where the first `::` at or after a position stands.
pub open spec fn gap_from(s: Seq<char>, k: int) -> Option<int>
    decreases s.len() - k,
{
    if k < 0 || k + 1 >= s.len() {
        None
    } else if s[k] == ':' && s[k + 1] == ':' {
        Some(k)
    } else {
        gap_from(s, k + 1)
    }
}

/// So many groups of value zero.
pub open spec fn zeros(n: int) -> Seq<int> {
    Seq::new(n as nat, |i: int| 0int)
}

/// The eight groups of an IPv6 address. A `::` stands for one or more groups of
/// value zero.
pub open spec fn ipv6_groups(s: Seq<char>) -> Option<Seq<int>> {
    match gap_from(s, 0) {
        None => match mixed_groups(pieces(s, ':')) {
            Some(groups) => if groups.len() == 8 {
                Some(groups)
            } else {
                None
            },
            None => None,
        },
        Some(k) => match (left_groups(s.take(k)), right_groups(s.skip(k + 2))) {
            (Some(left), Some(right)) => if left.len() + right.len() <= 7 {
                Some(left + zeros(8 - left.len() - right.len()) + right)
            } else {
                None
            },
            _ => None,
        },
    }
}

/// The loopback address of IPv6.
pub open spec fn ipv6_loopback() -> Seq<int> {
    seq![0int, 0, 0, 0, 0, 0, 0, 1]
}

/// Whether a text is an address of the local host.
pub open spec fn is_loopback_address(s: Seq<char>) -> bool {
    match dotted(s) {
        Some((a, _, _, _)) => a == 127,
        None => ipv6_groups(s) == Some(ipv6_loopback()),
    }
}

fn read_digit(c: char, radix: u32) -> (d: Option<u32>)
    requires
        radix == 10 || radix == 16,
    ensures
        match d {
            Some(n) => digit_value(c, radix as int) == Some(n as int) && n < radix,
            None => digit_value(c, radix as int) is None,
        },
{
    if '0' <= c && c <= '9' {
        Some(c as u32 - '0' as u32)
    } else if radix == 16 && 'a' <= c && c <= 'f' {
        Some(c as u32 - 'a' as u32 + 10)
    } else if radix == 16 && 'A' <= c && c <= 'F' {
        Some(c as u32 - 'A' as u32 + 10)
    } else {
        None
    }
}

/// A prefix that is no number makes a longer text none either.
proof fn number_needs_prefix(s: Seq<char>, radix: int, k: int)
    requires
        0 <= k <= s.len(),
        number(s.take(k), radix) is None,
    ensures
        number(s, radix) is None,
    decreases s.len() - k,
{
    if k < s.len() {
        assert(s.take(k + 1).drop_last() =~= s.take(k));
        number_needs_prefix(s, radix, k + 1);
    } else {
        assert(s.take(k) =~= s);
    }
}

/// Reads at most four digits.
fn read_number(s: &Vec<char>, radix: u32) -> (n: Option<u32>)
    requires
        radix == 10 || radix == 16,
        s@.len() <= 4,
    ensures
        match n {
            Some(n) => number(s@, radix as int) == Some(n as int) && n < 65536,
            None => number(s@, radix as int) is None,
        },
{
    let mut n: u32 = 0;
    let mut i: usize = 0;
    while i < s.len()
        invariant
            i <= s@.len() <= 4,
            radix == 10 || radix == 16,
            number(s@.take(i as int), radix as int) == Some(n as int),
            i == 0 ==> n == 0,
            i == 1 ==> n < 16,
            i == 2 ==> n < 256,
            i == 3 ==> n < 4096,
            i == 4 ==> n < 65536,
        decreases s@.len() - i,
    {
        proof {
            assert(s@.take(i + 1).drop_last() =~= s@.take(i as int));
            assert(s@.take(i + 1).last() == s@[i as int]);
        }
        match read_digit(s[i], radix) {
            Some(d) => {
                if radix == 10 {
                    n = n * 10 + d;
                } else {
                    n = n * 16 + d;
                }
            },
            None => {
                proof {
                    number_needs_prefix(s@, radix as int, i + 1);
                }
                return None;
            },
        }
        i = i + 1;
    }
    proof {
        assert(s@.take(s@.len() as int) =~= s@);
    }
    Some(n)
}

/// What a list of pieces denotes.
pub open spec fn piece_views(p: Seq<Vec<char>>) -> Seq<Seq<char>> {
    p.map_values(|v: Vec<char>| v@)
}

/// Divides a text at a separator.
fn split_at_all(s: &Vec<char>, sep: char) -> (p: Vec<Vec<char>>)
    ensures
        piece_views(p@) == pieces(s@, sep),
        p@.len() > 0,
{
    let mut done: Vec<Vec<char>> = Vec::new();
    let mut current: Vec<char> = Vec::new();
    proof {
        assert(piece_views(done@).push(current@) =~= pieces(s@.take(0), sep));
    }
    let mut i: usize = 0;
    while i < s.len()
        invariant
            i <= s@.len(),
            piece_views(done@).push(current@) == pieces(s@.take(i as int), sep),
        decreases s@.len() - i,
    {
        let ghost before = piece_views(done@).push(current@);
        let ghost last = current@;
        proof {
            assert(s@.take(i + 1).drop_last() =~= s@.take(i as int));
            assert(s@.take(i + 1).last() == s@[i as int]);
            assert(before.last() == last);
            assert(before.drop_last() =~= piece_views(done@));
        }
        if s[i] == sep {
            let ghost earlier = piece_views(done@);
            done.push(current);
            current = Vec::new();
            proof {
                assert(piece_views(done@) =~= earlier.push(last));
                assert(current@ =~= Seq::<char>::empty());
            }
        } else {
            current.push(s[i]);
        }
        i = i + 1;
    }
    let ghost earlier = piece_views(done@);
    let ghost last = current@;
    done.push(current);
    proof {
        assert(piece_views(done@) =~= earlier.push(last));
        assert(s@.take(s@.len() as int) =~= s@);
    }
    done
}

fn read_octet(s: &Vec<char>) -> (n: Option<u32>)
    ensures
        match n {
            Some(n) => octet(s@) == Some(n as int) && n <= 255,
            None => octet(s@) is None,
        },
{
    if s.len() < 1 || s.len() > 3 || (s.len() > 1 && s[0] == '0') {
        return None;
    }
    match read_number(s, 10) {
        Some(n) => if n <= 255 {
            Some(n)
        } else {
            None
        },
        None => None,
    }
}

fn read_dotted(s: &Vec<char>) -> (quad: Option<(u32, u32, u32, u32)>)
    ensures
        match quad {
            Some((a, b, c, d)) => dotted(s@) == Some((a as int, b as int, c as int, d as int)) && a
                <= 255 && b <= 255 && c <= 255 && d <= 255,
            None => dotted(s@) is None,
        },
{
    let p = split_at_all(s, '.');
    if p.len() != 4 {
        return None;
    }
    proof {
        let views = piece_views(p@);
        assert(views[0] == p@[0]@);
        assert(views[1] == p@[1]@);
        assert(views[2] == p@[2]@);
        assert(views[3] == p@[3]@);
    }
    match (read_octet(&p[0]), read_octet(&p[1]), read_octet(&p[2]), read_octet(&p[3])) {
        (Some(a), Some(b), Some(c), Some(d)) => Some((a, b, c, d)),
        _ => None,
    }
}

fn read_hex_group(s: &Vec<char>) -> (n: Option<u32>)
    ensures
        match n {
            Some(n) => hex_group(s@) == Some(n as int),
            None => hex_group(s@) is None,
        },
{
    if s.len() < 1 || s.len() > 4 {
        return None;
    }
    read_number(s, 16)
}

/// The values of a list of groups.
pub open spec fn values(groups: Seq<u32>) -> Seq<int> {
    groups.map_values(|n: u32| n as int)
}

proof fn hex_groups_need_prefix(p: Seq<Seq<char>>, k: int)
    requires
        0 <= k <= p.len(),
        hex_groups(p.take(k)) is None,
    ensures
        hex_groups(p) is None,
    decreases p.len() - k,
{
    if k < p.len() {
        assert(p.take(k + 1).drop_last() =~= p.take(k));
        hex_groups_need_prefix(p, k + 1);
    } else {
        assert(p.take(k) =~= p);
    }
}

/// Reads the first `n` pieces as hexadecimal groups.
fn read_hex_groups(p: &Vec<Vec<char>>, n: usize) -> (groups: Option<Vec<u32>>)
    requires
        n <= p@.len(),
    ensures
        match groups {
            Some(g) => hex_groups(piece_views(p@).take(n as int)) == Some(values(g@)),
            None => hex_groups(piece_views(p@).take(n as int)) is None,
        },
{
    let ghost views = piece_views(p@).take(n as int);
    let mut groups: Vec<u32> = Vec::new();
    proof {
        assert(values(groups@) =~= Seq::empty());
        assert(views.take(0).len() == 0);
    }
    let mut i: usize = 0;
    while i < n
        invariant
            i <= n <= p@.len(),
            views == piece_views(p@).take(n as int),
            hex_groups(views.take(i as int)) == Some(values(groups@)),
        decreases n - i,
    {
        let ghost before = groups@;
        proof {
            assert(views.take(i + 1).drop_last() =~= views.take(i as int));
            assert(views.take(i + 1).last() == p@[i as int]@);
        }
        match read_hex_group(&p[i]) {
            Some(value) => {
                groups.push(value);
                proof {
                    assert(values(groups@) =~= values(before).push(value as int));
                }
            },
            None => {
                proof {
                    hex_groups_need_prefix(views, i + 1);
                }
                return None;
            },
        }
        i = i + 1;
    }
    proof {
        assert(views.take(n as int) =~= views);
    }
    Some(groups)
}

fn read_mixed_groups(p: &Vec<Vec<char>>) -> (groups: Option<Vec<u32>>)
    requires
        p@.len() > 0,
    ensures
        match groups {
            Some(g) => mixed_groups(piece_views(p@)) == Some(values(g@)),
            None => mixed_groups(piece_views(p@)) is None,
        },
{
    let ghost views = piece_views(p@);
    let n: usize = p.len();
    proof {
        assert(views.take(n as int) =~= views);
        assert(views.take(n - 1) =~= views.drop_last());
        assert(views.last() == p@[n - 1]@);
    }
    if let Some(groups) = read_hex_groups(p, n) {
        return Some(groups);
    }
    match (read_hex_groups(p, n - 1), read_dotted(&p[n - 1])) {
        (Some(mut groups), Some((a, b, c, d))) => {
            let ghost before = groups@;
            groups.push(a * 256 + b);
            groups.push(c * 256 + d);
            proof {
                assert(values(groups@) =~= values(before).push(a * 256 + b).push(c * 256 + d));
            }
            Some(groups)
        },
        _ => None,
    }
}

fn read_left_groups(s: &Vec<char>) -> (groups: Option<Vec<u32>>)
    ensures
        match groups {
            Some(g) => left_groups(s@) == Some(values(g@)),
            None => left_groups(s@) is None,
        },
{
    if s.len() == 0 {
        let groups: Vec<u32> = Vec::new();
        proof {
            assert(values(groups@) =~= Seq::empty());
        }
        return Some(groups);
    }
    let p = split_at_all(s, ':');
    proof {
        assert(piece_views(p@).take(p@.len() as int) =~= piece_views(p@));
    }
    read_hex_groups(&p, p.len())
}

fn read_right_groups(s: &Vec<char>) -> (groups: Option<Vec<u32>>)
    ensures
        match groups {
            Some(g) => right_groups(s@) == Some(values(g@)),
            None => right_groups(s@) is None,
        },
{
    if s.len() == 0 {
        let groups: Vec<u32> = Vec::new();
        proof {
            assert(values(groups@) =~= Seq::empty());
        }
        return Some(groups);
    }
    let p = split_at_all(s, ':');
    read_mixed_groups(&p)
}

fn find_gap(s: &Vec<char>) -> (gap: Option<usize>)
    ensures
        match gap {
            Some(k) => gap_from(s@, 0) == Some(k as int) && k + 2 <= s@.len(),
            None => gap_from(s@, 0) is None,
        },
{
    let mut k: usize = 0;
    while k < s.len() && s.len() - k > 1
        invariant
            k <= s@.len(),
            gap_from(s@, 0) == gap_from(s@, k as int),
        decreases s@.len() - k,
    {
        if s[k] == ':' && s[k + 1] == ':' {
            return Some(k);
        }
        k = k + 1;
    }
    None
}

/// Copies the characters from one position up to another.
fn copy_range(s: &Vec<char>, from: usize, to: usize) -> (part: Vec<char>)
    requires
        from <= to <= s@.len(),
    ensures
        part@ == s@.subrange(from as int, to as int),
{
    let mut part: Vec<char> = Vec::new();
    let mut i: usize = from;
    while i < to
        invariant
            from <= i <= to <= s@.len(),
            part@ == s@.subrange(from as int, i as int),
        decreases to - i,
    {
        part.push(s[i]);
        proof {
            assert(s@.subrange(from as int, i + 1) =~= s@.subrange(from as int, i as int).push(
                s@[i as int],
            ));
        }
        i = i + 1;
    }
    part
}

/// Whether the groups are all zero but for a last one of value one.
spec fn is_one(groups: Seq<u32>) -> bool {
    groups.len() > 0 && groups.last() == 1 && forall|i: int|
        0 <= i < groups.len() - 1 ==> #[trigger] groups[i] == 0
}

fn ends_in_one(groups: &Vec<u32>) -> (b: bool)
    ensures
        b == is_one(groups@),
{
    let n: usize = groups.len();
    if n == 0 || groups[n - 1] != 1 {
        return false;
    }
    let mut i: usize = 0;
    while i < n - 1
        invariant
            0 < n == groups@.len(),
            i < n,
            forall|k: int| 0 <= k < i ==> #[trigger] groups@[k] == 0,
        decreases n - i,
    {
        if groups[i] != 0 {
            return false;
        }
        i = i + 1;
    }
    true
}

fn all_zero(groups: &Vec<u32>) -> (b: bool)
    ensures
        b == (forall|i: int| 0 <= i < groups@.len() ==> #[trigger] groups@[i] == 0),
{
    let mut i: usize = 0;
    while i < groups.len()
        invariant
            i <= groups@.len(),
            forall|k: int| 0 <= k < i ==> #[trigger] groups@[k] == 0,
        decreases groups@.len() - i,
    {
        if groups[i] != 0 {
            return false;
        }
        i = i + 1;
    }
    true
}

/// Eight groups are the loopback address where they are zero but for a last one
/// of value one.
proof fn eight_groups_are_loopback(groups: Seq<u32>)
    requires
        groups.len() == 8,
    ensures
        (values(groups) == ipv6_loopback()) == is_one(groups),
{
    let g = values(groups);
    let one = ipv6_loopback();
    if is_one(groups) {
        assert(g =~= one);
    }
    if g == one {
        assert(g[7] == groups[7]);
        assert forall|i: int| 0 <= i < 7 implies #[trigger] groups[i] == 0 by {
            assert(g[i] == one[i]);
        }
    }
}

/// Groups around a gap are the loopback address where those on the left are zero,
/// and so are those on the right but for a last one of value one.
proof fn gapped_groups_are_loopback(left: Seq<u32>, right: Seq<u32>)
    requires
        left.len() + right.len() <= 7,
    ensures
        (values(left) + zeros(8 - left.len() - right.len()) + values(right) == ipv6_loopback())
            == ((forall|i: int| 0 <= i < left.len() ==> #[trigger] left[i] == 0) && is_one(right)),
{
    let n = left.len() as int;
    let m = right.len() as int;
    let g = values(left) + zeros(8 - n - m) + values(right);
    let one = ipv6_loopback();
    assert(g.len() == 8);
    if (forall|i: int| 0 <= i < n ==> #[trigger] left[i] == 0) && is_one(right) {
        assert(g =~= one);
    }
    if g == one {
        assert forall|i: int| 0 <= i < n implies #[trigger] left[i] == 0 by {
            assert(g[i] == left[i]);
            assert(one[i] == 0);
        }
        if m == 0 {
            assert(g[7] == 0);
        } else {
            assert(g[7] == right[m - 1]);
            assert forall|i: int| 0 <= i < m - 1 implies #[trigger] right[i] == 0 by {
                assert(g[8 - m + i] == right[i]);
                assert(one[8 - m + i] == 0);
            }
        }
    }
}

fn is_ipv6_loopback(s: &Vec<char>) -> (b: bool)
    ensures
        b == (ipv6_groups(s@) == Some(ipv6_loopback())),
{
    let len: usize = s.len();
    match find_gap(s) {
        None => {
            let p = split_at_all(s, ':');
            match read_mixed_groups(&p) {
                Some(groups) => {
                    if groups.len() != 8 {
                        return false;
                    }
                    proof {
                        eight_groups_are_loopback(groups@);
                    }
                    ends_in_one(&groups)
                },
                None => false,
            }
        },
        Some(k) => {
            let left_text = copy_range(s, 0, k);
            let right_text = copy_range(s, k + 2, len);
            proof {
                assert(left_text@ =~= s@.take(k as int));
                assert(right_text@ =~= s@.skip(k + 2));
            }
            match (read_left_groups(&left_text), read_right_groups(&right_text)) {
                (Some(left), Some(right)) => {
                    if left.len() > 7 || right.len() > 7 - left.len() {
                        return false;
                    }
                    proof {
                        gapped_groups_are_loopback(left@, right@);
                    }
                    all_zero(&left) && ends_in_one(&right)
                },
                _ => false,
            }
        },
    }
}

/// Tells whether a text is an address of the local host.
pub fn is_loopback(s: &Vec<char>) -> (b: bool)
    ensures
        b == is_loopback_address(s@),
{
    match read_dotted(s) {
        Some((a, _, _, _)) => a == 127,
        None => is_ipv6_loopback(s),
    }
}

} // verus!
