//! Reading the logs of a server that was started for a test.
use vstd::prelude::*;

use crate::text::chars_of;

verus! {

/// Whether a character is white space.
pub open spec fn is_space(c: char) -> bool {
    ||| '\u{9}' <= c <= '\u{d}'
    ||| c == ' '
    ||| c == '\u{85}'
    ||| c == '\u{a0}'
    ||| c == '\u{1680}'
    ||| '\u{2000}' <= c <= '\u{200a}'
    ||| c == '\u{2028}'
    ||| c == '\u{2029}'
    ||| c == '\u{202f}'
    ||| c == '\u{205f}'
    ||| c == '\u{3000}'
}

/// A text without the white space at its ends.
pub open spec fn trimmed(s: Seq<char>) -> Seq<char>
    decreases s.len(),
{
    if s.len() == 0 {
        s
    } else if is_space(s[0]) {
        trimmed(s.drop_first())
    } else if is_space(s.last()) {
        trimmed(s.drop_last())
    } else {
        s
    }
}

/// Whether a text has another at a position.
pub open spec fn occurs_at(s: Seq<char>, part: Seq<char>, k: int) -> bool {
    0 <= k && k + part.len() <= s.len() && s.subrange(k, k + part.len()) == part
}

/// Where a text first has another, at or after a position.
pub open spec fn find_from(s: Seq<char>, part: Seq<char>, k: int) -> Option<int>
    decreases s.len() + 1 - k,
{
    if k < 0 || k + part.len() > s.len() {
        None
    } else if occurs_at(s, part, k) {
        Some(k)
    } else {
        find_from(s, part, k + 1)
    }
}

/// Where the line ends that a position is on.
pub open spec fn line_end(s: Seq<char>, k: int) -> int
    decreases s.len() - k,
{
    if k < 0 || k >= s.len() {
        s.len() as int
    } else if s[k] == '\n' {
        k
    } else {
        line_end(s, k + 1)
    }
}

/// What the password stands behind.
pub open spec fn marker() -> Seq<char> {
    "Generated root user password: "@
}

/// The password that a log shows: what follows the marker on the first line that
/// has one.
pub open spec fn password_in(log: Seq<char>) -> Option<Seq<char>> {
    match find_from(log, marker(), 0) {
        Some(k) => {
            let from = k + marker().len();
            Some(trimmed(log.subrange(from, line_end(log, from))))
        },
        None => None,
    }
}

fn space(c: char) -> (b: bool)
    ensures
        b == is_space(c),
{
    ('\u{9}' <= c && c <= '\u{d}') || c == ' ' || c == '\u{85}' || c == '\u{a0}' || c
        == '\u{1680}' || ('\u{2000}' <= c && c <= '\u{200a}') || c == '\u{2028}' || c
        == '\u{2029}' || c == '\u{202f}' || c == '\u{205f}' || c == '\u{3000}'
}

fn is_at(s: &Vec<char>, part: &Vec<char>, k: usize) -> (b: bool)
    requires
        k + part@.len() <= s@.len(),
    ensures
        b == occurs_at(s@, part@, k as int),
{
    let n: usize = s.len();
    let mut i: usize = 0;
    while i < part.len()
        invariant
            i <= part@.len(),
            n == s@.len(),
            k + part@.len() <= s@.len(),
            forall|j: int| 0 <= j < i ==> s@[k + j] == #[trigger] part@[j],
        decreases part@.len() - i,
    {
        if s[k + i] != part[i] {
            proof {
                assert(s@.subrange(k as int, k + part@.len())[i as int] == s@[k + i]);
            }
            return false;
        }
        i = i + 1;
    }
    proof {
        assert(s@.subrange(k as int, k + part@.len()) =~= part@);
    }
    true
}

fn find(s: &Vec<char>, part: &Vec<char>) -> (found: Option<usize>)
    requires
        part@.len() > 0,
    ensures
        match found {
            Some(k) => find_from(s@, part@, 0) == Some(k as int) && k + part@.len() <= s@.len(),
            None => find_from(s@, part@, 0) is None,
        },
{
    let n: usize = s.len();
    let mut k: usize = 0;
    while part.len() <= n - k
        invariant
            k <= n == s@.len(),
            part@.len() > 0,
            find_from(s@, part@, 0) == find_from(s@, part@, k as int),
        decreases n - k,
    {
        if is_at(s, part, k) {
            return Some(k);
        }
        k = k + 1;
    }
    None
}

/// Finds the password that a log shows.
pub fn find_password(log: &str) -> (password: Option<String>)
    ensures
        match password {
            Some(s) => password_in(log@) == Some(s@),
            None => password_in(log@) is None,
        },
{
    let chars = chars_of(log);
    let mark = chars_of("Generated root user password: ");
    proof {
        reveal_strlit("Generated root user password: ");
    }
    let n: usize = chars.len();
    let mut from: usize = match find(&chars, &mark) {
        Some(k) => k + mark.len(),
        None => {
            return None;
        },
    };
    let mut to: usize = from;
    while to < n && chars[to] != '\n'
        invariant
            from <= to <= n == chars@.len(),
            line_end(chars@, from as int) == line_end(chars@, to as int),
        decreases chars@.len() - to,
    {
        to = to + 1;
    }
    let ghost line = chars@.subrange(from as int, to as int);
    while from < to && space(chars[from])
        invariant
            from <= to <= chars@.len(),
            trimmed(chars@.subrange(from as int, to as int)) == trimmed(line),
        decreases to - from,
    {
        proof {
            assert(chars@.subrange(from as int, to as int).drop_first() =~= chars@.subrange(
                from + 1,
                to as int,
            ));
        }
        from = from + 1;
    }
    while from < to && space(chars[to - 1])
        invariant
            from <= to <= chars@.len(),
            from < to ==> !is_space(chars@[from as int]),
            trimmed(chars@.subrange(from as int, to as int)) == trimmed(line),
        decreases to - from,
    {
        proof {
            assert(chars@.subrange(from as int, to as int).drop_last() =~= chars@.subrange(
                from as int,
                to - 1,
            ));
        }
        to = to - 1;
    }
    Some(log.substring_char(from, to).to_string())
}

/// The password that a server shows in its output or its error stream.
pub open spec fn password_of(stdout: Seq<char>, stderr: Seq<char>) -> Option<Seq<char>> {
    match password_in(stdout) {
        Some(s) => Some(s),
        None => password_in(stderr),
    }
}

/// Finds the password that the output of a server shows, or else what it wrote to
/// its error stream.
pub fn generated_password(stdout: &str, stderr: &str) -> (password: Option<String>)
    ensures
        match password {
            Some(s) => password_of(stdout@, stderr@) == Some(s@),
            None => password_of(stdout@, stderr@) is None,
        },
        match password {
            Some(s) => Some(s@),
            None => None,
        } == match password_in(stdout@) {
            Some(s) => Some(s),
            None => password_in(stderr@),
        },
{
    match find_password(stdout) {
        Some(s) => Some(s),
        None => find_password(stderr),
    }
}

/// Whether a text has the marker nowhere before a position.
pub open spec fn is_unmarked_before(log: Seq<char>, k: int) -> bool {
    forall|i: int| 0 <= i < k ==> !#[trigger] occurs_at(log, "Generated root user password: "@, i)
}

proof fn the_first_is_found(s: Seq<char>, part: Seq<char>, j: int, k: int)
    requires
        0 <= j <= k,
        occurs_at(s, part, k),
        forall|i: int| j <= i < k ==> !#[trigger] occurs_at(s, part, i),
    ensures
        find_from(s, part, j) == Some(k),
    decreases k - j,
{
    if j < k {
        assert(!occurs_at(s, part, j));
        the_first_is_found(s, part, j + 1, k);
    }
}

proof fn nothing_is_found(s: Seq<char>, part: Seq<char>, j: int)
    requires
        0 <= j,
        forall|i: int| j <= i ==> !#[trigger] occurs_at(s, part, i),
    ensures
        find_from(s, part, j) is None,
    decreases s.len() + 1 - j,
{
    if j + part.len() <= s.len() {
        assert(!occurs_at(s, part, j));
        nothing_is_found(s, part, j + 1);
    }
}

proof fn the_line_ends(s: Seq<char>, k: int, end: int)
    requires
        0 <= k <= end <= s.len(),
        forall|i: int| k <= i < end ==> #[trigger] s[i] != '\n',
        end < s.len() ==> s[end] == '\n',
    ensures
        line_end(s, k) == end,
    decreases end - k,
{
    if k < end {
        assert(s[k] != '\n');
        the_line_ends(s, k + 1, end);
    }
}

/// The password is what stands behind the first marker, up to the end of its line; a
/// log without a marker shows none.
pub proof fn the_password_stands_behind_the_marker(
    before: Seq<char>,
    password: Seq<char>,
    after: Seq<char>,
)
    requires
        password.len() > 0,
        !is_space(password[0]),
        !is_space(password[password.len() - 1]),
        forall|i: int| 0 <= i < password.len() ==> #[trigger] password[i] != '\n',
        after.len() > 0 ==> after[0] == '\n',
        is_unmarked_before(
            before + "Generated root user password: "@ + password + after,
            before.len() as int,
        ),
    ensures
        password_in(before + "Generated root user password: "@ + password + after) == Some(password),
{
    let mark = "Generated root user password: "@;
    let log = before + mark + password + after;
    let k = before.len() as int;
    let from = k + mark.len();
    let end = from + password.len();
    assert(log.subrange(k, k + mark.len()) =~= mark);
    assert(occurs_at(log, mark, k));
    the_first_is_found(log, mark, 0, k);
    assert forall|i: int| from <= i < end implies #[trigger] log[i] != '\n' by {
        assert(log[i] == password[i - from]);
    }
    the_line_ends(log, from, end);
    assert(log.subrange(from, end) =~= password);
}

/// A log without the marker shows no password.
pub proof fn no_marker_no_password(log: Seq<char>)
    requires
        forall|k: int| !#[trigger] occurs_at(log, "Generated root user password: "@, k),
    ensures
        password_in(log) is None,
{
    nothing_is_found(log, "Generated root user password: "@, 0);
}

/// Blanks, tabs and carriage returns are white space; the signs that a password is made
/// of are not.
pub proof fn signs_are_no_space(c: char)
    ensures
        is_space(' ') && is_space('\t') && is_space('\r') && is_space('\n'),
        '!' <= c <= '~' ==> !is_space(c),
{
}

proof fn trimming_takes_the_space(lead: Seq<char>, s: Seq<char>, tail: Seq<char>)
    requires
        s.len() > 0,
        !is_space(s[0]),
        !is_space(s[s.len() - 1]),
        forall|i: int| 0 <= i < lead.len() ==> is_space(#[trigger] lead[i]),
        forall|i: int| 0 <= i < tail.len() ==> is_space(#[trigger] tail[i]),
    ensures
        trimmed(lead + s + tail) == s,
    decreases lead.len() + tail.len(),
{
    let all = lead + s + tail;
    if lead.len() > 0 {
        let rest = lead.drop_first();
        assert(is_space(lead[0]));
        assert forall|i: int| 0 <= i < rest.len() implies is_space(#[trigger] rest[i]) by {
            assert(rest[i] == lead[i + 1]);
        }
        trimming_takes_the_space(rest, s, tail);
        assert(all.drop_first() =~= rest + s + tail);
    } else if tail.len() > 0 {
        let rest = tail.drop_last();
        assert(is_space(tail[tail.len() - 1]));
        assert forall|i: int| 0 <= i < rest.len() implies is_space(#[trigger] rest[i]) by {
            assert(rest[i] == tail[i]);
        }
        trimming_takes_the_space(lead, s, rest);
        assert(all[0] == s[0]);
        assert(all.drop_last() =~= lead + s + rest);
    } else {
        assert(all =~= s);
    }
}

/// White space around a password is no part of it.
pub proof fn space_around_a_password_is_dropped(
    before: Seq<char>,
    lead: Seq<char>,
    password: Seq<char>,
    tail: Seq<char>,
    after: Seq<char>,
)
    requires
        password.len() > 0,
        !is_space(password[0]),
        !is_space(password[password.len() - 1]),
        forall|i: int| 0 <= i < password.len() ==> #[trigger] password[i] != '\n',
        forall|i: int|
            0 <= i < lead.len() ==> is_space(#[trigger] lead[i]) && lead[i] != '\n',
        forall|i: int|
            0 <= i < tail.len() ==> is_space(#[trigger] tail[i]) && tail[i] != '\n',
        after.len() > 0 ==> after[0] == '\n',
        is_unmarked_before(
            before + "Generated root user password: "@ + (lead + password + tail) + after,
            before.len() as int,
        ),
    ensures
        password_in(before + "Generated root user password: "@ + (lead + password + tail) + after)
            == Some(password),
{
    let mark = "Generated root user password: "@;
    let line = lead + password + tail;
    let log = before + mark + line + after;
    let k = before.len() as int;
    let from = k + mark.len();
    let end = from + line.len();
    assert(log.subrange(k, k + mark.len()) =~= mark);
    assert(occurs_at(log, mark, k));
    the_first_is_found(log, mark, 0, k);
    assert forall|i: int| from <= i < end implies #[trigger] log[i] != '\n' by {
        let j = i - from;
        assert(log[i] == line[j]);
        if j < lead.len() {
            assert(line[j] == lead[j]);
        } else if j < lead.len() + password.len() {
            assert(line[j] == password[j - lead.len()]);
        } else {
            assert(line[j] == tail[j - lead.len() - password.len()]);
        }
    }
    the_line_ends(log, from, end);
    assert(log.subrange(from, end) =~= line);
    trimming_takes_the_space(lead, password, tail);
}

/// The output goes before the error stream, which is only looked at where the output
/// shows no password.
pub proof fn the_output_goes_before_the_error_stream(stdout: Seq<char>, stderr: Seq<char>)
    ensures
        password_in(stdout) is Some ==> password_of(stdout, stderr) == password_in(stdout),
        password_in(stdout) is None ==> password_of(stdout, stderr) == password_in(stderr),
{
}

} // verus!
