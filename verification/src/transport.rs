//! Which servers may be spoken to without encryption.
use vstd::prelude::*;

use crate::loopback;
use crate::loopback::is_loopback;
use crate::text::chars_of;
use crate::text::text_eq;

verus! {

/// The part of an address before the last colon; all of it where there is none.
pub open spec fn before_port(addr: Seq<char>) -> Seq<char> {
    match addr.index_of_last(':') {
        Some(i) => addr.take(i),
        None => addr,
    }
}

/// Whether a character is a square bracket.
pub open spec fn is_bracket(c: char) -> bool {
    c == '[' || c == ']'
}

/// A text without the square brackets at its ends.
pub open spec fn unbracketed(s: Seq<char>) -> Seq<char>
    decreases s.len(),
{
    if s.len() == 0 {
        s
    } else if is_bracket(s[0]) {
        unbracketed(s.drop_first())
    } else if is_bracket(s.last()) {
        unbracketed(s.drop_last())
    } else {
        s
    }
}

/// The host that an address names.
pub open spec fn host_of(addr: Seq<char>) -> Seq<char> {
    unbracketed(before_port(addr))
}

/// Whether a host is this machine: `localhost`, or a loopback address.
pub open spec fn is_local(host: Seq<char>) -> bool {
    host == "localhost"@ || loopback::is_loopback_address(host)
}

/// Whether a connection keeps the access token from the wire in the clear: it is
/// encrypted, or does not leave this machine.
pub open spec fn is_private(addr: Seq<char>, tls: bool) -> bool {
    tls || is_local(host_of(addr))
}

/// A server that is not local must not be spoken to in the clear.
#[derive(Debug, PartialEq, Eq)]
pub struct TransportError {
    pub addr: String,
}

impl TransportError {
    /// The error in words.
    pub fn message(&self) -> (text: String)
        ensures
            text@ == self.addr@
                + " は平文 TCP のリモート宛です。--tls を付けるか 127.0.0.1 を使ってください"@,
    {
        let mut text = self.addr.clone();
        text.append(
            " は平文 TCP のリモート宛です。--tls を付けるか 127.0.0.1 を使ってください",
        );
        text
    }
}

/// Finds the host that an address names.
fn find_host(addr: &str) -> (host: &str)
    ensures
        host@ == host_of(addr@),
{
    let chars = chars_of(addr);
    let n: usize = chars.len();
    let mut colon: usize = n;
    while colon > 0 && chars[colon - 1] != ':'
        invariant
            colon <= n == chars@.len(),
            forall|k: int| colon <= k < n ==> #[trigger] chars@[k] != ':',
        decreases colon,
    {
        colon = colon - 1;
    }
    let mut to: usize = if colon > 0 {
        colon - 1
    } else {
        n
    };
    proof {
        index_of_last_is(chars@, colon - 1);
        assert(chars@.take(to as int) =~= before_port(addr@));
        assert(chars@.subrange(0, to as int) =~= before_port(addr@));
    }
    let mut from: usize = 0;
    while from < to && (chars[from] == '[' || chars[from] == ']')
        invariant
            from <= to <= n == chars@.len(),
            unbracketed(chars@.subrange(from as int, to as int)) == host_of(addr@),
        decreases to - from,
    {
        proof {
            assert(chars@.subrange(from as int, to as int).drop_first() =~= chars@.subrange(
                from + 1,
                to as int,
            ));
        }
        from = from + 1;
    }
    while from < to && (chars[to - 1] == '[' || chars[to - 1] == ']')
        invariant
            from <= to <= n == chars@.len(),
            from < to ==> !is_bracket(chars@[from as int]),
            unbracketed(chars@.subrange(from as int, to as int)) == host_of(addr@),
        decreases to - from,
    {
        proof {
            assert(chars@.subrange(from as int, to as int).drop_last() =~= chars@.subrange(
                from as int,
                to - 1,
            ));
        }
        to = to - 1;
    }
    addr.substring_char(from, to)
}

/// The last place of a colon is the one after which there is none.
proof fn index_of_last_is(s: Seq<char>, i: int)
    requires
        -1 <= i < s.len(),
        i >= 0 ==> s[i] == ':',
        forall|k: int| i < k < s.len() ==> #[trigger] s[k] != ':',
    ensures
        s.index_of_last(':') == if i >= 0 {
            Some(i)
        } else {
            None
        },
{
    s.index_of_last_ensures(':');
    if i >= 0 {
        assert(s.contains(':'));
    }
}

/// Refuses a connection that would carry the access token in the clear.
pub fn validate_transport(addr: &str, tls: bool) -> (checked: Result<(), TransportError>)
    ensures
        checked is Ok <==> is_private(addr@, tls),
        checked matches Err(e) ==> e.addr@ == addr@,
{
    if tls {
        return Ok(());
    }
    let host = find_host(addr);
    if text_eq(host, "localhost") || is_loopback(&chars_of(host)) {
        return Ok(());
    }
    Err(TransportError { addr: addr.to_string() })
}

/// Whether a host, given without port and brackets, is this machine.
pub open spec fn is_this_machine(host: Seq<char>) -> bool {
    host == "localhost"@ || loopback::is_loopback_address(host)
}

proof fn the_last_colon_is(s: Seq<char>, port: Seq<char>)
    requires
        !port.contains(':'),
    ensures
        before_port(s + seq![':'] + port) == s,
{
    let addr = s + seq![':'] + port;
    let i = s.len() as int;
    assert forall|k: int| i < k < addr.len() implies #[trigger] addr[k] != ':' by {
        assert(addr[k] == port[k - i - 1]);
        assert(port.contains(port[k - i - 1]));
    }
    index_of_last_is(addr, i);
    assert(addr.take(i) =~= s);
}

/// An encrypted connection is always private. One in the clear is private just where
/// the host before the port is this machine, with or without brackets around it.
pub proof fn an_address_is_judged_by_its_host(host: Seq<char>, port: Seq<char>)
    requires
        host.len() > 0,
        host[0] != '[' && host[0] != ']',
        host[host.len() - 1] != '[' && host[host.len() - 1] != ']',
        !port.contains(':'),
    ensures
        is_private(host + seq![':'] + port, false) <==> is_this_machine(host),
        is_private(seq!['['] + host + seq![']'] + seq![':'] + port, false) <==> is_this_machine(
            host,
        ),
        !host.contains(':') ==> (is_private(host, false) <==> is_this_machine(host)),
        forall|addr: Seq<char>| #[trigger] is_private(addr, true),
{
    the_last_colon_is(host, port);
    let closed = seq!['['] + host + seq![']'];
    the_last_colon_is(closed, port);
    reveal_with_fuel(unbracketed, 3);
    assert(closed.drop_first() =~= host + seq![']']);
    assert((host + seq![']']).drop_last() =~= host);
    if !host.contains(':') {
        assert forall|k: int| -1 < k < host.len() implies #[trigger] host[k] != ':' by {
            assert(host.contains(host[k]));
        }
        index_of_last_is(host, -1);
    }
}

proof fn brackets_are_dropped(lead: Seq<char>, host: Seq<char>, tail: Seq<char>)
    requires
        host.len() > 0 ==> !is_bracket(host[0]) && !is_bracket(host[host.len() - 1]),
        forall|i: int| 0 <= i < lead.len() ==> is_bracket(#[trigger] lead[i]),
        forall|i: int| 0 <= i < tail.len() ==> is_bracket(#[trigger] tail[i]),
    ensures
        unbracketed(lead + host + tail) == host,
    decreases lead.len() + tail.len(),
{
    let all = lead + host + tail;
    if lead.len() > 0 {
        let rest = lead.drop_first();
        assert(is_bracket(lead[0]));
        assert forall|i: int| 0 <= i < rest.len() implies is_bracket(#[trigger] rest[i]) by {
            assert(rest[i] == lead[i + 1]);
        }
        brackets_are_dropped(rest, host, tail);
        assert(all.drop_first() =~= rest + host + tail);
    } else if tail.len() > 0 {
        let rest = tail.drop_last();
        assert(is_bracket(tail[0]));
        assert(is_bracket(tail[tail.len() - 1]));
        assert forall|i: int| 0 <= i < rest.len() implies is_bracket(#[trigger] rest[i]) by {
            assert(rest[i] == tail[i]);
        }
        if host.len() > 0 {
            brackets_are_dropped(lead, host, rest);
            assert(all.drop_last() =~= lead + host + rest);
        } else {
            let shorter = tail.drop_first();
            assert forall|i: int| 0 <= i < shorter.len() implies is_bracket(#[trigger] shorter[i]) by {
                assert(shorter[i] == tail[i + 1]);
            }
            brackets_are_dropped(lead, host, shorter);
            assert(all.drop_first() =~= lead + host + shorter);
        }
    } else {
        assert(all =~= host);
    }
}

/// All brackets at the ends of the part before the port are dropped from the host, and
/// none within it.
pub proof fn any_brackets_around_a_host_are_dropped(
    lead: Seq<char>,
    host: Seq<char>,
    tail: Seq<char>,
    port: Seq<char>,
)
    requires
        host.len() > 0 ==> host[0] != '[' && host[0] != ']' && host[host.len() - 1] != '['
            && host[host.len() - 1] != ']',
        forall|i: int| 0 <= i < lead.len() ==> #[trigger] lead[i] == '[' || lead[i] == ']',
        forall|i: int| 0 <= i < tail.len() ==> #[trigger] tail[i] == '[' || tail[i] == ']',
        !port.contains(':'),
    ensures
        is_private(lead + host + tail + seq![':'] + port, false) <==> is_this_machine(host),
{
    the_last_colon_is(lead + host + tail, port);
    brackets_are_dropped(lead, host, tail);
}

} // verus!
