//! The members of an object are found where its text writes them.
use vstd::prelude::*;

use crate::json;
use crate::members;
use crate::members::MemberView;
use crate::members::ScanView;
use crate::members::SpanView;

verus! {

/// Whether a text is made of blanks and line breaks.
pub open spec fn is_blank(s: Seq<u8>) -> bool {
    forall|i: int|
        0 <= i < s.len() ==> (#[trigger] s[i] == 0x20 || s[i] == 0x09 || s[i] == 0x0a || s[i]
            == 0x0d)
}

/// Whether a text can stand between the quotes of a string: a backslash is
/// followed by another byte, and no quote stands on its own.
pub open spec fn is_string_body(s: Seq<u8>) -> bool
    decreases s.len(),
{
    if s.len() == 0 {
        true
    } else if s[0] == 0x5c {
        s.len() >= 2 && is_string_body(s.skip(2))
    } else {
        s[0] != 0x22 && is_string_body(s.skip(1))
    }
}

/// Whether a text is that of a string, quotes included.
pub open spec fn is_string(s: Seq<u8>) -> bool {
    s.len() >= 2 && s[0] == 0x22 && s.last() == 0x22 && is_string_body(s.subrange(1, s.len() - 1))
}

/// The bracket that closes another.
pub open spec fn closing(b: u8) -> u8 {
    if b == 0x7b {
        0x7d
    } else {
        0x5d
    }
}

/// Whether a byte is neither a quote nor a bracket.
pub open spec fn is_plain(b: u8) -> bool {
    b != 0x22 && b != 0x7b && b != 0x7d && b != 0x5b && b != 0x5d
}

/// Whether a text is made of strings, of texts of this kind in brackets that match,
/// and of other bytes. Where it must not be cut in two, the other bytes hold no
/// comma and no colon.
pub open spec fn is_nested(v: Seq<u8>, uncut: bool) -> bool
    decreases v.len(),
{
    ||| v.len() == 0
    ||| v[0] == 0x22 && exists|k: int|
        2 <= k <= v.len() && is_string(#[trigger] v.take(k)) && is_nested(v.skip(k), uncut)
    ||| (v[0] == 0x7b || v[0] == 0x5b) && exists|k: int|
        1 <= k < v.len() && #[trigger] v[k] == closing(v[0]) && is_nested(v.subrange(1, k), false)
            && is_nested(v.skip(k + 1), uncut)
    ||| is_plain(v[0]) && (uncut ==> v[0] != 0x2c && v[0] != 0x3a) && is_nested(v.skip(1), uncut)
}

/// A member as its text has it: the key in its quotes, blanks around it, and what
/// follows the colon.
pub struct MemberText {
    pub before: Seq<u8>,
    pub key: Seq<u8>,
    pub after: Seq<u8>,
    pub value: Seq<u8>,
}

impl MemberText {
    /// Whether the parts of the member have the form that they must have.
    pub open spec fn is_valid(self) -> bool {
        is_blank(self.before) && is_string(self.key) && is_blank(self.after) && is_nested(
            self.value,
            true,
        )
    }

    /// The text of the member.
    pub open spec fn text(self) -> Seq<u8> {
        self.before + self.key + self.after + seq![0x3au8] + self.value
    }

    /// Where its key stands, if its text begins at a position.
    pub open spec fn key_span(self, at: int) -> SpanView {
        SpanView {
            from: at + self.before.len(),
            to: at + self.before.len() + self.key.len(),
        }
    }

    /// Where its value stands, if its text begins at a position.
    pub open spec fn value_span(self, at: int) -> SpanView {
        SpanView {
            from: at + self.before.len() + self.key.len() + self.after.len() + 1,
            to: at + self.text().len(),
        }
    }
}

/// The texts of members, with commas between them.
pub open spec fn members_text(ms: Seq<MemberText>) -> Seq<u8>
    decreases ms.len(),
{
    if ms.len() == 0 {
        Seq::empty()
    } else if ms.len() == 1 {
        ms[0].text()
    } else {
        members_text(ms.drop_last()) + seq![0x2cu8] + ms.last().text()
    }
}

/// Where the last of some members begins, if the first begins at a position.
pub open spec fn last_begins(ms: Seq<MemberText>, at: int) -> int {
    if ms.len() <= 1 {
        at
    } else {
        at + members_text(ms.drop_last()).len() + 1
    }
}

/// Where the keys and the values of members stand, if the first begins at a
/// position.
pub open spec fn spans_of(ms: Seq<MemberText>, at: int) -> Seq<(SpanView, SpanView)>
    decreases ms.len(),
{
    if ms.len() == 0 {
        Seq::empty()
    } else {
        let begins = last_begins(ms, at);
        spans_of(ms.drop_last(), at).push(
            (ms.last().key_span(begins), ms.last().value_span(begins)),
        )
    }
}

/// The text of an object: its members between braces, with blanks around.
pub open spec fn object_text(
    lead: Seq<u8>,
    ms: Seq<MemberText>,
    blank: Seq<u8>,
    trail: Seq<u8>,
) -> Seq<u8> {
    lead + seq![0x7bu8] + (if ms.len() == 0 {
        blank
    } else {
        members_text(ms)
    }) + seq![0x7du8] + trail
}

/// Whether the parts of an object have the form that they must have.
pub open spec fn object_is_valid(
    lead: Seq<u8>,
    ms: Seq<MemberText>,
    blank: Seq<u8>,
    trail: Seq<u8>,
) -> bool {
    &&& is_blank(lead) && is_blank(blank) && is_blank(trail)
    &&& forall|i: int| 0 <= i < ms.len() ==> (#[trigger] ms[i]).is_valid()
}

/// What is known after some more text that begins at a position.
spec fn scan_on(s: ScanView, t: Seq<u8>, at: int) -> ScanView
    decreases t.len(),
{
    if t.len() == 0 {
        s
    } else {
        members::with_byte(scan_on(s, t.drop_last(), at), t.last(), at + t.len() - 1)
    }
}

proof fn scanned_joins(a: Seq<u8>, b: Seq<u8>)
    ensures
        members::scanned(a + b) == scan_on(members::scanned(a), b, a.len() as int),
    decreases b.len(),
{
    if b.len() == 0 {
        assert(a + b =~= a);
    } else {
        scanned_joins(a, b.drop_last());
        assert((a + b).drop_last() =~= a + b.drop_last());
        assert((a + b).last() == b.last());
    }
}

proof fn scan_joins(s: ScanView, a: Seq<u8>, b: Seq<u8>, at: int)
    ensures
        scan_on(s, a + b, at) == scan_on(scan_on(s, a, at), b, at + a.len()),
    decreases b.len(),
{
    if b.len() == 0 {
        assert(a + b =~= a);
    } else {
        scan_joins(s, a, b.drop_last(), at);
        assert((a + b).drop_last() =~= a + b.drop_last());
        assert((a + b).last() == b.last());
    }
}

proof fn scan_one(s: ScanView, b: u8, at: int)
    ensures
        scan_on(s, seq![b], at) == members::with_byte(s, b, at),
{
    assert(seq![b].drop_last() =~= Seq::<u8>::empty());
    assert(scan_on(s, seq![b].drop_last(), at) == s);
    assert(seq![b].last() == b);
}

/// The scan of a text is that of its first byte followed by that of the rest.
proof fn scan_first(s: ScanView, t: Seq<u8>, at: int)
    requires
        t.len() > 0,
    ensures
        scan_on(s, t, at) == scan_on(members::with_byte(s, t[0], at), t.skip(1), at + 1),
{
    assert(t =~= seq![t[0]] + t.skip(1));
    scan_joins(s, seq![t[0]], t.skip(1), at);
    scan_one(s, t[0], at);
}

proof fn scan_body(s: ScanView, t: Seq<u8>, at: int)
    requires
        s.in_string,
        !s.escaped,
        is_string_body(t),
    ensures
        scan_on(s, t, at) == s,
    decreases t.len(),
{
    if t.len() > 0 {
        scan_first(s, t, at);
        let next = members::with_byte(s, t[0], at);
        if t[0] == 0x5c {
            let rest = t.skip(1);
            scan_first(next, rest, at + 1);
            assert(rest.skip(1) =~= t.skip(2));
            let after = members::with_byte(next, rest[0], at + 1);
            assert(after == s);
            scan_body(s, t.skip(2), at + 2);
        } else {
            scan_body(s, t.skip(1), at + 1);
        }
    }
}

proof fn scan_string(s: ScanView, t: Seq<u8>, at: int)
    requires
        !s.in_string,
        !s.escaped,
        is_string(t),
    ensures
        scan_on(s, t, at) == if s.key_next {
            ScanView {
                start: at,
                key_next: false,
                key: Some(SpanView { from: at, to: at + t.len() }),
                ..s
            }
        } else {
            ScanView { start: at, ..s }
        },
{
    let body = t.subrange(1, t.len() - 1);
    assert(t =~= seq![0x22u8] + body + seq![0x22u8]);
    scan_joins(s, seq![0x22u8] + body, seq![0x22u8], at);
    scan_joins(s, seq![0x22u8], body, at);
    scan_one(s, 0x22, at);
    let open = ScanView { in_string: true, start: at, ..s };
    scan_body(open, body, at + 1);
    scan_one(open, 0x22, at + t.len() - 1);
}

/// What is known, but for where the last string began.
spec fn calm(s: ScanView) -> ScanView {
    ScanView { start: 0, ..s }
}

proof fn scan_blank(s: ScanView, t: Seq<u8>, at: int)
    requires
        !s.in_string,
        is_blank(t),
    ensures
        scan_on(s, t, at) == s,
    decreases t.len(),
{
    if t.len() > 0 {
        let init = t.drop_last();
        assert forall|i: int| 0 <= i < init.len() implies (#[trigger] init[i] == 0x20 || init[i]
            == 0x09 || init[i] == 0x0a || init[i] == 0x0d) by {
            assert(init[i] == t[i]);
        }
        scan_blank(s, init, at);
        assert(t[t.len() - 1] == t.last());
    }
}

/// The text of a string is not that of an object, whatever blanks are around it.
pub proof fn a_string_is_no_object(before: Seq<u8>, t: Seq<u8>, after: Seq<u8>)
    requires
        is_blank(before),
        is_string(t),
        is_blank(after),
    ensures
        !members::is_object(before + t + after),
{
    scanned_joins(before + t, after);
    scanned_joins(before, t);
    scanned_joins(Seq::empty(), before);
    assert(Seq::<u8>::empty() + before =~= before);
    scan_blank(members::unscanned(), before, 0);
    scan_string(members::unscanned(), t, before.len() as int);
    scan_blank(members::scanned(before + t), after, (before + t).len() as int);
}

proof fn scan_nested(s: ScanView, v: Seq<u8>, uncut: bool, at: int)
    requires
        !s.in_string,
        !s.escaped,
        !s.key_next,
        s.depth >= 2 || (uncut && s.depth == 1),
        is_nested(v, uncut),
    ensures
        calm(scan_on(s, v, at)) == calm(s),
    decreases v.len(),
{
    if v.len() == 0 {
    } else if v[0] == 0x22 {
        let k = choose|k: int|
            2 <= k <= v.len() && is_string(#[trigger] v.take(k)) && is_nested(v.skip(k), uncut);
        assert(v =~= v.take(k) + v.skip(k));
        scan_joins(s, v.take(k), v.skip(k), at);
        scan_string(s, v.take(k), at);
        scan_nested(ScanView { start: at, ..s }, v.skip(k), uncut, at + k);
    } else if v[0] == 0x7b || v[0] == 0x5b {
        let k = choose|k: int|
            1 <= k < v.len() && #[trigger] v[k] == closing(v[0]) && is_nested(
                v.subrange(1, k),
                false,
            ) && is_nested(v.skip(k + 1), uncut);
        let inner = v.subrange(1, k);
        let rest = v.skip(k + 1);
        assert(v =~= seq![v[0]] + inner + seq![v[k]] + rest);
        scan_joins(s, seq![v[0]] + inner + seq![v[k]], rest, at);
        scan_joins(s, seq![v[0]] + inner, seq![v[k]], at);
        scan_joins(s, seq![v[0]], inner, at);
        scan_one(s, v[0], at);
        let opened = members::with_byte(s, v[0], at);
        assert(opened == ScanView { depth: s.depth + 1, ..s });
        scan_nested(opened, inner, false, at + 1);
        let filled = scan_on(opened, inner, at + 1);
        scan_one(filled, v[k], at + k);
        let closed = members::with_byte(filled, v[k], at + k);
        assert(calm(closed) == calm(s));
        scan_nested(closed, rest, uncut, at + k + 1);
    } else {
        scan_first(s, v, at);
        assert(members::with_byte(s, v[0], at) == s);
        scan_nested(s, v.skip(1), uncut, at + 1);
    }
}

/// Whether a member of the outermost object comes next.
spec fn awaits_member(s: ScanView) -> bool {
    s.depth == 1 && s.in_object && !s.in_string && !s.escaped && s.key_next && s.key is None
}

proof fn scan_member(s: ScanView, m: MemberText, at: int)
    requires
        awaits_member(s),
        m.is_valid(),
    ensures
        calm(scan_on(s, m.text(), at)) == calm(
            ScanView {
                key_next: false,
                key: Some(m.key_span(at)),
                value_from: m.value_span(at).from,
                ..s
            },
        ),
{
    let a = m.before;
    let b = a + m.key;
    let c = b + m.after;
    let d = c + seq![0x3au8];
    assert(m.text() == d + m.value);
    scan_joins(s, d, m.value, at);
    scan_joins(s, c, seq![0x3au8], at);
    scan_joins(s, b, m.after, at);
    scan_joins(s, a, m.key, at);
    scan_blank(s, a, at);
    scan_string(s, m.key, at + a.len());
    let keyed = scan_on(s, m.key, at + a.len());
    scan_blank(keyed, m.after, at + b.len());
    scan_one(keyed, 0x3a, at + c.len());
    let begun = members::with_byte(keyed, 0x3a, at + c.len());
    assert(begun == ScanView { value_from: at + c.len() + 1, ..keyed });
    scan_nested(begun, m.value, true, at + d.len());
}

proof fn scan_members(s: ScanView, ms: Seq<MemberText>, at: int)
    requires
        awaits_member(s),
        ms.len() > 0,
        forall|i: int| 0 <= i < ms.len() ==> (#[trigger] ms[i]).is_valid(),
    ensures
        calm(scan_on(s, members_text(ms), at)) == calm(
            ScanView {
                key_next: false,
                key: Some(ms.last().key_span(last_begins(ms, at))),
                value_from: ms.last().value_span(last_begins(ms, at)).from,
                members: s.members + spans_of(ms.drop_last(), at),
                ..s
            },
        ),
        ms.last().value_span(last_begins(ms, at)).to == at + members_text(ms).len(),
    decreases ms.len(),
{
    let last = ms.last();
    assert(ms[ms.len() - 1].is_valid());
    if ms.len() == 1 {
        scan_member(s, last, at);
        assert(ms.drop_last() =~= Seq::empty());
        assert(s.members + spans_of(ms.drop_last(), at) =~= s.members);
    } else {
        let init = ms.drop_last();
        let text = members_text(init);
        assert forall|i: int| 0 <= i < init.len() implies (#[trigger] init[i]).is_valid() by {
            assert(ms[i].is_valid());
        }
        scan_members(s, init, at);
        scan_joins(s, text + seq![0x2cu8], last.text(), at);
        scan_joins(s, text, seq![0x2cu8], at);
        let before = scan_on(s, text, at);
        scan_one(before, 0x2c, at + text.len());
        let next = members::with_byte(before, 0x2c, at + text.len());
        assert(next.members =~= s.members + spans_of(init, at));
        scan_member(next, last, at + text.len() + 1);
    }
}

/// What comes of the text of an object.
proof fn scan_object(lead: Seq<u8>, ms: Seq<MemberText>, blank: Seq<u8>, trail: Seq<u8>)
    requires
        object_is_valid(lead, ms, blank, trail),
    ensures
        ({
            let s = members::scanned(object_text(lead, ms, blank, trail));
            s.in_object && s.members == spans_of(ms, lead.len() as int + 1)
        }),
{
    let body = if ms.len() == 0 {
        blank
    } else {
        members_text(ms)
    };
    let a = lead + seq![0x7bu8];
    let b = a + body;
    let c = b + seq![0x7du8];
    let at = lead.len() as int + 1;
    assert(object_text(lead, ms, blank, trail) == c + trail);
    scanned_joins(c, trail);
    scanned_joins(b, seq![0x7du8]);
    scanned_joins(a, body);
    scanned_joins(lead, seq![0x7bu8]);
    scanned_joins(Seq::empty(), lead);
    assert(Seq::<u8>::empty() + lead =~= lead);
    scan_blank(members::unscanned(), lead, 0);
    scan_one(members::unscanned(), 0x7b, lead.len() as int);
    let opened = members::scanned(a);
    assert(awaits_member(opened));
    let filled = members::scanned(b);
    if ms.len() == 0 {
        scan_blank(opened, blank, at);
    } else {
        scan_members(opened, ms, at);
    }
    scan_one(filled, 0x7d, b.len() as int);
    let closed = members::scanned(c);
    assert(closed.members =~= spans_of(ms, at));
    scan_blank(closed, trail, c.len() as int);
}

/// The keys and the values stand where they are said to.
proof fn spans_point_at_members(text: Seq<u8>, ms: Seq<MemberText>, at: int, i: int)
    requires
        0 <= at,
        at + members_text(ms).len() <= text.len(),
        text.subrange(at, at + members_text(ms).len()) == members_text(ms),
        0 <= i < ms.len(),
    ensures
        spans_of(ms, at).len() == ms.len(),
        ({
            let (k, v) = spans_of(ms, at)[i];
            &&& 0 <= k.from <= k.to <= text.len() && text.subrange(k.from, k.to) == ms[i].key
            &&& 0 <= v.from <= v.to <= text.len() && text.subrange(v.from, v.to) == ms[i].value
        }),
    decreases ms.len(),
{
    let whole = members_text(ms);
    let init = ms.drop_last();
    let last = ms.last();
    let begins = last_begins(ms, at);
    spans_of_len(ms, at);
    if ms.len() > 1 {
        let head = members_text(init);
        assert(whole == head + seq![0x2cu8] + last.text());
        assert(text.subrange(at, at + head.len()) =~= head) by {
            assert forall|j: int| 0 <= j < head.len() implies text.subrange(
                at,
                at + head.len(),
            )[j] == head[j] by {
                assert(text.subrange(at, at + whole.len())[j] == whole[j]);
            }
        }
        assert(text.subrange(begins, begins + last.text().len()) =~= last.text()) by {
            assert forall|j: int| 0 <= j < last.text().len() implies text.subrange(
                begins,
                begins + last.text().len(),
            )[j] == last.text()[j] by {
                assert(text.subrange(at, at + whole.len())[head.len() + 1 + j] == whole[head.len()
                    + 1 + j]);
            }
        }
        if i < ms.len() - 1 {
            spans_point_at_members(text, init, at, i);
        }
    }
    if i == ms.len() - 1 {
        let t = last.text();
        assert(text.subrange(begins, begins + t.len()) == t);
        let (k, v) = spans_of(ms, at)[i];
        assert(text.subrange(k.from, k.to) =~= last.key) by {
            assert forall|j: int| 0 <= j < last.key.len() implies text.subrange(k.from, k.to)[j]
                == last.key[j] by {
                assert(text.subrange(begins, begins + t.len())[last.before.len() + j]
                    == t[last.before.len() + j]);
            }
        }
        assert(text.subrange(v.from, v.to) =~= last.value) by {
            let o = (last.before.len() + last.key.len() + last.after.len()) as int + 1;
            assert forall|j: int| 0 <= j < last.value.len() implies text.subrange(v.from, v.to)[j]
                == last.value[j] by {
                assert(text.subrange(begins, begins + t.len())[o + j] == t[o + j]);
            }
        }
    }
}

proof fn spans_of_len(ms: Seq<MemberText>, at: int)
    ensures
        spans_of(ms, at).len() == ms.len(),
    decreases ms.len(),
{
    if ms.len() > 0 {
        spans_of_len(ms.drop_last(), at);
    }
}

/// What is read of a member.
pub open spec fn read_as(m: MemberText) -> MemberView {
    MemberView {
        key: match json::json_of_bytes(m.key) {
            Some(value) => value.text(),
            None => None,
        },
        value: m.value,
    }
}

/// The text of an object gives back its members, each where it stands: the keys and
/// the values, in order, no more and no fewer.
pub proof fn members_are_found(lead: Seq<u8>, ms: Seq<MemberText>, blank: Seq<u8>, trail: Seq<u8>)
    requires
        object_is_valid(lead, ms, blank, trail),
    ensures
        members::is_object(object_text(lead, ms, blank, trail)),
        members::scanned(object_text(lead, ms, blank, trail)).members == spans_of(
            ms,
            lead.len() as int + 1,
        ),
        members::written(object_text(lead, ms, blank, trail)) == ms.map_values(
            |m: MemberText| read_as(m),
        ),
{
    let text = object_text(lead, ms, blank, trail);
    let at = lead.len() as int + 1;
    scan_object(lead, ms, blank, trail);
    spans_of_len(ms, at);
    let found = members::written(text);
    let read = ms.map_values(|m: MemberText| read_as(m));
    assert forall|i: int| 0 <= i < ms.len() implies found[i] == read[i] by {
        let body = members_text(ms);
        assert(text.subrange(at, at + body.len()) =~= body);
        spans_point_at_members(text, ms, at, i);
    }
    assert(found =~= read);
}

} // verus!
