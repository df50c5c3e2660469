//! The members of an object as its text writes them, one after the other: the
//! key, and the bytes of the value. A member that nobody asks for is never looked
//! into.
use vstd::prelude::*;

use crate::event;
use crate::json;
use crate::json::parse_json;
use crate::json::Json;
use crate::json::JsonView;
use crate::sessions;
use crate::text::text_eq;

verus! {

/// A stretch of bytes: where it begins, and where it ends.
pub struct SpanView {
    pub from: int,
    pub to: int,
}

/// What is known in the middle of the text of a JSON value: how many brackets are
/// open, whether the outermost is that of an object, whether a string is open, the
/// key and the beginning of the value of the member at hand, and where the members
/// of the outermost object so far stand.
pub struct ScanView {
    pub depth: int,
    pub in_object: bool,
    pub in_string: bool,
    pub escaped: bool,
    pub key_next: bool,
    pub start: int,
    pub key: Option<SpanView>,
    pub value_from: int,
    pub members: Seq<(SpanView, SpanView)>,
}

/// What is known before the text begins.
pub open spec fn unscanned() -> ScanView {
    ScanView {
        depth: 0,
        in_object: false,
        in_string: false,
        escaped: false,
        key_next: false,
        start: 0,
        key: None,
        value_from: 0,
        members: Seq::empty(),
    }
}

/// The members once the one at hand ends before position `i`.
pub open spec fn with_member(s: ScanView, i: int) -> Seq<(SpanView, SpanView)> {
    match s.key {
        Some(key) => s.members.push((key, SpanView { from: s.value_from, to: i })),
        None => s.members,
    }
}

/// What is known after one more byte of a string.
pub open spec fn with_string_byte(s: ScanView, b: u8, i: int) -> ScanView {
    if s.escaped {
        ScanView { escaped: false, ..s }
    } else if b == 0x5c {
        ScanView { escaped: true, ..s }
    } else if b == 0x22 {
        if s.key_next {
            ScanView {
                in_string: false,
                key_next: false,
                key: Some(SpanView { from: s.start, to: i + 1 }),
                ..s
            }
        } else {
            ScanView { in_string: false, ..s }
        }
    } else {
        s
    }
}

/// What is known after one more byte, the one at position `i`.
pub open spec fn with_byte(s: ScanView, b: u8, i: int) -> ScanView {
    let at_member = s.depth == 1 && s.in_object;
    if s.in_string {
        with_string_byte(s, b, i)
    } else if b == 0x22 {
        ScanView { in_string: true, start: i, ..s }
    } else if b == 0x7b || b == 0x5b {
        if s.depth == 0 {
            ScanView { depth: 1, in_object: b == 0x7b, key_next: b == 0x7b, ..s }
        } else {
            ScanView { depth: s.depth + 1, ..s }
        }
    } else if b == 0x7d || b == 0x5d {
        if at_member {
            ScanView { depth: 0, key: None, members: with_member(s, i), ..s }
        } else {
            ScanView { depth: s.depth - 1, ..s }
        }
    } else if b == 0x3a && at_member {
        ScanView { value_from: i + 1, ..s }
    } else if b == 0x2c && at_member {
        ScanView { key_next: true, key: None, members: with_member(s, i), ..s }
    } else {
        s
    }
}

/// What is known after a text.
pub open spec fn scanned(raw: Seq<u8>) -> ScanView
    decreases raw.len(),
{
    if raw.len() == 0 {
        unscanned()
    } else {
        with_byte(scanned(raw.drop_last()), raw.last(), raw.len() - 1)
    }
}

/// Whether a text is that of an object.
pub open spec fn is_object(raw: Seq<u8>) -> bool {
    scanned(raw).in_object
}

/// The key that stands at a place in a text, quotes included; nothing where no
/// string can be read there.
pub open spec fn key_at(raw: Seq<u8>, span: SpanView) -> Option<Seq<char>> {
    match json::json_of_bytes(raw.subrange(span.from, span.to)) {
        Some(value) => value.text(),
        None => None,
    }
}

/// A member as it is written: its key, and the bytes of its value.
pub struct MemberView {
    pub key: Option<Seq<char>>,
    pub value: Seq<u8>,
}

/// The members of an object as its text writes them, in order.
pub open spec fn written(raw: Seq<u8>) -> Seq<MemberView> {
    scanned(raw).members.map_values(
        |m: (SpanView, SpanView)|
            MemberView { key: key_at(raw, m.0), value: raw.subrange(m.1.from, m.1.to) },
    )
}

/// How often a key is written.
pub open spec fn times_written(members: Seq<MemberView>, name: Seq<char>) -> int
    decreases members.len(),
{
    if members.len() == 0 {
        0
    } else {
        times_written(members.drop_last(), name) + if members.last().key == Some(name) {
            1int
        } else {
            0int
        }
    }
}

/// The value that the bytes of a member spell. They are read between the brackets
/// of an array, since a member lies one level deeper than the value that it is in.
pub open spec fn member_value(value: Seq<u8>) -> Option<JsonView> {
    match json::json_of_bytes(seq![0x5bu8] + value + seq![0x5du8]) {
        Some(JsonView::Array(items)) => if items.len() == 1 {
            Some(items[0])
        } else {
            None
        },
        _ => None,
    }
}

/// The members with some names, and what they spell; nothing where one of them, or
/// some key, cannot be read. Of the other members only the keys are read.
pub open spec fn picked(members: Seq<MemberView>, names: Seq<Seq<char>>) -> Option<
    Seq<(Seq<char>, JsonView)>,
>
    decreases members.len(),
{
    if members.len() == 0 {
        Some(Seq::empty())
    } else {
        match (picked(members.drop_last(), names), members.last().key) {
            (Some(before), Some(key)) => if names.contains(key) {
                match member_value(members.last().value) {
                    Some(value) => Some(before.push((key, value))),
                    None => None,
                }
            } else {
                Some(before)
            },
            _ => None,
        }
    }
}

/// Whether a stretch lies within a text of some length.
pub open spec fn lies_within(span: SpanView, len: int) -> bool {
    0 <= span.from <= span.to <= len
}

/// Whether everything that is known lies within a text of some length.
spec fn scan_lies_within(s: ScanView, len: int) -> bool {
    &&& 0 <= s.start <= len
    &&& 0 <= s.value_from <= len
    &&& s.key matches Some(key) ==> lies_within(key, len)
    &&& forall|k: int|
        0 <= k < s.members.len() ==> lies_within((#[trigger] s.members[k]).0, len) && lies_within(
            s.members[k].1,
            len,
        )
}

/// Keys and values lie within the text.
proof fn members_lie_within(raw: Seq<u8>)
    ensures
        scan_lies_within(scanned(raw), raw.len() as int),
    decreases raw.len(),
{
    if raw.len() > 0 {
        let init = raw.drop_last();
        members_lie_within(init);
        let s = scanned(raw);
        let before = scanned(init);
        assert forall|k: int| 0 <= k < s.members.len() implies lies_within(
            (#[trigger] s.members[k]).0,
            raw.len() as int,
        ) && lies_within(s.members[k].1, raw.len() as int) by {
            if k < before.members.len() {
                assert(s.members[k] == before.members[k]);
            }
        }
    }
}

/// A stretch of bytes.
#[derive(Clone, Copy)]
struct Span {
    from: usize,
    to: usize,
}

impl View for Span {
    type V = SpanView;

    closed spec fn view(&self) -> SpanView {
        SpanView { from: self.from as int, to: self.to as int }
    }
}

spec fn opt_span(span: Option<Span>) -> Option<SpanView> {
    match span {
        Some(span) => Some(span@),
        None => None,
    }
}

spec fn span_views(spans: Seq<(Span, Span)>) -> Seq<(SpanView, SpanView)> {
    spans.map_values(|m: (Span, Span)| (m.0@, m.1@))
}

/// Adds the member at hand to the members found.
fn close_member(members: &mut Vec<(Span, Span)>, key: Option<Span>, from: usize, to: usize)
    ensures
        span_views(final(members)@) == match opt_span(key) {
            Some(k) => span_views(old(members)@).push(
                (k, SpanView { from: from as int, to: to as int }),
            ),
            None => span_views(old(members)@),
        },
{
    if let Some(key) = key {
        let ghost before = members@;
        let value = Span { from, to };
        members.push((key, value));
        proof {
            assert(span_views(members@) =~= span_views(before).push((key@, value@)));
        }
    }
}

/// Finds the members of an object in its text, and tells whether it is one.
fn find_members(raw: &[u8]) -> (found: (bool, Vec<(Span, Span)>))
    ensures
        found.0 == is_object(raw@),
        span_views(found.1@) == scanned(raw@).members,
{
    let mut depth: i128 = 0;
    let mut in_object = false;
    let mut in_string = false;
    let mut escaped = false;
    let mut key_next = false;
    let mut start: usize = 0;
    let mut key: Option<Span> = None;
    let mut value_from: usize = 0;
    let mut members: Vec<(Span, Span)> = Vec::new();
    proof {
        assert(span_views(members@) =~= Seq::empty());
        assert(raw@.take(0).len() == 0);
    }
    let mut i: usize = 0;
    while i < raw.len()
        invariant
            i <= raw@.len(),
            -(i as int) <= depth <= i,
            scanned(raw@.take(i as int)) == (ScanView {
                depth: depth as int,
                in_object,
                in_string,
                escaped,
                key_next,
                start: start as int,
                key: opt_span(key),
                value_from: value_from as int,
                members: span_views(members@),
            }),
        decreases raw@.len() - i,
    {
        let b: u8 = raw[i];
        proof {
            assert(raw@.take(i + 1).drop_last() =~= raw@.take(i as int));
            assert(raw@.take(i + 1).last() == b);
        }
        let at_member = depth == 1 && in_object;
        if in_string {
            if escaped {
                escaped = false;
            } else if b == 0x5c {
                escaped = true;
            } else if b == 0x22 {
                in_string = false;
                if key_next {
                    key_next = false;
                    key = Some(Span { from: start, to: i + 1 });
                }
            }
        } else if b == 0x22 {
            in_string = true;
            start = i;
        } else if b == 0x7b || b == 0x5b {
            if depth == 0 {
                in_object = b == 0x7b;
                key_next = b == 0x7b;
            }
            depth = depth + 1;
        } else if b == 0x7d || b == 0x5d {
            if at_member {
                close_member(&mut members, key, value_from, i);
                key = None;
            }
            depth = depth - 1;
        } else if b == 0x3a && at_member {
            value_from = i + 1;
        } else if b == 0x2c && at_member {
            close_member(&mut members, key, value_from, i);
            key = None;
            key_next = true;
        }
        i = i + 1;
    }
    proof {
        assert(raw@.take(raw@.len() as int) =~= raw@);
    }
    (in_object, members)
}

/// A member as it is written.
pub struct Member {
    pub key: Option<String>,
    pub value: Vec<u8>,
}

impl View for Member {
    type V = MemberView;

    open spec fn view(&self) -> MemberView {
        MemberView { key: event::opt_text(self.key), value: self.value@ }
    }
}

/// What a list of members denotes.
pub open spec fn member_views(members: Seq<Member>) -> Seq<MemberView> {
    members.map_values(|m: Member| m@)
}

/// Takes apart the text of an object; nothing where it is that of another value.
pub fn read_members(raw: &[u8]) -> (members: Option<Vec<Member>>)
    ensures
        match members {
            Some(m) => is_object(raw@) && member_views(m@) == written(raw@),
            None => !is_object(raw@),
        },
{
    let (object, spans) = find_members(raw);
    if !object {
        return None;
    }
    let mut members: Vec<Member> = Vec::new();
    let mut i: usize = 0;
    while i < spans.len()
        invariant
            i <= spans@.len(),
            span_views(spans@) == scanned(raw@).members,
            members@.len() == i,
            forall|k: int| 0 <= k < i ==> (#[trigger] members@[k])@ == written(raw@)[k],
        decreases spans@.len() - i,
    {
        let (key, value) = spans[i];
        proof {
            members_lie_within(raw@);
            assert(span_views(spans@)[i as int] == (key@, value@));
            assert(scanned(raw@).members[i as int] == (key@, value@));
        }
        let name = match parse_json(vstd::slice::slice_subrange(raw, key.from, key.to)) {
            Some(Json::Text(s)) => Some(s),
            _ => None,
        };
        let bytes = vstd::slice::slice_to_vec(
            vstd::slice::slice_subrange(raw, value.from, value.to),
        );
        members.push(Member { key: name, value: bytes });
        i = i + 1;
    }
    proof {
        assert(member_views(members@) =~= written(raw@));
    }
    Some(members)
}

/// Tells whether a name is written more than once.
pub fn is_repeated(members: &Vec<Member>, name: &str) -> (b: bool)
    ensures
        b == (times_written(member_views(members@), name@) > 1),
{
    let ghost views = member_views(members@);
    let mut n: usize = 0;
    let mut i: usize = 0;
    proof {
        assert(views.take(0).len() == 0);
    }
    while i < members.len()
        invariant
            i <= members@.len(),
            n <= i,
            views == member_views(members@),
            n == times_written(views.take(i as int), name@),
        decreases members@.len() - i,
    {
        proof {
            assert(views.take(i + 1).drop_last() =~= views.take(i as int));
            assert(views.take(i + 1).last() == members@[i as int]@);
        }
        if let Some(key) = &members[i].key {
            if text_eq(key.as_str(), name) {
                n = n + 1;
            }
        }
        i = i + 1;
    }
    proof {
        assert(views.take(members@.len() as int) =~= views);
    }
    n > 1
}

/// Reads the value that the bytes of a member spell.
fn read_value(value: &Vec<u8>) -> (read: Option<Json>)
    ensures
        match read {
            Some(v) => member_value(value@) == Some(v@),
            None => member_value(value@) is None,
        },
{
    let mut bracketed: Vec<u8> = Vec::new();
    bracketed.push(0x5b);
    bracketed.extend_from_slice(value.as_slice());
    bracketed.push(0x5d);
    proof {
        assert(bracketed@ =~= seq![0x5bu8] + value@ + seq![0x5du8]);
    }
    match parse_json(bracketed.as_slice()) {
        Some(Json::Array(items)) => {
            proof {
                json::array_view(items);
            }
            if items.len() == 1 {
                Some(items[0].clone())
            } else {
                None
            }
        },
        _ => None,
    }
}

/// Where the first members cannot be read, neither can all.
proof fn picked_needs_prefix(members: Seq<MemberView>, names: Seq<Seq<char>>, k: int)
    requires
        0 <= k <= members.len(),
        picked(members.take(k), names) is None,
    ensures
        picked(members, names) is None,
    decreases members.len() - k,
{
    if k < members.len() {
        assert(members.take(k + 1).drop_last() =~= members.take(k));
        picked_needs_prefix(members, names, k + 1);
    } else {
        assert(members.take(k) =~= members);
    }
}

/// Reads the members with some names.
pub fn pick(members: &Vec<Member>, names: &Vec<String>) -> (read: Option<Json>)
    ensures
        match read {
            Some(object) => picked(
                member_views(members@),
                sessions::name_views(names@),
            ) matches Some(fields) && object@ == JsonView::Object(fields),
            None => picked(member_views(members@), sessions::name_views(names@)) is None,
        },
{
    let ghost views = member_views(members@);
    let ghost wanted = sessions::name_views(names@);
    let mut fields: Vec<(String, Json)> = Vec::new();
    proof {
        assert(json::member_views(fields@) =~= Seq::empty());
        assert(views.take(0).len() == 0);
    }
    let mut i: usize = 0;
    while i < members.len()
        invariant
            i <= members@.len(),
            views == member_views(members@),
            wanted == sessions::name_views(names@),
            picked(views.take(i as int), wanted) == Some(json::member_views(fields@)),
        decreases members@.len() - i,
    {
        let m = &members[i];
        proof {
            assert(views.take(i + 1).drop_last() =~= views.take(i as int));
            assert(views.take(i + 1).last() == m@);
            if picked(views.take(i + 1), wanted) is None {
                picked_needs_prefix(views, wanted, i + 1);
            }
            wanted.index_of_first_ensures(m@.key->0);
        }
        let key = match &m.key {
            Some(key) => key,
            None => {
                return None;
            },
        };
        if sessions::find_name(names, key.as_str()).is_some() {
            match read_value(&m.value) {
                Some(value) => {
                    let ghost before = fields@;
                    let ghost spelled = value@;
                    fields.push((key.clone(), value));
                    proof {
                        assert(json::member_views(fields@) =~= json::member_views(before).push(
                            (key@, spelled),
                        ));
                    }
                },
                None => {
                    return None;
                },
            }
        }
        i = i + 1;
    }
    proof {
        assert(views.take(members@.len() as int) =~= views);
        json::object_view(fields);
    }
    Some(Json::Object(fields))
}

} // verus!
