//! An event that is written out is read back.
use vstd::prelude::*;

use crate::event;
use crate::event::DecodeError;
use crate::event::EventView;
use crate::event::Fault;
use crate::event::Field;
use crate::event::Kind;
use crate::json;
use crate::json::JsonView;
use crate::member_laws;
use crate::member_laws::MemberText;
use crate::members;
use crate::members::MemberView;
use crate::text;
use crate::timestamp;
use crate::timestamp::Timestamp;

verus! {

/// A number as JSON writes it.
pub open spec fn number_value(n: u64) -> JsonView {
    JsonView::Number { unsigned: Some(n), text: text::decimal(n as nat) }
}

/// An optional text as JSON writes it: `null` where it is absent.
pub open spec fn optional_value(s: Option<Seq<char>>) -> JsonView {
    match s {
        Some(s) => JsonView::Text(s),
        None => JsonView::Null,
    }
}

/// The values of the fields of an event, in the order of their names. The instant
/// is written as `ts`.
pub open spec fn field_values(e: EventView, ts: Seq<char>) -> Seq<JsonView> {
    seq![
        number_value(e.v as u64),
        JsonView::Text(e.id),
        JsonView::Text(e.session_id),
        JsonView::Text(e.run_id),
        number_value(e.seq),
        JsonView::Text(ts),
        JsonView::Text(e.kind.name()),
        optional_value(e.provider),
        optional_value(e.model),
        optional_value(e.call_id),
        e.payload,
    ]
}

/// The first fields of an event with their values.
pub open spec fn first_fields(e: EventView, ts: Seq<char>, n: nat) -> Seq<(Seq<char>, JsonView)> {
    Seq::new(n, |i: int| (event::field_names()[i], field_values(e, ts)[i]))
}

/// The object that an event is written as.
pub open spec fn object_of(e: EventView, ts: Seq<char>) -> JsonView {
    JsonView::Object(first_fields(e, ts, 11))
}

/// What is to be read of an event that was written out: the event, or that its
/// version is not supported.
pub open spec fn read_back(e: EventView) -> Result<EventView, DecodeError> {
    if e.v == 1 {
        Ok(e)
    } else {
        Err(DecodeError::Version(e.v))
    }
}

/// No two fields of an event have the same name.
pub proof fn field_names_are_distinct()
    ensures
        event::field_names().no_duplicates(),
{
    reveal_strlit("v");
    reveal_strlit("id");
    reveal_strlit("session_id");
    reveal_strlit("run_id");
    reveal_strlit("seq");
    reveal_strlit("ts");
    reveal_strlit("kind");
    reveal_strlit("provider");
    reveal_strlit("model");
    reveal_strlit("call_id");
    reveal_strlit("payload");
    let names = event::field_names();
    let lens = seq![1nat, 2, 10, 6, 3, 2, 4, 8, 5, 7, 7];
    assert forall|i: int| 0 <= i < 11 implies (#[trigger] names[i]).len() == lens[i] by {}
    assert(names[1][0] == 'i');
    assert(names[5][0] == 't');
    assert(names[9][0] == 'c');
    assert(names[10][0] == 'p');
    assert forall|i: int, j: int| 0 <= i < j < 11 implies names[i] != names[j] by {
        if lens[i] == lens[j] {
            assert((i == 1 && j == 5) || (i == 9 && j == 10));
        }
    }
}

/// A member whose key does not occur before it is found.
proof fn lookup_finds(members: Seq<(Seq<char>, JsonView)>, i: int)
    requires
        0 <= i < members.len(),
        forall|j: int| 0 <= j < i ==> (#[trigger] members[j]).0 != members[i].0,
    ensures
        json::lookup(members, members[i].0) == Some(members[i].1),
    decreases members.len(),
{
    if i > 0 {
        assert(members[0].0 != members[i].0);
        let rest = members.drop_first();
        assert forall|j: int| 0 <= j < i - 1 implies (#[trigger] rest[j]).0 != rest[i - 1].0 by {
            assert(members[j + 1].0 != members[i].0);
        }
        lookup_finds(rest, i - 1);
    }
}

/// An event that is written out as an object is read back: every field is what it
/// was. One of another version than 1 is refused by its version.
pub proof fn an_event_is_read_back(e: EventView, ts: Seq<char>)
    ensures
        event::event_of_value(object_of(e, ts), Some(e.ts), None) == read_back(e),
{
    let fields = first_fields(e, ts, 11);
    let names = event::field_names();
    field_names_are_distinct();
    assert forall|i: int| 0 <= i < 11 implies object_of(e, ts).member(#[trigger] names[i]) == Some(
        field_values(e, ts)[i],
    ) by {
        assert forall|j: int| 0 <= j < i implies (#[trigger] fields[j]).0 != fields[i].0 by {
            assert(names[j] != names[i]);
        }
        lookup_finds(fields, i);
    }
    assert(names[0] == "v"@);
    assert(names[1] == "id"@);
    assert(names[2] == "session_id"@);
    assert(names[3] == "run_id"@);
    assert(names[4] == "seq"@);
    assert(names[5] == "ts"@);
    assert(names[6] == "kind"@);
    assert(names[7] == "provider"@);
    assert(names[8] == "model"@);
    assert(names[9] == "call_id"@);
    assert(names[10] == "payload"@);
    event::kind_found_by_its_name(e.kind);
}

/// Whether members are those of an event that is written out: its fields in order,
/// each with bytes that spell its value.
pub open spec fn spells(written: Seq<MemberView>, e: EventView, ts: Seq<char>) -> bool {
    &&& written.len() == 11
    &&& forall|i: int|
        0 <= i < 11 ==> (#[trigger] written[i]).key == Some(event::field_names()[i])
            && members::member_value(written[i].value) == Some(field_values(e, ts)[i])
}

proof fn picks_the_fields(written: Seq<MemberView>, e: EventView, ts: Seq<char>, n: nat)
    requires
        spells(written, e, ts),
        n <= 11,
    ensures
        members::picked(written.take(n as int), event::field_names()) == Some(
            first_fields(e, ts, n),
        ),
        members::picked(written.take(n as int), seq!["v"@]) == Some(
            if n == 0 {
                Seq::empty()
            } else {
                first_fields(e, ts, 1)
            },
        ),
    decreases n,
{
    let part = written.take(n as int);
    if n == 0 {
        assert(first_fields(e, ts, 0) =~= Seq::empty());
    } else {
        let i = n - 1;
        picks_the_fields(written, e, ts, i as nat);
        field_names_are_distinct();
        assert(part.drop_last() =~= written.take(i));
        assert(part.last() == written[i]);
        assert(event::field_names().contains(event::field_names()[i]));
        assert(first_fields(e, ts, n) =~= first_fields(e, ts, i as nat).push(
            (event::field_names()[i], field_values(e, ts)[i]),
        ));
        assert(event::field_names()[0] == "v"@);
        if i == 0 {
            assert(seq!["v"@][0] == event::field_names()[0]);
            assert(seq!["v"@].contains(event::field_names()[0]));
        } else {
            assert(event::field_names()[i] != event::field_names()[0]);
            assert(!seq!["v"@].contains(event::field_names()[i]));
        }
    }
}

proof fn fields_are_written_once(written: Seq<MemberView>, j: int, n: int)
    requires
        written.len() == 11,
        forall|i: int|
            0 <= i < 11 ==> (#[trigger] written[i]).key == Some(event::field_names()[i]),
        0 <= j < 11,
        0 <= n <= 11,
    ensures
        members::times_written(written.take(n), event::field_names()[j]) == if j < n {
            1int
        } else {
            0
        },
    decreases n,
{
    if n > 0 {
        fields_are_written_once(written, j, n - 1);
        field_names_are_distinct();
        assert(written.take(n).drop_last() =~= written.take(n - 1));
        assert(written.take(n).last() == written[n - 1]);
        assert(j != n - 1 ==> event::field_names()[j] != event::field_names()[n - 1]);
    }
}

proof fn no_field_is_repeated(written: Seq<MemberView>, k: int)
    requires
        written.len() == 11,
        forall|i: int|
            0 <= i < 11 ==> (#[trigger] written[i]).key == Some(event::field_names()[i]),
        0 <= k <= 11,
    ensures
        event::first_repeated(written, event::fields().skip(k)) is None,
    decreases 11 - k,
{
    let rest = event::fields().skip(k);
    if k < 11 {
        fields_are_written_once(written, k, 11);
        assert(written.take(11) =~= written);
        assert(rest[0] == event::fields()[k]);
        assert(event::field_names()[k] == rest[0].name());
        assert(rest.drop_first() =~= event::fields().skip(k + 1));
        no_field_is_repeated(written, k + 1);
    }
}

/// The members of an event that is written out are read back as the event, where
/// the text of the instant spells it. The kind is written as a string.
pub proof fn the_members_of_an_event_are_read_back(
    written: Seq<MemberView>,
    e: EventView,
    ts: Seq<char>,
)
    requires
        spells(written, e, ts),
        !members::is_object(written[6].value),
        timestamp::instant_of_text(ts) == Some(e.ts),
    ensures
        event::event_of_members(written) == read_back(e),
{
    let names = event::field_names();
    picks_the_fields(written, e, ts, 11);
    assert(written.take(11) =~= written);
    no_field_is_repeated(written, 0);
    assert(event::fields().skip(0) =~= event::fields());
    field_names_are_distinct();
    an_event_is_read_back(e, ts);
    let head = first_fields(e, ts, 1);
    lookup_finds(head, 0);
    assert(names[0] == "v"@);
    assert(names[5] == "ts"@);
    assert(names[6] == "kind"@);
    let fields = first_fields(e, ts, 11);
    assert forall|j: int| 0 <= j < 5 implies (#[trigger] fields[j]).0 != fields[5].0 by {
        assert(names[j] != names[5]);
    }
    lookup_finds(fields, 5);
    assert(!event::kind_is_overfull(written)) by {
        assert forall|i: int| 0 <= i < 11 && i != 6 implies (#[trigger] written[i]).key != Some(
            "kind"@,
        ) by {
            assert(names[i] != names[6]);
        }
    }
}

/// A message that an event is written out as is read back as the event: an object
/// with the fields in order, whose keys spell their names and whose values spell
/// those of the event, with any blanks between them. The kind is written as a
/// string. What the parts spell is what the parsers read of them.
pub proof fn a_message_is_read_back(
    lead: Seq<u8>,
    ms: Seq<MemberText>,
    trail: Seq<u8>,
    e: EventView,
    ts: Seq<char>,
)
    requires
        member_laws::object_is_valid(lead, ms, Seq::empty(), trail),
        ms.len() == 11,
        forall|i: int|
            0 <= i < 11 ==> json::json_of_bytes((#[trigger] ms[i]).key) == Some(
                JsonView::Text(event::field_names()[i]),
            ) && members::member_value(ms[i].value) == Some(field_values(e, ts)[i]),
        !members::is_object(ms[6].value),
        json::has_json_form(member_laws::object_text(lead, ms, Seq::empty(), trail)),
        timestamp::instant_of_text(ts) == Some(e.ts),
    ensures
        event::event_of_bytes(member_laws::object_text(lead, ms, Seq::empty(), trail))
            == read_back(e),
{
    let raw = member_laws::object_text(lead, ms, Seq::empty(), trail);
    let written = members::written(raw);
    member_laws::members_are_found(lead, ms, Seq::empty(), trail);
    assert forall|i: int| 0 <= i < 11 implies (#[trigger] written[i]).key == Some(
        event::field_names()[i],
    ) && members::member_value(written[i].value) == Some(field_values(e, ts)[i]) by {
        assert(written[i] == member_laws::read_as(ms[i]));
    }
    assert(written[6] == member_laws::read_as(ms[6]));
    the_members_of_an_event_are_read_back(written, e, ts);
}

/// Whether the value under a key is this number.
pub open spec fn has_number(value: JsonView, key: Seq<char>, n: u64) -> bool {
    value.member(key) matches Some(JsonView::Number { unsigned, .. }) && unsigned == Some(n)
}

/// Whether the value under a key is this text, or is absent or `null` where there is
/// none.
pub open spec fn has_optional_text(value: JsonView, key: Seq<char>, s: Option<Seq<char>>) -> bool {
    match value.member(key) {
        None => s is None,
        Some(JsonView::Null) => s is None,
        Some(JsonView::Text(t)) => s == Some(t),
        _ => false,
    }
}

/// Whether a value names a kind: as a text, or as the only key of an object, with
/// `null` under it.
pub open spec fn names_kind(value: JsonView, kind: Kind) -> bool {
    ||| value == JsonView::Text(kind.name())
    ||| value matches JsonView::Object(members) && members.len() == 1 && members[0] == (
        kind.name(),
        JsonView::Null,
    )
}

/// Whether a value has every field of an event as the event has it.
pub open spec fn has_the_fields_of(value: JsonView, e: EventView) -> bool {
    &&& value is Object
    &&& e.v == 1
    &&& has_number(value, "v"@, 1)
    &&& value.member("id"@) == Some(JsonView::Text(e.id))
    &&& value.member("session_id"@) == Some(JsonView::Text(e.session_id))
    &&& value.member("run_id"@) == Some(JsonView::Text(e.run_id))
    &&& has_number(value, "seq"@, e.seq)
    &&& value.member("ts"@) matches Some(JsonView::Text(_))
    &&& value.member("kind"@) matches Some(kind) && names_kind(kind, e.kind)
    &&& has_optional_text(value, "provider"@, e.provider)
    &&& has_optional_text(value, "model"@, e.model)
    &&& has_optional_text(value, "call_id"@, e.call_id)
    &&& value.member("payload"@) == Some(e.payload)
}

proof fn named_kind_is(name: Seq<char>, kind: Kind)
    ensures
        event::kind_named(name) == Some(kind) <==> name == kind.name(),
{
    event::kind_found_by_its_name(kind);
    if let Some(k) = event::kind_named(name) {
        event::kind_found_by_its_name(k);
    }
}

/// An event is read from a value just where the value has every field as the event
/// has it, and the text of the instant spells the event's.
pub proof fn an_event_is_read_from_its_fields(
    value: JsonView,
    instant: Option<Timestamp>,
    e: EventView,
)
    ensures
        event::event_of_value(value, instant, None) == Ok::<EventView, DecodeError>(e) <==> (
        has_the_fields_of(value, e) && instant == Some(e.ts)),
{
    if let Some(kind) = value.member("kind"@) {
        if let JsonView::Text(name) = kind {
            named_kind_is(name, e.kind);
        }
        if let JsonView::Object(members) = kind {
            if members.len() == 1 {
                named_kind_is(members[0].0, e.kind);
            }
        }
    }
}

/// A value of another version is refused by that version, whatever else it holds.
pub proof fn another_version_is_refused(
    members: Seq<(Seq<char>, JsonView)>,
    instant: Option<Timestamp>,
    n: u32,
)
    requires
        has_number(JsonView::Object(members), "v"@, n as u64),
        n != 1,
    ensures
        event::event_of_value(JsonView::Object(members), instant, None) == Err::<
            EventView,
            DecodeError,
        >(DecodeError::Version(n)),
{
}

/// A value with a field that is written twice spells no event.
pub proof fn a_repeat_spells_no_event(value: JsonView, instant: Option<Timestamp>, field: Field)
    ensures
        event::event_of_value(value, instant, Some(field)) is Err,
{
}

proof fn two_writings_count(written: Seq<MemberView>, name: Seq<char>, i: int, j: int)
    requires
        0 <= i < j < written.len(),
        written[i].key == Some(name),
        written[j].key == Some(name),
    ensures
        members::times_written(written, name) >= 2,
    decreases written.len(),
{
    let init = written.drop_last();
    if j < init.len() {
        two_writings_count(init, name, i, j);
    } else {
        one_writing_counts(init, name, i);
    }
}

proof fn writings_are_counted(written: Seq<MemberView>, name: Seq<char>)
    ensures
        members::times_written(written, name) >= 0,
    decreases written.len(),
{
    if written.len() > 0 {
        writings_are_counted(written.drop_last(), name);
    }
}

proof fn one_writing_counts(written: Seq<MemberView>, name: Seq<char>, i: int)
    requires
        0 <= i < written.len(),
        written[i].key == Some(name),
    ensures
        members::times_written(written, name) >= 1,
    decreases written.len(),
{
    writings_are_counted(written.drop_last(), name);
    if i < written.len() - 1 {
        one_writing_counts(written.drop_last(), name, i);
    }
}

proof fn a_repeat_is_noticed(written: Seq<MemberView>, some: Seq<Field>, k: int)
    requires
        0 <= k < some.len(),
        members::times_written(written, some[k].name()) >= 2,
    ensures
        event::first_repeated(written, some) is Some,
    decreases some.len(),
{
    if k > 0 {
        assert(some.drop_first()[k - 1] == some[k]);
        a_repeat_is_noticed(written, some.drop_first(), k - 1);
    }
}

/// A message that writes a field of an event twice spells no event.
pub proof fn a_field_written_twice_is_refused(
    written: Seq<MemberView>,
    field: Field,
    i: int,
    j: int,
)
    requires
        0 <= i < j < written.len(),
        written[i].key == Some(field.name()),
        written[j].key == Some(field.name()),
    ensures
        event::event_of_members(written) is Err,
{
    let all = event::fields();
    let k = match field {
        Field::Version => 0int,
        Field::Id => 1,
        Field::SessionId => 2,
        Field::RunId => 3,
        Field::SeqNumber => 4,
        Field::Ts => 5,
        Field::Kind => 6,
        Field::Provider => 7,
        Field::Model => 8,
        Field::CallId => 9,
        Field::Payload => 10,
    };
    assert(all[k] == field);
    two_writings_count(written, field.name(), i, j);
    a_repeat_is_noticed(written, all, k);
}

/// Bytes that do not have the form of JSON spell no event, and neither do those of a
/// value that is no object.
pub proof fn only_objects_spell_events(raw: Seq<u8>)
    requires
        !json::has_json_form(raw) || !members::is_object(raw),
    ensures
        event::event_of_bytes(raw) is Err,
{
    if let Some(value) = json::json_of_bytes(raw) {
        if let Ok(e) = event::event_of_value(value, None, None) {
            an_event_is_read_from_its_fields(value, None, e);
        }
    }
}

/// A kind written as an object must be its only member; otherwise the message spells
/// no event.
pub proof fn a_kind_of_several_members_is_refused(written: Seq<MemberView>, i: int)
    requires
        0 <= i < written.len(),
        written[i].key == Some("kind"@),
        members::is_object(written[i].value),
        members::written(written[i].value).len() != 1,
    ensures
        event::event_of_members(written) is Err,
{
    assert(event::kind_is_overfull(written));
}

proof fn lookup_push(object: Seq<(Seq<char>, JsonView)>, key: Seq<char>, value: JsonView, name: Seq<char>)
    ensures
        json::lookup(object.push((key, value)), name) == match json::lookup(object, name) {
            Some(v) => Some(v),
            None => if key == name {
                Some(value)
            } else {
                None
            },
        },
    decreases object.len(),
{
    let more = object.push((key, value));
    if object.len() == 0 {
        reveal_with_fuel(json::lookup, 2);
        assert(more.drop_first() =~= Seq::empty());
    } else {
        lookup_push(object.drop_first(), key, value, name);
        assert(more.drop_first() =~= object.drop_first().push((key, value)));
        assert(more[0] == object[0]);
    }
}

/// Whether every key can be read, and every value under one of some names.
pub open spec fn are_readable(written: Seq<MemberView>, names: Seq<Seq<char>>) -> bool {
    forall|i: int|
        0 <= i < written.len() ==> (#[trigger] written[i]).key is Some && (names.contains(
            written[i].key->0,
        ) ==> members::member_value(written[i].value) is Some)
}

proof fn picking_reads_each(written: Seq<MemberView>, names: Seq<Seq<char>>, name: Seq<char>)
    requires
        are_readable(written, names),
        names.contains(name),
    ensures
        members::picked(written, names) is Some,
        (forall|i: int| 0 <= i < written.len() ==> (#[trigger] written[i]).key != Some(name))
            ==> json::lookup(members::picked(written, names)->0, name) is None,
        forall|k: int|
            0 <= k < written.len() && (#[trigger] written[k]).key == Some(name) && (forall|i: int|
                0 <= i < k ==> (#[trigger] written[i]).key != Some(name)) ==> json::lookup(
                members::picked(written, names)->0,
                name,
            ) == members::member_value(written[k].value),
    decreases written.len(),
{
    if written.len() > 0 {
        let init = written.drop_last();
        let last = written.last();
        let n = written.len() - 1;
        assert(written[n] == last);
        assert forall|i: int| 0 <= i < init.len() implies (#[trigger] init[i]).key is Some && (
        names.contains(init[i].key->0) ==> members::member_value(init[i].value) is Some) by {
            assert(written[i] == init[i]);
        }
        picking_reads_each(init, names, name);
        let before = members::picked(init, names)->0;
        if names.contains(last.key->0) {
            lookup_push(before, last.key->0, members::member_value(last.value)->0, name);
        }
        if forall|i: int| 0 <= i < written.len() ==> (#[trigger] written[i]).key != Some(name) {
            assert forall|i: int| 0 <= i < init.len() implies (#[trigger] init[i]).key != Some(name) by {
                assert(written[i] == init[i]);
            }
        }
        assert forall|k: int|
            0 <= k < written.len() && (#[trigger] written[k]).key == Some(name) && (forall|i: int|
                0 <= i < k ==> (#[trigger] written[i]).key != Some(name)) implies json::lookup(
            members::picked(written, names)->0,
            name,
        ) == members::member_value(written[k].value) by {
            assert forall|i: int| 0 <= i < k && i < n implies (#[trigger] init[i]).key != Some(name) by {
                assert(written[i] == init[i]);
            }
            if k < n {
                assert(init[k] == written[k]);
            }
        }
    }
}

proof fn unwritten_counts_none(written: Seq<MemberView>, name: Seq<char>)
    requires
        forall|i: int| 0 <= i < written.len() ==> (#[trigger] written[i]).key != Some(name),
    ensures
        members::times_written(written, name) == 0,
    decreases written.len(),
{
    if written.len() > 0 {
        let init = written.drop_last();
        assert forall|i: int| 0 <= i < init.len() implies (#[trigger] init[i]).key != Some(name) by {
            assert(written[i] == init[i]);
        }
        unwritten_counts_none(init, name);
        assert(written[written.len() - 1] == written.last());
    }
}

/// Whether no two members have the same key, among the names of the fields.
pub open spec fn no_field_twice(written: Seq<MemberView>) -> bool {
    forall|i: int, j: int|
        0 <= i < j < written.len() && (#[trigger] written[i]).key == (#[trigger] written[j]).key
            && written[i].key is Some ==> !event::field_names().contains(written[i].key->0)
}

proof fn written_once_counts_once(written: Seq<MemberView>, name: Seq<char>)
    requires
        no_field_twice(written),
        event::field_names().contains(name),
    ensures
        members::times_written(written, name) <= 1,
    decreases written.len(),
{
    if written.len() > 0 {
        let init = written.drop_last();
        let n = written.len() - 1;
        assert forall|i: int, j: int|
            0 <= i < j < init.len() && (#[trigger] init[i]).key == (#[trigger] init[j]).key
                && init[i].key is Some implies !event::field_names().contains(init[i].key->0) by {
            assert(written[i] == init[i] && written[j] == init[j]);
        }
        written_once_counts_once(init, name);
        if written.last().key == Some(name) {
            assert forall|i: int| 0 <= i < init.len() implies (#[trigger] init[i]).key != Some(name) by {
                assert(written[i] == init[i] && written[n] == written.last());
            }
            unwritten_counts_none(init, name);
        }
    }
}

proof fn nothing_is_repeated(written: Seq<MemberView>, k: int)
    requires
        no_field_twice(written),
        0 <= k <= 11,
    ensures
        event::first_repeated(written, event::fields().skip(k)) is None,
    decreases 11 - k,
{
    let rest = event::fields().skip(k);
    if k < 11 {
        assert(rest[0] == event::fields()[k]);
        assert(event::field_names()[k] == rest[0].name());
        assert(event::field_names().contains(event::field_names()[k]));
        written_once_counts_once(written, rest[0].name());
        assert(rest.drop_first() =~= event::fields().skip(k + 1));
        nothing_is_repeated(written, k + 1);
    }
}

/// Whether members hold the fields of an event in any order, each once, beside members
/// that are no fields. The kind is written as a string.
pub open spec fn spells_in_some_order(written: Seq<MemberView>, e: EventView, ts: Seq<char>) -> bool {
    &&& are_readable(written, event::field_names())
    &&& no_field_twice(written)
    &&& forall|i: int, f: int|
        0 <= i < written.len() && 0 <= f < 11 && (#[trigger] written[i]).key == Some(
            #[trigger] event::field_names()[f],
        ) ==> members::member_value(written[i].value) == Some(field_values(e, ts)[f]) && (f == 6
            ==> !members::is_object(written[i].value))
    &&& forall|f: int|
        0 <= f < 11 ==> exists|i: int|
            0 <= i < written.len() && (#[trigger] written[i]).key == Some(
                #[trigger] event::field_names()[f],
            )
}

proof fn each_field_is_looked_up(
    written: Seq<MemberView>,
    names: Seq<Seq<char>>,
    e: EventView,
    ts: Seq<char>,
    f: int,
)
    requires
        spells_in_some_order(written, e, ts),
        are_readable(written, names),
        0 <= f < 11,
        names.contains(event::field_names()[f]),
    ensures
        members::picked(written, names) matches Some(object) && JsonView::Object(object).member(
            event::field_names()[f],
        ) == Some(field_values(e, ts)[f]),
{
    let name = event::field_names()[f];
    assert(event::field_names().contains(name));
    picking_reads_each(written, names, name);
    let k = choose|k: int| 0 <= k < written.len() && (#[trigger] written[k]).key == Some(name);
    assert forall|i: int| 0 <= i < k implies (#[trigger] written[i]).key != Some(name) by {
        assert(written[i].key == written[k].key ==> !event::field_names().contains(name));
    }
    assert(written[k].key == Some(name));
}

/// The fields of an event may stand in any order, with other members between them: the
/// event is read back.
pub proof fn fields_may_stand_in_any_order(written: Seq<MemberView>, e: EventView, ts: Seq<char>)
    requires
        spells_in_some_order(written, e, ts),
        timestamp::instant_of_text(ts) == Some(e.ts),
    ensures
        event::event_of_members(written) == read_back(e),
{
    let names = event::field_names();
    let head = seq!["v"@];
    assert(names[0] == "v"@);
    assert(head[0] == "v"@);
    assert(head.contains("v"@));
    assert(names.contains("v"@));
    assert(are_readable(written, head)) by {
        assert forall|i: int| 0 <= i < written.len() implies (#[trigger] written[i]).key is Some && (
        head.contains(written[i].key->0) ==> members::member_value(written[i].value) is Some) by {
            if head.contains(written[i].key->0) {
                assert(written[i].key->0 == names[0]);
            }
        }
    }
    each_field_is_looked_up(written, head, e, ts, 0);
    nothing_is_repeated(written, 0);
    assert(event::fields().skip(0) =~= event::fields());
    let object = JsonView::Object(members::picked(written, names)->0);
    assert forall|f: int| 0 <= f < 11 implies object.member(#[trigger] names[f]) == Some(
        field_values(e, ts)[f],
    ) by {
        assert(names.contains(names[f]));
        each_field_is_looked_up(written, names, e, ts, f);
    }
    assert(names.contains(names[0]));
    each_field_is_looked_up(written, names, e, ts, 0);
    assert(names[1] == "id"@);
    assert(names[2] == "session_id"@);
    assert(names[3] == "run_id"@);
    assert(names[4] == "seq"@);
    assert(names[5] == "ts"@);
    assert(names[6] == "kind"@);
    assert(names[7] == "provider"@);
    assert(names[8] == "model"@);
    assert(names[9] == "call_id"@);
    assert(names[10] == "payload"@);
    assert(!event::kind_is_overfull(written)) by {
        assert forall|i: int| 0 <= i < written.len() && (#[trigger] written[i]).key == Some(
            "kind"@,
        ) implies !members::is_object(written[i].value) by {
            assert(written[i].key == Some(names[6]));
        }
    }
    if e.v == 1 {
        an_event_is_read_from_its_fields(object, Some(e.ts), e);
    }
}

/// A message of another version is refused by that version, whatever else it holds, as
/// long as its keys can be read and the version is written once.
pub proof fn a_message_of_another_version_is_refused(written: Seq<MemberView>, k: int, n: u32)
    requires
        forall|i: int| 0 <= i < written.len() ==> (#[trigger] written[i]).key is Some,
        0 <= k < written.len(),
        forall|i: int| 0 <= i < written.len() && (#[trigger] written[i]).key == Some("v"@) ==> i == k,
        written[k].key == Some("v"@),
        members::member_value(written[k].value) matches Some(JsonView::Number { unsigned, .. })
            && unsigned == Some(n as u64),
        n != 1,
    ensures
        event::event_of_members(written) == Err::<EventView, DecodeError>(DecodeError::Version(n)),
{
    let head = seq!["v"@];
    assert(head[0] == "v"@);
    assert(head.contains("v"@));
    assert forall|i: int| 0 <= i < written.len() implies (#[trigger] written[i]).key is Some && (
    head.contains(written[i].key->0) ==> members::member_value(written[i].value) is Some) by {
        if head.contains(written[i].key->0) {
            assert(written[i].key == Some("v"@));
        }
    }
    picking_reads_each(written, head, "v"@);
    assert forall|i: int| 0 <= i < k implies (#[trigger] written[i]).key != Some("v"@) by {}
    assert(members::times_written(written, "v"@) <= 1) by {
        only_one_counts_once(written, "v"@, k);
    }
    assert(event::fields()[0] == Field::Version);
    field_names_are_distinct();
    assert(event::first_repeated(written, event::fields()) != Some(Field::Version)) by {
        let rest = event::fields().drop_first();
        assert forall|i: int| 0 <= i < rest.len() implies rest[i] != Field::Version by {
            assert(rest[i] == event::fields()[i + 1]);
        }
        repeated_is_one_of(written, rest);
    }
}

proof fn only_one_counts_once(written: Seq<MemberView>, name: Seq<char>, k: int)
    requires
        forall|i: int| 0 <= i < written.len() && (#[trigger] written[i]).key == Some(name) ==> i == k,
    ensures
        members::times_written(written, name) <= 1,
    decreases written.len(),
{
    if written.len() > 0 {
        let init = written.drop_last();
        let n = written.len() - 1;
        assert(written[n] == written.last());
        assert forall|i: int| 0 <= i < init.len() && (#[trigger] init[i]).key == Some(name) implies i
            == k by {
            assert(written[i] == init[i]);
        }
        only_one_counts_once(init, name, k);
        if written.last().key == Some(name) {
            assert forall|i: int| 0 <= i < init.len() implies (#[trigger] init[i]).key != Some(name) by {
                assert(written[i] == init[i]);
            }
            unwritten_counts_none(init, name);
        }
    }
}

proof fn repeated_is_one_of(written: Seq<MemberView>, some: Seq<Field>)
    ensures
        event::first_repeated(written, some) matches Some(field) ==> some.contains(field),
    decreases some.len(),
{
    if some.len() > 0 {
        repeated_is_one_of(written, some.drop_first());
        if let Some(field) = event::first_repeated(written, some) {
            if field != some[0] {
                let rest = some.drop_first();
                let i = choose|i: int| 0 <= i < rest.len() && rest[i] == field;
                assert(some[i + 1] == field);
            }
        }
    }
}

/// What is said to be wrong with an object is so: a field that is said to be missing is
/// not there, one that is said to be invalid is, and only a field that is written more
/// than once is said to be. Only provider, model and call id may be left out.
pub proof fn faults_are_true(
    members: Seq<(Seq<char>, JsonView)>,
    instant: Option<Timestamp>,
    repeated: Option<Field>,
    fault: Fault,
)
    requires
        event::event_of_value(JsonView::Object(members), instant, repeated) == Err::<
            EventView,
            DecodeError,
        >(DecodeError::Json(fault)),
    ensures
        match fault {
            Fault::Missing(field) => JsonView::Object(members).member(field.name()) is None
                && field != Field::Provider && field != Field::Model && field != Field::CallId,
            Fault::Invalid(field) => JsonView::Object(members).member(field.name()) is Some && field
                != Field::Payload,
            Fault::Duplicate(field) => repeated == Some(field),
            _ => false,
        },
{
}

/// A version that is no number of at most 32 bits is invalid; an array of one number
/// is taken for a version alone.
pub proof fn versions_are_small_numbers(value: JsonView, instant: Option<Timestamp>)
    ensures
        value is Object && value.member("v"@) is Some && (forall|n: u32|
            !#[trigger] has_number(value, "v"@, n as u64)) ==> event::event_of_value(
            value,
            instant,
            None,
        ) == Err::<EventView, DecodeError>(DecodeError::Json(Fault::Invalid(Field::Version))),
        match value {
            JsonView::Array(items) => items.len() == 1 ==> match items[0] {
                JsonView::Number { unsigned: Some(n), text: _ } => n != 1 && n <= 4294967295
                    ==> event::event_of_value(value, instant, None) == Err::<
                    EventView,
                    DecodeError,
                >(DecodeError::Version(n as u32)),
                _ => true,
            },
            _ => true,
        },
{
    if value is Object && value.member("v"@) is Some {
        if let Some(n) = event::small_number(value.member("v"@)->0) {
            assert(has_number(value, "v"@, n as u64));
        }
    }
}

/// Errors in words name the version, or what is wrong and the field it is in.
pub proof fn errors_name_what_is_wrong(v: u32, field: Field)
    ensures
        DecodeError::Version(v).words() == "unsupported event version "@ + text::decimal(v as nat),
        DecodeError::Json(Fault::Missing(field)).words() == "invalid event json: "@ + (
        "missing field `"@ + field.name() + "`"@),
        DecodeError::Json(Fault::Invalid(field)).words() == "invalid event json: "@ + (
        "invalid field `"@ + field.name() + "`"@),
        DecodeError::Json(Fault::Duplicate(field)).words() == "invalid event json: "@ + (
        "duplicate field `"@ + field.name() + "`"@),
{
}

} // verus!
