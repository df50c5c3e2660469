//! Audit events: their fields, and how they are read from the bytes of a message.
use vstd::prelude::*;

use crate::json;
use crate::json::check_form;
use crate::json::parse_json;
use crate::json::Json;
use crate::json::JsonView;
use crate::members;
use crate::members::is_repeated;
use crate::members::pick;
use crate::members::read_members;
use crate::members::Member;
use crate::members::MemberView;
use crate::text;
use crate::text::text_eq;
use crate::timestamp;
use crate::timestamp::parse_instant;
use crate::timestamp::Timestamp;

pub use crate::group::group_tool_calls;
pub use crate::group::ToolGroup;
pub use crate::order::order_and_dedup;

verus! {

/// What an event records.
#[derive(Debug, Clone, Copy, PartialEq, Eq, Hash, Structural)]
pub enum Kind {
    LlmRequest,
    LlmResponse,
    ToolCall,
    ToolResult,
    Usage,
}

impl Kind {
    /// The name of a kind in messages and on the screen.
    pub open spec fn name(self) -> Seq<char> {
        match self {
            Kind::LlmRequest => "llm_request"@,
            Kind::LlmResponse => "llm_response"@,
            Kind::ToolCall => "tool_call"@,
            Kind::ToolResult => "tool_result"@,
            Kind::Usage => "usage"@,
        }
    }

    /// The name of this kind.
    pub fn label(self) -> (label: &'static str)
        ensures
            label@ == self.name(),
    {
        match self {
            Kind::LlmRequest => "llm_request",
            Kind::LlmResponse => "llm_response",
            Kind::ToolCall => "tool_call",
            Kind::ToolResult => "tool_result",
            Kind::Usage => "usage",
        }
    }
}

/// The kind with a given name.
pub open spec fn kind_named(name: Seq<char>) -> Option<Kind> {
    if name == "llm_request"@ {
        Some(Kind::LlmRequest)
    } else if name == "llm_response"@ {
        Some(Kind::LlmResponse)
    } else if name == "tool_call"@ {
        Some(Kind::ToolCall)
    } else if name == "tool_result"@ {
        Some(Kind::ToolResult)
    } else if name == "usage"@ {
        Some(Kind::Usage)
    } else {
        None
    }
}

/// Finds the kind with a given name.
fn find_kind(name: &str) -> (kind: Option<Kind>)
    ensures
        kind == kind_named(name@),
{
    if text_eq(name, "llm_request") {
        Some(Kind::LlmRequest)
    } else if text_eq(name, "llm_response") {
        Some(Kind::LlmResponse)
    } else if text_eq(name, "tool_call") {
        Some(Kind::ToolCall)
    } else if text_eq(name, "tool_result") {
        Some(Kind::ToolResult)
    } else if text_eq(name, "usage") {
        Some(Kind::Usage)
    } else {
        None
    }
}

/// Every kind is found again under its own name.
pub proof fn kind_found_by_its_name(kind: Kind)
    ensures
        kind_named(kind.name()) == Some(kind),
{
    reveal_strlit("llm_request");
    reveal_strlit("llm_response");
    reveal_strlit("tool_call");
    reveal_strlit("tool_result");
    reveal_strlit("usage");
    assert("llm_response"@.len() == 12);
    assert("llm_request"@.len() == 11);
    assert("tool_call"@.len() == 9);
    assert("tool_result"@.len() == 11);
    assert("tool_result"@[0] == 't');
    assert("llm_request"@[0] == 'l');
    assert("usage"@.len() == 5);
}

/// One audit event.
#[derive(Debug)]
pub struct AuditEvent {
    pub v: u32,
    pub id: String,
    pub session_id: String,
    pub run_id: String,
    pub seq: u64,
    pub ts: Timestamp,
    pub kind: Kind,
    pub provider: Option<String>,
    pub model: Option<String>,
    pub call_id: Option<String>,
    pub payload: Json,
}

/// What an [`AuditEvent`] denotes.
pub struct EventView {
    pub v: u32,
    pub id: Seq<char>,
    pub session_id: Seq<char>,
    pub run_id: Seq<char>,
    pub seq: u64,
    pub ts: Timestamp,
    pub kind: Kind,
    pub provider: Option<Seq<char>>,
    pub model: Option<Seq<char>>,
    pub call_id: Option<Seq<char>>,
    pub payload: JsonView,
}

/// The characters of an optional text.
pub open spec fn opt_text(s: Option<String>) -> Option<Seq<char>> {
    match s {
        Some(s) => Some(s@),
        None => None,
    }
}

impl View for AuditEvent {
    type V = EventView;

    open spec fn view(&self) -> EventView {
        EventView {
            v: self.v,
            id: self.id@,
            session_id: self.session_id@,
            run_id: self.run_id@,
            seq: self.seq,
            ts: self.ts,
            kind: self.kind,
            provider: opt_text(self.provider),
            model: opt_text(self.model),
            call_id: opt_text(self.call_id),
            payload: self.payload@,
        }
    }
}

/// What a list of events denotes.
pub open spec fn event_views(events: Seq<AuditEvent>) -> Seq<EventView> {
    events.map_values(|e: AuditEvent| e@)
}

/// Copies an optional text.
fn copy_opt(s: &Option<String>) -> (copy: Option<String>)
    ensures
        opt_text(copy) == opt_text(*s),
{
    match s {
        Some(s) => Some(s.clone()),
        None => None,
    }
}

impl Clone for AuditEvent {
    fn clone(&self) -> (copy: Self)
        ensures
            copy@ == self@,
    {
        AuditEvent {
            v: self.v,
            id: self.id.clone(),
            session_id: self.session_id.clone(),
            run_id: self.run_id.clone(),
            seq: self.seq,
            ts: self.ts,
            kind: self.kind,
            provider: copy_opt(&self.provider),
            model: copy_opt(&self.model),
            call_id: copy_opt(&self.call_id),
            payload: self.payload.clone(),
        }
    }
}

/// A field of an event.
#[derive(Debug, Clone, Copy, PartialEq, Eq, Structural)]
pub enum Field {
    Version,
    Id,
    SessionId,
    RunId,
    SeqNumber,
    Ts,
    Kind,
    Provider,
    Model,
    CallId,
    Payload,
}

impl Field {
    /// The name of a field in messages.
    pub open spec fn name(self) -> Seq<char> {
        match self {
            Field::Version => "v"@,
            Field::Id => "id"@,
            Field::SessionId => "session_id"@,
            Field::RunId => "run_id"@,
            Field::SeqNumber => "seq"@,
            Field::Ts => "ts"@,
            Field::Kind => "kind"@,
            Field::Provider => "provider"@,
            Field::Model => "model"@,
            Field::CallId => "call_id"@,
            Field::Payload => "payload"@,
        }
    }

    /// The name of this field.
    pub fn label(self) -> (label: &'static str)
        ensures
            label@ == self.name(),
    {
        match self {
            Field::Version => "v",
            Field::Id => "id",
            Field::SessionId => "session_id",
            Field::RunId => "run_id",
            Field::SeqNumber => "seq",
            Field::Ts => "ts",
            Field::Kind => "kind",
            Field::Provider => "provider",
            Field::Model => "model",
            Field::CallId => "call_id",
            Field::Payload => "payload",
        }
    }
}

/// What is wrong with the JSON of a message.
#[derive(Debug, Clone, Copy, PartialEq, Eq, Structural)]
pub enum Fault {
    /// The bytes do not have the form of JSON.
    Form,
    /// A key, or the value of a field, has the form of JSON but cannot be read.
    Unreadable,
    /// A field is absent.
    Missing(Field),
    /// A field has a value that it cannot have.
    Invalid(Field),
    /// A field is written more than once.
    Duplicate(Field),
}

/// Why a message is not an event.
#[derive(Debug, Clone, Copy, PartialEq, Eq, Structural)]
pub enum DecodeError {
    /// The event is of a version other than 1.
    Version(u32),
    /// The bytes are not JSON, or the value lacks what an event needs.
    Json(Fault),
}

impl Fault {
    /// A fault in words.
    pub open spec fn words(self) -> Seq<char> {
        match self {
            Fault::Form => "not JSON"@,
            Fault::Unreadable => "unreadable key or value"@,
            Fault::Missing(field) => "missing field `"@ + field.name() + "`"@,
            Fault::Invalid(field) => "invalid field `"@ + field.name() + "`"@,
            Fault::Duplicate(field) => "duplicate field `"@ + field.name() + "`"@,
        }
    }

    /// This fault in words.
    pub fn message(&self) -> (text: String)
        ensures
            text@ == self.words(),
    {
        let (start, field) = match self {
            Fault::Form => {
                return "not JSON".to_string();
            },
            Fault::Unreadable => {
                return "unreadable key or value".to_string();
            },
            Fault::Missing(field) => ("missing field `", *field),
            Fault::Invalid(field) => ("invalid field `", *field),
            Fault::Duplicate(field) => ("duplicate field `", *field),
        };
        let mut text = start.to_string();
        text.append(field.label());
        text.append("`");
        text
    }
}

impl DecodeError {
    /// An error in words.
    pub open spec fn words(self) -> Seq<char> {
        match self {
            DecodeError::Version(v) => "unsupported event version "@ + text::decimal(v as nat),
            DecodeError::Json(fault) => "invalid event json: "@ + fault.words(),
        }
    }

    /// This error in words. Of a fault they tell what it is and which field it is
    /// in, not at which line and column it was met.
    pub fn message(&self) -> (text: String)
        ensures
            text@ == self.words(),
    {
        match self {
            DecodeError::Version(v) => {
                let mut text = "unsupported event version ".to_string();
                text.append(text::decimal_text(*v as u64).as_str());
                text
            },
            DecodeError::Json(fault) => {
                let mut text = "invalid event json: ".to_string();
                text.append(fault.message().as_str());
                text
            },
        }
    }
}

/// How many messages of a batch were events, and how many were not.
#[derive(Debug, Clone, Copy, PartialEq, Eq, Structural)]
pub struct DecodeStats {
    pub accepted: usize,
    pub skipped: usize,
}

impl Default for DecodeStats {
    fn default() -> (stats: Self)
        ensures
            stats == (DecodeStats { accepted: 0, skipped: 0 }),
    {
        DecodeStats { accepted: 0, skipped: 0 }
    }
}

/// An optional value that must be there.
pub open spec fn required<T>(value: Option<T>, field: Field) -> Result<T, Fault> {
    match value {
        Some(x) => Ok(x),
        None => Err(Fault::Invalid(field)),
    }
}

/// The text under a field that an event must have.
pub open spec fn text_field(object: JsonView, field: Field) -> Result<Seq<char>, Fault> {
    match object.member(field.name()) {
        Some(value) => required(value.text(), field),
        None => Err(Fault::Missing(field)),
    }
}

/// The text under a field that an event may have; `null` counts as absent.
pub open spec fn optional_text_field(object: JsonView, field: Field) -> Result<
    Option<Seq<char>>,
    Fault,
> {
    match object.member(field.name()) {
        None => Ok(None),
        Some(JsonView::Null) => Ok(None),
        Some(JsonView::Text(s)) => Ok(Some(s)),
        Some(_) => Err(Fault::Invalid(field)),
    }
}

/// The number under the field `seq`.
pub open spec fn seq_field(object: JsonView) -> Result<u64, Fault> {
    match object.member("seq"@) {
        Some(value) => required(value.unsigned(), Field::SeqNumber),
        None => Err(Fault::Missing(Field::SeqNumber)),
    }
}

/// The instant that the text under the field `ts` spells, if it spells one.
pub open spec fn instant_of(value: JsonView) -> Option<Timestamp> {
    match text_field(value, Field::Ts) {
        Ok(s) => timestamp::instant_of_text(s),
        Err(_) => None,
    }
}

/// The instant under the field `ts`, where `instant` is what its text spells.
pub open spec fn ts_field(object: JsonView, instant: Option<Timestamp>) -> Result<Timestamp, Fault> {
    match text_field(object, Field::Ts) {
        Ok(_) => required(instant, Field::Ts),
        Err(fault) => Err(fault),
    }
}

/// The kind that a value names: by its name as a string, or as the only key of
/// an object, with the value `null`.
pub open spec fn kind_of_value(value: JsonView) -> Option<Kind> {
    match value {
        JsonView::Text(s) => kind_named(s),
        JsonView::Object(members) => if members.len() == 1 && members[0].1 is Null {
            kind_named(members[0].0)
        } else {
            None
        },
        _ => None,
    }
}

/// The kind under the field `kind`.
pub open spec fn kind_field(object: JsonView) -> Result<Kind, Fault> {
    match object.member("kind"@) {
        Some(value) => required(kind_of_value(value), Field::Kind),
        None => Err(Fault::Missing(Field::Kind)),
    }
}

/// The value under the field `payload`.
pub open spec fn payload_field(object: JsonView) -> Result<JsonView, Fault> {
    match object.member("payload"@) {
        Some(value) => Ok(value),
        None => Err(Fault::Missing(Field::Payload)),
    }
}

/// A number of at most 32 bits.
pub open spec fn small_number(value: JsonView) -> Option<u32> {
    match value.unsigned() {
        Some(n) => if n <= u32::MAX {
            Some(n as u32)
        } else {
            None
        },
        None => None,
    }
}

/// The version that a value declares: the field `v` of an object, or the only
/// item of an array.
pub open spec fn version_of(value: JsonView) -> Result<u32, Fault> {
    match value {
        JsonView::Object(_) => match value.member("v"@) {
            Some(v) => required(small_number(v), Field::Version),
            None => Err(Fault::Missing(Field::Version)),
        },
        JsonView::Array(items) => if items.len() == 1 {
            required(small_number(items[0]), Field::Version)
        } else {
            Err(Fault::Invalid(Field::Version))
        },
        _ => Err(Fault::Missing(Field::Version)),
    }
}

/// The event that an object of version 1 spells, or what is wrong with the first
/// of its fields that is at fault; `instant` is what the text under `ts` spells.
pub open spec fn event_of_object(object: JsonView, instant: Option<Timestamp>) -> Result<
    EventView,
    Fault,
> {
    match text_field(object, Field::Id) {
        Err(fault) => Err(fault),
        Ok(id) => match text_field(object, Field::SessionId) {
            Err(fault) => Err(fault),
            Ok(session_id) => match text_field(object, Field::RunId) {
                Err(fault) => Err(fault),
                Ok(run_id) => match seq_field(object) {
                    Err(fault) => Err(fault),
                    Ok(seq) => match ts_field(object, instant) {
                        Err(fault) => Err(fault),
                        Ok(ts) => match kind_field(object) {
                            Err(fault) => Err(fault),
                            Ok(kind) => match optional_text_field(object, Field::Provider) {
                                Err(fault) => Err(fault),
                                Ok(provider) => match optional_text_field(object, Field::Model) {
                                    Err(fault) => Err(fault),
                                    Ok(model) => match optional_text_field(object, Field::CallId) {
                                        Err(fault) => Err(fault),
                                        Ok(call_id) => match payload_field(object) {
                                            Err(fault) => Err(fault),
                                            Ok(payload) => Ok(
                                                EventView {
                                                    v: 1,
                                                    id,
                                                    session_id,
                                                    run_id,
                                                    seq,
                                                    ts,
                                                    kind,
                                                    provider,
                                                    model,
                                                    call_id,
                                                    payload,
                                                },
                                            ),
                                        },
                                    },
                                },
                            },
                        },
                    },
                },
            },
        },
    }
}

/// The fields of an event, the version first.
pub open spec fn fields() -> Seq<Field> {
    seq![
        Field::Version,
        Field::Id,
        Field::SessionId,
        Field::RunId,
        Field::SeqNumber,
        Field::Ts,
        Field::Kind,
        Field::Provider,
        Field::Model,
        Field::CallId,
        Field::Payload,
    ]
}

/// The names of the fields of an event, in the same order.
pub open spec fn field_names() -> Seq<Seq<char>> {
    fields().map_values(|f: Field| f.name())
}

/// The first of some fields that is written more than once.
pub open spec fn first_repeated(written: Seq<MemberView>, some: Seq<Field>) -> Option<Field>
    decreases some.len(),
{
    if some.len() == 0 {
        None
    } else if members::times_written(written, some[0].name()) > 1 {
        Some(some[0])
    } else {
        first_repeated(written, some.drop_first())
    }
}

/// What is wrong with the version of a JSON value, if anything is: it is written
/// more than once, it cannot be read, or it is not 1.
pub open spec fn version_problem(value: JsonView, repeated: Option<Field>) -> Option<DecodeError> {
    if repeated == Some(Field::Version) {
        Some(DecodeError::Json(Fault::Duplicate(Field::Version)))
    } else {
        match version_of(value) {
            Err(fault) => Some(DecodeError::Json(fault)),
            Ok(version) => if version != 1 {
                Some(DecodeError::Version(version))
            } else {
                None
            },
        }
    }
}

/// The event that a JSON value spells, or why it spells none. The version is
/// looked at first. `instant` is what the text under `ts` spells, and `repeated`
/// the first of the fields that the message writes more than once.
pub open spec fn event_of_value(
    value: JsonView,
    instant: Option<Timestamp>,
    repeated: Option<Field>,
) -> Result<EventView, DecodeError> {
    match version_problem(value, repeated) {
        Some(problem) => Err(problem),
        None => match repeated {
            Some(field) => Err(DecodeError::Json(Fault::Duplicate(field))),
            None => match event_of_object(value, instant) {
                Ok(event) => Ok(event),
                Err(fault) => Err(DecodeError::Json(fault)),
            },
        },
    }
}

/// Whether the field `kind` is written as an object that does not have exactly one
/// member.
pub open spec fn kind_is_overfull(written: Seq<MemberView>) -> bool {
    exists|i: int|
        0 <= i < written.len() && (#[trigger] written[i]).key == Some("kind"@)
            && members::is_object(written[i].value) && members::written(written[i].value).len()
            != 1
}

/// The event that the members of an object spell, or why they spell none. Until
/// the version is known to be 1, no other value is looked into; and only those of
/// the fields of an event are at all.
pub open spec fn event_of_members(written: Seq<MemberView>) -> Result<EventView, DecodeError> {
    let repeated = first_repeated(written, fields());
    match members::picked(written, seq!["v"@]) {
        None => Err(DecodeError::Json(Fault::Unreadable)),
        Some(head) => match version_problem(JsonView::Object(head), repeated) {
            Some(problem) => Err(problem),
            None => match members::picked(written, field_names()) {
                None => Err(DecodeError::Json(Fault::Unreadable)),
                Some(object) => if kind_is_overfull(written) {
                    Err(DecodeError::Json(Fault::Invalid(Field::Kind)))
                } else {
                    event_of_value(
                        JsonView::Object(object),
                        instant_of(JsonView::Object(object)),
                        repeated,
                    )
                },
            },
        },
    }
}

/// The event that a message spells, or why it spells none.
pub open spec fn event_of_bytes(raw: Seq<u8>) -> Result<EventView, DecodeError> {
    if !json::has_json_form(raw) {
        Err(DecodeError::Json(Fault::Form))
    } else if members::is_object(raw) {
        event_of_members(members::written(raw))
    } else {
        match json::json_of_bytes(raw) {
            Some(value) => event_of_value(value, None, None),
            None => Err(DecodeError::Json(Fault::Unreadable)),
        }
    }
}

/// What the outcome of decoding denotes.
pub open spec fn outcome(result: Result<AuditEvent, DecodeError>) -> Result<EventView, DecodeError> {
    match result {
        Ok(event) => Ok(event@),
        Err(error) => Err(error),
    }
}

fn read_text(object: &Json, field: Field) -> (read: Result<String, Fault>)
    ensures
        match read {
            Ok(s) => text_field(object@, field) == Ok::<Seq<char>, Fault>(s@),
            Err(fault) => text_field(object@, field) == Err::<Seq<char>, Fault>(fault),
        },
{
    match object.get(field.label()) {
        Some(value) => match value.as_str() {
            Some(s) => Ok(s.clone()),
            None => Err(Fault::Invalid(field)),
        },
        None => Err(Fault::Missing(field)),
    }
}

fn read_optional_text(object: &Json, field: Field) -> (read: Result<Option<String>, Fault>)
    ensures
        match read {
            Ok(s) => optional_text_field(object@, field) == Ok::<Option<Seq<char>>, Fault>(
                opt_text(s),
            ),
            Err(fault) => optional_text_field(object@, field) == Err::<Option<Seq<char>>, Fault>(
                fault,
            ),
        },
{
    match object.get(field.label()) {
        None => Ok(None),
        Some(Json::Null) => Ok(None),
        Some(Json::Text(s)) => Ok(Some(s.clone())),
        Some(_) => Err(Fault::Invalid(field)),
    }
}

fn read_seq(object: &Json) -> (read: Result<u64, Fault>)
    ensures
        read == seq_field(object@),
{
    match object.get("seq") {
        Some(value) => match value.as_u64() {
            Some(n) => Ok(n),
            None => Err(Fault::Invalid(Field::SeqNumber)),
        },
        None => Err(Fault::Missing(Field::SeqNumber)),
    }
}

/// Reads the instant that the text under the field `ts` spells.
fn read_instant(value: &Json) -> (instant: Option<Timestamp>)
    ensures
        instant == instant_of(value@),
{
    match read_text(value, Field::Ts) {
        Ok(s) => parse_instant(s.as_str()),
        Err(_) => None,
    }
}

fn read_ts(object: &Json, instant: Option<Timestamp>) -> (read: Result<Timestamp, Fault>)
    ensures
        read == ts_field(object@, instant),
{
    match read_text(object, Field::Ts) {
        Ok(_) => match instant {
            Some(t) => Ok(t),
            None => Err(Fault::Invalid(Field::Ts)),
        },
        Err(fault) => Err(fault),
    }
}

fn read_kind(object: &Json) -> (read: Result<Kind, Fault>)
    ensures
        read == kind_field(object@),
{
    let found = match object.get("kind") {
        Some(value) => match value {
            Json::Text(s) => find_kind(s.as_str()),
            Json::Object(members) => {
                proof {
                    json::object_view(*members);
                }
                if members.len() == 1 {
                    match &members[0].1 {
                        Json::Null => find_kind(members[0].0.as_str()),
                        _ => None,
                    }
                } else {
                    None
                }
            },
            _ => None,
        },
        None => {
            return Err(Fault::Missing(Field::Kind));
        },
    };
    match found {
        Some(k) => Ok(k),
        None => Err(Fault::Invalid(Field::Kind)),
    }
}

fn read_small_number(value: &Json) -> (n: Option<u32>)
    ensures
        n == small_number(value@),
{
    match value.as_u64() {
        Some(n) => if n <= u32::MAX as u64 {
            Some(n as u32)
        } else {
            None
        },
        None => None,
    }
}

fn read_version(value: &Json) -> (read: Result<u32, Fault>)
    ensures
        read == version_of(value@),
{
    let found = match value {
        Json::Object(_) => match value.get("v") {
            Some(v) => read_small_number(v),
            None => {
                return Err(Fault::Missing(Field::Version));
            },
        },
        Json::Array(items) => {
            proof {
                json::array_view(*items);
            }
            if items.len() == 1 {
                read_small_number(&items[0])
            } else {
                None
            }
        },
        _ => {
            return Err(Fault::Missing(Field::Version));
        },
    };
    match found {
        Some(v) => Ok(v),
        None => Err(Fault::Invalid(Field::Version)),
    }
}

fn read_event(object: &Json, instant: Option<Timestamp>) -> (read: Result<AuditEvent, Fault>)
    ensures
        match read {
            Ok(e) => event_of_object(object@, instant) == Ok::<EventView, Fault>(e@),
            Err(fault) => event_of_object(object@, instant) == Err::<EventView, Fault>(fault),
        },
{
    let id = read_text(object, Field::Id)?;
    let session_id = read_text(object, Field::SessionId)?;
    let run_id = read_text(object, Field::RunId)?;
    let seq: u64 = read_seq(object)?;
    let ts = read_ts(object, instant)?;
    let kind = read_kind(object)?;
    let provider = read_optional_text(object, Field::Provider)?;
    let model = read_optional_text(object, Field::Model)?;
    let call_id = read_optional_text(object, Field::CallId)?;
    let payload = match object.get("payload") {
        Some(value) => value.clone(),
        None => {
            return Err(Fault::Missing(Field::Payload));
        },
    };
    Ok(
        AuditEvent {
            v: 1,
            id,
            session_id,
            run_id,
            seq,
            ts,
            kind,
            provider,
            model,
            call_id,
            payload,
        },
    )
}

/// Checks the version of a JSON value. `repeated` is the first of the fields that
/// the message writes more than once.
pub fn check_version(value: &Json, repeated: Option<Field>) -> (checked: Result<(), DecodeError>)
    ensures
        match checked {
            Ok(_) => version_problem(value@, repeated) is None,
            Err(e) => version_problem(value@, repeated) == Some(e),
        },
{
    if let Some(field) = repeated {
        if field == Field::Version {
            return Err(DecodeError::Json(Fault::Duplicate(field)));
        }
    }
    match read_version(value) {
        Err(fault) => Err(DecodeError::Json(fault)),
        Ok(version) => if version != 1 {
            Err(DecodeError::Version(version))
        } else {
            Ok(())
        },
    }
}

/// Reads an event from a JSON value. `instant` is what the text under `ts` spells,
/// and `repeated` the first of the fields that the message writes more than once.
pub fn decode_value(value: &Json, instant: Option<Timestamp>, repeated: Option<Field>) -> (result:
    Result<AuditEvent, DecodeError>)
    ensures
        outcome(result) == event_of_value(value@, instant, repeated),
{
    if let Err(problem) = check_version(value, repeated) {
        return Err(problem);
    }
    if let Some(field) = repeated {
        return Err(DecodeError::Json(Fault::Duplicate(field)));
    }
    match read_event(value, instant) {
        Ok(event) => Ok(event),
        Err(fault) => Err(DecodeError::Json(fault)),
    }
}

/// Lists the fields of an event.
fn list_fields() -> (list: Vec<Field>)
    ensures
        list@ == fields(),
{
    vec![
        Field::Version,
        Field::Id,
        Field::SessionId,
        Field::RunId,
        Field::SeqNumber,
        Field::Ts,
        Field::Kind,
        Field::Provider,
        Field::Model,
        Field::CallId,
        Field::Payload,
    ]
}

/// Lists the names of fields.
fn list_names(list: &Vec<Field>) -> (names: Vec<String>)
    ensures
        crate::sessions::name_views(names@) == list@.map_values(|f: Field| f.name()),
{
    let mut names: Vec<String> = Vec::new();
    let mut i: usize = 0;
    while i < list.len()
        invariant
            i <= list@.len(),
            names@.len() == i,
            forall|k: int| 0 <= k < i ==> (#[trigger] names@[k])@ == list@[k].name(),
        decreases list@.len() - i,
    {
        names.push(list[i].label().to_string());
        i = i + 1;
    }
    proof {
        assert(crate::sessions::name_views(names@) =~= list@.map_values(|f: Field| f.name()));
    }
    names
}

/// Finds the first of some fields that is written more than once.
fn find_repeated(written: &Vec<Member>, list: &Vec<Field>) -> (found: Option<Field>)
    ensures
        found == first_repeated(members::member_views(written@), list@),
{
    let ghost views = members::member_views(written@);
    let mut i: usize = 0;
    proof {
        assert(list@.skip(0) =~= list@);
    }
    while i < list.len()
        invariant
            i <= list@.len(),
            views == members::member_views(written@),
            first_repeated(views, list@) == first_repeated(views, list@.skip(i as int)),
        decreases list@.len() - i,
    {
        proof {
            assert(list@.skip(i as int)[0] == list@[i as int]);
            assert(list@.skip(i as int).drop_first() =~= list@.skip(i + 1));
        }
        if is_repeated(written, list[i].label()) {
            return Some(list[i]);
        }
        i = i + 1;
    }
    None
}

/// Tells whether the field `kind` is written as an object that does not have
/// exactly one member.
fn has_overfull_kind(written: &Vec<Member>) -> (b: bool)
    ensures
        b == kind_is_overfull(members::member_views(written@)),
{
    let ghost views = members::member_views(written@);
    let mut i: usize = 0;
    while i < written.len()
        invariant
            i <= written@.len(),
            views == members::member_views(written@),
            forall|k: int|
                0 <= k < i ==> !((#[trigger] views[k]).key == Some("kind"@) && members::is_object(
                    views[k].value,
                ) && members::written(views[k].value).len() != 1),
        decreases written@.len() - i,
    {
        proof {
            assert(views[i as int] == written@[i as int]@);
        }
        if let Some(key) = &written[i].key {
            if text_eq(key.as_str(), "kind") {
                if let Some(inner) = read_members(written[i].value.as_slice()) {
                    proof {
                        assert(members::member_views(inner@).len() == inner@.len());
                    }
                    if inner.len() != 1 {
                        return true;
                    }
                }
            }
        }
        i = i + 1;
    }
    false
}

/// Reads an event from the members of an object.
fn decode_members(written: &Vec<Member>) -> (result: Result<AuditEvent, DecodeError>)
    ensures
        outcome(result) == event_of_members(members::member_views(written@)),
{
    let list = list_fields();
    let repeated = find_repeated(written, &list);
    let only_version = vec!["v".to_string()];
    proof {
        assert(crate::sessions::name_views(only_version@) =~= seq!["v"@]);
    }
    let head = match pick(written, &only_version) {
        Some(head) => head,
        None => {
            return Err(DecodeError::Json(Fault::Unreadable));
        },
    };
    if let Err(problem) = check_version(&head, repeated) {
        return Err(problem);
    }
    match pick(written, &list_names(&list)) {
        Some(object) => if has_overfull_kind(written) {
            Err(DecodeError::Json(Fault::Invalid(Field::Kind)))
        } else {
            decode_value(&object, read_instant(&object), repeated)
        },
        None => Err(DecodeError::Json(Fault::Unreadable)),
    }
}

/// Reads an event from the bytes of a message. Fields that an event does not
/// have are passed over, whatever they hold; a field that it has must not be
/// repeated.
pub fn decode(raw: &[u8]) -> (result: Result<AuditEvent, DecodeError>)
    ensures
        outcome(result) == event_of_bytes(raw@),
{
    if !check_form(raw) {
        return Err(DecodeError::Json(Fault::Form));
    }
    match read_members(raw) {
        Some(written) => decode_members(&written),
        None => match parse_json(raw) {
            Some(value) => decode_value(&value, None, None),
            None => Err(DecodeError::Json(Fault::Unreadable)),
        },
    }
}

/// The bytes of each message of a batch.
pub open spec fn byte_views(lines: Seq<Vec<u8>>) -> Seq<Seq<u8>> {
    lines.map_values(|line: Vec<u8>| line@)
}

/// The events that the messages of a batch spell, in order, without the messages
/// that spell none.
pub open spec fn events_of_batch(lines: Seq<Seq<u8>>) -> Seq<EventView>
    decreases lines.len(),
{
    if lines.len() == 0 {
        Seq::empty()
    } else {
        match event_of_bytes(lines.last()) {
            Ok(event) => events_of_batch(lines.drop_last()).push(event),
            Err(_) => events_of_batch(lines.drop_last()),
        }
    }
}

/// A batch holds no more events than messages.
pub proof fn events_of_batch_len(lines: Seq<Seq<u8>>)
    ensures
        events_of_batch(lines).len() <= lines.len(),
    decreases lines.len(),
{
    if lines.len() > 0 {
        events_of_batch_len(lines.drop_last());
    }
}

/// Reads the events of a batch and counts the messages that are none.
pub fn decode_all(lines: &Vec<Vec<u8>>) -> (read: (Vec<AuditEvent>, DecodeStats))
    ensures
        event_views(read.0@) == events_of_batch(byte_views(lines@)),
        read.1.accepted == read.0@.len(),
        read.1.skipped == lines@.len() - read.0@.len(),
{
    let mut out: Vec<AuditEvent> = Vec::new();
    let mut stats = DecodeStats::default();
    let ghost bytes = byte_views(lines@);
    proof {
        assert(event_views(out@) =~= events_of_batch(bytes.take(0)));
    }
    let mut i: usize = 0;
    while i < lines.len()
        invariant
            i <= lines@.len(),
            bytes == byte_views(lines@),
            event_views(out@) == events_of_batch(bytes.take(i as int)),
            stats.accepted == out@.len(),
            stats.skipped == i - out@.len(),
        decreases lines@.len() - i,
    {
        proof {
            assert(bytes.take(i + 1).drop_last() =~= bytes.take(i as int));
            assert(bytes.take(i + 1).last() == lines@[i as int]@);
        }
        let ghost before = out@;
        match decode(lines[i].as_slice()) {
            Ok(event) => {
                out.push(event);
                stats.accepted = stats.accepted + 1;
                proof {
                    assert(event_views(out@) =~= event_views(before).push(event@));
                }
            },
            Err(_) => {
                stats.skipped = stats.skipped + 1;
            },
        }
        i = i + 1;
    }
    proof {
        assert(bytes.take(lines@.len() as int) =~= bytes);
    }
    (out, stats)
}

/// The size that a payload had before it was cut short, if it was: the number
/// under `bytes` where `truncated` is true.
pub open spec fn truncated_size(payload: JsonView) -> Option<u64> {
    match payload.member("truncated"@) {
        Some(flag) => if flag.boolean() == Some(true) {
            match payload.member("bytes"@) {
                Some(bytes) => bytes.unsigned(),
                None => None,
            }
        } else {
            None
        },
        None => None,
    }
}

/// Tells whether a payload was cut short, and how large it was.
pub fn is_truncated(payload: &Json) -> (size: Option<u64>)
    ensures
        size == truncated_size(payload@),
{
    match payload.get("truncated") {
        Some(flag) => match flag.as_bool() {
            Some(true) => match payload.get("bytes") {
                Some(bytes) => bytes.as_u64(),
                None => None,
            },
            _ => None,
        },
        None => None,
    }
}

/// A member that is not asked for does not matter to what is picked.
proof fn picked_passes_over(
    written: Seq<MemberView>,
    k: int,
    member: MemberView,
    names: Seq<Seq<char>>,
)
    requires
        0 <= k <= written.len(),
        member.key is Some,
        !names.contains(member.key->0),
    ensures
        members::picked(written.insert(k, member), names) == members::picked(written, names),
    decreases written.len(),
{
    let more = written.insert(k, member);
    if k == written.len() {
        assert(more.drop_last() =~= written);
        assert(more.last() == member);
    } else {
        let init = written.drop_last();
        assert(more.drop_last() =~= init.insert(k, member));
        assert(more.last() == written.last());
        picked_passes_over(init, k, member, names);
    }
}

/// A member under another name does not matter to how often a name is written.
proof fn times_written_passes_over(
    written: Seq<MemberView>,
    k: int,
    member: MemberView,
    name: Seq<char>,
)
    requires
        0 <= k <= written.len(),
        member.key != Some(name),
    ensures
        members::times_written(written.insert(k, member), name) == members::times_written(
            written,
            name,
        ),
    decreases written.len(),
{
    let more = written.insert(k, member);
    if k == written.len() {
        assert(more.drop_last() =~= written);
        assert(more.last() == member);
    } else {
        let init = written.drop_last();
        assert(more.drop_last() =~= init.insert(k, member));
        assert(more.last() == written.last());
        times_written_passes_over(init, k, member, name);
    }
}

proof fn first_repeated_passes_over(
    written: Seq<MemberView>,
    k: int,
    member: MemberView,
    some: Seq<Field>,
)
    requires
        0 <= k <= written.len(),
        forall|i: int| 0 <= i < some.len() ==> member.key != Some((#[trigger] some[i]).name()),
    ensures
        first_repeated(written.insert(k, member), some) == first_repeated(written, some),
    decreases some.len(),
{
    if some.len() > 0 {
        times_written_passes_over(written, k, member, some[0].name());
        let rest = some.drop_first();
        assert forall|i: int| 0 <= i < rest.len() implies member.key != Some(
            (#[trigger] rest[i]).name(),
        ) by {
            assert(rest[i] == some[i + 1]);
        }
        first_repeated_passes_over(written, k, member, rest);
    }
}

/// A member that is no field of an event makes no difference to what a message
/// spells, wherever it stands and whatever it holds.
pub proof fn unknown_members_make_no_difference(
    written: Seq<MemberView>,
    k: int,
    member: MemberView,
)
    requires
        0 <= k <= written.len(),
        member.key is Some,
        !field_names().contains(member.key->0),
    ensures
        event_of_members(written.insert(k, member)) == event_of_members(written),
{
    let head = seq!["v"@];
    assert forall|i: int| 0 <= i < fields().len() implies member.key != Some(
        (#[trigger] fields()[i]).name(),
    ) by {
        assert(field_names()[i] == fields()[i].name());
        assert(field_names().contains(field_names()[i]));
    }
    assert(fields()[0].name() == "v"@);
    assert(fields()[6].name() == "kind"@);
    assert(!head.contains(member.key->0));
    picked_passes_over(written, k, member, head);
    picked_passes_over(written, k, member, field_names());
    first_repeated_passes_over(written, k, member, fields());
    let more = written.insert(k, member);
    assert(kind_is_overfull(more) == kind_is_overfull(written)) by {
        if kind_is_overfull(written) {
            let i = choose|i: int|
                0 <= i < written.len() && (#[trigger] written[i]).key == Some("kind"@)
                    && members::is_object(written[i].value) && members::written(
                    written[i].value,
                ).len() != 1;
            let j = if i < k {
                i
            } else {
                i + 1
            };
            assert(more[j] == written[i]);
        }
        if kind_is_overfull(more) {
            let j = choose|j: int|
                0 <= j < more.len() && (#[trigger] more[j]).key == Some("kind"@)
                    && members::is_object(more[j].value) && members::written(more[j].value).len()
                    != 1;
            assert(j != k);
            let i = if j < k {
                j
            } else {
                j - 1
            };
            assert(written[i] == more[j]);
        }
    }
}

} // verus!
