//! Domain types of an incident: its severity, its status and the rules that
//! govern moving from one status to another, and the kinds of timeline event.
//! Each enum has a fixed lowercase text form, and parsing that text gives the
//! value back.

use vstd::prelude::*;
use crate::text::{join, owned, same_text};

verus! {

/// The lifecycle status of an incident: `open -> acknowledged -> resolved`.
#[derive(Debug, Clone, Copy, PartialEq, Eq, Structural)]
pub enum IncidentStatus {
    Open,
    Acknowledged,
    Resolved,
}

/// The position of a status along the lifecycle.
pub open spec fn status_rank(s: IncidentStatus) -> int {
    match s {
        IncidentStatus::Open => 0,
        IncidentStatus::Acknowledged => 1,
        IncidentStatus::Resolved => 2,
    }
}

/// The transitions the lifecycle allows: open to acknowledged, open to
/// resolved, and acknowledged to resolved.
pub open spec fn transition_allowed(from: IncidentStatus, to: IncidentStatus) -> bool {
    ||| (from == IncidentStatus::Open && to == IncidentStatus::Acknowledged)
    ||| (from == IncidentStatus::Open && to == IncidentStatus::Resolved)
    ||| (from == IncidentStatus::Acknowledged && to == IncidentStatus::Resolved)
}

/// The text form of a status.
pub open spec fn status_text(s: IncidentStatus) -> Seq<char> {
    match s {
        IncidentStatus::Open => seq!['o', 'p', 'e', 'n'],
        IncidentStatus::Acknowledged => seq!['a', 'c', 'k', 'n', 'o', 'w', 'l', 'e', 'd', 'g', 'e', 'd'],
        IncidentStatus::Resolved => seq!['r', 'e', 's', 'o', 'l', 'v', 'e', 'd'],
    }
}

/// The status whose text form is `s`, if there is one.
pub open spec fn status_from_text(s: Seq<char>) -> Option<IncidentStatus> {
    if s == status_text(IncidentStatus::Open) {
        Some(IncidentStatus::Open)
    } else if s == status_text(IncidentStatus::Acknowledged) {
        Some(IncidentStatus::Acknowledged)
    } else if s == status_text(IncidentStatus::Resolved) {
        Some(IncidentStatus::Resolved)
    } else {
        None
    }
}

impl IncidentStatus {
    /// Whether the lifecycle allows moving from `self` to `next`.
    pub fn can_transition_to(&self, next: &IncidentStatus) -> (r: bool)
        ensures
            r == transition_allowed(*self, *next),
    {
        match (self, next) {
            (IncidentStatus::Open, IncidentStatus::Acknowledged) => true,
            (IncidentStatus::Open, IncidentStatus::Resolved) => true,
            (IncidentStatus::Acknowledged, IncidentStatus::Resolved) => true,
            _ => false,
        }
    }

    /// The text form: `open`, `acknowledged` or `resolved`.
    pub fn as_str(&self) -> (r: &'static str)
        ensures
            r@ == status_text(*self),
    {
        match self {
            IncidentStatus::Open => {
                proof { reveal_strlit("open"); }
                "open"
            },
            IncidentStatus::Acknowledged => {
                proof { reveal_strlit("acknowledged"); }
                "acknowledged"
            },
            IncidentStatus::Resolved => {
                proof { reveal_strlit("resolved"); }
                "resolved"
            },
        }
    }

    /// The text form as an owned string.
    pub fn to_string(&self) -> (r: String)
        ensures
            r@ == status_text(*self),
    {
        owned(self.as_str())
    }

    /// Reads a status from its text form; any other text is refused with
    /// the message `invalid status: <text>`.
    pub fn parse(s: &str) -> (r: Result<IncidentStatus, String>)
        ensures
            match r {
                Ok(v) => status_from_text(s@) == Some(v),
                Err(e) => status_from_text(s@) is None && e@ == "invalid status: "@ + s@,
            },
    {
        if same_text(s, IncidentStatus::Open.as_str()) {
            Ok(IncidentStatus::Open)
        } else if same_text(s, IncidentStatus::Acknowledged.as_str()) {
            Ok(IncidentStatus::Acknowledged)
        } else if same_text(s, IncidentStatus::Resolved.as_str()) {
            Ok(IncidentStatus::Resolved)
        } else {
            Err(join("invalid status: ", s))
        }
    }
}


/// How severe an incident is.
#[derive(Debug, Clone, Copy, PartialEq, Eq, Structural)]
pub enum Severity {
    Low,
    Medium,
    High,
    Critical,
}

/// The text form of a severity.
pub open spec fn severity_text(s: Severity) -> Seq<char> {
    match s {
        Severity::Low => seq!['l', 'o', 'w'],
        Severity::Medium => seq!['m', 'e', 'd', 'i', 'u', 'm'],
        Severity::High => seq!['h', 'i', 'g', 'h'],
        Severity::Critical => seq!['c', 'r', 'i', 't', 'i', 'c', 'a', 'l'],
    }
}

/// The severity whose text form is `s`, if there is one.
pub open spec fn severity_from_text(s: Seq<char>) -> Option<Severity> {
    if s == severity_text(Severity::Low) {
        Some(Severity::Low)
    } else if s == severity_text(Severity::Medium) {
        Some(Severity::Medium)
    } else if s == severity_text(Severity::High) {
        Some(Severity::High)
    } else if s == severity_text(Severity::Critical) {
        Some(Severity::Critical)
    } else {
        None
    }
}

impl Severity {
    /// The text form: `low`, `medium`, `high` or `critical`.
    pub fn as_str(&self) -> (r: &'static str)
        ensures
            r@ == severity_text(*self),
    {
        match self {
            Severity::Low => {
                proof { reveal_strlit("low"); }
                "low"
            },
            Severity::Medium => {
                proof { reveal_strlit("medium"); }
                "medium"
            },
            Severity::High => {
                proof { reveal_strlit("high"); }
                "high"
            },
            Severity::Critical => {
                proof { reveal_strlit("critical"); }
                "critical"
            },
        }
    }

    /// The text form as an owned string.
    pub fn to_string(&self) -> (r: String)
        ensures
            r@ == severity_text(*self),
    {
        owned(self.as_str())
    }

    /// Reads a severity from its text form; any other text is refused with
    /// the message `invalid severity: <text>`.
    pub fn parse(s: &str) -> (r: Result<Severity, String>)
        ensures
            match r {
                Ok(v) => severity_from_text(s@) == Some(v),
                Err(e) => severity_from_text(s@) is None && e@ == "invalid severity: "@ + s@,
            },
    {
        if same_text(s, Severity::Low.as_str()) {
            Ok(Severity::Low)
        } else if same_text(s, Severity::Medium.as_str()) {
            Ok(Severity::Medium)
        } else if same_text(s, Severity::High.as_str()) {
            Ok(Severity::High)
        } else if same_text(s, Severity::Critical.as_str()) {
            Ok(Severity::Critical)
        } else {
            Err(join("invalid severity: ", s))
        }
    }
}

/// The kind of an entry in an incident's timeline.
#[derive(Debug, Clone, Copy, PartialEq, Eq, Structural)]
pub enum EventType {
    Created,
    StatusChanged,
    NoteAdded,
}

/// The text form of an event type.
pub open spec fn event_type_text(e: EventType) -> Seq<char> {
    match e {
        EventType::Created => seq!['c', 'r', 'e', 'a', 't', 'e', 'd'],
        EventType::StatusChanged => seq!['s', 't', 'a', 't', 'u', 's', '_', 'c', 'h', 'a', 'n', 'g', 'e', 'd'],
        EventType::NoteAdded => seq!['n', 'o', 't', 'e', '_', 'a', 'd', 'd', 'e', 'd'],
    }
}

/// The event type whose text form is `s`, if there is one.
pub open spec fn event_type_from_text(s: Seq<char>) -> Option<EventType> {
    if s == event_type_text(EventType::Created) {
        Some(EventType::Created)
    } else if s == event_type_text(EventType::StatusChanged) {
        Some(EventType::StatusChanged)
    } else if s == event_type_text(EventType::NoteAdded) {
        Some(EventType::NoteAdded)
    } else {
        None
    }
}

impl EventType {
    /// The text form: `created`, `status_changed` or `note_added`.
    pub fn as_str(&self) -> (r: &'static str)
        ensures
            r@ == event_type_text(*self),
    {
        match self {
            EventType::Created => {
                proof { reveal_strlit("created"); }
                "created"
            },
            EventType::StatusChanged => {
                proof { reveal_strlit("status_changed"); }
                "status_changed"
            },
            EventType::NoteAdded => {
                proof { reveal_strlit("note_added"); }
                "note_added"
            },
        }
    }

    /// The text form as an owned string.
    pub fn to_string(&self) -> (r: String)
        ensures
            r@ == event_type_text(*self),
    {
        owned(self.as_str())
    }

    /// Reads an event type from its text form; any other text is refused
    /// with the message `invalid event_type: <text>`.
    pub fn parse(s: &str) -> (r: Result<EventType, String>)
        ensures
            match r {
                Ok(v) => event_type_from_text(s@) == Some(v),
                Err(e) => event_type_from_text(s@) is None && e@ == "invalid event_type: "@ + s@,
            },
    {
        if same_text(s, EventType::Created.as_str()) {
            Ok(EventType::Created)
        } else if same_text(s, EventType::StatusChanged.as_str()) {
            Ok(EventType::StatusChanged)
        } else if same_text(s, EventType::NoteAdded.as_str()) {
            Ok(EventType::NoteAdded)
        } else {
            Err(join("invalid event_type: ", s))
        }
    }
}


/// One entry of an incident's timeline.
#[derive(Debug)]
pub struct IncidentEvent {
    pub id: u128,
    pub event_type: EventType,
    pub message: String,
    pub created_at: String,
}

/// The mathematical value of an [`IncidentEvent`].
pub struct EventView {
    pub id: u128,
    pub event_type: EventType,
    pub message: Seq<char>,
    pub created_at: Seq<char>,
}

impl View for IncidentEvent {
    type V = EventView;

    open spec fn view(&self) -> EventView {
        EventView {
            id: self.id,
            event_type: self.event_type,
            message: self.message@,
            created_at: self.created_at@,
        }
    }
}

impl Clone for IncidentEvent {
    fn clone(&self) -> (r: Self)
        ensures
            r == *self,
    {
        IncidentEvent {
            id: self.id,
            event_type: self.event_type,
            message: self.message.clone(),
            created_at: self.created_at.clone(),
        }
    }
}

/// An incident: what it is about, how severe it is, where it stands in its
/// lifecycle, when it was opened and last changed, and its timeline.
#[derive(Debug)]
pub struct Incident {
    pub id: u128,
    pub title: String,
    pub description: Option<String>,
    pub severity: Severity,
    pub status: IncidentStatus,
    pub created_at: String,
    pub updated_at: String,
    pub events: Vec<IncidentEvent>,
}

/// The mathematical value of an [`Incident`].
pub struct IncidentView {
    pub id: u128,
    pub title: Seq<char>,
    pub description: Option<Seq<char>>,
    pub severity: Severity,
    pub status: IncidentStatus,
    pub created_at: Seq<char>,
    pub updated_at: Seq<char>,
    pub events: Seq<EventView>,
}

/// The view of an optional text.
pub open spec fn opt_text(s: Option<String>) -> Option<Seq<char>> {
    match s {
        Some(t) => Some(t@),
        None => None,
    }
}

/// The views of a sequence of events.
pub open spec fn events_view(events: Seq<IncidentEvent>) -> Seq<EventView> {
    events.map_values(|e: IncidentEvent| e@)
}

impl View for Incident {
    type V = IncidentView;

    open spec fn view(&self) -> IncidentView {
        IncidentView {
            id: self.id,
            title: self.title@,
            description: opt_text(self.description),
            severity: self.severity,
            status: self.status,
            created_at: self.created_at@,
            updated_at: self.updated_at@,
            events: events_view(self.events@),
        }
    }
}

/// A copy of an optional text.
pub fn clone_opt_text(s: &Option<String>) -> (r: Option<String>)
    ensures
        r == *s,
{
    match s {
        Some(t) => Some(t.clone()),
        None => None,
    }
}

impl Clone for Incident {
    fn clone(&self) -> (r: Self)
        ensures
            r@ == self@,
    {
        let events = self.events.clone();
        proof {
            assert(events@ =~= self.events@);
        }
        Incident {
            id: self.id,
            title: self.title.clone(),
            description: clone_opt_text(&self.description),
            severity: self.severity,
            status: self.status,
            created_at: self.created_at.clone(),
            updated_at: self.updated_at.clone(),
            events,
        }
    }
}


impl std::str::FromStr for IncidentStatus {
    type Err = String;

    fn from_str(s: &str) -> (r: Result<IncidentStatus, String>)
        ensures
            match r {
                Ok(v) => status_from_text(s@) == Some(v),
                Err(e) => status_from_text(s@) is None && e@ == "invalid status: "@ + s@,
            },
    {
        IncidentStatus::parse(s)
    }
}

impl std::str::FromStr for Severity {
    type Err = String;

    fn from_str(s: &str) -> (r: Result<Severity, String>)
        ensures
            match r {
                Ok(v) => severity_from_text(s@) == Some(v),
                Err(e) => severity_from_text(s@) is None && e@ == "invalid severity: "@ + s@,
            },
    {
        Severity::parse(s)
    }
}

impl std::str::FromStr for EventType {
    type Err = String;

    fn from_str(s: &str) -> (r: Result<EventType, String>)
        ensures
            match r {
                Ok(v) => event_type_from_text(s@) == Some(v),
                Err(e) => event_type_from_text(s@) is None && e@ == "invalid event_type: "@ + s@,
            },
    {
        EventType::parse(s)
    }
}

/// The body of a request to open an incident.
#[derive(Debug)]
pub struct CreateIncidentRequest {
    pub title: String,
    pub description: Option<String>,
    pub severity: Severity,
}

/// The body of a request to add a note to an incident.
#[derive(Debug)]
pub struct AddNoteRequest {
    pub note: String,
}

/// The query of a request to list incidents: optional filters on status and
/// severity, and an optional page size and start.
#[derive(Debug)]
pub struct ListQuery {
    pub status: Option<IncidentStatus>,
    pub severity: Option<Severity>,
    pub limit: Option<i64>,
    pub offset: Option<i64>,
}

/// The body of an error answer.
#[derive(Debug)]
pub struct ApiError {
    pub error: String,
}

/// A transition always moves a status strictly forward along the lifecycle:
/// no status can move to itself, and no sequence of transitions returns to a
/// status it left.
pub proof fn lemma_transitions_move_forward(from: IncidentStatus, to: IncidentStatus)
    requires
        transition_allowed(from, to),
    ensures
        status_rank(from) < status_rank(to),
{
}

/// A resolved incident is final: no transition leaves `resolved`.
pub proof fn lemma_resolved_is_final(to: IncidentStatus)
    ensures
        !transition_allowed(IncidentStatus::Resolved, to),
{
}

/// The transitions are closed under composition: whatever can be reached in
/// two steps can be reached in one.
pub proof fn lemma_transitions_compose(a: IncidentStatus, b: IncidentStatus, c: IncidentStatus)
    requires
        transition_allowed(a, b),
        transition_allowed(b, c),
    ensures
        transition_allowed(a, c),
{
}

/// Every status other than `open` can be reached from `open` in one step.
pub proof fn lemma_open_reaches_every_other(to: IncidentStatus)
    requires
        to != IncidentStatus::Open,
    ensures
        transition_allowed(IncidentStatus::Open, to),
{
}

/// Reading the text form of a status gives that status back, and a text that
/// reads as a status is that status's text form.
pub proof fn lemma_status_text_round_trip(s: IncidentStatus, t: Seq<char>)
    ensures
        status_from_text(status_text(s)) == Some(s),
        status_from_text(t) == Some(s) ==> t == status_text(s),
{
    assert(status_text(IncidentStatus::Open) != status_text(IncidentStatus::Acknowledged));
    assert(status_text(IncidentStatus::Open) != status_text(IncidentStatus::Resolved));
    assert(status_text(IncidentStatus::Acknowledged) != status_text(IncidentStatus::Resolved));
}

/// Reading the text form of a severity gives that severity back, and a text
/// that reads as a severity is that severity's text form.
pub proof fn lemma_severity_text_round_trip(s: Severity, t: Seq<char>)
    ensures
        severity_from_text(severity_text(s)) == Some(s),
        severity_from_text(t) == Some(s) ==> t == severity_text(s),
{
    assert(severity_text(Severity::Low) != severity_text(Severity::Medium));
    assert(severity_text(Severity::Low) != severity_text(Severity::High));
    assert(severity_text(Severity::Low) != severity_text(Severity::Critical));
    assert(severity_text(Severity::Medium) != severity_text(Severity::High));
    assert(severity_text(Severity::Medium) != severity_text(Severity::Critical));
    assert(severity_text(Severity::High) != severity_text(Severity::Critical));
}

/// Reading the text form of an event type gives that event type back, and a
/// text that reads as an event type is that event type's text form.
pub proof fn lemma_event_type_text_round_trip(e: EventType, t: Seq<char>)
    ensures
        event_type_from_text(event_type_text(e)) == Some(e),
        event_type_from_text(t) == Some(e) ==> t == event_type_text(e),
{
    assert(event_type_text(EventType::Created) != event_type_text(EventType::StatusChanged));
    assert(event_type_text(EventType::Created) != event_type_text(EventType::NoteAdded));
    assert(event_type_text(EventType::StatusChanged) != event_type_text(EventType::NoteAdded));
}

} // verus!
