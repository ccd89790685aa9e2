//! The incident store: every incident with its timeline (kept ordered by
//! time), and the operations on it (open, look up, list with filters and
//! paging in order of opening time, change status, add a note, read the
//! timeline), with the storage errors that ids already in use give.
//!
//! Each operation is specified by a step function on the store's view
//! (`create_step`, `status_step`, `note_step`, `list_view`); the laws of the
//! lifecycle are proved over those steps in `laws`.

use vstd::prelude::*;
use crate::domain::{
    clone_opt_text, event_type_from_text, event_type_text, lemma_event_type_text_round_trip,
    lemma_severity_text_round_trip, lemma_status_text_round_trip, severity_text, events_view, opt_text, severity_from_text, status_from_text,
    status_text, transition_allowed, EventType, EventView, Incident, IncidentEvent, IncidentStatus,
    IncidentView, Severity,
};
use crate::outside::{
    new_v4_id, now_rfc3339, parse_rfc3339, parse_uuid, rfc3339_parse_result, uuid_parse_result,
    uuid_text, uuid_to_text,
};
use crate::ids::fresh_id;
use crate::laws::{
    all_before, create_answered, lemma_create_step_answers, lemma_note_step_answers, lemma_status_step_answers,
    note_answered, status_change_answered, lemma_steps_bound_status_changes, lemma_steps_evolve_store,
    lemma_steps_keep_timelines_consistent, lemma_rows_load_back, reads_back, store_event_rows, store_rows, status_changes_bounded, store_consistent, store_evolves,
};
use crate::order::{insert_pos, keys_sorted, lemma_insert_keeps_sorted, lemma_insert_pos};
use crate::text::{join, owned, same_text, text_le, text_less};

verus! {

/// The errors of the store's operations.
#[derive(Debug)]
pub enum AppError {
    /// The storage refused the operation (such as a second incident with an
    /// id already in use); the text says why.
    Db(String),
    /// Stored data could not be read back.
    InvalidData(String),
    /// The requested status change is not one the lifecycle allows.
    InvalidTransition(String),
}

/// The mathematical value of an [`AppError`].
pub enum AppErrorView {
    Db(Seq<char>),
    InvalidData(Seq<char>),
    InvalidTransition(Seq<char>),
}

impl View for AppError {
    type V = AppErrorView;

    open spec fn view(&self) -> AppErrorView {
        match self {
            AppError::Db(m) => AppErrorView::Db(m@),
            AppError::InvalidData(m) => AppErrorView::InvalidData(m@),
            AppError::InvalidTransition(m) => AppErrorView::InvalidTransition(m@),
        }
    }
}

/// Incidents, in the order they were opened, no two with the same id.
#[derive(Debug)]
pub struct IncidentStore {
    incidents: Vec<Incident>,
}

impl View for IncidentStore {
    type V = Seq<IncidentView>;

    closed spec fn view(&self) -> Seq<IncidentView> {
        self.incidents@.map_values(|i: Incident| i@)
    }
}

/// No two incidents share an id.
pub open spec fn ids_unique(s: Seq<IncidentView>) -> bool {
    forall|i: int, j: int|
        0 <= i < s.len() && 0 <= j < s.len() && #[trigger] s[i].id == #[trigger] s[j].id ==> i == j
}

/// Some incident has the id `id`.
pub open spec fn has_incident(s: Seq<IncidentView>, id: u128) -> bool {
    exists|i: int| 0 <= i < s.len() && #[trigger] s[i].id == id
}

/// The position of the incident with id `id` (meaningful when there is one).
pub open spec fn index_of(s: Seq<IncidentView>, id: u128) -> int {
    choose|i: int| 0 <= i < s.len() && #[trigger] s[i].id == id
}

/// The incident with id `id`, if there is one.
pub open spec fn lookup(s: Seq<IncidentView>, id: u128) -> Option<IncidentView> {
    if has_incident(s, id) {
        Some(s[index_of(s, id)])
    } else {
        None
    }
}

/// The message of the timeline entry that opens an incident.
pub open spec fn created_message() -> Seq<char> {
    "Incident created"@
}

/// The message of the timeline entry for a move to `status`.
pub open spec fn status_changed_message(status: IncidentStatus) -> Seq<char> {
    "Status changed to "@ + status_text(status)
}

/// The detail of the error for an id already in use.
pub open spec fn duplicate_id_message() -> Seq<char> {
    "UNIQUE constraint failed: incidents.id"@
}

/// Some timeline entry of `s` has the id `event_id`.
pub open spec fn event_id_used(s: Seq<IncidentView>, event_id: u128) -> bool {
    exists|i: int, k: int| 0 <= i < s.len() && 0 <= k < s[i].events.len() && #[trigger] s[i].events[k].id == event_id
}

/// The detail of the error for a timeline entry id already in use.
pub open spec fn duplicate_event_id_message() -> Seq<char> {
    "UNIQUE constraint failed: incident_events.id"@
}

/// A newly opened incident: status `open`, opened and changed at `now`, and a
/// timeline of one `created` entry.
pub open spec fn opened_incident(
    id: u128,
    title: Seq<char>,
    description: Option<Seq<char>>,
    severity: Severity,
    event_id: u128,
    now: Seq<char>,
) -> IncidentView {
    IncidentView {
        id,
        title,
        description,
        severity,
        status: IncidentStatus::Open,
        created_at: now,
        updated_at: now,
        events: seq![
            EventView {
                id: event_id,
                event_type: EventType::Created,
                message: created_message(),
                created_at: now,
            },
        ],
    }
}

/// Opening an incident: refused when the id is in use; else the new incident
/// is added after all others, except that when the id of its `created` entry
/// is in use the incident is kept without that entry and the result is a
/// storage error (the incident row was written, the entry row refused).
pub open spec fn create_step(
    s: Seq<IncidentView>,
    title: Seq<char>,
    description: Option<Seq<char>>,
    severity: Severity,
    id: u128,
    event_id: u128,
    now: Seq<char>,
) -> (Seq<IncidentView>, Result<IncidentView, AppErrorView>) {
    if has_incident(s, id) {
        (s, Err(AppErrorView::Db(duplicate_id_message())))
    } else if event_id_used(s, event_id) {
        let inc = opened_incident(id, title, description, severity, event_id, now);
        (s.push(with_events(inc, Seq::empty())), Err(AppErrorView::Db(duplicate_event_id_message())))
    } else {
        let inc = opened_incident(id, title, description, severity, event_id, now);
        (s.push(inc), Ok(inc))
    }
}

/// `inc` after a move to `status` at `now`, recorded in its timeline (placed
/// by time).
pub open spec fn with_status(
    inc: IncidentView,
    status: IncidentStatus,
    event_id: u128,
    now: Seq<char>,
) -> IncidentView {
    IncidentView {
        id: inc.id,
        title: inc.title,
        description: inc.description,
        severity: inc.severity,
        status,
        created_at: inc.created_at,
        updated_at: now,
        events: insert_event(
            inc.events,
            EventView {
                id: event_id,
                event_type: EventType::StatusChanged,
                message: status_changed_message(status),
                created_at: now,
            },
        ),
    }
}

/// The message of the error for a move the lifecycle refuses.
pub open spec fn transition_message(from: IncidentStatus, to: IncidentStatus) -> Seq<char> {
    status_text(from) + " -> "@ + status_text(to)
}

/// Changing the status of incident `id`: nothing when there is no such
/// incident; the incident unchanged when it already has that status; an
/// error when the lifecycle does not allow the move; else the new status,
/// the time of the change and a `status_changed` entry, except that when the
/// entry's id is in use the entry is left out and the result is a storage
/// error (the status was written, the entry row refused).
pub open spec fn status_step(
    s: Seq<IncidentView>,
    id: u128,
    status: IncidentStatus,
    event_id: u128,
    now: Seq<char>,
) -> (Seq<IncidentView>, Result<Option<IncidentView>, AppErrorView>) {
    if !has_incident(s, id) {
        (s, Ok(None))
    } else {
        let i = index_of(s, id);
        let cur = s[i];
        if cur.status == status {
            (s, Ok(Some(cur)))
        } else if !transition_allowed(cur.status, status) {
            (s, Err(AppErrorView::InvalidTransition(transition_message(cur.status, status))))
        } else if event_id_used(s, event_id) {
            let next = with_events(with_status(cur, status, event_id, now), cur.events);
            (s.update(i, next), Err(AppErrorView::Db(duplicate_event_id_message())))
        } else {
            let next = with_status(cur, status, event_id, now);
            (s.update(i, next), Ok(Some(next)))
        }
    }
}

/// `inc` after a note added at `now` (placed in its timeline by time).
pub open spec fn with_note(inc: IncidentView, note: Seq<char>, event_id: u128, now: Seq<char>) -> IncidentView {
    IncidentView {
        id: inc.id,
        title: inc.title,
        description: inc.description,
        severity: inc.severity,
        status: inc.status,
        created_at: inc.created_at,
        updated_at: now,
        events: insert_event(
            inc.events,
            EventView { id: event_id, event_type: EventType::NoteAdded, message: note, created_at: now },
        ),
    }
}

/// Adding a note to incident `id`: nothing when there is no such incident,
/// else a `note_added` entry and the time of the change, except that when
/// the entry's id is in use the entry is left out and the result is a
/// storage error (the time was written, the entry row refused).
pub open spec fn note_step(
    s: Seq<IncidentView>,
    id: u128,
    note: Seq<char>,
    event_id: u128,
    now: Seq<char>,
) -> (Seq<IncidentView>, Result<Option<IncidentView>, AppErrorView>) {
    if !has_incident(s, id) {
        (s, Ok(None))
    } else {
        let i = index_of(s, id);
        if event_id_used(s, event_id) {
            let next = with_events(with_note(s[i], note, event_id, now), s[i].events);
            (s.update(i, next), Err(AppErrorView::Db(duplicate_event_id_message())))
        } else {
            let next = with_note(s[i], note, event_id, now);
            (s.update(i, next), Ok(Some(next)))
        }
    }
}

/// The opening times of a sequence of incidents.
pub open spec fn created_keys(s: Seq<IncidentView>) -> Seq<Seq<char>> {
    s.map_values(|v: IncidentView| v.created_at)
}

/// The times of a sequence of timeline entries.
pub open spec fn event_keys(e: Seq<EventView>) -> Seq<Seq<char>> {
    e.map_values(|v: EventView| v.created_at)
}

/// `s` with `x` placed by its opening time: after every incident opened at
/// or before it.
pub open spec fn insert_incident(s: Seq<IncidentView>, x: IncidentView) -> Seq<IncidentView> {
    s.insert(insert_pos(created_keys(s), x.created_at), x)
}

/// `e` with `x` placed by its time: after every entry made at or before it.
pub open spec fn insert_event(e: Seq<EventView>, x: EventView) -> Seq<EventView> {
    e.insert(insert_pos(event_keys(e), x.created_at), x)
}

/// `s` ordered by opening time, incidents opened at the same time kept in
/// the order of `s` (what `ORDER BY created_at ASC` gives).
pub open spec fn sort_incidents(s: Seq<IncidentView>) -> Seq<IncidentView>
    decreases s.len(),
{
    if s.len() == 0 {
        Seq::empty()
    } else {
        insert_incident(sort_incidents(s.drop_last()), s.last())
    }
}

/// `e` ordered by time, entries made at the same time kept in the order of
/// `e`.
pub open spec fn sort_events(e: Seq<EventView>) -> Seq<EventView>
    decreases e.len(),
{
    if e.len() == 0 {
        Seq::empty()
    } else {
        insert_event(sort_events(e.drop_last()), e.last())
    }
}

/// Every incident's timeline is ordered by time.
pub open spec fn timelines_sorted(s: Seq<IncidentView>) -> bool {
    forall|i: int| 0 <= i < s.len() ==> keys_sorted(event_keys(#[trigger] s[i].events))
}

/// Placing an incident by its opening time adds it and keeps every other
/// incident, and keeps sorted opening times sorted.
pub proof fn lemma_insert_incident(s: Seq<IncidentView>, x: IncidentView)
    ensures
        insert_incident(s, x).len() == s.len() + 1,
        insert_incident(s, x).contains(x),
        forall|k: int| 0 <= k < s.len() ==> insert_incident(s, x).contains(#[trigger] s[k]),
        forall|k: int| 0 <= k < insert_incident(s, x).len() ==> #[trigger] insert_incident(s, x)[k] == x || s.contains(insert_incident(s, x)[k]),
        keys_sorted(created_keys(s)) ==> keys_sorted(created_keys(insert_incident(s, x))),
{
    let p = insert_pos(created_keys(s), x.created_at);
    lemma_insert_pos(created_keys(s), x.created_at);
    s.insert_ensures(p, x);
    let r = insert_incident(s, x);
    assert(r[p] == x);
    assert forall|k: int| 0 <= k < s.len() implies r.contains(#[trigger] s[k]) by {
        if k < p {
            assert(r[k] == s[k]);
        } else {
            assert(r[k + 1] == s[k]);
        }
    }
    assert forall|k: int| 0 <= k < r.len() implies #[trigger] r[k] == x || s.contains(r[k]) by {
        if k < p {
            assert(r[k] == s[k]);
        } else if k > p {
            assert(r[k] == s[k - 1]);
        }
    }
    assert(created_keys(r) =~= created_keys(s).insert(p, x.created_at));
    if keys_sorted(created_keys(s)) {
        lemma_insert_keeps_sorted(created_keys(s), x.created_at);
    }
}

/// Placing an entry by its time adds it and keeps every other entry, and
/// keeps sorted times sorted.
pub proof fn lemma_insert_event(e: Seq<EventView>, x: EventView)
    ensures
        insert_event(e, x).len() == e.len() + 1,
        insert_event(e, x).contains(x),
        forall|k: int| 0 <= k < e.len() ==> insert_event(e, x).contains(#[trigger] e[k]),
        forall|k: int| 0 <= k < insert_event(e, x).len() ==> #[trigger] insert_event(e, x)[k] == x || e.contains(insert_event(e, x)[k]),
        keys_sorted(event_keys(e)) ==> keys_sorted(event_keys(insert_event(e, x))),
{
    let p = insert_pos(event_keys(e), x.created_at);
    lemma_insert_pos(event_keys(e), x.created_at);
    e.insert_ensures(p, x);
    let r = insert_event(e, x);
    assert(r[p] == x);
    assert forall|k: int| 0 <= k < e.len() implies r.contains(#[trigger] e[k]) by {
        if k < p {
            assert(r[k] == e[k]);
        } else {
            assert(r[k + 1] == e[k]);
        }
    }
    assert forall|k: int| 0 <= k < r.len() implies #[trigger] r[k] == x || e.contains(r[k]) by {
        if k < p {
            assert(r[k] == e[k]);
        } else if k > p {
            assert(r[k] == e[k - 1]);
        }
    }
    assert(event_keys(r) =~= event_keys(e).insert(p, x.created_at));
    if keys_sorted(event_keys(e)) {
        lemma_insert_keeps_sorted(event_keys(e), x.created_at);
    }
}

/// Ordering incidents by opening time keeps exactly the same incidents and
/// puts their opening times in ascending order.
pub proof fn lemma_sort_incidents(s: Seq<IncidentView>)
    ensures
        sort_incidents(s).len() == s.len(),
        keys_sorted(created_keys(sort_incidents(s))),
        forall|k: int| 0 <= k < s.len() ==> sort_incidents(s).contains(#[trigger] s[k]),
        forall|k: int| 0 <= k < sort_incidents(s).len() ==> s.contains(#[trigger] sort_incidents(s)[k]),
    decreases s.len(),
{
    if s.len() > 0 {
        let p = s.drop_last();
        lemma_sort_incidents(p);
        let sp = sort_incidents(p);
        lemma_insert_incident(sp, s.last());
        let r = sort_incidents(s);
        assert forall|k: int| 0 <= k < s.len() implies r.contains(#[trigger] s[k]) by {
            if k < s.len() - 1 {
                assert(s[k] == p[k]);
                let j = choose|j: int| 0 <= j < sp.len() && sp[j] == p[k];
                assert(r.contains(sp[j]));
            }
        }
        assert forall|k: int| 0 <= k < r.len() implies s.contains(#[trigger] r[k]) by {
            if r[k] == s.last() {
                assert(s[s.len() - 1] == s.last());
            } else {
                let j = choose|j: int| 0 <= j < sp.len() && sp[j] == r[k];
                let i = choose|i: int| 0 <= i < p.len() && p[i] == sp[j];
                assert(s[i] == p[i]);
            }
        }
    } else {
        assert(created_keys(sort_incidents(s)) =~= Seq::<Seq<char>>::empty());
    }
}

/// Ordering entries by time keeps exactly the same entries and puts their
/// times in ascending order.
pub proof fn lemma_sort_events(e: Seq<EventView>)
    ensures
        sort_events(e).len() == e.len(),
        keys_sorted(event_keys(sort_events(e))),
        forall|k: int| 0 <= k < e.len() ==> sort_events(e).contains(#[trigger] e[k]),
        forall|k: int| 0 <= k < sort_events(e).len() ==> e.contains(#[trigger] sort_events(e)[k]),
    decreases e.len(),
{
    if e.len() > 0 {
        let p = e.drop_last();
        lemma_sort_events(p);
        let sp = sort_events(p);
        lemma_insert_event(sp, e.last());
        let r = sort_events(e);
        assert forall|k: int| 0 <= k < e.len() implies r.contains(#[trigger] e[k]) by {
            if k < e.len() - 1 {
                assert(e[k] == p[k]);
                let j = choose|j: int| 0 <= j < sp.len() && sp[j] == p[k];
                assert(r.contains(sp[j]));
            }
        }
        assert forall|k: int| 0 <= k < r.len() implies e.contains(#[trigger] r[k]) by {
            if r[k] == e.last() {
                assert(e[e.len() - 1] == e.last());
            } else {
                let j = choose|j: int| 0 <= j < sp.len() && sp[j] == r[k];
                let i = choose|i: int| 0 <= i < p.len() && p[i] == sp[j];
                assert(e[i] == p[i]);
            }
        }
    } else {
        assert(event_keys(sort_events(e)) =~= Seq::<Seq<char>>::empty());
    }
}

/// `inc` passes the optional status and severity filters.
pub open spec fn passes_filter(
    inc: IncidentView,
    status: Option<IncidentStatus>,
    severity: Option<Severity>,
) -> bool {
    &&& (status matches Some(st) ==> inc.status == st)
    &&& (severity matches Some(sv) ==> inc.severity == sv)
}

/// The incidents of `s` that pass the filters, in the order of `s`.
pub open spec fn matching(
    s: Seq<IncidentView>,
    status: Option<IncidentStatus>,
    severity: Option<Severity>,
) -> Seq<IncidentView>
    decreases s.len(),
{
    if s.len() == 0 {
        Seq::empty()
    } else {
        let rest = matching(s.drop_last(), status, severity);
        if passes_filter(s.last(), status, severity) {
            rest.push(s.last())
        } else {
            rest
        }
    }
}

/// Where a page starts: a negative offset counts as zero.
pub open spec fn page_start(len: int, offset: i64) -> int {
    if offset < 0 {
        0
    } else if offset >= len {
        len
    } else {
        offset as int
    }
}

/// Where a page ends: a negative limit means no limit.
pub open spec fn page_end(len: int, limit: i64, offset: i64) -> int {
    let start = page_start(len, offset);
    if limit < 0 || start + limit >= len {
        len
    } else {
        start + limit
    }
}

/// The page of `s` that skips `offset` items and holds at most `limit`.
pub open spec fn page(s: Seq<IncidentView>, limit: i64, offset: i64) -> Seq<IncidentView> {
    s.subrange(page_start(s.len() as int, offset), page_end(s.len() as int, limit, offset))
}

/// Listing: the page of the incidents that pass the filters, ordered by
/// opening time.
pub open spec fn list_view(
    s: Seq<IncidentView>,
    status: Option<IncidentStatus>,
    severity: Option<Severity>,
    limit: i64,
    offset: i64,
) -> Seq<IncidentView> {
    page(sort_incidents(matching(s, status, severity)), limit, offset)
}

/// The views of a sequence of incidents.
pub open spec fn incidents_view(s: Seq<Incident>) -> Seq<IncidentView> {
    s.map_values(|i: Incident| i@)
}

/// The view of the result of an operation that gives an incident.
pub open spec fn incident_result(r: Result<Incident, AppError>) -> Result<IncidentView, AppErrorView> {
    match r {
        Ok(inc) => Ok(inc@),
        Err(e) => Err(e@),
    }
}

/// The view of the result of an operation that may find no incident.
pub open spec fn found_result(r: Result<Option<Incident>, AppError>) -> Result<Option<IncidentView>, AppErrorView> {
    match r {
        Ok(Some(inc)) => Ok(Some(inc@)),
        Ok(None) => Ok(None),
        Err(e) => Err(e@),
    }
}

proof fn lemma_index_of_unique(s: Seq<IncidentView>, i: int)
    requires
        ids_unique(s),
        0 <= i < s.len(),
    ensures
        has_incident(s, s[i].id),
        index_of(s, s[i].id) == i,
{
    assert(s[i].id == s[i].id);
}

impl IncidentStore {
    #[verifier::type_invariant]
    spec fn well_formed(self) -> bool {
        &&& ids_unique(self@)
        &&& timelines_sorted(self@)
    }

    /// An empty store.
    pub fn new() -> (r: IncidentStore)
        ensures
            r@ == Seq::<IncidentView>::empty(),
    {
        let r = IncidentStore { incidents: Vec::new() };
        proof {
            assert(r@ =~= Seq::<IncidentView>::empty());
        }
        r
    }

    /// What holds of every store: no two incidents share an id, and every
    /// timeline is ordered by time. It computes nothing; calling it makes the
    /// store's invariant available where the store is handed in.
    pub fn invariant_holds(&self)
        ensures
            ids_unique(self@),
            timelines_sorted(self@),
    {
        proof {
            use_type_invariant(self);
        }
    }

    /// The number of incidents.
    pub fn len(&self) -> (r: usize)
        ensures
            r == self@.len(),
    {
        self.incidents.len()
    }

    /// The position of incident `id`, if there is one.
    fn position(&self, id: u128) -> (r: Option<usize>)
        ensures
            match r {
                Some(i) => i < self@.len() && index_of(self@, id) == i && has_incident(self@, id),
                None => !has_incident(self@, id),
            },
    {
        proof {
            use_type_invariant(self);
        }
        let n = self.incidents.len();
        let mut i: usize = 0;
        while i < n
            invariant
                n == self.incidents@.len(),
                n == self@.len(),
                i <= n,
                ids_unique(self@),
                forall|k: int| 0 <= k < i ==> #[trigger] self@[k].id != id,
            decreases n - i,
        {
            if self.incidents[i].id == id {
                proof {
                    lemma_index_of_unique(self@, i as int);
                }
                return Some(i);
            }
            i = i + 1;
        }
        None
    }
}

/// Whether some timeline entry of the store has the id `event_id`.
fn event_id_in_use(db: &IncidentStore, event_id: u128) -> (r: bool)
    ensures
        r == event_id_used(db@, event_id),
{
    let n = db.incidents.len();
    let mut i: usize = 0;
    while i < n
        invariant
            n == db.incidents@.len(),
            n == db@.len(),
            i <= n,
            forall|a: int, k: int| 0 <= a < i && 0 <= k < db@[a].events.len() ==> #[trigger] db@[a].events[k].id != event_id,
        decreases n - i,
    {
        let events = &db.incidents[i].events;
        let m = events.len();
        let mut k: usize = 0;
        while k < m
            invariant
                m == events@.len(),
                i < n,
                n == db@.len(),
                events_view(events@) == db@[i as int].events,
                k <= m,
                forall|c: int| 0 <= c < k ==> #[trigger] db@[i as int].events[c].id != event_id,
            decreases m - k,
        {
            if events[k].id == event_id {
                proof {
                    assert(db@[i as int].events[k as int].id == event_id);
                }
                return true;
            }
            k = k + 1;
        }
        i = i + 1;
    }
    false
}

/// The ids of every timeline entry of the store.
fn used_event_ids(db: &IncidentStore) -> (r: Vec<u128>)
    ensures
        forall|x: u128| r@.contains(x) <==> event_id_used(db@, x),
{
    let mut out: Vec<u128> = Vec::new();
    let n = db.incidents.len();
    let mut i: usize = 0;
    while i < n
        invariant
            n == db.incidents@.len(),
            n == db@.len(),
            i <= n,
            forall|x: u128|
                out@.contains(x) <==> exists|a: int, k: int|
                    0 <= a < i && 0 <= k < db@[a].events.len() && #[trigger] db@[a].events[k].id == x,
        decreases n - i,
    {
        let events = &db.incidents[i].events;
        let m = events.len();
        let mut k: usize = 0;
        while k < m
            invariant
                m == events@.len(),
                i < n,
                n == db@.len(),
                events_view(events@) == db@[i as int].events,
                k <= m,
                forall|x: u128|
                    out@.contains(x) <==> (exists|a: int, c: int|
                        0 <= a < i && 0 <= c < db@[a].events.len() && #[trigger] db@[a].events[c].id == x)
                        || (exists|c: int| 0 <= c < k && #[trigger] db@[i as int].events[c].id == x),
            decreases m - k,
        {
            let ghost prev = out@;
            let x0: u128 = events[k].id;
            out.push(x0);
            proof {
                assert(db@[i as int].events[k as int].id == x0);
                assert forall|x: u128| #[trigger] out@.contains(x) implies (exists|a: int, c: int|
                        0 <= a < i && 0 <= c < db@[a].events.len() && #[trigger] db@[a].events[c].id == x)
                        || (exists|c: int| 0 <= c < k + 1 && #[trigger] db@[i as int].events[c].id == x) by {
                    let j = choose|j: int| 0 <= j < out@.len() && out@[j] == x;
                    if j < prev.len() {
                        assert(prev[j] == x);
                        assert(prev.contains(x));
                        if exists|c: int| 0 <= c < k && #[trigger] db@[i as int].events[c].id == x {
                            let c = choose|c: int| 0 <= c < k && #[trigger] db@[i as int].events[c].id == x;
                            assert(0 <= c < k + 1 && db@[i as int].events[c].id == x);
                        }
                    } else {
                        assert(x == x0);
                        assert(0 <= k < k + 1 && db@[i as int].events[k as int].id == x);
                    }
                }
                assert forall|x: u128| (exists|a: int, c: int|
                        0 <= a < i && 0 <= c < db@[a].events.len() && #[trigger] db@[a].events[c].id == x)
                        || (exists|c: int| 0 <= c < k + 1 && #[trigger] db@[i as int].events[c].id == x) implies #[trigger] out@.contains(x) by {
                    if exists|c: int| 0 <= c < k + 1 && #[trigger] db@[i as int].events[c].id == x {
                        let c = choose|c: int| 0 <= c < k + 1 && #[trigger] db@[i as int].events[c].id == x;
                        if c < k {
                            assert(prev.contains(x));
                            let j = choose|j: int| 0 <= j < prev.len() && prev[j] == x;
                            assert(out@[j] == x);
                        } else {
                            assert(out@[prev.len() as int] == x0);
                        }
                    } else {
                        assert(prev.contains(x));
                        let j = choose|j: int| 0 <= j < prev.len() && prev[j] == x;
                        assert(out@[j] == x);
                    }
                }
            }
            k = k + 1;
        }
        proof {
            assert forall|x: u128|
                out@.contains(x) <==> exists|a: int, c: int|
                    0 <= a < i + 1 && 0 <= c < db@[a].events.len() && #[trigger] db@[a].events[c].id == x by {
                if exists|a: int, c: int| 0 <= a < i + 1 && 0 <= c < db@[a].events.len() && #[trigger] db@[a].events[c].id == x {
                    let (a, c) = choose|a: int, c: int| 0 <= a < i + 1 && 0 <= c < db@[a].events.len() && #[trigger] db@[a].events[c].id == x;
                    if a == i {
                        assert(exists|c: int| 0 <= c < m && #[trigger] db@[i as int].events[c].id == x);
                    } else {
                        assert(exists|a: int, c: int| 0 <= a < i && 0 <= c < db@[a].events.len() && #[trigger] db@[a].events[c].id == x);
                    }
                }
            }
        }
        i = i + 1;
    }
    out
}

/// The ids of every incident of the store.
fn used_incident_ids(db: &IncidentStore) -> (r: Vec<u128>)
    ensures
        forall|x: u128| r@.contains(x) <==> has_incident(db@, x),
{
    let mut out: Vec<u128> = Vec::new();
    let n = db.incidents.len();
    let mut i: usize = 0;
    while i < n
        invariant
            n == db.incidents@.len(),
            n == db@.len(),
            i <= n,
            out@.len() == i,
            forall|k: int| 0 <= k < i ==> out@[k] == db@[k].id,
        decreases n - i,
    {
        out.push(db.incidents[i].id);
        i = i + 1;
    }
    proof {
        assert forall|x: u128| out@.contains(x) <==> has_incident(db@, x) by {
            if out@.contains(x) {
                let j = choose|j: int| 0 <= j < out@.len() && out@[j] == x;
                assert(db@[j].id == x);
            }
            if has_incident(db@, x) {
                let j = choose|j: int| 0 <= j < db@.len() && #[trigger] db@[j].id == x;
                assert(out@[j] == x);
            }
        }
    }
    out
}

impl IncidentStore {
    /// Adds `inc`, whose id is not in use and whose timeline is ordered by
    /// time, after all other incidents.
    fn push_incident(&mut self, inc: Incident)
        requires
            !has_incident(old(self)@, inc.id),
            keys_sorted(event_keys(inc@.events)),
        ensures
            final(self)@ == old(self)@.push(inc@),
            ids_unique(final(self)@),
            timelines_sorted(final(self)@),
    {
        proof {
            use_type_invariant(&*self);
        }
        let ghost before = self@;
        let ghost v = inc@;
        let mut all: Vec<Incident> = Vec::new();
        std::mem::swap(&mut all, &mut self.incidents);
        all.push(inc);
        proof {
            let after = before.push(v);
            assert(all@.map_values(|x: Incident| x@) =~= after);
            assert forall|a: int, b: int|
                0 <= a < after.len() && 0 <= b < after.len() && #[trigger] after[a].id == #[trigger] after[b].id implies a == b by {
                if a < before.len() && b < before.len() {
                    assert(before[a].id == before[b].id);
                } else if a < before.len() {
                    assert(before[a].id == v.id);
                } else if b < before.len() {
                    assert(before[b].id == v.id);
                }
            }
            assert forall|k: int| 0 <= k < after.len() implies keys_sorted(event_keys(#[trigger] after[k].events)) by {
                if k < before.len() {
                    assert(after[k] == before[k]);
                }
            }
        }
        self.incidents = all;
    }
}

/// Opens an incident with the given id, timeline entry id and time; see
/// `create_step`.
pub fn create_incident_at(
    db: &mut IncidentStore,
    title: &str,
    description: Option<String>,
    severity: Severity,
    id: u128,
    event_id: u128,
    now: &str,
) -> (r: Result<Incident, AppError>)
    ensures
        ids_unique(final(db)@),
        timelines_sorted(final(db)@),
        (final(db)@, incident_result(r)) == create_step(
            old(db)@,
            title@,
            opt_text(description),
            severity,
            id,
            event_id,
            now@,
        ),
        store_evolves(old(db)@, final(db)@),
        status_changes_bounded(old(db)@) ==> status_changes_bounded(final(db)@),
        store_consistent(old(db)@) && all_before(old(db)@, now@) && r is Ok ==> store_consistent(final(db)@),
{
    proof {
        lemma_steps_evolve_store(db@, title@, opt_text(description), severity, Seq::empty(), id, IncidentStatus::Open, event_id, now@);
        if status_changes_bounded(db@) {
            lemma_steps_bound_status_changes(db@, title@, opt_text(description), severity, Seq::empty(), id, IncidentStatus::Open, event_id, now@);
        }
        if store_consistent(db@) && all_before(db@, now@) {
            lemma_steps_keep_timelines_consistent(db@, title@, opt_text(description), severity, Seq::empty(), id, IncidentStatus::Open, event_id, now@);
        }
    }
    proof {
        use_type_invariant(&*db);
    }
    if db.position(id).is_some() {
        return Err(AppError::Db(owned("UNIQUE constraint failed: incidents.id")));
    }
    let entry_taken = event_id_in_use(db, event_id);
    let mut events: Vec<IncidentEvent> = Vec::new();
    if !entry_taken {
        events.push(
            IncidentEvent {
                id: event_id,
                event_type: EventType::Created,
                message: owned("Incident created"),
                created_at: owned(now),
            },
        );
    }
    let inc = Incident {
        id,
        title: owned(title),
        description,
        severity,
        status: IncidentStatus::Open,
        created_at: owned(now),
        updated_at: owned(now),
        events,
    };
    proof {
        let full = opened_incident(id, title@, opt_text(description), severity, event_id, now@);
        if entry_taken {
            assert(inc@.events =~= Seq::<EventView>::empty());
            assert(inc@ == with_events(full, Seq::empty()));
        } else {
            assert(inc@.events =~= full.events);
        }
        assert(keys_sorted(event_keys(inc@.events)));
    }
    db.push_incident(inc.clone());
    if entry_taken {
        Err(AppError::Db(owned("UNIQUE constraint failed: incident_events.id")))
    } else {
        Ok(inc)
    }
}

impl IncidentStore {
    /// Puts `inc` in place of the incident at `i`, which has the same id.
    fn replace_at(&mut self, i: usize, inc: Incident)
        requires
            i < old(self)@.len(),
            inc.id == old(self)@[i as int].id,
            keys_sorted(event_keys(inc@.events)),
        ensures
            final(self)@ == old(self)@.update(i as int, inc@),
            ids_unique(final(self)@),
            timelines_sorted(final(self)@),
    {
        proof {
            use_type_invariant(&*self);
        }
        let ghost before = self@;
        let ghost v = inc@;
        let mut all: Vec<Incident> = Vec::new();
        std::mem::swap(&mut all, &mut self.incidents);
        all.set(i, inc);
        proof {
            assert(all@.map_values(|x: Incident| x@) =~= before.update(i as int, v));
            let after = before.update(i as int, v);
            assert forall|a: int, b: int|
                0 <= a < after.len() && 0 <= b < after.len() && #[trigger] after[a].id
                    == #[trigger] after[b].id implies a == b by {
                assert(after[a].id == before[a].id);
                assert(after[b].id == before[b].id);
            }
            assert forall|k: int| 0 <= k < after.len() implies keys_sorted(event_keys(#[trigger] after[k].events)) by {
                if k != i {
                    assert(after[k] == before[k]);
                }
            }
        }
        self.incidents = all;
    }

    /// A copy of the incident at `i`.
    fn copy_at(&self, i: usize) -> (r: Incident)
        requires
            i < self@.len(),
        ensures
            r@ == self@[i as int],
    {
        self.incidents[i].clone()
    }
}

/// Where an entry made at `t` goes in a timeline ordered by time.
fn event_position(events: &Vec<IncidentEvent>, t: &str) -> (k: usize)
    ensures
        k == insert_pos(event_keys(events_view(events@)), t@),
        k <= events@.len(),
{
    let ghost keys = event_keys(events_view(events@));
    let mut k: usize = events.len();
    proof {
        assert(keys.take(k as int) =~= keys);
    }
    while k > 0 && text_less(t, events[k - 1].created_at.as_str())
        invariant
            k <= events@.len(),
            keys == event_keys(events_view(events@)),
            keys.len() == events@.len(),
            insert_pos(keys, t@) == insert_pos(keys.take(k as int), t@),
        decreases k,
    {
        proof {
            assert(keys.take(k as int).drop_last() =~= keys.take(k - 1));
            assert(keys.take(k as int).last() == keys[k - 1]);
            assert(keys[k - 1] == events@[k - 1]@.created_at);
        }
        k = k - 1;
    }
    proof {
        if k > 0 {
            assert(keys.take(k as int).last() == keys[k - 1]);
            assert(keys[k - 1] == events@[k - 1]@.created_at);
        }
    }
    k
}

/// Changes the status of incident `id`, recording the change with the given
/// timeline entry id and time; see `status_step`.
pub fn update_status_at(
    db: &mut IncidentStore,
    id: u128,
    status: IncidentStatus,
    event_id: u128,
    now: &str,
) -> (r: Result<Option<Incident>, AppError>)
    ensures
        ids_unique(final(db)@),
        timelines_sorted(final(db)@),
        (final(db)@, found_result(r)) == status_step(old(db)@, id, status, event_id, now@),
        store_evolves(old(db)@, final(db)@),
        status_changes_bounded(old(db)@) ==> status_changes_bounded(final(db)@),
        store_consistent(old(db)@) && all_before(old(db)@, now@) && r is Ok ==> store_consistent(final(db)@),
{
    proof {
        lemma_steps_evolve_store(db@, Seq::empty(), None, Severity::Low, Seq::empty(), id, status, event_id, now@);
        if status_changes_bounded(db@) {
            lemma_steps_bound_status_changes(db@, Seq::empty(), None, Severity::Low, Seq::empty(), id, status, event_id, now@);
        }
        if store_consistent(db@) && all_before(db@, now@) {
            lemma_steps_keep_timelines_consistent(db@, Seq::empty(), None, Severity::Low, Seq::empty(), id, status, event_id, now@);
        }
    }
    proof {
        use_type_invariant(&*db);
    }
    let i = match db.position(id) {
        None => return Ok(None),
        Some(i) => i,
    };
    let mut inc = db.copy_at(i);
    let current = inc.status;
    if current == status {
        return Ok(Some(inc));
    }
    if !current.can_transition_to(&status) {
        let msg = join(&join(current.as_str(), " -> "), status.as_str());
        return Err(AppError::InvalidTransition(msg));
    }
    let entry_taken = event_id_in_use(db, event_id);
    let ghost cur = inc@;
    inc.status = status;
    inc.updated_at = owned(now);
    if entry_taken {
        proof {
            assert(inc@ == with_events(with_status(cur, status, event_id, now@), cur.events));
            assert(keys_sorted(event_keys(db@[i as int].events)));
        }
        db.replace_at(i, inc);
        return Err(AppError::Db(owned("UNIQUE constraint failed: incident_events.id")));
    }
    let ev = IncidentEvent {
        id: event_id,
        event_type: EventType::StatusChanged,
        message: join("Status changed to ", status.as_str()),
        created_at: owned(now),
    };
    let ghost evv = ev@;
    let ghost evx = ev;
    let ghost before_events = inc.events@;
    let pos = event_position(&inc.events, now);
    inc.events.insert(pos, ev);
    proof {
        before_events.insert_ensures(pos as int, evx);
        events_view(before_events).insert_ensures(pos as int, evv);
        assert(events_view(inc.events@) =~= events_view(before_events).insert(pos as int, evv));
        assert(inc@.events =~= with_status(cur, status, event_id, now@).events);
        assert(keys_sorted(event_keys(db@[i as int].events)));
        lemma_insert_event(cur.events, evv);
    }
    db.replace_at(i, inc.clone());
    Ok(Some(inc))
}

/// Adds a note to the timeline of incident `id` with the given entry id and
/// time; see `note_step`.
pub fn add_note_at(
    db: &mut IncidentStore,
    id: u128,
    note: String,
    event_id: u128,
    now: &str,
) -> (r: Result<Option<Incident>, AppError>)
    ensures
        ids_unique(final(db)@),
        timelines_sorted(final(db)@),
        (final(db)@, found_result(r)) == note_step(old(db)@, id, note@, event_id, now@),
        store_evolves(old(db)@, final(db)@),
        status_changes_bounded(old(db)@) ==> status_changes_bounded(final(db)@),
        store_consistent(old(db)@) && all_before(old(db)@, now@) && r is Ok ==> store_consistent(final(db)@),
{
    proof {
        lemma_steps_evolve_store(db@, Seq::empty(), None, Severity::Low, note@, id, IncidentStatus::Open, event_id, now@);
        if status_changes_bounded(db@) {
            lemma_steps_bound_status_changes(db@, Seq::empty(), None, Severity::Low, note@, id, IncidentStatus::Open, event_id, now@);
        }
        if store_consistent(db@) && all_before(db@, now@) {
            lemma_steps_keep_timelines_consistent(db@, Seq::empty(), None, Severity::Low, note@, id, IncidentStatus::Open, event_id, now@);
        }
    }
    proof {
        use_type_invariant(&*db);
    }
    let i = match db.position(id) {
        None => return Ok(None),
        Some(i) => i,
    };
    let mut inc = db.copy_at(i);
    let entry_taken = event_id_in_use(db, event_id);
    let ghost cur = inc@;
    let ghost nv = note@;
    inc.updated_at = owned(now);
    if entry_taken {
        proof {
            assert(inc@ == with_events(with_note(cur, nv, event_id, now@), cur.events));
            assert(keys_sorted(event_keys(db@[i as int].events)));
        }
        db.replace_at(i, inc);
        return Err(AppError::Db(owned("UNIQUE constraint failed: incident_events.id")));
    }
    let ev = IncidentEvent { id: event_id, event_type: EventType::NoteAdded, message: note, created_at: owned(now) };
    let ghost evv = ev@;
    let ghost evx = ev;
    let ghost before_events = inc.events@;
    let pos = event_position(&inc.events, now);
    inc.events.insert(pos, ev);
    proof {
        before_events.insert_ensures(pos as int, evx);
        events_view(before_events).insert_ensures(pos as int, evv);
        assert(events_view(inc.events@) =~= events_view(before_events).insert(pos as int, evv));
        assert(inc@.events =~= with_note(cur, nv, event_id, now@).events);
        assert(keys_sorted(event_keys(db@[i as int].events)));
        lemma_insert_event(cur.events, evv);
    }
    db.replace_at(i, inc.clone());
    Ok(Some(inc))
}

/// The incident with id `id`, if there is one. Never fails.
pub fn get_incident_by_id(db: &IncidentStore, id: u128) -> (r: Result<Option<Incident>, AppError>)
    ensures
        ids_unique(db@),
        timelines_sorted(db@),
        found_result(r) == Ok::<Option<IncidentView>, AppErrorView>(lookup(db@, id)),
{
    db.invariant_holds();
    match db.position(id) {
        None => Ok(None),
        Some(i) => Ok(Some(db.copy_at(i))),
    }
}

/// The timeline of incident `id`, if there is one. Never fails.
pub fn get_timeline(db: &IncidentStore, id: u128) -> (r: Result<Option<Vec<IncidentEvent>>, AppError>)
    ensures
        ids_unique(db@),
        timelines_sorted(db@),
        match r {
            Ok(Some(events)) => {
                &&& lookup(db@, id) matches Some(inc) && events_view(events@) == inc.events
                &&& keys_sorted(event_keys(events_view(events@)))
            },
            Ok(None) => lookup(db@, id) is None,
            Err(_) => false,
        },
{
    proof {
        use_type_invariant(db);
    }
    match db.position(id) {
        None => Ok(None),
        Some(i) => {
            let inc = db.copy_at(i);
            proof {
                assert(keys_sorted(event_keys(db@[i as int].events)));
            }
            Ok(Some(inc.events))
        },
    }
}

/// Whether `inc` passes the optional status and severity filters.
fn passes(inc: &Incident, status: Option<IncidentStatus>, severity: Option<Severity>) -> (r: bool)
    ensures
        r == passes_filter(inc@, status, severity),
{
    let status_ok = match status {
        Some(st) => inc.status == st,
        None => true,
    };
    let severity_ok = match severity {
        Some(sv) => inc.severity == sv,
        None => true,
    };
    status_ok && severity_ok
}

/// Where an incident opened at `t` goes among the incidents of `db` at the
/// positions `idx`, ordered by opening time.
fn incident_position(db: &IncidentStore, idx: &Vec<usize>, t: &str) -> (k: usize)
    requires
        forall|j: int| 0 <= j < idx@.len() ==> #[trigger] idx@[j] < db@.len(),
    ensures
        k == insert_pos(created_keys(idx@.map_values(|j: usize| db@[j as int])), t@),
        k <= idx@.len(),
{
    let ghost keys = created_keys(idx@.map_values(|j: usize| db@[j as int]));
    let mut k: usize = idx.len();
    proof {
        assert(keys.take(k as int) =~= keys);
    }
    while k > 0 && text_less(t, db.incidents[idx[k - 1]].created_at.as_str())
        invariant
            k <= idx@.len(),
            forall|j: int| 0 <= j < idx@.len() ==> #[trigger] idx@[j] < db@.len(),
            keys == created_keys(idx@.map_values(|j: usize| db@[j as int])),
            keys.len() == idx@.len(),
            insert_pos(keys, t@) == insert_pos(keys.take(k as int), t@),
        decreases k,
    {
        proof {
            assert(keys.take(k as int).drop_last() =~= keys.take(k - 1));
            assert(keys.take(k as int).last() == keys[k - 1]);
            assert(keys[k - 1] == db@[idx@[k - 1] as int].created_at);
        }
        k = k - 1;
    }
    proof {
        if k > 0 {
            assert(keys.take(k as int).last() == keys[k - 1]);
            assert(keys[k - 1] == db@[idx@[k - 1] as int].created_at);
        }
    }
    k
}

/// The incidents that pass the status and severity filters, ordered by
/// opening time (those opened at the same time in the order they were
/// added), skipping the first `offset` (none when negative) and keeping at
/// most `limit` (all when negative). Never fails.
pub fn list_incidents(
    db: &IncidentStore,
    status: Option<IncidentStatus>,
    severity: Option<Severity>,
    limit: i64,
    offset: i64,
) -> (r: Result<Vec<Incident>, AppError>)
    ensures
        r matches Ok(v) && incidents_view(v@) == list_view(db@, status, severity, limit, offset),
        r matches Ok(v) && keys_sorted(created_keys(incidents_view(v@))),
        ids_unique(db@),
        timelines_sorted(db@),
{
    db.invariant_holds();
    let n = db.len();
    let mut idx: Vec<usize> = Vec::new();
    let mut i: usize = 0;
    proof {
        assert(idx@.map_values(|k: usize| db@[k as int]) =~= Seq::<IncidentView>::empty());
    }
    while i < n
        invariant
            n == db@.len(),
            i <= n,
            forall|k: int| 0 <= k < idx@.len() ==> #[trigger] idx@[k] < i,
            idx@.map_values(|k: usize| db@[k as int]) == sort_incidents(matching(db@.take(i as int), status, severity)),
        decreases n - i,
    {
        proof {
            assert(db@.take(i + 1).drop_last() =~= db@.take(i as int));
            assert(db@.take(i + 1).last() == db@[i as int]);
        }
        let inc = &db.incidents[i];
        proof {
            assert(inc@ == db@[i as int]);
        }
        if passes(inc, status, severity) {
            let ghost q = matching(db@.take(i as int), status, severity);
            let ghost before = idx@;
            let pos = incident_position(db, &idx, inc.created_at.as_str());
            idx.insert(pos, i);
            proof {
                assert(q.push(db@[i as int]).drop_last() =~= q);
                before.insert_ensures(pos as int, i);
                let bv = before.map_values(|k: usize| db@[k as int]);
                bv.insert_ensures(pos as int, db@[i as int]);
                assert(idx@.map_values(|k: usize| db@[k as int]) =~= bv.insert(pos as int, db@[i as int]));
                assert forall|k: int| 0 <= k < idx@.len() implies #[trigger] idx@[k] < i + 1 by {
                    if k < pos {
                        assert(idx@[k] == before[k]);
                    } else if k > pos {
                        assert(idx@[k] == before[k - 1]);
                    }
                }
            }
        }
        i = i + 1;
    }
    proof {
        assert(db@.take(n as int) =~= db@);
        lemma_sort_incidents(matching(db@, status, severity));
    }
    let ghost m = sort_incidents(matching(db@, status, severity));
    let m_len = idx.len();
    let start: usize = if offset < 0 {
        0
    } else if offset as u64 >= m_len as u64 {
        m_len
    } else {
        offset as usize
    };
    let end: usize = if limit < 0 {
        m_len
    } else if limit as u64 >= (m_len - start) as u64 {
        m_len
    } else {
        start + limit as usize
    };
    assert(start == page_start(m.len() as int, offset));
    assert(end == page_end(m.len() as int, limit, offset));
    let mut out: Vec<Incident> = Vec::new();
    let mut k: usize = start;
    while k < end
        invariant
            start <= k <= end <= m_len,
            m_len == idx@.len(),
            m.len() == m_len,
            idx@.map_values(|j: usize| db@[j as int]) == m,
            forall|j: int| 0 <= j < idx@.len() ==> #[trigger] idx@[j] < db@.len(),
            incidents_view(out@) == m.subrange(start as int, k as int),
        decreases end - k,
    {
        let inc = db.copy_at(idx[k]);
        proof {
            assert(inc@ == m[k as int]);
        }
        let ghost prev = out@;
        let ghost iv = inc@;
        out.push(inc);
        proof {
            assert(incidents_view(out@) =~= incidents_view(prev).push(iv));
            assert(m.subrange(start as int, k + 1) =~= m.subrange(start as int, k as int).push(m[k as int]));
        }
        k = k + 1;
    }
    proof {
        let ks = created_keys(m);
        let sub = created_keys(incidents_view(out@));
        assert(sub =~= ks.subrange(start as int, end as int));
        assert forall|a: int, b: int| 0 <= a < b < sub.len() implies text_le(#[trigger] sub[a], #[trigger] sub[b]) by {
            assert(sub[a] == ks[start + a]);
            assert(sub[b] == ks[start + b]);
        }
    }
    Ok(out)
}

/// Whether `id` has the version and variant bits of a random (version 4)
/// UUID.
pub open spec fn is_v4(id: u128) -> bool {
    &&& (id >> 76u128) & 0xfu128 == 4
    &&& (id >> 62u128) & 0x3u128 == 2
}

/// Some incident or timeline entry of `s` has an id with the bits of a
/// random UUID: only then can a freshly drawn id collide with one in use.
pub open spec fn holds_v4_id(s: Seq<IncidentView>) -> bool {
    ||| exists|i: int| 0 <= i < s.len() && is_v4(#[trigger] s[i].id)
    ||| exists|i: int, k: int| 0 <= i < s.len() && 0 <= k < s[i].events.len() && is_v4(#[trigger] s[i].events[k].id)
}

/// Opens an incident with the current time, a random id and a random entry
/// id; see `create_step`, taken with those. A drawn id that is already in
/// use is replaced by a free one (see `fresh_id`), so the ids are fresh and
/// opening always succeeds: the store gains exactly the opened incident at
/// its end (see `create_answered`).
pub fn create_incident(
    db: &mut IncidentStore,
    title: &str,
    description: Option<String>,
    severity: Severity,
) -> (r: Result<Incident, AppError>)
    ensures
        ids_unique(final(db)@),
        timelines_sorted(final(db)@),
        store_evolves(old(db)@, final(db)@),
        status_changes_bounded(old(db)@) ==> status_changes_bounded(final(db)@),
        exists|id: u128, event_id: u128, now: Seq<char>|
            {
                &&& is_v4(id)
                &&& is_v4(event_id)
                &&& !has_incident(old(db)@, id)
                &&& !event_id_used(old(db)@, event_id)
                &&& (final(db)@, incident_result(r)) == #[trigger] create_step(
                    old(db)@,
                    title@,
                    opt_text(description),
                    severity,
                    id,
                    event_id,
                    now,
                )
                &&& (four_digit_year(now) ==> time_reads_back(now))
                &&& (store_consistent(old(db)@) && all_before(old(db)@, now) && r is Ok ==> store_consistent(final(db)@))
            },
        match r {
            Ok(inc) => {
                &&& !has_incident(old(db)@, inc.id)
                &&& is_v4(inc.id)
                &&& inc@.events.len() == 1
                &&& is_v4(inc@.events[0].id)
                &&& inc@ == opened_incident(
                    inc.id,
                    title@,
                    opt_text(description),
                    severity,
                    inc@.events[0].id,
                    inc@.created_at,
                )
                &&& final(db)@ == old(db)@.push(inc@)
                &&& (four_digit_year(inc@.created_at) ==> time_reads_back(inc@.created_at))
            },
            Err(e) => {
                &&& e@ is Db
                &&& holds_v4_id(old(db)@)
            },
        },
        !holds_v4_id(old(db)@) ==> r is Ok,
        r is Ok,
        create_answered(old(db)@, final(db)@, title@, opt_text(description), severity, incident_result(r)),
{
    let ghost s0 = db@;
    let drawn_id = new_v4_id();
    let id = if db.position(drawn_id).is_some() {
        fresh_id(&used_incident_ids(db), drawn_id)
    } else {
        drawn_id
    };
    let now = now_rfc3339();
    let drawn_event = new_v4_id();
    let event_id = if event_id_in_use(db, drawn_event) {
        fresh_id(&used_event_ids(db), drawn_event)
    } else {
        drawn_event
    };
    let ghost dv = description;
    let r = create_incident_at(db, title, description, severity, id, event_id, now.as_str());
    proof {
        lemma_create_step_answers(s0, title@, opt_text(dv), severity, id, event_id, now@);
        if r is Err {
            if has_incident(old(db)@, id) {
                let k = index_of(old(db)@, id);
                assert(old(db)@[k].id == id);
                assert(is_v4(old(db)@[k].id));
            } else {
                let (a, b) = choose|a: int, b: int|
                    0 <= a < old(db)@.len() && 0 <= b < old(db)@[a].events.len() && #[trigger] old(db)@[a].events[b].id == event_id;
                assert(is_v4(old(db)@[a].events[b].id));
            }
        }
    }
    r
}

/// Changes the status of incident `id` at the current time; see
/// `status_step`, taken with that time and a random entry id, replaced by a
/// free one when already in use (see `fresh_id`). As the entry id is fresh,
/// an allowed move of an existing incident always succeeds (see
/// `status_change_answered`).
pub fn update_status(db: &mut IncidentStore, id: u128, status: IncidentStatus) -> (r: Result<
    Option<Incident>,
    AppError,
>)
    ensures
        ids_unique(final(db)@),
        timelines_sorted(final(db)@),
        store_evolves(old(db)@, final(db)@),
        status_changes_bounded(old(db)@) ==> status_changes_bounded(final(db)@),
        exists|event_id: u128, now: Seq<char>|
            {
                &&& is_v4(event_id)
                &&& !event_id_used(old(db)@, event_id)
                &&& (final(db)@, found_result(r)) == #[trigger] status_step(old(db)@, id, status, event_id, now)
                &&& (four_digit_year(now) ==> time_reads_back(now))
                &&& (store_consistent(old(db)@) && all_before(old(db)@, now) && r is Ok ==> store_consistent(final(db)@))
            },
        status_change_answered(old(db)@, final(db)@, id, status, found_result(r)),
{
    db.invariant_holds();
    let ghost s0 = db@;
    let now = now_rfc3339();
    let drawn = new_v4_id();
    let event_id = if event_id_in_use(db, drawn) {
        fresh_id(&used_event_ids(db), drawn)
    } else {
        drawn
    };
    let r = update_status_at(db, id, status, event_id, now.as_str());
    proof {
        lemma_status_step_answers(s0, id, status, event_id, now@);
    }
    r
}

/// Adds a note to the timeline of incident `id` at the current time; see
/// `note_step`, taken with that time and a random entry id, replaced by a
/// free one when already in use (see `fresh_id`). As the entry id is fresh,
/// a note for an existing incident, whatever its status, always succeeds
/// (see `note_answered`).
pub fn add_note(db: &mut IncidentStore, id: u128, note: String) -> (r: Result<Option<Incident>, AppError>)
    ensures
        ids_unique(final(db)@),
        timelines_sorted(final(db)@),
        store_evolves(old(db)@, final(db)@),
        status_changes_bounded(old(db)@) ==> status_changes_bounded(final(db)@),
        exists|event_id: u128, now: Seq<char>|
            {
                &&& is_v4(event_id)
                &&& !event_id_used(old(db)@, event_id)
                &&& (final(db)@, found_result(r)) == #[trigger] note_step(old(db)@, id, note@, event_id, now)
                &&& (four_digit_year(now) ==> time_reads_back(now))
                &&& (store_consistent(old(db)@) && all_before(old(db)@, now) && r is Ok ==> store_consistent(final(db)@))
            },
        note_answered(old(db)@, final(db)@, id, note@, found_result(r)),
{
    db.invariant_holds();
    let ghost s0 = db@;
    let ghost nv = note@;
    let now = now_rfc3339();
    let drawn = new_v4_id();
    let event_id = if event_id_in_use(db, drawn) {
        fresh_id(&used_event_ids(db), drawn)
    } else {
        drawn
    };
    let r = add_note_at(db, id, note, event_id, now.as_str());
    proof {
        lemma_note_step_answers(s0, id, nv, event_id, now@);
    }
    r
}

/// An `incidents` row as stored: every column as text.
#[derive(Debug)]
pub struct IncidentRow {
    pub id: String,
    pub title: String,
    pub description: Option<String>,
    pub severity: String,
    pub status: String,
    pub created_at: String,
    pub updated_at: String,
}

/// The mathematical value of an [`IncidentRow`].
pub struct IncidentRowView {
    pub id: Seq<char>,
    pub title: Seq<char>,
    pub description: Option<Seq<char>>,
    pub severity: Seq<char>,
    pub status: Seq<char>,
    pub created_at: Seq<char>,
    pub updated_at: Seq<char>,
}

impl View for IncidentRow {
    type V = IncidentRowView;

    open spec fn view(&self) -> IncidentRowView {
        IncidentRowView {
            id: self.id@,
            title: self.title@,
            description: opt_text(self.description),
            severity: self.severity@,
            status: self.status@,
            created_at: self.created_at@,
            updated_at: self.updated_at@,
        }
    }
}

/// An `incident_events` row as stored: every column as text.
#[derive(Debug)]
pub struct EventRow {
    pub id: String,
    pub incident_id: String,
    pub event_type: String,
    pub message: String,
    pub created_at: String,
}

/// The mathematical value of an [`EventRow`].
pub struct EventRowView {
    pub id: Seq<char>,
    pub incident_id: Seq<char>,
    pub event_type: Seq<char>,
    pub message: Seq<char>,
    pub created_at: Seq<char>,
}

impl View for EventRow {
    type V = EventRowView;

    open spec fn view(&self) -> EventRowView {
        EventRowView {
            id: self.id@,
            incident_id: self.incident_id@,
            event_type: self.event_type@,
            message: self.message@,
            created_at: self.created_at@,
        }
    }
}

/// Reading an incident row: the id as a UUID, then the severity, the status
/// and the two times, each failing with the text of its error; the timeline
/// is left empty.
pub open spec fn incident_from_row(r: IncidentRowView) -> Result<IncidentView, Seq<char>> {
    match uuid_parse_result(r.id) {
        Err(e) => Err(e),
        Ok(id) => match severity_from_text(r.severity) {
            None => Err("invalid severity: "@ + r.severity),
            Some(severity) => match status_from_text(r.status) {
                None => Err("invalid status: "@ + r.status),
                Some(status) => match rfc3339_parse_result(r.created_at) {
                    Err(e) => Err(e),
                    Ok(created_at) => match rfc3339_parse_result(r.updated_at) {
                        Err(e) => Err(e),
                        Ok(updated_at) => Ok(
                            IncidentView {
                                id,
                                title: r.title,
                                description: r.description,
                                severity,
                                status,
                                created_at,
                                updated_at,
                                events: Seq::empty(),
                            },
                        ),
                    },
                },
            },
        },
    }
}

/// Reading an event row: the id as a UUID, then the event type and the time,
/// each failing with the text of its error.
pub open spec fn event_from_row(r: EventRowView) -> Result<EventView, Seq<char>> {
    match uuid_parse_result(r.id) {
        Err(e) => Err(e),
        Ok(id) => match event_type_from_text(r.event_type) {
            None => Err("invalid event_type: "@ + r.event_type),
            Some(event_type) => match rfc3339_parse_result(r.created_at) {
                Err(e) => Err(e),
                Ok(created_at) => Ok(EventView { id, event_type, message: r.message, created_at }),
            },
        },
    }
}

/// The view of the result of reading a row.
pub open spec fn read_result<T: View>(r: Result<T, AppError>) -> Result<T::V, AppErrorView> {
    match r {
        Ok(v) => Ok(v@),
        Err(e) => Err(e@),
    }
}

/// An error text as an `InvalidData` error.
pub open spec fn invalid_data<T>(r: Result<T, Seq<char>>) -> Result<T, AppErrorView> {
    match r {
        Ok(v) => Ok(v),
        Err(e) => Err(AppErrorView::InvalidData(e)),
    }
}

/// Reads an incident row into an incident with an empty timeline; a column
/// that does not read fails with `InvalidData` and the text of its error.
pub fn row_to_incident_without_events(row: &IncidentRow) -> (r: Result<Incident, AppError>)
    ensures
        read_result(r) == invalid_data(incident_from_row(row@)),
{
    let id = match parse_uuid(row.id.as_str()) {
        Ok(id) => id,
        Err(e) => return Err(AppError::InvalidData(e)),
    };
    let severity = match Severity::parse(row.severity.as_str()) {
        Ok(v) => v,
        Err(e) => return Err(AppError::InvalidData(e)),
    };
    let status = match IncidentStatus::parse(row.status.as_str()) {
        Ok(v) => v,
        Err(e) => return Err(AppError::InvalidData(e)),
    };
    let created_at = match parse_rfc3339(row.created_at.as_str()) {
        Ok(t) => t,
        Err(e) => return Err(AppError::InvalidData(e)),
    };
    let updated_at = match parse_rfc3339(row.updated_at.as_str()) {
        Ok(t) => t,
        Err(e) => return Err(AppError::InvalidData(e)),
    };
    let inc = Incident {
        id,
        title: row.title.clone(),
        description: clone_opt_text(&row.description),
        severity,
        status,
        created_at,
        updated_at,
        events: Vec::new(),
    };
    proof {
        assert(inc@.events =~= Seq::<EventView>::empty());
    }
    Ok(inc)
}

/// Reads an event row into a timeline entry; a column that does not read
/// fails with `InvalidData` and the text of its error.
pub fn row_to_event(row: &EventRow) -> (r: Result<IncidentEvent, AppError>)
    ensures
        read_result(r) == invalid_data(event_from_row(row@)),
{
    let id = match parse_uuid(row.id.as_str()) {
        Ok(id) => id,
        Err(e) => return Err(AppError::InvalidData(e)),
    };
    let event_type = match EventType::parse(row.event_type.as_str()) {
        Ok(v) => v,
        Err(e) => return Err(AppError::InvalidData(e)),
    };
    let created_at = match parse_rfc3339(row.created_at.as_str()) {
        Ok(t) => t,
        Err(e) => return Err(AppError::InvalidData(e)),
    };
    Ok(IncidentEvent { id, event_type, message: row.message.clone(), created_at })
}

/// The `incidents` row that stores `inc`: the id as hyphenated UUID text,
/// the severity and status by their text forms, every other column as is.
pub open spec fn row_of(inc: IncidentView) -> IncidentRowView {
    IncidentRowView {
        id: uuid_text(inc.id),
        title: inc.title,
        description: inc.description,
        severity: severity_text(inc.severity),
        status: status_text(inc.status),
        created_at: inc.created_at,
        updated_at: inc.updated_at,
    }
}

/// The `incident_events` row that stores `ev` for incident `incident_id`.
pub open spec fn event_row_of(incident_id: u128, ev: EventView) -> EventRowView {
    EventRowView {
        id: uuid_text(ev.id),
        incident_id: uuid_text(incident_id),
        event_type: event_type_text(ev.event_type),
        message: ev.message,
        created_at: ev.created_at,
    }
}

/// A time text whose year is written with four digits (years 0 to 9999).
pub open spec fn four_digit_year(t: Seq<char>) -> bool {
    t.len() > 4 && t[4] == '-'
}

/// A time text that reading back gives unchanged (as every time the store
/// writes in UTC does, for years 0 to 9999).
pub open spec fn time_reads_back(t: Seq<char>) -> bool {
    rfc3339_parse_result(t) == Ok::<Seq<char>, Seq<char>>(t)
}

/// The row that stores an incident (without its timeline). Reading the row
/// back gives the incident again, whenever its times read back unchanged.
pub fn incident_to_row(inc: &Incident) -> (r: IncidentRow)
    ensures
        r@ == row_of(inc@),
        time_reads_back(inc@.created_at) && time_reads_back(inc@.updated_at)
            ==> incident_from_row(r@) == Ok::<IncidentView, Seq<char>>(with_events(inc@, Seq::empty())),
{
    let r = IncidentRow {
        id: uuid_to_text(inc.id),
        title: inc.title.clone(),
        description: clone_opt_text(&inc.description),
        severity: inc.severity.to_string(),
        status: inc.status.to_string(),
        created_at: inc.created_at.clone(),
        updated_at: inc.updated_at.clone(),
    };
    proof {
        lemma_severity_text_round_trip(inc.severity, severity_text(inc.severity));
        lemma_status_text_round_trip(inc.status, status_text(inc.status));
    }
    r
}

/// The row that stores timeline entry `ev` of incident `incident_id`.
/// Reading the row back gives the entry again, whenever its time reads back
/// unchanged.
pub fn event_to_row(incident_id: u128, ev: &IncidentEvent) -> (r: EventRow)
    ensures
        r@ == event_row_of(incident_id, ev@),
        time_reads_back(ev@.created_at) ==> event_from_row(r@) == Ok::<EventView, Seq<char>>(ev@),
{
    let r = EventRow {
        id: uuid_to_text(ev.id),
        incident_id: uuid_to_text(incident_id),
        event_type: ev.event_type.to_string(),
        message: ev.message.clone(),
        created_at: ev.created_at.clone(),
    };
    proof {
        lemma_event_type_text_round_trip(ev.event_type, event_type_text(ev.event_type));
    }
    r
}

/// The timeline of the incident whose id reads `id_text`: the event rows
/// with that incident id, read in order; the first one that does not read
/// fails the whole.
pub open spec fn timeline_from_rows(rows: Seq<EventRowView>, id_text: Seq<char>) -> Result<Seq<EventView>, Seq<char>>
    decreases rows.len(),
{
    if rows.len() == 0 {
        Ok(Seq::empty())
    } else if rows[0].incident_id == id_text {
        match event_from_row(rows[0]) {
            Err(e) => Err(e),
            Ok(ev) => match timeline_from_rows(rows.drop_first(), id_text) {
                Err(e) => Err(e),
                Ok(rest) => Ok(seq![ev] + rest),
            },
        }
    } else {
        timeline_from_rows(rows.drop_first(), id_text)
    }
}

/// `inc` with the timeline `events`.
pub open spec fn with_events(inc: IncidentView, events: Seq<EventView>) -> IncidentView {
    IncidentView {
        id: inc.id,
        title: inc.title,
        description: inc.description,
        severity: inc.severity,
        status: inc.status,
        created_at: inc.created_at,
        updated_at: inc.updated_at,
        events,
    }
}

/// Loading stored rows after the incidents `acc`: each incident row in
/// order is read, refused when its id is already loaded, and given its
/// timeline ordered by time; the first failure fails the whole.
pub open spec fn load_from(
    acc: Seq<IncidentView>,
    rows: Seq<IncidentRowView>,
    events: Seq<EventRowView>,
) -> Result<Seq<IncidentView>, AppErrorView>
    decreases rows.len(),
{
    if rows.len() == 0 {
        Ok(acc)
    } else {
        match incident_from_row(rows[0]) {
            Err(e) => Err(AppErrorView::InvalidData(e)),
            Ok(inc) => if has_incident(acc, inc.id) {
                Err(AppErrorView::Db(duplicate_id_message()))
            } else {
                match timeline_from_rows(events, uuid_text(inc.id)) {
                    Err(e) => Err(AppErrorView::InvalidData(e)),
                    Ok(evs) => load_from(acc.push(with_events(inc, sort_events(evs))), rows.drop_first(), events),
                }
            },
        }
    }
}

/// The views of a sequence of rows.
pub open spec fn rows_view<T: View>(rows: Seq<T>) -> Seq<T::V> {
    rows.map_values(|r: T| r@)
}

/// The timeline of the incident whose id reads `id_text`, read from the
/// event rows in their order.
pub fn list_events(events: &Vec<EventRow>, id_text: &str) -> (r: Result<Vec<IncidentEvent>, AppError>)
    ensures
        match r {
            Ok(v) => {
                &&& timeline_from_rows(rows_view(events@), id_text@) matches Ok(t)
                &&& events_view(v@) == sort_events(t)
                &&& keys_sorted(event_keys(events_view(v@)))
            },
            Err(e) => timeline_from_rows(rows_view(events@), id_text@) matches Err(m) && e@ == AppErrorView::InvalidData(m),
        },
{
    let ghost rows = rows_view(events@);
    let mut out: Vec<IncidentEvent> = Vec::new();
    let n = events.len();
    let mut j: usize = 0;
    proof {
        assert(rows.skip(0) =~= rows);
    }
    while j < n
        invariant
            n == events@.len(),
            rows == rows_view(events@),
            j <= n,
            timeline_from_rows(rows, id_text@) == match timeline_from_rows(rows.skip(j as int), id_text@) {
                Err(e) => Err(e),
                Ok(rest) => Ok::<Seq<EventView>, Seq<char>>(events_view(out@) + rest),
            },
        decreases n - j,
    {
        let ghost tail = rows.skip(j as int);
        proof {
            assert(tail.drop_first() =~= rows.skip(j + 1));
            assert(tail[0] == events@[j as int]@);
        }
        let row = &events[j];
        if same_text(row.incident_id.as_str(), id_text) {
            match row_to_event(row) {
                Err(e) => return Err(e),
                Ok(ev) => {
                    let ghost prev = out@;
                    let ghost evv = ev@;
                    out.push(ev);
                    proof {
                        assert(events_view(out@) =~= events_view(prev).push(evv));
                        match timeline_from_rows(rows.skip(j + 1), id_text@) {
                            Err(_) => {},
                            Ok(rest) => {
                                assert(events_view(prev) + (seq![evv] + rest) =~= events_view(out@) + rest);
                            },
                        }
                    }
                },
            }
        }
        j = j + 1;
    }
    proof {
        assert(rows.skip(n as int) =~= Seq::<EventRowView>::empty());
        assert(events_view(out@) + Seq::<EventView>::empty() =~= events_view(out@));
        lemma_sort_events(events_view(out@));
    }
    Ok(sort_timeline(&out))
}

/// The entries of `events` ordered by time, entries made at the same time
/// kept in the order of `events`.
fn sort_timeline(events: &Vec<IncidentEvent>) -> (r: Vec<IncidentEvent>)
    ensures
        events_view(r@) == sort_events(events_view(events@)),
{
    let ghost ev = events_view(events@);
    let mut r: Vec<IncidentEvent> = Vec::new();
    let n = events.len();
    let mut i: usize = 0;
    proof {
        assert(events_view(r@) =~= sort_events(ev.take(0)));
    }
    while i < n
        invariant
            n == events@.len(),
            ev == events_view(events@),
            i <= n,
            events_view(r@) == sort_events(ev.take(i as int)),
        decreases n - i,
    {
        let e = events[i].clone();
        let ghost evv = e@;
        let ghost ex = e;
        let ghost before = r@;
        proof {
            assert(ev.take(i + 1).drop_last() =~= ev.take(i as int));
            assert(ev.take(i + 1).last() == ev[i as int]);
            assert(evv == ev[i as int]);
        }
        let pos = event_position(&r, e.created_at.as_str());
        r.insert(pos, e);
        proof {
            before.insert_ensures(pos as int, ex);
            events_view(before).insert_ensures(pos as int, evv);
            assert(events_view(r@) =~= events_view(before).insert(pos as int, evv));
        }
        i = i + 1;
    }
    proof {
        assert(ev.take(n as int) =~= ev);
    }
    r
}

/// Whether some incident of `v` has the id `id`.
fn holds_id(v: &Vec<Incident>, id: u128) -> (r: bool)
    ensures
        r == has_incident(incidents_view(v@), id),
{
    let n = v.len();
    let mut i: usize = 0;
    while i < n
        invariant
            n == v@.len(),
            i <= n,
            forall|k: int| 0 <= k < i ==> #[trigger] v@[k].id != id,
        decreases n - i,
    {
        if v[i].id == id {
            proof {
                assert(incidents_view(v@)[i as int].id == id);
            }
            return true;
        }
        i = i + 1;
    }
    proof {
        assert forall|k: int| 0 <= k < incidents_view(v@).len() implies #[trigger] incidents_view(v@)[k].id != id by {
            assert(incidents_view(v@)[k].id == v@[k].id);
        }
    }
    false
}

impl IncidentStore {
    /// Builds a store from stored rows: the incident rows in order, each
    /// with the event rows that name it as its timeline; see `load_from`.
    /// Each loaded incident is what its row reads as, every column kept, with
    /// its timeline ordered by time; and the rows that a store writes load
    /// back as that very store (see `lemma_rows_load_back`).
    pub fn from_rows(rows: &Vec<IncidentRow>, events: &Vec<EventRow>) -> (r: Result<IncidentStore, AppError>)
        ensures
            match r {
                Ok(store) => {
                    &&& load_from(Seq::empty(), rows_view(rows@), rows_view(events@)) == Ok::<Seq<IncidentView>, AppErrorView>(store@)
                    &&& ids_unique(store@)
                    &&& timelines_sorted(store@)
                    &&& store@.len() == rows@.len()
                    &&& forall|i: int| 0 <= i < rows@.len() ==> incident_from_row(#[trigger] rows@[i]@) == Ok::<IncidentView, Seq<char>>(with_events(store@[i], Seq::empty()))
                    &&& forall|i: int| 0 <= i < rows@.len() ==> (#[trigger] timeline_from_rows(rows_view(events@), uuid_text(store@[i].id)) matches Ok(t) && store@[i].events == sort_events(t))
                },
                Err(e) => load_from(Seq::empty(), rows_view(rows@), rows_view(events@)) == Err::<Seq<IncidentView>, AppErrorView>(e@),
            },
            forall|s: Seq<IncidentView>|
                #![trigger store_rows(s), store_event_rows(s)]
                rows_view(rows@) == store_rows(s) && rows_view(events@) == store_event_rows(s) && ids_unique(s)
                    && timelines_sorted(s) && reads_back(s) ==> (r matches Ok(store) && store@ == s),
    {
        proof {
            assert forall|s: Seq<IncidentView>|
                #![trigger store_rows(s), store_event_rows(s)]
                rows_view(rows@) == store_rows(s) && rows_view(events@) == store_event_rows(s) && ids_unique(s)
                    && timelines_sorted(s) && reads_back(s) implies load_from(
                    Seq::empty(),
                    rows_view(rows@),
                    rows_view(events@),
                ) == Ok::<Seq<IncidentView>, AppErrorView>(s) by {
                lemma_rows_load_back(s);
            }
        }
        IncidentStore::read_rows(rows, events)
    }

    /// Reads the incident rows in order, each with the event rows that name
    /// it as its timeline; see `load_from`.
    fn read_rows(rows: &Vec<IncidentRow>, events: &Vec<EventRow>) -> (r: Result<IncidentStore, AppError>)
        ensures
            match r {
                Ok(store) => {
                    &&& load_from(Seq::empty(), rows_view(rows@), rows_view(events@)) == Ok::<Seq<IncidentView>, AppErrorView>(store@)
                    &&& ids_unique(store@)
                    &&& timelines_sorted(store@)
                    &&& store@.len() == rows@.len()
                    &&& forall|i: int| 0 <= i < rows@.len() ==> incident_from_row(#[trigger] rows@[i]@) == Ok::<IncidentView, Seq<char>>(with_events(store@[i], Seq::empty()))
                    &&& forall|i: int| 0 <= i < rows@.len() ==> (#[trigger] timeline_from_rows(rows_view(events@), uuid_text(store@[i].id)) matches Ok(t) && store@[i].events == sort_events(t))
                },
                Err(e) => load_from(Seq::empty(), rows_view(rows@), rows_view(events@)) == Err::<Seq<IncidentView>, AppErrorView>(e@),
            },
    {
        let ghost irows = rows_view(rows@);
        let ghost erows = rows_view(events@);
        let mut acc: Vec<Incident> = Vec::new();
        let n = rows.len();
        let mut j: usize = 0;
        proof {
            assert(irows.skip(0) =~= irows);
            assert(incidents_view(acc@) =~= Seq::<IncidentView>::empty());
        }
        while j < n
            invariant
                n == rows@.len(),
                irows == rows_view(rows@),
                erows == rows_view(events@),
                j <= n,
                ids_unique(incidents_view(acc@)),
                timelines_sorted(incidents_view(acc@)),
                load_from(Seq::empty(), irows, erows) == load_from(incidents_view(acc@), irows.skip(j as int), erows),
                acc@.len() == j,
                forall|i: int| 0 <= i < j ==> incident_from_row(#[trigger] rows@[i]@) == Ok::<IncidentView, Seq<char>>(with_events(incidents_view(acc@)[i], Seq::empty())),
                forall|i: int| 0 <= i < j ==> (#[trigger] timeline_from_rows(erows, uuid_text(incidents_view(acc@)[i].id)) matches Ok(t) && incidents_view(acc@)[i].events == sort_events(t)),
            decreases n - j,
        {
            let ghost tail = irows.skip(j as int);
            proof {
                assert(tail.drop_first() =~= irows.skip(j + 1));
                assert(tail[0] == rows@[j as int]@);
            }
            let mut inc = match row_to_incident_without_events(&rows[j]) {
                Err(e) => return Err(e),
                Ok(inc) => inc,
            };
            if holds_id(&acc, inc.id) {
                return Err(AppError::Db(owned("UNIQUE constraint failed: incidents.id")));
            }
            let id_text = uuid_to_text(inc.id);
            let timeline = match list_events(events, id_text.as_str()) {
                Err(e) => return Err(e),
                Ok(t) => t,
            };
            let ghost base = inc@;
            inc.events = timeline;
            proof {
                assert(inc@ == with_events(base, events_view(inc.events@)));
                assert(keys_sorted(event_keys(inc@.events)));
                assert(base.events =~= Seq::<EventView>::empty());
                assert(with_events(inc@, Seq::empty()) == base);
            }
            let ghost prev = incidents_view(acc@);
            acc.push(inc);
            proof {
                assert(incidents_view(acc@) =~= prev.push(inc@));
                let now = incidents_view(acc@);
                assert(now[j as int] == inc@);
                assert forall|i: int| 0 <= i < j + 1 implies incident_from_row(#[trigger] rows@[i]@) == Ok::<IncidentView, Seq<char>>(with_events(now[i], Seq::empty())) by {
                    if i < j {
                        assert(now[i] == prev[i]);
                    }
                }
                assert forall|i: int| 0 <= i < j + 1 implies (#[trigger] timeline_from_rows(erows, uuid_text(now[i].id)) matches Ok(t) && now[i].events == sort_events(t)) by {
                    if i < j {
                        assert(now[i] == prev[i]);
                    }
                }
                assert forall|a: int, b: int| 0 <= a < now.len() && 0 <= b < now.len() && #[trigger] now[a].id == #[trigger] now[b].id implies a == b by {
                    if a < prev.len() && b < prev.len() {
                        assert(prev[a].id == prev[b].id);
                    } else if a < prev.len() {
                        assert(prev[a].id == inc@.id);
                    } else if b < prev.len() {
                        assert(prev[b].id == inc@.id);
                    }
                }
                assert forall|k: int| 0 <= k < now.len() implies keys_sorted(event_keys(#[trigger] now[k].events)) by {
                    if k < prev.len() {
                        assert(now[k] == prev[k]);
                    }
                }
            }
            j = j + 1;
        }
        proof {
            assert(irows.skip(n as int) =~= Seq::<IncidentRowView>::empty());
        }
        let store = IncidentStore { incidents: acc };
        Ok(store)
    }
}

} // verus!
