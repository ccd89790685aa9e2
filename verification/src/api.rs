//! Request handling: the API key check, input validation, the HTTP status
//! and body of each answer. Transport (routing, JSON, headers) is left to
//! the server around the library.

use vstd::prelude::*;
use crate::domain::{
    AddNoteRequest, ApiError, CreateIncidentRequest, EventView, Incident, IncidentEvent,
    IncidentStatus, IncidentView, ListQuery, events_view, opt_text,
};
use crate::infra::{
    self, AppError, AppErrorView, IncidentStore, create_step, event_id_used, found_result, has_incident, holds_v4_id, ids_unique, is_v4,
    incidents_view, list_view, lookup, note_step, opened_incident, status_step,
};
use crate::laws::{
    create_answered, lemma_list_filters_and_pages, lemma_store_evolves_refl, note_answered, status_change_answered, status_changes_bounded,
    store_evolves,
};
use crate::outside::{uuid_text, uuid_to_text};
use crate::text::{join, owned, same_text, trim, trim_spec};

verus! {

/// What the handlers work on: the incident store and the API key that
/// requests must present, if one is set.
pub struct AppState {
    pub db: IncidentStore,
    pub api_key: Option<String>,
}

/// The body of an answer.
#[derive(Debug)]
pub enum ResponseBody {
    /// The health report: a status and a note on authentication.
    Health { status: String, auth: String },
    Incident(Incident),
    Incidents(Vec<Incident>),
    Timeline(Vec<IncidentEvent>),
    Error(ApiError),
}

/// The mathematical value of a [`ResponseBody`].
pub enum BodyView {
    Health { status: Seq<char>, auth: Seq<char> },
    Incident(IncidentView),
    Incidents(Seq<IncidentView>),
    Timeline(Seq<EventView>),
    Error(Seq<char>),
}

impl View for ResponseBody {
    type V = BodyView;

    open spec fn view(&self) -> BodyView {
        match self {
            ResponseBody::Health { status, auth } => BodyView::Health { status: status@, auth: auth@ },
            ResponseBody::Incident(inc) => BodyView::Incident(inc@),
            ResponseBody::Incidents(v) => BodyView::Incidents(incidents_view(v@)),
            ResponseBody::Timeline(v) => BodyView::Timeline(events_view(v@)),
            ResponseBody::Error(e) => BodyView::Error(e.error@),
        }
    }
}

/// An answer: the HTTP status code, the body, and for listings the page
/// size and start that were applied.
#[derive(Debug)]
pub struct ApiResponse {
    pub status: u16,
    pub body: ResponseBody,
    pub page: Option<(i64, i64)>,
}

/// The text an error is shown with.
pub open spec fn error_text(e: AppErrorView) -> Seq<char> {
    match e {
        AppErrorView::Db(_) => "database error"@,
        AppErrorView::InvalidData(m) => "invalid data: "@ + m,
        AppErrorView::InvalidTransition(m) => "invalid transition: "@ + m,
    }
}

/// The HTTP status an error is answered with: 400 for bad data or a refused
/// transition, 500 for a storage failure.
pub open spec fn error_status(e: AppErrorView) -> u16 {
    match e {
        AppErrorView::Db(_) => 500,
        AppErrorView::InvalidData(_) => 400,
        AppErrorView::InvalidTransition(_) => 400,
    }
}

/// The answer is `status` with an error body of text `text`, and no page.
pub open spec fn is_error_answer(r: ApiResponse, status: u16, text: Seq<char>) -> bool {
    &&& r.status == status
    &&& r.body@ == BodyView::Error(text)
    &&& r.page is None
}

/// The answer is `status` with the incident `inc`, and no page.
pub open spec fn is_incident_answer(r: ApiResponse, status: u16, inc: IncidentView) -> bool {
    &&& r.status == status
    &&& r.body@ == BodyView::Incident(inc)
    &&& r.page is None
}

/// The message of the answer for an unknown incident.
pub open spec fn not_found_text(id: u128) -> Seq<char> {
    "incident "@ + uuid_text(id) + " not found"@
}

impl AppError {
    /// The text of the error: `database error`, `invalid data: <detail>` or
    /// `invalid transition: <detail>`.
    pub fn message(&self) -> (r: String)
        ensures
            r@ == error_text(self@),
    {
        match self {
            AppError::Db(_) => owned("database error"),
            AppError::InvalidData(m) => join("invalid data: ", m.as_str()),
            AppError::InvalidTransition(m) => join("invalid transition: ", m.as_str()),
        }
    }

    /// The HTTP status of the error.
    pub fn status_code(&self) -> (r: u16)
        ensures
            r == error_status(self@),
    {
        match self {
            AppError::Db(_) => 500,
            AppError::InvalidData(_) => 400,
            AppError::InvalidTransition(_) => 400,
        }
    }

    /// The answer for the error: its status and its text.
    pub fn into_response(self) -> (r: ApiResponse)
        ensures
            is_error_answer(r, error_status(self@), error_text(self@)),
    {
        let status = self.status_code();
        let error = self.message();
        ApiResponse { status, body: ResponseBody::Error(ApiError { error }), page: None }
    }
}

/// An error answer with the given status and text.
fn error_answer(status: u16, text: &str) -> (r: ApiResponse)
    ensures
        is_error_answer(r, status, text@),
{
    ApiResponse { status, body: ResponseBody::Error(ApiError { error: owned(text) }), page: None }
}

/// An answer with one incident.
fn incident_answer(status: u16, inc: Incident) -> (r: ApiResponse)
    ensures
        is_incident_answer(r, status, inc@),
{
    ApiResponse { status, body: ResponseBody::Incident(inc), page: None }
}

/// The answer for an unknown incident: 404 with `incident <id> not found`.
fn not_found(id: u128) -> (r: ApiResponse)
    ensures
        is_error_answer(r, 404, not_found_text(id)),
{
    let text = join(&join("incident ", uuid_to_text(id).as_str()), " not found");
    ApiResponse { status: 404, body: ResponseBody::Error(ApiError { error: text }), page: None }
}

/// The key that a request presents, when the API key check is on.
pub open spec fn presented_key(presented: Option<&str>) -> Seq<char> {
    match presented {
        Some(k) => k@,
        None => Seq::empty(),
    }
}

/// The API key check: when a key is set, a request must present exactly
/// that key (no key counts as the empty text), else it is refused with 401;
/// when no key is set every request passes.
pub fn auth_middleware(state: &AppState, presented: Option<&str>) -> (r: Result<(), u16>)
    ensures
        match state.api_key {
            Some(k) => if k@ == presented_key(presented) {
                r is Ok
            } else {
                r == Err::<(), u16>(401)
            },
            None => r is Ok,
        },
{
    match &state.api_key {
        None => Ok(()),
        Some(expected) => {
            let got = match presented {
                Some(k) => k,
                None => {
                    proof {
                        reveal_strlit("");
                    }
                    ""
                },
            };
            assert(got@ =~= presented_key(presented));
            if same_text(got, expected.as_str()) {
                Ok(())
            } else {
                Err(401)
            }
        },
    }
}

/// The health report: 200, status `ok`, and a note on how authentication
/// works.
pub fn health() -> (r: ApiResponse)
    ensures
        r.status == 200,
        r.body@ == (BodyView::Health {
            status: "ok"@,
            auth: "x-api-key (optional via API_KEY env)"@,
        }),
        r.page is None,
{
    ApiResponse {
        status: 200,
        body: ResponseBody::Health {
            status: owned("ok"),
            auth: owned("x-api-key (optional via API_KEY env)"),
        },
        page: None,
    }
}

/// Opens an incident from a request. The title is trimmed of whitespace; a
/// title that is all whitespace is refused with 400 `title cannot be empty`
/// and nothing changes. Otherwise the incident is opened with the trimmed
/// title and answered with 201 (see `create_answered`): its ids are fresh,
/// so opening never fails.
pub fn create_incident(state: &mut AppState, payload: CreateIncidentRequest) -> (r: ApiResponse)
    ensures
        final(state).api_key == old(state).api_key,
        store_evolves(old(state).db@, final(state).db@),
        status_changes_bounded(old(state).db@) ==> status_changes_bounded(final(state).db@),
        ({
            let title = trim_spec(payload.title@);
            if title.len() == 0 {
                &&& is_error_answer(r, 400, "title cannot be empty"@)
                &&& final(state).db@ == old(state).db@
            } else if r.status == 201 {
                &&& r.body@ matches BodyView::Incident(inc)
                &&& r.page is None
                &&& !has_incident(old(state).db@, inc.id)
                &&& inc.events.len() == 1
                &&& inc == opened_incident(
                    inc.id,
                    title,
                    opt_text(payload.description),
                    payload.severity,
                    inc.events[0].id,
                    inc.created_at,
                )
                &&& final(state).db@ == old(state).db@.push(inc)
                &&& ids_unique(final(state).db@)
            } else {
                &&& is_error_answer(r, 500, "database error"@)
                &&& holds_v4_id(old(state).db@)
                &&& exists|id: u128, event_id: u128, now: Seq<char>|
                    is_v4(id) && is_v4(event_id) && final(state).db@ == (#[trigger] create_step(
                        old(state).db@,
                        title,
                        opt_text(payload.description),
                        payload.severity,
                        id,
                        event_id,
                        now,
                    )).0
            }
        }),
        trim_spec(payload.title@).len() > 0 ==> {
            &&& r.status == 201
            &&& r.body@ matches BodyView::Incident(inc)
            &&& create_answered(
                old(state).db@,
                final(state).db@,
                trim_spec(payload.title@),
                opt_text(payload.description),
                payload.severity,
                Ok::<IncidentView, AppErrorView>(inc),
            )
        },
{
    let title = trim(payload.title.as_str());
    if title.as_str().is_empty() {
        proof {
            lemma_store_evolves_refl(state.db@);
        }
        return error_answer(400, "title cannot be empty");
    }
    match infra::create_incident(&mut state.db, title.as_str(), payload.description, payload.severity) {
        Ok(inc) => incident_answer(201, inc),
        Err(e) => e.into_response(),
    }
}

/// The page size a listing uses: the requested one (50 when absent) brought
/// into 1 to 200.
pub open spec fn page_limit(requested: Option<i64>) -> i64 {
    let l = match requested {
        Some(l) => l,
        None => 50,
    };
    if l < 1 {
        1
    } else if l > 200 {
        200
    } else {
        l
    }
}

/// The page start a listing uses: the requested one (0 when absent), never
/// negative.
pub open spec fn page_offset(requested: Option<i64>) -> i64 {
    let o = match requested {
        Some(o) => o,
        None => 0,
    };
    if o < 0 {
        0
    } else {
        o
    }
}

/// The page size is the requested one whenever it lies in 1 to 200, the
/// nearer bound otherwise, and 50 when none is asked for; the page start is
/// the requested one unless negative, and 0 when none is asked for.
pub proof fn lemma_page_limit_and_offset(l: i64, o: i64)
    ensures
        1 <= l <= 200 ==> page_limit(Some(l)) == l,
        l < 1 ==> page_limit(Some(l)) == 1,
        l > 200 ==> page_limit(Some(l)) == 200,
        page_limit(None) == 50,
        1 <= page_limit(Some(l)) <= 200,
        o >= 0 ==> page_offset(Some(o)) == o,
        o < 0 ==> page_offset(Some(o)) == 0,
        page_offset(None) == 0,
{
}

/// Lists incidents: 200 with the page of the incidents that pass the
/// query's filters, and the page size and start that were applied.
pub fn list_incidents(state: &AppState, query: ListQuery) -> (r: ApiResponse)
    ensures
        r.status == 200,
        r.page == Some((page_limit(query.limit), page_offset(query.offset))),
        r.body@ == BodyView::Incidents(
            list_view(
                state.db@,
                query.status,
                query.severity,
                page_limit(query.limit),
                page_offset(query.offset),
            ),
        ),
        r.page matches Some((lim, off)) && {
            &&& 1 <= lim <= 200
            &&& 0 <= off
            &&& (query.limit is None ==> lim == 50)
            &&& (forall|l: i64| query.limit == Some(l) && 1 <= l <= 200 ==> lim == l)
            &&& (forall|l: i64| query.limit == Some(l) && l < 1 ==> lim == 1)
            &&& (forall|l: i64| query.limit == Some(l) && l > 200 ==> lim == 200)
            &&& (query.offset is None ==> off == 0)
            &&& (forall|o: i64| query.offset == Some(o) && o >= 0 ==> off == o)
            &&& (forall|o: i64| query.offset == Some(o) && o < 0 ==> off == 0)
            &&& (r.body@ matches BodyView::Incidents(v) && v.len() <= lim)
        },
{
    let requested_limit = match query.limit {
        Some(l) => l,
        None => 50,
    };
    let limit = if requested_limit < 1 {
        1
    } else if requested_limit > 200 {
        200
    } else {
        requested_limit
    };
    let requested_offset = match query.offset {
        Some(o) => o,
        None => 0,
    };
    let offset = if requested_offset < 0 {
        0
    } else {
        requested_offset
    };
    proof {
        lemma_list_filters_and_pages(state.db@, query.status, query.severity, limit, offset);
    }
    match infra::list_incidents(&state.db, query.status, query.severity, limit, offset) {
        Ok(v) => ApiResponse { status: 200, body: ResponseBody::Incidents(v), page: Some((limit, offset)) },
        Err(e) => e.into_response(),
    }
}

/// Looks up an incident: 200 with it, or 404 when there is none.
pub fn get_incident(state: &AppState, id: u128) -> (r: ApiResponse)
    ensures
        match lookup(state.db@, id) {
            Some(inc) => is_incident_answer(r, 200, inc),
            None => is_error_answer(r, 404, not_found_text(id)),
        },
{
    match infra::get_incident_by_id(&state.db, id) {
        Ok(Some(inc)) => incident_answer(200, inc),
        Ok(None) => not_found(id),
        Err(e) => e.into_response(),
    }
}

/// Reads an incident's timeline: 200 with it, or 404 when there is no such
/// incident.
pub fn get_timeline(state: &AppState, id: u128) -> (r: ApiResponse)
    ensures
        match lookup(state.db@, id) {
            Some(inc) => r.status == 200 && r.body@ == BodyView::Timeline(inc.events) && r.page is None,
            None => is_error_answer(r, 404, not_found_text(id)),
        },
{
    match infra::get_timeline(&state.db, id) {
        Ok(Some(events)) => ApiResponse { status: 200, body: ResponseBody::Timeline(events), page: None },
        Ok(None) => not_found(id),
        Err(e) => e.into_response(),
    }
}

/// The answer to a change of an incident, given the outcome of its step: 200
/// with the incident, 404 when there is none, or the error's answer (400
/// for a refused transition, 500 for a storage failure).
pub open spec fn status_answer(r: ApiResponse, outcome: Result<Option<IncidentView>, AppErrorView>, id: u128) -> bool {
    match outcome {
        Ok(Some(inc)) => is_incident_answer(r, 200, inc),
        Ok(None) => is_error_answer(r, 404, not_found_text(id)),
        Err(e) => is_error_answer(r, error_status(e), error_text(e)),
    }
}

/// Moves an incident to `status` and answers with the outcome.
fn change_status(state: &mut AppState, id: u128, status: IncidentStatus) -> (r: ApiResponse)
    ensures
        final(state).api_key == old(state).api_key,
        store_evolves(old(state).db@, final(state).db@),
        status_changes_bounded(old(state).db@) ==> status_changes_bounded(final(state).db@),
        exists|event_id: u128, now: Seq<char>|
            is_v4(event_id) && {
                let (s, outcome) = #[trigger] status_step(old(state).db@, id, status, event_id, now);
                &&& !event_id_used(old(state).db@, event_id)
                &&& final(state).db@ == s
                &&& status_answer(r, outcome, id)
            },
        exists|outcome: Result<Option<IncidentView>, AppErrorView>|
            status_change_answered(old(state).db@, final(state).db@, id, status, outcome) && #[trigger] status_answer(
                r,
                outcome,
                id,
            ),
{
    let res = infra::update_status(&mut state.db, id, status);
    let ghost outcome = found_result(res);
    let r = match res {
        Ok(Some(inc)) => incident_answer(200, inc),
        Ok(None) => not_found(id),
        Err(e) => e.into_response(),
    };
    proof {
        assert(status_answer(r, outcome, id));
    }
    r
}

/// Acknowledges an incident; see `status_step` and `status_answer`.
pub fn ack_incident(state: &mut AppState, id: u128) -> (r: ApiResponse)
    ensures
        final(state).api_key == old(state).api_key,
        store_evolves(old(state).db@, final(state).db@),
        status_changes_bounded(old(state).db@) ==> status_changes_bounded(final(state).db@),
        exists|event_id: u128, now: Seq<char>|
            is_v4(event_id) && {
                let (s, outcome) = #[trigger] status_step(
                    old(state).db@,
                    id,
                    IncidentStatus::Acknowledged,
                    event_id,
                    now,
                );
                &&& !event_id_used(old(state).db@, event_id)
                &&& final(state).db@ == s
                &&& status_answer(r, outcome, id)
            },
        exists|outcome: Result<Option<IncidentView>, AppErrorView>|
            status_change_answered(old(state).db@, final(state).db@, id, IncidentStatus::Acknowledged, outcome)
                && #[trigger] status_answer(r, outcome, id),
{
    change_status(state, id, IncidentStatus::Acknowledged)
}

/// Resolves an incident; see `status_step` and `status_answer`.
pub fn resolve_incident(state: &mut AppState, id: u128) -> (r: ApiResponse)
    ensures
        final(state).api_key == old(state).api_key,
        store_evolves(old(state).db@, final(state).db@),
        status_changes_bounded(old(state).db@) ==> status_changes_bounded(final(state).db@),
        exists|event_id: u128, now: Seq<char>|
            is_v4(event_id) && {
                let (s, outcome) = #[trigger] status_step(
                    old(state).db@,
                    id,
                    IncidentStatus::Resolved,
                    event_id,
                    now,
                );
                &&& !event_id_used(old(state).db@, event_id)
                &&& final(state).db@ == s
                &&& status_answer(r, outcome, id)
            },
        exists|outcome: Result<Option<IncidentView>, AppErrorView>|
            status_change_answered(old(state).db@, final(state).db@, id, IncidentStatus::Resolved, outcome)
                && #[trigger] status_answer(r, outcome, id),
{
    change_status(state, id, IncidentStatus::Resolved)
}

/// Adds a note to an incident. The note is trimmed of whitespace; a note
/// that is all whitespace is refused with 400 `note cannot be empty` and
/// nothing changes. Otherwise the trimmed note is added (see `note_step`)
/// and the answer is 200 with the incident, whatever its status, or 404
/// when there is none (see `note_answered`).
pub fn add_note(state: &mut AppState, id: u128, payload: AddNoteRequest) -> (r: ApiResponse)
    ensures
        final(state).api_key == old(state).api_key,
        store_evolves(old(state).db@, final(state).db@),
        status_changes_bounded(old(state).db@) ==> status_changes_bounded(final(state).db@),
        ({
            let note = trim_spec(payload.note@);
            if note.len() == 0 {
                &&& is_error_answer(r, 400, "note cannot be empty"@)
                &&& final(state).db@ == old(state).db@
            } else {
                exists|event_id: u128, now: Seq<char>|
                    is_v4(event_id) && {
                        let (s, outcome) = #[trigger] note_step(old(state).db@, id, note, event_id, now);
                        &&& !event_id_used(old(state).db@, event_id)
                        &&& final(state).db@ == s
                        &&& status_answer(r, outcome, id)
                    }
            }
        }),
        trim_spec(payload.note@).len() > 0 ==> exists|outcome: Result<Option<IncidentView>, AppErrorView>|
            note_answered(old(state).db@, final(state).db@, id, trim_spec(payload.note@), outcome)
                && #[trigger] status_answer(r, outcome, id),
{
    let note = trim(payload.note.as_str());
    if note.as_str().is_empty() {
        proof {
            lemma_store_evolves_refl(state.db@);
        }
        return error_answer(400, "note cannot be empty");
    }
    let res = infra::add_note(&mut state.db, id, note);
    let ghost outcome = found_result(res);
    let r = match res {
        Ok(Some(inc)) => incident_answer(200, inc),
        Ok(None) => not_found(id),
        Err(e) => e.into_response(),
    };
    proof {
        assert(status_answer(r, outcome, id));
    }
    r
}

} // verus!
