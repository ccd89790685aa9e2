use incident_commander::api::{
    ack_incident, add_note, auth_middleware, create_incident, get_incident, get_timeline, health,
    list_incidents, resolve_incident, AppState, ApiResponse, ResponseBody,
};
use incident_commander::domain::{
    AddNoteRequest, CreateIncidentRequest, EventType, Incident, IncidentStatus, ListQuery, Severity,
};
use incident_commander::infra::IncidentStore;

fn setup_app(api_key: Option<String>) -> AppState {
    AppState { db: IncidentStore::new(), api_key }
}

fn request(title: &str, description: Option<&str>, severity: Severity) -> CreateIncidentRequest {
    CreateIncidentRequest {
        title: title.to_string(),
        description: description.map(|d| d.to_string()),
        severity,
    }
}

fn incident_of(res: &ApiResponse) -> &Incident {
    match &res.body {
        ResponseBody::Incident(inc) => inc,
        _ => panic!("expected an incident body"),
    }
}

fn error_of(res: &ApiResponse) -> String {
    match &res.body {
        ResponseBody::Error(e) => e.error.clone(),
        _ => panic!("expected an error body"),
    }
}

fn create(app: &mut AppState, title: &str, severity: Severity) -> u128 {
    let res = create_incident(app, request(title, Some("desc"), severity));
    assert_eq!(res.status, 201);
    incident_of(&res).id
}

fn list(app: &AppState, status: Option<IncidentStatus>, severity: Option<Severity>, limit: Option<i64>, offset: Option<i64>) -> ApiResponse {
    list_incidents(app, ListQuery { status, severity, limit, offset })
}

fn listed(res: &ApiResponse) -> &Vec<Incident> {
    match &res.body {
        ResponseBody::Incidents(v) => v,
        _ => panic!("expected a list body"),
    }
}

#[test]
fn health_returns_ok() {
    let res = health();
    assert_eq!(res.status, 200);
    match res.body {
        ResponseBody::Health { status, auth } => {
            assert_eq!(status, "ok");
            assert_eq!(auth, "x-api-key (optional via API_KEY env)");
        }
        _ => panic!("expected the health body"),
    }
}

#[test]
fn auth_required_when_api_key_set() {
    let app = setup_app(Some("secret123".into()));
    assert_eq!(auth_middleware(&app, None), Err(401));
    assert_eq!(auth_middleware(&app, Some("wrong")), Err(401));
    assert_eq!(auth_middleware(&app, Some("secret123")), Ok(()));
}

#[test]
fn no_key_set_lets_every_request_pass() {
    let app = setup_app(None);
    assert_eq!(auth_middleware(&app, None), Ok(()));
    assert_eq!(auth_middleware(&app, Some("anything")), Ok(()));
}

#[test]
fn empty_key_set_accepts_a_missing_header() {
    let app = setup_app(Some(String::new()));
    assert_eq!(auth_middleware(&app, None), Ok(()));
    assert_eq!(auth_middleware(&app, Some("x")), Err(401));
}

#[test]
fn create_incident_and_fetch_by_id() {
    let mut app = setup_app(Some("secret123".into()));
    assert_eq!(auth_middleware(&app, Some("secret123")), Ok(()));
    let res = create_incident(&mut app, request("DB latency", Some("p99 above SLO"), Severity::High));
    assert_eq!(res.status, 201);
    let created = incident_of(&res);
    assert_eq!(created.title, "DB latency");
    assert_eq!(created.description.as_deref(), Some("p99 above SLO"));
    assert_eq!(created.severity, Severity::High);
    assert_eq!(created.status, IncidentStatus::Open);
    assert_eq!(created.created_at, created.updated_at);
    let id = created.id;
    assert_eq!((id >> 76) & 0xf, 4);
    assert_eq!((id >> 62) & 0x3, 2);

    let got = get_incident(&app, id);
    assert_eq!(got.status, 200);
    assert_eq!(incident_of(&got).id, id);
    assert_eq!(incident_of(&got).title, "DB latency");
}

#[test]
fn create_incident_trims_the_title() {
    let mut app = setup_app(None);
    let res = create_incident(&mut app, request("  \tAPI down \n", None, Severity::Low));
    assert_eq!(res.status, 201);
    assert_eq!(incident_of(&res).title, "API down");
    assert_eq!(incident_of(&res).description, None);
}

#[test]
fn create_incident_empty_title_returns_bad_request() {
    let mut app = setup_app(None);
    let res = create_incident(&mut app, request("   ", Some("invalid"), Severity::Low));
    assert_eq!(res.status, 400);
    assert_eq!(error_of(&res), "title cannot be empty");
    assert_eq!(app.db.len(), 0);
}

#[test]
fn get_non_existing_incident_returns_not_found() {
    let app = setup_app(None);
    let res = get_incident(&app, 0);
    assert_eq!(res.status, 404);
    assert_eq!(error_of(&res), "incident 00000000-0000-0000-0000-000000000000 not found");
    let res = get_timeline(&app, 0xa1a2a3a4b1b2c1c2d1d2d3d4d5d6d7d8);
    assert_eq!(res.status, 404);
    assert_eq!(error_of(&res), "incident a1a2a3a4-b1b2-c1c2-d1d2-d3d4d5d6d7d8 not found");
}

#[test]
fn created_incident_contains_created_timeline_event() {
    let mut app = setup_app(None);
    let id = create(&mut app, "API 5xx spike", Severity::Critical);
    let res = get_timeline(&app, id);
    assert_eq!(res.status, 200);
    match &res.body {
        ResponseBody::Timeline(events) => {
            assert_eq!(events.len(), 1);
            assert_eq!(events[0].event_type, EventType::Created);
            assert_eq!(events[0].message, "Incident created");
            assert_eq!(events[0].event_type.to_string(), "created");
        }
        _ => panic!("expected a timeline"),
    }
}

#[test]
fn status_transition_flow_and_invalid_transition() {
    let mut app = setup_app(None);
    let id = create(&mut app, "DB outage", Severity::Critical);

    let ack = ack_incident(&mut app, id);
    assert_eq!(ack.status, 200);
    assert_eq!(incident_of(&ack).status, IncidentStatus::Acknowledged);

    let resolve = resolve_incident(&mut app, id);
    assert_eq!(resolve.status, 200);
    let resolved = incident_of(&resolve);
    assert_eq!(resolved.status, IncidentStatus::Resolved);
    assert_eq!(resolved.events.len(), 3);
    assert_eq!(resolved.events[1].message, "Status changed to acknowledged");
    assert_eq!(resolved.events[2].message, "Status changed to resolved");
    assert_eq!(resolved.events[2].event_type, EventType::StatusChanged);

    let back = ack_incident(&mut app, id);
    assert_eq!(back.status, 400);
    assert_eq!(error_of(&back), "invalid transition: resolved -> acknowledged");
    let after = get_incident(&app, id);
    assert_eq!(incident_of(&after).status, IncidentStatus::Resolved);
    assert_eq!(incident_of(&after).events.len(), 3);
}

#[test]
fn same_status_again_changes_nothing() {
    let mut app = setup_app(None);
    let id = create(&mut app, "Queue backlog", Severity::Medium);
    let first = ack_incident(&mut app, id);
    assert_eq!(incident_of(&first).events.len(), 2);
    let again = ack_incident(&mut app, id);
    assert_eq!(again.status, 200);
    assert_eq!(incident_of(&again).events.len(), 2);
}

#[test]
fn open_incident_can_be_resolved_directly() {
    let mut app = setup_app(None);
    let id = create(&mut app, "Cert expiry", Severity::Low);
    let res = resolve_incident(&mut app, id);
    assert_eq!(res.status, 200);
    assert_eq!(incident_of(&res).status, IncidentStatus::Resolved);
}

#[test]
fn status_change_of_unknown_incident_is_not_found() {
    let mut app = setup_app(None);
    assert_eq!(ack_incident(&mut app, 7).status, 404);
    assert_eq!(resolve_incident(&mut app, 7).status, 404);
}

#[test]
fn notes_append_to_timeline() {
    let mut app = setup_app(None);
    let id = create(&mut app, "API errors", Severity::High);
    let res = add_note(&mut app, id, AddNoteRequest { note: "Investigating ingress controller".into() });
    assert_eq!(res.status, 200);

    let timeline = get_timeline(&app, id);
    match &timeline.body {
        ResponseBody::Timeline(events) => {
            assert!(events.iter().any(|e| e.event_type.to_string() == "note_added"));
            let last = events.last().unwrap();
            assert_eq!(last.event_type, EventType::NoteAdded);
            assert_eq!(last.message, "Investigating ingress controller");
        }
        _ => panic!("expected a timeline"),
    }
}

#[test]
fn blank_note_is_refused_and_note_is_trimmed() {
    let mut app = setup_app(None);
    let id = create(&mut app, "API errors", Severity::High);
    let res = add_note(&mut app, id, AddNoteRequest { note: " \u{3000} ".into() });
    assert_eq!(res.status, 400);
    assert_eq!(error_of(&res), "note cannot be empty");
    let res = add_note(&mut app, id, AddNoteRequest { note: "  rolled back  ".into() });
    assert_eq!(res.status, 200);
    assert_eq!(incident_of(&res).events.last().unwrap().message, "rolled back");
    assert_eq!(add_note(&mut app, 1, AddNoteRequest { note: "x".into() }).status, 404);
}

#[test]
fn list_filters_and_pagination_work() {
    let mut app = setup_app(None);
    let _a = create(&mut app, "A", Severity::High);
    let b = create(&mut app, "B", Severity::Low);
    let _c = create(&mut app, "C", Severity::High);

    let ack_b = ack_incident(&mut app, b);
    assert_eq!(ack_b.status, 200);

    let filtered = list(&app, Some(IncidentStatus::Open), Some(Severity::High), Some(10), Some(0));
    assert_eq!(filtered.status, 200);
    assert_eq!(filtered.page, Some((10, 0)));
    let arr = listed(&filtered);
    assert_eq!(arr.len(), 2);
    assert!(arr.iter().all(|i| i.status == IncidentStatus::Open && i.severity == Severity::High));
    assert_eq!(arr[0].title, "A");
    assert_eq!(arr[1].title, "C");

    let paged = list(&app, None, None, Some(1), Some(1));
    assert_eq!(paged.status, 200);
    assert_eq!(listed(&paged).len(), 1);
    assert_eq!(listed(&paged)[0].title, "B");
}

#[test]
fn list_page_bounds_are_clamped() {
    let mut app = setup_app(None);
    for t in ["a", "b", "c"] {
        create(&mut app, t, Severity::Medium);
    }
    let res = list(&app, None, None, None, None);
    assert_eq!(res.page, Some((50, 0)));
    assert_eq!(listed(&res).len(), 3);
    let res = list(&app, None, None, Some(0), Some(-5));
    assert_eq!(res.page, Some((1, 0)));
    assert_eq!(listed(&res).len(), 1);
    let res = list(&app, None, None, Some(1000), Some(2));
    assert_eq!(res.page, Some((200, 2)));
    assert_eq!(listed(&res).len(), 1);
    let res = list(&app, None, None, Some(5), Some(9));
    assert_eq!(listed(&res).len(), 0);
    let res = list(&app, Some(IncidentStatus::Resolved), None, None, None);
    assert_eq!(listed(&res).len(), 0);
}
