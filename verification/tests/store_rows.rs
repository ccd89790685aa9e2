use incident_commander::domain::{EventType, IncidentStatus, Severity};
use incident_commander::infra::{
    add_note_at, create_incident, create_incident_at, event_to_row, get_incident_by_id, incident_to_row, get_timeline, list_events, list_incidents,
    row_to_event, row_to_incident_without_events, update_status_at, AppError, EventRow,
    IncidentRow, IncidentStore,
};
use incident_commander::text::trim;

const ID_A: u128 = 0x550e8400e29b41d4a716446655440000;
const ID_A_TEXT: &str = "550e8400-e29b-41d4-a716-446655440000";
const T0: &str = "2026-03-10T12:00:00+00:00";

fn incident_row(id: &str, severity: &str, status: &str) -> IncidentRow {
    IncidentRow {
        id: id.to_string(),
        title: "t".to_string(),
        description: None,
        severity: severity.to_string(),
        status: status.to_string(),
        created_at: T0.to_string(),
        updated_at: "2026-03-10T14:30:00+02:00".to_string(),
    }
}

fn event_row(id: &str, incident_id: &str, event_type: &str, message: &str) -> EventRow {
    EventRow {
        id: id.to_string(),
        incident_id: incident_id.to_string(),
        event_type: event_type.to_string(),
        message: message.to_string(),
        created_at: T0.to_string(),
    }
}

fn invalid_data(e: AppError) -> String {
    match e {
        AppError::InvalidData(m) => m,
        _ => panic!("expected invalid data"),
    }
}

#[test]
fn create_with_given_ids_and_time() {
    let mut db = IncidentStore::new();
    let inc = create_incident_at(&mut db, "Disk full", Some("node-3".into()), Severity::Medium, 1, 2, T0).unwrap();
    assert_eq!(inc.id, 1);
    assert_eq!(inc.created_at, T0);
    assert_eq!(inc.updated_at, T0);
    assert_eq!(inc.events.len(), 1);
    assert_eq!(inc.events[0].id, 2);
    assert_eq!(inc.events[0].message, "Incident created");
    assert_eq!(db.len(), 1);
    let again = create_incident_at(&mut db, "Other", None, Severity::Low, 1, 3, T0);
    match again {
        Err(AppError::Db(m)) => assert_eq!(m, "UNIQUE constraint failed: incidents.id"),
        _ => panic!("expected a storage error"),
    }
    assert_eq!(db.len(), 1);
}

#[test]
fn status_and_note_steps_record_time_and_entries() {
    let mut db = IncidentStore::new();
    create_incident_at(&mut db, "x", None, Severity::Low, 10, 11, T0).unwrap();
    let later = "2026-03-10T13:00:00+00:00";
    let acked = update_status_at(&mut db, 10, IncidentStatus::Acknowledged, 12, later).unwrap().unwrap();
    assert_eq!(acked.updated_at, later);
    assert_eq!(acked.created_at, T0);
    assert_eq!(acked.events[1].id, 12);
    let noted = add_note_at(&mut db, 10, "paged oncall".into(), 13, later).unwrap().unwrap();
    assert_eq!(noted.status, IncidentStatus::Acknowledged);
    assert_eq!(noted.events[2].event_type, EventType::NoteAdded);
    assert_eq!(noted.events[2].message, "paged oncall");
    assert!(add_note_at(&mut db, 99, "x".into(), 14, later).unwrap().is_none());
    assert!(update_status_at(&mut db, 99, IncidentStatus::Resolved, 14, later).unwrap().is_none());
    let back = update_status_at(&mut db, 10, IncidentStatus::Open, 15, later);
    match back {
        Err(AppError::InvalidTransition(m)) => assert_eq!(m, "acknowledged -> open"),
        _ => panic!("expected a refused transition"),
    }
    let timeline = get_timeline(&db, 10).unwrap().unwrap();
    assert_eq!(timeline.len(), 3);
    assert!(get_timeline(&db, 99).unwrap().is_none());
    assert!(get_incident_by_id(&db, 99).unwrap().is_none());
}

#[test]
fn sql_like_paging_with_negative_bounds() {
    let mut db = IncidentStore::new();
    for i in 0..4u128 {
        create_incident_at(&mut db, "x", None, Severity::Low, i, 100 + i, T0).unwrap();
    }
    assert_eq!(list_incidents(&db, None, None, -1, 0).unwrap().len(), 4);
    assert_eq!(list_incidents(&db, None, None, -1, -3).unwrap().len(), 4);
    assert_eq!(list_incidents(&db, None, None, 2, 3).unwrap().len(), 1);
    assert_eq!(list_incidents(&db, None, None, 0, 0).unwrap().len(), 0);
    let page = list_incidents(&db, None, Some(Severity::Low), 2, 1).unwrap();
    assert_eq!(page.iter().map(|i| i.id).collect::<Vec<_>>(), vec![1, 2]);
}

#[test]
fn incident_row_reads_back() {
    let inc = row_to_incident_without_events(&incident_row(ID_A_TEXT, "critical", "acknowledged")).unwrap();
    assert_eq!(inc.id, ID_A);
    assert_eq!(inc.severity, Severity::Critical);
    assert_eq!(inc.status, IncidentStatus::Acknowledged);
    assert_eq!(inc.created_at, T0);
    assert_eq!(inc.updated_at, "2026-03-10T12:30:00+00:00");
    assert!(inc.events.is_empty());
    let simple = row_to_incident_without_events(&incident_row("550e8400e29b41d4a716446655440000", "low", "open")).unwrap();
    assert_eq!(simple.id, ID_A);
}

#[test]
fn bad_incident_rows_are_invalid_data() {
    let e = row_to_incident_without_events(&incident_row(ID_A_TEXT, "urgent", "open")).err().unwrap();
    assert_eq!(invalid_data(e), "invalid severity: urgent");
    let e = row_to_incident_without_events(&incident_row(ID_A_TEXT, "low", "closed")).err().unwrap();
    assert_eq!(invalid_data(e), "invalid status: closed");
    let e = row_to_incident_without_events(&incident_row("not-a-uuid", "low", "open")).err().unwrap();
    assert!(!invalid_data(e).is_empty());
    let mut row = incident_row(ID_A_TEXT, "low", "open");
    row.created_at = "yesterday".to_string();
    let e = row_to_incident_without_events(&row).err().unwrap();
    assert!(!invalid_data(e).is_empty());
}

#[test]
fn event_rows_read_back_in_order() {
    let rows = vec![
        event_row("00000000-0000-0000-0000-000000000001", ID_A_TEXT, "created", "Incident created"),
        event_row("00000000-0000-0000-0000-000000000002", "other", "bogus", "ignored"),
        event_row("00000000-0000-0000-0000-000000000003", ID_A_TEXT, "note_added", "hi"),
    ];
    let events = list_events(&rows, ID_A_TEXT).unwrap();
    assert_eq!(events.len(), 2);
    assert_eq!(events[0].id, 1);
    assert_eq!(events[1].event_type, EventType::NoteAdded);
    let e = list_events(&rows, "other").err().unwrap();
    assert_eq!(invalid_data(e), "invalid event_type: bogus");
    let one = row_to_event(&rows[2]).unwrap();
    assert_eq!(one.message, "hi");
}

#[test]
fn store_loads_from_rows() {
    let rows = vec![
        incident_row(ID_A_TEXT, "high", "open"),
        incident_row("00000000-0000-0000-0000-0000000000ff", "low", "resolved"),
    ];
    let events = vec![
        event_row("00000000-0000-0000-0000-000000000001", ID_A_TEXT, "created", "Incident created"),
        event_row("00000000-0000-0000-0000-000000000002", "00000000-0000-0000-0000-0000000000ff", "created", "Incident created"),
        event_row("00000000-0000-0000-0000-000000000003", "00000000-0000-0000-0000-0000000000ff", "status_changed", "Status changed to resolved"),
    ];
    let db = IncidentStore::from_rows(&rows, &events).unwrap();
    assert_eq!(db.len(), 2);
    let b = get_incident_by_id(&db, 0xff).unwrap().unwrap();
    assert_eq!(b.events.len(), 2);
    assert_eq!(b.status, IncidentStatus::Resolved);
    let a = get_incident_by_id(&db, ID_A).unwrap().unwrap();
    assert_eq!(a.events.len(), 1);

    let dup = vec![incident_row(ID_A_TEXT, "high", "open"), incident_row(ID_A_TEXT, "low", "open")];
    assert!(matches!(IncidentStore::from_rows(&dup, &events), Err(AppError::Db(_))));
    let bad = vec![incident_row(ID_A_TEXT, "high", "pending")];
    assert!(matches!(IncidentStore::from_rows(&bad, &events), Err(AppError::InvalidData(_))));
}

#[test]
fn trim_removes_unicode_whitespace_at_both_ends() {
    assert_eq!(trim("  a b  "), "a b");
    assert_eq!(trim("\u{a0}\u{2003}x\u{85}"), "x");
    assert_eq!(trim(" \t\n "), "");
    assert_eq!(trim(""), "");
    assert_eq!(trim("x"), "x");
}

#[test]
fn listing_and_timelines_follow_creation_time() {
    let mut db = IncidentStore::new();
    create_incident_at(&mut db, "late", None, Severity::High, 1, 11, "2026-03-10T12:00:05+00:00").unwrap();
    create_incident_at(&mut db, "early", None, Severity::High, 2, 12, "2026-03-10T12:00:01+00:00").unwrap();
    create_incident_at(&mut db, "same", None, Severity::High, 3, 13, "2026-03-10T12:00:05+00:00").unwrap();
    let all = list_incidents(&db, None, None, -1, 0).unwrap();
    assert_eq!(all.iter().map(|i| i.id).collect::<Vec<_>>(), vec![2, 1, 3]);
    let second = list_incidents(&db, None, None, 1, 1).unwrap();
    assert_eq!(second[0].title, "late");

    let noted = add_note_at(&mut db, 1, "earlier clock".into(), 14, "2026-03-10T12:00:03+00:00").unwrap().unwrap();
    assert_eq!(noted.events.len(), 2);
    assert_eq!(noted.events[0].id, 14);
    assert_eq!(noted.events[1].event_type, EventType::Created);
    assert_eq!(noted.updated_at, "2026-03-10T12:00:03+00:00");
}

#[test]
fn loaded_timelines_are_ordered_by_time() {
    let mut late = event_row("00000000-0000-0000-0000-000000000002", ID_A_TEXT, "status_changed", "Status changed to acknowledged");
    late.created_at = "2026-03-10T13:00:00+00:00".to_string();
    let early = event_row("00000000-0000-0000-0000-000000000001", ID_A_TEXT, "created", "Incident created");
    let events = list_events(&vec![late, early], ID_A_TEXT).unwrap();
    assert_eq!(events[0].id, 1);
    assert_eq!(events[1].id, 2);
}

#[test]
fn stored_rows_read_back_as_written() {
    let mut db = IncidentStore::new();
    let inc = create_incident_at(&mut db, "Disk full", Some("node-3".into()), Severity::Critical, ID_A, 7, T0).unwrap();
    let row = incident_to_row(&inc);
    assert_eq!(row.id, ID_A_TEXT);
    assert_eq!(row.severity, "critical");
    assert_eq!(row.status, "open");
    let back = row_to_incident_without_events(&row).unwrap();
    assert_eq!(back.id, inc.id);
    assert_eq!(back.title, inc.title);
    assert_eq!(back.description, inc.description);
    assert_eq!(back.created_at, inc.created_at);
    let erow = event_to_row(inc.id, &inc.events[0]);
    assert_eq!(erow.incident_id, ID_A_TEXT);
    assert_eq!(erow.id, "00000000-0000-0000-0000-000000000007");
    assert_eq!(erow.event_type, "created");
    let ev = row_to_event(&erow).unwrap();
    assert_eq!(ev.id, 7);
    assert_eq!(ev.message, "Incident created");
}

#[test]
fn entry_id_in_use_is_a_storage_error_after_the_row_write() {
    let mut db = IncidentStore::new();
    create_incident_at(&mut db, "a", None, Severity::Low, 1, 50, T0).unwrap();
    // a second incident whose created entry reuses id 50
    match create_incident_at(&mut db, "b", None, Severity::Low, 2, 50, T0) {
        Err(AppError::Db(m)) => assert_eq!(m, "UNIQUE constraint failed: incident_events.id"),
        _ => panic!("expected a storage error"),
    }
    let b = get_incident_by_id(&db, 2).unwrap().unwrap();
    assert!(b.events.is_empty());
    // a status change whose entry reuses id 50: status written, entry refused
    let later = "2026-03-10T13:00:00+00:00";
    assert!(matches!(update_status_at(&mut db, 1, IncidentStatus::Resolved, 50, later), Err(AppError::Db(_))));
    let a = get_incident_by_id(&db, 1).unwrap().unwrap();
    assert_eq!(a.status, IncidentStatus::Resolved);
    assert_eq!(a.updated_at, later);
    assert_eq!(a.events.len(), 1);
    assert!(matches!(add_note_at(&mut db, 1, "n".into(), 50, later), Err(AppError::Db(_))));
    assert_eq!(get_incident_by_id(&db, 1).unwrap().unwrap().events.len(), 1);
}

#[test]
fn pages_concatenate_and_status_filter_refines_listing() {
    let mut db = IncidentStore::new();
    for i in 0..5u128 {
        create_incident_at(&mut db, "x", None, Severity::Low, i, 100 + i, T0).unwrap();
    }
    update_status_at(&mut db, 1, IncidentStatus::Acknowledged, 201, T0).unwrap();
    update_status_at(&mut db, 3, IncidentStatus::Resolved, 203, T0).unwrap();
    let whole: Vec<u128> = list_incidents(&db, None, None, -1, 0).unwrap().iter().map(|i| i.id).collect();
    assert_eq!(whole, vec![0, 1, 2, 3, 4]);
    let mut paged = Vec::new();
    for k in 0..3 {
        paged.extend(list_incidents(&db, None, None, 2, 2 * k).unwrap().iter().map(|i| i.id));
    }
    assert_eq!(paged, whole);
    let open: Vec<u128> = list_incidents(&db, Some(IncidentStatus::Open), None, -1, 0).unwrap().iter().map(|i| i.id).collect();
    assert_eq!(open, vec![0, 2, 4]);
}

#[test]
fn fresh_times_read_back_through_rows() {
    let mut db = IncidentStore::new();
    db.invariant_holds();
    let inc = create_incident(&mut db, "Clock", None, Severity::Medium).unwrap();
    assert_eq!(&inc.created_at[4..5], "-");
    let back = row_to_incident_without_events(&incident_to_row(&inc)).unwrap();
    assert_eq!(back.id, inc.id);
    assert_eq!(back.created_at, inc.created_at);
    assert_eq!(back.updated_at, inc.updated_at);
}
