use incident_commander::domain::{EventType, IncidentStatus, Severity};

const STATUSES: [IncidentStatus; 3] = [IncidentStatus::Open, IncidentStatus::Acknowledged, IncidentStatus::Resolved];

#[test]
fn transition_table() {
    let allowed = [
        (IncidentStatus::Open, IncidentStatus::Acknowledged),
        (IncidentStatus::Open, IncidentStatus::Resolved),
        (IncidentStatus::Acknowledged, IncidentStatus::Resolved),
    ];
    for from in STATUSES {
        for to in STATUSES {
            assert_eq!(from.can_transition_to(&to), allowed.contains(&(from, to)), "{:?} -> {:?}", from, to);
        }
    }
}

#[test]
fn no_status_moves_to_itself_and_resolved_is_final() {
    for s in STATUSES {
        assert!(!s.can_transition_to(&s));
        assert!(!IncidentStatus::Resolved.can_transition_to(&s));
    }
}

#[test]
fn status_text_forms_round_trip() {
    assert_eq!(IncidentStatus::Open.to_string(), "open");
    assert_eq!(IncidentStatus::Acknowledged.as_str(), "acknowledged");
    assert_eq!(IncidentStatus::Resolved.to_string(), "resolved");
    for s in STATUSES {
        assert_eq!(IncidentStatus::parse(s.as_str()), Ok(s));
        assert_eq!(s.to_string().parse::<IncidentStatus>(), Ok(s));
    }
    assert_eq!(IncidentStatus::parse("Open"), Err("invalid status: Open".to_string()));
    assert_eq!(IncidentStatus::parse(""), Err("invalid status: ".to_string()));
}

#[test]
fn severity_text_forms_round_trip() {
    let all = [Severity::Low, Severity::Medium, Severity::High, Severity::Critical];
    let texts = ["low", "medium", "high", "critical"];
    for (s, t) in all.iter().zip(texts.iter()) {
        assert_eq!(s.as_str(), *t);
        assert_eq!(s.to_string(), *t);
        assert_eq!(Severity::parse(t), Ok(*s));
    }
    assert_eq!(Severity::parse("urgent"), Err("invalid severity: urgent".to_string()));
    assert_eq!("high".parse::<Severity>(), Ok(Severity::High));
}

#[test]
fn event_type_text_forms_round_trip() {
    let all = [EventType::Created, EventType::StatusChanged, EventType::NoteAdded];
    let texts = ["created", "status_changed", "note_added"];
    for (e, t) in all.iter().zip(texts.iter()) {
        assert_eq!(e.as_str(), *t);
        assert_eq!(e.to_string(), *t);
        assert_eq!(EventType::parse(t), Ok(*e));
    }
    assert_eq!(EventType::parse("statusChanged"), Err("invalid event_type: statusChanged".to_string()));
    assert_eq!("note_added".parse::<EventType>(), Ok(EventType::NoteAdded));
}
