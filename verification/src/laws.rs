//! Laws of the incident store, proved over the step functions that specify
//! its operations, and over the rows it is stored in and reloaded from.

use vstd::prelude::*;
use crate::domain::{
    event_type_text, lemma_event_type_text_round_trip, lemma_severity_text_round_trip,
    lemma_status_text_round_trip, severity_text, status_rank, status_text, transition_allowed, EventType,
    EventView, IncidentStatus, IncidentView, Severity,
};
use crate::infra::{
    create_step, created_message, has_incident, ids_unique, index_of, list_view, lookup, matching,
    note_step, opened_incident, page_start, passes_filter, status_changed_message,
    status_step, AppErrorView, created_keys, event_id_used, event_keys, insert_incident, insert_event, lemma_insert_event, lemma_sort_incidents,
    sort_incidents, transition_message, event_from_row, event_row_of, incident_from_row, load_from, row_of,
    sort_events, time_reads_back, timeline_from_rows, timelines_sorted, with_events, EventRowView, IncidentRowView,
};
use crate::outside::{uuid_parse_result, uuid_text};
use crate::order::{insert_pos, lemma_insert_pos};
use crate::order::keys_sorted;
use crate::text::{lemma_text_order, text_le, text_lt};

verus! {

/// How one incident may evolve: same id, title, description, severity and
/// opening time; its timeline only grows, keeping every entry it had; its
/// status stays or moves by an allowed transition.
pub open spec fn incident_evolves(a: IncidentView, b: IncidentView) -> bool {
    &&& b.id == a.id
    &&& b.title == a.title
    &&& b.description == a.description
    &&& b.severity == a.severity
    &&& b.created_at == a.created_at
    &&& a.events.len() <= b.events.len()
    &&& forall|k: int| 0 <= k < a.events.len() ==> b.events.contains(#[trigger] a.events[k])
    &&& (b.status == a.status || transition_allowed(a.status, b.status))
}

/// How the store may evolve: no incident is removed or reordered, each one
/// evolves as `incident_evolves` allows, and new incidents come at the end.
pub open spec fn store_evolves(s: Seq<IncidentView>, t: Seq<IncidentView>) -> bool {
    &&& s.len() <= t.len()
    &&& forall|i: int| 0 <= i < s.len() ==> incident_evolves(#[trigger] s[i], t[i])
}

proof fn lemma_incident_evolves_refl(a: IncidentView)
    ensures
        incident_evolves(a, a),
{
    assert forall|k: int| 0 <= k < a.events.len() implies a.events.contains(#[trigger] a.events[k]) by {
    }
}

proof fn lemma_index_of(s: Seq<IncidentView>, id: u128)
    requires
        has_incident(s, id),
    ensures
        0 <= index_of(s, id) < s.len(),
        s[index_of(s, id)].id == id,
{
}

/// What was written is read back: after an incident is added to a store
/// whose ids stay unique, looking up its id gives exactly that incident.
pub proof fn lemma_lookup_after_push(s: Seq<IncidentView>, inc: IncidentView)
    requires
        ids_unique(s.push(inc)),
    ensures
        lookup(s.push(inc), inc.id) == Some(inc),
{
    let t = s.push(inc);
    assert(t[s.len() as int].id == inc.id);
    assert(has_incident(t, inc.id));
    let k = index_of(t, inc.id);
    assert(t[k].id == t[s.len() as int].id);
}

/// An incident that has just been opened, with ids not yet in use, can be
/// looked up by its id at once; it is `open`, and its timeline is one
/// `created` entry.
pub proof fn lemma_created_incident_is_found(
    s: Seq<IncidentView>,
    title: Seq<char>,
    description: Option<Seq<char>>,
    severity: Severity,
    id: u128,
    event_id: u128,
    now: Seq<char>,
)
    requires
        ids_unique(s),
        !has_incident(s, id),
        !event_id_used(s, event_id),
    ensures
        create_step(s, title, description, severity, id, event_id, now).1 is Ok,
        ({
            let (t, r) = create_step(s, title, description, severity, id, event_id, now);
            let inc = r->Ok_0;
            &&& lookup(t, id) == Some(inc)
            &&& inc.status == IncidentStatus::Open
            &&& inc.events.len() == 1
            &&& inc.events[0].event_type == EventType::Created
            &&& inc.events[0].message == created_message()
            &&& ids_unique(t)
            &&& t.len() == s.len() + 1
        }),
{
    let t = s.push(opened_incident(id, title, description, severity, event_id, now));
    assert(t[s.len() as int].id == id);
    assert(has_incident(t, id));
    let k = index_of(t, id);
    assert(k == s.len()) by {
        if k < s.len() {
            assert(s[k].id == id);
        }
    }
    assert forall|a: int, b: int| 0 <= a < t.len() && 0 <= b < t.len() && #[trigger] t[a].id == #[trigger] t[b].id implies a == b by {
        if a < s.len() && b < s.len() {
            assert(s[a].id == s[b].id);
        } else if a < s.len() {
            assert(s[a].id == id);
        } else if b < s.len() {
            assert(s[b].id == id);
        }
    }
}

/// Opening an incident with an id that is already in use changes nothing and
/// is refused with a storage error.
pub proof fn lemma_create_with_used_id_is_refused(
    s: Seq<IncidentView>,
    title: Seq<char>,
    description: Option<Seq<char>>,
    severity: Severity,
    id: u128,
    event_id: u128,
    now: Seq<char>,
)
    requires
        has_incident(s, id),
    ensures
        create_step(s, title, description, severity, id, event_id, now).0 == s,
        create_step(s, title, description, severity, id, event_id, now).1 is Err,
{
}

/// Asking for the status an incident already has changes nothing and gives
/// the incident back.
pub proof fn lemma_same_status_is_no_op(s: Seq<IncidentView>, id: u128, event_id: u128, now: Seq<char>)
    requires
        lookup(s, id) is Some,
    ensures
        ({
            let status = lookup(s, id)->Some_0.status;
            status_step(s, id, status, event_id, now) == (s, Ok::<Option<IncidentView>, AppErrorView>(lookup(s, id)))
        }),
{
}

/// A status change to a different status, with an entry id not yet in use,
/// succeeds exactly when the lifecycle allows it; then the incident has the
/// new status and its timeline gains one `status_changed` entry naming it,
/// placed by time, and nothing else in the store changes (so the only entry
/// id newly in use is the new entry's). When refused, nothing changes.
pub proof fn lemma_status_change(
    s: Seq<IncidentView>,
    id: u128,
    status: IncidentStatus,
    event_id: u128,
    now: Seq<char>,
)
    requires
        ids_unique(s),
        lookup(s, id) matches Some(cur) && cur.status != status,
        !event_id_used(s, event_id),
    ensures
        ({
            let cur = lookup(s, id)->Some_0;
            let (t, r) = status_step(s, id, status, event_id, now);
            &&& (r is Ok <==> transition_allowed(cur.status, status))
            &&& (r is Err ==> t == s)
            &&& (r is Ok ==> {
                &&& r->Ok_0 == lookup(t, id)
                &&& lookup(t, id) matches Some(next)
                &&& next.status == status
                &&& next.events == insert_event(
                    cur.events,
                    EventView {
                        id: event_id,
                        event_type: EventType::StatusChanged,
                        message: status_changed_message(status),
                        created_at: now,
                    },
                )
                &&& t.len() == s.len()
                &&& forall|j: int| 0 <= j < s.len() && s[j].id != id ==> t[j] == s[j]
                &&& forall|x: u128| event_id_used(t, x) ==> event_id_used(s, x) || x == event_id
            })
        }),
{
    lemma_index_of(s, id);
    let i = index_of(s, id);
    let (t, r) = status_step(s, id, status, event_id, now);
    if r is Ok {
        let ev = EventView {
            id: event_id,
            event_type: EventType::StatusChanged,
            message: status_changed_message(status),
            created_at: now,
        };
        lemma_insert_event(s[i].events, ev);
        assert forall|x: u128| event_id_used(t, x) implies event_id_used(s, x) || x == event_id by {
            let (a, k) = choose|a: int, k: int| 0 <= a < t.len() && 0 <= k < t[a].events.len() && #[trigger] t[a].events[k].id == x;
            if a != i {
                assert(t[a] == s[a]);
                assert(s[a].events[k].id == x);
            } else if t[a].events[k] != ev {
                let c = choose|c: int| 0 <= c < s[i].events.len() && s[i].events[c] == t[a].events[k];
                assert(s[i].events[c].id == x);
            }
        }
        assert(t[i].id == id);
        assert(has_incident(t, id));
        let k = index_of(t, id);
        assert(k == i) by {
            if k != i {
                assert(t[k].id == s[k].id);
                assert(s[k].id == s[i].id);
            }
        }
    }
}

/// The lifecycle of an incident through status changes (with entry ids not
/// yet in use): from `open`, acknowledging succeeds, then resolving succeeds, and after that moving
/// back to `acknowledged` is refused with the message
/// `resolved -> acknowledged` and changes nothing.
pub proof fn lemma_ack_resolve_then_back_is_refused(
    s: Seq<IncidentView>,
    id: u128,
    e1: u128,
    e2: u128,
    e3: u128,
    t1: Seq<char>,
    t2: Seq<char>,
    t3: Seq<char>,
)
    requires
        ids_unique(s),
        lookup(s, id) matches Some(cur) && cur.status == IncidentStatus::Open,
        !event_id_used(s, e1),
        !event_id_used(s, e2),
        e1 != e2,
    ensures
        ({
            let (s1, r1) = status_step(s, id, IncidentStatus::Acknowledged, e1, t1);
            let (s2, r2) = status_step(s1, id, IncidentStatus::Resolved, e2, t2);
            let (s3, r3) = status_step(s2, id, IncidentStatus::Acknowledged, e3, t3);
            &&& r1 matches Ok(Some(a)) && a.status == IncidentStatus::Acknowledged
            &&& r2 matches Ok(Some(b)) && b.status == IncidentStatus::Resolved
            &&& r3 == Err::<Option<IncidentView>, AppErrorView>(
                AppErrorView::InvalidTransition(
                    crate::infra::transition_message(IncidentStatus::Resolved, IncidentStatus::Acknowledged),
                ),
            )
            &&& s3 == s2
        }),
{
    lemma_status_change(s, id, IncidentStatus::Acknowledged, e1, t1);
    let (s1, r1) = status_step(s, id, IncidentStatus::Acknowledged, e1, t1);
    lemma_status_step_keeps_ids_unique(s, id, IncidentStatus::Acknowledged, e1, t1);
    assert(!event_id_used(s1, e2)) by {
        if event_id_used(s1, e2) {
            assert(event_id_used(s, e2) || e2 == e1);
        }
    }
    lemma_status_change(s1, id, IncidentStatus::Resolved, e2, t2);
    let (s2, r2) = status_step(s1, id, IncidentStatus::Resolved, e2, t2);
    lemma_status_step_keeps_ids_unique(s1, id, IncidentStatus::Resolved, e2, t2);
    assert(lookup(s2, id) matches Some(b) && b.status == IncidentStatus::Resolved);
}

/// A status step keeps ids unique.
pub proof fn lemma_status_step_keeps_ids_unique(
    s: Seq<IncidentView>,
    id: u128,
    status: IncidentStatus,
    event_id: u128,
    now: Seq<char>,
)
    requires
        ids_unique(s),
    ensures
        ids_unique(status_step(s, id, status, event_id, now).0),
{
    let t = status_step(s, id, status, event_id, now).0;
    if has_incident(s, id) {
        lemma_index_of(s, id);
        assert forall|a: int, b: int| 0 <= a < t.len() && 0 <= b < t.len() && #[trigger] t[a].id == #[trigger] t[b].id implies a == b by {
            assert(t[a].id == s[a].id);
            assert(t[b].id == s[b].id);
        }
    }
}

/// A note step keeps ids unique.
pub proof fn lemma_note_step_keeps_ids_unique(
    s: Seq<IncidentView>,
    id: u128,
    note: Seq<char>,
    event_id: u128,
    now: Seq<char>,
)
    requires
        ids_unique(s),
    ensures
        ids_unique(note_step(s, id, note, event_id, now).0),
{
    let t = note_step(s, id, note, event_id, now).0;
    if has_incident(s, id) {
        lemma_index_of(s, id);
        assert forall|a: int, b: int| 0 <= a < t.len() && 0 <= b < t.len() && #[trigger] t[a].id == #[trigger] t[b].id implies a == b by {
            assert(t[a].id == s[a].id);
            assert(t[b].id == s[b].id);
        }
    }
}

/// Adding a note to an incident, with an entry id not yet in use, places a
/// `note_added` entry holding the note in its timeline by time and keeps its
/// status; a note for an unknown incident changes nothing.
pub proof fn lemma_note_appends_to_timeline(
    s: Seq<IncidentView>,
    id: u128,
    note: Seq<char>,
    event_id: u128,
    now: Seq<char>,
)
    requires
        ids_unique(s),
        !event_id_used(s, event_id),
    ensures
        ({
            let (t, r) = note_step(s, id, note, event_id, now);
            &&& (lookup(s, id) is None ==> t == s && r == Ok::<Option<IncidentView>, AppErrorView>(None))
            &&& (lookup(s, id) matches Some(cur) ==> {
                &&& r == Ok::<Option<IncidentView>, AppErrorView>(lookup(t, id))
                &&& lookup(t, id) matches Some(next)
                &&& next.status == cur.status
                &&& next.events == insert_event(
                    cur.events,
                    EventView { id: event_id, event_type: EventType::NoteAdded, message: note, created_at: now },
                )
            })
        }),
{
    if has_incident(s, id) {
        lemma_index_of(s, id);
        let i = index_of(s, id);
        let t = note_step(s, id, note, event_id, now).0;
        assert(t[i].id == id);
        assert(has_incident(t, id));
        let k = index_of(t, id);
        assert(k == i) by {
            if k != i {
                assert(t[k].id == s[k].id);
                assert(s[k].id == s[i].id);
            }
        }
    }
}

/// Every operation of the store lets it evolve only as `store_evolves`
/// allows: incidents are never removed, their identity never changes, their
/// timelines only grow, and their status only moves forward along the
/// lifecycle.
pub proof fn lemma_steps_evolve_store(
    s: Seq<IncidentView>,
    title: Seq<char>,
    description: Option<Seq<char>>,
    severity: Severity,
    note: Seq<char>,
    id: u128,
    status: IncidentStatus,
    event_id: u128,
    now: Seq<char>,
)
    ensures
        store_evolves(s, create_step(s, title, description, severity, id, event_id, now).0),
        store_evolves(s, status_step(s, id, status, event_id, now).0),
        store_evolves(s, note_step(s, id, note, event_id, now).0),
{
    assert forall|i: int| 0 <= i < s.len() implies incident_evolves(#[trigger] s[i], s[i]) by {
        lemma_incident_evolves_refl(s[i]);
    }
    let c = create_step(s, title, description, severity, id, event_id, now).0;
    assert forall|i: int| 0 <= i < s.len() implies incident_evolves(#[trigger] s[i], c[i]) by {
        lemma_incident_evolves_refl(s[i]);
    }
    if has_incident(s, id) {
        lemma_index_of(s, id);
        let k = index_of(s, id);
        let u = status_step(s, id, status, event_id, now).0;
        assert forall|i: int| 0 <= i < s.len() implies incident_evolves(#[trigger] s[i], u[i]) by {
            lemma_incident_evolves_refl(s[i]);
            if i == k && u[i] != s[i] {
                lemma_insert_event(
                    s[i].events,
                    EventView {
                        id: event_id,
                        event_type: EventType::StatusChanged,
                        message: status_changed_message(status),
                        created_at: now,
                    },
                );
            }
        }
        let n = note_step(s, id, note, event_id, now).0;
        assert forall|i: int| 0 <= i < s.len() implies incident_evolves(#[trigger] s[i], n[i]) by {
            lemma_incident_evolves_refl(s[i]);
            if i == k {
                lemma_insert_event(
                    s[i].events,
                    EventView { id: event_id, event_type: EventType::NoteAdded, message: note, created_at: now },
                );
            }
        }
    }
}

/// A store that does not change has evolved (trivially).
pub proof fn lemma_store_evolves_refl(s: Seq<IncidentView>)
    ensures
        store_evolves(s, s),
{
    assert forall|i: int| 0 <= i < s.len() implies incident_evolves(#[trigger] s[i], s[i]) by {
        lemma_incident_evolves_refl(s[i]);
    }
}

/// Evolution composes: a store reached by evolving twice has evolved.
pub proof fn lemma_store_evolves_transitive(s: Seq<IncidentView>, t: Seq<IncidentView>, u: Seq<IncidentView>)
    requires
        store_evolves(s, t),
        store_evolves(t, u),
    ensures
        store_evolves(s, u),
{
    assert forall|i: int| 0 <= i < s.len() implies incident_evolves(#[trigger] s[i], u[i]) by {
        let a = s[i];
        let b = t[i];
        let c = u[i];
        assert(incident_evolves(a, b));
        assert(incident_evolves(b, c));
        assert forall|k: int| 0 <= k < a.events.len() implies c.events.contains(#[trigger] a.events[k]) by {
            let j = choose|j: int| 0 <= j < b.events.len() && b.events[j] == a.events[k];
            assert(c.events.contains(b.events[j]));
        }
        if b.status != a.status && c.status != b.status {
            crate::domain::lemma_transitions_compose(a.status, b.status, c.status);
        }
    }
}

/// The incidents that pass the filters are exactly the incidents of the store
/// that pass them: each one listed passes and comes from the store, and each
/// one of the store that passes is listed.
pub proof fn lemma_matching_is_exact(
    s: Seq<IncidentView>,
    status: Option<IncidentStatus>,
    severity: Option<Severity>,
)
    ensures
        forall|k: int| 0 <= k < matching(s, status, severity).len() ==> {
            &&& passes_filter(#[trigger] matching(s, status, severity)[k], status, severity)
            &&& s.contains(matching(s, status, severity)[k])
        },
        forall|i: int| 0 <= i < s.len() && passes_filter(#[trigger] s[i], status, severity)
            ==> matching(s, status, severity).contains(s[i]),
        matching(s, status, severity).len() <= s.len(),
    decreases s.len(),
{
    if s.len() > 0 {
        let p = s.drop_last();
        lemma_matching_is_exact(p, status, severity);
        let m = matching(s, status, severity);
        let mp = matching(p, status, severity);
        assert forall|k: int| 0 <= k < m.len() implies {
            &&& passes_filter(#[trigger] m[k], status, severity)
            &&& s.contains(m[k])
        } by {
            if k < mp.len() {
                assert(m[k] == mp[k]);
                let j = choose|j: int| 0 <= j < p.len() && p[j] == mp[k];
                assert(s[j] == p[j]);
            } else {
                assert(m[k] == s.last());
                assert(s[s.len() - 1] == s.last());
            }
        }
        assert forall|i: int| 0 <= i < s.len() && passes_filter(#[trigger] s[i], status, severity) implies m.contains(s[i]) by {
            if i < s.len() - 1 {
                assert(p[i] == s[i]);
                let k = choose|k: int| 0 <= k < mp.len() && mp[k] == p[i];
                assert(m[k] == mp[k]);
            } else {
                assert(m[m.len() - 1] == s[i]);
            }
        }
    }
}

/// Listing gives only incidents that pass the filters, each one from the
/// store, ordered by opening time; at most `limit` of them when the limit is
/// not negative, and as many as remain after skipping `offset` matching
/// incidents otherwise.
pub proof fn lemma_list_filters_and_pages(
    s: Seq<IncidentView>,
    status: Option<IncidentStatus>,
    severity: Option<Severity>,
    limit: i64,
    offset: i64,
)
    ensures
        ({
            let l = list_view(s, status, severity, limit, offset);
            let m = sort_incidents(matching(s, status, severity));
            let skip = if offset < 0 { 0 } else { offset as int };
            let remaining = if skip >= m.len() { 0 } else { m.len() - skip };
            &&& forall|k: int| 0 <= k < l.len() ==> passes_filter(#[trigger] l[k], status, severity) && s.contains(l[k])
            &&& l.len() == (if 0 <= limit && limit < remaining { limit as int } else { remaining })
            &&& forall|k: int| 0 <= k < l.len() ==> #[trigger] l[k] == m[skip + k]
            &&& keys_sorted(created_keys(l))
        }),
{
    lemma_matching_is_exact(s, status, severity);
    let mt = matching(s, status, severity);
    lemma_sort_incidents(mt);
    let l = list_view(s, status, severity, limit, offset);
    let m = sort_incidents(mt);
    let st = page_start(m.len() as int, offset);
    assert forall|k: int| 0 <= k < l.len() implies passes_filter(#[trigger] l[k], status, severity) && s.contains(l[k]) by {
        assert(l[k] == m[st + k]);
        assert(mt.contains(m[st + k]));
        let j = choose|j: int| 0 <= j < mt.len() && mt[j] == m[st + k];
        assert(passes_filter(mt[j], status, severity));
    }
    let ks = created_keys(m);
    let sub = created_keys(l);
    assert forall|a: int, b: int| 0 <= a < b < sub.len() implies text_le(#[trigger] sub[a], #[trigger] sub[b]) by {
        assert(sub[a] == ks[st + a]);
        assert(sub[b] == ks[st + b]);
    }
}


proof fn lemma_matching_unfiltered(s: Seq<IncidentView>)
    ensures
        matching(s, None, None) == s,
    decreases s.len(),
{
    if s.len() > 0 {
        lemma_matching_unfiltered(s.drop_last());
        assert(s.drop_last().push(s.last()) =~= s);
    } else {
        assert(matching(s, None, None) =~= s);
    }
}

proof fn lemma_sort_keeps_ids_unique(s: Seq<IncidentView>)
    requires
        ids_unique(s),
    ensures
        ids_unique(sort_incidents(s)),
    decreases s.len(),
{
    if s.len() > 0 {
        let p = s.drop_last();
        assert forall|a: int, b: int| 0 <= a < p.len() && 0 <= b < p.len() && #[trigger] p[a].id == #[trigger] p[b].id implies a == b by {
            assert(p[a] == s[a] && p[b] == s[b]);
        }
        lemma_sort_keeps_ids_unique(p);
        lemma_sort_incidents(p);
        let sp = sort_incidents(p);
        let x = s.last();
        let q = insert_pos(created_keys(sp), x.created_at);
        lemma_insert_pos(created_keys(sp), x.created_at);
        sp.insert_ensures(q, x);
        let r = sort_incidents(s);
        assert forall|j: int| 0 <= j < sp.len() implies #[trigger] sp[j].id != x.id by {
            let i = choose|i: int| 0 <= i < p.len() && p[i] == sp[j];
            assert(s[i] == p[i]);
            assert(s[s.len() - 1] == x);
        }
        assert forall|a: int, b: int| 0 <= a < r.len() && 0 <= b < r.len() && #[trigger] r[a].id == #[trigger] r[b].id implies a == b by {
            let ia = if a < q { a } else { a - 1 };
            let ib = if b < q { b } else { b - 1 };
            if a != q && b != q {
                assert(r[a] == sp[ia]);
                assert(r[b] == sp[ib]);
            } else if a == q && b != q {
                assert(r[b] == sp[ib]);
            } else if b == q && a != q {
                assert(r[a] == sp[ia]);
            }
        }
    }
}

/// An unfiltered listing without a limit holds every incident of the store
/// exactly once: as many as the store holds, each id once, each one the
/// incident that a lookup of its id gives.
pub proof fn lemma_full_list_holds_each_once(s: Seq<IncidentView>)
    requires
        ids_unique(s),
    ensures
        ({
            let l = list_view(s, None, None, -1i64, 0i64);
            &&& l.len() == s.len()
            &&& ids_unique(l)
            &&& forall|i: int| 0 <= i < s.len() ==> l.contains(#[trigger] s[i])
            &&& forall|k: int| 0 <= k < l.len() ==> lookup(s, #[trigger] l[k].id) == Some(l[k])
        }),
{
    lemma_matching_unfiltered(s);
    lemma_sort_incidents(s);
    lemma_sort_keeps_ids_unique(s);
    let l = list_view(s, None, None, -1i64, 0i64);
    let m = sort_incidents(s);
    assert(l =~= m);
    assert forall|k: int| 0 <= k < l.len() implies lookup(s, #[trigger] l[k].id) == Some(l[k]) by {
        let i = choose|i: int| 0 <= i < s.len() && s[i] == l[k];
        assert(s[i].id == l[k].id);
        let j = index_of(s, l[k].id);
        assert(s[j].id == s[i].id);
    }
}

/// Adjacent pages fit together: the page of `a` items at `o` followed by the
/// page of `b` items right after it is the page of `a + b` items at `o`, so
/// paging through a listing neither skips nor repeats an incident.
pub proof fn lemma_pages_concatenate(
    s: Seq<IncidentView>,
    status: Option<IncidentStatus>,
    severity: Option<Severity>,
    o: i64,
    a: i64,
    b: i64,
)
    requires
        0 <= o,
        0 <= a,
        0 <= b,
        o + a + b <= i64::MAX,
    ensures
        list_view(s, status, severity, a, o) + list_view(s, status, severity, b, (o + a) as i64)
            == list_view(s, status, severity, (a + b) as i64, o),
{
    let m = sort_incidents(matching(s, status, severity));
    let x = list_view(s, status, severity, a, o);
    let y = list_view(s, status, severity, b, (o + a) as i64);
    let z = list_view(s, status, severity, (a + b) as i64, o);
    assert(x + y =~= z);
}

} // verus!

verus! {

/// The number of `status_changed` entries in a timeline.
pub open spec fn status_changes(e: Seq<EventView>) -> nat
    decreases e.len(),
{
    if e.len() == 0 {
        0
    } else {
        status_changes(e.drop_last()) + if e.last().event_type == EventType::StatusChanged {
            1nat
        } else {
            0nat
        }
    }
}

/// Every incident has no more `status_changed` entries than steps its status
/// has taken along the lifecycle.
pub open spec fn status_changes_bounded(s: Seq<IncidentView>) -> bool {
    forall|i: int| 0 <= i < s.len() ==> status_changes(#[trigger] s[i].events) <= status_rank(s[i].status)
}

proof fn lemma_status_changes_concat(a: Seq<EventView>, b: Seq<EventView>)
    ensures
        status_changes(a + b) == status_changes(a) + status_changes(b),
    decreases b.len(),
{
    if b.len() == 0 {
        assert(a + b =~= a);
    } else {
        lemma_status_changes_concat(a, b.drop_last());
        assert((a + b).drop_last() =~= a + b.drop_last());
        assert((a + b).last() == b.last());
    }
}

proof fn lemma_status_changes_insert(e: Seq<EventView>, x: EventView)
    ensures
        status_changes(insert_event(e, x)) == status_changes(e) + if x.event_type == EventType::StatusChanged {
            1nat
        } else {
            0nat
        },
{
    let p = insert_pos(event_keys(e), x.created_at);
    lemma_insert_pos(event_keys(e), x.created_at);
    let a = e.subrange(0, p);
    let b = e.subrange(p, e.len() as int);
    assert(e =~= a + b);
    assert(insert_event(e, x) =~= a.push(x) + b);
    lemma_status_changes_concat(a, b);
    lemma_status_changes_concat(a.push(x), b);
    assert(a.push(x).drop_last() =~= a);
}

/// Every operation keeps the number of `status_changed` entries of each
/// incident within the steps its status has taken; since a status takes at
/// most two steps (`open` to `acknowledged` to `resolved`), no incident of a
/// store built by these operations ever records more than two status changes.
pub proof fn lemma_steps_bound_status_changes(
    s: Seq<IncidentView>,
    title: Seq<char>,
    description: Option<Seq<char>>,
    severity: Severity,
    note: Seq<char>,
    id: u128,
    status: IncidentStatus,
    event_id: u128,
    now: Seq<char>,
)
    requires
        status_changes_bounded(s),
    ensures
        status_changes_bounded(create_step(s, title, description, severity, id, event_id, now).0),
        status_changes_bounded(status_step(s, id, status, event_id, now).0),
        status_changes_bounded(note_step(s, id, note, event_id, now).0),
        forall|i: int| 0 <= i < s.len() ==> status_changes(#[trigger] s[i].events) <= 2,
{
    let c = create_step(s, title, description, severity, id, event_id, now).0;
    let full = opened_incident(id, title, description, severity, event_id, now);
    assert(status_changes(full.events) == 0) by {
        assert(full.events.len() == 1);
        assert(full.events.drop_last() =~= Seq::<EventView>::empty());
        assert(status_changes(full.events.drop_last()) == 0);
        assert(full.events.last().event_type == EventType::Created);
    }
    assert(status_changes(Seq::<EventView>::empty()) == 0);
    assert forall|i: int| 0 <= i < c.len() implies status_changes(#[trigger] c[i].events) <= status_rank(c[i].status) by {
        if i < s.len() {
            assert(c[i] == s[i]);
        }
    }
    if has_incident(s, id) {
        lemma_index_of(s, id);
        let k = index_of(s, id);
        let cur = s[k];
        let u = status_step(s, id, status, event_id, now).0;
        if cur.status != status && transition_allowed(cur.status, status) {
            crate::domain::lemma_transitions_move_forward(cur.status, status);
            lemma_status_changes_insert(
                cur.events,
                EventView {
                    id: event_id,
                    event_type: EventType::StatusChanged,
                    message: status_changed_message(status),
                    created_at: now,
                },
            );
        }
        assert forall|i: int| 0 <= i < u.len() implies status_changes(#[trigger] u[i].events) <= status_rank(u[i].status) by {
            if i != k {
                assert(u[i] == s[i]);
            }
        }
        let n = note_step(s, id, note, event_id, now).0;
        lemma_status_changes_insert(
            cur.events,
            EventView { id: event_id, event_type: EventType::NoteAdded, message: note, created_at: now },
        );
        assert forall|i: int| 0 <= i < n.len() implies status_changes(#[trigger] n[i].events) <= status_rank(n[i].status) by {
            if i != k {
                assert(n[i] == s[i]);
            }
        }
    }
}

} // verus!

verus! {

/// The incidents of `q` whose status is `x`, in the order of `q`.
pub open spec fn keep_status(q: Seq<IncidentView>, x: IncidentStatus) -> Seq<IncidentView>
    decreases q.len(),
{
    if q.len() == 0 {
        Seq::empty()
    } else if q.last().status == x {
        keep_status(q.drop_last(), x).push(q.last())
    } else {
        keep_status(q.drop_last(), x)
    }
}

proof fn lemma_keep_concat(a: Seq<IncidentView>, b: Seq<IncidentView>, x: IncidentStatus)
    ensures
        keep_status(a + b, x) == keep_status(a, x) + keep_status(b, x),
    decreases b.len(),
{
    if b.len() == 0 {
        assert(a + b =~= a);
        assert(keep_status(a, x) + keep_status(b, x) =~= keep_status(a, x));
    } else {
        lemma_keep_concat(a, b.drop_last(), x);
        assert((a + b).drop_last() =~= a + b.drop_last());
        assert((a + b).last() == b.last());
        if b.last().status == x {
            assert(keep_status(a, x) + keep_status(b.drop_last(), x).push(b.last())
                =~= (keep_status(a, x) + keep_status(b.drop_last(), x)).push(b.last()));
        }
    }
}

proof fn lemma_keep_members(q: Seq<IncidentView>, x: IncidentStatus)
    ensures
        forall|k: int| 0 <= k < keep_status(q, x).len() ==> q.contains(#[trigger] keep_status(q, x)[k]),
    decreases q.len(),
{
    if q.len() > 0 {
        let p = q.drop_last();
        lemma_keep_members(p, x);
        assert forall|k: int| 0 <= k < keep_status(q, x).len() implies q.contains(#[trigger] keep_status(q, x)[k]) by {
            if k < keep_status(p, x).len() {
                assert(keep_status(q, x)[k] == keep_status(p, x)[k]);
                let j = choose|j: int| 0 <= j < p.len() && p[j] == keep_status(p, x)[k];
                assert(q[j] == p[j]);
            } else {
                assert(keep_status(q, x)[k] == q.last());
                assert(q[q.len() - 1] == q.last());
            }
        }
    }
}

proof fn lemma_insert_pos_at_split(keys: Seq<Seq<char>>, t: Seq<char>, p: int)
    requires
        0 <= p <= keys.len(),
        forall|j: int| p <= j < keys.len() ==> text_lt(t, #[trigger] keys[j]),
        p > 0 ==> !text_lt(t, keys[p - 1]),
    ensures
        insert_pos(keys, t) == p,
    decreases keys.len(),
{
    if keys.len() > p {
        assert(text_lt(t, keys[keys.len() - 1]));
        assert forall|j: int| p <= j < keys.drop_last().len() implies text_lt(t, #[trigger] keys.drop_last()[j]) by {
            assert(keys.drop_last()[j] == keys[j]);
        }
        if p > 0 {
            assert(keys.drop_last()[p - 1] == keys[p - 1]);
        }
        lemma_insert_pos_at_split(keys.drop_last(), t, p);
    }
}

proof fn lemma_keep_insert(q: Seq<IncidentView>, y: IncidentView, x: IncidentStatus)
    requires
        keys_sorted(created_keys(q)),
    ensures
        keep_status(insert_incident(q, y), x) == if y.status == x {
            insert_incident(keep_status(q, x), y)
        } else {
            keep_status(q, x)
        },
{
    let t = y.created_at;
    let p = insert_pos(created_keys(q), t);
    lemma_insert_pos(created_keys(q), t);
    let a = q.subrange(0, p);
    let b = q.subrange(p, q.len() as int);
    assert(q =~= a + b);
    assert(insert_incident(q, y) =~= a.push(y) + b);
    lemma_keep_concat(a, b, x);
    lemma_keep_concat(a.push(y), b, x);
    assert(a.push(y).drop_last() =~= a);
    if y.status == x {
        let ka = keep_status(a, x);
        let kb = keep_status(b, x);
        let kq = keep_status(q, x);
        lemma_keep_members(a, x);
        lemma_keep_members(b, x);
        let keys = created_keys(kq);
        assert(kq == ka + kb);
        assert forall|j: int| ka.len() <= j < keys.len() implies text_lt(t, #[trigger] keys[j]) by {
            assert(kq[j] == kb[j - ka.len()]);
            let c = choose|c: int| 0 <= c < b.len() && b[c] == kb[j - ka.len()];
            assert(b[c] == q[p + c]);
            assert(created_keys(q)[p + c] == q[p + c].created_at);
        }
        if ka.len() > 0 {
            let j = ka.len() - 1;
            assert(kq[j] == ka[j]);
            let c = choose|c: int| 0 <= c < a.len() && a[c] == ka[j];
            assert(a[c] == q[c]);
            let ck = created_keys(q);
            assert(ck[c] == q[c].created_at);
            assert(!text_lt(t, ck[p - 1]));
            if c < p - 1 {
                assert(text_le(ck[c], ck[p - 1]));
                lemma_text_order(ck[c], ck[p - 1], t);
            }
        }
        lemma_insert_pos_at_split(keys, t, ka.len() as int);
        assert(insert_incident(kq, y) =~= ka.push(y) + kb) by {
            kq.insert_ensures(ka.len() as int, y);
        }
    } else {
        assert(keep_status(a.push(y), x) =~= keep_status(a, x));
    }
}

proof fn lemma_matching_keeps_status(s: Seq<IncidentView>, x: IncidentStatus, severity: Option<Severity>)
    ensures
        matching(s, Some(x), severity) == keep_status(matching(s, None, severity), x),
    decreases s.len(),
{
    if s.len() > 0 {
        lemma_matching_keeps_status(s.drop_last(), x, severity);
        let m = matching(s.drop_last(), None, severity);
        if passes_filter(s.last(), None, severity) {
            assert(m.push(s.last()).drop_last() =~= m);
        }
    }
}

proof fn lemma_sort_keeps_status(m: Seq<IncidentView>, x: IncidentStatus)
    ensures
        sort_incidents(keep_status(m, x)) == keep_status(sort_incidents(m), x),
    decreases m.len(),
{
    if m.len() > 0 {
        let p = m.drop_last();
        let y = m.last();
        lemma_sort_keeps_status(p, x);
        lemma_sort_incidents(p);
        lemma_keep_insert(sort_incidents(p), y, x);
        if y.status == x {
            assert(keep_status(p, x).push(y).drop_last() =~= keep_status(p, x));
        }
    }
}

/// Filtering a listing by status is the unfiltered listing with only the
/// incidents of that status kept, in the same order.
pub proof fn lemma_status_filter_refines_listing(
    s: Seq<IncidentView>,
    x: IncidentStatus,
    severity: Option<Severity>,
)
    ensures
        list_view(s, Some(x), severity, -1i64, 0i64) == keep_status(list_view(s, None, severity, -1i64, 0i64), x),
{
    lemma_matching_keeps_status(s, x, severity);
    lemma_sort_keeps_status(matching(s, None, severity), x);
    let a = sort_incidents(matching(s, Some(x), severity));
    let b = sort_incidents(matching(s, None, severity));
    assert(list_view(s, Some(x), severity, -1i64, 0i64) =~= a);
    assert(list_view(s, None, severity, -1i64, 0i64) =~= b);
}

} // verus!

verus! {

/// The status a `status_changed` message names, if any.
pub open spec fn status_in_message(m: Seq<char>) -> Option<IncidentStatus> {
    if m == status_changed_message(IncidentStatus::Open) {
        Some(IncidentStatus::Open)
    } else if m == status_changed_message(IncidentStatus::Acknowledged) {
        Some(IncidentStatus::Acknowledged)
    } else if m == status_changed_message(IncidentStatus::Resolved) {
        Some(IncidentStatus::Resolved)
    } else {
        None
    }
}

/// The status named by the last `status_changed` entry of a timeline, if
/// there is one.
pub open spec fn last_status_change(e: Seq<EventView>) -> Option<IncidentStatus>
    decreases e.len(),
{
    if e.len() == 0 {
        None
    } else if e.last().event_type == EventType::StatusChanged {
        status_in_message(e.last().message)
    } else {
        last_status_change(e.drop_last())
    }
}

/// An incident agrees with its timeline: the timeline opens with its one
/// `created` entry; the status is `open` when no status change is recorded,
/// else the status the last recorded change names; and the incident last
/// changed when its last entry was made.
pub open spec fn timeline_consistent(inc: IncidentView) -> bool {
    &&& inc.events.len() >= 1
    &&& inc.events[0].event_type == EventType::Created
    &&& forall|k: int| 1 <= k < inc.events.len() ==> (#[trigger] inc.events[k]).event_type != EventType::Created
    &&& inc.status == match last_status_change(inc.events) {
        None => IncidentStatus::Open,
        Some(st) => st,
    }
    &&& inc.updated_at == inc.events.last().created_at
}

/// Every incident of the store agrees with its timeline.
pub open spec fn store_consistent(s: Seq<IncidentView>) -> bool {
    forall|i: int| 0 <= i < s.len() ==> timeline_consistent(#[trigger] s[i])
}

/// Every entry of the store was made before `now`.
pub open spec fn all_before(s: Seq<IncidentView>, now: Seq<char>) -> bool {
    forall|i: int, k: int| 0 <= i < s.len() && 0 <= k < s[i].events.len() ==> text_lt(#[trigger] s[i].events[k].created_at, now)
}

proof fn lemma_message_names_status(st: IncidentStatus)
    ensures
        status_in_message(status_changed_message(st)) == Some(st),
{
    let p = "Status changed to "@;
    assert forall|a: IncidentStatus, b: IncidentStatus| status_changed_message(a) == status_changed_message(b) implies a == b by {
        let ma = status_changed_message(a);
        let mb = status_changed_message(b);
        assert(ma.subrange(p.len() as int, ma.len() as int) =~= status_text(a));
        assert(mb.subrange(p.len() as int, mb.len() as int) =~= status_text(b));
        crate::domain::lemma_status_text_round_trip(a, status_text(b));
        crate::domain::lemma_status_text_round_trip(b, status_text(a));
    }
}

proof fn lemma_insert_after_all(e: Seq<EventView>, x: EventView)
    requires
        forall|k: int| 0 <= k < e.len() ==> text_lt(#[trigger] e[k].created_at, x.created_at),
    ensures
        insert_event(e, x) == e.push(x),
{
    if e.len() > 0 {
        let keys = event_keys(e);
        assert(keys.last() == e[e.len() - 1].created_at);
        lemma_text_order(keys.last(), x.created_at, keys.last());
    }
    assert(e.subrange(0, e.len() as int) =~= e);
    assert(e.insert(e.len() as int, x) =~= e.push(x));
}

/// Under a clock that moves forward (every entry of the store made before
/// `now`), every operation that succeeds keeps each incident in agreement
/// with its timeline: one `created` entry first, the status named by the
/// last recorded status change (or `open`), and the time of the last change
/// that of the last entry.
pub proof fn lemma_steps_keep_timelines_consistent(
    s: Seq<IncidentView>,
    title: Seq<char>,
    description: Option<Seq<char>>,
    severity: Severity,
    note: Seq<char>,
    id: u128,
    status: IncidentStatus,
    event_id: u128,
    now: Seq<char>,
)
    requires
        store_consistent(s),
        all_before(s, now),
    ensures
        create_step(s, title, description, severity, id, event_id, now).1 is Ok
            ==> store_consistent(create_step(s, title, description, severity, id, event_id, now).0),
        status_step(s, id, status, event_id, now).1 is Ok ==> store_consistent(status_step(s, id, status, event_id, now).0),
        note_step(s, id, note, event_id, now).1 is Ok ==> store_consistent(note_step(s, id, note, event_id, now).0),
{
    let c = create_step(s, title, description, severity, id, event_id, now);
    if c.1 is Ok {
        let t = c.0;
        let inc = opened_incident(id, title, description, severity, event_id, now);
        assert(inc.events.len() == 1);
        assert(inc.events.drop_last() =~= Seq::<EventView>::empty());
        assert(last_status_change(inc.events.drop_last()) is None);
        assert(inc.events.last().event_type == EventType::Created);
        assert(last_status_change(inc.events) is None);
        assert(timeline_consistent(inc));
        assert forall|i: int| 0 <= i < t.len() implies timeline_consistent(#[trigger] t[i]) by {
            if i < s.len() {
                assert(t[i] == s[i]);
            }
        }
    }
    if has_incident(s, id) {
        lemma_index_of(s, id);
        let k = index_of(s, id);
        let cur = s[k];
        assert(timeline_consistent(cur));
        assert forall|j: int| 0 <= j < cur.events.len() implies text_lt(#[trigger] cur.events[j].created_at, now) by {
            assert(s[k].events[j].created_at == cur.events[j].created_at);
        }
        let u = status_step(s, id, status, event_id, now);
        if u.1 is Ok && cur.status != status {
            let ev = EventView {
                id: event_id,
                event_type: EventType::StatusChanged,
                message: status_changed_message(status),
                created_at: now,
            };
            lemma_insert_after_all(cur.events, ev);
            lemma_message_names_status(status);
            let next = u.0[k];
            assert(next.events == cur.events.push(ev));
            assert(next.events.drop_last() =~= cur.events);
            assert(timeline_consistent(next)) by {
                assert forall|j: int| 1 <= j < next.events.len() implies (#[trigger] next.events[j]).event_type != EventType::Created by {
                    if j < cur.events.len() {
                        assert(next.events[j] == cur.events[j]);
                    }
                }
                assert(next.events[0] == cur.events[0]);
            }
            assert forall|i: int| 0 <= i < u.0.len() implies timeline_consistent(#[trigger] u.0[i]) by {
                if i != k {
                    assert(u.0[i] == s[i]);
                }
            }
        }
        let n = note_step(s, id, note, event_id, now);
        if n.1 is Ok {
            let ev = EventView { id: event_id, event_type: EventType::NoteAdded, message: note, created_at: now };
            lemma_insert_after_all(cur.events, ev);
            let next = n.0[k];
            assert(next.events == cur.events.push(ev));
            assert(next.events.drop_last() =~= cur.events);
            assert(timeline_consistent(next)) by {
                assert forall|j: int| 1 <= j < next.events.len() implies (#[trigger] next.events[j]).event_type != EventType::Created by {
                    if j < cur.events.len() {
                        assert(next.events[j] == cur.events[j]);
                    }
                }
                assert(next.events[0] == cur.events[0]);
            }
            assert forall|i: int| 0 <= i < n.0.len() implies timeline_consistent(#[trigger] n.0[i]) by {
                if i != k {
                    assert(n.0[i] == s[i]);
                }
            }
        }
    }
}


/// The timeline `after` is the timeline `before` with one entry more: of
/// type `event_type`, with message `message`, made at `at`, and with an id
/// that no timeline entry of the store `s` has.
pub open spec fn gains_one_entry(
    before: Seq<EventView>,
    after: Seq<EventView>,
    event_type: EventType,
    message: Seq<char>,
    at: Seq<char>,
    s: Seq<IncidentView>,
) -> bool {
    exists|k: int|
        {
            &&& 0 <= k < after.len()
            &&& #[trigger] after[k].event_type == event_type
            &&& after[k].message == message
            &&& after[k].created_at == at
            &&& !event_id_used(s, after[k].id)
            &&& after.remove(k) == before
        }
}

/// `next` is `cur` with the same id, title, description, severity and
/// opening time.
pub open spec fn same_identity(cur: IncidentView, next: IncidentView) -> bool {
    &&& next.id == cur.id
    &&& next.title == cur.title
    &&& next.description == cur.description
    &&& next.severity == cur.severity
    &&& next.created_at == cur.created_at
}

/// What asking to move incident `id` of store `s` to `status` must give,
/// and the store `t` it must leave: for an unknown incident nothing and no
/// change; for the status it already has the incident and no change; for a
/// move the lifecycle refuses the error naming the move and no change; for
/// an allowed move the incident with the new status, changed at the time of
/// a new `status_changed` entry naming the status, put in its place.
pub open spec fn status_change_answered(
    s: Seq<IncidentView>,
    t: Seq<IncidentView>,
    id: u128,
    status: IncidentStatus,
    r: Result<Option<IncidentView>, AppErrorView>,
) -> bool {
    match lookup(s, id) {
        None => t == s && r == Ok::<Option<IncidentView>, AppErrorView>(None),
        Some(cur) => if cur.status == status {
            t == s && r == Ok::<Option<IncidentView>, AppErrorView>(Some(cur))
        } else if !transition_allowed(cur.status, status) {
            &&& t == s
            &&& r == Err::<Option<IncidentView>, AppErrorView>(
                AppErrorView::InvalidTransition(transition_message(cur.status, status)),
            )
        } else {
            &&& r matches Ok(Some(next))
            &&& same_identity(cur, next)
            &&& next.status == status
            &&& gains_one_entry(
                cur.events,
                next.events,
                EventType::StatusChanged,
                status_changed_message(status),
                next.updated_at,
                s,
            )
            &&& t == s.update(index_of(s, id), next)
        },
    }
}

/// What adding the note `note` to incident `id` of store `s` must give, and
/// the store `t` it must leave: for an unknown incident nothing and no
/// change; otherwise, whatever the incident's status, the incident with its
/// status kept, changed at the time of a new `note_added` entry holding the
/// note, put in its place.
pub open spec fn note_answered(
    s: Seq<IncidentView>,
    t: Seq<IncidentView>,
    id: u128,
    note: Seq<char>,
    r: Result<Option<IncidentView>, AppErrorView>,
) -> bool {
    match lookup(s, id) {
        None => t == s && r == Ok::<Option<IncidentView>, AppErrorView>(None),
        Some(cur) => {
            &&& r matches Ok(Some(next))
            &&& same_identity(cur, next)
            &&& next.status == cur.status
            &&& gains_one_entry(cur.events, next.events, EventType::NoteAdded, note, next.updated_at, s)
            &&& t == s.update(index_of(s, id), next)
        },
    }
}

/// What opening an incident on store `s` must give, and the store `t` it
/// must leave: the new incident, with an id no incident of `s` has, the
/// given title, description and severity, status `open`, opened and changed
/// at the time of its one `created` entry, whose id no entry of `s` has;
/// added after all others.
pub open spec fn create_answered(
    s: Seq<IncidentView>,
    t: Seq<IncidentView>,
    title: Seq<char>,
    description: Option<Seq<char>>,
    severity: Severity,
    r: Result<IncidentView, AppErrorView>,
) -> bool {
    &&& r matches Ok(inc)
    &&& !has_incident(s, inc.id)
    &&& inc.title == title
    &&& inc.description == description
    &&& inc.severity == severity
    &&& inc.status == IncidentStatus::Open
    &&& inc.updated_at == inc.created_at
    &&& gains_one_entry(Seq::empty(), inc.events, EventType::Created, created_message(), inc.created_at, s)
    &&& t == s.push(inc)
}

proof fn lemma_insert_then_remove(e: Seq<EventView>, x: EventView)
    ensures
        ({
            let p = insert_pos(event_keys(e), x.created_at);
            &&& 0 <= p < insert_event(e, x).len()
            &&& insert_event(e, x)[p] == x
            &&& insert_event(e, x).remove(p) == e
        }),
{
    let p = insert_pos(event_keys(e), x.created_at);
    lemma_insert_pos(event_keys(e), x.created_at);
    e.insert_ensures(p, x);
    assert(e.insert(p, x).remove(p) =~= e);
}

/// With an entry id that the store does not use, a status change answers
/// as `status_change_answered` says: in particular an allowed move of an
/// existing incident always succeeds.
pub proof fn lemma_status_step_answers(
    s: Seq<IncidentView>,
    id: u128,
    status: IncidentStatus,
    event_id: u128,
    now: Seq<char>,
)
    requires
        ids_unique(s),
        !event_id_used(s, event_id),
    ensures
        ({
            let (t, r) = status_step(s, id, status, event_id, now);
            status_change_answered(s, t, id, status, r)
        }),
{
    if has_incident(s, id) {
        lemma_index_of(s, id);
        let i = index_of(s, id);
        let cur = s[i];
        if cur.status != status && transition_allowed(cur.status, status) {
            let ev = EventView {
                id: event_id,
                event_type: EventType::StatusChanged,
                message: status_changed_message(status),
                created_at: now,
            };
            lemma_insert_then_remove(cur.events, ev);
            let next = status_step(s, id, status, event_id, now).1->Ok_0->Some_0;
            let p = insert_pos(event_keys(cur.events), now);
            assert(next.events[p] == ev);
            assert(next.events[p].event_type == EventType::StatusChanged);
            assert(next.events.remove(p) == cur.events);
            assert(gains_one_entry(
                cur.events,
                next.events,
                EventType::StatusChanged,
                status_changed_message(status),
                next.updated_at,
                s,
            ));
        }
    }
}

/// With an entry id that the store does not use, adding a note answers as
/// `note_answered` says: a note for an existing incident always succeeds,
/// whatever its status.
pub proof fn lemma_note_step_answers(s: Seq<IncidentView>, id: u128, note: Seq<char>, event_id: u128, now: Seq<char>)
    requires
        ids_unique(s),
        !event_id_used(s, event_id),
    ensures
        ({
            let (t, r) = note_step(s, id, note, event_id, now);
            note_answered(s, t, id, note, r)
        }),
{
    if has_incident(s, id) {
        lemma_index_of(s, id);
        let i = index_of(s, id);
        let cur = s[i];
        let ev = EventView { id: event_id, event_type: EventType::NoteAdded, message: note, created_at: now };
        lemma_insert_then_remove(cur.events, ev);
        let next = note_step(s, id, note, event_id, now).1->Ok_0->Some_0;
        let p = insert_pos(event_keys(cur.events), now);
        assert(next.events[p] == ev);
        assert(next.events[p].event_type == EventType::NoteAdded);
        assert(next.events.remove(p) == cur.events);
        assert(gains_one_entry(cur.events, next.events, EventType::NoteAdded, note, next.updated_at, s));
    }
}

/// With an id that no incident of the store has and an entry id that no
/// entry has, opening an incident answers as `create_answered` says: it
/// always succeeds.
pub proof fn lemma_create_step_answers(
    s: Seq<IncidentView>,
    title: Seq<char>,
    description: Option<Seq<char>>,
    severity: Severity,
    id: u128,
    event_id: u128,
    now: Seq<char>,
)
    requires
        !has_incident(s, id),
        !event_id_used(s, event_id),
    ensures
        ({
            let (t, r) = create_step(s, title, description, severity, id, event_id, now);
            create_answered(s, t, title, description, severity, r)
        }),
{
    let inc = opened_incident(id, title, description, severity, event_id, now);
    assert(inc.events.remove(0) =~= Seq::<EventView>::empty());
    assert(inc.events[0].event_type == EventType::Created);
}


/// The `incidents` rows that store the incidents of `s`, in order.
pub open spec fn store_rows(s: Seq<IncidentView>) -> Seq<IncidentRowView> {
    s.map_values(|inc: IncidentView| row_of(inc))
}

/// The `incident_events` rows that store the timeline of `inc`, in order.
pub open spec fn timeline_rows(inc: IncidentView) -> Seq<EventRowView> {
    inc.events.map_values(|ev: EventView| event_row_of(inc.id, ev))
}

/// The `incident_events` rows that store every timeline of `s`: those of
/// the first incident, then those of the next, and so on.
pub open spec fn store_event_rows(s: Seq<IncidentView>) -> Seq<EventRowView>
    decreases s.len(),
{
    if s.len() == 0 {
        Seq::empty()
    } else {
        store_event_rows(s.drop_last()) + timeline_rows(s.last())
    }
}

/// Every id of `s` (of incidents and of timeline entries) reads back from
/// its text, and every time of `s` reads back unchanged: what holds of what
/// the store writes.
pub open spec fn reads_back(s: Seq<IncidentView>) -> bool {
    &&& forall|i: int| 0 <= i < s.len() ==> uuid_parse_result(uuid_text(#[trigger] s[i].id)) == Ok::<u128, Seq<char>>(s[i].id)
    &&& forall|i: int| 0 <= i < s.len() ==> time_reads_back(#[trigger] s[i].created_at) && time_reads_back(s[i].updated_at)
    &&& forall|i: int, k: int| 0 <= i < s.len() && 0 <= k < s[i].events.len() ==> {
        &&& uuid_parse_result(uuid_text(#[trigger] s[i].events[k].id)) == Ok::<u128, Seq<char>>(s[i].events[k].id)
        &&& time_reads_back(s[i].events[k].created_at)
    }
}

proof fn lemma_timeline_rows_concat(a: Seq<EventRowView>, b: Seq<EventRowView>, t: Seq<char>, x: Seq<EventView>, y: Seq<EventView>)
    requires
        timeline_from_rows(a, t) == Ok::<Seq<EventView>, Seq<char>>(x),
        timeline_from_rows(b, t) == Ok::<Seq<EventView>, Seq<char>>(y),
    ensures
        timeline_from_rows(a + b, t) == Ok::<Seq<EventView>, Seq<char>>(x + y),
    decreases a.len(),
{
    if a.len() == 0 {
        assert(a + b =~= b);
        assert(x =~= Seq::<EventView>::empty());
        assert(x + y =~= y);
    } else {
        assert((a + b).drop_first() =~= a.drop_first() + b);
        assert((a + b)[0] == a[0]);
        if a[0].incident_id == t {
            let ev = event_from_row(a[0])->Ok_0;
            let rest = timeline_from_rows(a.drop_first(), t)->Ok_0;
            lemma_timeline_rows_concat(a.drop_first(), b, t, rest, y);
            assert(seq![ev] + (rest + y) =~= x + y);
        } else {
            lemma_timeline_rows_concat(a.drop_first(), b, t, x, y);
        }
    }
}

/// The rows of one timeline read back as that timeline when asked for by
/// the text of its incident's id, and as nothing when asked for by another
/// text.
proof fn lemma_timeline_rows_read(inc: IncidentView, events: Seq<EventView>, t: Seq<char>)
    requires
        forall|k: int| 0 <= k < events.len() ==> {
            &&& uuid_parse_result(uuid_text(#[trigger] events[k].id)) == Ok::<u128, Seq<char>>(events[k].id)
            &&& time_reads_back(events[k].created_at)
        },
    ensures
        ({
            let rows = events.map_values(|ev: EventView| event_row_of(inc.id, ev));
            timeline_from_rows(rows, t) == Ok::<Seq<EventView>, Seq<char>>(
                if uuid_text(inc.id) == t { events } else { Seq::empty() },
            )
        }),
    decreases events.len(),
{
    let rows = events.map_values(|ev: EventView| event_row_of(inc.id, ev));
    if events.len() > 0 {
        let rest = events.drop_first();
        assert forall|k: int| 0 <= k < rest.len() implies {
            &&& uuid_parse_result(uuid_text(#[trigger] rest[k].id)) == Ok::<u128, Seq<char>>(rest[k].id)
            &&& time_reads_back(rest[k].created_at)
        } by {
            assert(rest[k] == events[k + 1]);
        }
        lemma_timeline_rows_read(inc, rest, t);
        assert(rows.drop_first() =~= rest.map_values(|ev: EventView| event_row_of(inc.id, ev)));
        let ev = events[0];
        assert(rows[0] == event_row_of(inc.id, ev));
        lemma_event_type_text_round_trip(ev.event_type, event_type_text(ev.event_type));
        assert(uuid_parse_result(uuid_text(events[0].id)) == Ok::<u128, Seq<char>>(events[0].id));
        assert(event_from_row(rows[0]) == Ok::<EventView, Seq<char>>(ev));
        if uuid_text(inc.id) == t {
            assert(seq![ev] + rest =~= events);
        }
    } else {
        assert(events =~= Seq::<EventView>::empty());
    }
}

/// In the event rows of a store whose ids are unique and read back, the rows
/// of incident `i` are exactly its timeline.
proof fn lemma_store_event_rows_read(s: Seq<IncidentView>, id: u128)
    requires
        ids_unique(s),
        reads_back(s),
        uuid_parse_result(uuid_text(id)) == Ok::<u128, Seq<char>>(id),
    ensures
        timeline_from_rows(store_event_rows(s), uuid_text(id)) == Ok::<Seq<EventView>, Seq<char>>(
            if has_incident(s, id) { s[index_of(s, id)].events } else { Seq::empty() },
        ),
    decreases s.len(),
{
    if s.len() == 0 {
        assert(timeline_from_rows(Seq::<EventRowView>::empty(), uuid_text(id)) == Ok::<Seq<EventView>, Seq<char>>(Seq::empty()));
    } else {
        let p = s.drop_last();
        let last = s.last();
        assert forall|a: int, b: int| 0 <= a < p.len() && 0 <= b < p.len() && #[trigger] p[a].id == #[trigger] p[b].id implies a == b by {
            assert(p[a] == s[a] && p[b] == s[b]);
        }
        assert forall|i: int| 0 <= i < p.len() implies uuid_parse_result(uuid_text(#[trigger] p[i].id)) == Ok::<u128, Seq<char>>(p[i].id) by {
            assert(p[i] == s[i]);
        }
        assert forall|i: int| 0 <= i < p.len() implies time_reads_back(#[trigger] p[i].created_at) && time_reads_back(p[i].updated_at) by {
            assert(p[i] == s[i]);
        }
        assert forall|i: int, k: int| 0 <= i < p.len() && 0 <= k < p[i].events.len() implies {
            &&& uuid_parse_result(uuid_text(#[trigger] p[i].events[k].id)) == Ok::<u128, Seq<char>>(p[i].events[k].id)
            &&& time_reads_back(p[i].events[k].created_at)
        } by {
            assert(p[i] == s[i]);
        }
        lemma_store_event_rows_read(p, id);
        let n = s.len() - 1;
        assert(last == s[n]);
        assert forall|k: int| 0 <= k < last.events.len() implies {
            &&& uuid_parse_result(uuid_text(#[trigger] last.events[k].id)) == Ok::<u128, Seq<char>>(last.events[k].id)
            &&& time_reads_back(last.events[k].created_at)
        } by {
            assert(s[n].events[k] == last.events[k]);
        }
        lemma_timeline_rows_read(last, last.events, uuid_text(id));
        let x = if has_incident(p, id) { p[index_of(p, id)].events } else { Seq::empty() };
        let y = if uuid_text(last.id) == uuid_text(id) { last.events } else { Seq::<EventView>::empty() };
        lemma_timeline_rows_concat(store_event_rows(p), timeline_rows(last), uuid_text(id), x, y);
        assert(uuid_parse_result(uuid_text(s[n].id)) == Ok::<u128, Seq<char>>(s[n].id));
        if uuid_text(last.id) == uuid_text(id) {
            assert(last.id == id);
            assert(s[n].id == id);
            assert(has_incident(s, id));
            let k = index_of(s, id);
            assert(k == n) by {
                if k != n {
                    assert(s[k].id == s[n].id);
                }
            }
            assert(!has_incident(p, id)) by {
                if has_incident(p, id) {
                    let j = index_of(p, id);
                    assert(s[j].id == s[n].id);
                }
            }
            assert(Seq::<EventView>::empty() + last.events =~= last.events);
        } else {
            assert(last.id != id);
            if has_incident(p, id) {
                let j = index_of(p, id);
                assert(s[j] == p[j]);
                assert(has_incident(s, id));
                let k = index_of(s, id);
                assert(k == j) by {
                    if k != j {
                        assert(s[k].id == s[j].id);
                    }
                }
            } else {
                assert(!has_incident(s, id)) by {
                    if has_incident(s, id) {
                        let k = index_of(s, id);
                        if k < n {
                            assert(p[k] == s[k]);
                        }
                    }
                }
            }
            assert(x + Seq::<EventView>::empty() =~= x);
        }
    }
}

/// Ordering a timeline that is already ordered by time leaves it as it is.
proof fn lemma_sort_sorted_events(e: Seq<EventView>)
    requires
        keys_sorted(event_keys(e)),
    ensures
        sort_events(e) == e,
    decreases e.len(),
{
    if e.len() > 0 {
        let p = e.drop_last();
        assert(keys_sorted(event_keys(p))) by {
            assert forall|i: int, j: int| 0 <= i < j < event_keys(p).len() implies text_le(#[trigger] event_keys(p)[i], #[trigger] event_keys(p)[j]) by {
                assert(event_keys(p)[i] == event_keys(e)[i]);
                assert(event_keys(p)[j] == event_keys(e)[j]);
            }
        }
        lemma_sort_sorted_events(p);
        let keys = event_keys(p);
        let t = e.last().created_at;
        if keys.len() > 0 {
            assert(keys.last() == event_keys(e)[e.len() - 2]);
            assert(t == event_keys(e)[e.len() - 1]);
            assert(text_le(event_keys(e)[e.len() - 2], event_keys(e)[e.len() - 1]));
        }
        assert(insert_pos(keys, t) == keys.len());
        assert(p.insert(p.len() as int, e.last()) =~= e);
    }
}

proof fn lemma_load_rows(acc: Seq<IncidentView>, s: Seq<IncidentView>, events: Seq<EventRowView>)
    requires
        ids_unique(acc + s),
        reads_back(s),
        timelines_sorted(s),
        forall|i: int| 0 <= i < s.len() ==> timeline_from_rows(events, uuid_text(#[trigger] s[i].id)) == Ok::<Seq<EventView>, Seq<char>>(s[i].events),
    ensures
        load_from(acc, store_rows(s), events) == Ok::<Seq<IncidentView>, AppErrorView>(acc + s),
    decreases s.len(),
{
    if s.len() == 0 {
        assert(store_rows(s) =~= Seq::<IncidentRowView>::empty());
        assert(acc + s =~= acc);
    } else {
        let inc = s[0];
        let rows = store_rows(s);
        assert(rows[0] == row_of(inc));
        lemma_severity_text_round_trip(inc.severity, severity_text(inc.severity));
        lemma_status_text_round_trip(inc.status, status_text(inc.status));
        assert(uuid_parse_result(uuid_text(s[0].id)) == Ok::<u128, Seq<char>>(s[0].id));
        assert(time_reads_back(s[0].created_at) && time_reads_back(s[0].updated_at));
        let base = with_events(inc, Seq::empty());
        assert(incident_from_row(rows[0]) == Ok::<IncidentView, Seq<char>>(base));
        assert(!has_incident(acc, inc.id)) by {
            if has_incident(acc, inc.id) {
                let j = index_of(acc, inc.id);
                assert((acc + s)[j] == acc[j]);
                assert((acc + s)[acc.len() as int] == s[0]);
            }
        }
        assert(keys_sorted(event_keys(s[0].events)));
        lemma_sort_sorted_events(inc.events);
        assert(with_events(base, sort_events(inc.events)) == inc);
        let rest = s.drop_first();
        let acc2 = acc.push(inc);
        assert(acc2 + rest =~= acc + s);
        assert(rows.drop_first() =~= store_rows(rest));
        assert forall|i: int| 0 <= i < rest.len() implies uuid_parse_result(uuid_text(#[trigger] rest[i].id)) == Ok::<u128, Seq<char>>(rest[i].id) by {
            assert(rest[i] == s[i + 1]);
        }
        assert forall|i: int| 0 <= i < rest.len() implies time_reads_back(#[trigger] rest[i].created_at) && time_reads_back(rest[i].updated_at) by {
            assert(rest[i] == s[i + 1]);
        }
        assert forall|i: int, k: int| 0 <= i < rest.len() && 0 <= k < rest[i].events.len() implies {
            &&& uuid_parse_result(uuid_text(#[trigger] rest[i].events[k].id)) == Ok::<u128, Seq<char>>(rest[i].events[k].id)
            &&& time_reads_back(rest[i].events[k].created_at)
        } by {
            assert(rest[i] == s[i + 1]);
        }
        assert forall|i: int| 0 <= i < rest.len() implies keys_sorted(event_keys(#[trigger] rest[i].events)) by {
            assert(rest[i] == s[i + 1]);
        }
        assert forall|i: int| 0 <= i < rest.len() implies timeline_from_rows(events, uuid_text(#[trigger] rest[i].id)) == Ok::<Seq<EventView>, Seq<char>>(rest[i].events) by {
            assert(rest[i] == s[i + 1]);
        }
        lemma_load_rows(acc2, rest, events);
    }
}

/// Reloading what the store wrote gives the store back: the `incidents`
/// rows of a store, with the `incident_events` rows of all its timelines,
/// load as exactly that store (every column included: title, description,
/// severity, status, times and timeline), whenever its ids and times read
/// back from their texts as the store writes them.
pub proof fn lemma_rows_load_back(s: Seq<IncidentView>)
    requires
        ids_unique(s),
        timelines_sorted(s),
        reads_back(s),
    ensures
        load_from(Seq::empty(), store_rows(s), store_event_rows(s)) == Ok::<Seq<IncidentView>, AppErrorView>(s),
{
    assert forall|i: int| 0 <= i < s.len() implies timeline_from_rows(store_event_rows(s), uuid_text(#[trigger] s[i].id)) == Ok::<Seq<EventView>, Seq<char>>(s[i].events) by {
        lemma_store_event_rows_read(s, s[i].id);
        assert(has_incident(s, s[i].id));
        let k = index_of(s, s[i].id);
        assert(k == i) by {
            if k != i {
                assert(s[k].id == s[i].id);
            }
        }
    }
    assert(Seq::<IncidentView>::empty() + s =~= s);
    lemma_load_rows(Seq::empty(), s, store_event_rows(s));
}

} // verus!
