//! The client screen state: issuing a join call, local name validation, and
//! folding in the events the request thread reports.

use battle_royale::character::BattleResult;
use battle_royale::client::{ClientEvent, Status};
use battle_royale::AppState;

fn fresh() -> AppState {
    AppState::default()
}

#[test]
fn default_state_is_idle_with_ranged_stats() {
    let st = fresh();
    assert_eq!(st.server_url, "http://127.0.0.1:3000");
    assert_eq!(st.player_name, "Shogo_A");
    assert!((80..120).contains(&st.hp));
    assert!((5..20).contains(&st.atk));
    assert!(matches!(st.status, Status::Idle));
    assert!(!st.waiting);
    assert!(st.last_result.is_none());
    assert!(st.pending.is_empty());
}

#[test]
fn join_trims_name_and_url_and_flips_to_waiting() {
    let mut st = fresh();
    st.server_url = "http://example.test:3000///".to_string();
    st.player_name = "  Alice  ".to_string();
    let call = st.join().expect("a call must go out");
    assert_eq!(call.url, "http://example.test:3000");
    assert_eq!(call.name, "Alice");
    assert_eq!(call.hp, st.hp);
    assert_eq!(call.atk, st.atk);
    assert!(st.waiting);
    assert!(matches!(st.status, Status::WaitingPost));
    assert!(st.last_result.is_none());
}

#[test]
fn join_rejects_blank_names_locally() {
    let mut st = fresh();
    st.player_name = "   ".to_string();
    let call = st.join();
    assert!(call.is_none());
    assert!(!st.waiting);
    assert!(matches!(st.status, Status::NameEmpty));
}

#[test]
fn join_is_a_no_op_while_waiting() {
    let mut st = fresh();
    st.player_name = "Bob".to_string();
    assert!(st.join().is_some());
    assert!(st.waiting);
    let again = st.join();
    assert!(again.is_none(), "no second call while one is in flight");
    assert!(st.waiting);
}

#[test]
fn pump_folds_events_in_arrival_order() {
    let mut st = fresh();
    st.player_name = "Carol".to_string();
    st.join().unwrap();
    st.push_event(ClientEvent::Started);
    st.pump_events();
    assert!(matches!(st.status, Status::WaitingServer));
    assert!(st.waiting, "still waiting after the start notice");
    let result = BattleResult { name: "Carol".to_string(), rank: 3, final_hp: -5, is_winner: false };
    st.push_event(ClientEvent::Completed(result));
    st.pump_events();
    assert!(matches!(st.status, Status::Done));
    assert!(!st.waiting);
    let r = st.last_result.as_ref().expect("result stored");
    assert_eq!(r.name, "Carol");
    assert_eq!(r.rank, 3);
    assert_eq!(r.final_hp, -5);
    assert!(!r.is_winner);
    assert!(st.pending.is_empty());
}

#[test]
fn pump_reports_failures() {
    let mut st = fresh();
    st.player_name = "Dave".to_string();
    st.join().unwrap();
    st.push_event(ClientEvent::Started);
    st.push_event(ClientEvent::Failed("HTTP 500: boom".to_string()));
    st.pump_events();
    assert!(!st.waiting);
    match &st.status {
        Status::Error(msg) => assert_eq!(msg, "HTTP 500: boom"),
        other => panic!("expected an error status, got {:?}", std::mem::discriminant(other)),
    }
    assert!(st.last_result.is_none());
}

#[test]
fn later_events_override_earlier_ones_in_one_pump() {
    let mut st = fresh();
    st.player_name = "Erin".to_string();
    st.join().unwrap();
    st.push_event(ClientEvent::Started);
    let result = BattleResult { name: "Erin".to_string(), rank: 1, final_hp: 40, is_winner: true };
    st.push_event(ClientEvent::Completed(result));
    st.pump_events();
    assert!(matches!(st.status, Status::Done));
    assert!(st.last_result.as_ref().unwrap().is_winner);
}
