use topple::formula::pretty;
use topple::game::{Move, Side};
use topple::online::{Actor, Event, MatchState};

#[test]
fn encode_decode_round_trips() {
    let mut st = MatchState::new(0xDEAD_BEEF_0BAD_F00D, 3);
    st.events.push(Event::PickSide(Side::Top));
    st.events.push(Event::PickOrder(Side::Bot));
    // A legal first assignment: pick a real atom off the dealt board.
    let atom = st.formula().atoms()[0];
    st.events.push(Event::Assign(Move::new(atom, true)));
    let blob = st.encode();
    assert_eq!(MatchState::decode(&blob), Some(st));
}

#[test]
fn garbage_is_rejected() {
    assert_eq!(MatchState::decode(b""), None);
    assert_eq!(MatchState::decode(b"TPLMxxxxxxxxxxxxxxxx"), None);
    // Assign before the pie rule is structurally invalid.
    let mut st = MatchState::new(7, 1);
    st.events.push(Event::Assign(Move::new(0, true)));
    assert_eq!(MatchState::decode(&st.encode()), None);
}

#[test]
fn same_seed_same_formula() {
    let a = MatchState::new(42, 4).formula();
    let b = MatchState::new(42, 4).formula();
    assert_eq!(pretty(&a), pretty(&b));
}

#[test]
fn actor_progression() {
    let mut st = MatchState::new(99, 2);
    assert_eq!(st.next_actor(), Some(Actor::P1));
    st.events.push(Event::PickSide(Side::Bot));
    assert_eq!(st.next_actor(), Some(Actor::P2));
    st.events.push(Event::PickOrder(Side::Bot));
    // ⊥ assigns first and P1 is ⊥, so P1 acts.
    assert_eq!(st.next_actor(), Some(Actor::P1));
    assert_eq!(st.to_move(), Some(Side::Bot));
}

#[test]
fn malformed_logs_have_no_next_actor() {
    let mut st = MatchState::new(99, 2);
    st.events.push(Event::PickOrder(Side::Bot));
    assert_eq!(st.next_actor(), None);
    let mut st = MatchState::new(99, 2);
    st.events.push(Event::PickSide(Side::Top));
    st.events.push(Event::PickSide(Side::Top));
    assert_eq!(st.next_actor(), None);
}

#[test]
fn picks_leave_the_board_and_assignments_replay_it() {
    let mut st = MatchState::new(7, 2);
    let (f0, _) = st.board().unwrap();
    st.events.push(Event::PickSide(Side::Top));
    st.events.push(Event::PickOrder(Side::Bot));
    assert_eq!(st.board().unwrap().0, f0);
    let atom = st.formula().atoms()[0];
    st.events.push(Event::Assign(Move::new(atom, false)));
    let (f1, w) = st.board().unwrap();
    let (want, _) = topple::game::apply_move(&f0, Move::new(atom, false)).unwrap();
    assert_eq!(f1, want);
    assert_eq!(w, topple::game::winner(&f1));
}
