//! Online duel wire format. A match is a tiny replayable event log: the
//! header fixes the deal (both devices generate the identical formula from
//! the seed), then every choice — the pie rule and each assignment — is one
//! event. Any device can rebuild the whole match from the blob at any time.
//!
//! Roles: P1 is the match creator. P1 prices the formula and picks a side;
//! P2 picks who assigns first. Sides then alternate assignments.

use crate::formula::F;
use crate::game::{after_move, apply_move, lemma_move_progress, winner, winner_of, Move, Side};
use crate::gen::{deal, deal_of, difficulty_of, Deal, DealKind, GenParams};
use crate::rng::Rng;
use crate::solve::solvable;
use vstd::prelude::*;

verus! {

/// The magic bytes `TPLM`.
pub open spec fn magic() -> Seq<u8> {
    seq![0x54u8, 0x50, 0x4C, 0x4D]
}

pub const VERSION: u8 = 1;

#[derive(Clone, Copy, Debug, PartialEq, Eq, Structural)]
pub enum Event {
    /// P1 takes this side (P2 gets the other).
    PickSide(Side),
    /// P2 decides which side assigns first.
    PickOrder(Side),
    /// The side to move assigns an atom.
    Assign(Move),
}

/// Whose input the match is waiting on, or the winning side if it is over.
#[derive(Clone, Copy, Debug, PartialEq, Eq, Structural)]
pub enum Actor {
    P1,
    P2,
    Over(Side),
}

#[derive(Debug, PartialEq, Eq)]
pub struct MatchState {
    pub seed: u64,
    pub level: u8,
    pub events: Vec<Event>,
}

/// The mathematical content of a match.
pub struct MatchSpec {
    pub seed: u64,
    pub level: u8,
    pub events: Seq<Event>,
}

impl View for MatchState {
    type V = MatchSpec;

    open spec fn view(&self) -> MatchSpec {
        MatchSpec { seed: self.seed, level: self.level, events: self.events@ }
    }
}

impl Clone for MatchState {
    fn clone(&self) -> (r: MatchState)
        ensures
            r@ == self@,
    {
        let mut events: Vec<Event> = Vec::new();
        let mut i: usize = 0;
        while i < self.events.len()
            invariant
                i <= self.events@.len(),
                events@ == self.events@.take(i as int),
            decreases self.events.len() - i,
        {
            events.push(self.events[i]);
            assert(events@ =~= self.events@.take(i + 1));
            i = i + 1;
        }
        assert(events@ =~= self.events@);
        MatchState { seed: self.seed, level: self.level, events }
    }
}

pub open spec fn side_byte_of(s: Side) -> u8 {
    match s {
        Side::Top => 0,
        Side::Bot => 1,
    }
}

pub open spec fn byte_side_of(b: u8) -> Option<Side> {
    if b == 0 {
        Some(Side::Top)
    } else if b == 1 {
        Some(Side::Bot)
    } else {
        None
    }
}

fn side_byte(s: Side) -> (b: u8)
    ensures
        b == side_byte_of(s),
{
    match s {
        Side::Top => 0,
        Side::Bot => 1,
    }
}

fn byte_side(b: u8) -> (s: Option<Side>)
    ensures
        s == byte_side_of(b),
{
    match b {
        0 => Some(Side::Top),
        1 => Some(Side::Bot),
        _ => None,
    }
}

/// The formula both devices deal from a seed and a level.
pub open spec fn formula_of(seed: u64, level: u8) -> F {
    deal_of(seed, difficulty_of(level), DealKind::Any).0.f
}

pub open spec fn p1_side_of(es: Seq<Event>) -> Option<Side>
    decreases es.len(),
{
    if es.len() == 0 {
        None
    } else {
        match es[0] {
            Event::PickSide(s) => Some(s),
            _ => p1_side_of(es.drop_first()),
        }
    }
}

pub open spec fn first_of(es: Seq<Event>) -> Option<Side>
    decreases es.len(),
{
    if es.len() == 0 {
        None
    } else {
        match es[0] {
            Event::PickOrder(s) => Some(s),
            _ => first_of(es.drop_first()),
        }
    }
}

/// The assignments of the log, in order.
pub open spec fn assigns_of(es: Seq<Event>) -> Seq<Move>
    decreases es.len(),
{
    if es.len() == 0 {
        Seq::empty()
    } else {
        assigns_of(es.drop_last()) + match es.last() {
            Event::Assign(mv) => seq![mv],
            _ => Seq::empty(),
        }
    }
}

/// Replaying assignments: `None` if a move comes after the end, or names an
/// atom no longer on the board.
pub open spec fn replay_of(f: F, moves: Seq<Move>) -> Option<F>
    decreases moves.len(),
{
    if moves.len() == 0 {
        Some(f)
    } else if f is Const || f.count_of(moves[0].atom) == 0 {
        None
    } else {
        replay_of(after_move(f, moves[0]), moves.drop_first())
    }
}

pub open spec fn board_of(m: MatchSpec) -> Option<F> {
    replay_of(formula_of(m.seed, m.level), assigns_of(m.events))
}

pub open spec fn to_move_of(m: MatchSpec) -> Option<Side> {
    match first_of(m.events) {
        None => None,
        Some(first) => Some(
            if assigns_of(m.events).len() % 2 == 0 {
                first
            } else {
                first.other_of()
            },
        ),
    }
}

/// One more assignment on a replayed board: refused once the board has
/// collapsed or the atom is gone, else the board after the move.
pub open spec fn replay_step(b: Option<F>, mv: Move) -> Option<F> {
    match b {
        Some(g) => if g is Const || g.count_of(mv.atom) == 0 {
            None
        } else {
            Some(after_move(g, mv))
        },
        None => None,
    }
}

proof fn lemma_replay_push(f: F, moves: Seq<Move>, mv: Move)
    ensures
        replay_of(f, moves.push(mv)) == replay_step(replay_of(f, moves), mv),
    decreases moves.len(),
{
    if moves.len() == 0 {
        assert(moves.push(mv).drop_first() =~= Seq::<Move>::empty());
        assert(moves.push(mv)[0] == mv);
        assert(replay_of(f, moves) == Some(f));
        if !(f is Const || f.count_of(mv.atom) == 0) {
            assert(replay_of(after_move(f, mv), Seq::<Move>::empty()) == Some(after_move(f, mv)));
        }
    } else {
        assert(moves.push(mv)[0] == moves[0]);
        assert(moves.push(mv).drop_first() =~= moves.drop_first().push(mv));
        if !(f is Const || f.count_of(moves[0].atom) == 0) {
            lemma_replay_push(after_move(f, moves[0]), moves.drop_first(), mv);
        } else {
            assert(replay_of(f, moves) is None);
        }
    }
}

/// The board of a log is its assignments replayed in order from the dealt
/// board: a side or order pick leaves it as it was, and an assignment takes
/// one more step of the replay, which fails once the board has collapsed or
/// the atom is gone.
pub proof fn lemma_board_of_log(m: MatchSpec, e: Event)
    ensures
        board_of(MatchSpec { events: m.events.push(e), ..m }) == match e {
            Event::Assign(mv) => replay_step(board_of(m), mv),
            _ => board_of(m),
        },
{
    let es = m.events.push(e);
    assert(es.drop_last() =~= m.events);
    assert(es.last() == e);
    match e {
        Event::Assign(mv) => {
            assert(assigns_of(es) =~= assigns_of(m.events).push(mv));
            lemma_replay_push(formula_of(m.seed, m.level), assigns_of(m.events), mv);
        },
        _ => {
            assert(assigns_of(es) =~= assigns_of(m.events));
        },
    }
}

proof fn lemma_first_of_push(es: Seq<Event>, e: Event)
    requires
        !(e is PickOrder),
    ensures
        first_of(es.push(e)) == first_of(es),
    decreases es.len(),
{
    if es.len() == 0 {
        assert(es.push(e).drop_first() =~= Seq::<Event>::empty());
        assert(es.push(e)[0] == e);
        assert(first_of(Seq::<Event>::empty()) is None);
        assert(first_of(es) is None);
        assert(first_of(es.push(e)) == first_of(es.push(e).drop_first()));
    } else {
        assert(es.push(e)[0] == es[0]);
        assert(es.push(e).drop_first() =~= es.drop_first().push(e));
        lemma_first_of_push(es.drop_first(), e);
    }
}

/// Sides alternate: before any assignment the side picked to assign first
/// is to move, and each assignment hands the move to the other side.
pub proof fn lemma_to_move_alternates(m: MatchSpec, mv: Move)
    ensures
        assigns_of(m.events).len() == 0 ==> to_move_of(m) == first_of(m.events),
        first_of(m.events) is Some ==> to_move_of(
            MatchSpec { events: m.events.push(Event::Assign(mv)), ..m },
        ) == Some(to_move_of(m).unwrap().other_of()),
        first_of(m.events) is None ==> to_move_of(m) is None,
{
    let es = m.events.push(Event::Assign(mv));
    lemma_first_of_push(m.events, Event::Assign(mv));
    assert(es.drop_last() =~= m.events);
    assert(es.last() == Event::Assign(mv));
    assert(assigns_of(es) =~= assigns_of(m.events).push(mv));
}

/// Who acts next; `None` whenever the log is malformed.
pub open spec fn next_actor_of(m: MatchSpec) -> Option<Actor> {
    if !valid_of(m) {
        None
    } else if m.events.len() == 0 {
        Some(Actor::P1)
    } else if m.events.len() == 1 {
        Some(Actor::P2)
    } else {
        match board_of(m) {
            None => None,
            Some(f) => match winner_of(f) {
                Some(w) => Some(Actor::Over(w)),
                None => match (p1_side_of(m.events), to_move_of(m)) {
                    (Some(p1), Some(side)) => Some(
                        if side == p1 {
                            Actor::P1
                        } else {
                            Actor::P2
                        },
                    ),
                    _ => None,
                },
            },
        }
    }
}

/// Pick-side first, then pick-order, then only assignments.
pub open spec fn structure_ok(es: Seq<Event>) -> bool {
    forall|i: int|
        0 <= i < es.len() ==> match #[trigger] es[i] {
            Event::PickSide(_) => i == 0,
            Event::PickOrder(_) => i == 1,
            Event::Assign(_) => i >= 2,
        }
}

pub open spec fn valid_of(m: MatchSpec) -> bool {
    structure_ok(m.events) && board_of(m) is Some
}

// ------------------------------------------------------------ wire format --

pub open spec fn pow256(k: nat) -> nat
    decreases k,
{
    if k == 0 {
        1
    } else {
        256 * pow256((k - 1) as nat)
    }
}

/// The `n` little-endian bytes of `x`.
pub open spec fn le_seq(x: nat, n: nat) -> Seq<u8> {
    Seq::new(n, |i: int| ((x / pow256(i as nat)) % 256) as u8)
}

/// The little-endian value of a byte string.
pub open spec fn le_value(s: Seq<u8>) -> nat
    decreases s.len(),
{
    if s.len() == 0 {
        0
    } else {
        (s[0] + 256 * le_value(s.drop_first())) as nat
    }
}

pub open spec fn event_bytes(e: Event) -> Seq<u8> {
    match e {
        Event::PickSide(s) => seq![0u8, side_byte_of(s)],
        Event::PickOrder(s) => seq![1u8, side_byte_of(s)],
        Event::Assign(mv) => seq![2u8, mv.atom, if mv.value { 1u8 } else { 0u8 }],
    }
}

pub open spec fn events_bytes(es: Seq<Event>) -> Seq<u8>
    decreases es.len(),
{
    if es.len() == 0 {
        Seq::empty()
    } else {
        event_bytes(es[0]) + events_bytes(es.drop_first())
    }
}

/// `TPLM`, the version, the seed (LE), the level, the event count (mod 256),
/// then two or three bytes per event.
pub open spec fn encode_of(m: MatchSpec) -> Seq<u8> {
    magic() + seq![VERSION] + le_seq(m.seed as nat, 8) + seq![m.level, (m.events.len() % 256) as u8]
        + events_bytes(m.events)
}

/// Read `n` events starting at byte `i`: the events and the byte after them.
pub open spec fn parse_events(b: Seq<u8>, i: nat, n: nat) -> Option<(Seq<Event>, nat)>
    decreases n,
{
    if n == 0 {
        Some((Seq::empty(), i))
    } else if i >= b.len() {
        None
    } else {
        let tag = b[i as int];
        let e: Option<(Event, nat)> = if tag == 0 || tag == 1 {
            if i + 1 >= b.len() {
                None
            } else {
                match byte_side_of(b[i + 1int]) {
                    Some(s) => Some(
                        (
                            if tag == 0 {
                                Event::PickSide(s)
                            } else {
                                Event::PickOrder(s)
                            },
                            i + 2,
                        ),
                    ),
                    None => None,
                }
            }
        } else if tag == 2 {
            if i + 2 >= b.len() {
                None
            } else if b[i + 2int] > 1 {
                None
            } else {
                Some((Event::Assign(Move { atom: b[i + 1int], value: b[i + 2int] == 1 }), i + 3))
            }
        } else {
            None
        };
        match e {
            None => None,
            Some((ev, next)) => match parse_events(b, next, (n - 1) as nat) {
                None => None,
                Some((rest, end)) => Some((seq![ev] + rest, end)),
            },
        }
    }
}

/// Decoding: the header, a level in 1..=5, exactly the announced events and
/// nothing after them, and a log that replays legally.
pub open spec fn decode_of(b: Seq<u8>) -> Option<MatchSpec> {
    if b.len() < 15 || b.subrange(0, 4) != magic() || b[4] != VERSION {
        None
    } else {
        let level = b[13];
        if !(1 <= level <= 5) {
            None
        } else {
            match parse_events(b, 15, b[14] as nat) {
                None => None,
                Some((es, end)) => if end != b.len() {
                    None
                } else {
                    let m = MatchSpec { seed: le_value(b.subrange(5, 13)) as u64, level, events: es };
                    if valid_of(m) {
                        Some(m)
                    } else {
                        None
                    }
                },
            }
        }
    }
}

pub proof fn lemma_pow256_pos(k: nat)
    ensures
        pow256(k) > 0,
    decreases k,
{
    if k > 0 {
        lemma_pow256_pos((k - 1) as nat);
    }
}

pub proof fn lemma_pow256_div(x: nat, k: nat)
    ensures
        x / pow256(k + 1) == (x / pow256(k)) / 256,
        x / pow256(k + 1) == (x / 256) / pow256(k),
{
    lemma_pow256_pos(k);
    vstd::arithmetic::div_mod::lemma_div_denominator(x as int, pow256(k) as int, 256);
    vstd::arithmetic::div_mod::lemma_div_denominator(x as int, 256, pow256(k) as int);
    assert(pow256(k + 1) == pow256(k) * 256) by (nonlinear_arith)
        requires
            pow256(k + 1) == 256 * pow256(k),
    ;
}

pub proof fn lemma_le_round_trip(x: nat, n: nat)
    requires
        x < pow256(n),
    ensures
        le_value(le_seq(x, n)) == x,
    decreases n,
{
    if n == 0 {
        assert(x == 0);
    } else {
        let s = le_seq(x, n);
        assert forall|i: int| 0 <= i < n - 1 implies s.drop_first()[i] == le_seq(x / 256, (n - 1) as nat)[i] by {
            lemma_pow256_div(x, i as nat);
        }
        assert(s.drop_first() =~= le_seq(x / 256, (n - 1) as nat));
        assert(pow256(0) == 1);
        assert(x / 1 == x) by (nonlinear_arith);
        assert(x / 256 < pow256((n - 1) as nat)) by (nonlinear_arith)
            requires
                x < pow256(n),
                pow256(n) == 256 * pow256((n - 1) as nat),
        ;
        lemma_le_round_trip(x / 256, (n - 1) as nat);
        vstd::arithmetic::div_mod::lemma_fundamental_div_mod(x as int, 256);
    }
}

pub proof fn lemma_le_bound(s: Seq<u8>)
    ensures
        le_value(s) < pow256(s.len()),
    decreases s.len(),
{
    if s.len() > 0 {
        lemma_le_bound(s.drop_first());
        assert(le_value(s) < pow256(s.len())) by (nonlinear_arith)
            requires
                le_value(s) == s[0] + 256 * le_value(s.drop_first()),
                le_value(s.drop_first()) < pow256(s.drop_first().len()),
                pow256(s.len()) == 256 * pow256(s.drop_first().len()),
                s[0] < 256,
        ;
    }
}

proof fn lemma_parse_events_bytes(pre: Seq<u8>, es: Seq<Event>, post: Seq<u8>)
    ensures
        parse_events(pre + events_bytes(es) + post, pre.len(), es.len()) == Some(
            (es, pre.len() + events_bytes(es).len()),
        ),
    decreases es.len(),
{
    let b = pre + events_bytes(es) + post;
    if es.len() > 0 {
        let e = es[0];
        let eb = event_bytes(e);
        let pre2 = pre + eb;
        assert(b =~= pre2 + events_bytes(es.drop_first()) + post);
        lemma_parse_events_bytes(pre2, es.drop_first(), post);
        assert(b[pre.len() as int] == eb[0]);
        assert(b[pre.len() + 1int] == eb[1]);
        if eb.len() == 3 {
            assert(b[pre.len() + 2int] == eb[2]);
        }
        assert(seq![e] + es.drop_first() =~= es);
    } else {
        assert(es =~= Seq::<Event>::empty());
    }
}

/// Bytes read as a little-endian number and written back are the same bytes.
proof fn lemma_le_seq_of_value(s: Seq<u8>)
    ensures
        le_seq(le_value(s), s.len()) == s,
    decreases s.len(),
{
    if s.len() > 0 {
        let v = le_value(s);
        let rest = s.drop_first();
        lemma_le_seq_of_value(rest);
        vstd::arithmetic::div_mod::lemma_fundamental_div_mod_converse(
            v as int,
            256,
            le_value(rest) as int,
            s[0] as int,
        );
        let t = le_seq(v, s.len());
        assert forall|i: int| 0 <= i < s.len() implies t[i] == s[i] by {
            if i == 0 {
                assert(pow256(0) == 1);
                assert(v / 1 == v) by (nonlinear_arith);
            } else {
                lemma_pow256_div(v, (i - 1) as nat);
                assert(le_seq(le_value(rest), rest.len())[i - 1] == rest[i - 1]);
            }
        }
        assert(t =~= s);
    }
}

/// What a parse of `n` events reads is exactly their encoding.
proof fn lemma_parse_events_read(b: Seq<u8>, i: nat, n: nat)
    requires
        parse_events(b, i, n) is Some,
        i <= b.len(),
    ensures
        ({
            let (es, end) = parse_events(b, i, n).unwrap();
            &&& es.len() == n
            &&& i <= end <= b.len()
            &&& b.subrange(i as int, end as int) == events_bytes(es)
        }),
    decreases n,
{
    if n > 0 {
        let tag = b[i as int];
        let next: nat = if tag == 2 {
            i + 3
        } else {
            i + 2
        };
        lemma_parse_events_read(b, next, (n - 1) as nat);
        let (es, end) = parse_events(b, i, n).unwrap();
        let (rest, end2) = parse_events(b, next, (n - 1) as nat).unwrap();
        assert(es == seq![es[0]] + rest);
        assert(es.drop_first() =~= rest);
        assert(b.subrange(i as int, end as int) =~= b.subrange(i as int, next as int) + b.subrange(
            next as int,
            end as int,
        ));
        assert(b.subrange(i as int, next as int) =~= event_bytes(es[0]));
    }
}

/// Decoding is exact: a blob that decodes is the encoding of what it
/// decodes to, byte for byte, so no two blobs carry the same match.
pub proof fn lemma_decode_canonical(b: Seq<u8>)
    requires
        decode_of(b) is Some,
    ensures
        encode_of(decode_of(b).unwrap()) == b,
{
    let m = decode_of(b).unwrap();
    lemma_parse_events_read(b, 15, b[14] as nat);
    lemma_le_seq_of_value(b.subrange(5, 13));
    let head = magic() + seq![VERSION] + le_seq(m.seed as nat, 8) + seq![m.level, (m.events.len() % 256) as u8];
    lemma_le_bound(b.subrange(5, 13));
    assert(pow256(8) == 0x1_0000_0000_0000_0000) by {
        reveal_with_fuel(pow256, 9);
    }
    assert(head =~= b.subrange(0, 15));
    assert(b =~= b.subrange(0, 15) + b.subrange(15, b.len() as int));
}

pub proof fn lemma_pow256_mono(a: nat, b: nat)
    requires
        a <= b,
    ensures
        pow256(a) <= pow256(b),
    decreases b,
{
    if a < b {
        lemma_pow256_mono(a, (b - 1) as nat);
    }
}

proof fn lemma_events_bytes_push(es: Seq<Event>, e: Event)
    ensures
        events_bytes(es.push(e)) == events_bytes(es) + event_bytes(e),
    decreases es.len(),
{
    if es.len() == 0 {
        assert(es.push(e).drop_first() =~= Seq::<Event>::empty());
        assert(events_bytes(es.push(e).drop_first()) =~= Seq::<u8>::empty());
        assert(es.push(e)[0] == e);
        assert(events_bytes(es) =~= Seq::<u8>::empty());
        assert(events_bytes(es.push(e)) =~= event_bytes(e));
    } else {
        assert(es.push(e).drop_first() =~= es.drop_first().push(e));
        lemma_events_bytes_push(es.drop_first(), e);
        assert(events_bytes(es.push(e)) =~= events_bytes(es) + event_bytes(e));
    }
}

/// The wire format round-trips: a valid match at a dealt level, with at most
/// 255 events, decodes from its own encoding.
pub proof fn lemma_encode_decode(m: MatchSpec)
    requires
        valid_of(m),
        1 <= m.level <= 5,
        m.events.len() <= 255,
    ensures
        decode_of(encode_of(m)) == Some(m),
{
    let b = encode_of(m);
    let head = magic() + seq![VERSION] + le_seq(m.seed as nat, 8) + seq![m.level, (m.events.len() % 256) as u8];
    assert(head.len() == 15);
    assert(b =~= head + events_bytes(m.events) + Seq::<u8>::empty());
    assert(b.subrange(0, 4) =~= magic());
    assert(b[4] == VERSION);
    assert(b.subrange(5, 13) =~= le_seq(m.seed as nat, 8));
    assert(pow256(8) == 0x1_0000_0000_0000_0000) by {
        reveal_with_fuel(pow256, 9);
    }
    lemma_le_round_trip(m.seed as nat, 8);
    assert(b[13] == m.level);
    assert(b[14] == m.events.len());
    lemma_parse_events_bytes(head, m.events, Seq::empty());
    let m2 = MatchSpec { seed: le_value(b.subrange(5, 13)) as u64, level: b[13], events: m.events };
    assert(m2 == m);
}

impl MatchState {
    pub fn new(seed: u64, level: u8) -> (m: MatchState)
        ensures
            m@ == (MatchSpec {
                seed,
                level: if level < 1 {
                    1
                } else if level > 5 {
                    5
                } else {
                    level
                },
                events: Seq::empty(),
            }),
    {
        let lvl = if level < 1 {
            1
        } else if level > 5 {
            5
        } else {
            level
        };
        MatchState { seed, level: lvl, events: Vec::new() }
    }

    /// The priced deal. Deterministic: same seed and level, same board on
    /// both devices.
    pub fn deal_full(&self) -> (d: Deal)
        ensures
            d == deal_of(self.seed, difficulty_of(self.level), DealKind::Any).0,
            solvable(d.f),
    {
        let mut rng = Rng::new(self.seed);
        let params = GenParams::difficulty(self.level);
        deal(&mut rng, &params, DealKind::Any)
    }

    /// The dealt formula.
    pub fn formula(&self) -> (f: F)
        ensures
            f == formula_of(self.seed, self.level),
            solvable(f),
    {
        self.deal_full().f
    }

    pub fn p1_side(&self) -> (r: Option<Side>)
        ensures
            r == p1_side_of(self.events@),
    {
        let mut i: usize = 0;
        assert(self.events@.skip(0) =~= self.events@);
        while i < self.events.len()
            invariant
                i <= self.events@.len(),
                p1_side_of(self.events@) == p1_side_of(self.events@.skip(i as int)),
            decreases self.events.len() - i,
        {
            assert(self.events@.skip(i as int).drop_first() =~= self.events@.skip(i + 1));
            assert(self.events@.skip(i as int)[0] == self.events@[i as int]);
            if let Event::PickSide(s) = self.events[i] {
                return Some(s);
            }
            i = i + 1;
        }
        assert(self.events@.skip(i as int) =~= Seq::<Event>::empty());
        None
    }

    pub fn first(&self) -> (r: Option<Side>)
        ensures
            r == first_of(self.events@),
    {
        let mut i: usize = 0;
        assert(self.events@.skip(0) =~= self.events@);
        while i < self.events.len()
            invariant
                i <= self.events@.len(),
                first_of(self.events@) == first_of(self.events@.skip(i as int)),
            decreases self.events.len() - i,
        {
            assert(self.events@.skip(i as int).drop_first() =~= self.events@.skip(i + 1));
            assert(self.events@.skip(i as int)[0] == self.events@[i as int]);
            if let Event::PickOrder(s) = self.events[i] {
                return Some(s);
            }
            i = i + 1;
        }
        assert(self.events@.skip(i as int) =~= Seq::<Event>::empty());
        None
    }

    /// The assignments of the log, in order.
    pub fn assigns(&self) -> (v: Vec<Move>)
        ensures
            v@ == assigns_of(self.events@),
    {
        let mut out: Vec<Move> = Vec::new();
        let mut i: usize = 0;
        while i < self.events.len()
            invariant
                i <= self.events@.len(),
                out@ == assigns_of(self.events@.take(i as int)),
            decreases self.events.len() - i,
        {
            assert(self.events@.take(i + 1).drop_last() =~= self.events@.take(i as int));
            if let Event::Assign(mv) = self.events[i] {
                out.push(mv);
            }
            assert(out@ =~= assigns_of(self.events@.take(i + 1)));
            i = i + 1;
        }
        assert(self.events@.take(i as int) =~= self.events@);
        out
    }

    /// Replay every assignment onto the dealt board. `None` if an event is
    /// illegal (a corrupt or malicious blob).
    pub fn board(&self) -> (r: Option<(F, Option<Side>)>)
        ensures
            match (r, board_of(self@)) {
                (Some((f, w)), Some(g)) => f == g && w == winner_of(g),
                (None, None) => true,
                _ => false,
            },
    {
        let mut f = self.formula();
        let moves = self.assigns();
        let mut i: usize = 0;
        assert(moves@.skip(0) =~= moves@);
        while i < moves.len()
            invariant
                i <= moves@.len(),
                f.wf(),
                board_of(self@) == replay_of(f, moves@.skip(i as int)),
            decreases moves.len() - i,
        {
            let mv = moves[i];
            assert(moves@.skip(i as int)[0] == mv);
            assert(moves@.skip(i as int).drop_first() =~= moves@.skip(i + 1));
            if winner(&f).is_some() {
                return None;  // moves after the game ended
            }
            let next = match apply_move(&f, mv) {
                Ok((next, _)) => next,
                Err(_) => {
                    return None;
                },
            };
            proof {
                lemma_move_progress(f, mv);
            }
            f = next;
            i = i + 1;
        }
        assert(moves@.skip(i as int) =~= Seq::<Move>::empty());
        let w = winner(&f);
        Some((f, w))
    }

    /// The side to move after the recorded assignments.
    pub fn to_move(&self) -> (r: Option<Side>)
        ensures
            r == to_move_of(self@),
    {
        let first = match self.first() {
            Some(s) => s,
            None => {
                return None;
            },
        };
        let n = self.assigns().len();
        Some(
            if n % 2 == 0 {
                first
            } else {
                first.other()
            },
        )
    }

    /// Who acts next. `None` if the log is malformed.
    pub fn next_actor(&self) -> (r: Option<Actor>)
        ensures
            r == next_actor_of(self@),
    {
        if !self.valid() {
            return None;
        }
        match self.events.len() {
            0 => Some(Actor::P1),
            1 => Some(Actor::P2),
            _ => {
                let outcome = match self.board() {
                    Some((_, outcome)) => outcome,
                    None => {
                        return None;
                    },
                };
                if let Some(w) = outcome {
                    return Some(Actor::Over(w));
                }
                let p1 = match self.p1_side() {
                    Some(p) => p,
                    None => {
                        return None;
                    },
                };
                let side = match self.to_move() {
                    Some(s) => s,
                    None => {
                        return None;
                    },
                };
                Some(
                    if side == p1 {
                        Actor::P1
                    } else {
                        Actor::P2
                    },
                )
            },
        }
    }

    pub fn encode(&self) -> (v: Vec<u8>)
        ensures
            v@ == encode_of(self@),
    {
        let mut v: Vec<u8> = Vec::new();
        v.push(0x54);
        v.push(0x50);
        v.push(0x4C);
        v.push(0x4D);
        v.push(VERSION);
        let ghost head = v@;
        assert(head =~= magic() + seq![VERSION]);
        let mut x: u64 = self.seed;
        let mut i: usize = 0;
        assert(pow256(0) == 1);
        while i < 8
            invariant
                i <= 8,
                head == magic() + seq![VERSION],
                x == (self.seed as nat) / pow256(i as nat),
                v@ == head + le_seq(self.seed as nat, i as nat),
            decreases 8 - i,
        {
            proof {
                lemma_pow256_div(self.seed as nat, i as nat);
            }
            v.push((x % 256) as u8);
            x = x / 256;
            assert(v@ =~= head + le_seq(self.seed as nat, (i + 1) as nat));
            i = i + 1;
        }
        v.push(self.level);
        v.push((self.events.len() % 256) as u8);
        let ghost head2 = v@;
        assert(head2 =~= magic() + seq![VERSION] + le_seq(self.seed as nat, 8) + seq![
            self.level,
            (self.events@.len() % 256) as u8,
        ]);
        let mut k: usize = 0;
        while k < self.events.len()
            invariant
                k <= self.events@.len(),
                v@ == head2 + events_bytes(self.events@.take(k as int)),
            decreases self.events.len() - k,
        {
            proof {
                lemma_events_bytes_push(self.events@.take(k as int), self.events@[k as int]);
                assert(self.events@.take(k as int).push(self.events@[k as int]) =~= self.events@.take(
                    k + 1,
                ));
            }
            match self.events[k] {
                Event::PickSide(s) => {
                    v.push(0);
                    v.push(side_byte(s));
                },
                Event::PickOrder(s) => {
                    v.push(1);
                    v.push(side_byte(s));
                },
                Event::Assign(mv) => {
                    v.push(2);
                    v.push(mv.atom);
                    v.push(
                        if mv.value {
                            1
                        } else {
                            0
                        },
                    );
                },
            }
            assert(v@ =~= head2 + events_bytes(self.events@.take(k + 1)));
            k = k + 1;
        }
        assert(self.events@.take(k as int) =~= self.events@);
        v
    }

    pub fn decode(b: &[u8]) -> (r: Option<MatchState>)
        ensures
            match (r, decode_of(b@)) {
                (Some(m), Some(spec)) => m@ == spec,
                (None, None) => true,
                _ => false,
            },
    {
        if b.len() < 15 || b[0] != 0x54 || b[1] != 0x50 || b[2] != 0x4C || b[3] != 0x4D || b[4]
            != VERSION {
            proof {
                if b@.len() >= 15 && b@.subrange(0, 4) == magic() {
                    assert(b@.subrange(0, 4)[0] == b@[0]);
                    assert(b@.subrange(0, 4)[1] == b@[1]);
                    assert(b@.subrange(0, 4)[2] == b@[2]);
                    assert(b@.subrange(0, 4)[3] == b@[3]);
                }
            }
            return None;
        }
        assert(b@.subrange(0, 4) =~= magic());
        let mut seed: u64 = 0;
        let mut j: usize = 13;
        assert(b@.subrange(13, 13) =~= Seq::<u8>::empty());
        while j > 5
            invariant
                5 <= j <= 13,
                b@.len() >= 15,
                seed as nat == le_value(b@.subrange(j as int, 13)),
            decreases j,
        {
            proof {
                let s = b@.subrange(j - 1, 13);
                assert(s.drop_first() =~= b@.subrange(j as int, 13));
                lemma_le_bound(b@.subrange(j as int, 13));
                lemma_le_bound(s);
                assert(pow256(8) == 0x1_0000_0000_0000_0000) by {
                    reveal_with_fuel(pow256, 9);
                }
                lemma_pow256_mono(s.len(), 8);
            }
            seed = (b[j - 1] as u64) + 256 * seed;
            j = j - 1;
        }
        let level = b[13];
        if !(1 <= level && level <= 5) {
            return None;
        }
        let n = b[14] as usize;
        let mut events: Vec<Event> = Vec::new();
        let mut i: usize = 15;
        let mut c: usize = 0;
        while c < n
            invariant
                c <= n,
                n == b@[14],
                15 <= i <= 15 + 3 * c,
                parse_events(b@, 15, n as nat) == match parse_events(b@, i as nat, (n - c) as nat) {
                    Some((rest, end)) => Some((events@ + rest, end)),
                    None => None,
                },
            decreases n - c,
        {
            if i >= b.len() {
                return None;
            }
            let tag = b[i];
            if tag == 0 || tag == 1 {
                if i + 1 >= b.len() {
                    return None;
                }
                let s = match byte_side(b[i + 1]) {
                    Some(s) => s,
                    None => {
                        return None;
                    },
                };
                events.push(
                    if tag == 0 {
                        Event::PickSide(s)
                    } else {
                        Event::PickOrder(s)
                    },
                );
                i = i + 2;
            } else if tag == 2 {
                if i + 2 >= b.len() {
                    return None;
                }
                let atom = b[i + 1];
                let value = match b[i + 2] {
                    0 => false,
                    1 => true,
                    _ => {
                        return None;
                    },
                };
                events.push(Event::Assign(Move::new(atom, value)));
                i = i + 3;
            } else {
                return None;
            }
            proof {
                let ghost ev = events@.last();
                assert(events@ =~= events@.drop_last().push(ev));
                match parse_events(b@, i as nat, (n - c - 1) as nat) {
                    Some((rest, end)) => {
                        assert(events@.drop_last() + (seq![ev] + rest) =~= events@ + rest);
                    },
                    None => {},
                }
            }
            c = c + 1;
        }
        if i != b.len() {
            return None;
        }
        let st = MatchState { seed, level, events };
        proof {
            assert(events@ + Seq::<Event>::empty() =~= events@);
        }
        if st.valid() {
            Some(st)
        } else {
            None
        }
    }

    /// Structural sanity: pick-side, then pick-order, then only assigns —
    /// and the assigns replay legally.
    pub fn valid(&self) -> (b: bool)
        ensures
            b == valid_of(self@),
    {
        let mut i: usize = 0;
        while i < self.events.len()
            invariant
                i <= self.events@.len(),
                forall|j: int|
                    0 <= j < i ==> match #[trigger] self.events@[j] {
                        Event::PickSide(_) => j == 0,
                        Event::PickOrder(_) => j == 1,
                        Event::Assign(_) => j >= 2,
                    },
            decreases self.events.len() - i,
        {
            let ok = match self.events[i] {
                Event::PickSide(_) => i == 0,
                Event::PickOrder(_) => i == 1,
                Event::Assign(_) => i >= 2,
            };
            if !ok {
                return false;
            }
            i = i + 1;
        }
        self.board().is_some()
    }
}

} // verus!
