use vstd::prelude::*;

use std::collections::HashMap;

use crate::breaks::{excluding, excluding_ids};
use crate::round_draw::new_random_id;

verus! {

broadcast use vstd::std_specs::hash::group_hash_axioms;

/// What a node of the tournament plan holds: a group of rounds (the number
/// its configuration asks for, and the rounds made so far), or a break with
/// the break it computed, if any.
pub enum PlanNodeKind {
    Round { num_rounds: u64, rounds: Vec<u128> },
    Break { break_id: Option<u128> },
}

/// Why a plan node could not be executed.
#[derive(Clone, Copy, Debug, PartialEq, Eq, Structural)]
pub enum NodeExecutionError {
    /// A node on the way to the root is not in the tournament.
    RoundIsNotInTournament { tournament_id: u128 },
    /// The break before the rounds has not been computed.
    MissingBreak,
}

/// The parent of node `c`, none for a root.
pub open spec fn parent_of(p: Map<u128, u128>, c: u128) -> Option<u128> {
    if p.contains_key(c) {
        Some(p[c])
    } else {
        None
    }
}

/// Whether the chain of parents from `x` reaches a root within `fuel` nodes.
pub open spec fn chain_ends(p: Map<u128, u128>, x: Option<u128>, fuel: nat) -> bool
    decreases fuel,
{
    match x {
        None => true,
        Some(c) => fuel > 0 && chain_ends(p, parent_of(p, c), (fuel - 1) as nat),
    }
}

/// Walks from `x` towards the root and finds the nearest break (with the break
/// it computed) and the last round of the nearest round group with rounds,
/// stopping as soon as both are found.
pub open spec fn walk_ancestors(
    p: Map<u128, u128>,
    nodes: Map<u128, PlanNodeKind>,
    tournament_id: u128,
    x: Option<u128>,
    brk: Option<Option<u128>>,
    prev: Option<u128>,
    fuel: nat,
) -> Result<(Option<Option<u128>>, Option<u128>), NodeExecutionError>
    decreases fuel,
{
    match x {
        None => Ok((brk, prev)),
        Some(c) => if fuel == 0 {
            Ok((brk, prev))
        } else if !nodes.contains_key(c) {
            Err(NodeExecutionError::RoundIsNotInTournament { tournament_id })
        } else {
            let up = parent_of(p, c);
            let f = (fuel - 1) as nat;
            match nodes[c] {
                PlanNodeKind::Break { break_id } => if brk is None {
                    if prev is Some {
                        Ok((Some(break_id), prev))
                    } else {
                        walk_ancestors(p, nodes, tournament_id, up, Some(break_id), prev, f)
                    }
                } else {
                    walk_ancestors(p, nodes, tournament_id, up, brk, prev, f)
                },
                PlanNodeKind::Round { rounds, .. } => if prev is None && rounds@.len() > 0 {
                    let np = Some(rounds@.last());
                    if brk is Some {
                        Ok((brk, np))
                    } else {
                        walk_ancestors(p, nodes, tournament_id, up, brk, np, f)
                    }
                } else {
                    walk_ancestors(p, nodes, tournament_id, up, brk, prev, f)
                },
            }
        },
    }
}

proof fn lemma_walk_fuel(
    p: Map<u128, u128>,
    nodes: Map<u128, PlanNodeKind>,
    tid: u128,
    x: Option<u128>,
    brk: Option<Option<u128>>,
    prev: Option<u128>,
    f1: nat,
    f2: nat,
)
    requires
        chain_ends(p, x, f1),
        chain_ends(p, x, f2),
    ensures
        walk_ancestors(p, nodes, tid, x, brk, prev, f1) == walk_ancestors(p, nodes, tid, x, brk, prev, f2),
    decreases f1,
{
    match x {
        None => {},
        Some(c) => {
            let up = parent_of(p, c);
            let f1p = (f1 - 1) as nat;
            let f2p = (f2 - 1) as nat;
            if nodes.contains_key(c) {
                match nodes[c] {
                    PlanNodeKind::Break { break_id } => {
                        lemma_walk_fuel(p, nodes, tid, up, Some(break_id), prev, f1p, f2p);
                        lemma_walk_fuel(p, nodes, tid, up, brk, prev, f1p, f2p);
                    },
                    PlanNodeKind::Round { rounds, .. } => {
                        if rounds@.len() > 0 {
                            lemma_walk_fuel(p, nodes, tid, up, brk, Some(rounds@.last()), f1p, f2p);
                        }
                        lemma_walk_fuel(p, nodes, tid, up, brk, prev, f1p, f2p);
                    },
                }
            }
        },
    }
}

/// The parent of node `c`, none for a root.
fn get_parent(parents: &HashMap<u128, u128>, c: u128) -> (r: Option<u128>)
    ensures
        r == parent_of(parents@, c),
{
    match parents.get(&c) {
        Some(p) => Some(*p),
        None => None,
    }
}

/// Walks from the parent of `node_id` towards the root of the plan and finds
/// the nearest break before the node, with the break it computed, and the last
/// round of the nearest round group before it that has rounds. The chain of
/// parents must reach a root.
pub fn find_relevant_ancestors(
    node_id: u128,
    parents: &HashMap<u128, u128>,
    nodes: &HashMap<u128, PlanNodeKind>,
    tournament_id: u128,
) -> (r: Result<(Option<Option<u128>>, Option<u128>), NodeExecutionError>)
    requires
        exists|f: nat| chain_ends(parents@, parent_of(parents@, node_id), f),
    ensures
        forall|f: nat| #[trigger] chain_ends(parents@, parent_of(parents@, node_id), f) ==> r
            == walk_ancestors(parents@, nodes@, tournament_id, parent_of(parents@, node_id), None, None, f),
{
    let ghost start = parent_of(parents@, node_id);
    let ghost f0 = choose|f: nat| chain_ends(parents@, start, f);
    let ghost mut f = f0;
    let mut brk: Option<Option<u128>> = None;
    let mut prev: Option<u128> = None;
    let mut cur = get_parent(parents, node_id);
    let ghost target = walk_ancestors(parents@, nodes@, tournament_id, start, None, None, f0);
    while cur.is_some()
        invariant
            chain_ends(parents@, cur, f),
            target == walk_ancestors(parents@, nodes@, tournament_id, cur, brk, prev, f),
            target == walk_ancestors(parents@, nodes@, tournament_id, start, None, None, f0),
            chain_ends(parents@, start, f0),
            start == parent_of(parents@, node_id),
        decreases f,
    {
        let c = cur.unwrap();
        let ghost ob = brk;
        let ghost op = prev;
        let ghost of = f;
        assert(of > 0);
        let kind = match nodes.get(&c) {
            Some(k) => k,
            None => {
                proof {
                    assert(!nodes@.contains_key(c));
                    assert(target == walk_ancestors(parents@, nodes@, tournament_id, Some(c), ob, op, of));
                    assert(target == Err::<(Option<Option<u128>>, Option<u128>), NodeExecutionError>(
                        NodeExecutionError::RoundIsNotInTournament { tournament_id }));
                    assert forall|g: nat| #[trigger] chain_ends(parents@, start, g) implies target
                        == walk_ancestors(parents@, nodes@, tournament_id, start, None, None, g) by {
                        lemma_walk_fuel(parents@, nodes@, tournament_id, start, None, None, f0, g);
                    }
                }
                return Err(NodeExecutionError::RoundIsNotInTournament { tournament_id });
            },
        };
        let mut done = false;
        match kind {
            PlanNodeKind::Break { break_id } => {
                if brk.is_none() {
                    brk = Some(*break_id);
                    if prev.is_some() {
                        done = true;
                    }
                }
            },
            PlanNodeKind::Round { rounds, .. } => {
                if prev.is_none() && rounds.len() > 0 {
                    prev = Some(rounds[rounds.len() - 1]);
                    if brk.is_some() {
                        done = true;
                    }
                }
            },
        }
        proof {
            f = (f - 1) as nat;
        }
        if done {
            proof {
                assert(target == walk_ancestors(parents@, nodes@, tournament_id, Some(c), ob, op, of));
                assert(target == Ok::<(Option<Option<u128>>, Option<u128>), NodeExecutionError>((brk, prev)));
                assert forall|g: nat| #[trigger] chain_ends(parents@, start, g) implies target
                    == walk_ancestors(parents@, nodes@, tournament_id, start, None, None, g) by {
                    lemma_walk_fuel(parents@, nodes@, tournament_id, start, None, None, f0, g);
                }
            }
            return Ok((brk, prev));
        }
        cur = get_parent(parents, c);
    }
    proof {
        assert forall|g: nat| #[trigger] chain_ends(parents@, start, g) implies target
            == walk_ancestors(parents@, nodes@, tournament_id, start, None, None, g) by {
            lemma_walk_fuel(parents@, nodes@, tournament_id, start, None, None, f0, g);
        }
    }
    Ok((brk, prev))
}

/// Keeps the first `num_rounds` existing rounds and adds fresh ones up to that
/// number; returns the rounds and the existing rounds beyond that number,
/// which are to be deleted.
pub fn fit_round_ids(existing: &Vec<u128>, num_rounds: usize) -> (r: (Vec<u128>, Vec<u128>))
    ensures
        r.0.len() == num_rounds,
        forall|i: int| 0 <= i < num_rounds && i < existing.len() ==> r.0@[i] == existing@[i],
        r.1@ == (if existing.len() > num_rounds { existing@.skip(num_rounds as int) } else { Seq::empty() }),
{
    let mut ids: Vec<u128> = Vec::new();
    let mut deleted: Vec<u128> = Vec::new();
    let mut i: usize = 0;
    while i < existing.len()
        invariant
            i <= existing.len(),
            ids.len() == (if i < num_rounds { i } else { num_rounds }),
            forall|k: int| 0 <= k < ids.len() ==> ids@[k] == existing@[k],
            deleted@ == (if i > num_rounds { existing@.subrange(num_rounds as int, i as int) } else { Seq::empty() }),
        decreases existing.len() - i,
    {
        if i < num_rounds {
            ids.push(existing[i]);
        } else {
            deleted.push(existing[i]);
            assert(deleted@ =~= existing@.subrange(num_rounds as int, i + 1));
        }
        i += 1;
    }
    while ids.len() < num_rounds
        invariant
            ids.len() <= num_rounds,
            forall|k: int| 0 <= k < num_rounds && k < existing.len() && k < ids.len() ==> ids@[k] == existing@[k],
            ids.len() >= (if existing.len() < num_rounds { existing.len() } else { num_rounds }),
        decreases num_rounds - ids.len(),
    {
        ids.push(new_random_id());
    }
    if existing.len() > num_rounds {
        assert(deleted@ =~= existing@.skip(num_rounds as int));
    }
    (ids, deleted)
}

/// The ids held by the slots, in order.
pub open spec fn present_ids(slots: Seq<Option<u128>>) -> Seq<u128>
    decreases slots.len(),
{
    if slots.len() == 0 {
        Seq::empty()
    } else {
        let rest = present_ids(slots.drop_last());
        match slots.last() {
            Some(v) => rest.push(v),
            None => rest,
        }
    }
}

/// The number of empty slots.
pub open spec fn free_count(slots: Seq<Option<u128>>) -> nat
    decreases slots.len(),
{
    if slots.len() == 0 {
        0
    } else {
        free_count(slots.drop_last()) + if slots.last() is None { 1nat } else { 0nat }
    }
}

/// The venues of the debates once the free ones are filled: each debate keeps
/// its venue; where the unused venues suffice for the debates without one, the
/// `k`-th such debate gets the `k`-th unused venue, else none gets one.
pub open spec fn venues_after_assignment(slots: Seq<Option<u128>>, venues: Seq<u128>) -> Seq<Option<u128>> {
    let available = excluding(venues, present_ids(slots));
    Seq::new(
        slots.len(),
        |i: int|
            if slots[i] is Some {
                slots[i]
            } else if available.len() >= free_count(slots) {
                Some(available[free_count(slots.take(i)) as int])
            } else {
                None
            },
    )
}

proof fn lemma_free_count_step(slots: Seq<Option<u128>>, i: int)
    requires
        0 <= i < slots.len(),
    ensures
        free_count(slots.take(i + 1)) == free_count(slots.take(i)) + if slots[i] is None { 1nat } else { 0nat },
{
    assert(slots.take(i + 1).drop_last() =~= slots.take(i));
}

proof fn lemma_free_count_mono(slots: Seq<Option<u128>>, i: int)
    requires
        0 <= i <= slots.len(),
    ensures
        free_count(slots.take(i)) <= free_count(slots),
    decreases slots.len() - i,
{
    if i < slots.len() {
        lemma_free_count_step(slots, i);
        lemma_free_count_mono(slots, i + 1);
    } else {
        assert(slots.take(i) =~= slots);
    }
}

proof fn lemma_free_count_le(slots: Seq<Option<u128>>)
    ensures
        free_count(slots) <= slots.len(),
    decreases slots.len(),
{
    if slots.len() > 0 {
        lemma_free_count_le(slots.drop_last());
    }
}

/// The ids held by the slots, in order.
fn collect_present(slots: &Vec<Option<u128>>) -> (r: Vec<u128>)
    ensures
        r@ == present_ids(slots@),
{
    let mut r: Vec<u128> = Vec::new();
    let mut i: usize = 0;
    while i < slots.len()
        invariant
            i <= slots.len(),
            r@ == present_ids(slots@.take(i as int)),
        decreases slots.len() - i,
    {
        assert(slots@.take(i + 1).drop_last() =~= slots@.take(i as int));
        match slots[i] {
            Some(v) => r.push(v),
            None => {},
        }
        i += 1;
    }
    assert(slots@.take(slots.len() as int) =~= slots@);
    r
}

/// Gives the debates without a venue the venues that no debate uses yet, in
/// the order of `venues`, when there are enough of them for all such debates.
pub fn assign_venues(debate_venues: &Vec<Option<u128>>, venues: &Vec<u128>) -> (r: Vec<Option<u128>>)
    ensures
        r@ == venues_after_assignment(debate_venues@, venues@),
{
    let used = collect_present(debate_venues);
    let available = excluding_ids(venues, &used);
    let mut free: usize = 0;
    let mut i: usize = 0;
    while i < debate_venues.len()
        invariant
            i <= debate_venues.len(),
            free == free_count(debate_venues@.take(i as int)),
        decreases debate_venues.len() - i,
    {
        proof {
            lemma_free_count_step(debate_venues@, i as int);
            lemma_free_count_le(debate_venues@.take(i + 1));
        }
        if debate_venues[i].is_none() {
            free += 1;
        }
        i += 1;
    }
    assert(debate_venues@.take(debate_venues.len() as int) =~= debate_venues@);
    let enough = available.len() >= free;
    let ghost total = free_count(debate_venues@);
    let mut r: Vec<Option<u128>> = Vec::new();
    let mut next: usize = 0;
    let mut i: usize = 0;
    while i < debate_venues.len()
        invariant
            i <= debate_venues.len(),
            next == free_count(debate_venues@.take(i as int)),
            total == free_count(debate_venues@),
            available@ == excluding(venues@, present_ids(debate_venues@)),
            enough == (available.len() >= total),
            r.len() == i,
            forall|k: int| 0 <= k < i ==> r@[k] == venues_after_assignment(debate_venues@, venues@)[k],
        decreases debate_venues.len() - i,
    {
        proof {
            lemma_free_count_step(debate_venues@, i as int);
            lemma_free_count_mono(debate_venues@, i + 1);
            lemma_free_count_le(debate_venues@.take(i + 1));
        }
        let v = match debate_venues[i] {
            Some(v) => Some(v),
            None => {
                if enough {
                    Some(available[next])
                } else {
                    None
                }
            },
        };
        if debate_venues[i].is_none() {
            next += 1;
        }
        r.push(v);
        i += 1;
    }
    assert(r@ =~= venues_after_assignment(debate_venues@, venues@));
    r
}

} // verus!
