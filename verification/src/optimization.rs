use vstd::prelude::*;

use crate::datastructures::{DebateView, DrawBallot, same_ballot};
use crate::evaluation::{DrawEvaluator, apply_events, empty_evaluation};
use crate::datastructures::draw_ballot_debate;
use crate::severity::evaluation_severity;

verus! {

/// The weight of each option for each ballot slot, option by option.
pub struct Matrix {
    pub weights: Vec<i128>,
    pub num_options: usize,
    pub num_ballots: usize,
}

/// The largest weight magnitude the auction takes.
pub open spec fn weight_bound() -> int {
    0x1_0000_0000_0000_0000_0000_0000_0000
}

impl Matrix {
    /// Whether the matrix holds one weight per option and slot.
    pub open spec fn well_formed(&self) -> bool {
        self.weights.len() == self.num_options * self.num_ballots
    }

    /// The weight of an option for a slot.
    pub open spec fn weight(&self, option: int, ballot: int) -> i128 {
        self.weights@[option * self.num_ballots + ballot]
    }

    /// A matrix of zero weights.
    pub fn new(num_options: usize, num_ballots: usize) -> (m: Self)
        requires
            num_options * num_ballots <= usize::MAX,
        ensures
            m.well_formed(),
            m.num_options == num_options,
            m.num_ballots == num_ballots,
            forall|i: int| 0 <= i < m.weights.len() ==> m.weights@[i] == 0,
    {
        let n = num_options * num_ballots;
        let mut weights: Vec<i128> = Vec::new();
        let mut i: usize = 0;
        while i < n
            invariant
                i <= n,
                weights.len() == i,
                forall|k: int| 0 <= k < i ==> weights@[k] == 0,
            decreases n - i,
        {
            weights.push(0);
            i += 1;
        }
        Matrix { weights, num_options, num_ballots }
    }

    /// The weight of an option for a slot.
    pub fn get(&self, option: usize, ballot: usize) -> (w: i128)
        requires
            self.well_formed(),
            option < self.num_options,
            ballot < self.num_ballots,
        ensures
            w == self.weight(option as int, ballot as int),
    {
        proof {
            lemma_index_in_range(option as int, ballot as int, self.num_options as int, self.num_ballots as int);
        }
        self.weights[option * self.num_ballots + ballot]
    }

    /// Sets the weight of an option for a slot.
    pub fn set(&mut self, option: usize, ballot: usize, value: i128)
        requires
            old(self).well_formed(),
            option < old(self).num_options,
            ballot < old(self).num_ballots,
        ensures
            final(self).well_formed(),
            final(self).num_options == old(self).num_options,
            final(self).num_ballots == old(self).num_ballots,
            final(self).weights@ == old(self).weights@.update(option * old(self).num_ballots + ballot, value),
    {
        proof {
            lemma_index_in_range(option as int, ballot as int, self.num_options as int, self.num_ballots as int);
        }
        let k = option * self.num_ballots + ballot;
        self.weights.set(k, value);
    }
}

proof fn lemma_index_in_range(o: int, b: int, no: int, nb: int)
    requires
        0 <= o < no,
        0 <= b < nb,
    ensures
        0 <= o * nb + b < no * nb,
        o * nb + nb <= no * nb,
{
    assert(0 <= o * nb) by (nonlinear_arith)
        requires
            0 <= o,
            0 <= nb,
    ;
    assert(o * nb + nb <= no * nb) by (nonlinear_arith)
        requires
            o + 1 <= no,
            0 <= nb,
    ;
}

/// Why an auction gave no assignment.
#[derive(Clone, Copy, Debug, PartialEq, Eq, Structural)]
pub enum AssignmentError {
    /// An option had no slot left worth bidding on.
    NoPositiveBid,
    /// Some slot was left without an option.
    UnassignedBallot,
    /// The severity of a candidate ballot does not fit in 32 bits.
    SeverityOverflow,
}

impl AssignmentError {
    /// The message that describes the error.
    pub fn message(&self) -> (text: String)
        ensures
            text@ == match self {
                AssignmentError::NoPositiveBid => "No slot is worth a bid"@,
                AssignmentError::UnassignedBallot => "A ballot was left without an option"@,
                AssignmentError::SeverityOverflow => "The severity of a ballot is too large"@,
            },
    {
        match self {
            AssignmentError::NoPositiveBid => "No slot is worth a bid".to_string(),
            AssignmentError::UnassignedBallot => "A ballot was left without an option".to_string(),
            AssignmentError::SeverityOverflow => "The severity of a ballot is too large".to_string(),
        }
    }
}

/// Whether `owners` gives each slot an option or none (`usize::MAX`), no
/// option holding two slots.
pub open spec fn is_partial_matching(owners: Seq<usize>, num_options: int) -> bool {
    &&& forall|j: int| 0 <= j < owners.len() ==> (#[trigger] owners[j] == usize::MAX || owners[j] < num_options)
    &&& forall|i: int, j: int|
        0 <= i < owners.len() && 0 <= j < owners.len() && i != j && owners[i] != usize::MAX ==> #[trigger] owners[i]
            != #[trigger] owners[j]
}

/// How many slots have a holder.
pub open spec fn held_count(owners: Seq<usize>) -> int
    decreases owners.len(),
{
    if owners.len() == 0 {
        0
    } else {
        held_count(owners.drop_last()) + if owners.last() != usize::MAX { 1int } else { 0 }
    }
}

/// The sum of the numbers.
pub open spec fn raise_sum(s: Seq<int>) -> int
    decreases s.len(),
{
    if s.len() == 0 {
        0
    } else {
        raise_sum(s.drop_last()) + s.last()
    }
}

/// Whether every weight lies between `lo` and `hi`.
pub open spec fn weights_within(w: Seq<i128>, lo: int, hi: int) -> bool {
    forall|i: int| 0 <= i < w.len() ==> lo <= #[trigger] w[i] <= hi
}

/// Whether the option is still waiting in the queue.
pub open spec fn waiting(queue: Seq<usize>, head: int, o: usize) -> bool {
    exists|k: int| head <= k < queue.len() && queue[k] == o
}

/// Whether the option holds some slot.
pub open spec fn holds_slot(owners: Seq<usize>, o: usize) -> bool {
    exists|x: int| 0 <= x < owners.len() && owners[x] == o
}

proof fn lemma_held_count_update(s: Seq<usize>, j: int, v: usize)
    requires
        0 <= j < s.len(),
    ensures
        held_count(s.update(j, v)) == held_count(s) - (if s[j] != usize::MAX { 1int } else { 0 }) + (if v
            != usize::MAX {
            1int
        } else {
            0
        }),
        0 <= held_count(s) <= s.len(),
    decreases s.len(),
{
    let t = s.update(j, v);
    if j == s.len() - 1 {
        assert(t.drop_last() =~= s.drop_last());
        lemma_held_count_bound(s);
    } else {
        assert(t.drop_last() =~= s.drop_last().update(j, v));
        lemma_held_count_update(s.drop_last(), j, v);
    }
}

proof fn lemma_held_count_bound(s: Seq<usize>)
    ensures
        0 <= held_count(s) <= s.len(),
    decreases s.len(),
{
    if s.len() > 0 {
        lemma_held_count_bound(s.drop_last());
    }
}

proof fn lemma_raise_sum_update(s: Seq<int>, j: int, v: int)
    requires
        0 <= j < s.len(),
    ensures
        raise_sum(s.update(j, v)) == raise_sum(s) - s[j] + v,
    decreases s.len(),
{
    let t = s.update(j, v);
    if j == s.len() - 1 {
        assert(t.drop_last() =~= s.drop_last());
    } else {
        assert(t.drop_last() =~= s.drop_last().update(j, v));
        lemma_raise_sum_update(s.drop_last(), j, v);
    }
}

proof fn lemma_raise_sum_bound(s: Seq<int>, c: int)
    requires
        forall|k: int| 0 <= k < s.len() ==> #[trigger] s[k] <= c,
    ensures
        raise_sum(s) <= s.len() * c,
    decreases s.len(),
{
    if s.len() > 0 {
        lemma_raise_sum_bound(s.drop_last(), c);
        assert(raise_sum(s) <= (s.len() - 1) * c + c);
        assert((s.len() - 1) * c + c == s.len() * c) by (nonlinear_arith);
    }
}

/// An auction with no more options than slots always has a free slot while an
/// option that holds none is waiting.
proof fn lemma_free_slot(owners: Seq<usize>, no: int, next: usize)
    requires
        no <= owners.len(),
        next < no,
        is_partial_matching(owners, no),
        forall|x: int| 0 <= x < owners.len() && owners[x] != usize::MAX ==> #[trigger] owners[x] != next,
    ensures
        exists|x: int| 0 <= x < owners.len() && owners[x] == usize::MAX,
{
    broadcast use vstd::set::group_set_axioms, vstd::seq_lib::group_seq_properties;

    if forall|x: int| 0 <= x < owners.len() ==> owners[x] != usize::MAX {
        let os = owners.map_values(|x: usize| x as int);
        assert(os.no_duplicates()) by {
            assert forall|i: int, j: int| 0 <= i < os.len() && 0 <= j < os.len() && i != j implies os[i] != os[j] by {
                assert(owners[i] != usize::MAX);
                assert(owners[i] != owners[j]);
            }
        }
        os.unique_seq_to_set();
        let range = vstd::set_lib::set_int_range(0, no).remove(next as int);
        vstd::set_lib::lemma_int_range(0, no);
        assert(os.to_set().subset_of(range)) by {
            assert forall|v: int| os.to_set().contains(v) implies range.contains(v) by {
                let i = choose|i: int| 0 <= i < os.len() && os[i] == v;
                assert(owners[i] != usize::MAX);
                assert(owners[i] < no);
            }
        }
        vstd::set_lib::lemma_len_subset(os.to_set(), range);
        assert(false);
    }
}

/// An auction with as many options as slots in which every option holds a
/// slot leaves no slot free.
proof fn lemma_all_held(owners: Seq<usize>, no: int)
    requires
        no == owners.len(),
        no <= usize::MAX,
        is_partial_matching(owners, no),
        forall|o: usize| o < no ==> #[trigger] holds_slot(owners, o),
    ensures
        forall|x: int| 0 <= x < owners.len() ==> #[trigger] owners[x] != usize::MAX,
{
    broadcast use vstd::set::group_set_axioms, vstd::seq_lib::group_seq_properties;

    if exists|x: int| 0 <= x < owners.len() && owners[x] == usize::MAX {
        let x0 = choose|x: int| 0 <= x < owners.len() && owners[x] == usize::MAX;
        let os = owners.map_values(|x: usize| x as int);
        os.lemma_cardinality_of_set();
        let wanted = vstd::set_lib::set_int_range(0, no).insert(usize::MAX as int);
        vstd::set_lib::lemma_int_range(0, no);
        assert(!vstd::set_lib::set_int_range(0, no).contains(usize::MAX as int));
        assert(wanted.len() == no + 1);
        assert(wanted.subset_of(os.to_set())) by {
            assert forall|v: int| wanted.contains(v) implies os.to_set().contains(v) by {
                if v == usize::MAX as int {
                    assert(os[x0] == v);
                } else {
                    assert(holds_slot(owners, v as usize));
                    let x = choose|x: int| 0 <= x < owners.len() && owners[x] == v as usize;
                    assert(os[x] == v);
                }
            }
        }
        vstd::set_lib::lemma_len_subset(wanted, os.to_set());
        assert(false);
    }
}

/// Whether `m` is the least of the weights.
pub open spec fn is_least_weight(w: Seq<i128>, m: int) -> bool {
    &&& exists|i: int| 0 <= i < w.len() && w[i] == m
    &&& forall|i: int| 0 <= i < w.len() ==> m <= #[trigger] w[i]
}

/// The least of the weights.
pub open spec fn least_weight(w: Seq<i128>) -> int {
    choose|m: int| is_least_weight(w, m)
}

/// The slot that option `next` bids on among the first `b` slots, with its
/// margin: of the slots where its weight exceeds the price, the one with the
/// largest margin, of equal margins the later one.
pub open spec fn best_bid(w: Seq<i128>, nb: int, next: int, prices: Seq<i128>, b: int) -> Option<(int, int)>
    decreases b,
{
    if b <= 0 {
        None
    } else {
        let prev = best_bid(w, nb, next, prices, b - 1);
        let bid = w[next * nb + (b - 1)] - prices[b - 1];
        if bid > 0 && (prev is None || bid >= prev->Some_0.1) {
            Some((b - 1, bid))
        } else {
            prev
        }
    }
}

/// The auction from the given queue, head of the queue, holders and prices,
/// for at most `fuel` more bids: the holders at the end, or `None` where an
/// option finds no slot worth a bid.
pub open spec fn auction_run(
    w: Seq<i128>,
    nb: int,
    queue: Seq<usize>,
    head: int,
    owners: Seq<usize>,
    prices: Seq<i128>,
    fuel: nat,
) -> Option<Seq<usize>>
    decreases fuel,
{
    if head >= queue.len() || fuel == 0 {
        Some(owners)
    } else {
        let next = queue[head];
        match best_bid(w, nb, next as int, prices, nb) {
            None => None,
            Some((bj, _)) => if owners[bj] == usize::MAX {
                auction_run(w, nb, queue, head + 1, owners.update(bj, next), prices, (fuel - 1) as nat)
            } else {
                auction_run(
                    w,
                    nb,
                    queue.push(owners[bj]),
                    head + 1,
                    owners.update(bj, next),
                    prices.update(bj, (prices[bj] + 100) as i128),
                    (fuel - 1) as nat,
                )
            },
        }
    }
}

/// What the auction on `no` options and `nb` slots gives: every option
/// queued in order, every slot free at a price just below the least weight,
/// at most 10000 bids.
#[verifier::opaque]
pub open spec fn auction_outcome(w: Seq<i128>, no: int, nb: int) -> Option<Seq<usize>> {
    auction_run(
        w,
        nb,
        Seq::new(no as nat, |k: int| k as usize),
        0,
        Seq::new(nb as nat, |k: int| usize::MAX),
        Seq::new(nb as nat, |k: int| (least_weight(w) - 1) as i128),
        10000,
    )
}

/// Whether the auction settles within its limit of bids: every slot held.
pub open spec fn auction_settles(w: Seq<i128>, no: int, nb: int) -> bool {
    &&& auction_outcome(w, no, nb) is Some
    &&& auction_outcome(w, no, nb)->Some_0.len() == nb
    &&& forall|j: int| 0 <= j < nb ==> #[trigger] auction_outcome(w, no, nb)->Some_0[j] != usize::MAX
}

/// Assigns options to ballot slots by an auction: each waiting option bids on
/// the slot where its weight most exceeds the slot's price (of equal margins,
/// the later slot), taking the slot and sending its holder back to the end of
/// the queue, whose price then rises by one step. Prices start just below the
/// smallest weight. Weights are in hundredths of a severity times the number
/// of slots plus one, so that a step of 100 is a hundredth of a severity over
/// the number of slots plus one. After at most 10000 bids, the holder of each
/// slot is returned with the slot, `usize::MAX` for a slot without one.
/// With no more options than slots no option runs out of slots to bid on;
/// with as many options as slots and every weight between `lo` and `hi`, the
/// queue empties and every slot is held, where the slots times the steps from
/// `lo` to `hi` plus two stay under the limit of bids. Where every slot is
/// held and there are as many options as slots, each holder loses at most one
/// step against any other slot at the final prices, so no full assignment
/// weighs more than one step per slot above the one returned. The result is
/// the one that `auction_outcome`, the run of these bids, gives.
pub fn auction_algorithm(weights: &Matrix) -> (r: Result<Vec<(usize, usize)>, AssignmentError>)
    requires
        weights.well_formed(),
        weights.num_options > 0,
        weights.num_ballots > 0,
        forall|i: int| 0 <= i < weights.weights.len() ==> -weight_bound() <= #[trigger] weights.weights@[i] <= weight_bound(),
    ensures
        r is Ok <==> auction_outcome(weights.weights@, weights.num_options as int, weights.num_ballots as int) is Some,
        r matches Ok(pairs) ==> pairs@.map_values(|p: (usize, usize)| p.0) == auction_outcome(
            weights.weights@,
            weights.num_options as int,
            weights.num_ballots as int,
        )->Some_0,
        r matches Err(e) ==> e == AssignmentError::NoPositiveBid,
        r matches Ok(pairs) ==> {
            &&& pairs.len() == weights.num_ballots
            &&& forall|j: int| 0 <= j < pairs.len() ==> (#[trigger] pairs@[j]).1 == j
            &&& is_partial_matching(pairs@.map_values(|p: (usize, usize)| p.0), weights.num_options as int)
        },
        weights.num_options <= weights.num_ballots ==> r is Ok,
        forall|lo: int, hi: int|
            #[trigger] weights_within(weights.weights@, lo, hi) && weights.num_options == weights.num_ballots
                && weights.num_ballots * ((hi - lo) / 100 + 2) < 10000 ==> (r matches Ok(pairs) && forall|j: int|
                0 <= j < pairs.len() ==> (#[trigger] pairs@[j]).0 != usize::MAX),
        r matches Ok(pairs) ==> (weights.num_options == weights.num_ballots && (forall|j: int|
            0 <= j < pairs.len() ==> (#[trigger] pairs@[j]).0 != usize::MAX) ==> forall|other: Seq<usize>|
            #[trigger] is_full_assignment(other, weights.num_ballots as int) ==> assignment_weight(
                weights.weights@,
                weights.num_ballots as int,
                pairs@.map_values(|p: (usize, usize)| p.0),
            ) + 100 * weights.num_ballots >= assignment_weight(weights.weights@, weights.num_ballots as int, other)),
{
    let no = weights.num_options;
    let nb = weights.num_ballots;
    let delta: i128 = 100;
    let mut queue: Vec<usize> = Vec::new();
    let mut i: usize = 0;
    while i < no
        invariant
            i <= no,
            queue.len() == i,
            forall|k: int| 0 <= k < i ==> queue@[k] == k,
        decreases no - i,
    {
        queue.push(i);
        i += 1;
    }
    assert(no * nb > 0) by (nonlinear_arith)
        requires
            no > 0,
            nb > 0,
    ;
    let mut min_value: i128 = weights.weights[0];
    let mut k: usize = 1;
    while k < weights.weights.len()
        invariant
            1 <= k <= weights.weights.len(),
            weights.weights.len() == no * nb,
            forall|i: int| 0 <= i < weights.weights.len() ==> -weight_bound() <= #[trigger] weights.weights@[i] <= weight_bound(),
            -weight_bound() <= min_value <= weight_bound(),
            forall|i: int| 0 <= i < k ==> min_value <= #[trigger] weights.weights@[i],
            exists|i: int| 0 <= i < weights.weights.len() && weights.weights@[i] == min_value,
        decreases weights.weights.len() - k,
    {
        if weights.weights[k] < min_value {
            min_value = weights.weights[k];
        }
        k += 1;
    }
    let mut owners: Vec<usize> = Vec::new();
    let mut prices: Vec<i128> = Vec::new();
    let mut j: usize = 0;
    while j < nb
        invariant
            j <= nb,
            owners.len() == j,
            prices.len() == j,
            forall|k: int| 0 <= k < j ==> owners@[k] == usize::MAX,
            forall|k: int| 0 <= k < j ==> prices@[k] == min_value - 1,
            -weight_bound() <= min_value <= weight_bound(),
        decreases nb - j,
    {
        owners.push(usize::MAX);
        prices.push(min_value - 1);
        j += 1;
    }
    let ghost mut raises: Seq<int> = Seq::new(nb as nat, |k: int| 0int);
    proof {
        reveal(auction_outcome);
        let w = weights.weights@;
        assert(is_least_weight(w, min_value as int));
        let m = least_weight(w);
        assert(is_least_weight(w, m));
        let i1 = choose|i: int| 0 <= i < w.len() && w[i] == m;
        let i2 = choose|i: int| 0 <= i < w.len() && w[i] == min_value;
        assert(m <= w[i2] && min_value <= w[i1]);
        assert(m == min_value);
        assert(queue@ =~= Seq::new(no as nat, |k: int| k as usize));
        assert(owners@ =~= Seq::new(nb as nat, |k: int| usize::MAX));
        assert(prices@ =~= Seq::new(nb as nat, |k: int| (least_weight(w) - 1) as i128));
    }
    proof {
        assert(held_count(owners@) == 0) by {
            lemma_held_count_zero(owners@);
        }
        assert(raise_sum(raises) == 0) by {
            lemma_raise_sum_zero(raises);
        }
        assert forall|o: usize| o < no implies #[trigger] waiting(queue@, 0, o) by {
            assert(queue@[o as int] == o);
        }
    }
    let mut head: usize = 0;
    let mut round: usize = 0;
    while round < 10000
        invariant
            weights.well_formed(),
            no == weights.num_options,
            nb == weights.num_ballots,
            owners.len() == nb,
            prices.len() == nb,
            raises.len() == nb,
            head <= queue.len(),
            queue.len() <= no + round,
            round <= 10000,
            delta == 100,
            forall|i: int| 0 <= i < weights.weights.len() ==> -weight_bound() <= #[trigger] weights.weights@[i] <= weight_bound(),
            -weight_bound() <= min_value <= weight_bound(),
            forall|i: int| 0 <= i < weights.weights.len() ==> min_value <= #[trigger] weights.weights@[i],
            exists|i: int| 0 <= i < weights.weights.len() && weights.weights@[i] == min_value,
            forall|k: int| 0 <= k < nb ==> -weight_bound() - 1 <= #[trigger] prices@[k] <= weight_bound() + 100 * round,
            forall|k: int| 0 <= k < nb ==> #[trigger] prices@[k] == min_value - 1 + 100 * raises[k] && raises[k] >= 0,
            forall|k: int| 0 <= k < nb && #[trigger] raises[k] > 0 ==> owners@[k] != usize::MAX,
            forall|k: int|
                0 <= k < nb && #[trigger] raises[k] > 0 ==> exists|i: int|
                    0 <= i < weights.weights.len() && prices@[k] < weights.weights@[i] + 100,
            round == held_count(owners@) + raise_sum(raises),
            forall|k: int| 0 <= k < queue.len() ==> #[trigger] queue@[k] < no,
            is_partial_matching(owners@, no as int),
            forall|k1: int, k2: int| head <= k1 < k2 < queue.len() ==> #[trigger] queue@[k1] != #[trigger] queue@[k2],
            forall|k: int, x: int| head <= k < queue.len() && 0 <= x < nb && owners@[x] != usize::MAX ==> #[trigger] queue@[k] != #[trigger] owners@[x],
            forall|o: usize| o < no ==> #[trigger] waiting(queue@, head as int, o) || holds_slot(owners@, o),
            margins_within_step(*weights, owners@, prices@),
            auction_outcome(weights.weights@, no as int, nb as int) == auction_run(
                weights.weights@,
                nb as int,
                queue@,
                head as int,
                owners@,
                prices@,
                (10000 - round) as nat,
            ),
        ensures
            head >= queue.len() || round == 10000,
            auction_outcome(weights.weights@, no as int, nb as int) == auction_run(
                weights.weights@,
                nb as int,
                queue@,
                head as int,
                owners@,
                prices@,
                (10000 - round) as nat,
            ),
        decreases 10000 - round,
    {
        if head >= queue.len() {
            break;
        }
        let ghost head0 = head;
        let next = queue[head];
        head += 1;
        let mut best: Option<(usize, i128)> = None;
        let mut b: usize = 0;
        while b < nb
            invariant
                weights.well_formed(),
                no == weights.num_options,
                nb == weights.num_ballots,
                next < no,
                b <= nb,
                prices.len() == nb,
                round < 10000,
                forall|i: int| 0 <= i < weights.weights.len() ==> -weight_bound() <= #[trigger] weights.weights@[i] <= weight_bound(),
                forall|k: int| 0 <= k < nb ==> -weight_bound() - 1 <= #[trigger] prices@[k] <= weight_bound() + 100 * round,
                best matches Some((bj, bb)) ==> bj < b && bb > 0 && bb == weights.weight(next as int, bj as int) - prices@[bj as int],
                best is None ==> forall|x: int| 0 <= x < b ==> weights.weight(next as int, x) - #[trigger] prices@[x] <= 0,
                best matches Some((bj, bb)) ==> forall|x: int| 0 <= x < b ==> weights.weight(next as int, x) - #[trigger] prices@[x] <= bb,
                match best {
                    None => best_bid(weights.weights@, nb as int, next as int, prices@, b as int) is None,
                    Some((bj, bb)) => best_bid(weights.weights@, nb as int, next as int, prices@, b as int) == Some(
                        (bj as int, bb as int),
                    ),
                },
            decreases nb - b,
        {
            let w = weights.get(next, b);
            proof {
                lemma_index_in_range(next as int, b as int, no as int, nb as int);
                assert(-weight_bound() <= weights.weights@[next * nb + b]);
            }
            let bid = w - prices[b];
            if bid > 0 {
                match best {
                    None => {
                        best = Some((b, bid));
                    },
                    Some((_, bb)) => {
                        if bid >= bb {
                            best = Some((b, bid));
                        }
                    },
                }
            }
            b += 1;
        }
        match best {
            None => {
                proof {
                    if no <= nb {
                        assert forall|x: int| 0 <= x < owners@.len() && owners@[x] != usize::MAX implies #[trigger] owners@[x] != next by {
                            assert(queue@[head - 1] == next);
                        }
                        lemma_free_slot(owners@, no as int, next);
                        let x = choose|x: int| 0 <= x < owners@.len() && owners@[x] == usize::MAX;
                        assert(prices@[x] == min_value - 1 + 100 * raises[x]);
                        assert(raises[x] == 0);
                        lemma_index_in_range(next as int, x, no as int, nb as int);
                        assert(min_value <= weights.weights@[next * nb + x]);
                        assert(weights.weight(next as int, x) - prices@[x] <= 0);
                        assert(false);
                    }
                }
                return Err(AssignmentError::NoPositiveBid);
            },
            Some((bj, bb)) => {
                let ghost old_owners = owners@;
                let ghost old_queue = queue@;
                let ghost old_prices = prices@;
                let ghost old_raises = raises;
                let ghost old_head = head;
                proof {
                    lemma_index_in_range(next as int, bj as int, no as int, nb as int);
                }
                assert(prices@[bj as int] <= weight_bound() + 100 * round);
                if owners[bj] == usize::MAX {
                    owners.set(bj, next);
                    proof {
                        lemma_held_count_update(old_owners, bj as int, next);
                    }
                } else {
                    let displaced = owners[bj];
                    queue.push(displaced);
                    owners.set(bj, next);
                    let p = prices[bj] + delta;
                    prices.set(bj, p);
                    proof {
                        lemma_held_count_update(old_owners, bj as int, next);
                        lemma_raise_sum_update(old_raises, bj as int, old_raises[bj as int] + 1);
                        raises = old_raises.update(bj as int, old_raises[bj as int] + 1);
                        assert(prices@[bj as int] < weights.weights@[next * nb + bj] + 100);
                    }
                }
                proof {
                    assert forall|b1: int, c: int|
                        0 <= b1 < owners@.len() && 0 <= c < owners@.len() && owners@[b1] != usize::MAX implies weights.weight(
                        owners@[b1] as int,
                        b1,
                    ) - prices@[b1] >= #[trigger] weights.weight(owners@[b1] as int, c) - #[trigger] prices@[c] - 100 by {
                        assert(old_prices[c] <= prices@[c]);
                        if b1 == bj {
                            assert(owners@[b1] == next);
                            assert(prices@[b1] <= old_prices[b1] + 100);
                            if c != bj {
                                assert(weights.weight(next as int, c) - old_prices[c] <= bb);
                            }
                        } else {
                            assert(owners@[b1] == old_owners[b1]);
                            assert(prices@[b1] == old_prices[b1]);
                            assert(weights.weight(old_owners[b1] as int, b1) - old_prices[b1] >= weights.weight(
                                old_owners[b1] as int,
                                c,
                            ) - old_prices[c] - 100);
                        }
                    }
                    assert forall|q: int| 0 <= q < nb implies -weight_bound() - 1 <= #[trigger] prices@[q]
                        <= weight_bound() + 100 * (round + 1) by {
                        assert(old_prices[q] <= weight_bound() + 100 * round);
                        assert(-weight_bound() - 1 <= old_prices[q]);
                    }
                    assert forall|q: int| 0 <= q < nb implies #[trigger] prices@[q] == min_value - 1 + 100 * raises[q] && raises[q] >= 0 by {
                        assert(old_prices[q] == min_value - 1 + 100 * old_raises[q]);
                    }
                    assert forall|q: int| 0 <= q < nb && #[trigger] raises[q] > 0 implies owners@[q] != usize::MAX by {
                        if q != bj {
                            assert(old_raises[q] == raises[q]);
                        }
                    }
                    assert forall|q: int|
                        0 <= q < nb && #[trigger] raises[q] > 0 implies exists|i: int|
                            0 <= i < weights.weights.len() && prices@[q] < weights.weights@[i] + 100 by {
                        if q == bj && raises[q] != old_raises[q] {
                            assert(prices@[bj as int] < weights.weights@[next * nb + bj] + 100);
                        } else {
                            assert(old_raises[q] > 0);
                            assert(prices@[q] == old_prices[q]);
                        }
                    }
                    assert forall|k1: int, k2: int| head <= k1 < k2 < queue.len() implies #[trigger] queue@[k1]
                        != #[trigger] queue@[k2] by {
                        if k2 >= old_queue.len() {
                            assert(queue@[k2] == old_owners[bj as int]);
                            assert(queue@[k1] == old_queue[k1]);
                        }
                    }
                    assert forall|i: int, j: int|
                        0 <= i < owners@.len() && 0 <= j < owners@.len() && i != j && owners@[i] != usize::MAX implies #[trigger] owners@[i]
                            != #[trigger] owners@[j] by {
                        if i == bj && j != bj && old_owners[j] != usize::MAX {
                            assert(old_queue[old_head - 1] == next);
                        }
                        if j == bj && i != bj {
                            assert(old_queue[old_head - 1] == next);
                        }
                    }
                    assert forall|k: int, x: int|
                        head <= k < queue.len() && 0 <= x < nb && owners@[x] != usize::MAX implies #[trigger] queue@[k]
                            != #[trigger] owners@[x] by {
                        if x == bj {
                            assert(old_queue[old_head - 1] == next);
                            if k < old_queue.len() {
                                assert(queue@[k] == old_queue[k]);
                            } else {
                                assert(queue@[k] == old_owners[bj as int]);
                                assert(old_owners[bj as int] != old_queue[old_head - 1]);
                            }
                        } else if k >= old_queue.len() {
                            assert(queue@[k] == old_owners[bj as int]);
                        } else {
                            assert(queue@[k] == old_queue[k]);
                        }
                    }
                    assert forall|o: usize| o < no implies #[trigger] waiting(queue@, head as int, o) || holds_slot(owners@, o) by {
                        if o == next {
                            assert(owners@[bj as int] == next);
                        } else if waiting(old_queue, head0 as int, o) {
                            let k = choose|k: int| head0 <= k < old_queue.len() && old_queue[k] == o;
                            assert(k != head0);
                            assert(queue@[k] == o);
                        } else {
                            assert(waiting(old_queue, head0 as int, o) || holds_slot(old_owners, o));
                            let x = choose|x: int| 0 <= x < old_owners.len() && old_owners[x] == o;
                            if x == bj {
                                assert(queue@[old_queue.len() as int] == o);
                            } else {
                                assert(owners@[x] == o);
                            }
                        }
                    }
                }
            },
        }
        round += 1;
    }
    proof {
        assert forall|lo: int, hi: int|
            weights_within(weights.weights@, lo, hi) && no == nb && nb * ((hi - lo) / 100 + 2) < 10000 implies forall|x: int|
                0 <= x < nb ==> #[trigger] owners@[x] != usize::MAX by {
            if head < queue.len() {
                let d = hi - lo;
                assert forall|q: int| 0 <= q < raises.len() implies #[trigger] raises[q] <= d / 100 + 1 by {
                    if raises[q] > 0 {
                        let i = choose|i: int| 0 <= i < weights.weights.len() && prices@[q] < weights.weights@[i] + 100;
                        let m = choose|i: int| 0 <= i < weights.weights.len() && weights.weights@[i] == min_value;
                        assert(weights.weights@[i] <= hi);
                        assert(lo <= weights.weights@[m]);
                        let r = raises[q];
                        assert(100 * r <= d + 100);
                        assert(r <= d / 100 + 1) by (nonlinear_arith)
                            requires
                                100 * r <= d + 100,
                                d >= 0,
                        ;
                    }
                }
                assert(d >= 0) by {
                    assert(lo <= weights.weights@[0] <= hi);
                }
                lemma_raise_sum_bound(raises, d / 100 + 1);
                lemma_held_count_bound(owners@);
                assert(nb * (d / 100 + 1) + nb == nb * (d / 100 + 2)) by (nonlinear_arith);
                assert(false);
            }
            assert forall|o: usize| o < no implies #[trigger] holds_slot(owners@, o) by {
                assert(waiting(queue@, head as int, o) || holds_slot(owners@, o));
            }
            lemma_all_held(owners@, no as int);
        }
    }
    let mut pairs: Vec<(usize, usize)> = Vec::new();
    let mut j: usize = 0;
    while j < nb
        invariant
            j <= nb,
            owners.len() == nb,
            pairs.len() == j,
            forall|k: int| 0 <= k < j ==> (#[trigger] pairs@[k]) == (owners@[k], k as usize),
        decreases nb - j,
    {
        pairs.push((owners[j], j));
        j += 1;
    }
    assert(pairs@.map_values(|p: (usize, usize)| p.0) =~= owners@);
    proof {
        if no == nb && forall|x: int| 0 <= x < nb ==> #[trigger] owners@[x] != usize::MAX {
            assert forall|other: Seq<usize>| #[trigger] is_full_assignment(other, nb as int) implies assignment_weight(
                weights.weights@,
                nb as int,
                owners@,
            ) + 100 * nb >= assignment_weight(weights.weights@, nb as int, other) by {
                lemma_assignment_near_best(*weights, owners@, prices@, other);
            }
        }
        assert forall|x: int| 0 <= x < nb implies (#[trigger] pairs@[x]).0 == owners@[x] by {}
    }
    Ok(pairs)
}

/// The sum of `f` over `0..n`.
pub open spec fn sum_of(f: spec_fn(int) -> int, n: int) -> int
    decreases n,
{
    if n <= 0 {
        0
    } else {
        sum_of(f, n - 1) + f(n - 1)
    }
}

/// The total weight of the assignment that gives slot `b` to option
/// `owners[b]`.
pub open spec fn assignment_weight(weights: Seq<i128>, nb: int, owners: Seq<usize>) -> int {
    sum_of(|b: int| weights[owners[b] * nb + b] as int, owners.len() as int)
}

/// Whether `owners` gives each of the `n` slots its own one of the `n`
/// options.
pub open spec fn is_full_assignment(owners: Seq<usize>, n: int) -> bool {
    &&& owners.len() == n
    &&& forall|b: int| 0 <= b < n ==> #[trigger] owners[b] < n
    &&& forall|b1: int, b2: int| 0 <= b1 < n && 0 <= b2 < n && b1 != b2 ==> #[trigger] owners[b1] != #[trigger] owners[b2]
}

/// Whether the holder of each slot loses at most one step of 100 against any
/// other slot at the current prices.
spec fn margins_within_step(weights: Matrix, owners: Seq<usize>, prices: Seq<i128>) -> bool {
    forall|b: int, c: int|
        0 <= b < owners.len() && 0 <= c < owners.len() && owners[b] != usize::MAX ==> weights.weight(owners[b] as int, b)
            - prices[b] >= #[trigger] weights.weight(owners[b] as int, c) - #[trigger] prices[c] - 100
}

pub proof fn lemma_sum_ext(f: spec_fn(int) -> int, g: spec_fn(int) -> int, n: int)
    requires
        forall|i: int| 0 <= i < n ==> #[trigger] f(i) == g(i),
    ensures
        sum_of(f, n) == sum_of(g, n),
    decreases n,
{
    if n > 0 {
        lemma_sum_ext(f, g, n - 1);
    }
}

proof fn lemma_sum_update(f: spec_fn(int) -> int, g: spec_fn(int) -> int, n: int, k: int)
    requires
        0 <= k < n,
        forall|i: int| 0 <= i < n && i != k ==> #[trigger] f(i) == g(i),
    ensures
        sum_of(g, n) == sum_of(f, n) - f(k) + g(k),
    decreases n,
{
    if n - 1 == k {
        lemma_sum_ext(f, g, n - 1);
    } else {
        lemma_sum_update(f, g, n - 1, k);
    }
}

/// Summing `x - y >= u - v - d` over `0..n`.
proof fn lemma_sum_margins(
    x: spec_fn(int) -> int,
    y: spec_fn(int) -> int,
    u: spec_fn(int) -> int,
    v: spec_fn(int) -> int,
    d: int,
    n: int,
)
    requires
        0 <= n,
        forall|i: int| 0 <= i < n ==> #[trigger] x(i) - y(i) >= u(i) - v(i) - d,
    ensures
        sum_of(x, n) - sum_of(y, n) >= sum_of(u, n) - sum_of(v, n) - d * n,
    decreases n,
{
    if n > 0 {
        lemma_sum_margins(x, y, u, v, d, n - 1);
        assert(x(n - 1) - y(n - 1) >= u(n - 1) - v(n - 1) - d);
        assert(d * n == d * (n - 1) + d) by (nonlinear_arith);
        assert(sum_of(x, n) == sum_of(x, n - 1) + x(n - 1));
        assert(sum_of(y, n) == sum_of(y, n - 1) + y(n - 1));
        assert(sum_of(u, n) == sum_of(u, n - 1) + u(n - 1));
        assert(sum_of(v, n) == sum_of(v, n - 1) + v(n - 1));
    } else {
        assert(d * n == 0) by (nonlinear_arith)
            requires
                n == 0,
        ;
    }
}

/// Summing `y = -(k * x + c)` over `0..n`.
proof fn lemma_sum_affine(x: spec_fn(int) -> int, y: spec_fn(int) -> int, k: int, c: int, n: int)
    requires
        0 <= n,
        forall|i: int| 0 <= i < n ==> #[trigger] y(i) == -(k * x(i) + c),
    ensures
        sum_of(y, n) == -(k * sum_of(x, n) + c * n),
    decreases n,
{
    if n > 0 {
        lemma_sum_affine(x, y, k, c, n - 1);
        let sx = sum_of(x, n - 1);
        assert(y(n - 1) == -(k * x(n - 1) + c));
        assert(k * (sx + x(n - 1)) == k * sx + k * x(n - 1)) by (nonlinear_arith);
        assert(c * n == c * (n - 1) + c) by (nonlinear_arith);
        assert(sum_of(x, n) == sum_of(x, n - 1) + x(n - 1));
        assert(sum_of(y, n) == sum_of(y, n - 1) + y(n - 1));
    } else {
        assert(c * n == 0) by (nonlinear_arith)
            requires
                n == 0,
        ;
        assert(k * 0 == 0) by (nonlinear_arith);
    }
}

/// A map of `0..n` into itself without repeats reaches every value.
proof fn lemma_onto(pi: Seq<int>, n: int, v: int)
    requires
        pi.len() == n,
        0 <= v < n,
        forall|b: int| 0 <= b < n ==> 0 <= #[trigger] pi[b] < n,
        forall|b1: int, b2: int| 0 <= b1 < n && 0 <= b2 < n && b1 != b2 ==> #[trigger] pi[b1] != #[trigger] pi[b2],
    ensures
        exists|b: int| 0 <= b < n && pi[b] == v,
{
    broadcast use vstd::set::group_set_axioms, vstd::seq_lib::group_seq_properties;

    if forall|b: int| 0 <= b < n ==> pi[b] != v {
        assert(pi.no_duplicates()) by {
            assert forall|i: int, j: int| 0 <= i < pi.len() && 0 <= j < pi.len() && i != j implies pi[i] != pi[j] by {}
        }
        pi.unique_seq_to_set();
        let range = vstd::set_lib::set_int_range(0, n).remove(v);
        vstd::set_lib::lemma_int_range(0, n);
        assert(pi.to_set().subset_of(range)) by {
            assert forall|w: int| pi.to_set().contains(w) implies range.contains(w) by {
                let i = choose|i: int| 0 <= i < pi.len() && pi[i] == w;
                assert(0 <= pi[i] < n);
            }
        }
        vstd::set_lib::lemma_len_subset(pi.to_set(), range);
        assert(false);
    }
}

/// Summing over a permutation of `0..n` gives the same sum.
proof fn lemma_sum_permuted(f: spec_fn(int) -> int, pi: Seq<int>, n: int)
    requires
        pi.len() == n,
        forall|b: int| 0 <= b < n ==> 0 <= #[trigger] pi[b] < n,
        forall|b1: int, b2: int| 0 <= b1 < n && 0 <= b2 < n && b1 != b2 ==> #[trigger] pi[b1] != #[trigger] pi[b2],
    ensures
        sum_of(|b: int| f(pi[b]), n) == sum_of(f, n),
    decreases n,
{
    if n > 0 {
        lemma_onto(pi, n, n - 1);
        let k = choose|b: int| 0 <= b < n && pi[b] == n - 1;
        let q = pi.update(k, pi[n - 1]).take(n - 1);
        assert forall|b: int| 0 <= b < n - 1 implies 0 <= #[trigger] q[b] < n - 1 by {
            if b == k {
                assert(pi[n - 1] != pi[k]);
            } else {
                assert(pi[b] != pi[k]);
            }
        }
        assert forall|b1: int, b2: int| 0 <= b1 < n - 1 && 0 <= b2 < n - 1 && b1 != b2 implies #[trigger] q[b1]
            != #[trigger] q[b2] by {
            if b1 == k {
                assert(pi[n - 1] != pi[b2]);
            } else if b2 == k {
                assert(pi[n - 1] != pi[b1]);
            } else {
                assert(pi[b1] != pi[b2]);
            }
        }
        lemma_sum_permuted(f, q, n - 1);
        let h = |b: int| f(pi[b]);
        let hq = |b: int| f(q[b]);
        if k == n - 1 {
            lemma_sum_ext(h, hq, n - 1);
        } else {
            lemma_sum_update(h, hq, n - 1, k);
        }
    }
}

/// With every slot held and each holder within one step of its best slot, no
/// full assignment weighs more than one step per slot above the holders'.
proof fn lemma_assignment_near_best(weights: Matrix, owners: Seq<usize>, prices: Seq<i128>, other: Seq<usize>)
    requires
        weights.well_formed(),
        weights.num_options == weights.num_ballots,
        owners.len() == weights.num_ballots,
        prices.len() == weights.num_ballots,
        is_partial_matching(owners, weights.num_options as int),
        forall|x: int| 0 <= x < owners.len() ==> #[trigger] owners[x] != usize::MAX,
        margins_within_step(weights, owners, prices),
        is_full_assignment(other, weights.num_ballots as int),
    ensures
        assignment_weight(weights.weights@, weights.num_ballots as int, owners) + 100 * weights.num_ballots
            >= assignment_weight(weights.weights@, weights.num_ballots as int, other),
{
    let n = weights.num_ballots as int;
    let w = weights.weights@;
    // the slot that the holders give to each option
    assert forall|o: usize| o < n implies #[trigger] holds_slot(owners, o) by {
        if !holds_slot(owners, o) {
            assert forall|x: int| 0 <= x < owners.len() && owners[x] != usize::MAX implies #[trigger] owners[x] != o by {}
            lemma_free_slot(owners, n, o);
        }
    }
    let pos = |o: usize| choose|b: int| 0 <= b < owners.len() && owners[b] == o;
    let pi = Seq::new(n as nat, |b: int| pos(other[b]));
    assert forall|b: int| 0 <= b < n implies 0 <= #[trigger] pi[b] < n && owners[pi[b]] == other[b] by {
        assert(other[b] < n);
        assert(holds_slot(owners, other[b]));
    }
    assert forall|b1: int, b2: int| 0 <= b1 < n && 0 <= b2 < n && b1 != b2 implies #[trigger] pi[b1] != #[trigger] pi[b2] by {
        assert(owners[pi[b1]] == other[b1]);
        assert(owners[pi[b2]] == other[b2]);
        assert(other[b1] != other[b2]);
    }
    let ws = |c: int| w[owners[c] * n + c] as int;
    let ps = |c: int| prices[c] as int;
    let wo = |b: int| w[other[b] * n + b] as int;
    assert forall|b: int| 0 <= b < n implies ws(pi[b]) - ps(pi[b]) >= wo(b) - ps(b) - 100 by {
        let s = pi[b];
        assert(owners[s] == other[b]);
        assert(weights.weight(owners[s] as int, s) - prices[s] >= weights.weight(owners[s] as int, b) - prices[b] - 100);
    }
    lemma_sum_margins(|b: int| ws(pi[b]), |b: int| ps(pi[b]), wo, ps, 100, n);
    lemma_sum_permuted(ws, pi, n);
    lemma_sum_permuted(ps, pi, n);
    lemma_sum_ext(|b: int| w[owners[b] * n + b] as int, ws, n);
    lemma_sum_ext(|b: int| w[other[b] * n + b] as int, wo, n);
}

proof fn lemma_held_count_zero(s: Seq<usize>)
    requires
        forall|k: int| 0 <= k < s.len() ==> s[k] == usize::MAX,
    ensures
        held_count(s) == 0,
    decreases s.len(),
{
    if s.len() > 0 {
        lemma_held_count_zero(s.drop_last());
    }
}

proof fn lemma_raise_sum_zero(s: Seq<int>)
    requires
        forall|k: int| 0 <= k < s.len() ==> s[k] == 0,
    ensures
        raise_sum(s) == 0,
    decreases s.len(),
{
    if s.len() > 0 {
        lemma_raise_sum_zero(s.drop_last());
    }
}

/// The total severity of the issues of a debate.
pub open spec fn debate_severity(e: DrawEvaluator, d: DebateView) -> nat {
    evaluation_severity(apply_events(empty_evaluation(), e.debate_events(d)))
}

/// The total severity of the issues of a candidate ballot.
pub open spec fn candidate_severity(e: DrawEvaluator, b: DrawBallot) -> nat {
    debate_severity(e, draw_ballot_debate(b))
}

/// Whether `v` takes, for each slot `j`, the candidate at slot `j` of option
/// `sigma[j]`, each option at most once.
pub open spec fn picks_one_per_option(v: Seq<DrawBallot>, options: Seq<Vec<DrawBallot>>, sigma: Seq<usize>) -> bool {
    &&& sigma.len() == v.len()
    &&& forall|j: int| 0 <= j < sigma.len() ==> (#[trigger] sigma[j]) < options.len()
    &&& forall|i: int, j: int| 0 <= i < sigma.len() && 0 <= j < sigma.len() && i != j ==> #[trigger] sigma[i]
        != #[trigger] sigma[j]
    &&& forall|j: int| 0 <= j < v.len() ==> same_ballot(#[trigger] v[j], options[sigma[j] as int]@[j])
}

/// Whether `ballots` has a positive number of options, each with the same
/// positive number of ballots.
pub open spec fn is_option_grid(ballots: Seq<Vec<DrawBallot>>) -> bool {
    &&& ballots.len() > 0
    &&& ballots[0].len() > 0
    &&& forall|o: int| 0 <= o < ballots.len() ==> (#[trigger] ballots[o]).len() == ballots[0].len()
}

/// Whether no candidate of the grid has a total severity above `s`.
pub open spec fn severities_at_most(e: DrawEvaluator, ballots: Seq<Vec<DrawBallot>>, s: int) -> bool {
    forall|o: int, b: int|
        0 <= o < ballots.len() && 0 <= b < ballots[0].len() ==> candidate_severity(e, #[trigger] ballots[o]@[b]) <= s
}

/// Whether an auction over `n` options for `n` slots, on candidates of a
/// total severity of at most `s`, settles within its limit of bids.
pub open spec fn auction_in_reach(n: int, s: int) -> bool {
    n * (s * (n + 1) + 2) < 10000
}

/// The auction weight of the candidate at position `i` of the grid laid out
/// option by option, `nb` slots each.
pub open spec fn candidate_weight(e: DrawEvaluator, ballots: Seq<Vec<DrawBallot>>, nb: int, i: int) -> int {
    -((candidate_severity(e, ballots[i / nb]@[i % nb]) * 100 + 1) * (nb + 1))
}

proof fn lemma_weight_between(sev: int, s: int, nb: int)
    requires
        0 <= sev <= s,
        0 < nb,
    ensures
        -((s * 100 + 1) * (nb + 1)) <= -((sev * 100 + 1) * (nb + 1)) <= -(nb + 1),
{
    assert((sev * 100 + 1) * (nb + 1) <= (s * 100 + 1) * (nb + 1)) by (nonlinear_arith)
        requires
            0 <= sev <= s,
            0 < nb,
    ;
    assert((nb + 1) <= (sev * 100 + 1) * (nb + 1)) by (nonlinear_arith)
        requires
            0 <= sev,
            0 < nb,
    ;
}

proof fn lemma_position_in_grid(i: int, no: int, nb: int)
    requires
        0 <= i < no * nb,
        0 < nb,
    ensures
        0 <= i / nb < no,
        0 <= i % nb < nb,
{
    vstd::arithmetic::div_mod::lemma_fundamental_div_mod(i, nb);
    vstd::arithmetic::div_mod::lemma_mod_pos_bound(i, nb);
    assert(0 <= i / nb < no) by (nonlinear_arith)
        requires
            i == nb * (i / nb) + (i % nb),
            0 <= i % nb < nb,
            0 <= i < no * nb,
            0 < nb,
    ;
}

/// The total severity of the candidates that `sigma` picks, for slot `j` the
/// candidate of option `sigma[j]`.
pub open spec fn pick_severity(e: DrawEvaluator, ballots: Seq<Vec<DrawBallot>>, sigma: Seq<usize>) -> int {
    sum_of(|j: int| candidate_severity(e, ballots[sigma[j] as int]@[j]) as int, sigma.len() as int)
}

/// Whether, in a grid of as many options as slots, no way of giving each
/// slot its own option picks candidates of a smaller total severity than
/// `sigma` does.
#[verifier::opaque]
pub open spec fn is_least_severe_pick(e: DrawEvaluator, ballots: Seq<Vec<DrawBallot>>, sigma: Seq<usize>) -> bool {
    ballots.len() == ballots[0].len() ==> forall|tau: Seq<usize>|
        #[trigger] is_full_assignment(tau, ballots.len() as int) ==> pick_severity(e, ballots, sigma) <= pick_severity(
            e,
            ballots,
            tau,
        )
}

/// A least severe pick of a square grid, whose candidate for slot `j` from
/// option `o` has the debate `view(j, o)`, weighs no more than the pick that
/// gives slot `j` the option of slot `pi[j]` instead, for any `pi` that gives
/// each slot its own slot.
pub proof fn lemma_least_pick_against_reorder(
    e: DrawEvaluator,
    ballots: Seq<Vec<DrawBallot>>,
    sigma: Seq<usize>,
    view: spec_fn(int, int) -> DebateView,
    pi: Seq<usize>,
)
    requires
        is_option_grid(ballots),
        ballots.len() == ballots[0].len(),
        is_full_assignment(sigma, ballots.len() as int),
        is_least_severe_pick(e, ballots, sigma),
        forall|o: int, j: int|
            0 <= o < ballots.len() && 0 <= j < ballots.len() ==> draw_ballot_debate(#[trigger] ballots[o]@[j]) == view(j, o),
        is_full_assignment(pi, ballots.len() as int),
    ensures
        sum_of(|j: int| debate_severity(e, view(j, sigma[j] as int)) as int, ballots.len() as int) <= sum_of(
            |j: int| debate_severity(e, view(j, sigma[pi[j] as int] as int)) as int,
            ballots.len() as int,
        ),
{
    reveal(is_least_severe_pick);
    let n = ballots.len() as int;
    let tau = Seq::new(n as nat, |j: int| sigma[pi[j] as int]);
    assert forall|b: int| 0 <= b < n implies #[trigger] tau[b] < n by {
        assert(pi[b] < n);
    }
    assert forall|b1: int, b2: int| 0 <= b1 < n && 0 <= b2 < n && b1 != b2 implies #[trigger] tau[b1] != #[trigger] tau[b2] by {
        assert(pi[b1] != pi[b2]);
        assert(pi[b1] < n && pi[b2] < n);
    }
    assert(is_full_assignment(tau, n));
    assert forall|j: int| 0 <= j < n implies #[trigger] candidate_severity(e, ballots[sigma[j] as int]@[j]) as int
        == debate_severity(e, view(j, sigma[j] as int)) as int by {
        assert(sigma[j] < n);
        assert(draw_ballot_debate(ballots[sigma[j] as int]@[j]) == view(j, sigma[j] as int));
    }
    assert forall|j: int| 0 <= j < n implies #[trigger] candidate_severity(e, ballots[tau[j] as int]@[j]) as int
        == debate_severity(e, view(j, sigma[pi[j] as int] as int)) as int by {
        assert(tau[j] < n);
        assert(draw_ballot_debate(ballots[tau[j] as int]@[j]) == view(j, tau[j] as int));
    }
    lemma_sum_ext(
        |j: int| candidate_severity(e, ballots[sigma[j] as int]@[j]) as int,
        |j: int| debate_severity(e, view(j, sigma[j] as int)) as int,
        n,
    );
    lemma_sum_ext(
        |j: int| candidate_severity(e, ballots[tau[j] as int]@[j]) as int,
        |j: int| debate_severity(e, view(j, sigma[pi[j] as int] as int)) as int,
        n,
    );
}

proof fn lemma_pick_weight(e: DrawEvaluator, ballots: Seq<Vec<DrawBallot>>, w: Seq<i128>, sigma: Seq<usize>)
    requires
        is_option_grid(ballots),
        ballots.len() == ballots[0].len(),
        w.len() == ballots.len() * ballots[0].len(),
        forall|i: int| 0 <= i < w.len() ==> #[trigger] w[i] == candidate_weight(e, ballots, ballots[0].len() as int, i),
        sigma.len() == ballots.len(),
        forall|b: int| 0 <= b < sigma.len() ==> #[trigger] sigma[b] < ballots.len(),
    ensures
        assignment_weight(w, ballots.len() as int, sigma) == -(100 * (ballots.len() + 1) * pick_severity(e, ballots, sigma)
            + (ballots.len() + 1) * ballots.len()),
{
    let n = ballots.len() as int;
    let x = |j: int| candidate_severity(e, ballots[sigma[j] as int]@[j]) as int;
    let y = |b: int| w[sigma[b] * n + b] as int;
    assert forall|b: int| 0 <= b < n implies #[trigger] y(b) == -(100 * (n + 1) * x(b) + (n + 1)) by {
        let o = sigma[b] as int;
        lemma_index_in_range(o, b, n, n);
        vstd::arithmetic::div_mod::lemma_fundamental_div_mod_converse(o * n + b, n, o, b);
        assert(w[o * n + b] == candidate_weight(e, ballots, n, o * n + b));
        let sev = candidate_severity(e, ballots[o]@[b]) as int;
        assert((sev * 100 + 1) * (n + 1) == 100 * (n + 1) * sev + (n + 1)) by (nonlinear_arith);
    }
    lemma_sum_affine(x, y, 100 * (n + 1), n + 1, n);
    lemma_sum_ext(y, |b: int| w[sigma[b] * n + b] as int, n);
    lemma_sum_ext(x, |j: int| candidate_severity(e, ballots[sigma[j] as int]@[j]) as int, n);
}

/// Under `severities_at_most` and `auction_in_reach`, the weights of a
/// square grid meet the auction's condition for settling every slot.
proof fn lemma_grid_in_reach(
    e: DrawEvaluator,
    ballots: Seq<Vec<DrawBallot>>,
    w: Seq<i128>,
    s: int,
) -> (bounds: (int, int))
    requires
        is_option_grid(ballots),
        ballots.len() == ballots[0].len(),
        w.len() == ballots.len() * ballots[0].len(),
        forall|i: int| 0 <= i < w.len() ==> #[trigger] w[i] == candidate_weight(e, ballots, ballots[0].len() as int, i),
        severities_at_most(e, ballots, s),
        auction_in_reach(ballots[0].len() as int, s),
    ensures
        weights_within(w, bounds.0, bounds.1),
        ballots[0].len() * ((bounds.1 - bounds.0) / 100 + 2) < 10000,
{
    let no = ballots.len() as int;
    let nb = ballots[0].len() as int;
    assert(candidate_severity(e, ballots[0]@[0]) <= s);
    let lo = -((s * 100 + 1) * (nb + 1));
    let hi = -(nb + 1);
    assert forall|i: int| 0 <= i < w.len() implies lo <= #[trigger] w[i] <= hi by {
        lemma_position_in_grid(i, no, nb);
        let sev = candidate_severity(e, ballots[i / nb]@[i % nb]) as int;
        assert(sev <= s);
        lemma_weight_between(sev, s, nb);
    }
    assert(hi - lo == 100 * (s * (nb + 1))) by (nonlinear_arith)
        requires
            lo == -((s * 100 + 1) * (nb + 1)),
            hi == -(nb + 1),
    ;
    vstd::arithmetic::div_mod::lemma_div_multiples_vanish(s * (nb + 1), 100);
    (lo, hi)
}

/// The auction weights of the grid's candidates, option by option.
#[verifier::opaque]
pub open spec fn grid_weights(e: DrawEvaluator, ballots: Seq<Vec<DrawBallot>>) -> Seq<i128> {
    let nb = ballots[0].len() as int;
    Seq::new((ballots.len() * nb) as nat, |i: int| candidate_weight(e, ballots, nb, i) as i128)
}

/// Whether the auction on the grid settles within its limit of bids, every
/// candidate's severity fitting in 32 bits.
#[verifier::opaque]
pub open spec fn grid_settles(e: DrawEvaluator, ballots: Seq<Vec<DrawBallot>>) -> bool {
    &&& forall|o: int, b: int|
        0 <= o < ballots.len() && 0 <= b < ballots[0].len() ==> candidate_severity(e, #[trigger] ballots[o]@[b]) <= u32::MAX
    &&& auction_settles(grid_weights(e, ballots), ballots.len() as int, ballots[0].len() as int)
}

/// Picks for each ballot slot the candidate of one option, no option twice,
/// by an auction on the candidates' total severities: each slot's option
/// weighs its candidate at minus the severity plus a hundredth. Where there
/// are as many options as slots and `auction_in_reach` holds of a bound on
/// the candidates' severities, the auction settles and a pick is returned.
/// With as many options as slots, the pick returned has the least total
/// severity of all ways of giving each slot its own option: the weights are
/// scaled so that the auction's tolerance of one step per slot stays below
/// one unit of severity. A pick is returned exactly when the severities fit
/// in 32 bits and the auction on the grid's weights settles (`grid_settles`);
/// it is then the one that the run of the auction (`auction_outcome`) gives.
#[verifier::spinoff_prover]
pub fn find_best_ballot_assignments(ballots: &Vec<Vec<DrawBallot>>, evaluator: &DrawEvaluator) -> (r: Result<
    Vec<DrawBallot>,
    AssignmentError,
>)
    requires
        is_option_grid(ballots@),
        ballots.len() * ballots@[0].len() <= usize::MAX,
    ensures
        (r matches Err(AssignmentError::SeverityOverflow)) <==> exists|o: int, b: int|
            0 <= o < ballots.len() && 0 <= b < ballots@[0].len() && candidate_severity(*evaluator, #[trigger] ballots@[o]@[b])
                > u32::MAX,
        r matches Ok(v) ==> {
            &&& v.len() == ballots@[0].len()
            &&& exists|sigma: Seq<usize>|
                #[trigger] picks_one_per_option(v@, ballots@, sigma) && is_least_severe_pick(*evaluator, ballots@, sigma)
        },
        forall|s: int|
            #[trigger] severities_at_most(*evaluator, ballots@, s) && ballots.len() == ballots@[0].len()
                && auction_in_reach(ballots@[0].len() as int, s) ==> r is Ok,
        r is Ok <==> grid_settles(*evaluator, ballots@),
        r matches Ok(v) ==> picks_one_per_option(
            v@,
            ballots@,
            auction_outcome(grid_weights(*evaluator, ballots@), ballots.len() as int, ballots@[0].len() as int)->Some_0,
        ),
{
    let no = ballots.len();
    let nb = ballots[0].len();
    let mut matrix = Matrix::new(no, nb);
    let ghost mut filled: int = 0;
    let mut o: usize = 0;
    while o < no
        invariant
            o <= no,
            filled == o * nb,
            forall|i: int| 0 <= i < filled ==> #[trigger] matrix.weights@[i] == candidate_weight(*evaluator, ballots@, nb as int, i),
            no == ballots.len(),
            nb == ballots@[0].len(),
            is_option_grid(ballots@),
            matrix.well_formed(),
            matrix.num_options == no,
            matrix.num_ballots == nb,
            forall|i: int| 0 <= i < matrix.weights.len() ==> -weight_bound() <= #[trigger] matrix.weights@[i] <= weight_bound(),
            forall|p: int, b: int| 0 <= p < o && 0 <= b < nb ==> candidate_severity(*evaluator, #[trigger] ballots@[p]@[b])
                <= u32::MAX,
        decreases no - o,
    {
        let mut b: usize = 0;
        while b < nb
            invariant
                o < no,
                b <= nb,
                no == ballots.len(),
                nb == ballots@[0].len(),
                is_option_grid(ballots@),
                matrix.well_formed(),
                matrix.num_options == no,
                matrix.num_ballots == nb,
                forall|i: int| 0 <= i < matrix.weights.len() ==> -weight_bound() <= #[trigger] matrix.weights@[i] <= weight_bound(),
                forall|p: int, c: int| 0 <= p < o && 0 <= c < nb ==> candidate_severity(*evaluator, #[trigger] ballots@[p]@[c])
                    <= u32::MAX,
                forall|c: int| 0 <= c < b ==> candidate_severity(*evaluator, #[trigger] ballots@[o as int]@[c]) <= u32::MAX,
                filled == o * nb + b,
                forall|i: int| 0 <= i < filled ==> #[trigger] matrix.weights@[i] == candidate_weight(*evaluator, ballots@, nb as int, i),
            decreases nb - b,
        {
            assert(ballots@[o as int].len() == nb);
            let issues = evaluator.find_issues_in_ballot(&ballots[o][b]);
            let severity = match issues.checked_total_severity() {
                Some(s) => s,
                None => {
                    proof {
                        assert forall|s: int|
                            #[trigger] severities_at_most(*evaluator, ballots@, s) && no == nb implies !auction_in_reach(nb as int, s) by {
                            assert(candidate_severity(*evaluator, ballots@[o as int]@[b as int]) <= s);
                            assert(nb * (s * (nb + 1) + 2) >= s) by (nonlinear_arith)
                                requires
                                    s > 0,
                                    nb >= 1,
                            ;
                        }
                    }
                    proof {
                        reveal(grid_settles);
                        assert(candidate_severity(*evaluator, ballots@[o as int]@[b as int]) > u32::MAX);
                    }
                    return Err(AssignmentError::SeverityOverflow);
                },
            };
            let scaled: i128 = (severity as i128) * 100 + 1;
            proof {
                assert(scaled * (nb + 1) <= 0x64_0000_0000 * 0x1_0000_0000_0000_0001) by (nonlinear_arith)
                    requires
                        0 < scaled <= 0x64_0000_0000,
                        0 < nb + 1 <= 0x1_0000_0000_0000_0001,
                ;
                assert(0 <= scaled * (nb + 1)) by (nonlinear_arith)
                    requires
                        0 < scaled,
                        0 < nb + 1,
                ;
            }
            let weight: i128 = -(scaled * (nb as i128 + 1));
            let ghost before = matrix.weights@;
            matrix.set(o, b, weight);
            proof {
                lemma_index_in_range(o as int, b as int, no as int, nb as int);
                assert forall|i: int| 0 <= i < matrix.weights.len() implies -weight_bound() <= #[trigger] matrix.weights@[i]
                    <= weight_bound() by {
                    if i != o * nb + b {
                        assert(matrix.weights@[i] == before[i]);
                    }
                }
                vstd::arithmetic::div_mod::lemma_fundamental_div_mod_converse(filled, nb as int, o as int, b as int);
                assert forall|i: int| 0 <= i < filled + 1 implies #[trigger] matrix.weights@[i] == candidate_weight(
                    *evaluator,
                    ballots@,
                    nb as int,
                    i,
                ) by {
                    if i != filled {
                        assert(matrix.weights@[i] == before[i]);
                    }
                }
                filled = filled + 1;
            }
            b += 1;
        }
        proof {
            assert(o * nb + nb == (o + 1) * nb) by (nonlinear_arith);
        }
        o += 1;
    }
    proof {
        assert(matrix.weights@ =~= grid_weights(*evaluator, ballots@)) by {
            reveal(grid_weights);
            assert forall|i: int| 0 <= i < matrix.weights.len() implies matrix.weights@[i] == #[trigger] grid_weights(
                *evaluator,
                ballots@,
            )[i] by {
                assert(matrix.weights@[i] == candidate_weight(*evaluator, ballots@, nb as int, i));
            }
        }
    }
    let pairs = match auction_algorithm(&matrix) {
        Ok(p) => p,
        Err(e) => {
            proof {
                reveal(grid_settles);
            }
            return Err(e);
        },
    };
    proof {
        assert forall|s: int|
            #[trigger] severities_at_most(*evaluator, ballots@, s) && no == nb && auction_in_reach(nb as int, s) implies forall|
                k: int,
            | 0 <= k < nb ==> (#[trigger] pairs@[k]).0 != usize::MAX by {
            let bounds = lemma_grid_in_reach(*evaluator, ballots@, matrix.weights@, s);
            assert(weights_within(matrix.weights@, bounds.0, bounds.1));
        }
    }
    let picked = collect_assigned(ballots, &pairs);
    let ghost sigma = pairs@.map_values(|p: (usize, usize)| p.0);
    proof {
        if picked is Some && no == nb {
            assert forall|tau: Seq<usize>| #[trigger] is_full_assignment(tau, no as int) implies pick_severity(
                *evaluator,
                ballots@,
                sigma,
            ) <= pick_severity(*evaluator, ballots@, tau) by {
                assert(forall|j: int| 0 <= j < pairs.len() ==> (#[trigger] pairs@[j]).0 != usize::MAX);
                assert forall|b: int| 0 <= b < sigma.len() implies #[trigger] sigma[b] < ballots.len() by {
                    assert(pairs@[b].0 != usize::MAX);
                }
                lemma_pick_weight(*evaluator, ballots@, matrix.weights@, sigma);
                lemma_pick_weight(*evaluator, ballots@, matrix.weights@, tau);
                let ss = pick_severity(*evaluator, ballots@, sigma);
                let st = pick_severity(*evaluator, ballots@, tau);
                let n = no as int;
                assert(ss <= st) by (nonlinear_arith)
                    requires
                        -(100 * (n + 1) * ss + (n + 1) * n) + 100 * n >= -(100 * (n + 1) * st + (n + 1) * n),
                        n > 0,
                ;
            }
        }
        assert(picked is Some ==> is_least_severe_pick(*evaluator, ballots@, sigma)) by {
            reveal(is_least_severe_pick);
        }
    }
    match picked {
        Some(out) => {
            proof {
                assert(picks_one_per_option(out@, ballots@, sigma) && is_least_severe_pick(*evaluator, ballots@, sigma));
                reveal(grid_settles);
                assert forall|j: int| 0 <= j < nb implies #[trigger] sigma[j] != usize::MAX by {
                    assert(pairs@[j].0 != usize::MAX);
                }
                assert(grid_settles(*evaluator, ballots@));
            }
            Ok(out)
        },
        None => {
            proof {
                reveal(grid_settles);
                let j = choose|j: int| 0 <= j < pairs.len() && #[trigger] pairs@[j].0 == usize::MAX;
                assert(sigma[j] == usize::MAX);
            }
            Err(AssignmentError::UnassignedBallot)
        },
    }
}

/// The candidates that the auction's pairs assign, slot by slot, or `None`
/// where a slot was left without an option.
fn collect_assigned(ballots: &Vec<Vec<DrawBallot>>, pairs: &Vec<(usize, usize)>) -> (r: Option<Vec<DrawBallot>>)
    requires
        is_option_grid(ballots@),
        pairs.len() == ballots@[0].len(),
        forall|k: int| 0 <= k < pairs.len() ==> (#[trigger] pairs@[k]).1 == k,
        is_partial_matching(pairs@.map_values(|p: (usize, usize)| p.0), ballots.len() as int),
    ensures
        r is Some <==> forall|k: int| 0 <= k < pairs.len() ==> (#[trigger] pairs@[k]).0 != usize::MAX,
        r matches Some(v) ==> {
            &&& v.len() == ballots@[0].len()
            &&& picks_one_per_option(v@, ballots@, pairs@.map_values(|p: (usize, usize)| p.0))
        },
{
    let no = ballots.len();
    let nb = ballots[0].len();
    let mut out: Vec<DrawBallot> = Vec::new();
    let ghost owners = pairs@.map_values(|p: (usize, usize)| p.0);
    let mut j: usize = 0;
    while j < nb
        invariant
            j <= nb,
            no == ballots.len(),
            nb == ballots@[0].len(),
            is_option_grid(ballots@),
            pairs.len() == nb,
            forall|k: int| 0 <= k < pairs.len() ==> (#[trigger] pairs@[k]).1 == k,
            owners == pairs@.map_values(|p: (usize, usize)| p.0),
            is_partial_matching(owners, no as int),
            out.len() == j,
            forall|k: int| 0 <= k < j ==> #[trigger] owners[k] < no,
            forall|k: int| 0 <= k < j ==> (#[trigger] pairs@[k]).0 != usize::MAX,
            forall|k: int| 0 <= k < j ==> same_ballot(#[trigger] out@[k], ballots@[owners[k] as int]@[k]),
        decreases nb - j,
    {
        let (owner, slot) = pairs[j];
        assert(owners[j as int] == owner);
        assert(slot == j);
        if owner == usize::MAX {
            return None;
        }
        assert(ballots@[owner as int].len() == nb);
        out.push(ballots[owner][slot].duplicate());
        j += 1;
    }
    proof {
        let sigma = owners;
        assert forall|i: int, k: int| 0 <= i < sigma.len() && 0 <= k < sigma.len() && i != k implies #[trigger] sigma[i]
            != #[trigger] sigma[k] by {
            assert(sigma[i] < no);
        }
        assert(picks_one_per_option(out@, ballots@, sigma));
    }
    Some(out)
}

} // verus!
