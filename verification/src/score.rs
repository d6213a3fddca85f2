//! How hard an input sequence is to play by hand.
//!
//! Holding the input costs a little on every frame. Letting go costs a lot
//! when it comes right after the last required input and less the more free
//! frames lie between; pressing costs nothing.
use vstd::prelude::*;

verus! {

/// Cost of letting go directly after a required input.
pub const RELEASE_COST: u128 = 10000;

/// The gap that a scan starts with: so wide that an input at the very start
/// counts as unhurried.
pub const OPENING_GAP: u64 = 1_000_000;

/// From this gap on, letting go costs nothing.
pub const FREE_GAP: u64 = 100;

/// Where a scan of an input sequence stands.
pub struct Tally {
    /// The cost so far.
    pub cost: nat,
    /// The last required input.
    pub held: bool,
    /// The number of free frames since the last required input.
    pub gap: nat,
}

/// Cost of letting go after `gap` free frames.
pub open spec fn release_cost(gap: nat) -> nat {
    RELEASE_COST as nat / ((gap + 1) * (gap + 1))
}

/// The scan after one more entry.
pub open spec fn tally_next(before: Tally, entry: Option<bool>) -> Tally {
    match entry {
        None => Tally { cost: before.cost, held: before.held, gap: before.gap + 1 },
        Some(value) => Tally {
            cost: before.cost + if value == before.held {
                if value {
                    1nat
                } else {
                    0nat
                }
            } else if before.held {
                release_cost(before.gap)
            } else {
                0nat
            },
            held: value,
            gap: 0,
        },
    }
}

/// The scan after all of `inputs`, read from the front.
pub open spec fn tally(inputs: Seq<Option<bool>>) -> Tally
    decreases inputs.len(),
{
    if inputs.len() == 0 {
        Tally { cost: 0, held: false, gap: OPENING_GAP as nat }
    } else {
        tally_next(tally(inputs.drop_last()), inputs.last())
    }
}

/// The difficulty of an input sequence.
pub open spec fn difficulty_of(inputs: Seq<Option<bool>>) -> nat {
    tally(inputs).cost
}

/// Letting go after a gap of `FREE_GAP` or more costs nothing.
pub proof fn lemma_wide_gap_is_free(gap: nat)
    requires
        gap >= FREE_GAP,
    ensures
        release_cost(gap) == 0,
{
    assert((gap + 1) * (gap + 1) > 10000) by (nonlinear_arith)
        requires
            gap >= 100,
    ;
    assert(10000nat / ((gap + 1) * (gap + 1)) == 0) by (nonlinear_arith)
        requires
            (gap + 1) * (gap + 1) > 10000,
    ;
}

/// No entry costs more than one release.
pub proof fn lemma_cost_bound(inputs: Seq<Option<bool>>)
    ensures
        difficulty_of(inputs) <= RELEASE_COST * inputs.len(),
    decreases inputs.len(),
{
    if inputs.len() > 0 {
        lemma_cost_bound(inputs.drop_last());
        let before = tally(inputs.drop_last());
        assert(release_cost(before.gap) <= 10000) by (nonlinear_arith)
            requires
                release_cost(before.gap) == 10000nat / ((before.gap + 1) * (before.gap + 1)),
        ;
    }
}

/// Computes the difficulty of an input sequence.
pub fn score(inputs: &[Option<bool>]) -> (cost: u128)
    ensures
        cost == difficulty_of(inputs@),
{
    let mut cost: u128 = 0;
    let mut held = false;
    // The gap, counted no further than `FREE_GAP`.
    let mut gap: u64 = FREE_GAP;
    let mut i: usize = 0;
    while i < inputs.len()
        invariant
            i <= inputs.len(),
            cost == tally(inputs@.take(i as int)).cost,
            held == tally(inputs@.take(i as int)).held,
            gap <= FREE_GAP,
            gap == tally(inputs@.take(i as int)).gap || (gap == FREE_GAP && tally(
                inputs@.take(i as int),
            ).gap >= FREE_GAP),
            cost <= RELEASE_COST * i,
        decreases inputs.len() - i,
    {
        let ghost before = tally(inputs@.take(i as int));
        proof {
            assert(inputs@.take(i + 1).drop_last() =~= inputs@.take(i as int));
            assert(inputs@.take(i + 1).last() == inputs@[i as int]);
            lemma_cost_bound(inputs@.take(i + 1));
            if before.gap >= FREE_GAP {
                lemma_wide_gap_is_free(before.gap);
            }
        }
        match inputs[i] {
            None => {
                if gap < FREE_GAP {
                    gap = gap + 1;
                }
            },
            Some(value) => {
                if value == held {
                    if value {
                        cost = cost + 1;
                    }
                } else if held && gap < FREE_GAP {
                    assert(1 <= (gap + 1) * (gap + 1) <= 10000) by (nonlinear_arith)
                        requires
                            0 <= gap < 100,
                    ;
                    let width: u128 = (gap as u128 + 1) * (gap as u128 + 1);
                    cost = cost + RELEASE_COST / width;
                }
                held = value;
                gap = 0;
            },
        }
        i += 1;
    }
    proof {
        assert(inputs@.take(inputs.len() as int) =~= inputs@);
    }
    cost
}

} // verus!
