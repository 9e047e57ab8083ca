use crate::search::explore::{is_open, within};
use vstd::prelude::*;

verus! {

/// The tables of a search between two of its rounds.
pub struct Tables {
    /// The best known cost of each cell, `None` where it was not reached.
    pub best: Seq<Option<u128>>,
    /// Whether each cell is settled.
    pub done: Seq<bool>,
    /// The cell before each reached cell on its cheapest known walk.
    pub from: Seq<usize>,
    /// Whether the search has come to its end.
    pub halted: bool,
    /// Whether the search has come to its end at the goal.
    pub found: bool,
}

/// The cell that a search settles next, looking at the first `upto`
/// cells: the reached and unsettled cell with the least sum of cost and
/// estimate, and of several such cells the one with the least number.
pub open spec fn pick_spec(
    best: Seq<Option<u128>>,
    done: Seq<bool>,
    estimate: Seq<u64>,
    upto: int,
) -> Option<int>
    decreases upto,
{
    if upto <= 0 {
        None
    } else {
        let before = pick_spec(best, done, estimate, upto - 1);
        let v = upto - 1;
        if is_open(best, done, v) && (before is None || best[v].unwrap() + estimate[v]
            < best[before.unwrap()].unwrap() + estimate[before.unwrap()]) {
            Some(v)
        } else {
            before
        }
    }
}

/// The costs and the cells before, after the first `upto` links of the
/// settled cell `u` have been taken into account, one after another: a
/// link to a cell that may be entered and is not settled gives that cell
/// the cost through `u` where that is within the budget and less than
/// was known.
pub open spec fn relax_spec(
    links: Seq<Seq<usize>>,
    passable: Seq<bool>,
    cost: Seq<u64>,
    budget: Option<u128>,
    best: Seq<Option<u128>>,
    from: Seq<usize>,
    done: Seq<bool>,
    u: int,
    upto: int,
) -> (Seq<Option<u128>>, Seq<usize>)
    decreases upto,
{
    if upto <= 0 {
        (best, from)
    } else {
        let before = relax_spec(links, passable, cost, budget, best, from, done, u, upto - 1);
        let v = links[u][upto - 1] as int;
        let via = best[u].unwrap() + cost[v];
        if passable[v] && !done[v] && within(budget, via) && (before.0[v] is None || via
            < before.0[v].unwrap()) {
            (before.0.update(v, Some(via as u128)), before.1.update(v, u as usize))
        } else {
            before
        }
    }
}

/// The tables with which a search sets out from `start` among `n` cells.
pub open spec fn first_tables(n: nat, start: int) -> Tables {
    Tables {
        best: Seq::new(
            n,
            |v: int|
                if v == start {
                    Some(0u128)
                } else {
                    None
                },
        ),
        done: Seq::new(n, |v: int| false),
        from: Seq::new(n, |v: int| 0usize),
        halted: false,
        found: false,
    }
}

/// One round of a search: it settles the cell that `pick_spec` names and
/// takes its links into account, or comes to its end, because that cell
/// is the goal or there is none.
pub open spec fn round_spec(
    links: Seq<Seq<usize>>,
    passable: Seq<bool>,
    cost: Seq<u64>,
    estimate: Seq<u64>,
    goal: Option<usize>,
    budget: Option<u128>,
    tables: Tables,
) -> Tables {
    if tables.halted {
        tables
    } else {
        match pick_spec(tables.best, tables.done, estimate, tables.best.len() as int) {
            None => Tables { halted: true, found: false, ..tables },
            Some(u) => if goal == Some(u as usize) {
                Tables { halted: true, found: true, ..tables }
            } else {
                let done = tables.done.update(u, true);
                let after = relax_spec(
                    links,
                    passable,
                    cost,
                    budget,
                    tables.best,
                    tables.from,
                    done,
                    u,
                    links[u].len() as int,
                );
                Tables { best: after.0, done, from: after.1, halted: false, found: false }
            },
        }
    }
}

/// The tables of a search after `rounds` rounds.
pub open spec fn run_spec(
    links: Seq<Seq<usize>>,
    passable: Seq<bool>,
    cost: Seq<u64>,
    estimate: Seq<u64>,
    start: int,
    goal: Option<usize>,
    budget: Option<u128>,
    rounds: nat,
) -> Tables
    decreases rounds,
{
    if rounds == 0 {
        first_tables(links.len(), start)
    } else {
        round_spec(
            links,
            passable,
            cost,
            estimate,
            goal,
            budget,
            run_spec(links, passable, cost, estimate, start, goal, budget, (rounds - 1) as nat),
        )
    }
}

/// The walk that the cells before record for `v`: back from `v` to
/// `start`, read forwards.
pub open spec fn chain_spec(from: Seq<usize>, start: int, v: int, fuel: nat) -> Seq<int>
    decreases fuel,
{
    if v == start || fuel == 0 {
        seq![v]
    } else {
        chain_spec(from, start, from[v] as int, (fuel - 1) as nat).push(v)
    }
}

/// The walk that a search from `start` to `goal` settles on, with its
/// cost, or `None` where it comes to its end without the goal.
///
/// Among the cheapest walks this is the one that the order of settling
/// decides: cells are settled by their cost plus estimate, the cell with
/// the least number first among equals, and a cell takes the first walk
/// that reaches it at its final cost.
pub open spec fn settled_route(
    links: Seq<Seq<usize>>,
    passable: Seq<bool>,
    cost: Seq<u64>,
    estimate: Seq<u64>,
    start: int,
    goal: int,
    budget: Option<u128>,
) -> Option<(Seq<int>, u128)> {
    let last = run_spec(
        links,
        passable,
        cost,
        estimate,
        start,
        Some(goal as usize),
        budget,
        links.len() + 1,
    );
    if last.found {
        Some((chain_spec(last.from, start, goal, links.len()), last.best[goal].unwrap()))
    } else {
        None
    }
}

/// A search that has come to its end stays as it is.
pub proof fn lemma_halted(
    links: Seq<Seq<usize>>,
    passable: Seq<bool>,
    cost: Seq<u64>,
    estimate: Seq<u64>,
    start: int,
    goal: Option<usize>,
    budget: Option<u128>,
    rounds: nat,
    later: nat,
)
    requires
        rounds <= later,
        run_spec(links, passable, cost, estimate, start, goal, budget, rounds).halted,
    ensures
        run_spec(links, passable, cost, estimate, start, goal, budget, later) == run_spec(
            links,
            passable,
            cost,
            estimate,
            start,
            goal,
            budget,
            rounds,
        ),
    decreases later - rounds,
{
    if rounds < later {
        lemma_halted(
            links,
            passable,
            cost,
            estimate,
            start,
            goal,
            budget,
            rounds,
            (later - 1) as nat,
        );
    }
}

} // verus!
