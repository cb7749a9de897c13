//! The most frequent characters of a count table, and the lower bound of
//! one on the numeric options.

use crate::counts::{code_of, lemma_code_injective, CharCounts};
use vstd::prelude::*;

verus! {

/// Whether the entry `a` ranks above `b`: by the higher count, and among
/// equal counts by the higher character.
pub open spec fn ranks_above(a: (char, usize), b: (char, usize)) -> bool {
    a.1 > b.1 || (a.1 == b.1 && code_of(a.0) > code_of(b.0))
}

/// Whether `c` is the character of an entry of `list`.
pub open spec fn listed(list: Seq<(char, usize)>, c: char) -> bool {
    exists|i: int| 0 <= i < list.len() && (#[trigger] list[i]).0 == c
}

/// The number of entries to report for a requested rank: the rank, but at
/// least one.
pub open spec fn report_limit(rank: usize) -> int {
    if rank == 0 {
        1
    } else {
        rank as int
    }
}

/// Whether `a` ranks above `b`.
pub fn above(a: (char, usize), b: (char, usize)) -> (r: bool)
    ensures
        r == ranks_above(a, b),
{
    a.1 > b.1 || (a.1 == b.1 && a.0 as u32 > b.0 as u32)
}

/// A numeric option with zero raised to one, and whether it was raised.
pub fn at_least_one(value: usize) -> (corrected: (usize, bool))
    ensures
        corrected.1 == (value == 0),
        corrected.0 == if value == 0 {
            1
        } else {
            value
        },
{
    if value == 0 {
        (1, true)
    } else {
        (value, false)
    }
}

/// A rerun count with zero raised to one, and whether it was raised.
pub fn at_least_one_run(reruns: u32) -> (corrected: (u32, bool))
    ensures
        corrected.1 == (reruns == 0),
        corrected.0 == if reruns == 0 {
            1
        } else {
            reruns
        },
{
    if reruns == 0 {
        (1, true)
    } else {
        (reruns, false)
    }
}

/// The highest-ranking entries of `counts`, best first: `rank` of them, at
/// least one, or all where the table holds fewer. Among equal counts the
/// higher character comes first.
pub fn top_entries(counts: &CharCounts, rank: usize) -> (top: Vec<(char, usize)>)
    requires
        counts.wf(),
    ensures
        top@.len() <= report_limit(rank),
        forall|i: int|
            0 <= i < top@.len() ==> counts@.contains_key((#[trigger] top@[i]).0)
                && counts@[top@[i].0] == top@[i].1,
        forall|i: int, j: int|
            0 <= i < j < top@.len() ==> ranks_above(#[trigger] top@[i], #[trigger] top@[j]),
        forall|c: char| #[trigger]
            counts@.contains_key(c) ==> listed(top@, c) || (top@.len() == report_limit(rank)
                && ranks_above(top@.last(), (c, counts@[c] as usize))),
{
    let all = counts.entries();
    let limit: usize = if rank == 0 {
        1
    } else {
        rank
    };
    let mut top: Vec<(char, usize)> = Vec::new();
    let mut exhausted = false;
    proof {
        counts.lemma_entries_positive();
    }
    while top.len() < limit && !exhausted
        invariant
            limit == report_limit(rank),
            top@.len() <= limit,
            forall|i: int|
                0 <= i < all@.len() ==> counts@.contains_key((#[trigger] all@[i]).0)
                    && counts@[all@[i].0] == all@[i].1,
            forall|c: char| #[trigger] counts@.contains_key(c) ==> listed(all@, c),
            forall|i: int|
                0 <= i < top@.len() ==> counts@.contains_key((#[trigger] top@[i]).0)
                    && counts@[top@[i].0] == top@[i].1,
            forall|i: int, j: int|
                0 <= i < j < top@.len() ==> ranks_above(#[trigger] top@[i], #[trigger] top@[j]),
            forall|c: char| #[trigger]
                counts@.contains_key(c) ==> top@.len() == 0 || listed(top@, c) || ranks_above(
                    top@.last(),
                    (c, counts@[c] as usize),
                ),
            exhausted ==> forall|c: char| #[trigger] counts@.contains_key(c) ==> listed(top@, c),
        decreases limit - top@.len() + if exhausted { 0int } else { 1int },
    {
        let mut best: Option<(char, usize)> = None;
        let mut i: usize = 0;
        while i < all.len()
            invariant
                i <= all@.len(),
                best matches Some(b) ==> counts@.contains_key(b.0) && counts@[b.0] == b.1 && (
                top@.len() > 0 ==> ranks_above(top@.last(), b)),
                forall|j: int|
                    0 <= j < i && (top@.len() > 0 ==> ranks_above(top@.last(), #[trigger] all@[j]))
                        ==> best is Some && (best->0 == all@[j] || ranks_above(best->0, all@[j])),
                forall|j: int|
                    0 <= j < all@.len() ==> counts@.contains_key((#[trigger] all@[j]).0)
                        && counts@[all@[j].0] == all@[j].1,
            decreases all@.len() - i,
        {
            let candidate = all[i];
            proof {
                if let Some(b) = best {
                    lemma_code_injective(candidate.0, b.0);
                }
            }
            let open = top.len() == 0 || above(top[top.len() - 1], candidate);
            if open {
                let better = match best {
                    Some(b) => above(candidate, b),
                    None => true,
                };
                if better {
                    best = Some(candidate);
                }
            }
            i += 1;
        }
        match best {
            Some(b) => {
                let ghost before = top@;
                top.push(b);
                proof {
                    assert forall|c: char| #[trigger] counts@.contains_key(c) implies listed(top@, c)
                        || ranks_above(top@.last(), (c, counts@[c] as usize)) by {
                        if before.len() > 0 && listed(before, c) {
                            let k = choose|k: int| 0 <= k < before.len() && (#[trigger] before[k]).0 == c;
                            assert(top@[k].0 == c);
                        } else {
                            assert(listed(all@, c));
                            let j = choose|j: int| 0 <= j < all@.len() && (#[trigger] all@[j]).0 == c;
                            assert(all@[j] == (c, counts@[c] as usize));
                            if b == all@[j] {
                                assert(top@[top@.len() - 1].0 == c);
                            }
                        }
                    }
                }
            },
            None => {
                exhausted = true;
                proof {
                    assert forall|c: char| #[trigger] counts@.contains_key(c) implies listed(top@, c) by {
                        if !listed(top@, c) {
                            assert(listed(all@, c));
                            let j = choose|j: int| 0 <= j < all@.len() && (#[trigger] all@[j]).0 == c;
                            assert(all@[j] == (c, counts@[c] as usize));
                        }
                    }
                }
            },
        }
    }
    top
}

} // verus!
