use vstd::prelude::*;

verus! {

/// One task: it occupies the half-open span from `start` to `end`.
#[derive(Debug, Clone)]
pub struct ScheduleItem {
    pub start: i32,
    pub end: i32,
    pub title: String,
}

/// A collection of tasks, in input order.
#[derive(Debug, Clone)]
pub struct Schedule {
    pub items: Vec<ScheduleItem>,
}

/// The picked tasks stand in order: each begins no earlier than the one
/// before it ends, and their end times never decrease.
pub open spec fn chain_ok(items: Seq<ScheduleItem>) -> bool {
    &&& forall|p: int| 0 <= p && p + 1 < items.len() ==> (#[trigger] items[p]).end <= items[p + 1].start
    &&& forall|p: int, q: int|
        0 <= p < q < items.len() ==> (#[trigger] items[p]).end <= (#[trigger] items[q]).end
}

/// Every element of `items` occurs in `input`.
pub open spec fn drawn_from(items: Seq<ScheduleItem>, input: Seq<ScheduleItem>) -> bool {
    forall|p: int| 0 <= p < items.len() ==> input.contains(#[trigger] items[p])
}

/// Some picked task ends inside `item`'s span — after it starts, but no
/// later than it ends — so `item` could not have been added to the pick.
pub open spec fn conflicts(item: ScheduleItem, chosen: Seq<ScheduleItem>) -> bool {
    exists|p: int|
        0 <= p < chosen.len() && (#[trigger] chosen[p]).end > item.start && chosen[p].end
            <= item.end
}

/// Nothing was passed over without cause: every input task was either picked
/// or collides with a picked one.
pub open spec fn greedy_maximal(input: Seq<ScheduleItem>, chosen: Seq<ScheduleItem>) -> bool {
    forall|j: int|
        0 <= j < input.len() ==> chosen.contains(#[trigger] input[j]) || conflicts(
            input[j],
            chosen,
        )
}

/// A pick that is a chain and maximal under the conflict rule stays ahead of
/// any other chain drawn from the same tasks: at every position it has
/// finished no later. Degenerate tasks (ending at or before their start) are
/// excluded: a pick holding one of two equal such tasks would be maximal yet
/// shorter than the chain of both.
proof fn lemma_stays_ahead(
    input: Seq<ScheduleItem>,
    chosen: Seq<ScheduleItem>,
    other: Seq<ScheduleItem>,
    t: int,
)
    requires
        forall|j: int| 0 <= j < input.len() ==> (#[trigger] input[j]).start < input[j].end,
        chain_ok(chosen),
        greedy_maximal(input, chosen),
        drawn_from(other, input),
        forall|q: int| 0 <= q && q + 1 < other.len() ==> (#[trigger] other[q]).end <= other[q + 1].start,
        0 <= t < other.len(),
    ensures
        t < chosen.len(),
        chosen[t].end <= other[t].end,
    decreases t,
{
    if t > 0 {
        lemma_stays_ahead(input, chosen, other, t - 1);
    }
    let x = other[t];
    assert(input.contains(x));
    let jx = choose|jx: int| 0 <= jx < input.len() && input[jx] == x;
    assert(x.start < x.end);
    if conflicts(x, chosen) {
        let j = choose|j: int|
            0 <= j < chosen.len() && (#[trigger] chosen[j]).end > x.start && chosen[j].end
                <= x.end;
        if t > 0 && j < t {
            assert(chosen[j].end <= chosen[t - 1].end);
            assert(chosen[t - 1].end <= other[t - 1].end);
            assert(other[t - 1].end <= x.start);
            assert(false);
        }
        assert(t <= j < chosen.len());
        assert(chosen[t].end <= chosen[j].end);
    } else {
        assert(chosen.contains(x));
        let j = choose|j: int| 0 <= j < chosen.len() && chosen[j] == x;
        if t > 0 && j < t {
            assert(chosen[j].end <= chosen[t - 1].end);
            assert(chosen[t - 1].end <= other[t - 1].end);
            assert(other[t - 1].end <= x.start);
            assert(false);
        }
        assert(t <= j < chosen.len());
        assert(chosen[t].end <= chosen[j].end);
    }
}

/// Earliest-deadline selection is optimal: when every task is a true
/// interval — it starts strictly before it ends — no chain of compatible
/// tasks drawn from the input has more items than a pick that satisfies
/// `chain_ok` and `greedy_maximal`, the contract of `get_optimal_schedule`.
pub proof fn lemma_chain_maximal_is_optimal(
    input: Seq<ScheduleItem>,
    chosen: Seq<ScheduleItem>,
    other: Seq<ScheduleItem>,
)
    requires
        forall|j: int| 0 <= j < input.len() ==> (#[trigger] input[j]).start < input[j].end,
        chain_ok(chosen),
        greedy_maximal(input, chosen),
        drawn_from(other, input),
        forall|q: int| 0 <= q && q + 1 < other.len() ==> (#[trigger] other[q]).end <= other[q + 1].start,
    ensures
        other.len() <= chosen.len(),
{
    if other.len() > 0 {
        lemma_stays_ahead(input, chosen, other, other.len() - 1);
    }
}

/// Keep, in input order, the tasks that start no earlier than `cutoff`, and
/// drop the rest. A true selection: no task's multiplicity grows.
#[verifier::loop_isolation(false)]
fn keep_compatible(items: Vec<ScheduleItem>, cutoff: i32) -> (r: Vec<ScheduleItem>)
    ensures
        r@.len() <= items@.len(),
        r@.to_multiset().subset_of(items@.to_multiset()),
        drawn_from(r@, items@),
        forall|q: int| 0 <= q < r@.len() ==> (#[trigger] r@[q]).start >= cutoff,
        forall|j: int|
            0 <= j < items@.len() ==> r@.contains(#[trigger] items@[j]) || items@[j].start
                < cutoff,
{
    let ghost input = items@;
    let mut remaining = items;
    let mut kept: Vec<ScheduleItem> = Vec::new();
    let ghost mut p: int = 0;
    proof {
        broadcast use vstd::seq_lib::group_to_multiset_ensures;
        broadcast use vstd::multiset::group_multiset_axioms;

        assert forall|v: ScheduleItem|
            kept@.to_multiset().add(remaining@.to_multiset()).count(v)
                <= input.to_multiset().count(v) by {
            if kept@.to_multiset().count(v) > 0 {
                assert(kept@.contains(v));
            }
        }
        assert(kept@.to_multiset().add(remaining@.to_multiset()).subset_of(input.to_multiset()));
    }
    while remaining.len() > 0
        invariant
            0 <= p <= input.len(),
            remaining@ == input.skip(p),
            kept@.len() + remaining@.len() <= input.len(),
            kept@.to_multiset().add(remaining@.to_multiset()).subset_of(input.to_multiset()),
            forall|q: int|
                0 <= q < kept@.len() ==> (#[trigger] kept@[q]).start >= cutoff && input.contains(
                    kept@[q],
                ),
            forall|j: int|
                0 <= j < p ==> kept@.contains(#[trigger] input[j]) || input[j].start < cutoff,
        decreases remaining@.len(),
    {
        let ghost kept0 = kept@;
        let ghost rem_old = remaining@;
        let item = remaining.remove(0);
        proof {
            assert(item == input.skip(p)[0]);
            assert(input.skip(p)[0] == input[p]);
            assert(remaining@ =~= input.skip(p + 1));
        }
        if item.start >= cutoff {
            kept.push(item);
            proof {
                assert(kept@[kept@.len() - 1] == input[p]);
                assert(kept@.contains(input[p]));
            }
        }
        proof {
            broadcast use vstd::seq_lib::group_to_multiset_ensures;
            broadcast use vstd::multiset::group_multiset_axioms;

            assert(rem_old.remove(0).to_multiset() =~= rem_old.to_multiset().remove(item));
            assert(rem_old.contains(item));
            assert forall|v: ScheduleItem|
                kept@.to_multiset().add(remaining@.to_multiset()).count(v)
                    <= input.to_multiset().count(v) by {
                assert(kept0.to_multiset().add(rem_old.to_multiset()).count(v)
                    <= input.to_multiset().count(v));
                if item.start >= cutoff {
                    assert(kept@.to_multiset() =~= kept0.to_multiset().insert(item));
                }
            }
            assert(kept@.to_multiset().add(remaining@.to_multiset()).subset_of(
                input.to_multiset(),
            ));
            assert forall|j: int|
                0 <= j < p + 1 implies kept@.contains(#[trigger] input[j]) || input[j].start
                < cutoff by {
                if j < p && kept0.contains(input[j]) {
                    let w = choose|w: int| 0 <= w < kept0.len() && kept0[w] == input[j];
                    assert(kept@[w] == input[j]);
                }
            }
            p = p + 1;
        }
    }
    proof {
        broadcast use vstd::seq_lib::group_to_multiset_ensures;
        broadcast use vstd::multiset::group_multiset_axioms;

        assert forall|v: ScheduleItem|
            kept@.to_multiset().count(v) <= input.to_multiset().count(v) by {
            if remaining@.to_multiset().count(v) > 0 {
                assert(remaining@.contains(v));
            }
            assert(kept@.to_multiset().add(remaining@.to_multiset()).count(v)
                <= input.to_multiset().count(v));
        }
        assert(kept@.to_multiset().subset_of(input.to_multiset()));
        assert(p == input.len());
    }
    kept
}

/// Earliest-deadline-first selection of non-overlapping tasks: repeatedly
/// pick the task that ends first and discard everything that starts before
/// the picked task ends. The result is a true selection of the input — no
/// task is picked more often than it occurs.
#[verifier::loop_isolation(false)]
pub fn get_optimal_schedule(schedule: Schedule) -> (r: Schedule)
    ensures
        chain_ok(r.items@),
        drawn_from(r.items@, schedule.items@),
        r.items@.to_multiset().subset_of(schedule.items@.to_multiset()),
        greedy_maximal(schedule.items@, r.items@),
{
    let ghost input = schedule.items@;
    let mut remaining = schedule.items;
    let mut chosen: Vec<ScheduleItem> = Vec::new();
    proof {
        broadcast use vstd::seq_lib::group_to_multiset_ensures;
        broadcast use vstd::multiset::group_multiset_axioms;

        assert forall|v: ScheduleItem|
            chosen@.to_multiset().add(remaining@.to_multiset()).count(v)
                <= input.to_multiset().count(v) by {
            if chosen@.to_multiset().count(v) > 0 {
                assert(chosen@.contains(v));
            }
        }
        assert(chosen@.to_multiset().add(remaining@.to_multiset()).subset_of(input.to_multiset()));
    }
    while remaining.len() > 0
        invariant
            chain_ok(chosen@),
            drawn_from(chosen@, input),
            drawn_from(remaining@, input),
            chosen@.to_multiset().add(remaining@.to_multiset()).subset_of(input.to_multiset()),
            chosen@.len() > 0 ==> forall|q: int|
                0 <= q < remaining@.len() ==> (#[trigger] remaining@[q]).start
                    >= chosen@.last().end && remaining@[q].end >= chosen@.last().end,
            forall|j: int|
                0 <= j < input.len() ==> chosen@.contains(#[trigger] input[j]) || conflicts(
                    input[j],
                    chosen@,
                ) || remaining@.contains(input[j]),
        decreases remaining@.len(),
    {
        let mut earliest_end: i32 = i32::MAX;
        let mut earliest_index: usize = 0;
        let mut i: usize = 0;
        while i < remaining.len()
            invariant
                i <= remaining@.len(),
                i == 0 ==> earliest_index == 0 && earliest_end == i32::MAX,
                i > 0 ==> earliest_index < i
                    && earliest_end == remaining@[earliest_index as int].end
                    && forall|q: int| 0 <= q < i ==> (#[trigger] remaining@[q]).end >= earliest_end,
            decreases remaining@.len() - i,
        {
            if remaining[i].end < earliest_end {
                earliest_end = remaining[i].end;
                earliest_index = i;
            }
            i += 1;
        }
        let ghost rem0 = remaining@;
        let picked = remaining.remove(earliest_index);
        let ghost rem1 = remaining@;
        proof {
            assert(picked == rem0[earliest_index as int]);
            assert forall|q: int| 0 <= q < rem1.len() implies rem0.contains(#[trigger] rem1[q])
                && rem1[q].end >= picked.end by {
                if q < earliest_index {
                    assert(rem1[q] == rem0[q]);
                } else {
                    assert(rem1[q] == rem0[q + 1]);
                }
            }
        }
        remaining = keep_compatible(remaining, picked.end);
        let ghost chosen0 = chosen@;
        chosen.push(picked);
        proof {
            assert(chosen@ == chosen0.push(picked));
            assert(chosen@.last() == picked);
            assert(rem0.contains(picked));
            if chosen0.len() > 0 {
                assert(picked.start >= chosen0.last().end);
                assert(picked.end >= chosen0.last().end);
            }
            assert forall|pp: int, q: int|
                0 <= pp < q < chosen@.len() implies (#[trigger] chosen@[pp]).end <= (
            #[trigger] chosen@[q]).end by {
                if q == chosen@.len() - 1 && chosen0.len() > 0 {
                    assert(chosen0[pp].end <= chosen0.last().end);
                }
            }
            // Every element of the new `remaining` is an input task that
            // starts and ends no earlier than the newly picked end.
            assert forall|q: int|
                0 <= q < remaining@.len() implies input.contains(#[trigger] remaining@[q])
                    && remaining@[q].start >= picked.end && remaining@[q].end >= picked.end by {
                let w = choose|w: int| 0 <= w < rem1.len() && rem1[w] == remaining@[q];
                let u = choose|u: int| 0 <= u < rem0.len() && rem0[u] == rem1[w];
                assert(input.contains(rem0[u]));
            }
            // Multiset bookkeeping: what is picked plus what is left never
            // exceeds the input.
            assert forall|v: ScheduleItem|
                chosen@.to_multiset().add(remaining@.to_multiset()).count(v)
                    <= input.to_multiset().count(v) by {
                broadcast use vstd::seq_lib::group_to_multiset_ensures;
                broadcast use vstd::multiset::group_multiset_axioms;

                assert(rem0.remove(earliest_index as int).to_multiset() =~= rem0.to_multiset()
                    .remove(picked));
                assert(chosen@.to_multiset() =~= chosen0.to_multiset().insert(picked));
                assert(remaining@.to_multiset().count(v) <= rem1.to_multiset().count(v));
                assert(chosen0.to_multiset().add(rem0.to_multiset()).count(v)
                    <= input.to_multiset().count(v));
            }
            assert(chosen@.to_multiset().add(remaining@.to_multiset()).subset_of(
                input.to_multiset(),
            ));
            // Accounting: every input task is picked, in conflict, or still
            // on the table.
            assert forall|j: int|
                0 <= j < input.len() implies chosen@.contains(#[trigger] input[j]) || conflicts(
                input[j],
                chosen@,
            ) || remaining@.contains(input[j]) by {
                let x = input[j];
                if chosen0.contains(x) {
                    let w = choose|w: int| 0 <= w < chosen0.len() && chosen0[w] == x;
                    assert(chosen@[w] == x);
                } else if conflicts(x, chosen0) {
                    let w = choose|w: int|
                        0 <= w < chosen0.len() && (#[trigger] chosen0[w]).end > x.start
                            && chosen0[w].end <= x.end;
                    assert(chosen@[w] == chosen0[w]);
                } else if rem0.contains(x) {
                    let w = choose|w: int| 0 <= w < rem0.len() && rem0[w] == x;
                    if w == earliest_index {
                        assert(chosen@[chosen@.len() - 1] == x);
                    } else {
                        let ghost w1: int = if w < earliest_index {
                            w
                        } else {
                            w - 1
                        };
                        assert(rem1[w1] == x);
                        if !remaining@.contains(x) {
                            assert(x.start < picked.end);
                            assert(x.end >= picked.end);
                            assert((#[trigger] chosen@[chosen@.len() - 1]).end > x.start
                                && chosen@[chosen@.len() - 1].end <= x.end);
                        }
                    }
                }
            }
        }
    }
    proof {
        broadcast use vstd::seq_lib::group_to_multiset_ensures;
        broadcast use vstd::multiset::group_multiset_axioms;

        assert forall|v: ScheduleItem|
            chosen@.to_multiset().count(v) <= input.to_multiset().count(v) by {
            if remaining@.to_multiset().count(v) > 0 {
                assert(remaining@.contains(v));
            }
            assert(chosen@.to_multiset().add(remaining@.to_multiset()).count(v)
                <= input.to_multiset().count(v));
        }
        assert(chosen@.to_multiset().subset_of(input.to_multiset()));
    }
    Schedule { items: chosen }
}

} // verus!
