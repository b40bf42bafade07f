use crate::number_set::NumberSet;
use vstd::prelude::*;
use vstd::set_lib::lemma_len_subset;

verus! {

/// The universe of numbers to cover and the size of the subsets that must be
/// covered. `min_numbers_to_cover` may be zero or exceed the universe: both
/// are degenerate inputs under which coverage holds vacuously.
pub struct TargetCoverage {
    pub numbers: Vec<u32>,
    pub min_numbers_to_cover: u32,
}

/// One problem instance: the tickets on offer, the coverage target, and the
/// verdict the instance is expected to produce.
pub struct ItemSet {
    pub tickets: Vec<Vec<u32>>,
    pub target_coverage: TargetCoverage,
    pub expected: bool,
}

/// A whole input: a sequence of problem instances.
pub struct SufficientCoverageProblemSet {
    pub items: Vec<ItemSet>,
}

/// The outcome of evaluating one problem instance.
pub struct EvaluationRecord {
    pub index: usize,
    pub actual: bool,
    pub expected: bool,
    pub passed: bool,
}

/// `c` is a `k`-element combination drawn from `elems`.
pub open spec fn is_combo(c: Set<u32>, elems: Set<u32>, k: nat) -> bool {
    c.finite() && c.len() == k && c.subset_of(elems)
}

/// A subset as large as its finite superset is that superset.
proof fn lemma_subset_equal_card(s1: Set<u32>, s2: Set<u32>)
    requires
        s2.finite(),
        s1.subset_of(s2),
        s1.len() == s2.len(),
    ensures
        s1 == s2,
{
    lemma_len_subset(s1, s2);
    if exists|y: u32| s2.contains(y) && !s1.contains(y) {
        let y = choose|y: u32| s2.contains(y) && !s1.contains(y);
        lemma_len_subset(s1, s2.remove(y));
    }
    assert(s1 =~= s2);
}

/// A nonempty finite set has a member.
proof fn lemma_nonempty_member(s: Set<u32>)
    requires
        s.finite(),
        s.len() > 0,
    ensures
        s.contains(s.choose()),
{
    if !(exists|y: u32| s.contains(y)) {
        assert(s =~= Set::<u32>::empty());
    }
}

/// Every finite set has a subset of any smaller size.
proof fn lemma_subset_of_size(s: Set<u32>, m: nat)
    requires
        s.finite(),
        m <= s.len(),
    ensures
        exists|t: Set<u32>|
            #![all_triggers]
            t.subset_of(s) && t.finite() && t.len() == m,
    decreases s.len(),
{
    if m == s.len() {
        assert(s.subset_of(s));
    } else {
        lemma_nonempty_member(s);
        lemma_subset_of_size(s.remove(s.choose()), m);
        let t = choose|t: Set<u32>|
            #![all_triggers]
            t.subset_of(s.remove(s.choose())) && t.finite() && t.len() == m;
        assert(t.subset_of(s));
    }
}

/// The exact sequence of combinations that enumerating `elems` produces:
/// those that include the first element come first, each being a recursively
/// enumerated smaller combination of the rest with the first element added,
/// and those that exclude it follow.
pub open spec fn spec_combinations(elems: Seq<u32>, k: nat) -> Seq<Set<u32>>
    decreases elems.len(),
{
    if k == 0 {
        Seq::empty()
    } else if k > elems.len() {
        Seq::empty()
    } else if k == 1 {
        Seq::new(elems.len(), |i: int| set![elems[i]])
    } else if k == elems.len() {
        seq![elems.to_set()]
    } else {
        spec_combinations(elems.skip(1), (k - 1) as nat).map_values(
            |c: Set<u32>| c.insert(elems[0]),
        ) + spec_combinations(elems.skip(1), k)
    }
}

/// Enumeration is a function of the set and `k` alone: two well-formed
/// `NumberSet`s holding the same numbers are enumerated in the same order.
pub proof fn lemma_combinations_deterministic(a: &NumberSet, b: &NumberSet, k: usize)
    requires
        a.wf(),
        b.wf(),
        a@ == b@,
    ensures
        spec_combinations(a.seq_view(), k as nat) == spec_combinations(b.seq_view(), k as nat),
{
    NumberSet::lemma_seq_view_determined(a, b);
}

/// All `k`-element combinations of `numbers`: every returned set is one,
/// every one is returned, no two returned sets are equal, and they come in
/// exactly the order `spec_combinations` lays down over the sorted elements.
/// Requesting `k == 0` or more elements than there are yields no
/// combinations at all.
#[verifier::loop_isolation(false)]
pub fn get_combinations(numbers: &NumberSet, k: usize) -> (r: Vec<NumberSet>)
    requires
        numbers.wf(),
    ensures
        forall|i: int|
            0 <= i < r@.len() ==> (#[trigger] r@[i]).wf() && is_combo(r@[i]@, numbers@, k as nat),
        k >= 1 ==> forall|c: Set<u32>|
            is_combo(c, numbers@, k as nat) ==> exists|i: int| 0 <= i < r@.len() && r@[i]@ == c,
        forall|i: int, j: int| 0 <= i < j < r@.len() ==> r@[i]@ != r@[j]@,
        r@.len() == spec_combinations(numbers.seq_view(), k as nat).len(),
        forall|i: int|
            0 <= i < r@.len() ==> (#[trigger] r@[i])@ == spec_combinations(
                numbers.seq_view(),
                k as nat,
            )[i],
        k == 0 ==> r@.len() == 0,
        k > numbers@.len() ==> r@.len() == 0,
        k == 1 ==> r@.len() == numbers@.len(),
        1 <= k && k == numbers@.len() ==> r@.len() == 1 && r@[0]@ == numbers@,
    decreases numbers@.len(),
{
    proof {
        numbers.lemma_finite();
        numbers.lemma_seq_view();
    }
    let ghost ordered = spec_combinations(numbers.seq_view(), k as nat);
    let n = numbers.len();
    if k == 0 {
        Vec::new()
    } else if k > n {
        proof {
            assert forall|c: Set<u32>| is_combo(c, numbers@, k as nat) implies false by {
                lemma_len_subset(c, numbers@);
            }
        }
        Vec::new()
    } else if k == 1 {
        let v = numbers.as_sorted_vec();
        let mut r: Vec<NumberSet> = Vec::new();
        let mut i: usize = 0;
        while i < v.len()
            invariant
                i <= v@.len(),
                r@.len() == i,
                forall|j: int| 0 <= j < i ==> (#[trigger] r@[j]).wf() && r@[j]@ == set![v@[j]],
            decreases v@.len() - i,
        {
            r.push(NumberSet::singleton(v[i]));
            i += 1;
        }
        proof {
            assert forall|j: int|
                0 <= j < r@.len() implies (#[trigger] r@[j]).wf() && is_combo(
                r@[j]@,
                numbers@,
                1,
            ) by {
                assert(v@.contains(v@[j]));
                assert(r@[j]@ =~= Set::<u32>::empty().insert(v@[j]));
            }
            assert forall|c: Set<u32>| is_combo(c, numbers@, 1) implies exists|j: int|
                0 <= j < r@.len() && r@[j]@ == c by {
                lemma_nonempty_member(c);
                let x = c.choose();
                Set::<u32>::lemma_is_singleton(c);
                assert(c =~= set![x]);
                assert(v@.to_set().contains(x));
                let j = choose|j: int| 0 <= j < v@.len() && v@[j] == x;
                assert(r@[j]@ == c);
            }
            assert forall|a: int, b: int| 0 <= a < b < r@.len() implies r@[a]@ != r@[b]@ by {
                assert(r@[a]@.contains(v@[a]));
                assert(v@[a] != v@[b]);
            }
            assert(forall|j: int| 0 <= j < r@.len() ==> (#[trigger] r@[j])@ == ordered[j]);
        }
        r
    } else if k == n {
        let mut r: Vec<NumberSet> = Vec::new();
        r.push(numbers.duplicate());
        proof {
            assert(numbers@.subset_of(numbers@));
            assert forall|c: Set<u32>| is_combo(c, numbers@, k as nat) implies exists|j: int|
                0 <= j < r@.len() && r@[j]@ == c by {
                lemma_subset_equal_card(c, numbers@);
                assert(r@[0]@ == c);
            }
            assert(ordered == seq![numbers.seq_view().to_set()]);
            assert(r@[0]@ == ordered[0]);
        }
        r
    } else {
        let (first, rest) = numbers.split_first();
        let sub = get_combinations(&rest, k - 1);
        let mut r: Vec<NumberSet> = Vec::new();
        let mut i: usize = 0;
        while i < sub.len()
            invariant
                i <= sub@.len(),
                r@.len() == i,
                forall|j: int| 0 <= j < i ==> (#[trigger] r@[j]).wf() && r@[j]@ == sub@[j]@.insert(first),
            decreases sub@.len() - i,
        {
            r.push(sub[i].with(first));
            i += 1;
        }
        let ghost with_len = r@.len() as int;
        let mut without = get_combinations(&rest, k);
        let ghost without_seq = without@;
        r.append(&mut without);
        proof {
            assert(r@.len() == with_len + without_seq.len());
            assert(forall|j: int| 0 <= j < with_len ==> r@[j]@ == sub@[j]@.insert(first));
            assert(forall|j: int| with_len <= j < r@.len() ==> r@[j] == without_seq[j - with_len]);
            // Soundness of both halves.
            assert forall|j: int|
                0 <= j < r@.len() implies (#[trigger] r@[j]).wf() && is_combo(
                r@[j]@,
                numbers@,
                k as nat,
            ) by {
                if j < with_len {
                    let c0 = sub@[j]@;
                    assert(is_combo(c0, rest@, (k - 1) as nat));
                    assert(!c0.contains(first));
                    assert(c0.insert(first).len() == c0.len() + 1);
                    assert forall|y: u32| c0.insert(first).contains(y) implies numbers@.contains(
                        y,
                    ) by {
                        if y != first {
                            assert(rest@.contains(y));
                        }
                    }
                } else {
                    assert(is_combo(r@[j]@, rest@, k as nat));
                    assert forall|y: u32| r@[j]@.contains(y) implies numbers@.contains(y) by {
                        assert(rest@.contains(y));
                    }
                }
            }
            // Completeness: every k-combination shows up in one of the halves.
            assert forall|c: Set<u32>| is_combo(c, numbers@, k as nat) implies exists|j: int|
                0 <= j < r@.len() && r@[j]@ == c by {
                if c.contains(first) {
                    let c2 = c.remove(first);
                    assert forall|y: u32| c2.contains(y) implies rest@.contains(y) by {
                        assert(numbers@.contains(y));
                    }
                    assert(is_combo(c2, rest@, (k - 1) as nat));
                    let j = choose|j: int| 0 <= j < sub@.len() && sub@[j]@ == c2;
                    assert(c2.insert(first) =~= c);
                    assert(r@[j]@ == c);
                } else {
                    assert forall|y: u32| c.contains(y) implies rest@.contains(y) by {
                        assert(numbers@.contains(y));
                    }
                    assert(is_combo(c, rest@, k as nat));
                    let j = choose|j: int| 0 <= j < without_seq.len() && without_seq[j]@ == c;
                    assert(r@[with_len + j]@ == c);
                }
            }
            // No two results are the same combination.
            assert forall|a: int, b: int| 0 <= a < b < r@.len() implies r@[a]@ != r@[b]@ by {
                if b < with_len {
                    assert(!sub@[a]@.contains(first));
                    assert(!sub@[b]@.contains(first));
                    if r@[a]@ == r@[b]@ {
                        assert(sub@[a]@.insert(first).remove(first) =~= sub@[a]@);
                        assert(sub@[b]@.insert(first).remove(first) =~= sub@[b]@);
                        assert(sub@[a]@ == sub@[b]@);
                    }
                } else if a < with_len {
                    assert(r@[a]@.contains(first));
                    assert(is_combo(without_seq[b - with_len]@, rest@, k as nat));
                    assert(!r@[b]@.contains(first));
                } else {
                    assert(without_seq[a - with_len]@ != without_seq[b - with_len]@);
                }
            }
            // The results stand in the specified enumeration order: the
            // combinations that include the first element, then the others.
            let part1 = spec_combinations(rest.seq_view(), (k - 1) as nat);
            let part2 = spec_combinations(rest.seq_view(), k as nat);
            assert(rest.seq_view() == numbers.seq_view().skip(1));
            assert(ordered.len() == part1.len() + part2.len());
            assert(r@.len() == ordered.len());
            assert forall|j: int| 0 <= j < r@.len() implies (#[trigger] r@[j])@ == ordered[j] by {
                if j < with_len {
                    assert(sub@[j]@ == part1[j]);
                    assert(ordered[j] == part1[j].insert(numbers.seq_view()[0]));
                } else {
                    assert(without_seq[j - with_len]@ == part2[j - with_len]);
                    assert(ordered[j] == part2[j - with_len]);
                }
            }
        }
        r
    }
}

/// A ticket covers a combination outright when it contains every number of it.
pub open spec fn spec_direct_cover(ticket: Set<u32>, combo: Set<u32>) -> bool {
    combo.subset_of(ticket)
}

/// A ticket covers a combination by implication when it shares at least one
/// number with it and also contains a substitute for the missing part: a set
/// of numbers drawn from the whole universe outside the combination, as large
/// as the part of the combination the ticket lacks.
pub open spec fn spec_implied_cover(ticket: Set<u32>, combo: Set<u32>, all: Set<u32>, k: nat) -> bool {
    ticket.intersect(combo).len() > 0 && exists|s: Set<u32>|
        #![all_triggers]
        s.finite() && s.len() + ticket.intersect(combo).len() == k && s.subset_of(
            all.difference(combo),
        ) && s.subset_of(ticket)
}

/// A combination is covered when some ticket covers it, directly or by
/// implication.
pub open spec fn spec_covered(combo: Set<u32>, tickets: Seq<Set<u32>>, all: Set<u32>, k: nat) -> bool {
    exists|i: int|
        0 <= i < tickets.len() && (spec_direct_cover(#[trigger] tickets[i], combo)
            || spec_implied_cover(tickets[i], combo, all, k))
}

/// Every `k`-element combination of the universe is covered. For `k == 0`
/// there are no combinations to check, so this holds vacuously.
pub open spec fn spec_all_combos_covered(tickets: Seq<Set<u32>>, all: Set<u32>, k: nat) -> bool {
    forall|c: Set<u32>| k >= 1 && #[trigger] is_combo(c, all, k) ==> spec_covered(c, tickets, all, k)
}

/// `spec_all_combos_covered`, read off one problem instance.
pub open spec fn spec_item_covered(item: ItemSet) -> bool {
    spec_all_combos_covered(
        item.tickets@.map_values(|t: Vec<u32>| t@.to_set()),
        item.target_coverage.numbers@.to_set(),
        item.target_coverage.min_numbers_to_cover as nat,
    )
}

/// Is this combination covered by at least one of the tickets? First each
/// ticket is tried for direct coverage; only if none grants it is the
/// implied-coverage rule tried, ticket by ticket.
#[verifier::loop_isolation(false)]
pub fn is_covered(
    combo: &NumberSet,
    tickets: &Vec<NumberSet>,
    all_numbers: &NumberSet,
    k: usize,
) -> (r: bool)
    requires
        combo.wf(),
        all_numbers.wf(),
        forall|i: int| 0 <= i < tickets@.len() ==> (#[trigger] tickets@[i]).wf(),
        combo@.len() == k,
    ensures
        r == spec_covered(combo@, tickets@.map_values(|t: NumberSet| t@), all_numbers@, k as nat),
{
    let ghost tseq = tickets@.map_values(|t: NumberSet| t@);
    let mut i: usize = 0;
    while i < tickets.len()
        invariant
            i <= tickets@.len(),
            forall|j: int| 0 <= j < i ==> !spec_direct_cover(#[trigger] tseq[j], combo@),
        decreases tickets@.len() - i,
    {
        if tickets[i].is_superset(combo) {
            proof {
                assert(spec_direct_cover(tseq[i as int], combo@));
            }
            return true;
        }
        i += 1;
    }
    let mut t: usize = 0;
    while t < tickets.len()
        invariant
            t <= tickets@.len(),
            forall|j: int| 0 <= j < tickets@.len() ==> !spec_direct_cover(#[trigger] tseq[j], combo@),
            forall|j: int|
                0 <= j < t ==> !spec_implied_cover(#[trigger] tseq[j], combo@, all_numbers@, k as nat),
        decreases tickets@.len() - t,
    {
        let ticket = &tickets[t];
        let intersected = ticket.intersection(combo);
        let m = intersected.len();
        if m > 0 {
            proof {
                combo.lemma_finite();
                assert(intersected@.subset_of(combo@));
                lemma_len_subset(intersected@, combo@);
                if m == k {
                    lemma_subset_equal_card(intersected@, combo@);
                    assert(spec_direct_cover(tseq[t as int], combo@));
                    assert(false);
                }
            }
            let remaining = all_numbers.difference(combo);
            let kk = k - m;
            let remaining_combinations = get_combinations(&remaining, kk);
            let mut j: usize = 0;
            while j < remaining_combinations.len()
                invariant
                    j <= remaining_combinations@.len(),
                    forall|jj: int|
                        0 <= jj < j ==> !(#[trigger] remaining_combinations@[jj])@.subset_of(
                            tseq[t as int],
                        ),
                decreases remaining_combinations@.len() - j,
            {
                if ticket.is_superset(&remaining_combinations[j]) {
                    proof {
                        let s = remaining_combinations@[j as int]@;
                        assert(is_combo(s, remaining@, kk as nat));
                        assert(s.finite() && s.len() + tseq[t as int].intersect(combo@).len()
                            == k && s.subset_of(all_numbers@.difference(combo@)) && s.subset_of(
                            tseq[t as int],
                        ));
                        assert(spec_implied_cover(tseq[t as int], combo@, all_numbers@, k as nat));
                    }
                    return true;
                }
                j += 1;
            }
            proof {
                if spec_implied_cover(tseq[t as int], combo@, all_numbers@, k as nat) {
                    let s = choose|s: Set<u32>|
                        #![all_triggers]
                        s.finite() && s.len() + tseq[t as int].intersect(combo@).len() == k
                            && s.subset_of(all_numbers@.difference(combo@)) && s.subset_of(
                            tseq[t as int],
                        );
                    assert(is_combo(s, remaining@, kk as nat));
                    let jj = choose|jj: int|
                        0 <= jj < remaining_combinations@.len() && (
                        #[trigger] remaining_combinations@[jj])@ == s;
                    assert(false);
                }
            }
        } else {
            proof {
                assert(tseq[t as int].intersect(combo@).len() == 0);
            }
        }
        t += 1;
    }
    proof {
        assert(!spec_covered(combo@, tseq, all_numbers@, k as nat));
    }
    false
}

/// Does the instance's collection of tickets cover every combination of
/// `min_numbers_to_cover` numbers drawn from the target universe?
#[verifier::loop_isolation(false)]
pub fn does_ticket_cover_target(item_set: &ItemSet) -> (r: bool)
    ensures
        r == spec_item_covered(*item_set),
{
    let ghost tset = item_set.tickets@.map_values(|t: Vec<u32>| t@.to_set());
    let mut tickets: Vec<NumberSet> = Vec::new();
    let mut i: usize = 0;
    while i < item_set.tickets.len()
        invariant
            i <= item_set.tickets@.len(),
            tickets@.len() == i,
            forall|j: int| 0 <= j < i ==> (#[trigger] tickets@[j]).wf() && tickets@[j]@ == tset[j],
        decreases item_set.tickets@.len() - i,
    {
        tickets.push(NumberSet::from_vec(&item_set.tickets[i]));
        i += 1;
    }
    let numbers = NumberSet::from_vec(&item_set.target_coverage.numbers);
    let k = item_set.target_coverage.min_numbers_to_cover as usize;
    let combinations = get_combinations(&numbers, k);
    let mut ci: usize = 0;
    while ci < combinations.len()
        invariant
            ci <= combinations@.len(),
            forall|j: int|
                0 <= j < ci ==> spec_covered(
                    (#[trigger] combinations@[j])@,
                    tset,
                    numbers@,
                    k as nat,
                ),
        decreases combinations@.len() - ci,
    {
        let covered = is_covered(&combinations[ci], &tickets, &numbers, k);
        proof {
            assert(tickets@.map_values(|tk: NumberSet| tk@) =~= tset);
        }
        if !covered {
            proof {
                if k == 0 {
                    assert(combinations@.len() == 0);
                }
                assert(k >= 1 && is_combo(combinations@[ci as int]@, numbers@, k as nat));
                assert(!spec_covered(combinations@[ci as int]@, tset, numbers@, k as nat));
            }
            return false;
        }
        ci += 1;
    }
    proof {
        assert forall|c: Set<u32>|
            k >= 1 && #[trigger] is_combo(c, numbers@, k as nat) implies spec_covered(
            c,
            tset,
            numbers@,
            k as nat,
        ) by {
            let j = choose|j: int| 0 <= j < combinations@.len() && combinations@[j]@ == c;
            assert(spec_covered(combinations@[j]@, tset, numbers@, k as nat));
        }
    }
    true
}

/// Evaluate every instance of a problem set, in order, recording for each the
/// computed coverage verdict beside the expected one. A mismatch is an
/// observation, never a failure: every instance is evaluated.
#[verifier::loop_isolation(false)]
pub fn evaluate_sufficient_coverage(problem_set: &SufficientCoverageProblemSet) -> (r: Vec<
    EvaluationRecord,
>)
    ensures
        r@.len() == problem_set.items@.len(),
        forall|i: int|
            0 <= i < r@.len() ==> (#[trigger] r@[i]).index == i && r@[i].actual
                == spec_item_covered(problem_set.items@[i]) && r@[i].expected
                == problem_set.items@[i].expected && r@[i].passed == (r@[i].actual
                == r@[i].expected),
{
    let mut r: Vec<EvaluationRecord> = Vec::new();
    let mut i: usize = 0;
    while i < problem_set.items.len()
        invariant
            i <= problem_set.items@.len(),
            r@.len() == i,
            forall|j: int|
                0 <= j < i ==> (#[trigger] r@[j]).index == j && r@[j].actual == spec_item_covered(
                    problem_set.items@[j],
                ) && r@[j].expected == problem_set.items@[j].expected && r@[j].passed == (
                r@[j].actual == r@[j].expected),
        decreases problem_set.items@.len() - i,
    {
        let actual = does_ticket_cover_target(&problem_set.items[i]);
        let expected = problem_set.items[i].expected;
        r.push(
            EvaluationRecord { index: i, actual, expected, passed: actual == expected },
        );
        i += 1;
    }
    r
}

/// Covering is monotone in the ticket: if one ticket covers a combination,
/// any superset of that ticket covers it too.
pub proof fn lemma_covered_monotonic(
    combo: Set<u32>,
    t: Set<u32>,
    t2: Set<u32>,
    all: Set<u32>,
    k: nat,
)
    requires
        combo.finite(),
        combo.len() == k,
        t.subset_of(t2),
        spec_covered(combo, seq![t], all, k),
    ensures
        spec_covered(combo, seq![t2], all, k),
{
    assert(seq![t][0] == t);
    assert(seq![t2][0] == t2);
    if spec_direct_cover(t, combo) {
        assert(spec_direct_cover(t2, combo));
    } else {
        assert(spec_implied_cover(t, combo, all, k));
        let m = t.intersect(combo).len();
        let s = choose|s: Set<u32>|
            #![all_triggers]
            s.finite() && s.len() + t.intersect(combo).len() == k && s.subset_of(
                all.difference(combo),
            ) && s.subset_of(t);
        lemma_len_subset(t2.intersect(combo), combo);
        let m2 = t2.intersect(combo).len();
        assert(t.intersect(combo).subset_of(t2.intersect(combo)));
        lemma_len_subset(t.intersect(combo), t2.intersect(combo));
        if m2 == k {
            lemma_subset_equal_card(t2.intersect(combo), combo);
            assert(spec_direct_cover(t2, combo));
        } else {
            lemma_subset_of_size(s, (k - m2) as nat);
            let s2 = choose|s2: Set<u32>|
                #![all_triggers]
                s2.subset_of(s) && s2.finite() && s2.len() == (k - m2) as nat;
            assert(s2.subset_of(all.difference(combo)));
            assert(s2.subset_of(t2));
            assert(s2.len() + t2.intersect(combo).len() == k);
            assert(spec_implied_cover(t2, combo, all, k));
        }
    }
}

/// When there are no combinations to check — the threshold is zero or larger
/// than the universe — coverage holds whatever the tickets are.
pub proof fn lemma_vacuous_coverage(tickets: Seq<Set<u32>>, all: Set<u32>, k: nat)
    requires
        all.finite(),
        k == 0 || k > all.len(),
    ensures
        spec_all_combos_covered(tickets, all, k),
{
    assert forall|c: Set<u32>|
        k >= 1 && #[trigger] is_combo(c, all, k) implies spec_covered(c, tickets, all, k) by {
        lemma_len_subset(c, all);
    }
}

} // verus!
