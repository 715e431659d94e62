//! The position solver: for each rule, the record positions consistent with
//! it across the whole batch, and the elimination step that turns those
//! candidate sets into a unique assignment of rules to positions.

use vstd::multiset::Multiset;
use vstd::prelude::*;

use crate::rules::Rule;

verus! {

/// A position is consistent with a rule when every record's value at that
/// position satisfies the rule.
pub open spec fn valid_in_position(rule: Rule, records: Seq<Vec<i64>>, pos: int) -> bool {
    forall|k: int| 0 <= k < records.len() ==> rule.spec_valid((#[trigger] records[k])@[pos])
}

/// A candidate list for one rule: the positions below `n` consistent with the
/// rule, in ascending order, each paired with the rule's name.
pub open spec fn candidate_list_ok(
    rule: Rule,
    records: Seq<Vec<i64>>,
    n: int,
    l: Seq<(usize, String)>,
) -> bool {
    &&& forall|j: int|
        0 <= j < l.len() ==> (#[trigger] l[j]).0 < n && valid_in_position(
            rule,
            records,
            l[j].0 as int,
        ) && l[j].1@ == rule.name@
    &&& forall|p: int|
        0 <= p < n && valid_in_position(rule, records, p) ==> exists|j: int|
            0 <= j < l.len() && (#[trigger] l[j]).0 == p
    &&& forall|j1: int, j2: int| 0 <= j1 < j2 < l.len() ==> l[j1].0 < l[j2].0
}

/// Whether every record of the batch has at least `n` fields, so that every
/// position below `n` can be read from every record.
pub fn records_cover(n: usize, passports: &Vec<Vec<i64>>) -> (r: bool)
    ensures
        r == forall|k: int| 0 <= k < passports@.len() ==> n <= (#[trigger] passports@[k])@.len(),
{
    let mut k: usize = 0;
    loop
        invariant
            k <= passports@.len(),
            forall|k2: int| 0 <= k2 < k ==> n <= (#[trigger] passports@[k2])@.len(),
        ensures
            k <= passports@.len(),
            forall|k2: int| 0 <= k2 < k ==> n <= (#[trigger] passports@[k2])@.len(),
            k < passports@.len() ==> n > passports@[k as int]@.len(),
        decreases passports@.len() - k,
    {
        if k >= passports.len() {
            break;
        }
        if passports[k].len() < n {
            break;
        }
        k = k + 1;
    }
    k >= passports.len()
}

/// Whether every record of the batch has a value at position `position` that
/// satisfies the rule.
pub fn is_valid_in_position(rule: &Rule, position: usize, passports: &Vec<Vec<i64>>) -> (r: bool)
    requires
        forall|k: int| 0 <= k < passports@.len() ==> position < (#[trigger] passports@[k])@.len(),
    ensures
        r == valid_in_position(*rule, passports@, position as int),
{
    let mut k: usize = 0;
    loop
        invariant
            k <= passports@.len(),
            forall|k2: int| 0 <= k2 < passports@.len() ==> position < (
            #[trigger] passports@[k2])@.len(),
            forall|k2: int|
                0 <= k2 < k ==> rule.spec_valid((#[trigger] passports@[k2])@[position as int]),
        ensures
            k <= passports@.len(),
            forall|k2: int|
                0 <= k2 < k ==> rule.spec_valid((#[trigger] passports@[k2])@[position as int]),
            k < passports@.len() ==> !rule.spec_valid(passports@[k as int]@[position as int]),
        decreases passports@.len() - k,
    {
        if k >= passports.len() {
            break;
        }
        if !rule.valid(&passports[k][position]) {
            break;
        }
        k = k + 1;
    }
    k >= passports.len()
}

/// For each rule in order, collects the candidate positions consistent with
/// it across the whole batch, each paired with the rule's name.
pub fn find_all_valid_positions(rules: &Vec<Rule>, passports: &Vec<Vec<i64>>) -> (r: Vec<
    Vec<(usize, String)>,
>)
    requires
        forall|k: int| 0 <= k < passports@.len() ==> rules@.len() <= (#[trigger] passports@[k])@.len(),
    ensures
        r@.len() == rules@.len(),
        forall|i: int|
            0 <= i < rules@.len() ==> candidate_list_ok(
                rules@[i],
                passports@,
                rules@.len() as int,
                (#[trigger] r@[i])@,
            ),
{
    let n = rules.len();
    let mut r: Vec<Vec<(usize, String)>> = Vec::new();
    let mut i: usize = 0;
    while i < n
        invariant
            n == rules@.len(),
            forall|k: int| 0 <= k < passports@.len() ==> n <= (#[trigger] passports@[k])@.len(),
            i <= n,
            r@.len() == i,
            forall|i2: int|
                0 <= i2 < i ==> candidate_list_ok(
                    rules@[i2],
                    passports@,
                    n as int,
                    (#[trigger] r@[i2])@,
                ),
        decreases n - i,
    {
        let mut lst: Vec<(usize, String)> = Vec::new();
        let mut pos: usize = 0;
        while pos < n
            invariant
                n == rules@.len(),
                forall|k: int| 0 <= k < passports@.len() ==> n <= (#[trigger] passports@[k])@.len(),
                i < n,
                pos <= n,
                forall|j: int|
                    0 <= j < lst@.len() ==> (#[trigger] lst@[j]).0 < pos && valid_in_position(
                        rules@[i as int],
                        passports@,
                        lst@[j].0 as int,
                    ) && lst@[j].1@ == rules@[i as int].name@,
                forall|p: int|
                    0 <= p < pos && valid_in_position(rules@[i as int], passports@, p) ==> exists|
                        j: int,
                    |
                        0 <= j < lst@.len() && (#[trigger] lst@[j]).0 == p,
                forall|j1: int, j2: int| 0 <= j1 < j2 < lst@.len() ==> lst@[j1].0 < lst@[j2].0,
            decreases n - pos,
        {
            if is_valid_in_position(&rules[i], pos, passports) {
                let name = rules[i].name.clone();
                let ghost old_lst = lst@;
                lst.push((pos, name));
                proof {
                    assert forall|p: int|
                        0 <= p < pos + 1 && valid_in_position(
                            rules@[i as int],
                            passports@,
                            p,
                        ) implies exists|j: int|
                        0 <= j < lst@.len() && (#[trigger] lst@[j]).0 == p by {
                        if p == pos {
                            assert(lst@[lst@.len() - 1].0 == p);
                        } else {
                            let j = choose|j: int|
                                0 <= j < old_lst.len() && (#[trigger] old_lst[j]).0 == p;
                            assert(lst@[j].0 == p);
                        }
                    }
                }
            }
            pos = pos + 1;
        }
        r.push(lst);
        i = i + 1;
    }
    r
}

/// The assignment cannot be resolved: some candidate list does not peel down
/// to a single fresh position.
#[derive(Clone, Copy, Debug, PartialEq, Eq, Structural)]
pub enum SolveError {
    UnsolvableAssignment,
}

/// Index of the first entry of `l` at or after `j` whose position is not yet
/// taken, or the length if every entry is taken.
pub open spec fn first_free(l: Seq<(usize, String)>, taken: Set<usize>, j: int) -> int
    decreases l.len() - j,
{
    if 0 <= j && j < l.len() {
        if !taken.contains(l[j].0) {
            j
        } else {
            first_free(l, taken, j + 1)
        }
    } else {
        l.len() as int
    }
}

proof fn lemma_first_free_from(l: Seq<(usize, String)>, taken: Set<usize>, k: int, j: int)
    requires
        0 <= k <= j <= l.len(),
        forall|j2: int| k <= j2 < j ==> taken.contains((#[trigger] l[j2]).0),
        j == l.len() || !taken.contains(l[j].0),
    ensures
        first_free(l, taken, k) == j,
    decreases j - k,
{
    if k < j {
        lemma_first_free_from(l, taken, k + 1, j);
    }
}

/// One elimination pass, from list `i` on: list `i` must hold exactly `i + 1`
/// candidates, and the first of them whose position is still free is
/// assigned; otherwise the whole elimination fails.
pub open spec fn eliminate_from(
    lists: Seq<Vec<(usize, String)>>,
    i: int,
    taken: Set<usize>,
    acc: Seq<(usize, String)>,
) -> Option<Seq<(usize, String)>>
    decreases lists.len() - i,
{
    if i < 0 || i >= lists.len() {
        Some(acc)
    } else {
        let l = lists[i]@;
        if l.len() != i + 1 {
            None
        } else {
            let j = first_free(l, taken, 0);
            if j == l.len() {
                None
            } else {
                eliminate_from(lists, i + 1, taken.insert(l[j].0), acc.push(l[j]))
            }
        }
    }
}

/// The whole elimination over a list of candidate lists.
pub open spec fn eliminate_spec(lists: Seq<Vec<(usize, String)>>) -> Option<
    Seq<(usize, String)>,
> {
    eliminate_from(lists, 0, Set::empty(), Seq::empty())
}

fn taken_contains(taken: &Vec<usize>, p: usize) -> (r: bool)
    ensures
        r == taken@.contains(p),
{
    let mut i: usize = 0;
    loop
        invariant
            i <= taken@.len(),
            forall|k: int| 0 <= k < i ==> taken@[k] != p,
        ensures
            i <= taken@.len(),
            i < taken@.len() ==> taken@[i as int] == p,
            forall|k: int| 0 <= k < i ==> taken@[k] != p,
        decreases taken@.len() - i,
    {
        if i >= taken.len() {
            break;
        }
        if taken[i] == p {
            break;
        }
        i = i + 1;
    }
    i < taken.len()
}

/// Runs the elimination over candidate lists already sorted by length: list
/// `i` must hold exactly `i + 1` candidates, and its first still-free
/// position is assigned to its rule; any violation is fatal.
pub fn eliminate(all_positions: &Vec<Vec<(usize, String)>>) -> (r: Result<
    Vec<(usize, String)>,
    SolveError,
>)
    ensures
        (r is Ok <==> eliminate_spec(all_positions@) is Some),
        (r matches Ok(pairs) ==> eliminate_spec(all_positions@) == Some(pairs@)),
{
    let n = all_positions.len();
    let mut acc: Vec<(usize, String)> = Vec::new();
    let mut taken: Vec<usize> = Vec::new();
    let ghost mut tset = Set::<usize>::empty();
    let mut i: usize = 0;
    while i < n
        invariant
            n == all_positions@.len(),
            i <= n,
            eliminate_spec(all_positions@) == eliminate_from(
                all_positions@,
                i as int,
                tset,
                acc@,
            ),
            forall|p: usize| tset.contains(p) <==> taken@.contains(p),
        decreases n - i,
    {
        let l_len = all_positions[i].len();
        if l_len != i + 1 {
            return Err(SolveError::UnsolvableAssignment);
        }
        let mut j: usize = 0;
        loop
            invariant
                n == all_positions@.len(),
                i < n,
                j <= all_positions@[i as int]@.len(),
                forall|p: usize| tset.contains(p) <==> taken@.contains(p),
                forall|j2: int|
                    0 <= j2 < j ==> tset.contains((#[trigger] all_positions@[i as int]@[j2]).0),
            ensures
                j <= all_positions@[i as int]@.len(),
                forall|j2: int|
                    0 <= j2 < j ==> tset.contains((#[trigger] all_positions@[i as int]@[j2]).0),
                j < all_positions@[i as int]@.len() ==> !tset.contains(
                    all_positions@[i as int]@[j as int].0,
                ),
            decreases all_positions@[i as int]@.len() - j,
        {
            if j >= all_positions[i].len() {
                break;
            }
            if !taken_contains(&taken, all_positions[i][j].0) {
                break;
            }
            j = j + 1;
        }
        proof {
            lemma_first_free_from(all_positions@[i as int]@, tset, 0, j as int);
        }
        if j >= l_len {
            return Err(SolveError::UnsolvableAssignment);
        }
        let p = all_positions[i][j].0;
        let name = all_positions[i][j].1.clone();
        let ghost old_taken = taken@;
        taken.push(p);
        proof {
            tset = tset.insert(p);
            assert forall|q: usize| tset.contains(q) <==> taken@.contains(q) by {
                if q == p {
                    assert(taken@[taken@.len() - 1] == p);
                    assert(taken@.contains(q));
                } else {
                    if old_taken.contains(q) {
                        let k = choose|k: int| 0 <= k < old_taken.len() && old_taken[k] == q;
                        assert(taken@[k] == q);
                    }
                    if taken@.contains(q) {
                        let k = choose|k: int| 0 <= k < taken@.len() && taken@[k] == q;
                        assert(old_taken[k] == q);
                    }
                }
            }
        }
        acc.push((p, name));
        i = i + 1;
    }
    Ok(acc)
}

/// Candidate lists in ascending order of candidate count.
pub open spec fn sorted_by_len(lists: Seq<Vec<(usize, String)>>) -> bool {
    forall|a: int, b: int|
        0 <= a < b < lists.len() ==> (#[trigger] lists[a])@.len() <= (#[trigger] lists[b])@.len()
}

fn min_len_index(work: &Vec<Vec<(usize, String)>>) -> (m: usize)
    requires
        work@.len() > 0,
    ensures
        m < work@.len(),
        forall|k: int| 0 <= k < work@.len() ==> work@[m as int]@.len() <= (#[trigger] work@[k])@.len(),
{
    let mut m: usize = 0;
    let mut b: usize = 1;
    while b < work.len()
        invariant
            m < work@.len(),
            1 <= b <= work@.len(),
            forall|k: int| 0 <= k < b ==> work@[m as int]@.len() <= (#[trigger] work@[k])@.len(),
        decreases work@.len() - b,
    {
        if work[b].len() < work[m].len() {
            m = b;
        }
        b = b + 1;
    }
    m
}

fn sort_by_len(input: Vec<Vec<(usize, String)>>) -> (r: Vec<Vec<(usize, String)>>)
    ensures
        r@.to_multiset() == input@.to_multiset(),
        sorted_by_len(r@),
{
    let ghost orig = input@;
    let mut work = input;
    let mut sorted: Vec<Vec<(usize, String)>> = Vec::new();
    proof {
        broadcast use vstd::seq_lib::group_to_multiset_ensures;
        broadcast use vstd::multiset::group_multiset_axioms;
        broadcast use vstd::multiset::lemma_multiset_empty_len;

        assert(sorted@.to_multiset().len() == 0);
        assert(sorted@.to_multiset() =~= Multiset::empty());
        assert(sorted@.to_multiset().add(work@.to_multiset()) =~= orig.to_multiset());
    }
    while work.len() > 0
        invariant
            sorted@.to_multiset().add(work@.to_multiset()) == orig.to_multiset(),
            sorted_by_len(sorted@),
            forall|a: int, b: int|
                0 <= a < sorted@.len() && 0 <= b < work@.len() ==> (#[trigger] sorted@[a])@.len()
                    <= (#[trigger] work@[b])@.len(),
        decreases work@.len(),
    {
        let m = min_len_index(&work);
        let ghost old_work = work@;
        let ghost old_sorted = sorted@;
        let item = work.remove(m);
        sorted.push(item);
        proof {
            broadcast use vstd::seq_lib::group_to_multiset_ensures;
            broadcast use vstd::multiset::group_multiset_axioms;

            assert(work@ == old_work.remove(m as int));
            assert(sorted@ == old_sorted.push(item));
            assert(sorted@.to_multiset().add(work@.to_multiset()) =~= orig.to_multiset());
            assert forall|a: int, b: int|
                0 <= a < sorted@.len() && 0 <= b < work@.len() implies (
            #[trigger] sorted@[a])@.len() <= (#[trigger] work@[b])@.len() by {
                if b < m {
                    assert(work@[b] == old_work[b]);
                } else {
                    assert(work@[b] == old_work[b + 1]);
                }
                if a < old_sorted.len() {
                    assert(sorted@[a] == old_sorted[a]);
                } else {
                    assert(sorted@[a] == item);
                }
            }
            assert forall|a: int, b: int|
                0 <= a < b < sorted@.len() implies (#[trigger] sorted@[a])@.len() <= (
            #[trigger] sorted@[b])@.len() by {
                if b < sorted@.len() - 1 {
                    assert(sorted@[a] == old_sorted[a] && sorted@[b] == old_sorted[b]);
                } else {
                    assert(sorted@[b] == item);
                    assert(sorted@[a] == old_sorted[a]);
                    assert(old_work[m as int] == item);
                }
            }
        }
    }
    proof {
        broadcast use vstd::seq_lib::group_to_multiset_ensures;
        broadcast use vstd::multiset::group_multiset_axioms;

        assert(work@.to_multiset() =~= Multiset::empty());
        assert(sorted@.to_multiset().add(work@.to_multiset()) =~= sorted@.to_multiset());
    }
    sorted
}

/// Resolves the assignment: sorts the candidate lists ascending by candidate
/// count, then peels them off by elimination.  Succeeds exactly when the
/// elimination of the sorted lists does; any violation of the peeling
/// invariant is fatal, with no fallback search.
pub fn determine_field_positions(all_positions: Vec<Vec<(usize, String)>>) -> (r: Result<
    Vec<(usize, String)>,
    SolveError,
>)
    ensures
        (r matches Ok(pairs) ==> exists|s: Seq<Vec<(usize, String)>>|
            (#[trigger] s.to_multiset()) == all_positions@.to_multiset() && sorted_by_len(s)
                && eliminate_spec(s) == Some(pairs@)),
        (r is Err ==> exists|s: Seq<Vec<(usize, String)>>|
            (#[trigger] s.to_multiset()) == all_positions@.to_multiset() && sorted_by_len(s)
                && eliminate_spec(s) is None),
{
    let sorted = sort_by_len(all_positions);
    let res = eliminate(&sorted);
    proof {
        assert(sorted@.to_multiset() == all_positions@.to_multiset() && sorted_by_len(sorted@));
    }
    res
}

proof fn lemma_first_free_props(l: Seq<(usize, String)>, taken: Set<usize>, k: int)
    requires
        0 <= k <= l.len(),
    ensures
        k <= first_free(l, taken, k) <= l.len(),
        first_free(l, taken, k) < l.len() ==> !taken.contains(l[first_free(l, taken, k)].0),
    decreases l.len() - k,
{
    if k < l.len() && taken.contains(l[k].0) {
        lemma_first_free_props(l, taken, k + 1);
    }
}

proof fn lemma_eliminate_from_props(
    lists: Seq<Vec<(usize, String)>>,
    i: int,
    taken: Set<usize>,
    acc: Seq<(usize, String)>,
    pairs: Seq<(usize, String)>,
)
    requires
        0 <= i <= lists.len(),
        acc.len() == i,
        eliminate_from(lists, i, taken, acc) == Some(pairs),
        forall|k: int| 0 <= k < acc.len() ==> taken.contains((#[trigger] acc[k]).0),
        forall|k1: int, k2: int| 0 <= k1 < k2 < acc.len() ==> acc[k1].0 != acc[k2].0,
    ensures
        pairs.len() == lists.len(),
        forall|k: int| 0 <= k < acc.len() ==> acc[k] == #[trigger] pairs[k],
        forall|k: int| i <= k < lists.len() ==> lists[k]@.contains(#[trigger] pairs[k]),
        forall|k1: int, k2: int| 0 <= k1 < k2 < pairs.len() ==> pairs[k1].0 != pairs[k2].0,
    decreases lists.len() - i,
{
    if i < lists.len() {
        let l = lists[i]@;
        let j = first_free(l, taken, 0);
        lemma_first_free_props(l, taken, 0);
        lemma_eliminate_from_props(
            lists,
            i + 1,
            taken.insert(l[j].0),
            acc.push(l[j]),
            pairs,
        );
        assert(lists[i]@.contains(pairs[i])) by {
            assert(acc.push(l[j])[i] == l[j]);
            assert(pairs[i] == l[j]);
        }
    }
}

/// The elimination solver produces a true bijection.  With `N` candidate
/// lists whose positions all lie below `N`, a successful elimination yields
/// exactly `N` pairs, their positions are pairwise distinct and cover every
/// position below `N`, and the `k`-th pair is drawn from the `k`-th list —
/// so each list's rule name is used exactly once when each list carries one
/// name.
pub proof fn lemma_elimination_bijection(
    lists: Seq<Vec<(usize, String)>>,
    pairs: Seq<(usize, String)>,
)
    requires
        eliminate_spec(lists) == Some(pairs),
        forall|k: int, j: int|
            0 <= k < lists.len() && 0 <= j < (#[trigger] lists[k])@.len() ==> ((#[trigger] lists[k]@[j]).0
                as int) < lists.len(),
    ensures
        pairs.len() == lists.len(),
        forall|k: int| 0 <= k < pairs.len() ==> lists[k]@.contains(#[trigger] pairs[k]),
        forall|k1: int, k2: int| 0 <= k1 < k2 < pairs.len() ==> pairs[k1].0 != pairs[k2].0,
        Seq::new(pairs.len(), |k: int| pairs[k].0 as int).to_set() == vstd::set_lib::set_int_range(
            0,
            lists.len() as int,
        ),
{
    let n = lists.len() as int;
    lemma_eliminate_from_props(lists, 0, Set::empty(), Seq::empty(), pairs);
    let ps = Seq::new(pairs.len(), |k: int| pairs[k].0 as int);
    let range = vstd::set_lib::set_int_range(0, n);
    vstd::set_lib::lemma_int_range(0, n);
    assert(ps.no_duplicates());
    ps.unique_seq_to_set();
    assert forall|p: int| ps.to_set().contains(p) implies range.contains(p) by {
        let k = choose|k: int| 0 <= k < ps.len() && ps[k] == p;
        assert(lists[k]@.contains(pairs[k]));
        let j = choose|j: int| 0 <= j < lists[k]@.len() && lists[k]@[j] == pairs[k];
        assert((lists[k]@[j].0 as int) < n);
    }
    assert(ps.to_set() <= range);
    assert forall|p: int| range.contains(p) implies ps.to_set().contains(p) by {
        if !ps.to_set().contains(p) {
            assert(ps.to_set() <= range.remove(p));
            vstd::set_lib::lemma_len_subset(ps.to_set(), range.remove(p));
            assert(range.remove(p).len() == n - 1);
            assert(false);
        }
    }
    assert(ps.to_set() =~= range);
}

/// The pair appears in one of the candidate lists.
pub open spec fn drawn_from(lists: Seq<Vec<(usize, String)>>, pr: (usize, String)) -> bool {
    exists|k: int| 0 <= k < lists.len() && (#[trigger] lists[k])@.contains(pr)
}

/// Carries the bijection guarantee to the solver's entry point: when every
/// position in every candidate list lies below the number of lists, an
/// assignment resolved from any sorted permutation of those lists is a true
/// bijection — one pair per list, positions pairwise distinct and covering
/// every position, each pair drawn from one of the lists.
pub proof fn lemma_sorted_elimination_bijection(
    lists: Seq<Vec<(usize, String)>>,
    s: Seq<Vec<(usize, String)>>,
    pairs: Seq<(usize, String)>,
)
    requires
        s.to_multiset() == lists.to_multiset(),
        eliminate_spec(s) == Some(pairs),
        forall|k: int, j: int|
            0 <= k < lists.len() && 0 <= j < (#[trigger] lists[k])@.len() ==> ((
            #[trigger] lists[k]@[j]).0 as int) < lists.len(),
    ensures
        pairs.len() == lists.len(),
        forall|k1: int, k2: int| 0 <= k1 < k2 < pairs.len() ==> pairs[k1].0 != pairs[k2].0,
        Seq::new(pairs.len(), |k: int| pairs[k].0 as int).to_set() == vstd::set_lib::set_int_range(
            0,
            lists.len() as int,
        ),
        forall|k: int| 0 <= k < pairs.len() ==> drawn_from(lists, #[trigger] pairs[k]),
{
    broadcast use vstd::seq_lib::group_to_multiset_ensures;
    broadcast use vstd::multiset::group_multiset_axioms;

    assert(s.len() == lists.len()) by {
        assert(s.to_multiset().len() == s.len());
        assert(lists.to_multiset().len() == lists.len());
    }
    assert forall|k: int, j: int|
        0 <= k < s.len() && 0 <= j < (#[trigger] s[k])@.len() implies ((#[trigger] s[k]@[j]).0
        as int) < s.len() by {
        assert(s.contains(s[k]));
        assert(lists.to_multiset().count(s[k]) > 0);
        assert(lists.contains(s[k]));
        let k2 = choose|k2: int| 0 <= k2 < lists.len() && lists[k2] == s[k];
        assert((lists[k2]@[j].0 as int) < lists.len());
    }
    lemma_elimination_bijection(s, pairs);
    assert forall|k: int| 0 <= k < pairs.len() implies drawn_from(
        lists,
        #[trigger] pairs[k],
    ) by {
        assert(s[k]@.contains(pairs[k]));
        assert(s.contains(s[k]));
        assert(lists.to_multiset().count(s[k]) > 0);
        assert(lists.contains(s[k]));
        let k2 = choose|k2: int| 0 <= k2 < lists.len() && lists[k2] == s[k];
        assert(lists[k2]@.contains(pairs[k]));
    }
}

/// Shrinking the batch can only keep or enlarge a rule's candidate set: a
/// position consistent with a rule over a batch stays consistent when any one
/// record is removed.
pub proof fn lemma_candidates_monotonic(rule: Rule, records: Seq<Vec<i64>>, k: int, pos: int)
    requires
        0 <= k < records.len(),
        valid_in_position(rule, records, pos),
    ensures
        valid_in_position(rule, records.remove(k), pos),
{
    let shorter = records.remove(k);
    assert forall|j: int| 0 <= j < shorter.len() implies rule.spec_valid(
        (#[trigger] shorter[j])@[pos],
    ) by {
        if j < k {
            assert(shorter[j] == records[j]);
        } else {
            assert(shorter[j] == records[j + 1]);
        }
    }
}

} // verus!
