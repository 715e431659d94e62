//! The two answers: the sum of all globally invalid values, and the product
//! of the personal record's values at the positions whose assigned rule name
//! carries a designated prefix.

use vstd::prelude::*;

verus! {

/// Mathematical sum of the values, in order.
pub open spec fn sum_of(values: Seq<i64>) -> int
    decreases values.len(),
{
    if values.len() == 0 {
        0
    } else {
        sum_of(values.drop_last()) + values.last()
    }
}

/// Left-to-right sum with overflow detection: the value when every partial
/// sum fits a field value, and nothing otherwise.
pub open spec fn checked_sum(values: Seq<i64>) -> Option<int>
    decreases values.len(),
{
    if values.len() == 0 {
        Some(0)
    } else {
        match checked_sum(values.drop_last()) {
            Option::None => Option::None,
            Option::Some(p) => {
                let t = p + values.last();
                if t < i64::MIN || t > i64::MAX {
                    Option::None
                } else {
                    Option::Some(t)
                }
            },
        }
    }
}

/// A checked sum that comes out is the mathematical sum.
pub proof fn lemma_checked_sum_is_sum(values: Seq<i64>)
    ensures
        checked_sum(values) matches Some(v) ==> v == sum_of(values),
    decreases values.len(),
{
    if values.len() > 0 {
        lemma_checked_sum_is_sum(values.drop_last());
    }
}

/// When every value is nonnegative and the total fits a field value, the
/// checked sum is owed: it comes out and equals the total.
pub proof fn lemma_sum_in_range_succeeds(values: Seq<i64>)
    requires
        forall|i: int| 0 <= i < values.len() ==> values[i] >= 0,
        sum_of(values) <= i64::MAX,
    ensures
        checked_sum(values) == Some(sum_of(values)),
        sum_of(values) >= 0,
    decreases values.len(),
{
    if values.len() > 0 {
        let dl = values.drop_last();
        assert forall|i: int| 0 <= i < dl.len() implies dl[i] >= 0 by {
            assert(dl[i] == values[i]);
        }
        assert(values.last() >= 0);
        lemma_sum_in_range_succeeds(dl);
    }
}

proof fn lemma_checked_sum_none_prefix(values: Seq<i64>, i: int)
    requires
        0 <= i <= values.len(),
        checked_sum(values.subrange(0, i)) is None,
    ensures
        checked_sum(values) is None,
    decreases values.len() - i,
{
    if i < values.len() {
        assert(values.subrange(0, i + 1).drop_last() =~= values.subrange(0, i));
        lemma_checked_sum_none_prefix(values, i + 1);
    } else {
        assert(values.subrange(0, i) =~= values);
    }
}

/// Sums the values, reporting the total exactly when every partial sum fits
/// a field value.
pub fn sum_values(values: &Vec<i64>) -> (r: Option<i64>)
    ensures
        (r is Some <==> checked_sum(values@) is Some),
        r matches Some(v) ==> checked_sum(values@) == Some(v as int) && v as int == sum_of(
            values@,
        ),
{
    let mut acc: i64 = 0;
    let mut i: usize = 0;
    while i < values.len()
        invariant
            i <= values@.len(),
            checked_sum(values@.subrange(0, i as int)) == Some(acc as int),
        decreases values@.len() - i,
    {
        proof {
            assert(values@.subrange(0, i + 1 as int).drop_last() =~= values@.subrange(0, i as int));
            assert(values@.subrange(0, i + 1 as int).last() == values@[i as int]);
        }
        match acc.checked_add(values[i]) {
            Option::Some(t) => {
                acc = t;
            },
            Option::None => {
                proof {
                    lemma_checked_sum_none_prefix(values@, i + 1);
                }
                return Option::None;
            },
        }
        i = i + 1;
    }
    proof {
        assert(values@.subrange(0, values@.len() as int) =~= values@);
        lemma_checked_sum_is_sum(values@);
    }
    Option::Some(acc)
}

/// The string begins with the given prefix.
pub open spec fn starts_with_spec(s: Seq<char>, p: Seq<char>) -> bool {
    p.len() <= s.len() && s.subrange(0, p.len() as int) == p
}

/// Whether `s` begins with `prefix`.
pub fn str_starts_with(s: &str, prefix: &str) -> (r: bool)
    ensures
        r == starts_with_spec(s@, prefix@),
{
    let n = s.unicode_len();
    let m = prefix.unicode_len();
    if m > n {
        return false;
    }
    let mut i: usize = 0;
    while i < m
        invariant
            n == s@.len(),
            m == prefix@.len(),
            m <= n,
            i <= m,
            forall|j: int| 0 <= j < i ==> s@[j] == prefix@[j],
        decreases m - i,
    {
        if s.get_char(i) != prefix.get_char(i) {
            proof {
                assert(s@.subrange(0, m as int)[i as int] == s@[i as int]);
            }
            return false;
        }
        i = i + 1;
    }
    proof {
        assert(s@.subrange(0, m as int) =~= prefix@);
    }
    true
}

/// The assignment pairs whose rule name begins with the prefix, in order.
pub open spec fn selected_pairs(pairs: Seq<(usize, String)>, prefix: Seq<char>) -> Seq<
    (usize, String),
> {
    pairs.filter(|pr: (usize, String)| starts_with_spec(pr.1@, prefix))
}

/// Mathematical product of the record's values at the pairs' positions.
pub open spec fn product_of(record: Seq<i64>, pairs: Seq<(usize, String)>) -> int
    decreases pairs.len(),
{
    if pairs.len() == 0 {
        1
    } else {
        product_of(record, pairs.drop_last()) * record[pairs.last().0 as int]
    }
}

/// Left-to-right product with overflow detection.
pub open spec fn checked_product(record: Seq<i64>, pairs: Seq<(usize, String)>) -> Option<int>
    decreases pairs.len(),
{
    if pairs.len() == 0 {
        Some(1)
    } else {
        match checked_product(record, pairs.drop_last()) {
            Option::None => Option::None,
            Option::Some(p) => {
                let t = p * record[pairs.last().0 as int];
                if t < i64::MIN || t > i64::MAX {
                    Option::None
                } else {
                    Option::Some(t)
                }
            },
        }
    }
}

/// A checked product that comes out is the mathematical product.
pub proof fn lemma_checked_product_is_product(record: Seq<i64>, pairs: Seq<(usize, String)>)
    ensures
        checked_product(record, pairs) matches Some(v) ==> v == product_of(record, pairs),
    decreases pairs.len(),
{
    if pairs.len() > 0 {
        lemma_checked_product_is_product(record, pairs.drop_last());
    }
}

/// Multiplies the record's values at the positions whose assigned rule name
/// begins with the prefix, reporting the product exactly when every partial
/// product fits a field value.
pub fn departure_product(pairs: &Vec<(usize, String)>, record: &Vec<i64>, prefix: &str) -> (r:
    Option<i64>)
    requires
        forall|k: int| 0 <= k < pairs@.len() ==> (#[trigger] pairs@[k]).0 < record@.len(),
    ensures
        (r is Some <==> checked_product(record@, selected_pairs(pairs@, prefix@)) is Some),
        r matches Some(v) ==> checked_product(record@, selected_pairs(pairs@, prefix@)) == Some(
            v as int,
        ) && v as int == product_of(record@, selected_pairs(pairs@, prefix@)),
{
    let mut acc: i64 = 1;
    let mut over: bool = false;
    let mut i: usize = 0;
    while i < pairs.len()
        invariant
            i <= pairs@.len(),
            forall|k: int| 0 <= k < pairs@.len() ==> (#[trigger] pairs@[k]).0 < record@.len(),
            !over ==> checked_product(record@, selected_pairs(pairs@.subrange(0, i as int), prefix@))
                == Some(acc as int),
            over ==> checked_product(record@, selected_pairs(pairs@.subrange(0, i as int), prefix@))
                is None,
        decreases pairs@.len() - i,
    {
        let sel = str_starts_with(pairs[i].1.as_str(), prefix);
        proof {
            reveal(Seq::filter);
            assert(pairs@.subrange(0, i + 1 as int).drop_last() =~= pairs@.subrange(0, i as int));
            assert(pairs@.subrange(0, i + 1 as int).last() == pairs@[i as int]);
        }
        if sel {
            let ghost old_sel = selected_pairs(pairs@.subrange(0, i as int), prefix@);
            proof {
                assert(selected_pairs(pairs@.subrange(0, i + 1 as int), prefix@) == old_sel.push(
                    pairs@[i as int],
                ));
                assert(old_sel.push(pairs@[i as int]).drop_last() =~= old_sel);
            }
            if !over {
                match acc.checked_mul(record[pairs[i].0]) {
                    Option::Some(t) => {
                        acc = t;
                    },
                    Option::None => {
                        over = true;
                    },
                }
            }
        }
        i = i + 1;
    }
    proof {
        assert(pairs@.subrange(0, pairs@.len() as int) =~= pairs@);
        lemma_checked_product_is_product(record@, selected_pairs(pairs@, prefix@));
    }
    if over {
        Option::None
    } else {
        Option::Some(acc)
    }
}

} // verus!
