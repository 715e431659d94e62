//! The validity filter: values that satisfy no rule at all, and the records
//! that are kept free of such values.

use vstd::prelude::*;

use crate::rules::Rule;

verus! {

/// A value is globally invalid when no rule in the whole rule set accepts it.
pub open spec fn value_invalid(rules: Seq<Rule>, v: i64) -> bool {
    forall|i: int| 0 <= i < rules.len() ==> !(#[trigger] rules[i]).spec_valid(v)
}

/// The values of a record that satisfy no rule, in record order.
pub open spec fn invalid_fields_of(rules: Seq<Rule>, record: Seq<i64>) -> Seq<i64> {
    record.filter(|v: i64| value_invalid(rules, v))
}

/// A record is globally valid when each of its values satisfies some rule.
pub open spec fn record_valid(rules: Seq<Rule>, record: Seq<i64>) -> bool {
    forall|i: int| 0 <= i < record.len() ==> !value_invalid(rules, #[trigger] record[i])
}

/// The globally valid records of a batch, in batch order.
pub open spec fn valid_records_of(rules: Seq<Rule>, records: Seq<Seq<i64>>) -> Seq<Seq<i64>> {
    records.filter(|p: Seq<i64>| record_valid(rules, p))
}

/// The invalid values of every record of a batch, flattened in batch order.
pub open spec fn all_invalid_fields(rules: Seq<Rule>, records: Seq<Seq<i64>>) -> Seq<i64>
    decreases records.len(),
{
    if records.len() == 0 {
        Seq::empty()
    } else {
        all_invalid_fields(rules, records.drop_last()) + invalid_fields_of(rules, records.last())
    }
}

/// A record has no invalid fields exactly when it is globally valid.
pub proof fn lemma_record_valid_no_invalid(rules: Seq<Rule>, record: Seq<i64>)
    ensures
        record_valid(rules, record) <==> invalid_fields_of(rules, record).len() == 0,
    decreases record.len(),
{
    reveal(Seq::filter);
    if record.len() > 0 {
        let dl = record.drop_last();
        let x = record.last();
        lemma_record_valid_no_invalid(rules, dl);
        assert(invalid_fields_of(rules, record) == if value_invalid(rules, x) {
            invalid_fields_of(rules, dl).push(x)
        } else {
            invalid_fields_of(rules, dl)
        });
        if record_valid(rules, record) {
            assert forall|i: int| 0 <= i < dl.len() implies !value_invalid(
                rules,
                #[trigger] dl[i],
            ) by {
                assert(dl[i] == record[i]);
            }
            assert(x == record[record.len() - 1]);
            assert(!value_invalid(rules, x));
            assert(invalid_fields_of(rules, record).len() == 0);
        }
        if invalid_fields_of(rules, record).len() == 0 {
            assert(!value_invalid(rules, x));
            assert(record_valid(rules, dl));
            assert forall|i: int| 0 <= i < record.len() implies !value_invalid(
                rules,
                #[trigger] record[i],
            ) by {
                if i < record.len() - 1 {
                    assert(record[i] == dl[i]);
                } else {
                    assert(record[i] == x);
                }
            }
        }
    }
}

fn satisfies_some_rule(rules: &Vec<Rule>, v: i64) -> (r: bool)
    ensures
        r == !value_invalid(rules@, v),
{
    let mut j: usize = 0;
    loop
        invariant
            j <= rules@.len(),
            forall|k: int| 0 <= k < j ==> !(#[trigger] rules@[k]).spec_valid(v),
        ensures
            j <= rules@.len(),
            j < rules@.len() ==> rules@[j as int].spec_valid(v),
            forall|k: int| 0 <= k < j ==> !(#[trigger] rules@[k]).spec_valid(v),
        decreases rules@.len() - j,
    {
        if j >= rules.len() {
            break;
        }
        if rules[j].valid(&v) {
            break;
        }
        j = j + 1;
    }
    j < rules.len()
}

/// Returns every value of the record that satisfies no rule, keeping the
/// record's order.
pub fn find_invalid_fields(passport: &Vec<i64>, rules: &Vec<Rule>) -> (r: Vec<i64>)
    ensures
        r@ == invalid_fields_of(rules@, passport@),
{
    let mut r: Vec<i64> = Vec::new();
    let mut i: usize = 0;
    while i < passport.len()
        invariant
            i <= passport@.len(),
            r@ == invalid_fields_of(rules@, passport@.subrange(0, i as int)),
        decreases passport@.len() - i,
    {
        let x = passport[i];
        let sat = satisfies_some_rule(rules, x);
        if !sat {
            r.push(x);
        }
        proof {
            reveal(Seq::filter);
            assert(passport@.subrange(0, i + 1 as int).drop_last() =~= passport@.subrange(
                0,
                i as int,
            ));
            assert(passport@.subrange(0, i + 1 as int).last() == passport@[i as int]);
            assert(r@ == invalid_fields_of(rules@, passport@.subrange(0, i + 1 as int)));
        }
        i = i + 1;
    }
    proof {
        assert(passport@.subrange(0, passport@.len() as int) =~= passport@);
    }
    r
}

/// Collects the invalid values of every record in the batch, flattened in
/// batch order.
pub fn find_all_invalid_fields(passports: &Vec<Vec<i64>>, rules: &Vec<Rule>) -> (r: Vec<i64>)
    ensures
        r@ == all_invalid_fields(rules@, passports.deep_view()),
{
    let ghost dv = passports.deep_view();
    let mut r: Vec<i64> = Vec::new();
    let mut i: usize = 0;
    while i < passports.len()
        invariant
            dv == passports.deep_view(),
            dv.len() == passports@.len(),
            i <= passports@.len(),
            r@ == all_invalid_fields(rules@, dv.subrange(0, i as int)),
        decreases passports@.len() - i,
    {
        let mut inv = find_invalid_fields(&passports[i], rules);
        proof {
            assert(dv[i as int] =~= passports@[i as int]@);
            assert(dv.subrange(0, i + 1 as int).drop_last() =~= dv.subrange(0, i as int));
            assert(dv.subrange(0, i + 1 as int).last() == dv[i as int]);
        }
        r.append(&mut inv);
        i = i + 1;
    }
    proof {
        assert(dv.subrange(0, dv.len() as int) =~= dv);
    }
    r
}

fn copy_record(src: &Vec<i64>) -> (r: Vec<i64>)
    ensures
        r@ == src@,
{
    let mut r: Vec<i64> = Vec::new();
    let mut i: usize = 0;
    while i < src.len()
        invariant
            i <= src@.len(),
            r@ == src@.subrange(0, i as int),
        decreases src@.len() - i,
    {
        r.push(src[i]);
        proof {
            assert(r@ =~= src@.subrange(0, i + 1 as int));
        }
        i = i + 1;
    }
    proof {
        assert(src@.subrange(0, src@.len() as int) =~= src@);
    }
    r
}

/// Keeps exactly the globally valid records of the batch, in batch order:
/// the result is never longer than the input, and every kept record has no
/// invalid fields at all.
pub fn filter_invalid(passports: Vec<Vec<i64>>, rules: &Vec<Rule>) -> (r: Vec<Vec<i64>>)
    ensures
        r.deep_view() == valid_records_of(rules@, passports.deep_view()),
        r@.len() <= passports@.len(),
        forall|i: int|
            0 <= i < r@.len() ==> invalid_fields_of(rules@, (#[trigger] r@[i])@).len() == 0,
{
    let ghost dv = passports.deep_view();
    let mut r: Vec<Vec<i64>> = Vec::new();
    let mut i: usize = 0;
    while i < passports.len()
        invariant
            dv == passports.deep_view(),
            dv.len() == passports@.len(),
            i <= passports@.len(),
            r.deep_view() == valid_records_of(rules@, dv.subrange(0, i as int)),
            r@.len() <= i,
            forall|k: int|
                0 <= k < r@.len() ==> invalid_fields_of(rules@, (#[trigger] r@[k])@).len() == 0,
        decreases passports@.len() - i,
    {
        let inv = find_invalid_fields(&passports[i], rules);
        proof {
            assert(dv[i as int] =~= passports@[i as int]@);
            assert(dv.subrange(0, i + 1 as int).drop_last() =~= dv.subrange(0, i as int));
            assert(dv.subrange(0, i + 1 as int).last() == dv[i as int]);
            lemma_record_valid_no_invalid(rules@, passports@[i as int]@);
            reveal(Seq::filter);
        }
        if inv.len() == 0 {
            let kept = copy_record(&passports[i]);
            r.push(kept);
            proof {
                assert(r.deep_view() =~= valid_records_of(rules@, dv.subrange(0, i + 1 as int)));
            }
        } else {
            proof {
                assert(r.deep_view() =~= valid_records_of(rules@, dv.subrange(0, i + 1 as int)));
            }
        }
        i = i + 1;
    }
    proof {
        assert(dv.subrange(0, dv.len() as int) =~= dv);
    }
    r
}

} // verus!
