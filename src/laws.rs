//! Facts that hold of every report the library builds.
use std::fmt::Display;
use vstd::prelude::*;
use vstd::string::to_string_from_display_ensures;

use crate::containers::{
    indexed_report, keyed_report, lists_pairs, rendered_and_validated, validated_by_key,
    validated_in_order,
};
use crate::error::{
    errors_key, merge_model, merge_reasons, outcome_model, record_all, record_at, union_with, Error, ErrorModel,
    LocationModel,
};
use crate::Validate;

verus! {

/// Whether no two entries share a location.
pub open spec fn distinct_locations(entries: Seq<(LocationModel, Option<ErrorModel>)>) -> bool {
    forall|i: int, j: int| 0 <= i < j < entries.len() ==> entries[i].0 != entries[j].0
}

/// Whether entry `i` records a failure at `k`.
pub open spec fn fails_at(
    entries: Seq<(LocationModel, Option<ErrorModel>)>,
    i: int,
    k: LocationModel,
) -> bool {
    0 <= i < entries.len() && entries[i].0 == k && entries[i].1 is Some
}

/// The failures among `entries`, by location.
pub open spec fn failures(entries: Seq<(LocationModel, Option<ErrorModel>)>) -> Map<
    LocationModel,
    ErrorModel,
> {
    Map::new(
        |k: LocationModel| exists|i: int| fails_at(entries, i, k),
        |k: LocationModel| entries[choose|i: int| fails_at(entries, i, k)].1->Some_0,
    )
}

/// No report when nothing failed; otherwise the failures, as a structured report.
pub open spec fn report_of(failures: Map<LocationModel, ErrorModel>) -> Option<ErrorModel> {
    if failures.dom().is_empty() {
        None
    } else {
        Some(ErrorModel::Structured(failures))
    }
}

/// Each builder call that records the outcome `o` at `location` extends the
/// recorded sequence by one entry: the builder's report after a run of calls
/// is [`record_all`] of the entries, in call order.
pub proof fn lemma_record_step(
    pending: Option<ErrorModel>,
    entries: Seq<(LocationModel, Option<ErrorModel>)>,
    location: LocationModel,
    o: Option<ErrorModel>,
)
    ensures
        record_all(pending, entries.push((location, o))) == record_at(
            record_all(pending, entries),
            location,
            o,
        ),
{
    assert(entries.push((location, o)).drop_last() =~= entries);
}

/// Recording outcomes that are all successes changes nothing: a builder that
/// only saw passing checks still holds no report, and its `build` succeeds.
pub proof fn lemma_success_is_silence(
    pending: Option<ErrorModel>,
    entries: Seq<(LocationModel, Option<ErrorModel>)>,
)
    requires
        forall|i: int| 0 <= i < entries.len() ==> (#[trigger] entries[i]).1 is None,
    ensures
        record_all(pending, entries) == pending,
    decreases entries.len(),
{
    if entries.len() > 0 {
        let init = entries.drop_last();
        assert forall|i: int| 0 <= i < init.len() implies (#[trigger] init[i]).1 is None by {
            assert(init[i] == entries[i]);
        }
        lemma_success_is_silence(pending, init);
    }
}

/// Outcomes recorded at distinct locations are all kept: the report holds
/// exactly the failures, each under its own location, and there is no report
/// at all when nothing failed.
pub proof fn lemma_distinct_outcomes(entries: Seq<(LocationModel, Option<ErrorModel>)>)
    requires
        distinct_locations(entries),
    ensures
        record_all(None, entries) == report_of(failures(entries)),
    decreases entries.len(),
{
    if entries.len() == 0 {
        assert(failures(entries).dom() =~= Set::empty());
    } else {
        let init = entries.drop_last();
        let n = entries.len() - 1;
        let x = entries[n];
        assert forall|i: int, j: int| 0 <= i < j < init.len() implies init[i].0 != init[j].0 by {
            assert(init[i] == entries[i] && init[j] == entries[j]);
        }
        lemma_distinct_outcomes(init);
        let f = failures(init);
        assert(!f.contains_key(x.0)) by {
            if f.contains_key(x.0) {
                let i = choose|i: int| fails_at(init, i, x.0);
                assert(init[i] == entries[i]);
            }
        }
        assert forall|k: LocationModel, i: int| fails_at(init, i, k) implies fails_at(
            entries,
            i,
            k,
        ) by {
            assert(init[i] == entries[i]);
        }
        match x.1 {
            None => {
                assert forall|k: LocationModel, i: int| fails_at(entries, i, k) implies fails_at(
                    init,
                    i,
                    k,
                ) by {
                    assert(init[i] == entries[i]);
                }
                assert forall|k: LocationModel| #[trigger] f.contains_key(k) implies failures(
                    entries,
                )[k] == f[k] by {
                    let i = choose|i: int| fails_at(entries, i, k);
                    let j = choose|j: int| fails_at(init, j, k);
                    assert(init[j] == entries[j]);
                }
                assert(failures(entries) =~= f);
            },
            Some(e) => {
                assert(fails_at(entries, n, x.0));
                assert forall|k: LocationModel, i: int|
                    fails_at(entries, i, k) && k != x.0 implies fails_at(init, i, k) by {
                    assert(init[i] == entries[i]);
                }
                assert forall|k: LocationModel| #[trigger]
                    failures(entries).contains_key(k) implies failures(entries)[k] == f.insert(
                    x.0,
                    e,
                )[k] by {
                    let i = choose|i: int| fails_at(entries, i, k);
                    if k != x.0 {
                        let j = choose|j: int| fails_at(init, j, k);
                        assert(init[j] == entries[j]);
                    }
                }
                assert(failures(entries) =~= f.insert(x.0, e));
                assert(failures(entries).dom().contains(x.0));
                if f.dom().is_empty() {
                    assert(f.insert(x.0, e) =~= map![x.0 => e]);
                } else {
                    let u = match merge_model(ErrorModel::Structured(f), ErrorModel::Structured(map![x.0 => e])) {
                        ErrorModel::Structured(u) => u,
                        ErrorModel::Unstructured(_) => Map::empty(),
                    };
                    assert(u =~= f.insert(x.0, e));
                }
            },
        }
    }
}

/// Two failing checks recorded at two different fields both appear in the
/// report: recording never stops at the first failure.
pub proof fn lemma_exhaustive(a: Seq<char>, b: Seq<char>, ea: ErrorModel, eb: ErrorModel)
    requires
        a != b,
    ensures
        record_at(
            record_at(None, LocationModel::Named(a), Some(ea)),
            LocationModel::Named(b),
            Some(eb),
        ) == Some(
            ErrorModel::Structured(
                map![LocationModel::Named(a) => ea, LocationModel::Named(b) => eb],
            ),
        ),
{
    let entries = seq![
        (LocationModel::Named(a), Some(ea)),
        (LocationModel::Named(b), Some(eb)),
    ];
    assert(entries.drop_last() =~= seq![(LocationModel::Named(a), Some(ea))]);
    assert(entries.drop_last().drop_last() =~= Seq::empty());
    assert(record_all(None, entries.drop_last().drop_last()) == None::<ErrorModel>);
    assert(entries.drop_last().last() == (LocationModel::Named(a), Some(ea)));
    assert(record_all(None, entries.drop_last()) == record_at(
        None,
        LocationModel::Named(a),
        Some(ea),
    ));
    lemma_distinct_outcomes(entries);
    assert(fails_at(entries, 0, LocationModel::Named(a)));
    assert(fails_at(entries, 1, LocationModel::Named(b)));
    assert(failures(entries) =~= map![LocationModel::Named(a) => ea, LocationModel::Named(b) => eb]);
}

/// Merging two flat lists of reasons concatenates them, in order.
pub proof fn lemma_merge_concatenates(x: Seq<Seq<char>>, y: Seq<Seq<char>>)
    ensures
        merge_model(ErrorModel::Unstructured(x), ErrorModel::Unstructured(y))
            == ErrorModel::Unstructured(x + y),
{
}

/// Merging a flat list of reasons with a structured report, in either order,
/// gives the same result: the reasons are filed under the `errors` key of the
/// structured report, after whatever that key already held.
pub proof fn lemma_merge_cross_shape(x: Seq<Seq<char>>, m: Map<LocationModel, ErrorModel>)
    ensures
        merge_model(ErrorModel::Unstructured(x), ErrorModel::Structured(m)) == merge_model(
            ErrorModel::Structured(m),
            ErrorModel::Unstructured(x),
        ),
        !m.contains_key(errors_key()) ==> merge_model(
            ErrorModel::Structured(m),
            ErrorModel::Unstructured(x),
        ) == ErrorModel::Structured(m.insert(errors_key(), ErrorModel::Unstructured(x))),
        m.contains_key(errors_key()) ==> merge_model(
            ErrorModel::Structured(m),
            ErrorModel::Unstructured(x),
        ) == ErrorModel::Structured(
            m.insert(errors_key(), merge_model(m[errors_key()], ErrorModel::Unstructured(x))),
        ),
{
    if m.contains_key(errors_key()) {
        let old = m[errors_key()];
        assert(merge_reasons(old, x) == merge_model(old, ErrorModel::Unstructured(x)));
    }
}

/// The failures among `outcomes`, each under its position.
pub open spec fn indexed_failures(outcomes: Seq<Result<(), Error>>) -> Map<
    LocationModel,
    ErrorModel,
> {
    Map::new(
        |k: LocationModel|
            k is Index && k->Index_0 < outcomes.len() && outcomes[k->Index_0 as int] is Err,
        |k: LocationModel| outcome_model(outcomes[k->Index_0 as int])->Some_0,
    )
}

/// Validating a sequence reports exactly the positions whose element failed,
/// each with that element's own report, and reports nothing when every
/// element passed.
pub proof fn lemma_indexed_report(outcomes: Seq<Result<(), Error>>)
    ensures
        indexed_report(outcomes) == report_of(indexed_failures(outcomes)),
{
    let entries = Seq::new(
        outcomes.len(),
        |i: int| (LocationModel::Index(i as nat), outcome_model(outcomes[i])),
    );
    lemma_distinct_outcomes(entries);
    assert forall|k: LocationModel| #[trigger]
        failures(entries).contains_key(k) == indexed_failures(outcomes).contains_key(k) by {
        if k is Index && k->Index_0 < outcomes.len() {
            let i = k->Index_0 as int;
            if outcomes[i] is Err {
                assert(fails_at(entries, i, k));
            }
        }
    }
    assert forall|k: LocationModel| #[trigger] failures(entries).contains_key(k) implies failures(
        entries,
    )[k] == indexed_failures(outcomes)[k] by {
        let i = choose|i: int| fails_at(entries, i, k);
    }
    assert(failures(entries) =~= indexed_failures(outcomes));
}

/// Validating a sequence twice gives equal reports whenever validating each
/// element twice does.
pub proof fn lemma_seq_validation_deterministic<T: Validate>(
    items: Seq<T>,
    r1: Result<(), Error>,
    r2: Result<(), Error>,
)
    requires
        validated_in_order(items, r1),
        validated_in_order(items, r2),
        validation_repeatable::<T>(),
    ensures
        outcome_model(r1) == outcome_model(r2),
{
    let o1 = choose|outcomes: Seq<Result<(), Error>>|
        {
            &&& outcomes.len() == items.len()
            &&& forall|i: int|
                0 <= i < items.len() ==> call_ensures(
                    T::validate,
                    (&items[i],),
                    #[trigger] outcomes[i],
                )
            &&& outcome_model(r1) == indexed_report(outcomes)
        };
    let o2 = choose|outcomes: Seq<Result<(), Error>>|
        {
            &&& outcomes.len() == items.len()
            &&& forall|i: int|
                0 <= i < items.len() ==> call_ensures(
                    T::validate,
                    (&items[i],),
                    #[trigger] outcomes[i],
                )
            &&& outcome_model(r2) == indexed_report(outcomes)
        };
    assert(Seq::new(o1.len(), |i: int| (LocationModel::Index(i as nat), outcome_model(o1[i])))
        =~= Seq::new(o2.len(), |i: int| (LocationModel::Index(i as nat), outcome_model(o2[i])))) by {
        assert forall|i: int| 0 <= i < o1.len() implies outcome_model(o1[i]) == outcome_model(
            o2[i],
        ) by {
            assert(call_ensures(T::validate, (&items[i],), o1[i]));
            assert(call_ensures(T::validate, (&items[i],), o2[i]));
        }
    }
}

/// Whether key `i` of `keys` is `k` and outcome `i` is a failure.
pub open spec fn fails_under(
    keys: Seq<Seq<char>>,
    outcomes: Seq<Result<(), Error>>,
    i: int,
    k: LocationModel,
) -> bool {
    0 <= i < outcomes.len() && k == LocationModel::Key(keys[i]) && outcomes[i] is Err
}

/// The failures among `outcomes`, each under the key of the same rank.
pub open spec fn keyed_failures(keys: Seq<Seq<char>>, outcomes: Seq<Result<(), Error>>) -> Map<
    LocationModel,
    ErrorModel,
> {
    Map::new(
        |k: LocationModel| exists|i: int| fails_under(keys, outcomes, i, k),
        |k: LocationModel|
            outcome_model(outcomes[choose|i: int| fails_under(keys, outcomes, i, k)])->Some_0,
    )
}

/// Validating the values of a map whose keys have distinct texts reports
/// exactly the keys whose value failed, each with that value's own report,
/// and reports nothing when every value passed.
pub proof fn lemma_keyed_report(keys: Seq<Seq<char>>, outcomes: Seq<Result<(), Error>>)
    requires
        keys.len() == outcomes.len(),
        forall|i: int, j: int| 0 <= i < j < keys.len() ==> keys[i] != keys[j],
    ensures
        keyed_report(keys, outcomes) == report_of(keyed_failures(keys, outcomes)),
{
    let entries = Seq::new(
        outcomes.len(),
        |i: int| (LocationModel::Key(keys[i]), outcome_model(outcomes[i])),
    );
    lemma_distinct_outcomes(entries);
    assert forall|k: LocationModel, i: int| #[trigger]
        fails_at(entries, i, k) == fails_under(keys, outcomes, i, k) by {}
    assert forall|k: LocationModel| #[trigger]
        failures(entries).contains_key(k) == keyed_failures(keys, outcomes).contains_key(k) by {
        if exists|i: int| fails_under(keys, outcomes, i, k) {
            let i = choose|i: int| fails_under(keys, outcomes, i, k);
            assert(fails_at(entries, i, k));
        }
    }
    assert forall|k: LocationModel| #[trigger] failures(entries).contains_key(k) implies failures(
        entries,
    )[k] == keyed_failures(keys, outcomes)[k] by {
        let i = choose|i: int| fails_at(entries, i, k);
        let j = choose|j: int| fails_under(keys, outcomes, j, k);
        assert(fails_under(keys, outcomes, i, k));
        if i != j {
            if i < j {
                assert(keys[i] != keys[j]);
            } else {
                assert(keys[j] != keys[i]);
            }
        }
    }
    assert(failures(entries) =~= keyed_failures(keys, outcomes));
}

/// Validating the same listing of key-value pairs twice gives equal reports
/// whenever validating each value twice does and `Display` renders each key
/// the same way twice.
pub proof fn lemma_keyed_validation_deterministic<K: Display, V: Validate>(
    pairs: Seq<(&K, &V)>,
    r1: Result<(), Error>,
    r2: Result<(), Error>,
)
    requires
        validated_by_key(pairs, r1),
        validated_by_key(pairs, r2),
        validation_repeatable::<V>(),
        rendering_repeatable::<K>(),
    ensures
        outcome_model(r1) == outcome_model(r2),
{
    let (k1, o1) = choose|keys: Seq<String>, outcomes: Seq<Result<(), Error>>|
        rendered_and_validated(pairs, keys, outcomes) && outcome_model(r1) == keyed_report(
            keys.map_values(|s: String| s@),
            outcomes,
        );
    let (k2, o2) = choose|keys: Seq<String>, outcomes: Seq<Result<(), Error>>|
        rendered_and_validated(pairs, keys, outcomes) && outcome_model(r2) == keyed_report(
            keys.map_values(|s: String| s@),
            outcomes,
        );
    let t1 = k1.map_values(|s: String| s@);
    let t2 = k2.map_values(|s: String| s@);
    assert(Seq::new(o1.len(), |i: int| (LocationModel::Key(t1[i]), outcome_model(o1[i])))
        =~= Seq::new(o2.len(), |i: int| (LocationModel::Key(t2[i]), outcome_model(o2[i])))) by {
        assert forall|i: int| 0 <= i < o1.len() implies t1[i] == t2[i] && outcome_model(o1[i])
            == outcome_model(o2[i]) by {
            assert(to_string_from_display_ensures::<K>(pairs[i].0, k1[i]));
            assert(to_string_from_display_ensures::<K>(pairs[i].0, k2[i]));
            assert(call_ensures(V::validate, (pairs[i].1,), o1[i]));
            assert(call_ensures(V::validate, (pairs[i].1,), o2[i]));
        }
    }
}

proof fn lemma_same_size_subset<A>(x: Set<A>, y: Set<A>)
    requires
        x.finite(),
        y.finite(),
        x.len() == y.len(),
        x.subset_of(y),
    ensures
        x == y,
{
    if exists|k: A| y.contains(k) && !x.contains(k) {
        let k = choose|k: A| y.contains(k) && !x.contains(k);
        vstd::set_lib::lemma_len_subset(x, y.remove(k));
    }
    assert(x =~= y);
}

/// A listing of every entry of `m` holds each key of `m`.
proof fn lemma_listing_covers<K, V>(pairs: Seq<(&K, &V)>, m: Map<K, V>, k: K)
    requires
        lists_pairs(pairs, m),
        m.dom().finite(),
        m.contains_key(k),
    ensures
        exists|j: int| 0 <= j < pairs.len() && *pairs[j].0 == k,
{
    broadcast use vstd::seq_lib::seq_to_set_is_finite;

    let keys = pairs.map_values(|p: (&K, &V)| *p.0);
    assert(keys.no_duplicates()) by {
        assert forall|i: int, j: int| 0 <= i < keys.len() && 0 <= j < keys.len() && i != j implies keys[i]
            != keys[j] by {
            if i < j {
                assert(*pairs[i].0 != *pairs[j].0);
            } else {
                assert(*pairs[j].0 != *pairs[i].0);
            }
        }
    }
    keys.unique_seq_to_set();
    assert(keys.to_set().subset_of(m.dom())) by {
        assert forall|x: K| keys.to_set().contains(x) implies m.dom().contains(x) by {
            let i = choose|i: int| 0 <= i < keys.len() && keys[i] == x;
            assert(m.contains_key(*pairs[i].0));
        }
    }
    lemma_same_size_subset(keys.to_set(), m.dom());
    assert(keys.to_set().contains(k));
    let j = choose|j: int| 0 <= j < keys.len() && keys[j] == k;
    assert(*pairs[j].0 == k);
}

/// Whether validating a value twice gives equal outcomes.
pub open spec fn validation_repeatable<V: Validate>() -> bool {
    forall|x: &V, o1: Result<(), Error>, o2: Result<(), Error>|
        call_ensures(V::validate, (x,), o1) && call_ensures(V::validate, (x,), o2)
            ==> outcome_model(o1) == outcome_model(o2)
}

/// Whether `Display` renders a key the same way twice.
pub open spec fn rendering_repeatable<K: Display>() -> bool {
    forall|k: &K, s1: String, s2: String|
        to_string_from_display_ensures::<K>(k, s1) && to_string_from_display_ensures::<K>(k, s2)
            ==> s1@ == s2@
}

proof fn lemma_twin_entry<K: Display, V: Validate>(
    m: Map<K, V>,
    pa: Seq<(&K, &V)>,
    ka: Seq<String>,
    oa: Seq<Result<(), Error>>,
    pb: Seq<(&K, &V)>,
    kb: Seq<String>,
    ob: Seq<Result<(), Error>>,
    i: int,
)
    requires
        m.dom().finite(),
        lists_pairs(pa, m),
        lists_pairs(pb, m),
        rendered_and_validated(pa, ka, oa),
        rendered_and_validated(pb, kb, ob),
        validation_repeatable::<V>(),
        rendering_repeatable::<K>(),
        0 <= i < pa.len(),
    ensures
        exists|j: int|
            0 <= j < pb.len() && kb[j]@ == ka[i]@ && outcome_model(ob[j]) == outcome_model(oa[i]),
{
    lemma_listing_covers(pb, m, *pa[i].0);
    let j = choose|j: int| 0 <= j < pb.len() && *pb[j].0 == *pa[i].0;
    assert(*pa[i].1 == m[*pa[i].0] && *pb[j].1 == m[*pb[j].0]);
    assert(pb[j].0 == pa[i].0);
    assert(pb[j].1 == pa[i].1);
    assert(to_string_from_display_ensures::<K>(pa[i].0, ka[i]));
    assert(to_string_from_display_ensures::<K>(pb[j].0, kb[j]));
    assert(call_ensures(V::validate, (pa[i].1,), oa[i]));
    assert(call_ensures(V::validate, (pb[j].1,), ob[j]));
}

/// Validating a map twice gives equal reports, whatever order each
/// validation visits the entries in, whenever validating each value twice
/// does, `Display` renders each key the same way twice, and no two keys of the
/// map render alike.
pub proof fn lemma_map_validation_deterministic<K: Display, V: Validate>(
    m: Map<K, V>,
    r1: Result<(), Error>,
    r2: Result<(), Error>,
)
    requires
        m.dom().finite(),
        exists|pairs: Seq<(&K, &V)>| lists_pairs(pairs, m) && validated_by_key(pairs, r1),
        exists|pairs: Seq<(&K, &V)>| lists_pairs(pairs, m) && validated_by_key(pairs, r2),
        validation_repeatable::<V>(),
        rendering_repeatable::<K>(),
        forall|k1: &K, k2: &K, s1: String, s2: String|
            m.contains_key(*k1) && m.contains_key(*k2) && *k1 != *k2
                && to_string_from_display_ensures::<K>(k1, s1)
                && to_string_from_display_ensures::<K>(k2, s2) ==> s1@ != s2@,
    ensures
        outcome_model(r1) == outcome_model(r2),
{
    let p1 = choose|pairs: Seq<(&K, &V)>| lists_pairs(pairs, m) && validated_by_key(pairs, r1);
    let p2 = choose|pairs: Seq<(&K, &V)>| lists_pairs(pairs, m) && validated_by_key(pairs, r2);
    let (k1, o1) = choose|keys: Seq<String>, outcomes: Seq<Result<(), Error>>|
        rendered_and_validated(p1, keys, outcomes) && outcome_model(r1) == keyed_report(
            keys.map_values(|s: String| s@),
            outcomes,
        );
    let (k2, o2) = choose|keys: Seq<String>, outcomes: Seq<Result<(), Error>>|
        rendered_and_validated(p2, keys, outcomes) && outcome_model(r2) == keyed_report(
            keys.map_values(|s: String| s@),
            outcomes,
        );
    let t1 = k1.map_values(|s: String| s@);
    let t2 = k2.map_values(|s: String| s@);
    assert forall|i: int, j: int| 0 <= i < j < t1.len() implies t1[i] != t1[j] by {
        assert(to_string_from_display_ensures::<K>(p1[i].0, k1[i]));
        assert(to_string_from_display_ensures::<K>(p1[j].0, k1[j]));
    }
    assert forall|i: int, j: int| 0 <= i < j < t2.len() implies t2[i] != t2[j] by {
        assert(to_string_from_display_ensures::<K>(p2[i].0, k2[i]));
        assert(to_string_from_display_ensures::<K>(p2[j].0, k2[j]));
    }
    lemma_keyed_report(t1, o1);
    lemma_keyed_report(t2, o2);
    let f1 = keyed_failures(t1, o1);
    let f2 = keyed_failures(t2, o2);
    assert forall|k: LocationModel| #[trigger] f1.contains_key(k) implies f2.contains_key(k)
        && f2[k] == f1[k] by {
        let i = choose|i: int| fails_under(t1, o1, i, k);
        lemma_twin_entry(m, p1, k1, o1, p2, k2, o2, i);
        let j = choose|j: int|
            0 <= j < p2.len() && k2[j]@ == k1[i]@ && outcome_model(o2[j]) == outcome_model(o1[i]);
        assert(fails_under(t2, o2, j, k));
        let j2 = choose|j: int| fails_under(t2, o2, j, k);
        if j2 != j {
            if j2 < j {
                assert(t2[j2] != t2[j]);
            } else {
                assert(t2[j] != t2[j2]);
            }
        }
    }
    assert forall|k: LocationModel| #[trigger] f2.contains_key(k) implies f1.contains_key(k) by {
        let j = choose|j: int| fails_under(t2, o2, j, k);
        lemma_twin_entry(m, p2, k2, o2, p1, k1, o1, j);
        let i = choose|i: int|
            0 <= i < p1.len() && k1[i]@ == k2[j]@ && outcome_model(o1[i]) == outcome_model(o2[j]);
        assert(fails_under(t1, o1, i, k));
    }
    assert(f1 =~= f2);
}

} // verus!
