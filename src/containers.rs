use std::collections::{BTreeMap, BTreeSet, HashMap, HashSet, VecDeque};
use std::fmt::Display;
use vstd::prelude::*;
use vstd::std_specs::btree::key_obeys_cmp_spec;
use vstd::std_specs::hash::{builds_valid_hashers, obeys_key_model};
use vstd::string::to_string_from_display_ensures;

use crate::error::{outcome_model, record_all, record_at, Error, ErrorModel, LocationModel};
use crate::Validate;

verus! {

/// The report that the outcomes `outcomes[i]`, each filed at position `i`, make.
pub open spec fn indexed_report(outcomes: Seq<Result<(), Error>>) -> Option<ErrorModel> {
    record_all(
        None,
        Seq::new(
            outcomes.len(),
            |i: int| (LocationModel::Index(i as nat), outcome_model(outcomes[i])),
        ),
    )
}

proof fn lemma_indexed_report_push(outcomes: Seq<Result<(), Error>>, o: Result<(), Error>)
    ensures
        indexed_report(outcomes.push(o)) == record_at(
            indexed_report(outcomes),
            LocationModel::Index(outcomes.len()),
            outcome_model(o),
        ),
{
    let next = outcomes.push(o);
    assert(Seq::new(next.len(), |j: int| (LocationModel::Index(j as nat), outcome_model(next[j])))
        .drop_last() =~= Seq::new(
        outcomes.len(),
        |j: int| (LocationModel::Index(j as nat), outcome_model(outcomes[j])),
    ));
}

/// Whether `r` is the report of validating `items` in order: each element's
/// own outcome filed at its position.
pub open spec fn validated_in_order<T: Validate>(items: Seq<T>, r: Result<(), Error>) -> bool {
    exists|outcomes: Seq<Result<(), Error>>|
        {
            &&& outcomes.len() == items.len()
            &&& forall|i: int|
                0 <= i < items.len() ==> call_ensures(
                    T::validate,
                    (&items[i],),
                    #[trigger] outcomes[i],
                )
            &&& outcome_model(r) == indexed_report(outcomes)
        }
}

/// Validates each element of `items`, filing its outcome at its position.
pub fn validate_seq<T: Validate>(items: &[T]) -> (r: Result<(), Error>)
    ensures
        validated_in_order(items@, r),
{
    let mut eb = Error::build();
    let ghost mut outcomes: Seq<Result<(), Error>> = Seq::empty();
    let mut i: usize = 0;
    while i < items.len()
        invariant
            i <= items@.len(),
            outcomes.len() == i,
            forall|j: int|
                0 <= j < i ==> call_ensures(T::validate, (&items@[j],), #[trigger] outcomes[j]),
            eb@ == indexed_report(outcomes),
        decreases items@.len() - i,
    {
        let outcome = items[i].validate();
        proof {
            lemma_indexed_report_push(outcomes, outcome);
            outcomes = outcomes.push(outcome);
        }
        eb.try_at_index(i, outcome);
        i = i + 1;
    }
    eb.build()
}

impl<T: Validate> Validate for Vec<T> {
    fn validate(&self) -> (r: Result<(), Error>)
        ensures
            validated_in_order(self@, r),
    {
        validate_seq(self.as_slice())
    }
}

impl<T: Validate> Validate for Option<T> {
    /// An absent value is valid; a present one is validated itself.
    fn validate(&self) -> (r: Result<(), Error>)
        ensures
            self is None ==> r is Ok,
            self matches Some(x) ==> call_ensures(T::validate, (x,), r),
    {
        match self {
            Some(x) => x.validate(),
            None => Ok(()),
        }
    }
}

/// The reason given for a value that is itself already an error.
pub open spec fn already_error_reason() -> Seq<char> {
    "value is already an error"@
}

impl<T: Validate, E> Validate for Result<T, E> {
    /// A successful value is validated itself; an error is reported as such.
    fn validate(&self) -> (r: Result<(), Error>)
        ensures
            self matches Ok(x) ==> call_ensures(T::validate, (x,), r),
            self is Err ==> outcome_model(r) == Some(
                ErrorModel::Unstructured(seq![already_error_reason()]),
            ),
    {
        match self {
            Ok(x) => x.validate(),
            Err(_) => Err(Error::new("value is already an error")),
        }
    }
}

/// Whether `r` is the report of validating `items` in order: each element's
/// own outcome filed at its position.
pub open spec fn validated_refs_in_order<T: Validate>(items: Seq<&T>, r: Result<(), Error>) -> bool {
    exists|outcomes: Seq<Result<(), Error>>|
        {
            &&& outcomes.len() == items.len()
            &&& forall|i: int|
                0 <= i < items.len() ==> call_ensures(
                    T::validate,
                    (items[i],),
                    #[trigger] outcomes[i],
                )
            &&& outcome_model(r) == indexed_report(outcomes)
        }
}

/// Validates each element that `items` refers to, filing its outcome at its
/// position.
pub fn validate_refs<T: Validate>(items: &[&T]) -> (r: Result<(), Error>)
    ensures
        validated_refs_in_order(items@, r),
{
    let mut eb = Error::build();
    let ghost mut outcomes: Seq<Result<(), Error>> = Seq::empty();
    let mut i: usize = 0;
    while i < items.len()
        invariant
            i <= items@.len(),
            outcomes.len() == i,
            forall|j: int|
                0 <= j < i ==> call_ensures(T::validate, (items@[j],), #[trigger] outcomes[j]),
            eb@ == indexed_report(outcomes),
        decreases items@.len() - i,
    {
        let outcome = items[i].validate();
        proof {
            lemma_indexed_report_push(outcomes, outcome);
            outcomes = outcomes.push(outcome);
        }
        eb.try_at_index(i, outcome);
        i = i + 1;
    }
    eb.build()
}

/// The report that the outcomes `outcomes[i]`, each filed under the key
/// `keys[i]`, make.
pub open spec fn keyed_report(keys: Seq<Seq<char>>, outcomes: Seq<Result<(), Error>>) -> Option<
    ErrorModel,
> {
    record_all(
        None,
        Seq::new(
            outcomes.len(),
            |i: int| (LocationModel::Key(keys[i]), outcome_model(outcomes[i])),
        ),
    )
}

/// Whether `keys[i]` is a text that `Display` gives for the key of
/// `pairs[i]`, and `outcomes[i]` an outcome of validating its value.
pub open spec fn rendered_and_validated<K: Display, V: Validate>(
    pairs: Seq<(&K, &V)>,
    keys: Seq<String>,
    outcomes: Seq<Result<(), Error>>,
) -> bool {
    &&& keys.len() == pairs.len()
    &&& outcomes.len() == pairs.len()
    &&& forall|i: int|
        0 <= i < pairs.len() ==> to_string_from_display_ensures::<K>(
            pairs[i].0,
            #[trigger] keys[i],
        ) && call_ensures(V::validate, (pairs[i].1,), outcomes[i])
}

/// Whether `r` is the report of validating the values of `pairs` in order:
/// each value's own outcome filed under the text that `Display` gives for its
/// key.
pub open spec fn validated_by_key<K: Display, V: Validate>(
    pairs: Seq<(&K, &V)>,
    r: Result<(), Error>,
) -> bool {
    exists|keys: Seq<String>, outcomes: Seq<Result<(), Error>>|
        rendered_and_validated(pairs, keys, outcomes) && outcome_model(r) == keyed_report(
            keys.map_values(|s: String| s@),
            outcomes,
        )
}

/// Validates the value of each pair, filing its outcome under the text of
/// its key.
pub fn validate_pairs<K: Display, V: Validate>(pairs: &[(&K, &V)]) -> (r: Result<(), Error>)
    ensures
        validated_by_key(pairs@, r),
{
    let mut eb = Error::build();
    let ghost mut keys: Seq<String> = Seq::empty();
    let ghost mut outcomes: Seq<Result<(), Error>> = Seq::empty();
    let mut i: usize = 0;
    while i < pairs.len()
        invariant
            i <= pairs@.len(),
            keys.len() == i,
            outcomes.len() == i,
            forall|j: int|
                0 <= j < i ==> to_string_from_display_ensures::<K>(
                    pairs@[j].0,
                    #[trigger] keys[j],
                ) && call_ensures(V::validate, (pairs@[j].1,), outcomes[j]),
            eb@ == keyed_report(keys.map_values(|s: String| s@), outcomes),
        decreases pairs@.len() - i,
    {
        let (k, v) = pairs[i];
        let text = k.to_string();
        let outcome = v.validate();
        proof {
            let nk = keys.push(text);
            let next = outcomes.push(outcome);
            let tk = nk.map_values(|s: String| s@);
            assert(tk.drop_last() =~= keys.map_values(|s: String| s@));
            assert(Seq::new(
                next.len(),
                |j: int| (LocationModel::Key(tk[j]), outcome_model(next[j])),
            ).drop_last() =~= Seq::new(
                outcomes.len(),
                |j: int| (LocationModel::Key(tk.drop_last()[j]), outcome_model(outcomes[j])),
            ));
            keys = nk;
            outcomes = next;
        }
        eb.try_at_key(text.as_str(), outcome);
        i = i + 1;
    }
    assert(rendered_and_validated(pairs@, keys, outcomes));
    eb.build()
}

/// Whether `pairs` lists each entry of `m` once.
pub open spec fn lists_pairs<K, V>(pairs: Seq<(&K, &V)>, m: Map<K, V>) -> bool {
    &&& pairs.len() == m.dom().len()
    &&& forall|i: int|
        0 <= i < pairs.len() ==> m.contains_key(*(#[trigger] pairs[i]).0) && m[*pairs[i].0]
            == *pairs[i].1
    &&& forall|i: int, j: int| 0 <= i < j < pairs.len() ==> *pairs[i].0 != *pairs[j].0
}

/// Whether `items` lists each element of `s` once.
pub open spec fn lists_items<T>(items: Seq<&T>, s: Set<T>) -> bool {
    &&& items.len() == s.len()
    &&& forall|i: int| 0 <= i < items.len() ==> s.contains(*(#[trigger] items[i]))
    &&& forall|i: int, j: int| 0 <= i < j < items.len() ==> *items[i] != *items[j]
}

/// Relies on `HashMap::iter`: it visits every key-value pair once, in an
/// unspecified order.
#[verifier::external_body]
fn hash_map_pairs<K, V, S>(m: &HashMap<K, V, S>) -> (r: Vec<(&K, &V)>)
    ensures
        obeys_key_model::<K>() && builds_valid_hashers::<S>() ==> lists_pairs(r@, m@),
{
    m.iter().collect()
}

/// Relies on `BTreeMap::iter`: it visits every key-value pair once.
#[verifier::external_body]
fn btree_map_pairs<K, V>(m: &BTreeMap<K, V>) -> (r: Vec<(&K, &V)>)
    ensures
        key_obeys_cmp_spec::<K>() ==> lists_pairs(r@, m@),
{
    m.iter().collect()
}

/// Relies on `HashSet::iter`: it visits every element once, in an
/// unspecified order.
#[verifier::external_body]
fn hash_set_items<T, S>(s: &HashSet<T, S>) -> (r: Vec<&T>)
    ensures
        obeys_key_model::<T>() && builds_valid_hashers::<S>() ==> lists_items(r@, s@),
{
    s.iter().collect()
}

/// Relies on `BTreeSet::iter`: it visits every element once.
#[verifier::external_body]
fn btree_set_items<T>(s: &BTreeSet<T>) -> (r: Vec<&T>)
    ensures
        key_obeys_cmp_spec::<T>() ==> lists_items(r@, s@),
{
    s.iter().collect()
}

impl<K: Display, V: Validate, S> Validate for HashMap<K, V, S> {
    /// Each value is validated and filed under the text of its key.
    fn validate(&self) -> (r: Result<(), Error>)
        ensures
            exists|pairs: Seq<(&K, &V)>|
                {
                    &&& obeys_key_model::<K>() && builds_valid_hashers::<S>() ==> lists_pairs(
                        pairs,
                        self@,
                    )
                    &&& validated_by_key(pairs, r)
                },
    {
        let pairs = hash_map_pairs(self);
        validate_pairs(pairs.as_slice())
    }
}

impl<K: Display, V: Validate> Validate for BTreeMap<K, V> {
    /// Each value is validated and filed under the text of its key.
    fn validate(&self) -> (r: Result<(), Error>)
        ensures
            exists|pairs: Seq<(&K, &V)>|
                {
                    &&& key_obeys_cmp_spec::<K>() ==> lists_pairs(pairs, self@)
                    &&& validated_by_key(pairs, r)
                },
    {
        let pairs = btree_map_pairs(self);
        validate_pairs(pairs.as_slice())
    }
}

impl<T: Validate, S> Validate for HashSet<T, S> {
    /// Each element is validated and filed at its position in iteration order.
    fn validate(&self) -> (r: Result<(), Error>)
        ensures
            exists|items: Seq<&T>|
                {
                    &&& obeys_key_model::<T>() && builds_valid_hashers::<S>() ==> lists_items(
                        items,
                        self@,
                    )
                    &&& validated_refs_in_order(items, r)
                },
    {
        let items = hash_set_items(self);
        validate_refs(items.as_slice())
    }
}

impl<T: Validate> Validate for BTreeSet<T> {
    /// Each element is validated and filed at its position in iteration order.
    fn validate(&self) -> (r: Result<(), Error>)
        ensures
            exists|items: Seq<&T>|
                {
                    &&& key_obeys_cmp_spec::<T>() ==> lists_items(items, self@)
                    &&& validated_refs_in_order(items, r)
                },
    {
        let items = btree_set_items(self);
        validate_refs(items.as_slice())
    }
}

impl<T: Validate> Validate for VecDeque<T> {
    /// Each element is validated and filed at its position.
    fn validate(&self) -> (r: Result<(), Error>)
        ensures
            validated_in_order(self@, r),
    {
        let mut eb = Error::build();
        let ghost mut outcomes: Seq<Result<(), Error>> = Seq::empty();
        let mut i: usize = 0;
        while i < self.len()
            invariant
                i <= self@.len(),
                outcomes.len() == i,
                forall|j: int|
                    0 <= j < i ==> call_ensures(T::validate, (&self@[j],), #[trigger] outcomes[j]),
                eb@ == indexed_report(outcomes),
            decreases self@.len() - i,
        {
            let outcome = self[i].validate();
            proof {
                lemma_indexed_report_push(outcomes, outcome);
                outcomes = outcomes.push(outcome);
            }
            eb.try_at_index(i, outcome);
            i = i + 1;
        }
        eb.build()
    }
}

} // verus!
