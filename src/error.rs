use vstd::prelude::*;

use crate::validators::{decimal, decimal_text};

verus! {

/// The location within a data structure at which a validation failure occurred.
#[derive(Debug, Hash)]
pub enum Location {
    /// A struct field name or the name of a logical constraint
    Named(String),
    /// A position within an ordered sequence
    Index(usize),
    /// A map key, rendered to text
    Key(String),
}

/// The mathematical value of a [`Location`].
pub enum LocationModel {
    Named(Seq<char>),
    Index(nat),
    Key(Seq<char>),
}

impl View for Location {
    type V = LocationModel;

    open spec fn view(&self) -> LocationModel {
        match self {
            Location::Named(s) => LocationModel::Named(s@),
            Location::Index(i) => LocationModel::Index(*i as nat),
            Location::Key(s) => LocationModel::Key(s@),
        }
    }
}

impl PartialEq for Location {
    fn eq(&self, other: &Location) -> (r: bool)
        ensures
            r == (self@ == other@),
    {
        match (self, other) {
            (Location::Named(a), Location::Named(b)) => a.eq(b),
            (Location::Index(a), Location::Index(b)) => *a == *b,
            (Location::Key(a), Location::Key(b)) => a.eq(b),
            _ => false,
        }
    }
}

impl vstd::std_specs::cmp::PartialEqSpecImpl for Location {
    open spec fn obeys_eq_spec() -> bool {
        true
    }

    open spec fn eq_spec(&self, other: &Location) -> bool {
        self@ == other@
    }
}

impl Eq for Location {
}

/// The text under which a location appears in a serialized report: a name or
/// key as it is, a position as its decimal digits.
pub open spec fn location_text(l: LocationModel) -> Seq<char> {
    match l {
        LocationModel::Named(s) => s,
        LocationModel::Index(i) => decimal(i),
        LocationModel::Key(s) => s,
    }
}

impl Location {
    /// The text under which this location appears in a serialized report.
    pub fn text(&self) -> (r: String)
        ensures
            r@ == location_text(self@),
    {
        match self {
            Location::Named(s) => s.clone(),
            Location::Index(i) => decimal_text(*i),
            Location::Key(s) => s.clone(),
        }
    }
}

/// A validation failure report.
#[derive(Debug)]
pub enum Error {
    /// A flat, order-preserving list of failure reasons for the current node
    Unstructured(Vec<String>),
    /// Failures attributed to sub-locations, each of which holds its own report
    Structured(ErrorMap),
}

/// A non-empty mapping from locations to the errors found there. Each
/// location appears at most once.
#[derive(Debug)]
pub struct ErrorMap {
    entries: Vec<(Location, Error)>,
}

/// The mathematical value of an [`Error`].
pub enum ErrorModel {
    Unstructured(Seq<Seq<char>>),
    Structured(Map<LocationModel, ErrorModel>),
}

/// The location under which a bare list of reasons is filed when it meets a
/// structured report.
pub open spec fn errors_key() -> LocationModel {
    LocationModel::Key("errors"@)
}

/// The report `e` with the reasons `x` added: after the reasons of a flat
/// report, or, in a structured one, under [`errors_key`], after what that
/// location already holds.
pub open spec fn merge_reasons(e: ErrorModel, x: Seq<Seq<char>>) -> ErrorModel
    decreases e,
{
    match e {
        ErrorModel::Unstructured(y) => ErrorModel::Unstructured(y + x),
        ErrorModel::Structured(m) => ErrorModel::Structured(
            m.insert(
                errors_key(),
                if m.contains_key(errors_key()) {
                    merge_reasons(m[errors_key()], x)
                } else {
                    ErrorModel::Unstructured(x)
                },
            ),
        ),
    }
}

/// Merge of two reports: two flat lists are concatenated; a flat list that
/// meets a structured report, in either order, is added to the structured
/// report (see [`merge_reasons`]); two structured reports form the union of
/// their mappings, merging recursively the reports of a location present on
/// both sides.
pub open spec fn merge_model(a: ErrorModel, b: ErrorModel) -> ErrorModel
    decreases b, a,
{
    match (a, b) {
        (ErrorModel::Unstructured(x), ErrorModel::Unstructured(y)) => ErrorModel::Unstructured(x + y),
        (ErrorModel::Structured(_), ErrorModel::Unstructured(y)) => merge_reasons(a, y),
        (ErrorModel::Unstructured(x), ErrorModel::Structured(_)) => merge_reasons(b, x),
        (ErrorModel::Structured(l), ErrorModel::Structured(r)) => ErrorModel::Structured(
            Map::new(
                |k: LocationModel| l.contains_key(k) || r.contains_key(k),
                |k: LocationModel|
                    if l.contains_key(k) && r.contains_key(k) {
                        merge_model(l[k], r[k])
                    } else if l.contains_key(k) {
                        l[k]
                    } else {
                        r[k]
                    },
            ),
        ),
    }
}

/// Applies [`merge_model`] key by key: the union of two mappings, in which a
/// location present on both sides holds the merge of its two reports.
pub open spec fn union_with(
    l: Map<LocationModel, ErrorModel>,
    r: Map<LocationModel, ErrorModel>,
) -> Map<LocationModel, ErrorModel> {
    Map::new(
        |k: LocationModel| l.contains_key(k) || r.contains_key(k),
        |k: LocationModel|
            if l.contains_key(k) && r.contains_key(k) {
                merge_model(l[k], r[k])
            } else if l.contains_key(k) {
                l[k]
            } else {
                r[k]
            },
    )
}

pub open spec fn messages_model(v: Seq<String>) -> Seq<Seq<char>> {
    v.map_values(|s: String| s@)
}

/// The model of an error value.
pub open spec fn error_model(e: Error) -> ErrorModel
    decreases e,
{
    match e {
        Error::Unstructured(v) => ErrorModel::Unstructured(messages_model(v@)),
        Error::Structured(m) => ErrorModel::Structured(map_model(m)),
    }
}

/// The model of an [`ErrorMap`].
pub closed spec fn map_model(m: ErrorMap) -> Map<LocationModel, ErrorModel>
    decreases m,
{
    entries_model(m.entries@)
}

spec fn entries_model(es: Seq<(Location, Error)>) -> Map<LocationModel, ErrorModel>
    decreases es,
{
    if es.len() == 0 {
        Map::empty()
    } else {
        entries_model(es.drop_last()).insert(es.last().0@, error_model(es.last().1))
    }
}

spec fn keys_distinct(es: Seq<(Location, Error)>) -> bool {
    forall|i: int, j: int| 0 <= i < j < es.len() ==> es[i].0@ != es[j].0@
}

impl View for Error {
    type V = ErrorModel;

    open spec fn view(&self) -> ErrorModel {
        error_model(*self)
    }
}

impl View for ErrorMap {
    type V = Map<LocationModel, ErrorModel>;

    open spec fn view(&self) -> Map<LocationModel, ErrorModel> {
        map_model(*self)
    }
}

impl ErrorMap {
    #[verifier::type_invariant]
    spec fn well_formed(self) -> bool {
        &&& self.entries@.len() > 0
        &&& keys_distinct(self.entries@)
    }
}

proof fn lemma_entries_model(es: Seq<(Location, Error)>)
    requires
        keys_distinct(es),
    ensures
        forall|k: LocationModel|
            #[trigger] entries_model(es).contains_key(k) <==> exists|i: int|
                0 <= i < es.len() && es[i].0@ == k,
        forall|i: int|
            0 <= i < es.len() ==> #[trigger] entries_model(es)[es[i].0@] == es[i].1@,
        entries_model(es).dom().finite(),
        entries_model(es).dom().len() == es.len(),
    decreases es.len(),
{
    if es.len() > 0 {
        let init = es.drop_last();
        lemma_entries_model(init);
        let n = es.len() - 1;
        assert forall|k: LocationModel|
            #[trigger] entries_model(es).contains_key(k) <==> exists|i: int|
                0 <= i < es.len() && es[i].0@ == k by {
            if entries_model(init).contains_key(k) {
                let i = choose|i: int| 0 <= i < init.len() && init[i].0@ == k;
                assert(es[i] == init[i]);
            }
            if exists|i: int| 0 <= i < es.len() && es[i].0@ == k {
                let i = choose|i: int| 0 <= i < es.len() && es[i].0@ == k;
                if i < n {
                    assert(init[i] == es[i]);
                }
            }
        }
        assert forall|i: int| 0 <= i < es.len() implies #[trigger] entries_model(es)[es[i].0@]
            == es[i].1@ by {
            if i < n {
                assert(init[i] == es[i]);
            }
        }
        assert(!entries_model(init).contains_key(es[n].0@)) by {
            if entries_model(init).contains_key(es[n].0@) {
                let i = choose|i: int| 0 <= i < init.len() && init[i].0@ == es[n].0@;
                assert(init[i] == es[i]);
            }
        }
    }
}

proof fn lemma_entries_model_prepend(x: (Location, Error), es: Seq<(Location, Error)>)
    requires
        keys_distinct(seq![x] + es),
    ensures
        keys_distinct(es),
        entries_model(seq![x] + es) == entries_model(es).insert(x.0@, x.1@),
{
    let s = seq![x] + es;
    let m = entries_model(es).insert(x.0@, x.1@);
    assert forall|i: int, j: int| 0 <= i < j < es.len() implies es[i].0@ != es[j].0@ by {
        assert(s[i + 1] == es[i] && s[j + 1] == es[j]);
    }
    lemma_entries_model(s);
    lemma_entries_model(es);
    assert(s[0] == x);
    assert forall|k: LocationModel| #[trigger] m.contains_key(k) implies entries_model(s).contains_key(k)
        && entries_model(s)[k] == m[k] by {
        if k == x.0@ {
            assert(s[0].0@ == k);
        } else {
            let j = choose|j: int| 0 <= j < es.len() && es[j].0@ == k;
            assert(s[j + 1] == es[j]);
        }
    }
    assert forall|k: LocationModel| #[trigger] entries_model(s).contains_key(k) implies m.contains_key(
        k,
    ) by {
        let j = choose|j: int| 0 <= j < s.len() && s[j].0@ == k;
        if j > 0 {
            assert(s[j] == es[j - 1]);
        }
    }
    assert(entries_model(s) =~= m);
}

proof fn lemma_entries_model_update(es: Seq<(Location, Error)>, i: int, x: (Location, Error))
    requires
        keys_distinct(es),
        0 <= i < es.len(),
        x.0@ == es[i].0@,
    ensures
        keys_distinct(es.update(i, x)),
        entries_model(es.update(i, x)) == entries_model(es).insert(x.0@, x.1@),
{
    let s = es.update(i, x);
    let m = entries_model(es).insert(x.0@, x.1@);
    assert(keys_distinct(s));
    lemma_entries_model(s);
    lemma_entries_model(es);
    assert(s[i] == x);
    assert forall|k: LocationModel| #[trigger] m.contains_key(k) implies entries_model(s).contains_key(k)
        && entries_model(s)[k] == m[k] by {
        if k == x.0@ {
            assert(s[i].0@ == k);
        } else {
            let j = choose|j: int| 0 <= j < es.len() && es[j].0@ == k;
            assert(s[j] == es[j]);
        }
    }
    assert forall|k: LocationModel| #[trigger] entries_model(s).contains_key(k) implies m.contains_key(
        k,
    ) by {
        let j = choose|j: int| 0 <= j < s.len() && s[j].0@ == k;
        if j != i {
            assert(s[j] == es[j]);
        }
    }
    assert(entries_model(s) =~= m);
}

proof fn lemma_entries_model_push(es: Seq<(Location, Error)>, x: (Location, Error))
    ensures
        entries_model(es.push(x)) == entries_model(es).insert(x.0@, x.1@),
{
    assert(es.push(x).drop_last() =~= es);
}

/// Position of the entry whose location is `k`, if there is one.
fn find_key(es: &Vec<(Location, Error)>, k: &Location) -> (r: Option<usize>)
    ensures
        match r {
            Some(i) => i < es@.len() && es@[i as int].0@ == k@,
            None => forall|j: int| 0 <= j < es@.len() ==> es@[j].0@ != k@,
        },
{
    let mut i: usize = 0;
    while i < es.len()
        invariant
            i <= es@.len(),
            forall|j: int| 0 <= j < i ==> es@[j].0@ != k@,
        decreases es@.len() - i,
    {
        if es[i].0 == *k {
            return Some(i);
        }
        i = i + 1;
    }
    None
}

fn errors_location() -> (r: Location)
    ensures
        r@ == errors_key(),
{
    Location::Key(String::from_str("errors"))
}

proof fn lemma_merge_model_mappings(l: Map<LocationModel, ErrorModel>, r: Map<LocationModel, ErrorModel>)
    ensures
        merge_model(ErrorModel::Structured(l), ErrorModel::Structured(r)) == ErrorModel::Structured(
            union_with(l, r),
        ),
{
    let m = match merge_model(ErrorModel::Structured(l), ErrorModel::Structured(r)) {
        ErrorModel::Structured(m) => m,
        ErrorModel::Unstructured(_) => Map::empty(),
    };
    assert(m =~= union_with(l, r));
}

proof fn lemma_union_step(
    l: Map<LocationModel, ErrorModel>,
    d: Map<LocationModel, ErrorModel>,
    k: LocationModel,
    v: ErrorModel,
)
    requires
        !d.contains_key(k),
    ensures
        union_with(l, d).contains_key(k) ==> union_with(l, d)[k] == l[k] && union_with(l, d.insert(k, v))
            == union_with(l, d).insert(k, merge_model(l[k], v)),
        !union_with(l, d).contains_key(k) ==> union_with(l, d.insert(k, v)) == union_with(
            l,
            d,
        ).insert(k, v),
{
    let e = union_with(l, d);
    let e2 = union_with(l, d.insert(k, v));
    if e.contains_key(k) {
        assert(e2 =~= e.insert(k, merge_model(l[k], v)));
    } else {
        assert(e2 =~= e.insert(k, v));
    }
}

/// Adds the reasons `x` to the report `e` (see [`merge_reasons`]).
fn add_reasons(e: Error, x: Vec<String>) -> (r: Error)
    ensures
        r@ == merge_reasons(e@, messages_model(x@)),
    decreases e,
{
    let ghost ge = e;
    match e {
        Error::Unstructured(mut y) => {
            let ghost y0 = y@;
            let mut x = x;
            let ghost x0 = x@;
            y.append(&mut x);
            proof {
                assert(messages_model(y@) =~= messages_model(y0) + messages_model(x0));
            }
            Error::Unstructured(y)
        },
        Error::Structured(m) => {
            proof {
                use_type_invariant(&m);
                lemma_entries_model(m.entries@);
            }
            let ghost m0 = m;
            let mut es = m.entries;
            let key = errors_location();
            match find_key(&es, &key) {
                Some(i) => {
                    let ghost before = es@;
                    let (k0, e0) = es.remove(i);
                    proof {
                        assert(before[i as int] == (k0, e0));
                        vstd::std_specs::vec::axiom_vec_index_decreases(m0.entries, i as int);
                        assert(decreases_to!(ge => e0));
                    }
                    let merged_entry = add_reasons(e0, x);
                    es.insert(i, (k0, merged_entry));
                    proof {
                        assert(es@ =~= before.update(i as int, (k0, merged_entry)));
                        lemma_entries_model_update(before, i as int, (k0, merged_entry));
                    }
                },
                None => {
                    let ghost before = es@;
                    let flat = Error::Unstructured(x);
                    proof {
                        lemma_entries_model_push(before, (key, flat));
                        assert(!entries_model(before).contains_key(errors_key()));
                    }
                    es.push((key, flat));
                    proof {
                        assert forall|i: int, j: int| 0 <= i < j < es@.len() implies es@[i].0@
                            != es@[j].0@ by {
                            if j == es@.len() - 1 {
                                assert(before[i].0@ != errors_key());
                            }
                        }
                    }
                },
            }
            Error::Structured(ErrorMap { entries: es })
        },
    }
}

/// Merges two reports (see [`merge_model`]).
fn merged(a: Error, b: Error) -> (r: Error)
    ensures
        r@ == merge_model(a@, b@),
    decreases b, a,
{
    let ghost ga = a;
    let ghost gb = b;
    match (a, b) {
        (Error::Unstructured(mut x), Error::Unstructured(mut y)) => {
            let ghost x0 = x@;
            let ghost y0 = y@;
            x.append(&mut y);
            proof {
                assert(messages_model(x@) =~= messages_model(x0) + messages_model(y0));
            }
            Error::Unstructured(x)
        },
        (Error::Unstructured(x), structured) => add_reasons(structured, x),
        (structured, Error::Unstructured(y)) => add_reasons(structured, y),
        (Error::Structured(ma), Error::Structured(mb)) => {
            proof {
                use_type_invariant(&ma);
                use_type_invariant(&mb);
            }
            let ghost l = map_model(ma);
            let ghost rm = map_model(mb);
            let mut left = ma.entries;
            let mut right = mb.entries;
            let ghost right0 = right@;
            proof {
                assert(right0.subrange(0, right0.len() as int) =~= right0);
                assert(right0.subrange(right0.len() as int, right0.len() as int) =~= Seq::empty());
                assert(entries_model(Seq::<(Location, Error)>::empty()) =~= Map::empty());
                assert(union_with(l, Map::empty()) =~= l);
            }
            while right.len() > 0
                invariant
                    gb == b,
                    gb == Error::Structured(mb),
                    right0 == mb.entries@,
                    left@.len() > 0,
                    keys_distinct(left@),
                    keys_distinct(right0),
                    entries_model(right0) == rm,
                    right@.len() <= right0.len(),
                    right@ == right0.subrange(0, right@.len() as int),
                    entries_model(left@) == union_with(
                        l,
                        entries_model(right0.subrange(right@.len() as int, right0.len() as int)),
                    ),
                decreases right@.len(),
            {
                let ghost n = (right@.len() - 1) as int;
                let ghost done = right0.subrange(n + 1, right0.len() as int);
                let (k, v) = right.pop().unwrap();
                proof {
                    assert(right0[n] == (k, v));
                    assert(right0.subrange(n, right0.len() as int) =~= seq![(k, v)] + done);
                    assert(right@ =~= right0.subrange(0, n));
                    assert(keys_distinct(seq![(k, v)] + done)) by {
                        let s = seq![(k, v)] + done;
                        assert forall|i: int, j: int| 0 <= i < j < s.len() implies s[i].0@
                            != s[j].0@ by {
                            assert(s[i] == right0[n + i] && s[j] == right0[n + j]);
                        }
                    }
                    lemma_entries_model_prepend((k, v), done);
                    lemma_entries_model(done);
                    assert(!entries_model(done).contains_key(k@)) by {
                        if entries_model(done).contains_key(k@) {
                            let j = choose|j: int| 0 <= j < done.len() && done[j].0@ == k@;
                            assert(done[j] == right0[n + 1 + j]);
                        }
                    }
                    lemma_union_step(l, entries_model(done), k@, v@);
                    lemma_entries_model(left@);
                }
                match find_key(&left, &k) {
                    Some(i) => {
                        let ghost before = left@;
                        let (k0, e0) = left.remove(i);
                        proof {
                            assert(before[i as int] == (k0, e0));
                            match gb {
                                Error::Structured(g) => {
                                    assert(g.entries@[n] == (k, v));
                                    vstd::std_specs::vec::axiom_vec_index_decreases(g.entries, n);
                                    assert(decreases_to!(gb => v));
                                },
                                Error::Unstructured(_) => {},
                            }
                        }
                        let m = merged(e0, v);
                        left.insert(i, (k0, m));
                        proof {
                            assert(left@ =~= before.update(i as int, (k0, m)));
                            lemma_entries_model_update(before, i as int, (k0, m));
                        }
                    },
                    None => {
                        proof {
                            lemma_entries_model_push(left@, (k, v));
                            assert(!entries_model(left@).contains_key(k@));
                        }
                        left.push((k, v));
                    },
                }
            }
            proof {
                assert(right0.subrange(0, right0.len() as int) =~= right0);
                lemma_merge_model_mappings(l, rm);
            }
            Error::Structured(ErrorMap { entries: left })
        },
    }
}

proof fn lemma_same_size_subset<A>(x: Set<A>, y: Set<A>)
    requires
        x.finite(),
        y.finite(),
        x.len() == y.len(),
        x.subset_of(y),
    ensures
        x == y,
{
    if exists|k: A| y.contains(k) && !x.contains(k) {
        let k = choose|k: A| y.contains(k) && !x.contains(k);
        vstd::set_lib::lemma_len_subset(x, y.remove(k));
    }
    assert(x =~= y);
}

fn messages_equal(x: &Vec<String>, y: &Vec<String>) -> (r: bool)
    ensures
        r == (messages_model(x@) == messages_model(y@)),
{
    if x.len() != y.len() {
        assert(messages_model(x@).len() != messages_model(y@).len());
        return false;
    }
    let mut i: usize = 0;
    while i < x.len()
        invariant
            x@.len() == y@.len(),
            i <= x@.len(),
            forall|j: int| 0 <= j < i ==> x@[j]@ == y@[j]@,
        decreases x@.len() - i,
    {
        if !x[i].eq(&y[i]) {
            assert(messages_model(x@)[i as int] != messages_model(y@)[i as int]);
            return false;
        }
        i = i + 1;
    }
    assert(messages_model(x@) =~= messages_model(y@));
    true
}

/// Whether two reports have the same model.
fn errors_equal(a: &Error, b: &Error) -> (r: bool)
    ensures
        r == (a@ == b@),
    decreases a,
{
    match (a, b) {
        (Error::Unstructured(x), Error::Unstructured(y)) => messages_equal(x, y),
        (Error::Structured(m1), Error::Structured(m2)) => {
            proof {
                use_type_invariant(m1);
                use_type_invariant(m2);
                lemma_entries_model(m1.entries@);
                lemma_entries_model(m2.entries@);
            }
            if m1.entries.len() != m2.entries.len() {
                return false;
            }
            let mut i: usize = 0;
            while i < m1.entries.len()
                invariant
                    *a == Error::Structured(*m1),
                    *b == Error::Structured(*m2),
                    m1.entries@.len() == m2.entries@.len(),
                    i <= m1.entries@.len(),
                    keys_distinct(m1.entries@),
                    keys_distinct(m2.entries@),
                    forall|j: int|
                        #![trigger m1.entries@[j]]
                        0 <= j < i ==> m2@.contains_key(m1.entries@[j].0@) && m2@[m1.entries@[j].0@]
                            == m1.entries@[j].1@,
                    forall|k: LocationModel|
                        #[trigger] m1@.contains_key(k) <==> exists|j: int|
                            0 <= j < m1.entries@.len() && m1.entries@[j].0@ == k,
                    forall|j: int|
                        0 <= j < m1.entries@.len() ==> #[trigger] m1@[m1.entries@[j].0@]
                            == m1.entries@[j].1@,
                    forall|k: LocationModel|
                        #[trigger] m2@.contains_key(k) <==> exists|j: int|
                            0 <= j < m2.entries@.len() && m2.entries@[j].0@ == k,
                    forall|j: int|
                        0 <= j < m2.entries@.len() ==> #[trigger] m2@[m2.entries@[j].0@]
                            == m2.entries@[j].1@,
                decreases m1.entries@.len() - i,
            {
                let k = &m1.entries[i].0;
                match find_key(&m2.entries, k) {
                    None => {
                        assert(m1.entries@[i as int].0@ == k@);
                        assert(m1@.contains_key(k@));
                        assert(!m2@.contains_key(k@));
                        return false;
                    },
                    Some(j) => {
                        proof {
                            vstd::std_specs::vec::axiom_vec_index_decreases(m1.entries, i as int);
                            assert(decreases_to!(a => m1.entries@[i as int].1));
                        }
                        let same = errors_equal(&m1.entries[i].1, &m2.entries[j].1);
                        proof {
                            assert(m2@.contains_key(m2.entries@[j as int].0@));
                            assert(m2@[m2.entries@[j as int].0@] == m2.entries@[j as int].1@);
                            assert(m1@[m1.entries@[i as int].0@] == m1.entries@[i as int].1@);
                        }
                        if !same {
                            return false;
                        }
                        assert(m2@.contains_key(m1.entries@[i as int].0@));
                        assert(m2@[m1.entries@[i as int].0@] == m1.entries@[i as int].1@);
                    },
                }
                i = i + 1;
            }
            proof {
                assert(m1@.dom().subset_of(m2@.dom())) by {
                    assert forall|k: LocationModel| m1@.contains_key(k) implies m2@.contains_key(
                        k,
                    ) by {
                        let j = choose|j: int| 0 <= j < m1.entries@.len() && m1.entries@[j].0@ == k;
                    }
                }
                lemma_same_size_subset(m1@.dom(), m2@.dom());
                assert forall|k: LocationModel| m1@.contains_key(k) implies m1@[k] == m2@[k] by {
                    let j = choose|j: int| 0 <= j < m1.entries@.len() && m1.entries@[j].0@ == k;
                }
                assert(m1@ =~= m2@);
            }
            true
        },
        _ => false,
    }
}

impl PartialEq for Error {
    fn eq(&self, other: &Error) -> (r: bool)
        ensures
            r == (self@ == other@),
    {
        errors_equal(self, other)
    }
}

impl vstd::std_specs::cmp::PartialEqSpecImpl for Error {
    open spec fn obeys_eq_spec() -> bool {
        true
    }

    open spec fn eq_spec(&self, other: &Error) -> bool {
        self@ == other@
    }
}

impl Error {
    /// A report that holds the one reason `message`.
    pub fn new(message: &str) -> (r: Error)
        ensures
            r@ == ErrorModel::Unstructured(seq![message@]),
    {
        let mut v = Vec::new();
        v.push(String::from_str(message));
        proof {
            assert(messages_model(v@) =~= seq![message@]);
        }
        Error::Unstructured(v)
    }

    /// Merges `other` into this report: reasons are concatenated, and a
    /// location found on both sides holds the merge of its two reports.
    pub fn merge(&mut self, other: Error)
        ensures
            final(self)@ == merge_model(old(self)@, other@),
    {
        let mut current = Error::Unstructured(Vec::new());
        std::mem::swap(self, &mut current);
        *self = merged(current, other);
    }
}

impl ErrorMap {
    /// A mapping that holds `error` at `location` and nothing else.
    pub fn single(location: Location, error: Error) -> (r: ErrorMap)
        ensures
            r@ == map![location@ => error@],
    {
        let mut entries = Vec::new();
        entries.push((location, error));
        proof {
            lemma_entries_model_push(Seq::empty(), entries@[0]);
            assert(entries@ =~= Seq::<(Location, Error)>::empty().push(entries@[0]));
            assert(entries_model(Seq::<(Location, Error)>::empty()) =~= Map::empty());
            assert(map![location@ => error@] =~= Map::<LocationModel, ErrorModel>::empty().insert(
                location@,
                error@,
            ));
        }
        ErrorMap { entries }
    }

    /// The number of locations that hold an error.
    pub fn len(&self) -> (r: usize)
        ensures
            r == self@.len(),
    {
        proof {
            use_type_invariant(self);
            lemma_entries_model(self.entries@);
        }
        self.entries.len()
    }

    /// Whether an error is attributed to `location`.
    pub fn contains_key(&self, location: &Location) -> (r: bool)
        ensures
            r == self@.contains_key(location@),
    {
        proof {
            use_type_invariant(self);
            lemma_entries_model(self.entries@);
        }
        match find_key(&self.entries, location) {
            Some(i) => true,
            None => false,
        }
    }

    /// The error attributed to `location`, if there is one.
    pub fn get(&self, location: &Location) -> (r: Option<&Error>)
        ensures
            r is Some == self@.contains_key(location@),
            r matches Some(e) ==> e@ == self@[location@],
    {
        proof {
            use_type_invariant(self);
            lemma_entries_model(self.entries@);
        }
        match find_key(&self.entries, location) {
            Some(i) => Some(&self.entries[i].1),
            None => None,
        }
    }

    /// The locations and their errors, each location once.
    pub fn entries(&self) -> (r: &Vec<(Location, Error)>)
        ensures
            r@.len() == self@.len(),
            forall|i: int|
                0 <= i < r@.len() ==> #[trigger] self@.contains_key(r@[i].0@) && self@[r@[i].0@]
                    == r@[i].1@,
            forall|k: LocationModel|
                #[trigger] self@.contains_key(k) ==> exists|i: int| 0 <= i < r@.len() && r@[i].0@ == k,
    {
        proof {
            use_type_invariant(self);
            lemma_entries_model(self.entries@);
        }
        &self.entries
    }
}

/// The model of a validation outcome: `None` for success, the report otherwise.
pub open spec fn outcome_model(r: Result<(), Error>) -> Option<ErrorModel> {
    match r {
        Ok(_) => None,
        Err(e) => Some(e@),
    }
}

/// The pending report after the failure `e` is recorded: `e` itself if
/// nothing was pending, else the merge of the pending report with `e`.
pub open spec fn record(pending: Option<ErrorModel>, e: ErrorModel) -> Option<ErrorModel> {
    match pending {
        None => Some(e),
        Some(p) => Some(merge_model(p, e)),
    }
}

/// The pending report after the outcome `r` is recorded at `location`: a
/// success leaves it as it was, a failure is filed under `location`.
pub open spec fn record_at(
    pending: Option<ErrorModel>,
    location: LocationModel,
    r: Option<ErrorModel>,
) -> Option<ErrorModel> {
    match r {
        None => pending,
        Some(e) => record(pending, ErrorModel::Structured(map![location => e])),
    }
}

/// The pending report after each outcome `entries[i].1` is recorded at
/// `entries[i].0`, in order.
pub open spec fn record_all(
    pending: Option<ErrorModel>,
    entries: Seq<(LocationModel, Option<ErrorModel>)>,
) -> Option<ErrorModel>
    decreases entries.len(),
{
    if entries.len() == 0 {
        pending
    } else {
        record_at(record_all(pending, entries.drop_last()), entries.last().0, entries.last().1)
    }
}

/// An accumulator of the failures found while one value is validated.
pub struct ErrorBuilder {
    errors: Option<Error>,
}

impl View for ErrorBuilder {
    type V = Option<ErrorModel>;

    closed spec fn view(&self) -> Option<ErrorModel> {
        match self.errors {
            None => None,
            Some(e) => Some(e@),
        }
    }
}

impl Error {
    /// A new [`ErrorBuilder`] with nothing recorded.
    pub fn build() -> (r: ErrorBuilder)
        ensures
            r@ is None,
    {
        ErrorBuilder { errors: None }
    }
}

impl ErrorBuilder {
    fn record_failure(&mut self, e: Error)
        ensures
            final(self)@ == record(old(self)@, e@),
    {
        match self.errors.take() {
            None => {
                self.errors = Some(e);
            },
            Some(mut pending) => {
                pending.merge(e);
                self.errors = Some(pending);
            },
        }
    }

    /// Whether a failure has been recorded.
    pub fn contains_errors(&self) -> (r: bool)
        ensures
            r == self@ is Some,
    {
        self.errors.is_some()
    }

    /// Hands out the outcome: success if nothing was recorded, else the
    /// report. The builder is left empty.
    pub fn build(&mut self) -> (r: Result<(), Error>)
        ensures
            outcome_model(r) == old(self)@,
            final(self)@ is None,
    {
        match self.errors.take() {
            Some(e) => Err(e),
            None => Ok(()),
        }
    }

    /// Records the reason `message` at `location`.
    pub fn at_location(&mut self, location: Location, message: &str) -> (r: &mut Self)
        ensures
            r@ == record_at(old(self)@, location@, Some(ErrorModel::Unstructured(seq![message@]))),
            *final(self) == *final(r),
    {
        let e = Error::new(message);
        self.record_failure(Error::Structured(ErrorMap::single(location, e)));
        self
    }

    /// Records the reason `message` at the field or constraint `name`.
    pub fn at_named(&mut self, name: &str, message: &str) -> (r: &mut Self)
        ensures
            r@ == record_at(
                old(self)@,
                LocationModel::Named(name@),
                Some(ErrorModel::Unstructured(seq![message@])),
            ),
            *final(self) == *final(r),
    {
        self.at_location(Location::Named(String::from_str(name)), message)
    }

    /// Records the reason `message` at position `index`.
    pub fn at_index(&mut self, index: usize, message: &str) -> (r: &mut Self)
        ensures
            r@ == record_at(
                old(self)@,
                LocationModel::Index(index as nat),
                Some(ErrorModel::Unstructured(seq![message@])),
            ),
            *final(self) == *final(r),
    {
        self.at_location(Location::Index(index), message)
    }

    /// Records the outcome `result` at `location`; a success records nothing.
    pub fn try_at_location(&mut self, location: Location, result: Result<(), Error>) -> (r:
        &mut Self)
        ensures
            r@ == record_at(old(self)@, location@, outcome_model(result)),
            *final(self) == *final(r),
    {
        if let Err(e) = result {
            self.record_failure(Error::Structured(ErrorMap::single(location, e)));
        }
        self
    }

    /// Records the outcome `result` at the field or constraint `name`.
    pub fn try_at_named(&mut self, name: &str, result: Result<(), Error>) -> (r: &mut Self)
        ensures
            r@ == record_at(old(self)@, LocationModel::Named(name@), outcome_model(result)),
            *final(self) == *final(r),
    {
        self.try_at_location(Location::Named(String::from_str(name)), result)
    }

    /// Records the outcome `result` at position `index`.
    pub fn try_at_index(&mut self, index: usize, result: Result<(), Error>) -> (r: &mut Self)
        ensures
            r@ == record_at(old(self)@, LocationModel::Index(index as nat), outcome_model(result)),
            *final(self) == *final(r),
    {
        self.try_at_location(Location::Index(index), result)
    }

    /// Records the outcome `result` at the map key `key`.
    pub fn try_at_key(&mut self, key: &str, result: Result<(), Error>) -> (r: &mut Self)
        ensures
            r@ == record_at(old(self)@, LocationModel::Key(key@), outcome_model(result)),
            *final(self) == *final(r),
    {
        self.try_at_location(Location::Key(String::from_str(key)), result)
    }

    /// Records the reason `message` against the value as a whole.
    pub fn because(&mut self, message: &str) -> (r: &mut Self)
        ensures
            r@ == record(old(self)@, ErrorModel::Unstructured(seq![message@])),
            *final(self) == *final(r),
    {
        self.record_failure(Error::new(message));
        self
    }
}

impl Error {
    /// A report that holds the one reason `message`.
    pub(crate) fn reason(message: String) -> (r: Error)
        ensures
            r@ == ErrorModel::Unstructured(seq![message@]),
    {
        let mut v = Vec::new();
        v.push(message);
        proof {
            assert(messages_model(v@) =~= seq![v@[0]@]);
        }
        Error::Unstructured(v)
    }
}

} // verus!
