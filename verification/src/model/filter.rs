//! Applied audio filters and video effects.

use crate::model::keys::{
    closest, find_in_run, order_run, ordered_run, run_reaches, KeyEase, ParamKey,
};
use crate::model::ride::{played, plays, rewindow, rewindowed, ride_of, Ride};
use crate::number::{
    clamped, difference, larger, num, product, quotient, smaller, sum, Number, ONE, ZERO,
};
use crate::order::{sorted, stable_sort, Ranked};
use crate::ranges::KEY_EPSILON;
use crate::table::{lemma_map_at, lemma_map_ends, lemma_map_take, map_of, Table};
use vstd::prelude::*;

verus! {

/// One applied audio filter or video effect: a catalogue id plus whatever
/// parameters were set.
#[derive(Debug)]
pub struct AppliedFilter {
    /// Which catalogue entry this is, e.g. "sepia".
    pub id: String,
    /// The user's knob settings by parameter name. A missing name means the
    /// catalogue's default.
    pub params: Table<Number>,
    /// False bypasses without losing settings.
    pub enabled: bool,
    /// The knobs that ride rather than hold: a sorted run of keys per parameter
    /// name. A parameter with keys is played from them.
    pub keys: Table<Vec<ParamKey>>,
}

/// What an applied filter says.
#[verifier::ext_equal]
pub struct FilterView {
    pub id: Seq<char>,
    pub params: Map<Seq<char>, Number>,
    pub enabled: bool,
    pub keys: Map<Seq<char>, Seq<ParamKey>>,
}

/// A map of runs, by what each run holds.
pub open spec fn runs(keys: Map<Seq<char>, Vec<ParamKey>>) -> Map<Seq<char>, Seq<ParamKey>> {
    keys.map_values(|run: Vec<ParamKey>| run@)
}

impl View for AppliedFilter {
    type V = FilterView;

    open spec fn view(&self) -> FilterView {
        FilterView {
            id: self.id@,
            params: self.params@,
            enabled: self.enabled,
            keys: runs(self.keys@),
        }
    }
}

proof fn lemma_runs_insert(
    keys: Map<Seq<char>, Vec<ParamKey>>,
    name: Seq<char>,
    run: Vec<ParamKey>,
)
    ensures
        runs(keys.insert(name, run)) == runs(keys).insert(name, run@),
        runs(keys.remove(name)) == runs(keys).remove(name),
        runs(Map::<Seq<char>, Vec<ParamKey>>::empty()) == Map::<Seq<char>, Seq<ParamKey>>::empty(),
{
    assert(runs(keys.insert(name, run)) =~= runs(keys).insert(name, run@));
    assert(runs(keys.remove(name)) =~= runs(keys).remove(name));
    assert(runs(Map::<Seq<char>, Vec<ParamKey>>::empty()) =~= Map::<
        Seq<char>,
        Seq<ParamKey>,
    >::empty());
}

/// The values strictly before and strictly after a position, a hair apart: the
/// greatest before and the least after.
pub open spec fn around(ats: Seq<Number>, at: Number) -> (Option<Number>, Option<Number>)
    decreases ats.len(),
{
    if ats.len() == 0 {
        (None, None)
    } else {
        let (before, after) = around(ats.drop_last(), at);
        let held = ats.last();
        if held.less(difference(at, num(KEY_EPSILON))) {
            (
                Some(
                    match before {
                        None => held,
                        Some(seen) => larger(seen, held),
                    },
                ),
                after,
            )
        } else if sum(at, num(KEY_EPSILON)).less(held) {
            (
                before,
                Some(
                    match after {
                        None => held,
                        Some(seen) => smaller(seen, held),
                    },
                ),
            )
        } else {
            (before, after)
        }
    }
}

/// The nearest positions strictly before and strictly after `at`.
pub fn find_around(ats: &Vec<Number>, at: Number) -> (r: (Option<Number>, Option<Number>))
    ensures
        r == around(ats@, at),
{
    let low: Number = at.minus(num(KEY_EPSILON));
    let high: Number = at.plus(num(KEY_EPSILON));
    let mut before: Option<Number> = None;
    let mut after: Option<Number> = None;
    let mut i: usize = 0;
    while i < ats.len()
        invariant
            i <= ats.len(),
            low == difference(at, num(KEY_EPSILON)),
            high == sum(at, num(KEY_EPSILON)),
            (before, after) == around(ats@.take(i as int), at),
        decreases ats.len() - i,
    {
        proof {
            assert(ats@.take(i as int + 1).drop_last() =~= ats@.take(i as int));
            assert(ats@.take(i as int + 1).last() == ats@[i as int]);
        }
        let held: Number = ats[i];
        if held.below(low) {
            before = match before {
                None => Some(held),
                Some(seen) => Some(seen.max(held)),
            };
        } else if high.below(held) {
            after = match after {
                None => Some(held),
                Some(seen) => Some(seen.min(held)),
            };
        }
        i = i + 1;
    }
    assert(ats@.take(ats@.len() as int) =~= ats@);
    (before, after)
}

/// A run with a key at a position: over the key already there, else added, and
/// in order again.
pub open spec fn run_with(run: Seq<ParamKey>, key: ParamKey) -> Seq<ParamKey> {
    let changed = match closest(run_reaches(run, key.at)) {
        Some(i) => run.update(i, key),
        None => run.push(key),
    };
    sorted(changed, |k: ParamKey| k.rank())
}

/// Whether two runs hold the same keys.
pub open spec fn run_same(a: Seq<ParamKey>, b: Seq<ParamKey>) -> bool {
    a.len() == b.len() && forall|i: int| 0 <= i < a.len() ==> #[trigger] a[i].same(b[i])
}

/// Whether two sets of runs hold the same keys under the same names.
pub open spec fn runs_same(
    a: Map<Seq<char>, Seq<ParamKey>>,
    b: Map<Seq<char>, Seq<ParamKey>>,
) -> bool {
    &&& forall|name: Seq<char>|
        a.dom().contains(name) ==> #[trigger] b.dom().contains(name) && run_same(a[name], b[name])
    &&& forall|name: Seq<char>| b.dom().contains(name) ==> #[trigger] a.dom().contains(name)
}

pub open spec fn params_same(a: Map<Seq<char>, Number>, b: Map<Seq<char>, Number>) -> bool {
    &&& forall|name: Seq<char>|
        a.dom().contains(name) ==> #[trigger] b.dom().contains(name) && a[name].same(b[name])
    &&& forall|name: Seq<char>| b.dom().contains(name) ==> #[trigger] a.dom().contains(name)
}

/// The runs that hold a key that can be played, each in order.
pub open spec fn pruned(keys: Map<Seq<char>, Seq<ParamKey>>) -> Map<Seq<char>, Seq<ParamKey>> {
    Map::new(
        |name: Seq<char>| keys.dom().contains(name) && ordered_run(keys[name]).len() > 0,
        |name: Seq<char>| ordered_run(keys[name]),
    )
}

/// A run whose eases are all finite.
pub open spec fn straight_run(run: Seq<ParamKey>) -> Seq<ParamKey> {
    run.map_values(
        |k: ParamKey| ParamKey { at: k.at, value: k.value, ease: k.ease.or_straight() },
    )
}

/// Runs whose eases are all finite.
pub open spec fn straight_runs(
    keys: Map<Seq<char>, Seq<ParamKey>>,
) -> Map<Seq<char>, Seq<ParamKey>> {
    Map::new(
        |name: Seq<char>| keys.dom().contains(name),
        |name: Seq<char>| straight_run(keys[name]),
    )
}

/// The settings that are finite numbers. One that is not goes back to the
/// catalogue's default.
pub open spec fn finite_params(params: Map<Seq<char>, Number>) -> Map<Seq<char>, Number> {
    Map::new(
        |name: Seq<char>| params.dom().contains(name) && params[name].finite(),
        |name: Seq<char>| params[name],
    )
}

impl FilterView {
    /// The keys on a parameter; none for one that holds still.
    pub open spec fn run(self, name: Seq<char>) -> Seq<ParamKey> {
        if self.keys.dom().contains(name) {
            self.keys[name]
        } else {
            Seq::empty()
        }
    }

    /// What a parameter holds, or `fallback` where nothing is set.
    pub open spec fn param(self, name: Seq<char>, fallback: Number) -> Number {
        if self.params.dom().contains(name) {
            self.params[name]
        } else {
            fallback
        }
    }

    pub open spec fn with_key(
        self,
        name: Seq<char>,
        at: Number,
        value: Number,
        ease: KeyEase,
    ) -> FilterView {
        if !at.finite() || !value.finite() {
            self
        } else {
            let key = ParamKey { at: clamped(at, num(ZERO), num(ONE)), value, ease };
            FilterView { keys: self.keys.insert(name, run_with(self.run(name), key)), ..self }
        }
    }

    /// Without the key at `at` on a parameter. The run goes with its last key.
    pub open spec fn without_key(self, name: Seq<char>, at: Number) -> FilterView {
        match closest(run_reaches(self.run(name), at)) {
            Some(i) => {
                let left = self.run(name).remove(i);
                FilterView {
                    keys: if left.len() == 0 {
                        self.keys.remove(name)
                    } else {
                        self.keys.insert(name, left)
                    },
                    ..self
                }
            },
            None => self,
        }
    }

    pub open spec fn ordered(self) -> FilterView {
        FilterView { keys: pruned(self.keys), ..self }
    }

    /// The filter with every number finite and its runs in order.
    pub open spec fn tidied(self) -> FilterView {
        FilterView {
            params: finite_params(self.params),
            keys: straight_runs(pruned(self.keys)),
            ..self
        }
    }

    /// Each run carried onto the window `(a, b)` of the old length.
    pub open spec fn windowed(self, a: Number, b: Number, ride: Ride) -> FilterView {
        let keys = Map::new(
            |name: Seq<char>| self.keys.dom().contains(name),
            |name: Seq<char>|
                rewindowed(self.keys[name], a, b, ride, self.param(name, num(ZERO))),
        );
        FilterView { keys: pruned(keys), ..self }
    }

    /// The run under a name, where there is one.
    pub open spec fn held(self, name: Seq<char>) -> Option<Seq<ParamKey>> {
        if self.keys.dom().contains(name) {
            Some(self.keys[name])
        } else {
            None
        }
    }

    /// This filter with the keys of a later piece's, which sat `offset` seconds
    /// after it and lasted `length`, now measured over `duration`.
    pub open spec fn absorbed(
        self,
        theirs: FilterView,
        offset: Number,
        length: Number,
        duration: Number,
    ) -> FilterView {
        FilterView {
            keys: Map::new(
                |name: Seq<char>|
                    absorbed_run(self.held(name), theirs.run(name), offset, length, duration)
                        is Some,
                |name: Seq<char>|
                    absorbed_run(self.held(name), theirs.run(name), offset, length, duration)->0,
            ),
            ..self
        }
    }

    pub open spec fn same(self, other: FilterView) -> bool {
        self.id == other.id && params_same(self.params, other.params) && self.enabled
            == other.enabled && runs_same(self.keys, other.keys)
    }

    /// Whether every number in the filter is finite.
    pub open spec fn all_finite(self) -> bool {
        &&& forall|name: Seq<char>| #[trigger]
            self.params.dom().contains(name) ==> self.params[name].finite()
        &&& forall|name: Seq<char>| #[trigger]
            self.keys.dom().contains(name) ==> run_finite(self.keys[name])
    }
}

pub open spec fn run_finite(run: Seq<ParamKey>) -> bool {
    forall|i: int|
        0 <= i < run.len() ==> (#[trigger] run[i]).at.finite() && run[i].value.finite()
            && run[i].ease.all_finite()
}

/// Where a point of a piece falls in the clip it was merged into.
pub open spec fn rejoined(at: Number, offset: Number, length: Number, duration: Number) -> Number {
    quotient(sum(offset, product(at, length)), duration)
}

/// A run with a later piece's keys put on it one after another.
pub open spec fn absorbed_run(
    held: Option<Seq<ParamKey>>,
    run: Seq<ParamKey>,
    offset: Number,
    length: Number,
    duration: Number,
) -> Option<Seq<ParamKey>>
    decreases run.len(),
{
    if run.len() == 0 {
        held
    } else {
        let before = absorbed_run(held, run.drop_last(), offset, length, duration);
        let key = run.last();
        let at = rejoined(key.at, offset, length, duration);
        if !at.finite() || !key.value.finite() {
            before
        } else {
            Some(
                run_with(
                    match before {
                        Some(keys) => keys,
                        None => Seq::empty(),
                    },
                    ParamKey {
                        at: clamped(at, num(ZERO), num(ONE)),
                        value: key.value,
                        ease: key.ease,
                    },
                ),
            )
        }
    }
}

/// A copy of a run.
pub fn copy_run(run: &Vec<ParamKey>) -> (r: Vec<ParamKey>)
    ensures
        r@ == run@,
{
    let r: Vec<ParamKey> = run.clone();
    assert(r@ =~= run@);
    r
}

fn copy_params(params: &Table<Number>) -> (r: Table<Number>)
    ensures
        r@ == params@,
{
    let entries = params.entries();
    let mut r: Table<Number> = Table::new();
    let mut i: usize = 0;
    proof {
        lemma_map_ends(entries@);
    }
    while i < entries.len()
        invariant
            i <= entries.len(),
            crate::table::distinct(entries@),
            r@ == map_of(entries@.take(i as int)),
        decreases entries.len() - i,
    {
        proof {
            lemma_map_take(entries@, i as int);
        }
        r.set(entries[i].0.clone(), entries[i].1);
        i = i + 1;
    }
    proof {
        lemma_map_ends(entries@);
    }
    r
}

fn copy_runs(keys: &Table<Vec<ParamKey>>) -> (r: Table<Vec<ParamKey>>)
    ensures
        runs(r@) == runs(keys@),
{
    let entries = keys.entries();
    let mut r: Table<Vec<ParamKey>> = Table::new();
    let mut i: usize = 0;
    proof {
        lemma_map_ends(entries@);
    }
    while i < entries.len()
        invariant
            i <= entries.len(),
            crate::table::distinct(entries@),
            runs(r@) == runs(map_of(entries@.take(i as int))),
        decreases entries.len() - i,
    {
        let run: Vec<ParamKey> = copy_run(&entries[i].1);
        proof {
            lemma_map_take(entries@, i as int);
            lemma_runs_insert(r@, entries@[i as int].0@, run);
            lemma_runs_insert(
                map_of(entries@.take(i as int)),
                entries@[i as int].0@,
                entries@[i as int].1,
            );
        }
        r.set(entries[i].0.clone(), run);
        i = i + 1;
    }
    proof {
        lemma_map_ends(entries@);
    }
    r
}

fn keep_finite(params: &Table<Number>) -> (r: Table<Number>)
    ensures
        r@ == finite_params(params@),
{
    let entries = params.entries();
    let mut r: Table<Number> = Table::new();
    let mut i: usize = 0;
    proof {
        lemma_map_ends(entries@);
        assert(finite_params(Map::<Seq<char>, Number>::empty()) =~= Map::<
            Seq<char>,
            Number,
        >::empty());
    }
    while i < entries.len()
        invariant
            i <= entries.len(),
            crate::table::distinct(entries@),
            r@ == finite_params(map_of(entries@.take(i as int))),
        decreases entries.len() - i,
    {
        proof {
            lemma_map_take(entries@, i as int);
            let before = map_of(entries@.take(i as int));
            let (name, value) = entries@[i as int];
            if value.finite() {
                assert(finite_params(before.insert(name@, value)) =~= finite_params(before).insert(
                    name@,
                    value,
                ));
            } else {
                assert(finite_params(before.insert(name@, value)) =~= finite_params(before));
            }
        }
        if entries[i].1.is_finite() {
            r.set(entries[i].0.clone(), entries[i].1);
        }
        i = i + 1;
    }
    proof {
        lemma_map_ends(entries@);
    }
    r
}

fn straighten_run(run: &Vec<ParamKey>) -> (r: Vec<ParamKey>)
    ensures
        r@ == straight_run(run@),
{
    let mut r: Vec<ParamKey> = Vec::new();
    let mut i: usize = 0;
    while i < run.len()
        invariant
            i <= run.len(),
            r.len() == i,
            forall|j: int| 0 <= j < i ==> #[trigger] r@[j] == straight_run(run@)[j],
        decreases run.len() - i,
    {
        let key: ParamKey = run[i];
        r.push(ParamKey { at: key.at, value: key.value, ease: key.ease.straighten() });
        i = i + 1;
    }
    assert(r@ =~= straight_run(run@));
    r
}

fn straighten_runs(keys: &Table<Vec<ParamKey>>) -> (r: Table<Vec<ParamKey>>)
    ensures
        runs(r@) == straight_runs(runs(keys@)),
{
    let entries = keys.entries();
    let mut r: Table<Vec<ParamKey>> = Table::new();
    let mut i: usize = 0;
    proof {
        lemma_map_ends(entries@);
        lemma_runs_insert(keys@, Seq::empty(), arbitrary());
        assert(straight_runs(Map::<Seq<char>, Seq<ParamKey>>::empty()) =~= Map::<
            Seq<char>,
            Seq<ParamKey>,
        >::empty());
    }
    while i < entries.len()
        invariant
            i <= entries.len(),
            crate::table::distinct(entries@),
            runs(r@) == straight_runs(runs(map_of(entries@.take(i as int)))),
        decreases entries.len() - i,
    {
        let run: Vec<ParamKey> = straighten_run(&entries[i].1);
        proof {
            let name = entries@[i as int].0@;
            let before = map_of(entries@.take(i as int));
            lemma_map_take(entries@, i as int);
            lemma_runs_insert(r@, name, run);
            lemma_runs_insert(before, name, entries@[i as int].1);
            assert(straight_runs(runs(before).insert(name, entries@[i as int].1@))
                =~= straight_runs(runs(before)).insert(name, run@));
        }
        r.set(entries[i].0.clone(), run);
        i = i + 1;
    }
    proof {
        lemma_map_ends(entries@);
    }
    r
}

impl Clone for AppliedFilter {
    fn clone(&self) -> (r: AppliedFilter)
        ensures
            r@ == self@,
    {
        AppliedFilter {
            id: self.id.clone(),
            params: copy_params(&self.params),
            enabled: self.enabled,
            keys: copy_runs(&self.keys),
        }
    }
}

/// Whether two runs hold the same keys.
pub fn same_run(a: &Vec<ParamKey>, b: &Vec<ParamKey>) -> (r: bool)
    ensures
        r == run_same(a@, b@),
{
    if a.len() != b.len() {
        return false;
    }
    let mut i: usize = 0;
    while i < a.len()
        invariant
            i <= a.len() == b.len(),
            forall|j: int| 0 <= j < i ==> #[trigger] a@[j].same(b@[j]),
        decreases a.len() - i,
    {
        if !a[i].equals(&b[i]) {
            assert(!a@[i as int].same(b@[i as int]));
            return false;
        }
        i = i + 1;
    }
    true
}

fn params_within(a: &Table<Number>, b: &Table<Number>) -> (r: bool)
    ensures
        r == (forall|name: Seq<char>|
            a@.dom().contains(name) ==> #[trigger] b@.dom().contains(name) && a@[name].same(
                b@[name],
            )),
{
    let entries = a.entries();
    let mut i: usize = 0;
    while i < entries.len()
        invariant
            i <= entries.len(),
            crate::table::distinct(entries@),
            a@ == map_of(entries@),
            forall|j: int|
                0 <= j < i ==> b@.dom().contains(#[trigger] entries@[j].0@)
                    && entries@[j].1.same(b@[entries@[j].0@]),
        decreases entries.len() - i,
    {
        proof {
            lemma_map_at(entries@, i as int);
        }
        match b.get(entries[i].0.as_str()) {
            Some(value) => {
                if !entries[i].1.equals(*value) {
                    assert(!a@[entries@[i as int].0@].same(b@[entries@[i as int].0@]));
                    return false;
                }
            },
            None => {
                assert(!b@.dom().contains(entries@[i as int].0@));
                return false;
            },
        }
        i = i + 1;
    }
    assert forall|name: Seq<char>| a@.dom().contains(name) implies #[trigger] b@.dom().contains(
        name,
    ) && a@[name].same(b@[name]) by {
        let j = crate::table::index_of_name(entries@, name);
        assert(entries@[j].0@ == name);
        lemma_map_at(entries@, j);
    }
    true
}

fn runs_within(a: &Table<Vec<ParamKey>>, b: &Table<Vec<ParamKey>>) -> (r: bool)
    ensures
        r == (forall|name: Seq<char>|
            runs(a@).dom().contains(name) ==> #[trigger] runs(b@).dom().contains(name)
                && run_same(runs(a@)[name], runs(b@)[name])),
{
    let entries = a.entries();
    let mut i: usize = 0;
    while i < entries.len()
        invariant
            i <= entries.len(),
            crate::table::distinct(entries@),
            a@ == map_of(entries@),
            forall|j: int|
                0 <= j < i ==> b@.dom().contains(#[trigger] entries@[j].0@) && run_same(
                    entries@[j].1@,
                    b@[entries@[j].0@]@,
                ),
        decreases entries.len() - i,
    {
        proof {
            lemma_map_at(entries@, i as int);
            assert(runs(a@).dom().contains(entries@[i as int].0@));
        }
        match b.get(entries[i].0.as_str()) {
            Some(run) => {
                if !same_run(&entries[i].1, run) {
                    assert(runs(b@).dom().contains(entries@[i as int].0@));
                    assert(!run_same(
                        runs(a@)[entries@[i as int].0@],
                        runs(b@)[entries@[i as int].0@],
                    ));
                    return false;
                }
            },
            None => {
                assert(!runs(b@).dom().contains(entries@[i as int].0@));
                return false;
            },
        }
        i = i + 1;
    }
    assert forall|name: Seq<char>| runs(a@).dom().contains(name) implies #[trigger] runs(
        b@,
    ).dom().contains(name) && run_same(runs(a@)[name], runs(b@)[name]) by {
        let j = crate::table::index_of_name(entries@, name);
        assert(entries@[j].0@ == name);
        lemma_map_at(entries@, j);
    }
    true
}

fn names_within<V>(a: &Table<V>, b: &Table<V>) -> (r: bool)
    ensures
        r == (forall|name: Seq<char>| a@.dom().contains(name) ==> #[trigger] b@.dom().contains(name)),
{
    let entries = a.entries();
    let mut i: usize = 0;
    while i < entries.len()
        invariant
            i <= entries.len(),
            crate::table::distinct(entries@),
            a@ == map_of(entries@),
            forall|j: int| 0 <= j < i ==> b@.dom().contains(#[trigger] entries@[j].0@),
        decreases entries.len() - i,
    {
        proof {
            lemma_map_at(entries@, i as int);
        }
        match b.get(entries[i].0.as_str()) {
            Some(_) => {},
            None => {
                assert(!b@.dom().contains(entries@[i as int].0@));
                return false;
            },
        }
        i = i + 1;
    }
    assert forall|name: Seq<char>| a@.dom().contains(name) implies #[trigger] b@.dom().contains(
        name,
    ) by {
        let j = crate::table::index_of_name(entries@, name);
        assert(entries@[j].0@ == name);
    }
    true
}

/// Whether two key tables hold the same keys under the same names.
pub fn same_runs(a: &Table<Vec<ParamKey>>, b: &Table<Vec<ParamKey>>) -> (r: bool)
    ensures
        r == runs_same(runs(a@), runs(b@)),
{
    let names: bool = names_within(b, a);
    let held: bool = runs_within(a, b);
    proof {
        assert(forall|name: Seq<char>| runs(b@).dom().contains(name) == b@.dom().contains(name));
        assert(forall|name: Seq<char>| runs(a@).dom().contains(name) == a@.dom().contains(name));
        if names {
            assert forall|name: Seq<char>| runs(b@).dom().contains(name) implies #[trigger] runs(
                a@,
            ).dom().contains(name) by {
                assert(a@.dom().contains(name));
            }
        } else {
            let name = choose|name: Seq<char>|
                b@.dom().contains(name) && !(#[trigger] a@.dom().contains(name));
            assert(!runs(a@).dom().contains(name));
        }
    }
    held && names
}

/// Whether two chains hold the same filters in the same order.
pub open spec fn chain_same(a: Seq<FilterView>, b: Seq<FilterView>) -> bool {
    a.len() == b.len() && forall|i: int| 0 <= i < a.len() ==> #[trigger] a[i].same(b[i])
}

/// What a chain says.
pub open spec fn chain(filters: Seq<AppliedFilter>) -> Seq<FilterView> {
    filters.map_values(|f: AppliedFilter| f@)
}

/// A copy of a chain.
pub fn copy_chain(filters: &Vec<AppliedFilter>) -> (r: Vec<AppliedFilter>)
    ensures
        chain(r@) == chain(filters@),
{
    let mut r: Vec<AppliedFilter> = Vec::new();
    let mut i: usize = 0;
    while i < filters.len()
        invariant
            i <= filters.len(),
            r.len() == i,
            forall|j: int| 0 <= j < i ==> #[trigger] r@[j]@ == filters@[j]@,
        decreases filters.len() - i,
    {
        r.push(filters[i].clone());
        i = i + 1;
    }
    assert(chain(r@) =~= chain(filters@));
    r
}

/// Whether two chains hold the same filters in the same order.
pub fn same_chain(a: &Vec<AppliedFilter>, b: &Vec<AppliedFilter>) -> (r: bool)
    ensures
        r == chain_same(chain(a@), chain(b@)),
{
    if a.len() != b.len() {
        return false;
    }
    let mut i: usize = 0;
    while i < a.len()
        invariant
            i <= a.len() == b.len(),
            forall|j: int| 0 <= j < i ==> #[trigger] chain(a@)[j].same(chain(b@)[j]),
        decreases a.len() - i,
    {
        if !a[i].same(&b[i]) {
            assert(!chain(a@)[i as int].same(chain(b@)[i as int]));
            return false;
        }
        i = i + 1;
    }
    true
}

impl AppliedFilter {
    /// A link with nothing set: the package's defaults, enabled.
    pub fn new(id: String) -> (r: AppliedFilter)
        ensures
            r@ == (FilterView {
                id: id@,
                params: Map::empty(),
                enabled: true,
                keys: Map::empty(),
            }),
    {
        let r: AppliedFilter = AppliedFilter {
            id,
            params: Table::new(),
            enabled: true,
            keys: Table::new(),
        };
        proof {
            lemma_runs_insert(r.keys@, id@, arbitrary());
        }
        r
    }

    /// Whether two links are the same effect with the same settings and keys.
    pub fn same(&self, other: &AppliedFilter) -> (r: bool)
        ensures
            r == self@.same(other@),
    {
        let forward: bool = params_within(&self.params, &other.params);
        let back: bool = names_within(&other.params, &self.params);
        self.id == other.id && forward && back && self.enabled == other.enabled && same_runs(
            &self.keys,
            &other.keys,
        )
    }

    /// This parameter's keys, in order; empty for one that holds still.
    pub fn keys_on(&self, key: &str) -> (r: Vec<ParamKey>)
        ensures
            r@ == self@.run(key@),
    {
        match self.keys.get(key) {
            Some(run) => copy_run(run),
            None => Vec::new(),
        }
    }

    /// Whether this parameter rides at all.
    pub fn is_keyed(&self, key: &str) -> (r: bool)
        ensures
            r == (self@.run(key@).len() > 0),
    {
        match self.keys.get(key) {
            Some(run) => run.len() > 0,
            None => false,
        }
    }

    /// The index into this parameter's keys of the one at `at`, choosing the
    /// nearest when two are in reach.
    pub fn key_at(&self, key: &str, at: Number) -> (r: Option<usize>)
        ensures
            match r {
                Some(i) => i < self@.run(key@).len() && closest(run_reaches(self@.run(key@), at))
                    == Some(i as int),
                None => closest(run_reaches(self@.run(key@), at)) is None,
            },
    {
        let run: Vec<ParamKey> = self.keys_on(key);
        find_in_run(&run, at)
    }

    /// What a parameter holds, or `fallback` where nothing is set.
    pub fn param(&self, key: &str, fallback: Number) -> (r: Number)
        ensures
            r == self@.param(key@, fallback),
    {
        match self.params.get(key) {
            Some(value) => *value,
            None => fallback,
        }
    }

    /// This parameter's keys as the engine plays them.
    pub fn track_on(&self, key: &str) -> (r: Vec<ParamKey>)
        ensures
            r@ == self@.run(key@),
    {
        self.keys_on(key)
    }

    /// What a parameter is worth at `at`: its ride where it is keyed, and
    /// otherwise what `params` holds, or `fallback` when that holds nothing
    /// either.
    pub fn value_at<F: Fn(&Vec<ParamKey>, Number, Number) -> Number>(
        &self,
        key: &str,
        at: Number,
        fallback: Number,
        engine: &F,
    ) -> (r: Number)
        requires
            plays(*engine),
        ensures
            r == (if self@.run(key@).len() > 0 {
                ride_of(*engine)(self@.run(key@), at, self@.param(key@, fallback))
            } else {
                self@.param(key@, fallback)
            }),
    {
        let constant: Number = self.param(key, fallback);
        let track: Vec<ParamKey> = self.track_on(key);
        if track.len() == 0 {
            return constant;
        }
        played(engine, &track, at, constant)
    }

    /// The nearest key strictly before `at`, and the nearest strictly after.
    pub fn keys_around(&self, key: &str, at: Number) -> (r: (Option<Number>, Option<Number>))
        ensures
            r == around(self@.run(key@).map_values(|k: ParamKey| k.at), at),
    {
        let run: Vec<ParamKey> = self.keys_on(key);
        let mut ats: Vec<Number> = Vec::new();
        let mut i: usize = 0;
        while i < run.len()
            invariant
                i <= run.len(),
                ats@ =~= run@.take(i as int).map_values(|k: ParamKey| k.at),
            decreases run.len() - i,
        {
            ats.push(run[i].at);
            i = i + 1;
        }
        assert(run@.take(run@.len() as int) =~= run@);
        find_around(&ats, at)
    }

    /// Sets a key, replacing whichever key on that parameter was already within
    /// a hair of `at`. Keeps the run sorted.
    pub fn set_key(&mut self, key: &str, at: Number, value: Number, ease: KeyEase)
        ensures
            final(self)@ == old(self)@.with_key(key@, at, value, ease),
    {
        if !at.is_finite() || !value.is_finite() {
            return ;
        }
        let at: Number = at.clamp(num(ZERO), num(ONE));
        let mut run: Vec<ParamKey> = self.keys_on(key);
        let held: ParamKey = ParamKey { at, value, ease };
        match find_in_run(&run, at) {
            Some(index) => {
                run.set(index, held);
            },
            None => {
                run.push(held);
            },
        }
        let run: Vec<ParamKey> = stable_sort(run);
        proof {
            lemma_runs_insert(self.keys@, key@, run);
        }
        self.keys.set(key.to_owned(), run);
    }

    /// Removes this parameter's key at `at`, if there is one. True when a key
    /// actually went; the run goes with its last key.
    pub fn clear_key(&mut self, key: &str, at: Number) -> (r: bool)
        ensures
            final(self)@ == old(self)@.without_key(key@, at),
            r == (closest(run_reaches(old(self)@.run(key@), at)) is Some),
    {
        let mut run: Vec<ParamKey> = self.keys_on(key);
        match find_in_run(&run, at) {
            Some(index) => {
                run.remove(index);
                proof {
                    lemma_runs_insert(self.keys@, key@, run);
                }
                if run.len() == 0 {
                    self.keys.take(key);
                } else {
                    self.keys.set(key.to_owned(), run);
                }
                true
            },
            None => false,
        }
    }

    /// Takes every key off one parameter. True when there were any.
    pub fn clear_keys(&mut self, key: &str) -> (r: bool)
        ensures
            final(self)@ == (FilterView { keys: old(self)@.keys.remove(key@), ..old(self)@ }),
            r == (old(self)@.run(key@).len() > 0),
    {
        proof {
            lemma_runs_insert(self.keys@, key@, arbitrary());
        }
        match self.keys.take(key) {
            Some(run) => run.len() > 0,
            None => false,
        }
    }

    /// Drops keys that are not finite or not in `0..=1`, empty runs with them,
    /// and orders what is left.
    pub fn sort_keys(&mut self)
        ensures
            final(self)@ == old(self)@.ordered(),
    {
        let ghost whole = runs(self.keys@);
        let mut sorted: Table<Vec<ParamKey>> = Table::new();
        {
            let entries = self.keys.entries();
            let mut i: usize = 0;
            proof {
                lemma_map_ends(entries@);
                lemma_runs_insert(self.keys@, Seq::empty(), arbitrary());
                assert(pruned(Map::<Seq<char>, Seq<ParamKey>>::empty()) =~= Map::<
                    Seq<char>,
                    Seq<ParamKey>,
                >::empty());
            }
            while i < entries.len()
                invariant
                    i <= entries.len(),
                    crate::table::distinct(entries@),
                    runs(sorted@) == pruned(runs(map_of(entries@.take(i as int)))),
                decreases entries.len() - i,
            {
                let run: Vec<ParamKey> = order_run(&entries[i].1);
                proof {
                    let name = entries@[i as int].0@;
                    let before = map_of(entries@.take(i as int));
                    lemma_map_take(entries@, i as int);
                    lemma_runs_insert(before, name, entries@[i as int].1);
                    lemma_runs_insert(sorted@, name, run);
                    assert(!runs(before).dom().contains(name));
                    lemma_pruned_insert(runs(before), name, entries@[i as int].1@);
                }
                if run.len() > 0 {
                    sorted.set(entries[i].0.clone(), run);
                }
                i = i + 1;
            }
            proof {
                lemma_map_ends(entries@);
            }
        }
        self.keys = sorted;
    }

    /// Every setting and ease that is not finite replaced by what stands in for
    /// it, and the keys that can be played in order.
    pub fn tidy(&mut self)
        ensures
            final(self)@ == old(self)@.tidied(),
    {
        self.sort_keys();
        self.params = keep_finite(&self.params);
        self.keys = straighten_runs(&self.keys);
    }

    /// Carries every run onto the window `(a, b)` of the old length.
    pub fn rewindow_keys<F: Fn(&Vec<ParamKey>, Number, Number) -> Number>(
        &mut self,
        a: Number,
        b: Number,
        engine: &F,
    )
        requires
            plays(*engine),
        ensures
            final(self)@ == old(self)@.windowed(a, b, ride_of(*engine)),
    {
        let ghost ride = ride_of(*engine);
        let ghost whole = self@;
        let mut moved: Table<Vec<ParamKey>> = Table::new();
        {
            let entries = self.keys.entries();
            let mut i: usize = 0;
            proof {
                lemma_map_ends(entries@);
                lemma_runs_insert(self.keys@, Seq::empty(), arbitrary());
            }
            while i < entries.len()
                invariant
                    i <= entries.len(),
                    plays(*engine),
                    ride == ride_of(*engine),
                    self@ == whole,
                    crate::table::distinct(entries@),
                    self.keys@ == map_of(entries@),
                    forall|name: Seq<char>|
                        runs(moved@).dom().contains(name) <==> runs(
                            map_of(entries@.take(i as int)),
                        ).dom().contains(name),
                    forall|name: Seq<char>| #[trigger]
                        runs(moved@).dom().contains(name) ==> runs(moved@)[name] == rewindowed(
                            runs(map_of(entries@.take(i as int)))[name],
                            a,
                            b,
                            ride,
                            whole.param(name, num(ZERO)),
                        ),
                decreases entries.len() - i,
            {
                let rest: Number = self.param(entries[i].0.as_str(), num(ZERO));
                let run: Vec<ParamKey> = rewindow(&entries[i].1, a, b, engine, rest);
                proof {
                    let name = entries@[i as int].0@;
                    let before = map_of(entries@.take(i as int));
                    lemma_map_take(entries@, i as int);
                    lemma_runs_insert(before, name, entries@[i as int].1);
                    lemma_runs_insert(moved@, name, run);
                }
                moved.set(entries[i].0.clone(), run);
                i = i + 1;
            }
            proof {
                lemma_map_ends(entries@);
            }
        }
        self.keys = moved;
        proof {
            let target = Map::new(
                |name: Seq<char>| whole.keys.dom().contains(name),
                |name: Seq<char>|
                    rewindowed(whole.keys[name], a, b, ride, whole.param(name, num(ZERO))),
            );
            assert(runs(moved@) =~= target);
        }
        self.sort_keys();
    }

    /// Takes on the keys of the same effect on a later piece.
    pub fn absorb(
        &mut self,
        theirs: &AppliedFilter,
        offset: Number,
        length: Number,
        duration: Number,
    )
        ensures
            final(self)@ == old(self)@.absorbed(theirs@, offset, length, duration),
    {
        let ghost start = self@;
        let entries = theirs.keys.entries();
        let mut i: usize = 0;
        while i < entries.len()
            invariant
                i <= entries.len(),
                crate::table::distinct(entries@),
                theirs.keys@ == map_of(entries@),
                self@.id == start.id,
                self@.params == start.params,
                self@.enabled == start.enabled,
                forall|j: int|
                    0 <= j < i ==> self@.held(#[trigger] entries@[j].0@) == absorbed_run(
                        start.held(entries@[j].0@),
                        entries@[j].1@,
                        offset,
                        length,
                        duration,
                    ),
                forall|name: Seq<char>|
                    (forall|j: int| 0 <= j < i ==> #[trigger] entries@[j].0@ != name) ==> (
                    #[trigger] self@.held(name)) == start.held(name),
            decreases entries.len() - i,
        {
            let ghost middle = self@;
            let ghost here = entries@[i as int].0@;
            let run = &entries[i].1;
            let mut k: usize = 0;
            assert(forall|j: int| 0 <= j < i ==> #[trigger] entries@[j].0@ != here);
            assert(middle.held(here) == start.held(here));
            assert(run@.take(0) =~= Seq::<ParamKey>::empty());
            while k < run.len()
                invariant
                    k <= run.len(),
                    i < entries.len(),
                    here == entries@[i as int].0@,
                    self@.id == start.id,
                    self@.params == start.params,
                    self@.enabled == start.enabled,
                    self@.held(here) == absorbed_run(
                        start.held(here),
                        run@.take(k as int),
                        offset,
                        length,
                        duration,
                    ),
                    forall|name: Seq<char>|
                        name != here ==> (#[trigger] self@.held(name)) == middle.held(name),
                decreases run.len() - k,
            {
                let key: ParamKey = run[k];
                let at: Number = offset.plus(key.at.times(length)).over(duration);
                proof {
                    assert(run@.take(k as int + 1).drop_last() =~= run@.take(k as int));
                    assert(run@.take(k as int + 1).last() == key);
                }
                let ghost prior = self@;
                self.set_key(entries[i].0.as_str(), at, key.value, key.ease);
                assert forall|name: Seq<char>| name != here implies (#[trigger] self@.held(name))
                    == middle.held(name) by {
                    assert(prior.held(name) == middle.held(name));
                }
                k = k + 1;
            }
            assert(run@.take(run@.len() as int) =~= run@);
            i = i + 1;
        }
        proof {
            let wanted = start.absorbed(theirs@, offset, length, duration);
            assert forall|name: Seq<char>| self@.held(name) == absorbed_run(
                start.held(name),
                theirs@.run(name),
                offset,
                length,
                duration,
            ) by {
                if crate::table::has_name(entries@, name) {
                    let j = crate::table::index_of_name(entries@, name);
                    lemma_map_at(entries@, j);
                    assert(entries@[j].0@ == name);
                } else {
                    assert(theirs@.run(name) =~= Seq::<ParamKey>::empty());
                    assert(self@.held(name) == start.held(name));
                }
            }
            assert forall|name: Seq<char>| self@.keys.dom().contains(name)
                == wanted.keys.dom().contains(name) by {
                assert(self@.held(name) is Some <==> self@.keys.dom().contains(name));
            }
            assert forall|name: Seq<char>| #[trigger]
                self@.keys.dom().contains(name) implies self@.keys[name] == wanted.keys[name] by {
                assert(self@.held(name) == Some(self@.keys[name]));
            }
            assert(self@.keys =~= wanted.keys);
        }
    }

    /// Whether every number in the filter is finite.
    pub fn is_finite(&self) -> (r: bool)
        ensures
            r == self@.all_finite(),
    {
        let entries = self.params.entries();
        let mut i: usize = 0;
        while i < entries.len()
            invariant
                i <= entries.len(),
                crate::table::distinct(entries@),
                self.params@ == map_of(entries@),
                forall|j: int| 0 <= j < i ==> (#[trigger] entries@[j]).1.finite(),
            decreases entries.len() - i,
        {
            proof {
                lemma_map_at(entries@, i as int);
            }
            if !entries[i].1.is_finite() {
                assert(!self@.params[entries@[i as int].0@].finite());
                return false;
            }
            i = i + 1;
        }
        assert forall|name: Seq<char>| #[trigger]
            self@.params.dom().contains(name) implies self@.params[name].finite() by {
            let j = crate::table::index_of_name(entries@, name);
            lemma_map_at(entries@, j);
        }
        let entries = self.keys.entries();
        let mut i: usize = 0;
        while i < entries.len()
            invariant
                i <= entries.len(),
                crate::table::distinct(entries@),
                self.keys@ == map_of(entries@),
                forall|j: int| 0 <= j < i ==> run_finite((#[trigger] entries@[j]).1@),
            decreases entries.len() - i,
        {
            proof {
                lemma_map_at(entries@, i as int);
            }
            if !is_run_finite(&entries[i].1) {
                assert(self@.keys.dom().contains(entries@[i as int].0@));
                return false;
            }
            i = i + 1;
        }
        assert forall|name: Seq<char>| #[trigger]
            self@.keys.dom().contains(name) implies run_finite(self@.keys[name]) by {
            let j = crate::table::index_of_name(entries@, name);
            lemma_map_at(entries@, j);
        }
        true
    }

    /// Every set parameter at `at`: what is held, with each keyed one replaced
    /// by its ride's value there.
    pub fn params_at<F: Fn(&Vec<ParamKey>, Number, Number) -> Number>(
        &self,
        at: Number,
        engine: &F,
    ) -> (r: Table<Number>)
        requires
            plays(*engine),
        ensures
            forall|name: Seq<char>| #[trigger]
                r@.dom().contains(name) <==> self@.params.dom().contains(name) || self@.run(
                    name,
                ).len() > 0,
            forall|name: Seq<char>| #[trigger]
                r@.dom().contains(name) ==> r@[name] == if self@.run(name).len() > 0 {
                    ride_of(*engine)(self@.run(name), at, self@.param(name, num(ZERO)))
                } else {
                    self@.params[name]
                },
    {
        let ghost ride = ride_of(*engine);
        let mut set: Table<Number> = copy_params(&self.params);
        let entries = self.keys.entries();
        let mut i: usize = 0;
        while i < entries.len()
            invariant
                i <= entries.len(),
                plays(*engine),
                ride == ride_of(*engine),
                crate::table::distinct(entries@),
                self.keys@ == map_of(entries@),
                forall|name: Seq<char>| #[trigger]
                    set@.dom().contains(name) <==> self@.params.dom().contains(name) || (exists|
                        j: int,
                    |
                        0 <= j < i && #[trigger] entries@[j].0@ == name && entries@[j].1.len() > 0),
                forall|j: int|
                    0 <= j < i && entries@[j].1.len() > 0 ==> set@[#[trigger] entries@[j].0@]
                        == ride(
                        entries@[j].1@,
                        at,
                        self@.param(entries@[j].0@, num(ZERO)),
                    ),
                forall|name: Seq<char>| #[trigger]
                    set@.dom().contains(name) && !(exists|j: int|
                        0 <= j < i && #[trigger] entries@[j].0@ == name && entries@[j].1.len() > 0)
                        ==> set@[name] == self@.params[name],
            decreases entries.len() - i,
        {
            if entries[i].1.len() > 0 {
                let rest: Number = self.param(entries[i].0.as_str(), num(ZERO));
                let value: Number = played(engine, &entries[i].1, at, rest);
                let ghost before = set@;
                set.set(entries[i].0.clone(), value);
                proof {
                    let here = entries@[i as int].0@;
                    assert forall|name: Seq<char>| #[trigger] set@.dom().contains(name) <==> (
                    self@.params.dom().contains(name) || (exists|j: int|
                        0 <= j < i + 1 && #[trigger] entries@[j].0@ == name && entries@[j].1.len()
                            > 0)) by {
                        if name == here {
                            assert(entries@[i as int].0@ == name);
                        }
                        assert(before.dom().contains(name) || !before.dom().contains(name));
                    }
                    assert forall|name: Seq<char>| #[trigger] set@.dom().contains(name) && !(exists|
                        j: int,
                    |
                        0 <= j < i + 1 && #[trigger] entries@[j].0@ == name && entries@[j].1.len()
                            > 0) implies set@[name] == self@.params[name] by {
                        assert(name != here) by {
                            assert(entries@[i as int].0@ == here);
                        }
                        assert(before.dom().contains(name));
                    }
                }
            }
            i = i + 1;
        }
        proof {
            assert forall|name: Seq<char>| (#[trigger] self@.run(name)).len() > 0 <==> (exists|
                j: int,
            |
                0 <= j < entries.len() && #[trigger] entries@[j].0@ == name && entries@[j].1.len()
                    > 0) by {
                if self@.run(name).len() > 0 {
                    let j = crate::table::index_of_name(entries@, name);
                    lemma_map_at(entries@, j);
                    assert(entries@[j].0@ == name);
                }
                if exists|j: int|
                    0 <= j < entries.len() && #[trigger] entries@[j].0@ == name
                        && entries@[j].1.len() > 0 {
                    let j = choose|j: int|
                        0 <= j < entries.len() && #[trigger] entries@[j].0@ == name
                            && entries@[j].1.len() > 0;
                    lemma_map_at(entries@, j);
                }
            }
            assert forall|name: Seq<char>| #[trigger] set@.dom().contains(name) implies set@[name]
                == if self@.run(name).len() > 0 {
                ride(self@.run(name), at, self@.param(name, num(ZERO)))
            } else {
                self@.params[name]
            } by {
                if self@.run(name).len() > 0 {
                    let j = choose|j: int|
                        0 <= j < entries.len() && #[trigger] entries@[j].0@ == name
                            && entries@[j].1.len() > 0;
                    lemma_map_at(entries@, j);
                }
            }
            assert forall|name: Seq<char>| #[trigger] set@.dom().contains(name) <==> (
            self@.params.dom().contains(name) || self@.run(name).len() > 0) by {
                assert(self@.run(name).len() > 0 || self@.run(name).len() == 0);
            }
        }
        set
    }
}

fn is_run_finite(run: &Vec<ParamKey>) -> (r: bool)
    ensures
        r == run_finite(run@),
{
    let mut i: usize = 0;
    while i < run.len()
        invariant
            i <= run.len(),
            forall|j: int|
                0 <= j < i ==> (#[trigger] run@[j]).at.finite() && run@[j].value.finite()
                    && run@[j].ease.all_finite(),
        decreases run.len() - i,
    {
        if !(run[i].at.is_finite() && run[i].value.is_finite() && run[i].ease.is_finite()) {
            assert(!(run@[i as int].at.finite() && run@[i as int].value.finite()
                && run@[i as int].ease.all_finite()));
            return false;
        }
        i = i + 1;
    }
    true
}

proof fn lemma_pruned_insert(
    keys: Map<Seq<char>, Seq<ParamKey>>,
    name: Seq<char>,
    run: Seq<ParamKey>,
)
    requires
        !keys.dom().contains(name),
    ensures
        pruned(keys.insert(name, run)) == if ordered_run(run).len() > 0 {
            pruned(keys).insert(name, ordered_run(run))
        } else {
            pruned(keys)
        },
{
    if ordered_run(run).len() > 0 {
        assert(pruned(keys.insert(name, run)) =~= pruned(keys).insert(name, ordered_run(run)));
    } else {
        assert(pruned(keys.insert(name, run)) =~= pruned(keys));
    }
}

} // verus!
