//! The streaming feature selector's state: the counts of every signal seen,
//! kept in the order of their identifier codes, and the number of
//! observations seen.
use vstd::prelude::*;
use crate::text::{lex_lt, lemma_lex_irreflexive, lemma_lex_total, lemma_lex_transitive, str_less};
use crate::register::{Observation, RegisterView};
use crate::feature::{
    feature_step, feature_steps, feature_wf, fresh_feature, known_count, lemma_counts_from_fresh,
    lemma_fits_below_limit, lemma_step_keeps_wf, lemma_steps_keep_key, step_fits, FeatureState, FeatureView, COUNT_LIMIT,
};

verus! {

/// The counts of every signal seen, in the order of their keys, and the
/// number of observations seen.
pub struct UFSSOD {
    pub features: Vec<FeatureState>,
    pub obv_seen: u64,
}

/// Each key comes before the next one: the keys are sorted and distinct.
pub open spec fn keys_increasing(fs: Seq<FeatureState>) -> bool {
    forall|i: int, j: int| 0 <= i < j < fs.len() ==> lex_lt(#[trigger] fs[i].key@, #[trigger] fs[j].key@)
}

/// Whether some feature of `fs` has key `k`.
pub open spec fn has_key(fs: Seq<FeatureState>, k: Seq<char>) -> bool {
    exists|i: int| 0 <= i < fs.len() && #[trigger] fs[i].key@ == k
}

/// The counts of `fs`, by key.
pub open spec fn features_map(fs: Seq<FeatureState>) -> Map<Seq<char>, FeatureView> {
    Map::new(
        |k: Seq<char>| has_key(fs, k),
        |k: Seq<char>| fs[choose|i: int| 0 <= i < fs.len() && #[trigger] fs[i].key@ == k]@,
    )
}

/// The counts after signal `key` was seen with `value`: a signal not seen
/// before starts from fresh counts.
pub open spec fn observe(m: Map<Seq<char>, FeatureView>, key: Seq<char>, value: Option<u64>) -> Map<
    Seq<char>,
    FeatureView,
> {
    m.insert(key, feature_step(current(m, key), value))
}

/// The counts of signal `key`: those in `m`, or fresh ones.
pub open spec fn current(m: Map<Seq<char>, FeatureView>, key: Seq<char>) -> FeatureView {
    if m.contains_key(key) {
        m[key]
    } else {
        fresh_feature(key)
    }
}

/// The counts after the registers `rs`, in order.
pub open spec fn observe_all(m: Map<Seq<char>, FeatureView>, rs: Seq<RegisterView>) -> Map<
    Seq<char>,
    FeatureView,
>
    decreases rs.len(),
{
    if rs.len() == 0 {
        m
    } else {
        observe(observe_all(m, rs.drop_last()), rs.last().key, rs.last().value)
    }
}

/// Whether every count stays within a `u64` while the registers `rs` are
/// observed, in order.
pub open spec fn observe_fits(m: Map<Seq<char>, FeatureView>, rs: Seq<RegisterView>) -> bool
    decreases rs.len(),
{
    rs.len() == 0 || (observe_fits(m, rs.drop_last()) && step_fits(
        current(observe_all(m, rs.drop_last()), rs.last().key),
        rs.last().value,
    ))
}

/// Whether every count of `fs` stays below `COUNT_LIMIT` after `extra` more
/// values.
pub open spec fn has_room(fs: Seq<FeatureState>, extra: int) -> bool {
    &&& 0 <= extra < COUNT_LIMIT
    &&& forall|i: int| 0 <= i < fs.len() ==> #[trigger] fs[i].n + extra < COUNT_LIMIT
}

/// Every signal of `m` is well formed and stays below `COUNT_LIMIT` after
/// `extra` more values.
pub open spec fn map_room(m: Map<Seq<char>, FeatureView>, extra: int) -> bool {
    &&& 0 <= extra < COUNT_LIMIT
    &&& forall|k: Seq<char>| #[trigger] m.contains_key(k) ==> feature_wf(m[k]) && m[k].n + extra < COUNT_LIMIT
}

/// Where the counts fit while observing `rs`, they fit while observing any
/// prefix of it.
pub proof fn lemma_fits_prefix(m: Map<Seq<char>, FeatureView>, rs: Seq<RegisterView>, j: int)
    requires
        observe_fits(m, rs),
        0 <= j <= rs.len(),
    ensures
        observe_fits(m, rs.take(j)),
    decreases rs.len(),
{
    if j == rs.len() {
        assert(rs.take(j) == rs);
    } else {
        assert(rs.drop_last().take(j) == rs.take(j));
        lemma_fits_prefix(m, rs.drop_last(), j);
    }
}

/// Below `COUNT_LIMIT` by at least the number of registers, observing them
/// keeps every count within a `u64`.
pub proof fn lemma_room_fits(m: Map<Seq<char>, FeatureView>, rs: Seq<RegisterView>)
    requires
        map_room(m, rs.len() as int),
    ensures
        observe_fits(m, rs),
    decreases rs.len(),
{
    if rs.len() > 0 {
        let t = rs.drop_last();
        assert(map_room(m, t.len() as int));
        lemma_room_fits(m, t);
        lemma_room_steps(m, t, 1);
        let m2 = observe_all(m, t);
        let f = current(m2, rs.last().key);
        assert(feature_wf(f) && f.n < COUNT_LIMIT);
        lemma_fits_below_limit(f, rs.last().value);
    }
}

/// While observing registers, each count grows by at most one per register
/// and stays well formed.
pub proof fn lemma_room_steps(m: Map<Seq<char>, FeatureView>, rs: Seq<RegisterView>, extra: int)
    requires
        0 <= extra,
        map_room(m, rs.len() + extra),
    ensures
        map_room(observe_all(m, rs), extra),
    decreases rs.len(),
{
    if rs.len() > 0 {
        let t = rs.drop_last();
        lemma_room_steps(m, t, extra + 1);
        let m2 = observe_all(m, t);
        let k = rs.last().key;
        let f = current(m2, k);
        assert(feature_wf(f) && f.n + extra + 1 < COUNT_LIMIT);
        lemma_fits_below_limit(f, rs.last().value);
        lemma_step_keeps_wf(f, rs.last().value);
        let m3 = observe_all(m, rs);
        assert forall|k2: Seq<char>| #[trigger] m3.contains_key(k2) implies feature_wf(m3[k2])
            && m3[k2].n + extra < COUNT_LIMIT by {
            if k2 != k {
                assert(m2.contains_key(k2));
            }
        }
    }
}

/// In a feature list with increasing keys, a key maps to the counts at its
/// index.
proof fn lemma_lookup(fs: Seq<FeatureState>, i: int)
    requires
        keys_increasing(fs),
        0 <= i < fs.len(),
    ensures
        features_map(fs).contains_key(fs[i].key@),
        features_map(fs)[fs[i].key@] == fs[i]@,
{
    let k = fs[i].key@;
    assert(has_key(fs, k));
    let j = choose|j: int| 0 <= j < fs.len() && #[trigger] fs[j].key@ == k;
    lemma_lex_irreflexive(k);
    if j < i {
        assert(lex_lt(fs[j].key@, fs[i].key@));
    } else if j > i {
        assert(lex_lt(fs[i].key@, fs[j].key@));
    }
    assert(j == i);
}

/// Replacing the counts at an index by counts with the same key replaces
/// them in the map.
proof fn lemma_replace(fs: Seq<FeatureState>, i: int, f: FeatureState)
    requires
        keys_increasing(fs),
        0 <= i < fs.len(),
        f.key@ == fs[i].key@,
    ensures
        keys_increasing(fs.update(i, f)),
        features_map(fs.update(i, f)) == features_map(fs).insert(f.key@, f@),
{
    let gs = fs.update(i, f);
    assert(keys_increasing(gs)) by {
        assert forall|a: int, b: int| 0 <= a < b < gs.len() implies lex_lt(
            #[trigger] gs[a].key@,
            #[trigger] gs[b].key@,
        ) by {
            assert(gs[a].key@ == fs[a].key@);
            assert(gs[b].key@ == fs[b].key@);
        }
    }
    let m1 = features_map(gs);
    let m2 = features_map(fs).insert(f.key@, f@);
    assert forall|k: Seq<char>| m1.contains_key(k) <==> m2.contains_key(k) by {
        if has_key(gs, k) {
            let j = choose|j: int| 0 <= j < gs.len() && #[trigger] gs[j].key@ == k;
            assert(fs[j].key@ == k);
        }
        if has_key(fs, k) {
            let j = choose|j: int| 0 <= j < fs.len() && #[trigger] fs[j].key@ == k;
            assert(gs[j].key@ == k);
        }
    }
    assert forall|k: Seq<char>| m1.contains_key(k) implies m1[k] == m2[k] by {
        let j = choose|j: int| 0 <= j < gs.len() && #[trigger] gs[j].key@ == k;
        lemma_lookup(gs, j);
        if j != i {
            lemma_lookup(fs, j);
            lemma_lex_irreflexive(k);
            if j < i {
                assert(lex_lt(fs[j].key@, fs[i].key@));
            } else {
                assert(lex_lt(fs[i].key@, fs[j].key@));
            }
            assert(k != f.key@);
            assert(gs[j] == fs[j]);
        } else {
            assert(gs[j] == f);
        }
    }
    assert(m1 =~= m2);
}

/// Inserting counts with a new key, where the keys stay increasing, adds
/// them to the map.
proof fn lemma_insert(fs: Seq<FeatureState>, pos: int, f: FeatureState)
    requires
        keys_increasing(fs),
        0 <= pos <= fs.len(),
        keys_increasing(fs.insert(pos, f)),
        !has_key(fs, f.key@),
    ensures
        features_map(fs.insert(pos, f)) == features_map(fs).insert(f.key@, f@),
{
    let gs = fs.insert(pos, f);
    let m1 = features_map(gs);
    let m2 = features_map(fs).insert(f.key@, f@);
    assert forall|k: Seq<char>| m1.contains_key(k) <==> m2.contains_key(k) by {
        if has_key(gs, k) {
            let j = choose|j: int| 0 <= j < gs.len() && #[trigger] gs[j].key@ == k;
            if j < pos {
                assert(fs[j].key@ == k);
            } else if j > pos {
                assert(fs[j - 1].key@ == k);
            }
        }
        if has_key(fs, k) {
            let j = choose|j: int| 0 <= j < fs.len() && #[trigger] fs[j].key@ == k;
            if j < pos {
                assert(gs[j].key@ == k);
            } else {
                assert(gs[j + 1].key@ == k);
            }
        }
        assert(gs[pos].key@ == f.key@);
    }
    assert forall|k: Seq<char>| m1.contains_key(k) implies m1[k] == m2[k] by {
        let j = choose|j: int| 0 <= j < gs.len() && #[trigger] gs[j].key@ == k;
        lemma_lookup(gs, j);
        if j < pos {
            lemma_lookup(fs, j);
        } else if j > pos {
            lemma_lookup(fs, j - 1);
        }
    }
    assert(m1 =~= m2);
}

/// The values of the registers of `rs` that have key `k`, in order.
pub open spec fn values_for(rs: Seq<RegisterView>, k: Seq<char>) -> Seq<Option<u64>>
    decreases rs.len(),
{
    if rs.len() == 0 {
        Seq::empty()
    } else if rs.last().key == k {
        values_for(rs.drop_last(), k).push(rs.last().value)
    } else {
        values_for(rs.drop_last(), k)
    }
}

/// What observing registers does to one signal: it is known afterwards
/// exactly where it was known before or some register has its key, and its
/// counts are those it had (fresh ones for a new signal) after the values of
/// its registers, in order. Other signals are left as they were.
pub proof fn lemma_observe_all_per_key(m: Map<Seq<char>, FeatureView>, rs: Seq<RegisterView>, k: Seq<char>)
    ensures
        observe_all(m, rs).contains_key(k) <==> (m.contains_key(k) || values_for(rs, k).len() > 0),
        observe_all(m, rs).contains_key(k) ==> observe_all(m, rs)[k] == feature_steps(
            current(m, k),
            values_for(rs, k),
        ),
    decreases rs.len(),
{
    if rs.len() > 0 {
        lemma_observe_all_per_key(m, rs.drop_last(), k);
        let vs = values_for(rs, k);
        if rs.last().key == k {
            assert(vs.drop_last() == values_for(rs.drop_last(), k));
            if !m.contains_key(k) && values_for(rs.drop_last(), k).len() == 0 {
                assert(values_for(rs.drop_last(), k) == Seq::<Option<u64>>::empty());
            }
        }
    }
}

/// All the registers of a run of observations, in order.
pub open spec fn all_registers(obss: Seq<Seq<RegisterView>>) -> Seq<RegisterView>
    decreases obss.len(),
{
    if obss.len() == 0 {
        Seq::empty()
    } else {
        all_registers(obss.drop_last()) + obss.last()
    }
}

/// The registers of each observation of a run.
pub open spec fn observations_view(obss: Seq<Observation>) -> Seq<Seq<RegisterView>> {
    obss.map_values(|o: Observation| o.values_view())
}

/// Observing `a` and then `b` is observing `a + b`.
pub proof fn lemma_observe_all_concat(
    m: Map<Seq<char>, FeatureView>,
    a: Seq<RegisterView>,
    b: Seq<RegisterView>,
)
    ensures
        observe_all(m, a + b) == observe_all(observe_all(m, a), b),
    decreases b.len(),
{
    if b.len() == 0 {
        assert(a + b == a);
    } else {
        assert((a + b).drop_last() == a + b.drop_last());
        assert((a + b).last() == b.last());
        lemma_observe_all_concat(m, a, b.drop_last());
    }
}

/// A run of selector states from `new`: each state is the one before it after
/// `update` with the next observation (as `new` and `update` ensure).
pub open spec fn is_run_from_new(states: Seq<UFSSOD>, obss: Seq<Observation>) -> bool {
    &&& states.len() == obss.len() + 1
    &&& states[0].model() == Map::<Seq<char>, FeatureView>::empty()
    &&& states[0].obv_seen == 0
    &&& forall|i: int|
        0 <= i < obss.len() ==> states[i + 1].model() == observe_all(
            states[i].model(),
            (#[trigger] obss[i]).values_view(),
        ) && states[i + 1].obv_seen == states[i].obv_seen + 1
}

/// After a run of updates from `new`, `obv_seen` is the number of updates,
/// and each signal seen is the fresh one counted over the values of its
/// registers in all the observations, in order: its key is its own, and (where
/// that number fits) its `n` is the number of its known values.
pub proof fn lemma_run_from_new(states: Seq<UFSSOD>, obss: Seq<Observation>)
    requires
        is_run_from_new(states, obss),
    ensures
        states.last().obv_seen == obss.len(),
        states.last().model() == observe_all(
            Map::<Seq<char>, FeatureView>::empty(),
            all_registers(observations_view(obss)),
        ),
        forall|k: Seq<char>| #[trigger]
            states.last().model().contains_key(k) ==> {
                let vs = values_for(all_registers(observations_view(obss)), k);
                &&& states.last().model()[k] == feature_steps(fresh_feature(k), vs)
                &&& states.last().model()[k].key == k
                &&& known_count(vs) <= u64::MAX ==> states.last().model()[k].n == known_count(vs)
            },
{
    lemma_run_prefix(states, obss, obss.len() as int);
    assert(observations_view(obss).take(obss.len() as int) == observations_view(obss));
    let all = all_registers(observations_view(obss));
    let empty = Map::<Seq<char>, FeatureView>::empty();
    assert forall|k: Seq<char>| #[trigger] states.last().model().contains_key(k) implies {
        let vs = values_for(all, k);
        &&& states.last().model()[k] == feature_steps(fresh_feature(k), vs)
        &&& states.last().model()[k].key == k
        &&& known_count(vs) <= u64::MAX ==> states.last().model()[k].n == known_count(vs)
    } by {
        let vs = values_for(all, k);
        lemma_observe_all_per_key(empty, all, k);
        assert(current(empty, k) == fresh_feature(k));
        lemma_steps_keep_key(fresh_feature(k), vs);
        if known_count(vs) <= u64::MAX {
            lemma_counts_from_fresh(k, vs);
        }
    }
}

/// The states of a run from `new` after its first `j` updates.
proof fn lemma_run_prefix(states: Seq<UFSSOD>, obss: Seq<Observation>, j: int)
    requires
        is_run_from_new(states, obss),
        0 <= j <= obss.len(),
    ensures
        states[j].obv_seen == j,
        states[j].model() == observe_all(
            Map::<Seq<char>, FeatureView>::empty(),
            all_registers(observations_view(obss).take(j)),
        ),
    decreases j,
{
    let ov = observations_view(obss);
    if j == 0 {
        assert(ov.take(0) == Seq::<Seq<RegisterView>>::empty());
    } else {
        lemma_run_prefix(states, obss, j - 1);
        assert(ov.take(j).drop_last() == ov.take(j - 1));
        assert(ov.take(j).last() == obss[j - 1].values_view());
        lemma_observe_all_concat(
            Map::<Seq<char>, FeatureView>::empty(),
            all_registers(ov.take(j - 1)),
            obss[j - 1].values_view(),
        );
    }
}

impl UFSSOD {
    /// The relations that the selector keeps: keys increasing, and each
    /// signal's counts well formed.
    pub open spec fn wf(&self) -> bool {
        &&& keys_increasing(self.features@)
        &&& forall|i: int| 0 <= i < self.features@.len() ==> feature_wf(#[trigger] self.features@[i]@)
    }

    /// The counts of every signal seen, by key.
    pub open spec fn model(&self) -> Map<Seq<char>, FeatureView> {
        features_map(self.features@)
    }

    /// The model holds exactly the counts of `features`, by their keys, and
    /// the keys of `features` increase.
    pub proof fn lemma_model_is_features(&self)
        requires
            self.wf(),
        ensures
            keys_increasing(self.features@),
            forall|i: int| 0 <= i < self.features@.len() ==> feature_wf(#[trigger] self.features@[i]@),
            forall|i: int|
                0 <= i < self.features@.len() ==> self.model().contains_key(
                    #[trigger] self.features@[i].key@,
                ) && self.model()[self.features@[i].key@] == self.features@[i]@,
            forall|k: Seq<char>| #[trigger] self.model().contains_key(k) <==> has_key(self.features@, k),
    {
        assert forall|i: int| 0 <= i < self.features@.len() implies self.model().contains_key(
            #[trigger] self.features@[i].key@,
        ) && self.model()[self.features@[i].key@] == self.features@[i]@ by {
            lemma_lookup(self.features@, i);
        }
    }

    /// A selector that has seen nothing.
    pub fn new() -> (s: Self)
        ensures
            s.wf(),
            s.model() == Map::<Seq<char>, FeatureView>::empty(),
            s.obv_seen == 0,
    {
        let s = UFSSOD { features: Vec::new(), obv_seen: 0 };
        assert(s.model() =~= Map::<Seq<char>, FeatureView>::empty());
        s
    }

    /// Whether every signal's count stays below `COUNT_LIMIT` after the
    /// values of `obs`; where it does, counting them fits in a `u64`.
    pub fn room_for(&self, obs: &Observation) -> (b: bool)
        ensures
            b == has_room(self.features@, obs.values@.len() as int),
            b && self.wf() ==> observe_fits(self.model(), obs.values_view()),
    {
        let extra = obs.values.len();
        if extra as u64 >= COUNT_LIMIT {
            return false;
        }
        let mut i: usize = 0;
        while i < self.features.len()
            invariant
                i <= self.features@.len(),
                extra == obs.values@.len(),
                (extra as int) < COUNT_LIMIT,
                forall|j: int| 0 <= j < i ==> #[trigger] self.features@[j].n + extra < COUNT_LIMIT,
            decreases self.features.len() - i,
        {
            if self.features[i].n >= COUNT_LIMIT - extra as u64 {
                return false;
            }
            i = i + 1;
        }
        proof {
            if self.wf() {
                self.lemma_model_is_features();
                assert(map_room(self.model(), extra as int)) by {
                    assert forall|k: Seq<char>| #[trigger] self.model().contains_key(k) implies feature_wf(
                        self.model()[k],
                    ) && self.model()[k].n + extra < COUNT_LIMIT by {
                        let j = choose|j: int| 0 <= j < self.features@.len() && #[trigger] self.features@[j].key@ == k;
                        assert(self.model()[self.features@[j].key@] == self.features@[j]@);
                    }
                }
                lemma_room_fits(self.model(), obs.values_view());
            }
        }
        true
    }

    /// The index of the first feature whose key is not before `k`.
    fn position_of(&self, k: &str) -> (pos: usize)
        requires
            keys_increasing(self.features@),
        ensures
            pos <= self.features@.len(),
            forall|j: int| 0 <= j < pos ==> lex_lt(#[trigger] self.features@[j].key@, k@),
            forall|j: int| pos <= j < self.features@.len() ==> !lex_lt(#[trigger] self.features@[j].key@, k@),
    {
        let mut lo: usize = 0;
        let mut hi: usize = self.features.len();
        while lo < hi
            invariant
                lo <= hi <= self.features@.len(),
                keys_increasing(self.features@),
                forall|j: int| 0 <= j < lo ==> lex_lt(#[trigger] self.features@[j].key@, k@),
                forall|j: int| hi <= j < self.features@.len() ==> !lex_lt(#[trigger] self.features@[j].key@, k@),
            decreases hi - lo,
        {
            let mid = lo + (hi - lo) / 2;
            let mk = self.features[mid].key.as_str();
            if str_less(mk, k) {
                proof {
                    assert forall|j: int| 0 <= j < mid + 1 implies lex_lt(#[trigger] self.features@[j].key@, k@) by {
                        if j < mid {
                            lemma_lex_transitive(self.features@[j].key@, self.features@[mid as int].key@, k@);
                        }
                    }
                }
                lo = mid + 1;
            } else {
                proof {
                    assert forall|j: int| mid <= j < self.features@.len() implies !lex_lt(#[trigger] self.features@[j].key@, k@) by {
                        if j > mid && lex_lt(self.features@[j].key@, k@) {
                            lemma_lex_transitive(self.features@[mid as int].key@, self.features@[j].key@, k@);
                        }
                    }
                }
                hi = mid;
            }
        }
        lo
    }

    /// Counts the value of one register.
    fn observe_register(&mut self, key: &str, value: Option<u64>)
        requires
            old(self).wf(),
            step_fits(current(old(self).model(), key@), value),
        ensures
            final(self).wf(),
            final(self).model() == observe(old(self).model(), key@, value),
            final(self).obv_seen == old(self).obv_seen,
    {
        let ghost fs = self.features@;
        let pos = self.position_of(key);
        let found = pos < self.features.len() && !str_less(key, self.features[pos].key.as_str());
        if found {
            proof {
                lemma_lex_total(key@, fs[pos as int].key@);
                lemma_lookup(fs, pos as int);
            }
            let mut f = self.features.remove(pos);
            assert(f == fs[pos as int]);
            f.update(value);
            self.features.insert(pos, f);
            proof {
                assert(self.features@ == fs.update(pos as int, f));
                lemma_replace(fs, pos as int, f);
            }
        } else {
            proof {
                assert(!has_key(fs, key@)) by {
                    if has_key(fs, key@) {
                        let j = choose|j: int| 0 <= j < fs.len() && #[trigger] fs[j].key@ == key@;
                        lemma_lex_irreflexive(key@);
                        if j >= pos as int {
                            lemma_lex_total(key@, fs[pos as int].key@);
                            if j > pos as int {
                                lemma_lex_transitive(fs[pos as int].key@, fs[j].key@, key@);
                            }
                        }
                    }
                }
            }
            let mut f = FeatureState::new(key.to_owned());
            f.update(value);
            self.features.insert(pos, f);
            proof {
                let gs = fs.insert(pos as int, f);
                assert(self.features@ == gs);
                assert(keys_increasing(gs)) by {
                    assert forall|a: int, b: int| 0 <= a < b < gs.len() implies lex_lt(
                        #[trigger] gs[a].key@,
                        #[trigger] gs[b].key@,
                    ) by {
                        if b < pos {
                        } else if b == pos {
                            assert(gs[a] == fs[a]);
                        } else if a == pos {
                            assert(gs[b] == fs[b - 1]);
                            lemma_lex_total(key@, fs[b - 1].key@);
                            assert(fs[b - 1].key@ != key@);
                        } else if a < pos {
                            assert(gs[a] == fs[a]);
                            assert(gs[b] == fs[b - 1]);
                        } else {
                            assert(gs[a] == fs[a - 1]);
                            assert(gs[b] == fs[b - 1]);
                        }
                    }
                }
                lemma_insert(fs, pos as int, f);
                assert forall|i: int| 0 <= i < gs.len() implies feature_wf(#[trigger] gs[i]@) by {
                    if i < pos {
                        assert(gs[i] == fs[i]);
                    } else if i > pos {
                        assert(gs[i] == fs[i - 1]);
                    }
                }
            }
        }
    }
    /// Counts the values of an observation, register by register, and the
    /// observation itself.
    pub fn update(&mut self, obs: &Observation)
        requires
            old(self).wf(),
            old(self).obv_seen < u64::MAX,
            observe_fits(old(self).model(), obs.values_view()),
        ensures
            final(self).wf(),
            final(self).model() == observe_all(old(self).model(), obs.values_view()),
            final(self).obv_seen == old(self).obv_seen + 1,
    {
        let ghost start = self.model();
        let ghost vv = obs.values_view();
        let n = obs.values.len();
        let mut i: usize = 0;
        assert(vv.take(0) == Seq::<RegisterView>::empty());
        while i < n
            invariant
                n == obs.values@.len(),
                vv == obs.values_view(),
                i <= n,
                self.wf(),
                observe_fits(start, vv),
                self.model() == observe_all(start, vv.take(i as int)),
                self.obv_seen == old(self).obv_seen,
                self.obv_seen < u64::MAX,
            decreases n - i,
        {
            let r = &obs.values[i];
            assert(vv[i as int] == r@);
            proof {
                lemma_fits_prefix(start, vv, i + 1);
                assert(vv.take(i + 1).drop_last() == vv.take(i as int));
                assert(vv.take(i + 1).last() == r@);
            }
            self.observe_register(r.key(), r.value());
            assert(vv.take(i + 1).drop_last() == vv.take(i as int));
            i = i + 1;
        }
        assert(vv.take(n as int) == vv);
        self.obv_seen = self.obv_seen + 1;
    }

    /// One decision of the selection loop: stop when asked to, count an
    /// observation that came, and go on otherwise. Returns whether to go on.
    pub fn feature_select_step(&mut self, event: SelectEvent) -> (go_on: bool)
        requires
            old(self).wf(),
            event matches SelectEvent::Received(o) ==> old(self).obv_seen < u64::MAX && observe_fits(
                old(self).model(),
                o.values_view(),
            ),
        ensures
            final(self).wf(),
            match event {
                SelectEvent::Shutdown => !go_on && *final(self) == *old(self),
                SelectEvent::Idle => go_on && *final(self) == *old(self),
                SelectEvent::Received(o) => go_on && final(self).model() == observe_all(
                    old(self).model(),
                    o.values_view(),
                ) && final(self).obv_seen == old(self).obv_seen + 1,
            },
    {
        match event {
            SelectEvent::Shutdown => false,
            SelectEvent::Idle => true,
            SelectEvent::Received(o) => {
                self.update(&o);
                true
            },
        }
    }
}

/// What the selection loop found when it looked: a request to stop, an
/// observation, or nothing yet.
pub enum SelectEvent {
    Shutdown,
    Received(Observation),
    Idle,
}

} // verus!
