//! The running counts that are kept of one signal: how often it was seen
//! with a known value, how often and by how many bits it changed, and how
//! often each value occurred.
use vstd::prelude::*;
use std::collections::HashMap;
use crate::text::{count_ones, ones};

verus! {

broadcast use vstd::std_specs::hash::group_hash_axioms;

/// The counts kept of one signal, named by its identifier code.
#[derive(Debug)]
pub struct FeatureState {
    pub key: String,
    /// The number of known values seen.
    pub n: u64,
    /// The last known value seen.
    pub last_value: Option<u64>,
    /// The number of times a known value differed from the one before it.
    pub toggle_count: u64,
    /// The number of bits by which those values differed, summed.
    pub ham_toggles: u64,
    /// How often each known value was seen.
    pub value_counts: HashMap<u64, u64>,
}

/// The counts of a signal, as mathematical values.
pub struct FeatureView {
    pub key: Seq<char>,
    pub n: u64,
    pub last_value: Option<u64>,
    pub toggle_count: u64,
    pub ham_toggles: u64,
    pub counts: Map<u64, u64>,
}

impl View for FeatureState {
    type V = FeatureView;

    open spec fn view(&self) -> FeatureView {
        FeatureView {
            key: self.key@,
            n: self.n,
            last_value: self.last_value,
            toggle_count: self.toggle_count,
            ham_toggles: self.ham_toggles,
            counts: self.value_counts@,
        }
    }
}

/// The counts of a signal not seen yet.
pub open spec fn fresh_feature(key: Seq<char>) -> FeatureView {
    FeatureView {
        key,
        n: 0,
        last_value: None,
        toggle_count: 0,
        ham_toggles: 0,
        counts: Map::empty(),
    }
}

/// Whether the known value `v` differs from the last one seen.
pub open spec fn toggles(f: FeatureView, v: u64) -> bool {
    f.last_value matches Some(o) && o != v
}

/// The number of bits by which `v` differs from the last value seen.
pub open spec fn flipped_bits(f: FeatureView, v: u64) -> nat {
    match f.last_value {
        Some(o) => ones((o ^ v) as nat),
        None => 0,
    }
}

/// The counts after seeing `value`: an unknown value changes nothing; a
/// known one is counted, becomes the last value, and where it differs from
/// the last one counts as a toggle of as many bits as differ.
pub open spec fn feature_step(f: FeatureView, value: Option<u64>) -> FeatureView {
    match value {
        None => f,
        Some(v) => FeatureView {
            key: f.key,
            n: (f.n + 1) as u64,
            last_value: Some(v),
            toggle_count: if toggles(f, v) {
                (f.toggle_count + 1) as u64
            } else {
                f.toggle_count
            },
            ham_toggles: if toggles(f, v) {
                (f.ham_toggles + flipped_bits(f, v)) as u64
            } else {
                f.ham_toggles
            },
            counts: f.counts.insert(
                v,
                if f.counts.contains_key(v) {
                    (f.counts[v] + 1) as u64
                } else {
                    1
                },
            ),
        },
    }
}

/// The counts after seeing the values `vs` in order.
pub open spec fn feature_steps(f: FeatureView, vs: Seq<Option<u64>>) -> FeatureView
    decreases vs.len(),
{
    if vs.len() == 0 {
        f
    } else {
        feature_step(feature_steps(f, vs.drop_last()), vs.last())
    }
}

/// Whether seeing `value` keeps every count within a `u64`.
pub open spec fn step_fits(f: FeatureView, value: Option<u64>) -> bool {
    value matches Some(v) ==> {
        &&& f.n < u64::MAX
        &&& f.counts.contains_key(v) ==> f.counts[v] < u64::MAX
        &&& toggles(f, v) ==> f.toggle_count < u64::MAX && f.ham_toggles + flipped_bits(f, v)
            <= u64::MAX
    }
}

/// The relations that the counts of a signal keep: the counts are empty
/// exactly while no known value was seen; a toggle needs a value before it,
/// so there are fewer toggles than values (none before the first value),
/// and each changes at least one and at most 64 bits; each value seen is counted
/// at least once and at most `n` times; the last value seen is counted.
pub open spec fn feature_wf(f: FeatureView) -> bool {
    &&& (f.n == 0 <==> f.last_value is None)
    &&& (f.n == 0 ==> f.counts.dom().is_empty())
    &&& f.counts.dom().finite()
    &&& f.toggle_count <= f.ham_toggles <= 64 * f.toggle_count
    &&& (f.n > 0 ==> f.toggle_count < f.n)
    &&& (f.n == 0 ==> f.toggle_count == 0)
    &&& forall|v: u64| #[trigger] f.counts.contains_key(v) ==> 1 <= f.counts[v] <= f.n
    &&& (f.last_value matches Some(v) ==> f.counts.contains_key(v))
}

/// A value that is not zero has a one bit.
proof fn lemma_ones_positive(x: nat)
    requires
        x != 0,
    ensures
        ones(x) >= 1,
    decreases x,
{
    if x % 2 == 0 {
        lemma_ones_positive(x / 2);
    }
}

/// Seeing a value, where the counts fit, keeps the relations between them.
pub proof fn lemma_step_keeps_wf(f: FeatureView, value: Option<u64>)
    requires
        feature_wf(f),
        step_fits(f, value),
    ensures
        feature_wf(feature_step(f, value)),
{
    if let Some(v) = value {
        let g = feature_step(f, value);
        if toggles(f, v) {
            let o = f.last_value.unwrap();
            assert(o ^ v != 0u64) by (bit_vector)
                requires
                    o != v,
            ;
            lemma_ones_positive((o ^ v) as nat);
            assert(ones((o ^ v) as nat) <= 64) by {
                vstd::arithmetic::power2::lemma2_to64();
                crate::text::lemma_ones_bound((o ^ v) as nat, 64);
            }
        }
        assert forall|w: u64| #[trigger] g.counts.contains_key(w) implies 1 <= g.counts[w] <= g.n by {
            if w != v {
                assert(f.counts.contains_key(w));
            }
        }
        assert(g.counts.dom().contains(v));
        assert(g.counts.dom() == f.counts.dom().insert(v));
        assert(g.counts.dom().finite());
        assert(g.n == 0 <==> g.last_value is None);
        assert(g.n == 0 ==> g.counts.dom().is_empty());
        assert(g.toggle_count <= g.ham_toggles);
        assert(g.ham_toggles <= 64 * g.toggle_count);
        assert(g.n > 0 ==> g.toggle_count < g.n);
    }
}

/// The bound under which counting one more known value always fits: each
/// toggle adds at most 64 to `ham_toggles`, which then stays within a `u64`.
pub const COUNT_LIMIT: u64 = 0x03FF_FFFF_FFFF_FFFF;

/// Below `COUNT_LIMIT`, seeing any value keeps the counts within a `u64`.
pub proof fn lemma_fits_below_limit(f: FeatureView, value: Option<u64>)
    requires
        feature_wf(f),
        f.n < COUNT_LIMIT,
    ensures
        step_fits(f, value),
{
    if let Some(v) = value {
        if let Some(o) = f.last_value {
            vstd::arithmetic::power2::lemma2_to64();
            crate::text::lemma_ones_bound((o ^ v) as nat, 64);
        }
    }
}

impl FeatureState {
    /// The counts of signal `key`, not seen yet.
    pub fn new(key: String) -> (f: Self)
        ensures
            f@ == fresh_feature(key@),
            feature_wf(f@),
    {
        FeatureState {
            key,
            n: 0,
            last_value: None,
            toggle_count: 0,
            ham_toggles: 0,
            value_counts: HashMap::new(),
        }
    }

    /// Counts `value`: see `feature_step`.
    pub fn update(&mut self, value: Option<u64>)
        requires
            step_fits(old(self)@, value),
        ensures
            final(self)@ == feature_step(old(self)@, value),
            feature_wf(old(self)@) ==> feature_wf(final(self)@),
    {
        proof {
            if feature_wf(self@) {
                lemma_step_keeps_wf(self@, value);
            }
        }
        if let Some(v) = value {
            if let Some(o) = self.last_value {
                if v != o {
                    let bits = count_ones(o ^ v);
                    self.toggle_count = self.toggle_count + 1;
                    self.ham_toggles = self.ham_toggles + bits;
                }
            }
            let c: u64 = match self.value_counts.get(&v) {
                Some(c) => *c,
                None => 0,
            };
            self.value_counts.insert(v, c + 1);
            self.last_value = Some(v);
            self.n = self.n + 1;
        }
    }
}


/// The number of known values in `vs`.
pub open spec fn known_count(vs: Seq<Option<u64>>) -> nat
    decreases vs.len(),
{
    if vs.len() == 0 {
        0
    } else {
        known_count(vs.drop_last()) + if vs.last() is Some {
            1nat
        } else {
            0nat
        }
    }
}

/// The number of times `v` occurs in `vs`.
pub open spec fn occurrences(vs: Seq<Option<u64>>, v: u64) -> nat
    decreases vs.len(),
{
    if vs.len() == 0 {
        0
    } else {
        occurrences(vs.drop_last(), v) + if vs.last() == Some(v) {
            1nat
        } else {
            0nat
        }
    }
}

/// The last known value of `vs`.
pub open spec fn last_known(vs: Seq<Option<u64>>) -> Option<u64>
    decreases vs.len(),
{
    if vs.len() == 0 {
        None
    } else if vs.last() is Some {
        vs.last()
    } else {
        last_known(vs.drop_last())
    }
}

/// Counting from fresh counts, `n` is the number of known values seen, the
/// count of each value the number of times it was seen (values never seen
/// have none), and the last value the last known one.
pub proof fn lemma_counts_from_fresh(key: Seq<char>, vs: Seq<Option<u64>>)
    requires
        known_count(vs) <= u64::MAX,
    ensures
        feature_steps(fresh_feature(key), vs).n == known_count(vs),
        feature_steps(fresh_feature(key), vs).last_value == last_known(vs),
        forall|v: u64|
            (#[trigger] feature_steps(fresh_feature(key), vs).counts.contains_key(v) <==> occurrences(vs, v) > 0),
        forall|v: u64|
            #[trigger] feature_steps(fresh_feature(key), vs).counts.contains_key(v) ==> feature_steps(
                fresh_feature(key),
                vs,
            ).counts[v] == occurrences(vs, v),
    decreases vs.len(),
{
    if vs.len() > 0 {
        let ws = vs.drop_last();
        lemma_occurrences_bound(ws);
        lemma_counts_from_fresh(key, ws);
        let f = feature_steps(fresh_feature(key), ws);
        let g = feature_steps(fresh_feature(key), vs);
        assert(g == feature_step(f, vs.last()));
        if let Some(x) = vs.last() {
            assert(forall|v: u64| occurrences(ws, v) <= known_count(ws));
            assert forall|v: u64| #[trigger] g.counts.contains_key(v) <==> occurrences(vs, v) > 0 by {
                if v != x {
                    assert(g.counts.contains_key(v) == f.counts.contains_key(v));
                }
            }
        } else {
            assert forall|v: u64| #[trigger] g.counts.contains_key(v) <==> occurrences(vs, v) > 0 by {
                assert(occurrences(vs, v) == occurrences(ws, v));
            }
        }
    }
}

/// No value occurs more often than there are known values.
pub proof fn lemma_occurrences_bound(vs: Seq<Option<u64>>)
    ensures
        forall|v: u64| #[trigger] occurrences(vs, v) <= known_count(vs),
    decreases vs.len(),
{
    if vs.len() > 0 {
        lemma_occurrences_bound(vs.drop_last());
        assert forall|v: u64| #[trigger] occurrences(vs, v) <= known_count(vs) by {
            assert(occurrences(vs.drop_last(), v) <= known_count(vs.drop_last()));
        }
    }
}


/// The known values of `vs`, in order.
pub open spec fn known_values(vs: Seq<Option<u64>>) -> Seq<u64>
    decreases vs.len(),
{
    if vs.len() == 0 {
        Seq::empty()
    } else {
        match vs.last() {
            Some(v) => known_values(vs.drop_last()).push(v),
            None => known_values(vs.drop_last()),
        }
    }
}

/// The number of places where a value of `s` differs from the one before it.
pub open spec fn change_count(s: Seq<u64>) -> nat
    decreases s.len(),
{
    if s.len() < 2 {
        0
    } else {
        change_count(s.drop_last()) + if s[s.len() - 2] != s.last() {
            1nat
        } else {
            0nat
        }
    }
}

/// The number of bits by which each value of `s` differs from the one before
/// it, summed.
pub open spec fn flip_sum(s: Seq<u64>) -> nat
    decreases s.len(),
{
    if s.len() < 2 {
        0
    } else {
        flip_sum(s.drop_last()) + ones((s[s.len() - 2] ^ s.last()) as nat)
    }
}

/// The last known value is the last of the known values.
proof fn lemma_last_known(vs: Seq<Option<u64>>)
    ensures
        last_known(vs) == (if known_values(vs).len() == 0 {
            None
        } else {
            Some(known_values(vs).last())
        }),
    decreases vs.len(),
{
    if vs.len() > 0 {
        lemma_last_known(vs.drop_last());
    }
}

/// Counting from fresh counts, the key stays, `toggle_count` is the number of
/// changes between consecutive known values, and `ham_toggles` the number of
/// bits that those changes flip, summed; so there are no more toggles than
/// flipped bits.
pub proof fn lemma_toggles_from_fresh(key: Seq<char>, vs: Seq<Option<u64>>)
    requires
        known_count(vs) <= u64::MAX,
        flip_sum(known_values(vs)) <= u64::MAX,
    ensures
        feature_steps(fresh_feature(key), vs).key == key,
        feature_steps(fresh_feature(key), vs).toggle_count == change_count(known_values(vs)),
        feature_steps(fresh_feature(key), vs).ham_toggles == flip_sum(known_values(vs)),
        change_count(known_values(vs)) <= flip_sum(known_values(vs)),
    decreases vs.len(),
{
    if vs.len() > 0 {
        let ws = vs.drop_last();
        let kw = known_values(ws);
        lemma_known_bound(ws);
        lemma_known_bound(vs);
        match vs.last() {
            None => {
                lemma_toggles_from_fresh(key, ws);
            },
            Some(v) => {
                let kv = known_values(vs);
                assert(kv == kw.push(v));
                assert(kv.drop_last() == kw);
                assert(flip_sum(kw) <= flip_sum(kv)) by {
                    if kw.len() >= 1 {
                        assert(kv[kv.len() - 2] == kw.last());
                    }
                }
                lemma_toggles_from_fresh(key, ws);
                lemma_counts_from_fresh(key, ws);
                lemma_last_known(ws);
                if kw.len() >= 1 {
                    assert(kv[kv.len() - 2] == kw.last());
                    let o = kw.last();
                    if o != v {
                        assert(o ^ v != 0u64) by (bit_vector)
                            requires
                                o != v,
                        ;
                        lemma_ones_positive((o ^ v) as nat);
                    } else {
                        assert(o ^ v == 0u64) by (bit_vector)
                            requires
                                o == v,
                        ;
                    }
                    assert(flip_sum(kv) == flip_sum(kw) + ones((o ^ v) as nat));
                }
            },
        }
    }
}

/// There are as many known values as `known_count` says, and no more changes
/// than known values.
proof fn lemma_known_bound(vs: Seq<Option<u64>>)
    ensures
        known_values(vs).len() == known_count(vs),
        change_count(known_values(vs)) <= known_count(vs),
    decreases vs.len(),
{
    if vs.len() > 0 {
        lemma_known_bound(vs.drop_last());
        if let Some(v) = vs.last() {
            assert(known_values(vs).drop_last() == known_values(vs.drop_last()));
        }
    }
}


/// Counting never changes the key.
pub proof fn lemma_steps_keep_key(f: FeatureView, vs: Seq<Option<u64>>)
    ensures
        feature_steps(f, vs).key == f.key,
    decreases vs.len(),
{
    if vs.len() > 0 {
        lemma_steps_keep_key(f, vs.drop_last());
    }
}

} // verus!
