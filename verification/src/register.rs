//! Registers and observations: the values of a design's signals at one
//! simulation time.
use vstd::prelude::*;
use crate::text::{lex_lt, lemma_lex_total, lemma_lex_transitive, str_less};

verus! {

/// The value of one signal (a register, named by its identifier code) at one
/// simulation time. `value` is `None` where the signal holds an unknown
/// (`x` or `z`) bit.
#[derive(PartialEq, PartialOrd, Default, Clone, Debug)]
pub struct Register {
    key: String,
    value: Option<u64>,
    time: u64,
}

/// What a register holds, as mathematical values.
pub struct RegisterView {
    pub key: Seq<char>,
    pub value: Option<u64>,
    pub time: u64,
}

impl View for Register {
    type V = RegisterView;

    closed spec fn view(&self) -> RegisterView {
        RegisterView { key: self.key@, value: self.value, time: self.time }
    }
}

impl Register {
    /// A register named `key` that holds `value` at `time`.
    pub fn new(time: u64, key: &str, value: Option<u64>) -> (r: Self)
        ensures
            r@ == (RegisterView { key: key@, value, time }),
    {
        Register { time, key: key.to_owned(), value }
    }

    /// The simulation time of this value.
    pub fn time(&self) -> (t: u64)
        ensures
            t == self@.time,
    {
        self.time
    }

    /// The register's identifier code.
    pub fn key(&self) -> (k: &str)
        ensures
            k@ == self@.key,
    {
        self.key.as_str()
    }

    /// The register's value, `None` where it is unknown.
    pub fn value(&self) -> (v: Option<u64>)
        ensures
            v == self@.value,
    {
        self.value
    }
}

/// The values of the registers that one simulation step reported, and its
/// time.
#[derive(Default, Clone, Debug)]
pub struct Observation {
    pub time: u64,
    pub values: Vec<Register>,
}

impl Observation {
    /// An observation at `time` with no values yet.
    pub fn new(time: u64) -> (o: Self)
        ensures
            o.time == time,
            o.values@.len() == 0,
    {
        Observation { time, values: Vec::new() }
    }

    /// The registers' values, as mathematical values.
    pub open spec fn values_view(&self) -> Seq<RegisterView> {
        registers_view(self.values@)
    }
}

/// The views of a sequence of registers.
pub open spec fn registers_view(s: Seq<Register>) -> Seq<RegisterView> {
    s.map_values(|r: Register| r@)
}

/// No register comes after one with a greater key.
pub open spec fn keys_sorted(s: Seq<RegisterView>) -> bool {
    forall|i: int, j: int| 0 <= i < j < s.len() ==> !lex_lt(#[trigger] s[j].key, #[trigger] s[i].key)
}

/// The registers of `s` that have key `k`, in their order in `s`.
pub open spec fn with_key(s: Seq<RegisterView>, k: Seq<char>) -> Seq<RegisterView>
    decreases s.len(),
{
    if s.len() == 0 {
        Seq::empty()
    } else {
        let p = with_key(s.drop_last(), k);
        if s.last().key == k {
            p.push(s.last())
        } else {
            p
        }
    }
}

/// `out` is `inp` sorted by key, stably: sorted, and for each key the same
/// registers in the same order.
pub open spec fn is_stable_key_sort(out: Seq<RegisterView>, inp: Seq<RegisterView>) -> bool {
    &&& keys_sorted(out)
    &&& forall|k: Seq<char>| #[trigger] with_key(out, k) == with_key(inp, k)
}

/// Selecting by key distributes over concatenation.
pub proof fn lemma_with_key_concat(a: Seq<RegisterView>, b: Seq<RegisterView>, k: Seq<char>)
    ensures
        with_key(a + b, k) == with_key(a, k) + with_key(b, k),
    decreases b.len(),
{
    if b.len() == 0 {
        assert(a + b == a);
        assert(with_key(a, k) + with_key(b, k) == with_key(a, k));
    } else {
        assert((a + b).drop_last() == a + b.drop_last());
        lemma_with_key_concat(a, b.drop_last(), k);
    }
}

/// Where no register has key `k`, none is selected.
pub proof fn lemma_with_key_none(s: Seq<RegisterView>, k: Seq<char>)
    requires
        forall|i: int| 0 <= i < s.len() ==> #[trigger] s[i].key != k,
    ensures
        with_key(s, k) == Seq::<RegisterView>::empty(),
    decreases s.len(),
{
    if s.len() > 0 {
        lemma_with_key_none(s.drop_last(), k);
    }
}

/// Inserts `x` into `out`, which is sorted by key, after every register
/// whose key is not greater than `x`'s.
pub fn insert_sorted(out: &mut Vec<Register>, x: Register)
    requires
        keys_sorted(registers_view(old(out)@)),
    ensures
        keys_sorted(registers_view(final(out)@)),
        forall|k: Seq<char>| #[trigger] with_key(registers_view(final(out)@), k) == with_key(
            registers_view(old(out)@).push(x@),
            k,
        ),
{
    let ghost ov = registers_view(out@);
    let xk = x.key();
    let mut pos: usize = 0;
    while pos < out.len() && !str_less(xk, out[pos].key())
        invariant
            pos <= out@.len(),
            ov == registers_view(out@),
            xk@ == x@.key,
            forall|j: int| 0 <= j < pos ==> !lex_lt(x@.key, #[trigger] ov[j].key),
        decreases out.len() - pos,
    {
        pos = pos + 1;
    }
    let ghost xv = x@;
    out.insert(pos, x);
    let ghost nv = registers_view(out@);
    assert(nv == ov.take(pos as int) + seq![xv] + ov.skip(pos as int));
    assert(keys_sorted(nv)) by {
        assert forall|i: int, j: int| 0 <= i < j < nv.len() implies !lex_lt(
            #[trigger] nv[j].key,
            #[trigger] nv[i].key,
        ) by {
            if j < pos {
                assert(nv[i] == ov[i]);
                assert(nv[j] == ov[j]);
            } else if j == pos {
                assert(nv[i] == ov[i]);
                assert(nv[j] == xv);
            } else if i == pos {
                assert(nv[i] == xv);
                assert(nv[j] == ov[j - 1]);
                assert(lex_lt(xv.key, ov[pos as int].key));
                lemma_lex_total(xv.key, ov[pos as int].key);
                if lex_lt(ov[j - 1].key, xv.key) {
                    lemma_lex_transitive(ov[j - 1].key, xv.key, ov[pos as int].key);
                    lemma_lex_total(ov[j - 1].key, ov[pos as int].key);
                }
            } else if i < pos {
                assert(nv[i] == ov[i]);
                assert(nv[j] == ov[j - 1]);
            } else {
                assert(nv[i] == ov[i - 1]);
                assert(nv[j] == ov[j - 1]);
            }
        }
    }
    assert forall|k: Seq<char>| #[trigger] with_key(nv, k) == with_key(ov.push(xv), k) by {
        let a = ov.take(pos as int);
        let b = ov.skip(pos as int);
        assert(ov == a + b);
        lemma_with_key_concat(a, b, k);
        lemma_with_key_concat(a + seq![xv], b, k);
        lemma_with_key_concat(a, seq![xv], k);
        assert(seq![xv].drop_last() == Seq::<RegisterView>::empty());
        lemma_with_key_concat(ov, seq![xv], k);
        assert(ov + seq![xv] == ov.push(xv));
        if k == xv.key {
            assert forall|i: int| 0 <= i < b.len() implies #[trigger] b[i].key != k by {
                assert(b[i] == ov[pos + i]);
                if i > 0 {
                    assert(!lex_lt(ov[pos + i].key, ov[pos as int].key));
                }
                lemma_lex_total(xv.key, ov[pos as int].key);
            }
            lemma_with_key_none(b, k);
        } else {
            lemma_with_key_none(seq![xv], k);
        }
    }
}


/// A register with key `k` is selected exactly where `s` has one.
pub proof fn lemma_with_key_has(s: Seq<RegisterView>, k: Seq<char>)
    ensures
        with_key(s, k).len() > 0 <==> exists|i: int| 0 <= i < s.len() && (#[trigger] s[i]).key == k,
    decreases s.len(),
{
    if s.len() > 0 {
        lemma_with_key_has(s.drop_last(), k);
        if exists|i: int| 0 <= i < s.len() && (#[trigger] s[i]).key == k {
            let i = choose|i: int| 0 <= i < s.len() && (#[trigger] s[i]).key == k;
            if i < s.len() - 1 {
                assert(s.drop_last()[i] == s[i]);
            }
        }
        if exists|i: int| 0 <= i < s.drop_last().len() && (#[trigger] s.drop_last()[i]).key == k {
            let i = choose|i: int| 0 <= i < s.drop_last().len() && (#[trigger] s.drop_last()[i]).key == k;
            assert(s[i] == s.drop_last()[i]);
        }
    }
}

/// The stable sort by key is unique: two orderings of the same registers
/// that are both sorted by key, and keep for each key the same order, are
/// the same. So `is_stable_key_sort` pins down the result of a stable sort.
pub proof fn lemma_stable_sort_unique(a: Seq<RegisterView>, b: Seq<RegisterView>, inp: Seq<RegisterView>)
    requires
        is_stable_key_sort(a, inp),
        is_stable_key_sort(b, inp),
    ensures
        a == b,
{
    lemma_sorted_same_groups_equal(a, b);
}

proof fn lemma_sorted_same_groups_equal(a: Seq<RegisterView>, b: Seq<RegisterView>)
    requires
        keys_sorted(a),
        keys_sorted(b),
        forall|k: Seq<char>| #[trigger] with_key(a, k) == with_key(b, k),
    ensures
        a == b,
    decreases a.len() + b.len(),
{
    if a.len() == 0 && b.len() == 0 {
        assert(a == b);
    } else if a.len() == 0 {
        let k = b.last().key;
        lemma_with_key_has(b, k);
        assert(b[b.len() - 1].key == k);
        lemma_with_key_has(a, k);
    } else if b.len() == 0 {
        let k = a.last().key;
        lemma_with_key_has(a, k);
        assert(a[a.len() - 1].key == k);
        lemma_with_key_has(b, k);
    } else {
        let ka = a.last().key;
        let kb = b.last().key;
        lemma_with_key_has(a, ka);
        lemma_with_key_has(b, ka);
        lemma_with_key_has(a, kb);
        lemma_with_key_has(b, kb);
        assert(a[a.len() - 1].key == ka);
        assert(b[b.len() - 1].key == kb);
        let i = choose|i: int| 0 <= i < b.len() && (#[trigger] b[i]).key == ka;
        let j = choose|j: int| 0 <= j < a.len() && (#[trigger] a[j]).key == kb;
        if i < b.len() - 1 {
            assert(!lex_lt(b[b.len() - 1].key, b[i].key));
        }
        if j < a.len() - 1 {
            assert(!lex_lt(a[a.len() - 1].key, a[j].key));
        }
        lemma_lex_total(ka, kb);
        assert(ka == kb);
        assert(a.last() == with_key(a, ka).last());
        assert(b.last() == with_key(b, ka).last());
        let a2 = a.drop_last();
        let b2 = b.drop_last();
        assert forall|k: Seq<char>| #[trigger] with_key(a2, k) == with_key(b2, k) by {
            assert(with_key(a, k) == with_key(b, k));
            if k == ka {
                assert(with_key(a, k) == with_key(a2, k).push(a.last()));
                assert(with_key(b, k) == with_key(b2, k).push(b.last()));
                assert(with_key(a2, k) == with_key(a, k).drop_last());
                assert(with_key(b2, k) == with_key(b, k).drop_last());
            }
        }
        assert(keys_sorted(a2)) by {
            assert forall|x: int, y: int| 0 <= x < y < a2.len() implies !lex_lt(
                #[trigger] a2[y].key,
                #[trigger] a2[x].key,
            ) by {
                assert(a2[x] == a[x] && a2[y] == a[y]);
            }
        }
        assert(keys_sorted(b2)) by {
            assert forall|x: int, y: int| 0 <= x < y < b2.len() implies !lex_lt(
                #[trigger] b2[y].key,
                #[trigger] b2[x].key,
            ) by {
                assert(b2[x] == b[x] && b2[y] == b[y]);
            }
        }
        lemma_sorted_same_groups_equal(a2, b2);
        assert(a == a2.push(a.last()));
        assert(b == b2.push(b.last()));
    }
}


/// Every register selected by key is a register of the sequence.
pub proof fn lemma_with_key_members(s: Seq<RegisterView>, k: Seq<char>)
    ensures
        forall|i: int| 0 <= i < with_key(s, k).len() ==> s.contains(#[trigger] with_key(s, k)[i]),
    decreases s.len(),
{
    if s.len() > 0 {
        let t = s.drop_last();
        lemma_with_key_members(t, k);
        assert forall|i: int| 0 <= i < with_key(s, k).len() implies s.contains(#[trigger] with_key(s, k)[i]) by {
            if i < with_key(t, k).len() {
                assert(with_key(s, k)[i] == with_key(t, k)[i]);
                let j = choose|j: int| 0 <= j < t.len() && t[j] == with_key(t, k)[i];
                assert(s[j] == t[j]);
            } else {
                assert(with_key(s, k)[i] == s.last());
                assert(s[s.len() - 1] == s.last());
            }
        }
    }
}

/// A stable sort by key only reorders: each register of the result is one of
/// the input.
pub proof fn lemma_stable_sort_members(out: Seq<RegisterView>, inp: Seq<RegisterView>)
    requires
        is_stable_key_sort(out, inp),
    ensures
        forall|i: int| 0 <= i < out.len() ==> inp.contains(#[trigger] out[i]),
{
    assert forall|i: int| 0 <= i < out.len() implies inp.contains(#[trigger] out[i]) by {
        let k = out[i].key;
        lemma_with_key_index(out, i);
        lemma_with_key_members(inp, k);
        let j = choose|j: int| 0 <= j < with_key(out, k).len() && with_key(out, k)[j] == out[i];
        assert(with_key(out, k) == with_key(inp, k));
    }
}

/// A register is among those selected by its own key.
proof fn lemma_with_key_index(s: Seq<RegisterView>, i: int)
    requires
        0 <= i < s.len(),
    ensures
        exists|j: int| 0 <= j < with_key(s, s[i].key).len() && with_key(s, s[i].key)[j] == s[i],
    decreases s.len(),
{
    let k = s[i].key;
    if i == s.len() - 1 {
        assert(with_key(s, k)[with_key(s, k).len() - 1] == s[i]);
    } else {
        let t = s.drop_last();
        assert(t[i] == s[i]);
        lemma_with_key_index(t, i);
        let j = choose|j: int| 0 <= j < with_key(t, k).len() && with_key(t, k)[j] == t[i];
        assert(with_key(s, k)[j] == with_key(t, k)[j]);
    }
}

} // verus!
