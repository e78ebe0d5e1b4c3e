//! The generic self-describing value tree — byte strings, integers, lists and
//! dictionaries — with dictionary keys kept in canonical lexicographic order.

use vstd::prelude::*;

verus! {

/// A generic value as the serialization layer exchanges it: a byte string,
/// an integer, a list of values, or a dictionary keyed by byte strings.
#[derive(Debug, PartialEq)]
pub enum Value {
    Bytes(Vec<u8>),
    Int(i64),
    List(Vec<Value>),
    Dict(Dict),
}

/// A dictionary keyed by byte strings. The entries are kept sorted by
/// strictly increasing key, the canonical order the wire format requires,
/// so each key occurs at most once.
#[derive(Debug, PartialEq)]
pub struct Dict {
    /// The entries, exposed so that specifications and renderers can read
    /// them; the sorted-key invariant is the `wf` predicate below.
    pub entries: Vec<(Vec<u8>, Value)>,
}

/// Strict lexicographic order on byte strings: a proper prefix comes first,
/// otherwise the first differing byte decides.
pub open spec fn lex_lt(a: Seq<u8>, b: Seq<u8>) -> bool
    decreases a.len(),
{
    if b.len() == 0 {
        false
    } else if a.len() == 0 {
        true
    } else if a[0] < b[0] {
        true
    } else if a[0] > b[0] {
        false
    } else {
        lex_lt(a.drop_first(), b.drop_first())
    }
}

/// Of two byte strings, exactly one of the three holds: left first, right
/// first, or equal.
pub proof fn lemma_lex_trichotomy(a: Seq<u8>, b: Seq<u8>)
    ensures
        lex_lt(a, b) || lex_lt(b, a) || a == b,
        lex_lt(a, b) ==> !lex_lt(b, a) && a != b,
        lex_lt(b, a) ==> !lex_lt(a, b) && a != b,
    decreases a.len() + b.len(),
{
    if a.len() == 0 && b.len() == 0 {
        assert(a =~= b);
    } else if a.len() == 0 || b.len() == 0 {
    } else if a[0] != b[0] {
    } else {
        let ta = a.drop_first();
        let tb = b.drop_first();
        lemma_lex_trichotomy(ta, tb);
        if !lex_lt(ta, tb) && !lex_lt(tb, ta) {
            assert(ta == tb);
            assert forall|i: int| 0 <= i < a.len() implies a[i] == b[i] by {
                if i >= 1 {
                    assert(a[i] == ta[i - 1]);
                    assert(b[i] == tb[i - 1]);
                }
            }
            assert(a =~= b);
        } else {
            assert(a != b) by {
                if a == b {
                    assert(ta =~= tb);
                }
            }
        }
    }
}

/// The lexicographic order is transitive.
pub proof fn lemma_lex_transitive(a: Seq<u8>, b: Seq<u8>, c: Seq<u8>)
    requires
        lex_lt(a, b),
        lex_lt(b, c),
    ensures
        lex_lt(a, c),
    decreases a.len() + b.len() + c.len(),
{
    if a.len() == 0 {
    } else {
        if a[0] == b[0] && b[0] == c[0] {
            lemma_lex_transitive(a.drop_first(), b.drop_first(), c.drop_first());
        }
    }
}

/// Skipping an equal prefix does not change the order.
pub proof fn lemma_lex_skip(a: Seq<u8>, b: Seq<u8>, i: int)
    requires
        0 <= i <= a.len(),
        i <= b.len(),
        forall|j: int| 0 <= j < i ==> a[j] == b[j],
    ensures
        lex_lt(a, b) == lex_lt(a.skip(i), b.skip(i)),
    decreases i,
{
    if i > 0 {
        let ta = a.drop_first();
        let tb = b.drop_first();
        assert(a[0] == b[0]);
        if a.len() > 0 && b.len() > 0 {
            assert(lex_lt(a, b) == lex_lt(ta, tb));
        }
        assert(forall|j: int| 0 <= j < i - 1 ==> ta[j] == #[trigger] tb[j]);
        lemma_lex_skip(ta, tb, i - 1);
        assert(ta.skip(i - 1) =~= a.skip(i));
        assert(tb.skip(i - 1) =~= b.skip(i));
    } else {
        assert(a.skip(0) =~= a);
        assert(b.skip(0) =~= b);
    }
}

/// Dictionary entries stand in strictly increasing key order.
pub open spec fn sorted_keys(es: Seq<(Seq<u8>, Value)>) -> bool {
    forall|i: int, j: int|
        0 <= i < j < es.len() ==> lex_lt(#[trigger] es[i].0, #[trigger] es[j].0)
}

/// The value under a key, scanning the entries in order.
pub open spec fn model_get(es: Seq<(Seq<u8>, Value)>, k: Seq<u8>) -> Option<Value>
    decreases es.len(),
{
    if es.len() == 0 {
        None
    } else if es[0].0 == k {
        Some(es[0].1)
    } else {
        model_get(es.drop_first(), k)
    }
}

/// The entries with `v` bound under `k`: the pair is placed at its ordered
/// position, replacing an entry whose key equals `k`.
pub open spec fn model_insert(es: Seq<(Seq<u8>, Value)>, k: Seq<u8>, v: Value) -> Seq<
    (Seq<u8>, Value),
>
    decreases es.len(),
{
    if es.len() == 0 {
        seq![(k, v)]
    } else if lex_lt(k, es[0].0) {
        seq![(k, v)] + es
    } else if k == es[0].0 {
        seq![(k, v)] + es.drop_first()
    } else {
        seq![es[0]] + model_insert(es.drop_first(), k, v)
    }
}

/// The entries without the entry under `k`, if any.
pub open spec fn model_remove(es: Seq<(Seq<u8>, Value)>, k: Seq<u8>) -> Seq<(Seq<u8>, Value)>
    decreases es.len(),
{
    if es.len() == 0 {
        es
    } else if es[0].0 == k {
        es.drop_first()
    } else {
        seq![es[0]] + model_remove(es.drop_first(), k)
    }
}

/// Looking up a key absent from the first `i` entries is looking it up past
/// them.
pub proof fn lemma_get_skip(es: Seq<(Seq<u8>, Value)>, k: Seq<u8>, i: int)
    requires
        0 <= i <= es.len(),
        forall|j: int| 0 <= j < i ==> (#[trigger] es[j].0) != k,
    ensures
        model_get(es, k) == model_get(es.skip(i), k),
    decreases i,
{
    if i > 0 {
        assert(es[0].0 != k);
        lemma_get_skip(es.drop_first(), k, i - 1);
        assert(es.drop_first().skip(i - 1) =~= es.skip(i));
    } else {
        assert(es.skip(0) =~= es);
    }
}

/// When no entry holds the key, removal changes nothing.
pub proof fn lemma_remove_absent(es: Seq<(Seq<u8>, Value)>, k: Seq<u8>)
    requires
        forall|j: int| 0 <= j < es.len() ==> (#[trigger] es[j].0) != k,
    ensures
        model_remove(es, k) == es,
    decreases es.len(),
{
    if es.len() > 0 {
        lemma_remove_absent(es.drop_first(), k);
        assert(seq![es[0]] + es.drop_first() =~= es);
    }
}

/// When entry `i` is the first holding the key, removal deletes exactly it.
pub proof fn lemma_remove_at(es: Seq<(Seq<u8>, Value)>, k: Seq<u8>, i: int)
    requires
        0 <= i < es.len(),
        es[i].0 == k,
        forall|j: int| 0 <= j < i ==> (#[trigger] es[j].0) != k,
    ensures
        model_remove(es, k) == es.take(i) + es.skip(i + 1),
    decreases i,
{
    if i == 0 {
        assert(es.drop_first() =~= es.take(0) + es.skip(1));
    } else {
        let t = es.drop_first();
        assert(forall|j: int| 0 <= j < i - 1 ==> (#[trigger] t[j].0) != k);
        lemma_remove_at(t, k, i - 1);
        assert(seq![es[0]] + (t.take(i - 1) + t.skip(i)) =~= es.take(i) + es.skip(i + 1));
    }
}

/// Inserting at the position the order dictates: the result is the entries
/// split there with the new pair between, dropping an entry whose key is
/// equal; and the result is again sorted.
pub proof fn lemma_insert_split(es: Seq<(Seq<u8>, Value)>, k: Seq<u8>, v: Value, pos: int)
    requires
        sorted_keys(es),
        0 <= pos <= es.len(),
        forall|j: int| 0 <= j < pos ==> lex_lt(#[trigger] es[j].0, k),
        pos < es.len() ==> !lex_lt(es[pos].0, k),
    ensures
        pos < es.len() && es[pos].0 == k ==> model_insert(es, k, v) == es.take(pos) + seq![(k, v)]
            + es.skip(pos + 1),
        !(pos < es.len() && es[pos].0 == k) ==> model_insert(es, k, v) == es.take(pos) + seq![
            (k, v),
        ] + es.skip(pos),
        sorted_keys(model_insert(es, k, v)),
    decreases es.len(),
{
    if pos == 0 {
        if es.len() == 0 {
            assert(model_insert(es, k, v) =~= es.take(0) + seq![(k, v)] + es.skip(0));
            assert(sorted_keys(model_insert(es, k, v)));
        } else {
            lemma_lex_trichotomy(k, es[0].0);
            if es[0].0 == k {
                assert(seq![(k, v)] + es.drop_first() =~= es.take(0) + seq![(k, v)] + es.skip(1));
                let m = model_insert(es, k, v);
                assert forall|i: int, j: int| 0 <= i < j < m.len() implies lex_lt(
                    (#[trigger] m[i]).0,
                    (#[trigger] m[j]).0,
                ) by {
                    assert(m[j] == es[j]);
                    if i > 0 {
                        assert(m[i] == es[i]);
                    } else {
                        assert(m[0].0 == es[0].0);
                    }
                }
            } else {
                assert(lex_lt(k, es[0].0));
                assert(seq![(k, v)] + es =~= es.take(0) + seq![(k, v)] + es.skip(0));
                let m = model_insert(es, k, v);
                assert forall|i: int, j: int| 0 <= i < j < m.len() implies lex_lt(
                    (#[trigger] m[i]).0,
                    (#[trigger] m[j]).0,
                ) by {
                    assert(m[j] == es[j - 1]);
                    if i > 0 {
                        assert(m[i] == es[i - 1]);
                    } else {
                        if j - 1 > 0 {
                            lemma_lex_transitive(k, es[0].0, es[j - 1].0);
                        }
                    }
                }
            }
        }
    } else {
        let t = es.drop_first();
        assert(lex_lt(es[0].0, k));
        lemma_lex_trichotomy(k, es[0].0);
        assert(!lex_lt(k, es[0].0) && k != es[0].0);
        assert(forall|i: int| 0 <= i < t.len() ==> #[trigger] t[i] == es[i + 1]);
        assert(forall|i: int, j: int|
            0 <= i < j < t.len() ==> lex_lt(#[trigger] t[i].0, #[trigger] t[j].0));
        assert(forall|j: int| 0 <= j < pos - 1 ==> lex_lt(#[trigger] t[j].0, k));
        lemma_insert_split(t, k, v, pos - 1);
        let m = model_insert(es, k, v);
        let mt = model_insert(t, k, v);
        assert(m == seq![es[0]] + mt);
        if pos < es.len() && es[pos].0 == k {
            assert(t[pos - 1].0 == k);
            assert(seq![es[0]] + (t.take(pos - 1) + seq![(k, v)] + t.skip(pos)) =~= es.take(pos)
                + seq![(k, v)] + es.skip(pos + 1));
        } else {
            assert(seq![es[0]] + (t.take(pos - 1) + seq![(k, v)] + t.skip(pos - 1)) =~= es.take(
                pos,
            ) + seq![(k, v)] + es.skip(pos));
        }
        // Sortedness: the head key precedes the new key and, through the
        // order already present, every later key.
        assert forall|i: int, j: int| 0 <= i < j < m.len() implies lex_lt(
            (#[trigger] m[i]).0,
            (#[trigger] m[j]).0,
        ) by {
            if i > 0 {
                assert(m[i] == mt[i - 1] && m[j] == mt[j - 1]);
            } else {
                assert(m[0] == es[0]);
                assert(m[j] == mt[j - 1]);
                if mt[j - 1].0 == k {
                    assert(lex_lt(es[0].0, k));
                } else {
                    // Every other key of the inserted tail is a key of the
                    // tail itself, which the head precedes.
                    let n = t.len() as int;
                    if pos - 1 < n && t[pos - 1].0 == k {
                        if j - 1 < pos - 1 {
                            assert(mt[j - 1] == t[j - 1]);
                            assert(lex_lt(es[0].0, es[j].0));
                        } else if j - 1 == pos - 1 {
                            assert(mt[j - 1].0 == k);
                        } else {
                            assert(mt[j - 1] == t[j - 1]);
                            assert(lex_lt(es[0].0, es[j].0));
                        }
                    } else {
                        if j - 1 < pos - 1 {
                            assert(mt[j - 1] == t[j - 1]);
                            assert(lex_lt(es[0].0, es[j].0));
                        } else if j - 1 == pos - 1 {
                            assert(mt[j - 1].0 == k);
                        } else {
                            assert(mt[j - 1] == t[j - 2]);
                            assert(lex_lt(es[0].0, es[j - 1].0));
                        }
                    }
                }
            }
        }
    }
}

/// Law: binding a fresh key and then removing it restores the entries, and
/// the binding is found while it is there.
pub proof fn lemma_insert_then_remove(es: Seq<(Seq<u8>, Value)>, k: Seq<u8>, v: Value)
    requires
        model_get(es, k) is None,
    ensures
        model_get(model_insert(es, k, v), k) == Some(v),
        model_remove(model_insert(es, k, v), k) == es,
    decreases es.len(),
{
    if es.len() == 0 {
        assert(model_insert(es, k, v) == seq![(k, v)]);
        assert(model_remove(seq![(k, v)], k) =~= es);
    } else if lex_lt(k, es[0].0) {
        let m = seq![(k, v)] + es;
        assert(m[0].0 == k);
        assert(m.drop_first() =~= es);
    } else if k == es[0].0 {
        assert(false);
    } else {
        let t = es.drop_first();
        lemma_insert_then_remove(t, k, v);
        let m = seq![es[0]] + model_insert(t, k, v);
        assert(m[0].0 == es[0].0);
        assert(es[0].0 != k);
        assert(m.drop_first() =~= model_insert(t, k, v));
        assert(model_remove(m, k) == seq![es[0]] + model_remove(model_insert(t, k, v), k));
        assert(seq![es[0]] + t =~= es);
    }
}

/// Compares two keys for strict lexicographic order.
fn key_lt(a: &Vec<u8>, b: &Vec<u8>) -> (r: bool)
    ensures
        r == lex_lt(a@, b@),
{
    let mut i: usize = 0;
    let a_len = a.len();
    let b_len = b.len();
    while i < a_len && i < b_len
        invariant
            i <= a@.len(),
            i <= b@.len(),
            a_len == a@.len(),
            b_len == b@.len(),
            forall|j: int| 0 <= j < i ==> a@[j] == b@[j],
        decreases a@.len() - i,
    {
        proof {
            lemma_lex_skip(a@, b@, i as int);
        }
        if a[i] < b[i] {
            return true;
        }
        if a[i] > b[i] {
            return false;
        }
        i += 1;
    }
    proof {
        lemma_lex_skip(a@, b@, i as int);
    }
    a_len < b_len
}

/// Compares two keys for equality.
fn key_eq(a: &Vec<u8>, b: &Vec<u8>) -> (r: bool)
    ensures
        r == (a@ == b@),
{
    if a.len() != b.len() {
        return false;
    }
    let mut i: usize = 0;
    while i < a.len()
        invariant
            a@.len() == b@.len(),
            i <= a@.len(),
            forall|j: int| 0 <= j < i ==> a@[j] == b@[j],
        decreases a@.len() - i,
    {
        if a[i] != b[i] {
            return false;
        }
        i += 1;
    }
    proof {
        assert(a@ =~= b@);
    }
    true
}

/// Copies a byte string.
pub fn copy_bytes(v: &Vec<u8>) -> (r: Vec<u8>)
    ensures
        r@ == v@,
{
    let mut out: Vec<u8> = Vec::new();
    let mut i: usize = 0;
    while i < v.len()
        invariant
            i <= v@.len(),
            out@ =~= v@.take(i as int),
        decreases v@.len() - i,
    {
        out.push(v[i]);
        i += 1;
    }
    proof {
        assert(out@ =~= v@);
    }
    out
}

impl Dict {
    /// The model of this dictionary: its entries in order, keys as byte
    /// strings.
    pub open spec fn model(self) -> Seq<(Seq<u8>, Value)> {
        Seq::new(self.entries@.len(), |i: int| (self.entries@[i].0@, self.entries@[i].1))
    }

    /// The entries stand in strictly increasing key order. Every dictionary
    /// built through this type's operations satisfies this.
    pub open spec fn wf(self) -> bool {
        sorted_keys(self.model())
    }

    /// The empty dictionary.
    pub fn new() -> (d: Dict)
        ensures
            d.model() == Seq::<(Seq<u8>, Value)>::empty(),
            d.wf(),
    {
        let d = Dict { entries: Vec::new() };
        proof {
            assert(d.model() =~= Seq::<(Seq<u8>, Value)>::empty());
        }
        d
    }

    /// How many entries the dictionary has.
    pub fn len(&self) -> (n: usize)
        ensures
            n == self.model().len(),
    {
        self.entries.len()
    }

    /// The position where `k` belongs: the first entry whose key does not
    /// precede `k`.
    fn position(&self, k: &Vec<u8>) -> (pos: usize)
        ensures
            pos <= self.model().len(),
            forall|j: int| 0 <= j < pos ==> lex_lt((#[trigger] self.model()[j]).0, k@),
            pos < self.model().len() ==> !lex_lt(self.model()[pos as int].0, k@),
    {
        let mut i: usize = 0;
        while i < self.entries.len()
            invariant
                i <= self.model().len(),
                forall|j: int| 0 <= j < i ==> lex_lt((#[trigger] self.model()[j]).0, k@),
            decreases self.entries@.len() - i,
        {
            if !key_lt(&self.entries[i].0, k) {
                return i;
            }
            i += 1;
        }
        i
    }

    /// Binds `value` under `key`, keeping the canonical order; an existing
    /// entry with the same key is replaced.
    pub fn insert(&mut self, key: Vec<u8>, value: Value)
        requires
            old(self).wf(),
        ensures
            final(self).wf(),
            final(self).model() == model_insert(old(self).model(), key@, value),
    {
        let ghost m0 = old(self).model();
        let pos = self.position(&key);
        proof {
            lemma_insert_split(m0, key@, value, pos as int);
        }
        if pos < self.entries.len() && key_eq(&self.entries[pos].0, &key) {
            self.entries.remove(pos);
            self.entries.insert(pos, (key, value));
            proof {
                assert(self.model() =~= m0.take(pos as int) + seq![(key@, value)] + m0.skip(
                    pos as int + 1,
                ));
            }
        } else {
            self.entries.insert(pos, (key, value));
            proof {
                assert(self.model() =~= m0.take(pos as int) + seq![(key@, value)] + m0.skip(
                    pos as int,
                ));
            }
        }
    }

    /// The value under `key`, if any.
    pub fn get(&self, key: &Vec<u8>) -> (r: Option<&Value>)
        ensures
            match r {
                Some(v) => model_get(self.model(), key@) == Some(*v),
                None => model_get(self.model(), key@) is None,
            },
    {
        let mut i: usize = 0;
        while i < self.entries.len()
            invariant
                i <= self.model().len(),
                forall|j: int| 0 <= j < i ==> (#[trigger] self.model()[j]).0 != key@,
            decreases self.entries@.len() - i,
        {
            if key_eq(&self.entries[i].0, key) {
                proof {
                    lemma_get_skip(self.model(), key@, i as int);
                    assert(self.model().skip(i as int)[0] == self.model()[i as int]);
                }
                return Some(&self.entries[i].1);
            }
            i += 1;
        }
        proof {
            lemma_get_skip(self.model(), key@, i as int);
            assert(self.model().skip(i as int) =~= Seq::<(Seq<u8>, Value)>::empty());
        }
        None
    }

    /// Whether any entry lies under `key`.
    pub fn contains_key(&self, key: &Vec<u8>) -> (r: bool)
        ensures
            r == (model_get(self.model(), key@) is Some),
    {
        match self.get(key) {
            Some(_) => true,
            None => false,
        }
    }

    /// The index of the entry under `key`, if any.
    fn find_key(&self, key: &Vec<u8>) -> (r: Option<usize>)
        ensures
            match r {
                Some(i) => i < self.model().len() && self.model()[i as int].0 == key@ && forall|
                    j: int,
                |
                    0 <= j < i ==> (#[trigger] self.model()[j]).0 != key@,
                None => forall|j: int|
                    0 <= j < self.model().len() ==> (#[trigger] self.model()[j]).0 != key@,
            },
    {
        let mut i: usize = 0;
        while i < self.entries.len()
            invariant
                i <= self.model().len(),
                forall|j: int| 0 <= j < i ==> (#[trigger] self.model()[j]).0 != key@,
            decreases self.entries@.len() - i,
        {
            if key_eq(&self.entries[i].0, key) {
                return Some(i);
            }
            i += 1;
        }
        None
    }

    /// Unbinds `key`, handing back the value that lay under it, if any.
    /// No order among the entries is assumed; where it holds, it is kept.
    pub fn remove(&mut self, key: &Vec<u8>) -> (r: Option<Value>)
        ensures
            final(self).model() == model_remove(old(self).model(), key@),
            old(self).wf() ==> final(self).wf(),
            match r {
                Some(v) => model_get(old(self).model(), key@) == Some(v),
                None => model_get(old(self).model(), key@) is None && final(self).model() == old(
                    self,
                ).model(),
            },
    {
        let ghost m0 = self.model();
        match self.find_key(key) {
            Some(i) => {
                let ghost ii = i as int;
                let entry = self.entries.remove(i);
                proof {
                    lemma_get_skip(m0, key@, ii);
                    assert(m0.skip(ii).len() > 0);
                    assert(m0.skip(ii)[0] == m0[ii]);
                    assert(m0[ii].0 == key@);
                    assert(model_get(m0, key@) == Some(m0[ii].1));
                    assert(entry.1 == m0[ii].1);
                    lemma_remove_at(m0, key@, ii);
                    assert(self.model() =~= m0.take(ii) + m0.skip(ii + 1));
                    if sorted_keys(m0) {
                        assert forall|p: int, q: int|
                            0 <= p < q < self.model().len() implies lex_lt(
                            (#[trigger] self.model()[p]).0,
                            (#[trigger] self.model()[q]).0,
                        ) by {
                            let lift_p: int = if p < ii {
                                p
                            } else {
                                p + 1
                            };
                            let lift_q: int = if q < ii {
                                q
                            } else {
                                q + 1
                            };
                            assert(self.model()[p] == m0[lift_p]);
                            assert(self.model()[q] == m0[lift_q]);
                        }
                    }
                }
                Some(entry.1)
            },
            None => {
                proof {
                    lemma_get_skip(m0, key@, m0.len() as int);
                    assert(m0.skip(m0.len() as int) =~= Seq::<(Seq<u8>, Value)>::empty());
                    lemma_remove_absent(m0, key@);
                }
                None
            },
        }
    }
}

} // verus!
