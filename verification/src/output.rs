//! The hierarchical output tree.
//!
//! Once event processing is finished, the flat (path, history) pairs are
//! re-indexed into a tree: scope nodes map name segments to children, leaf
//! nodes hold one signal's full value history.  Children of a scope are
//! kept in ascending key order, so serialized output is deterministic
//! regardless of declaration order.

use crate::errors::Error;
use crate::map::SigModel;
use crate::path::Path;
use crate::value::ValueType;
use vstd::prelude::*;
use vstd::string::StrSliceExecFns;

verus! {

/// Strict lexicographic order on text, comparing characters by code point.
pub open spec fn seq_lt(a: Seq<char>, b: Seq<char>) -> bool
    decreases a.len(),
{
    if b.len() == 0 {
        false
    } else if a.len() == 0 {
        true
    } else if (a[0] as u32) < (b[0] as u32) {
        true
    } else if (a[0] as u32) > (b[0] as u32) {
        false
    } else {
        seq_lt(a.drop_first(), b.drop_first())
    }
}

/// Exactly one of `a < b`, `a == b`, `b < a` holds.
pub proof fn lemma_seq_lt_trichotomy(a: Seq<char>, b: Seq<char>)
    ensures
        seq_lt(a, b) || seq_lt(b, a) || a == b,
        seq_lt(a, b) ==> !seq_lt(b, a) && a != b,
        seq_lt(b, a) ==> !seq_lt(a, b) && a != b,
    decreases a.len(),
{
    if a.len() == 0 || b.len() == 0 {
        if a.len() == b.len() {
            assert(a =~= b);
        }
    } else {
        vstd::utf8::char_u32_cast(a[0], a[0] as u32);
        vstd::utf8::char_u32_cast(b[0], b[0] as u32);
        lemma_seq_lt_trichotomy(a.drop_first(), b.drop_first());
        if a[0] == b[0] && a.drop_first() == b.drop_first() {
            assert forall|i: int| 0 <= i < a.len() implies a[i] == b[i] by {
                if i > 0 {
                    assert(a[i] == a.drop_first()[i - 1]);
                    assert(b[i] == b.drop_first()[i - 1]);
                }
            }
            assert(a =~= b);
        }
        if a == b {
            assert(a.drop_first() =~= b.drop_first());
        }
    }
}

/// The model of an output tree: scope nodes hold key-ordered children, leaf
/// nodes hold one signal's value history.
pub enum OutModel<M> {
    /// A scope: the modelled children, in key order.
    Scope(Seq<(Seq<char>, OutModel<M>)>),
    /// A leaf: the modelled history.
    Timeseries(Seq<M>),
}

/// The first position among `es` whose key is `k`, or -1.
pub open spec fn find_key<M>(es: Seq<(Seq<char>, OutModel<M>)>, k: Seq<char>) -> int
    decreases es.len(),
{
    if es.len() == 0 {
        -1
    } else if es[0].0 == k {
        0
    } else {
        let r = find_key(es.drop_first(), k);
        if r == -1 {
            -1
        } else {
            r + 1
        }
    }
}

/// Where a new key `k` belongs among `es`: after every smaller key.
pub open spec fn insert_pos<M>(es: Seq<(Seq<char>, OutModel<M>)>, k: Seq<char>) -> int
    decreases es.len(),
{
    if es.len() == 0 {
        0
    } else if seq_lt(es[0].0, k) {
        1 + insert_pos(es.drop_first(), k)
    } else {
        0
    }
}

/// What inserting a history at a path does to a tree: walk the path's
/// segments; at a scope, descend into the named child, creating an empty
/// scope where the name is missing; a leaf on the way is a path-prefix
/// collision; the node addressed by the full path becomes the new leaf.
pub open spec fn model_insert<M>(t: OutModel<M>, path: Seq<Seq<char>>, series: Seq<M>) -> Result<
    OutModel<M>,
    Error,
>
    decreases path.len(),
{
    if path.len() == 0 {
        Ok(OutModel::Timeseries(series))
    } else {
        match t {
            OutModel::Timeseries(_) => Err(Error::PrefixCollision),
            OutModel::Scope(es) => {
                let f = find_key(es, path[0]);
                if f >= 0 {
                    match model_insert(es[f].1, path.drop_first(), series) {
                        Ok(sub) => Ok(OutModel::Scope(es.update(f, (path[0], sub)))),
                        Err(e) => Err(e),
                    }
                } else {
                    match model_insert(
                        OutModel::Scope(Seq::empty()),
                        path.drop_first(),
                        series,
                    ) {
                        Ok(sub) => Ok(
                            OutModel::Scope(es.insert(insert_pos(es, path[0]), (path[0], sub))),
                        ),
                        Err(e) => Err(e),
                    }
                }
            },
        }
    }
}

/// The node a path addresses, if the walk stays inside the tree.
pub open spec fn model_lookup<M>(t: OutModel<M>, path: Seq<Seq<char>>) -> Option<OutModel<M>>
    decreases path.len(),
{
    if path.len() == 0 {
        Some(t)
    } else {
        match t {
            OutModel::Timeseries(_) => None,
            OutModel::Scope(es) => {
                let f = find_key(es, path[0]);
                if f >= 0 {
                    model_lookup(es[f].1, path.drop_first())
                } else {
                    None
                }
            },
        }
    }
}

/// How many leaves a tree holds.
pub open spec fn leaf_count<M>(t: OutModel<M>) -> nat
    decreases t,
{
    match t {
        OutModel::Timeseries(_) => 1,
        OutModel::Scope(es) => leaf_count_entries(es),
    }
}

/// How many leaves a list of children holds in all.
pub open spec fn leaf_count_entries<M>(es: Seq<(Seq<char>, OutModel<M>)>) -> nat
    decreases es,
{
    if es.len() == 0 {
        0
    } else {
        leaf_count(es[0].1) + leaf_count_entries(es.drop_first())
    }
}

/// A well-shaped tree: in every scope the keys ascend strictly.
pub open spec fn model_wf<M>(t: OutModel<M>) -> bool
    decreases t,
{
    match t {
        OutModel::Timeseries(_) => true,
        OutModel::Scope(es) => (forall|i: int|
            0 <= i < es.len() - 1 ==> seq_lt(#[trigger] es[i].0, es[i + 1].0)) && (forall|i: int|
            0 <= i < es.len() ==> model_wf(#[trigger] es[i].1)),
    }
}

/// The output tree: either a scope of named children or one signal's full
/// value history.
pub enum Output<V> {
    /// A scope node; children are kept in ascending key order.
    Scope(Vec<(String, Output<V>)>),
    /// A leaf node: one signal's history, one value per timestep.
    Timeseries(Vec<V>),
}

impl<V> Default for Output<V> {
    /// An empty scope node.
    fn default() -> (r: Self)
        ensures
            r is Scope && r->Scope_0@.len() == 0,
    {
        Output::Scope(Vec::new())
    }
}

/// The model of a list of children: each key as text, each child modelled.
pub open spec fn entries_model<V: ValueType>(es: Seq<(String, Output<V>)>) -> Seq<
    (Seq<char>, OutModel<V::Model>),
>
    decreases es,
{
    if es.len() == 0 {
        Seq::empty()
    } else {
        entries_model(es.drop_last()).push((es.last().0@, es.last().1.model()))
    }
}

impl<V: ValueType> Output<V> {
    /// The model of this tree.
    pub open spec fn model(self) -> OutModel<V::Model>
        decreases self,
    {
        match self {
            Output::Scope(entries) => OutModel::Scope(entries_model(entries@)),
            Output::Timeseries(vs) => OutModel::Timeseries(vs@.map(|i: int, v: V| v.model())),
        }
    }
}

/// The model of a children list, entry by entry.
pub proof fn lemma_entries_model<V: ValueType>(es: Seq<(String, Output<V>)>)
    ensures
        entries_model(es).len() == es.len(),
        forall|i: int|
            0 <= i < es.len() ==> #[trigger] entries_model(es)[i] == (es[i].0@, es[i].1.model()),
    decreases es,
{
    if es.len() > 0 {
        lemma_entries_model(es.drop_last());
    }
}

/// Where `find_key` points: the first entry carrying the key, if any.
proof fn lemma_find_key_char<M>(es: Seq<(Seq<char>, OutModel<M>)>, k: Seq<char>)
    ensures
        find_key(es, k) >= -1,
        find_key(es, k) == -1 ==> forall|i: int| 0 <= i < es.len() ==> es[i].0 != k,
        find_key(es, k) >= 0 ==> 0 <= find_key(es, k) < es.len() && es[find_key(es, k)].0 == k && (
        forall|i: int| 0 <= i < find_key(es, k) ==> es[i].0 != k),
    decreases es.len(),
{
    if es.len() > 0 && es[0].0 != k {
        lemma_find_key_char(es.drop_first(), k);
        if find_key(es, k) == -1 {
            assert forall|i: int| 0 <= i < es.len() implies es[i].0 != k by {
                if i >= 1 {
                    assert(es[i] == es.drop_first()[i - 1]);
                }
            }
        } else {
            let f = find_key(es, k);
            assert(es[f] == es.drop_first()[f - 1]);
            assert forall|i: int| 0 <= i < f implies es[i].0 != k by {
                if i >= 1 {
                    assert(es[i] == es.drop_first()[i - 1]);
                }
            }
        }
    }
}

/// Where `insert_pos` points: after every key smaller than `k`.
proof fn lemma_insert_pos_char<M>(es: Seq<(Seq<char>, OutModel<M>)>, k: Seq<char>)
    ensures
        0 <= insert_pos(es, k) <= es.len(),
        forall|i: int| 0 <= i < insert_pos(es, k) ==> seq_lt(#[trigger] es[i].0, k),
        insert_pos(es, k) < es.len() ==> !seq_lt(es[insert_pos(es, k)].0, k),
    decreases es.len(),
{
    if es.len() > 0 && seq_lt(es[0].0, k) {
        lemma_insert_pos_char(es.drop_first(), k);
        let p = insert_pos(es, k);
        assert forall|i: int| 0 <= i < p implies seq_lt(#[trigger] es[i].0, k) by {
            if i >= 1 {
                assert(es[i] == es.drop_first()[i - 1]);
            }
        }
        if p < es.len() {
            assert(es[p] == es.drop_first()[p - 1]);
        }
    }
}

/// Whether `a` sorts strictly before `b`, comparing characters by code
/// point.
pub fn str_lt(a: &String, b: &String) -> (r: bool)
    ensures
        r == seq_lt(a@, b@),
{
    let an = a.as_str().unicode_len();
    let bn = b.as_str().unicode_len();
    proof {
        assert(a@.skip(0) =~= a@);
        assert(b@.skip(0) =~= b@);
    }
    let mut i: usize = 0;
    while i < an && i < bn
        invariant
            i <= an,
            i <= bn,
            an == a@.len(),
            bn == b@.len(),
            seq_lt(a@, b@) == seq_lt(a@.skip(i as int), b@.skip(i as int)),
        decreases an - i,
    {
        let ca = a.as_str().get_char(i);
        let cb = b.as_str().get_char(i);
        proof {
            assert(a@.skip(i as int)[0] == a@[i as int]);
            assert(b@.skip(i as int)[0] == b@[i as int]);
        }
        if (ca as u32) < (cb as u32) {
            return true;
        }
        if (ca as u32) > (cb as u32) {
            return false;
        }
        proof {
            assert(a@.skip(i as int).drop_first() =~= a@.skip(i + 1));
            assert(b@.skip(i as int).drop_first() =~= b@.skip(i + 1));
        }
        i = i + 1;
    }
    proof {
        if i == bn {
            assert(b@.skip(i as int).len() == 0);
        } else {
            assert(a@.skip(i as int).len() == 0 && b@.skip(i as int).len() > 0);
        }
    }
    an < bn
}

/// The text views of a list of borrowed segments.
pub open spec fn seg_views(segs: Seq<&String>) -> Seq<Seq<char>> {
    segs.map(|i: int, s: &String| s@)
}

/// The value models of a history.
pub open spec fn series_model<V: ValueType>(series: Seq<V>) -> Seq<V::Model> {
    series.map(|i: int, v: V| v.model())
}

impl<V: ValueType> Output<V> {
    /// Inserts `series` at the path suffix `segs[d..]` below `node`,
    /// returning the new subtree, or the untouched subtree and the error.
    fn insert_at(node: Output<V>, segs: &Vec<&String>, d: usize, series: Vec<V>) -> (r: (
        Output<V>,
        Option<Error>,
    ))
        requires
            d <= segs@.len(),
        ensures
            (match r.1 {
                None => model_insert(
                    node.model(),
                    seg_views(segs@.skip(d as int)),
                    series_model(series@),
                ) == Ok::<_, Error>(r.0.model()),
                Some(e) => model_insert(
                    node.model(),
                    seg_views(segs@.skip(d as int)),
                    series_model(series@),
                ) == Err::<OutModel<V::Model>, _>(e) && r.0.model() == node.model(),
            }),
        decreases segs@.len() - d,
    {
        let ghost path = seg_views(segs@.skip(d as int));
        if d == segs.len() {
            proof {
                assert(path.len() == 0);
            }
            return (Output::Timeseries(series), None);
        }
        let seg: &String = segs[d];
        proof {
            assert(path.len() > 0);
            assert(path[0] == seg@);
            assert(seg_views(segs@.skip(d + 1)) =~= path.drop_first());
        }
        match node {
            Output::Timeseries(vs) => (Output::Timeseries(vs), Some(Error::PrefixCollision)),
            Output::Scope(mut entries) => {
                let ghost es = entries_model(entries@);
                proof {
                    lemma_entries_model(entries@);
                    lemma_find_key_char(es, seg@);
                    lemma_insert_pos_char(es, seg@);
                }
                let n = entries.len();
                let mut f: usize = 0;
                let mut found = false;
                while f < n && !found
                    invariant
                        n == entries@.len(),
                        f <= n,
                        es == entries_model(entries@),
                        es.len() == n,
                        forall|k: int|
                            0 <= k < es.len() ==> #[trigger] es[k] == (
                                entries@[k].0@,
                                entries@[k].1.model(),
                            ),
                        !found ==> forall|k: int| 0 <= k < f ==> es[k].0 != seg@,
                        found ==> f < n && es[f as int].0 == seg@ && forall|k: int|
                            0 <= k < f ==> es[k].0 != seg@,
                    decreases n - f, (if found { 0int } else { 1int }),
                {
                    if entries[f].0.eq(seg) {
                        found = true;
                    } else {
                        f = f + 1;
                    }
                }
                if found {
                    proof {
                        lemma_find_key_char(es, seg@);
                        let g = find_key(es, seg@);
                        if g == -1 {
                            assert(es[f as int].0 == seg@);
                            assert(false);
                        } else if g < f {
                            assert(es[g].0 != seg@);
                            assert(false);
                        } else if g > f {
                            assert(es[f as int].0 != seg@);
                            assert(false);
                        }
                        assert(find_key(es, seg@) == f);
                    }
                    let entry = entries.remove(f);
                    let (sub, err) = Self::insert_at(entry.1, segs, d + 1, series);
                    let key = entry.0;
                    entries.insert(f, (key, sub));
                    proof {
                        lemma_entries_model(entries@);
                        assert(entries_model(entries@) =~= es.update(
                            f as int,
                            (seg@, entries@[f as int].1.model()),
                        ));
                    }
                    match err {
                        None => (Output::Scope(entries), None),
                        Some(e) => {
                            proof {
                                assert(entries_model(entries@) =~= es);
                            }
                            (Output::Scope(entries), Some(e))
                        },
                    }
                } else {
                    let mut p: usize = 0;
                    while p < n && str_lt(&entries[p].0, seg)
                        invariant
                            n == entries@.len(),
                            p <= n,
                            es == entries_model(entries@),
                            es.len() == n,
                            forall|k: int|
                                0 <= k < es.len() ==> #[trigger] es[k] == (
                                    entries@[k].0@,
                                    entries@[k].1.model(),
                                ),
                            forall|k: int| 0 <= k < p ==> seq_lt(#[trigger] es[k].0, seg@),
                        decreases n - p,
                    {
                        p = p + 1;
                    }
                    proof {
                        lemma_find_key_char(es, seg@);
                        lemma_insert_pos_char(es, seg@);
                        let g = find_key(es, seg@);
                        if g >= 0 {
                            assert(es[g].0 == seg@);
                            assert(false);
                        }
                        let q = insert_pos(es, seg@);
                        if q < p {
                            assert(seq_lt(es[q].0, seg@));
                            assert(false);
                        } else if q > p {
                            assert(p < n);
                            assert(seq_lt(es[p as int].0, seg@));
                            assert(false);
                        }
                        assert(find_key(es, seg@) == -1);
                        assert(insert_pos(es, seg@) == p);
                    }
                    let (sub, err) = Self::insert_at(
                        Output::Scope(Vec::new()),
                        segs,
                        d + 1,
                        series,
                    );
                    proof {
                        assert(entries_model(Seq::<(String, Output<V>)>::empty())
                            =~= Seq::<(Seq<char>, OutModel<V::Model>)>::empty());
                    }
                    match err {
                        None => {
                            let key = seg.clone();
                            entries.insert(p, (key, sub));
                            proof {
                                lemma_entries_model(entries@);
                                assert(entries_model(entries@) =~= es.insert(
                                    p as int,
                                    (seg@, entries@[p as int].1.model()),
                                ));
                            }
                            (Output::Scope(entries), None)
                        },
                        Some(e) => (Output::Scope(entries), Some(e)),
                    }
                }
            },
        }
    }

    /// Inserts one signal's history at its path: walks the path's segments
    /// from the root, descending into scope nodes and creating missing ones,
    /// and replaces the node the full path addresses by a leaf holding
    /// `series`.  Fails, leaving the tree unchanged, exactly when a leaf
    /// already sits on a proper prefix of the path.
    pub fn insert(&mut self, path: Path<String>, series: Vec<V>) -> (r: Result<(), Error>)
        ensures
            (match r {
                Ok(()) => model_insert(old(self).model(), path@, series_model(series@)) == Ok::<
                    _,
                    Error,
                >(final(self).model()),
                Err(e) => model_insert(old(self).model(), path@, series_model(series@)) == Err::<
                    OutModel<V::Model>,
                    _,
                >(e) && final(self).model() == old(self).model(),
            }),
    {
        let segs = path.to_vec();
        proof {
            assert(seg_views(segs@.skip(0)) =~= path@);
        }
        let mut tmp = Output::Timeseries(Vec::new());
        core::mem::swap(self, &mut tmp);
        let (node, err) = Self::insert_at(tmp, &segs, 0, series);
        *self = node;
        match err {
            None => Ok(()),
            Some(e) => Err(e),
        }
    }
}

/// Whether path `a` is a (not necessarily proper) prefix of path `b`.
pub open spec fn is_path_prefix(a: Seq<Seq<char>>, b: Seq<Seq<char>>) -> bool {
    a.len() <= b.len() && a == b.take(a.len() as int)
}

/// Two child lists with the same keys position-by-position agree on where
/// any key is found.
proof fn lemma_find_key_same_keys<M>(
    es: Seq<(Seq<char>, OutModel<M>)>,
    es2: Seq<(Seq<char>, OutModel<M>)>,
    k: Seq<char>,
)
    requires
        es.len() == es2.len(),
        forall|i: int| 0 <= i < es.len() ==> es[i].0 == es2[i].0,
    ensures
        find_key(es, k) == find_key(es2, k),
    decreases es.len(),
{
    if es.len() > 0 && es[0].0 != k {
        lemma_find_key_same_keys(es.drop_first(), es2.drop_first(), k);
        assert forall|i: int| 0 <= i < es.len() - 1 implies es.drop_first()[i].0
            == es2.drop_first()[i].0 by {
            assert(es.drop_first()[i] == es[i + 1]);
            assert(es2.drop_first()[i] == es2[i + 1]);
        }
    }
}

/// Inserting a child under a fresh key leaves every other key's child
/// where it was.
proof fn lemma_find_key_insert<M>(
    es: Seq<(Seq<char>, OutModel<M>)>,
    p: int,
    x: (Seq<char>, OutModel<M>),
    k: Seq<char>,
)
    requires
        0 <= p <= es.len(),
        x.0 != k,
    ensures
        find_key(es, k) == -1 ==> find_key(es.insert(p, x), k) == -1,
        find_key(es, k) >= 0 ==> {
            let f2 = find_key(es.insert(p, x), k);
            f2 >= 0 && es.insert(p, x)[f2].1 == es[find_key(es, k)].1
        },
{
    let es2 = es.insert(p, x);
    lemma_find_key_char(es, k);
    lemma_find_key_char(es2, k);
    assert(es2.len() == es.len() + 1);
    assert forall|i: int| 0 <= i < p implies es2[i] == es[i] by {}
    assert(es2[p] == x);
    assert forall|i: int| p < i < es2.len() implies es2[i] == es[i - 1] by {}
    let g = find_key(es, k);
    let f2 = find_key(es2, k);
    if g == -1 {
        if f2 >= 0 {
            assert(es2[f2].0 == k);
            if f2 < p {
                assert(es[f2].0 == k);
            } else if f2 > p {
                assert(es[f2 - 1].0 == k);
            }
            assert(false);
        }
    } else {
        let gpos = if g < p {
            g
        } else {
            g + 1
        };
        assert(es2[gpos].0 == k);
        if f2 == -1 {
            assert(false);
        }
        let g2 = if f2 < p {
            f2
        } else {
            f2 - 1
        };
        assert(f2 != p);
        assert(es[g2].0 == k);
        assert(g2 >= g);
        if g2 > g {
            assert(gpos < f2);
            assert(es2[gpos].0 != k);
            assert(false);
        }
        assert(es2[f2].1 == es[g].1);
    }
}

/// After a successful insert, the inserted path leads to the new leaf.
proof fn lemma_insert_self<M>(t: OutModel<M>, path: Seq<Seq<char>>, series: Seq<M>, t2: OutModel<M>)
    requires
        model_insert(t, path, series) == Ok::<_, Error>(t2),
    ensures
        model_lookup(t2, path) == Some(OutModel::Timeseries(series)),
    decreases path.len(),
{
    if path.len() > 0 {
        match t {
            OutModel::Timeseries(_) => {},
            OutModel::Scope(es) => {
                let k = path[0];
                let f = find_key(es, k);
                lemma_find_key_char(es, k);
                if f >= 0 {
                    match model_insert(es[f].1, path.drop_first(), series) {
                        Ok(sub) => {
                            lemma_insert_self(es[f].1, path.drop_first(), series, sub);
                            let es2 = es.update(f, (k, sub));
                            lemma_find_key_same_keys(es, es2, k);
                            assert(find_key(es2, k) == f);
                            assert(es2[f].1 == sub);
                        },
                        Err(_) => {},
                    }
                } else {
                    match model_insert(OutModel::Scope(Seq::empty()), path.drop_first(), series) {
                        Ok(sub) => {
                            lemma_insert_self(
                                OutModel::Scope(Seq::empty()),
                                path.drop_first(),
                                series,
                                sub,
                            );
                            let p = insert_pos(es, k);
                            lemma_insert_pos_char(es, k);
                            let es2 = es.insert(p, (k, sub));
                            lemma_find_key_char(es2, k);
                            let f2 = find_key(es2, k);
                            assert(es2[p] == (k, sub));
                            if f2 == -1 {
                                assert(es2[p].0 == k);
                                assert(false);
                            }
                            if f2 < p {
                                assert(es2[f2] == es[f2]);
                                assert(es[f2].0 == k);
                                assert(false);
                            }
                            if f2 > p {
                                assert(es2[p].0 != k);
                                assert(false);
                            }
                            assert(es2[f2].1 == sub);
                        },
                        Err(_) => {},
                    }
                }
            },
        }
    }
}

/// A successful insert leaves every diverging path's node untouched.
proof fn lemma_insert_other<M>(
    t: OutModel<M>,
    path: Seq<Seq<char>>,
    series: Seq<M>,
    t2: OutModel<M>,
    q: Seq<Seq<char>>,
)
    requires
        model_insert(t, path, series) == Ok::<_, Error>(t2),
        !is_path_prefix(path, q),
        !is_path_prefix(q, path),
    ensures
        model_lookup(t2, q) == model_lookup(t, q),
    decreases path.len(),
{
    assert(path.len() > 0 && q.len() > 0) by {
        if path.len() == 0 {
            assert(path == q.take(0));
        }
        if q.len() == 0 {
            assert(q == path.take(0));
        }
    }
    match t {
        OutModel::Timeseries(_) => {},
        OutModel::Scope(es) => {
            let k = path[0];
            let f = find_key(es, k);
            lemma_find_key_char(es, k);
            if q[0] != k {
                if f >= 0 {
                    match model_insert(es[f].1, path.drop_first(), series) {
                        Ok(sub) => {
                            let es2 = es.update(f, (k, sub));
                            lemma_find_key_same_keys(es, es2, q[0]);
                            let g = find_key(es, q[0]);
                            if g >= 0 {
                                lemma_find_key_char(es, q[0]);
                                assert(es2[g].1 == es[g].1);
                            }
                        },
                        Err(_) => {},
                    }
                } else {
                    match model_insert(OutModel::Scope(Seq::empty()), path.drop_first(), series) {
                        Ok(sub) => {
                            let p = insert_pos(es, k);
                            lemma_insert_pos_char(es, k);
                            lemma_find_key_insert(es, p, (k, sub), q[0]);
                            lemma_find_key_char(es, q[0]);
                            lemma_find_key_char(es.insert(p, (k, sub)), q[0]);
                        },
                        Err(_) => {},
                    }
                }
            } else {
                // Same head: the tails diverge in the same way.
                assert(!is_path_prefix(path.drop_first(), q.drop_first())) by {
                    if is_path_prefix(path.drop_first(), q.drop_first()) {
                        assert(path =~= q.take(path.len() as int)) by {
                            assert(forall|i: int|
                                1 <= i < path.len() ==> path.drop_first()[i - 1] == path[i]);
                            assert(forall|i: int|
                                1 <= i < path.len() ==> q.drop_first().take(
                                    path.len() - 1,
                                )[i - 1] == q[i]);
                        }
                    }
                }
                assert(!is_path_prefix(q.drop_first(), path.drop_first())) by {
                    if is_path_prefix(q.drop_first(), path.drop_first()) {
                        assert(q =~= path.take(q.len() as int)) by {
                            assert(forall|i: int|
                                1 <= i < q.len() ==> q.drop_first()[i - 1] == q[i]);
                            assert(forall|i: int|
                                1 <= i < q.len() ==> path.drop_first().take(q.len() - 1)[i - 1]
                                    == path[i]);
                        }
                    }
                }
                if f >= 0 {
                    match model_insert(es[f].1, path.drop_first(), series) {
                        Ok(sub) => {
                            lemma_insert_other(
                                es[f].1,
                                path.drop_first(),
                                series,
                                sub,
                                q.drop_first(),
                            );
                            let es2 = es.update(f, (k, sub));
                            lemma_find_key_same_keys(es, es2, k);
                            assert(es2[f].1 == sub);
                        },
                        Err(_) => {},
                    }
                } else {
                    match model_insert(OutModel::Scope(Seq::empty()), path.drop_first(), series) {
                        Ok(sub) => {
                            lemma_insert_other(
                                OutModel::Scope(Seq::empty()),
                                path.drop_first(),
                                series,
                                sub,
                                q.drop_first(),
                            );
                            assert(model_lookup(
                                OutModel::<M>::Scope(Seq::empty()),
                                q.drop_first(),
                            ) is None) by {
                                if q.drop_first().len() > 0 {
                                    lemma_find_key_char(
                                        Seq::<(Seq<char>, OutModel<M>)>::empty(),
                                        q.drop_first()[0],
                                    );
                                }
                            }
                            let p = insert_pos(es, k);
                            lemma_insert_pos_char(es, k);
                            let es2 = es.insert(p, (k, sub));
                            lemma_find_key_char(es2, k);
                            let f2 = find_key(es2, k);
                            assert(es2[p] == (k, sub));
                            if f2 == -1 {
                                assert(es2[p].0 == k);
                                assert(false);
                            }
                            if f2 < p {
                                assert(es2[f2] == es[f2]);
                                assert(es[f2].0 == k);
                                assert(false);
                            }
                            if f2 > p {
                                assert(es2[p].0 != k);
                                assert(false);
                            }
                            assert(es2[f2].1 == sub);
                            assert(q.drop_first().len() > 0 ==> model_lookup(sub, q.drop_first())
                                is None);
                            assert(model_lookup(t, q) is None);
                            if q.drop_first().len() == 0 {
                                assert(is_path_prefix(q, path)) by {
                                    assert(q =~= path.take(1));
                                }
                                assert(false);
                            }
                        },
                        Err(_) => {},
                    }
                }
            }
        },
    }
}

/// Walking a concatenated path is walking its parts in turn.
proof fn lemma_lookup_append<M>(t: OutModel<M>, p: Seq<Seq<char>>, r: Seq<Seq<char>>)
    ensures
        model_lookup(t, p + r) == (match model_lookup(t, p) {
            Some(s) => model_lookup(s, r),
            None => None,
        }),
    decreases p.len(),
{
    if p.len() == 0 {
        assert(p + r =~= r);
    } else {
        assert((p + r)[0] == p[0]);
        assert((p + r).drop_first() =~= p.drop_first() + r);
        match t {
            OutModel::Timeseries(_) => {},
            OutModel::Scope(es) => {
                let f = find_key(es, p[0]);
                if f >= 0 {
                    lemma_find_key_char(es, p[0]);
                    lemma_lookup_append(es[f].1, p.drop_first(), r);
                }
            },
        }
    }
}

/// A failed insert always runs into a leaf on a proper prefix of the path.
proof fn lemma_insert_err_blocked<M>(t: OutModel<M>, path: Seq<Seq<char>>, series: Seq<M>)
    requires
        model_insert(t, path, series) is Err,
    ensures
        exists|k: int|
            0 <= k < path.len() && (#[trigger] model_lookup(t, path.take(k))) matches Some(
                OutModel::Timeseries(_),
            ),
    decreases path.len(),
{
    match t {
        OutModel::Timeseries(_) => {
            assert(path.take(0) =~= Seq::<Seq<char>>::empty());
            assert(model_lookup(t, path.take(0)) == Some(t));
        },
        OutModel::Scope(es) => {
            let k0 = path[0];
            let f = find_key(es, k0);
            lemma_find_key_char(es, k0);
            if f >= 0 {
                lemma_insert_err_blocked(es[f].1, path.drop_first(), series);
                let k = choose|k: int|
                    0 <= k < path.drop_first().len() && (#[trigger] model_lookup(
                        es[f].1,
                        path.drop_first().take(k),
                    )) matches Some(OutModel::Timeseries(_));
                assert(path.take(k + 1)[0] == k0);
                assert(path.take(k + 1).drop_first() =~= path.drop_first().take(k));
                assert(model_lookup(t, path.take(k + 1)) == model_lookup(
                    es[f].1,
                    path.drop_first().take(k),
                ));
            } else {
                // A fresh chain is built from empty scopes, which never
                // refuse an insert.
                lemma_insert_fresh_ok(path.drop_first(), series);
            }
        },
    }
}

/// Inserting below an empty scope always succeeds, and the result holds
/// exactly one leaf.
proof fn lemma_insert_fresh_ok<M>(path: Seq<Seq<char>>, series: Seq<M>)
    ensures
        model_insert(OutModel::<M>::Scope(Seq::empty()), path, series) is Ok,
        leaf_count(
            model_insert(OutModel::<M>::Scope(Seq::empty()), path, series)->Ok_0,
        ) == 1,
        model_wf(model_insert(OutModel::<M>::Scope(Seq::empty()), path, series)->Ok_0),
    decreases path.len(),
{
    if path.len() == 0 {
    } else {
        let es = Seq::<(Seq<char>, OutModel<M>)>::empty();
        assert(find_key(es, path[0]) == -1);
        assert(insert_pos(es, path[0]) == 0);
        lemma_insert_fresh_ok::<M>(path.drop_first(), series);
        let sub = model_insert(OutModel::<M>::Scope(Seq::empty()), path.drop_first(), series)->Ok_0;
        let es2 = es.insert(0, (path[0], sub));
        assert(es2.drop_first() =~= es);
        assert(leaf_count_entries(es2) == leaf_count(sub) + leaf_count_entries(es));
    }
}

/// How many leaves a children list holds after replacing one child.
proof fn lemma_lce_update<M>(
    es: Seq<(Seq<char>, OutModel<M>)>,
    f: int,
    x: (Seq<char>, OutModel<M>),
)
    requires
        0 <= f < es.len(),
    ensures
        leaf_count_entries(es.update(f, x)) + leaf_count(es[f].1) == leaf_count_entries(es)
            + leaf_count(x.1),
    decreases f,
{
    let es2 = es.update(f, x);
    if f == 0 {
        assert(es2.drop_first() =~= es.drop_first());
        assert(es2[0] == x);
    } else {
        lemma_lce_update(es.drop_first(), f - 1, x);
        assert(es2.drop_first() =~= es.drop_first().update(f - 1, x));
        assert(es2[0] == es[0]);
        assert(es.drop_first()[f - 1] == es[f]);
    }
}

/// How many leaves a children list holds after inserting one child.
proof fn lemma_lce_insert<M>(
    es: Seq<(Seq<char>, OutModel<M>)>,
    p: int,
    x: (Seq<char>, OutModel<M>),
)
    requires
        0 <= p <= es.len(),
    ensures
        leaf_count_entries(es.insert(p, x)) == leaf_count_entries(es) + leaf_count(x.1),
    decreases p,
{
    let es2 = es.insert(p, x);
    if p == 0 {
        assert(es2.drop_first() =~= es);
        assert(es2[0] == x);
    } else {
        lemma_lce_insert(es.drop_first(), p - 1, x);
        assert(es2.drop_first() =~= es.drop_first().insert(p - 1, x));
        assert(es2[0] == es[0]);
    }
}

/// A successful insert at a path that addressed nothing, or only an empty
/// scope, adds exactly one leaf.
proof fn lemma_insert_count<M>(t: OutModel<M>, path: Seq<Seq<char>>, series: Seq<M>, t2: OutModel<M>)
    requires
        model_insert(t, path, series) == Ok::<_, Error>(t2),
        (match model_lookup(t, path) {
            None => true,
            Some(OutModel::Scope(es)) => es.len() == 0,
            Some(OutModel::Timeseries(_)) => false,
        }),
    ensures
        leaf_count(t2) == leaf_count(t) + 1,
    decreases path.len(),
{
    if path.len() == 0 {
        match t {
            OutModel::Scope(es) => {
                assert(leaf_count_entries(es) == 0);
            },
            OutModel::Timeseries(_) => {},
        }
    } else {
        match t {
            OutModel::Timeseries(_) => {},
            OutModel::Scope(es) => {
                let k = path[0];
                let f = find_key(es, k);
                lemma_find_key_char(es, k);
                if f >= 0 {
                    match model_insert(es[f].1, path.drop_first(), series) {
                        Ok(sub) => {
                            lemma_insert_count(es[f].1, path.drop_first(), series, sub);
                            lemma_lce_update(es, f, (k, sub));
                        },
                        Err(_) => {},
                    }
                } else {
                    lemma_insert_fresh_ok::<M>(path.drop_first(), series);
                    let sub = model_insert(
                        OutModel::<M>::Scope(Seq::empty()),
                        path.drop_first(),
                        series,
                    )->Ok_0;
                    lemma_insert_pos_char(es, k);
                    lemma_lce_insert(es, insert_pos(es, k), (k, sub));
                }
            },
        }
    }
}

/// What inserting every finished (path, history) pair into a tree does, in
/// table order; the first collision aborts.
pub open spec fn spec_build<M>(t: OutModel<M>, m: Seq<SigModel<M>>) -> Result<OutModel<M>, Error>
    decreases m.len(),
{
    if m.len() == 0 {
        Ok(t)
    } else {
        match model_insert(t, m[0].path, m[0].vals) {
            Ok(t2) => spec_build(t2, m.drop_first()),
            Err(e) => Err(e),
        }
    }
}

/// Inserting pairs with nonempty, mutually prefix-free paths into a tree
/// whose leaves and scopes all stem from `done` succeeds and adds one leaf
/// per pair, each reachable at its own path.
proof fn lemma_build_rec<M>(t: OutModel<M>, m: Seq<SigModel<M>>, done: Seq<SigModel<M>>)
    requires
        forall|i: int| 0 <= i < done.len() ==> (#[trigger] done[i].path).len() > 0,
        forall|i: int| 0 <= i < m.len() ==> (#[trigger] m[i].path).len() > 0,
        forall|i: int, j: int|
            0 <= i < done.len() && 0 <= j < done.len() && i != j ==> !is_path_prefix(
                #[trigger] done[i].path,
                #[trigger] done[j].path,
            ),
        forall|i: int, j: int|
            0 <= i < m.len() && 0 <= j < m.len() && i != j ==> !is_path_prefix(
                #[trigger] m[i].path,
                #[trigger] m[j].path,
            ),
        forall|i: int, j: int|
            0 <= i < done.len() && 0 <= j < m.len() ==> !is_path_prefix(
                #[trigger] done[i].path,
                #[trigger] m[j].path,
            ) && !is_path_prefix(m[j].path, done[i].path),
        forall|j: int|
            0 <= j < done.len() ==> model_lookup(t, (#[trigger] done[j]).path) == Some(
                OutModel::Timeseries(done[j].vals),
            ),
        forall|p: Seq<Seq<char>>|
            (#[trigger] model_lookup(t, p)) matches Some(OutModel::Timeseries(_)) ==> exists|j: int|
                0 <= j < done.len() && done[j].path == p,
        forall|p: Seq<Seq<char>>|
            p.len() > 0 && ((#[trigger] model_lookup(t, p)) matches Some(OutModel::Scope(_)))
                ==> exists|j: int|
                0 <= j < done.len() && p.len() < done[j].path.len() && is_path_prefix(
                    p,
                    done[j].path,
                ),
    ensures
        spec_build(t, m) is Ok,
        leaf_count(spec_build(t, m)->Ok_0) == leaf_count(t) + m.len(),
        forall|j: int|
            0 <= j < done.len() ==> model_lookup(spec_build(t, m)->Ok_0, (#[trigger] done[j]).path)
                == Some(OutModel::Timeseries(done[j].vals)),
        forall|j: int|
            0 <= j < m.len() ==> model_lookup(spec_build(t, m)->Ok_0, (#[trigger] m[j]).path)
                == Some(OutModel::Timeseries(m[j].vals)),
    decreases m.len(),
{
    if m.len() > 0 {
        let p0 = m[0].path;
        let v0 = m[0].vals;
        // The insert cannot fail: a blocking leaf would lie on a proper
        // prefix of the new path, but every leaf sits at an already
        // inserted path, and none of those is a prefix of the new one.
        if model_insert(t, p0, v0) is Err {
            lemma_insert_err_blocked(t, p0, v0);
            let k = choose|k: int|
                0 <= k < p0.len() && (#[trigger] model_lookup(t, p0.take(k))) matches Some(
                    OutModel::Timeseries(_),
                );
            let j = choose|j: int| 0 <= j < done.len() && done[j].path == p0.take(k);
            assert(is_path_prefix(done[j].path, p0)) by {
                assert(p0.take(k).take(k) =~= p0.take(k));
            }
            assert(false);
        }
        let t2 = model_insert(t, p0, v0)->Ok_0;
        lemma_insert_self(t, p0, v0, t2);
        // The new path addressed nothing before the insert.
        assert(model_lookup(t, p0) is None) by {
            match model_lookup(t, p0) {
                Some(OutModel::Timeseries(_)) => {
                    let j = choose|j: int| 0 <= j < done.len() && done[j].path == p0;
                    assert(is_path_prefix(done[j].path, p0)) by {
                        assert(p0.take(p0.len() as int) =~= p0);
                    }
                    assert(false);
                },
                Some(OutModel::Scope(_)) => {
                    let j = choose|j: int|
                        0 <= j < done.len() && p0.len() < done[j].path.len() && is_path_prefix(
                            p0,
                            done[j].path,
                        );
                    assert(false);
                },
                None => {},
            }
        }
        lemma_insert_count(t, p0, v0, t2);
        let done2 = done.push(m[0]);
        let m2 = m.drop_first();
        // Every old leaf survives: its path diverges from the new one.
        assert forall|j: int| 0 <= j < done2.len() implies model_lookup(
            t2,
            (#[trigger] done2[j]).path,
        ) == Some(OutModel::Timeseries(done2[j].vals)) by {
            if j < done.len() {
                assert(done2[j] == done[j]);
                lemma_insert_other(t, p0, v0, t2, done[j].path);
            } else {
                assert(done2[j] == m[0]);
            }
        }
        // Any leaf of the new tree sits at an old path or at the new one.
        assert forall|p: Seq<Seq<char>>|
            (#[trigger] model_lookup(t2, p)) matches Some(OutModel::Timeseries(_)) implies exists|j: int|
            0 <= j < done2.len() && done2[j].path == p by {
            if p == p0 {
                assert(done2[done.len() as int].path == p);
            } else if is_path_prefix(p0, p) {
                let r = p.skip(p0.len() as int);
                assert(p =~= p0 + r);
                lemma_lookup_append(t2, p0, r);
                assert(r.len() > 0);
                assert(model_lookup(t2, p) is None);
            } else if is_path_prefix(p, p0) {
                let r = p0.skip(p.len() as int);
                assert(p0 =~= p + r);
                lemma_lookup_append(t2, p, r);
                assert(r.len() > 0);
                assert(false);
            } else {
                lemma_insert_other(t, p0, v0, t2, p);
                let j = choose|j: int| 0 <= j < done.len() && done[j].path == p;
                assert(done2[j].path == p);
            }
        }
        // Any scope of the new tree lies on the way to an inserted path.
        assert forall|p: Seq<Seq<char>>|
            p.len() > 0 && ((#[trigger] model_lookup(t2, p)) matches Some(OutModel::Scope(_)))
            implies exists|j: int|
            0 <= j < done2.len() && p.len() < done2[j].path.len() && is_path_prefix(
                p,
                done2[j].path,
            ) by {
            if p == p0 {
                assert(model_lookup(t2, p) == Some(OutModel::Timeseries(v0)));
            } else if is_path_prefix(p0, p) {
                let r = p.skip(p0.len() as int);
                assert(p =~= p0 + r);
                lemma_lookup_append(t2, p0, r);
                assert(r.len() > 0);
                assert(model_lookup(t2, p) is None);
            } else if is_path_prefix(p, p0) {
                let jn = done.len() as int;
                assert(done2[jn].path == p0);
                if p.len() == p0.len() {
                    assert(p0.take(p0.len() as int) =~= p0);
                    assert(false);
                }
                assert(p.len() < p0.len());
            } else {
                lemma_insert_other(t, p0, v0, t2, p);
                let j = choose|j: int|
                    0 <= j < done.len() && p.len() < done[j].path.len() && is_path_prefix(
                        p,
                        done[j].path,
                    );
                assert(done2[j].path == done[j].path);
            }
        }
        assert forall|i: int, j: int|
            0 <= i < done2.len() && 0 <= j < done2.len() && i != j implies !is_path_prefix(
            #[trigger] done2[i].path,
            #[trigger] done2[j].path,
        ) by {
            if i < done.len() && j < done.len() {
                assert(done2[i] == done[i] && done2[j] == done[j]);
            } else if i < done.len() {
                assert(done2[i] == done[i] && done2[j] == m[0]);
            } else {
                assert(done2[i] == m[0] && done2[j] == done[j]);
            }
        }
        assert forall|i: int, j: int|
            0 <= i < m2.len() && 0 <= j < m2.len() && i != j implies !is_path_prefix(
            #[trigger] m2[i].path,
            #[trigger] m2[j].path,
        ) by {
            assert(m2[i] == m[i + 1] && m2[j] == m[j + 1]);
        }
        assert forall|i: int, j: int|
            0 <= i < done2.len() && 0 <= j < m2.len() implies !is_path_prefix(
            #[trigger] done2[i].path,
            #[trigger] m2[j].path,
        ) && !is_path_prefix(m2[j].path, done2[i].path) by {
            assert(m2[j] == m[j + 1]);
            if i < done.len() {
                assert(done2[i] == done[i]);
            } else {
                assert(done2[i] == m[0]);
            }
        }
        assert forall|i: int| 0 <= i < done2.len() implies (#[trigger] done2[i].path).len() > 0 by {
            if i < done.len() {
                assert(done2[i] == done[i]);
            } else {
                assert(done2[i] == m[0]);
            }
        }
        assert forall|i: int| 0 <= i < m2.len() implies (#[trigger] m2[i].path).len() > 0 by {
            assert(m2[i] == m[i + 1]);
        }
        lemma_build_rec(t2, m2, done2);
        assert(spec_build(t, m) == spec_build(t2, m2));
        assert forall|j: int| 0 <= j < done.len() implies model_lookup(
            spec_build(t, m)->Ok_0,
            (#[trigger] done[j]).path,
        ) == Some(OutModel::Timeseries(done[j].vals)) by {
            assert(done2[j] == done[j]);
        }
        assert forall|j: int| 0 <= j < m.len() implies model_lookup(
            spec_build(t, m)->Ok_0,
            (#[trigger] m[j]).path,
        ) == Some(OutModel::Timeseries(m[j].vals)) by {
            if j == 0 {
                assert(done2[done.len() as int] == m[0]);
            } else {
                assert(m2[j - 1] == m[j]);
            }
        }
    }
}

/// Path-uniqueness and tree-shape law: building the tree from pairs whose
/// paths are nonempty and mutually prefix-free succeeds and yields exactly
/// one leaf per pair, each reachable by walking its path's segments from
/// the root.
pub proof fn lemma_tree_shape<M>(m: Seq<SigModel<M>>)
    requires
        forall|i: int| 0 <= i < m.len() ==> (#[trigger] m[i].path).len() > 0,
        forall|i: int, j: int|
            0 <= i < m.len() && 0 <= j < m.len() && i != j ==> !is_path_prefix(
                #[trigger] m[i].path,
                #[trigger] m[j].path,
            ),
    ensures
        spec_build(OutModel::<M>::Scope(Seq::empty()), m) is Ok,
        leaf_count(spec_build(OutModel::<M>::Scope(Seq::empty()), m)->Ok_0) == m.len(),
        forall|j: int|
            0 <= j < m.len() ==> model_lookup(
                spec_build(OutModel::<M>::Scope(Seq::empty()), m)->Ok_0,
                (#[trigger] m[j]).path,
            ) == Some(OutModel::Timeseries(m[j].vals)),
{
    let root = OutModel::<M>::Scope(Seq::empty());
    assert forall|p: Seq<Seq<char>>| p.len() > 0 implies model_lookup(root, p) is None by {
        lemma_find_key_char(Seq::<(Seq<char>, OutModel<M>)>::empty(), p[0]);
    }
    lemma_build_rec(root, m, Seq::empty());
}

/// A successful insert keeps every scope's children in ascending key
/// order: the ordering of the serialized output never depends on
/// declaration order.
pub proof fn lemma_insert_ordered<M>(
    t: OutModel<M>,
    path: Seq<Seq<char>>,
    series: Seq<M>,
    t2: OutModel<M>,
)
    requires
        model_insert(t, path, series) == Ok::<_, Error>(t2),
        model_wf(t),
    ensures
        model_wf(t2),
    decreases path.len(),
{
    if path.len() > 0 {
        match t {
            OutModel::Timeseries(_) => {},
            OutModel::Scope(es) => {
                let k = path[0];
                let f = find_key(es, k);
                lemma_find_key_char(es, k);
                if f >= 0 {
                    match model_insert(es[f].1, path.drop_first(), series) {
                        Ok(sub) => {
                            assert(model_wf(es[f].1));
                            lemma_insert_ordered(es[f].1, path.drop_first(), series, sub);
                            let es2 = es.update(f, (k, sub));
                            assert(es2[f].0 == es[f].0);
                            assert forall|i: int| 0 <= i < es2.len() - 1 implies seq_lt(
                                #[trigger] es2[i].0,
                                es2[i + 1].0,
                            ) by {
                                assert(es2[i].0 == es[i].0 && es2[i + 1].0 == es[i + 1].0);
                            }
                            assert forall|i: int| 0 <= i < es2.len() implies model_wf(
                                #[trigger] es2[i].1,
                            ) by {
                                if i != f {
                                    assert(es2[i].1 == es[i].1);
                                }
                            }
                        },
                        Err(_) => {},
                    }
                } else {
                    lemma_insert_fresh_ok::<M>(path.drop_first(), series);
                    let sub = model_insert(
                        OutModel::<M>::Scope(Seq::empty()),
                        path.drop_first(),
                        series,
                    )->Ok_0;
                    let p = insert_pos(es, k);
                    lemma_insert_pos_char(es, k);
                    let es2 = es.insert(p, (k, sub));
                    assert forall|i: int| 0 <= i < es2.len() - 1 implies seq_lt(
                        #[trigger] es2[i].0,
                        es2[i + 1].0,
                    ) by {
                        if i < p - 1 {
                            assert(es2[i] == es[i] && es2[i + 1] == es[i + 1]);
                        } else if i == p - 1 {
                            assert(es2[i] == es[i] && es2[p] == (k, sub));
                        } else if i == p {
                            assert(es2[p] == (k, sub) && es2[i + 1] == es[i]);
                            lemma_seq_lt_trichotomy(es[p].0, k);
                        } else {
                            assert(es2[i] == es[i - 1] && es2[i + 1] == es[i]);
                        }
                    }
                    assert forall|i: int| 0 <= i < es2.len() implies model_wf(
                        #[trigger] es2[i].1,
                    ) by {
                        if i < p {
                            assert(es2[i] == es[i]);
                        } else if i == p {
                            assert(es2[i].1 == sub);
                        } else {
                            assert(es2[i] == es[i - 1]);
                        }
                    }
                }
            },
        }
    }
}

} // verus!
