//! The signal table: per-signal declaration metadata and growing value
//! histories, addressed by compact id during event application and by
//! hierarchical path when the finished table is re-indexed.
//!
//! The table is abstracted as a sequence of signal models, one per
//! registered signal, each carrying the signal's compact id, its path, and
//! the models of its recorded values.  The table's invariant: ids are
//! distinct, paths are distinct, and all histories have the same length
//! (every signal advances in lockstep with global time).

use crate::errors::Error;
use crate::path::Path;
use crate::value::ValueType;
use std::rc::Rc;
use vstd::prelude::*;

verus! {

/// The declaration of one signal: its compact id, its display name, and the
/// declared width of its value.
pub struct VarDecl {
    /// The compact id that change events use to address this signal.
    pub code: u64,
    /// The display name; the signal's path is its scope's path extended by
    /// this name.
    pub reference: String,
    /// The declared bit width.
    pub size: u32,
}

impl VarDecl {
    /// An equal copy of this declaration.
    pub fn dup(&self) -> (r: Self)
        ensures
            r == *self,
    {
        VarDecl { code: self.code, reference: self.reference.clone(), size: self.size }
    }
}

/// A named grouping node of the hierarchy, holding nested scopes and signal
/// declarations.
pub struct Scope {
    /// The scope's name segment.
    pub identifier: String,
    /// The scope's children, in declaration order.
    pub children: Vec<ScopeItem>,
}

/// One child of a scope: either a nested scope or a signal declaration.
pub enum ScopeItem {
    /// A nested scope.
    Scope(Scope),
    /// A declared signal.
    Var(VarDecl),
}

/// The declaration part of a trace: the root items of the hierarchy.
pub struct Header {
    /// The top-level items, in declaration order.
    pub items: Vec<ScopeItem>,
}

/// The model of one registered signal: its compact id, its path, and the
/// models of its recorded values, one per timestep.
#[verifier::ext_equal]
pub struct SigModel<M> {
    /// The compact id.
    pub code: u64,
    /// The path, as the sequence of its segments.
    pub path: Seq<Seq<char>>,
    /// The recorded value models, oldest first.
    pub vals: Seq<M>,
}

/// The signals that `item` declares, depth first: for each nested scope the
/// prefix grows by the scope's identifier, and each declaration's path is
/// the prefix extended by its display name.
pub open spec fn flatten_item(prefix: Seq<Seq<char>>, item: ScopeItem) -> Seq<
    (Seq<Seq<char>>, VarDecl),
>
    decreases item,
{
    match item {
        ScopeItem::Scope(s) => flatten_items(prefix.push(s.identifier@), s.children@),
        ScopeItem::Var(v) => seq![(prefix.push(v.reference@), v)],
    }
}

/// The signals that `items` declare, in declaration order.
pub open spec fn flatten_items(prefix: Seq<Seq<char>>, items: Seq<ScopeItem>) -> Seq<
    (Seq<Seq<char>>, VarDecl),
>
    decreases items,
{
    if items.len() == 0 {
        Seq::empty()
    } else {
        flatten_item(prefix, items[0]) + flatten_items(prefix, items.drop_first())
    }
}

/// The signals that a whole header declares.
pub open spec fn header_decls(h: Header) -> Seq<(Seq<Seq<char>>, VarDecl)> {
    flatten_items(Seq::empty(), h.items@)
}

/// The signal models of freshly registered declarations: empty histories.
pub open spec fn decl_models<M>(decls: Seq<(Seq<Seq<char>>, VarDecl)>) -> Seq<SigModel<M>> {
    decls.map(
        |i: int, d: (Seq<Seq<char>>, VarDecl)|
            (SigModel { code: d.1.code, path: d.0, vals: Seq::empty() }),
    )
}

/// No two signals share a path.
pub open spec fn paths_distinct<M>(m: Seq<SigModel<M>>) -> bool {
    forall|i: int, j: int| 0 <= i < j < m.len() ==> m[i].path != m[j].path
}

/// No two signals share a compact id.
pub open spec fn ids_distinct<M>(m: Seq<SigModel<M>>) -> bool {
    forall|i: int, j: int| 0 <= i < j < m.len() ==> m[i].code != m[j].code
}

/// All histories have the same length.
pub open spec fn lockstep<M>(m: Seq<SigModel<M>>) -> bool {
    forall|i: int, j: int|
        0 <= i < m.len() && 0 <= j < m.len() ==> m[i].vals.len() == m[j].vals.len()
}

/// All histories are still empty: no time has advanced.
pub open spec fn all_empty<M>(m: Seq<SigModel<M>>) -> bool {
    forall|i: int| 0 <= i < m.len() ==> m[i].vals.len() == 0
}

/// Concatenating declaration lists concatenates their fresh signal models.
proof fn lemma_dm_concat<M>(d1: Seq<(Seq<Seq<char>>, VarDecl)>, d2: Seq<(Seq<Seq<char>>, VarDecl)>)
    ensures
        decl_models::<M>(d1 + d2) == decl_models::<M>(d1) + decl_models::<M>(d2),
{
    assert(decl_models::<M>(d1 + d2) =~= decl_models::<M>(d1) + decl_models::<M>(d2));
}

/// A path collision survives extending the signal list.
proof fn lemma_not_paths_distinct_extend<M>(a: Seq<SigModel<M>>, b: Seq<SigModel<M>>)
    requires
        !paths_distinct(a),
    ensures
        !paths_distinct(a + b),
{
    let (i, j) = choose|i: int, j: int| 0 <= i < j < a.len() && a[i].path == a[j].path;
    assert((a + b)[i] == a[i]);
    assert((a + b)[j] == a[j]);
    assert(0 <= i < j < (a + b).len() && (a + b)[i].path == (a + b)[j].path);
}

/// An id collision survives extending the signal list.
proof fn lemma_not_ids_distinct_extend<M>(a: Seq<SigModel<M>>, b: Seq<SigModel<M>>)
    requires
        !ids_distinct(a),
    ensures
        !ids_distinct(a + b),
{
    let (i, j) = choose|i: int, j: int| 0 <= i < j < a.len() && a[i].code == a[j].code;
    assert((a + b)[i] == a[i]);
    assert((a + b)[j] == a[j]);
    assert(0 <= i < j < (a + b).len() && (a + b)[i].code == (a + b)[j].code);
}

/// Flattening splits at any position: the signals of the first `j` items
/// followed by the signals of the rest.
proof fn lemma_flatten_items_split(prefix: Seq<Seq<char>>, items: Seq<ScopeItem>, j: int)
    requires
        0 <= j <= items.len(),
    ensures
        flatten_items(prefix, items) == flatten_items(prefix, items.take(j)) + flatten_items(
            prefix,
            items.skip(j),
        ),
    decreases j,
{
    if j == 0 {
        assert(items.take(0) =~= Seq::<ScopeItem>::empty());
        assert(items.skip(0) =~= items);
        assert(flatten_items(prefix, items.take(0)) + flatten_items(prefix, items) =~= flatten_items(
            prefix,
            items,
        ));
    } else {
        let df = items.drop_first();
        lemma_flatten_items_split(prefix, df, j - 1);
        assert(items.take(j)[0] == items[0]);
        assert(items.take(j).drop_first() =~= df.take(j - 1));
        assert(df.skip(j - 1) =~= items.skip(j));
        assert(flatten_item(prefix, items[0]) + (flatten_items(prefix, df.take(j - 1))
            + flatten_items(prefix, df.skip(j - 1))) =~= (flatten_item(prefix, items[0])
            + flatten_items(prefix, df.take(j - 1))) + flatten_items(prefix, df.skip(j - 1)));
    }
}

/// Flattening one more item appends that item's signals.
proof fn lemma_flatten_items_snoc(prefix: Seq<Seq<char>>, items: Seq<ScopeItem>, j: int)
    requires
        0 <= j < items.len(),
    ensures
        flatten_items(prefix, items.take(j + 1)) == flatten_items(prefix, items.take(j))
            + flatten_item(prefix, items[j]),
{
    let t = items.take(j + 1);
    lemma_flatten_items_split(prefix, t, j);
    assert(t.take(j) =~= items.take(j));
    assert(t.skip(j) =~= seq![items[j]]);
    let s = seq![items[j]];
    assert(s.drop_first() =~= Seq::<ScopeItem>::empty());
    assert(flatten_items(prefix, s) == flatten_item(prefix, items[j]) + flatten_items(
        prefix,
        Seq::empty(),
    ));
    assert(flatten_item(prefix, items[j]) + flatten_items(prefix, Seq::empty()) =~= flatten_item(
        prefix,
        items[j],
    ));
}

/// The signals declared so far, the current item's signals, and the rest
/// together make up the whole combined signal list.
proof fn lemma_combined_prefix<M>(
    base: Seq<SigModel<M>>,
    cpv: Seq<Seq<char>>,
    ch: Seq<ScopeItem>,
    j: int,
)
    requires
        0 <= j < ch.len(),
    ensures
        base + decl_models::<M>(flatten_items(cpv, ch)) == ((base + decl_models::<M>(
            flatten_items(cpv, ch.take(j)),
        )) + decl_models::<M>(flatten_item(cpv, ch[j]))) + decl_models::<M>(
            flatten_items(cpv, ch.skip(j + 1)),
        ),
{
    lemma_flatten_items_split(cpv, ch, j);
    assert(ch.skip(j)[0] == ch[j]);
    assert(ch.skip(j).drop_first() =~= ch.skip(j + 1));
    assert(flatten_items(cpv, ch.skip(j)) == flatten_item(cpv, ch[j]) + flatten_items(
        cpv,
        ch.skip(j + 1),
    ));
    lemma_dm_concat::<M>(flatten_items(cpv, ch.take(j)), flatten_items(cpv, ch.skip(j)));
    lemma_dm_concat::<M>(flatten_item(cpv, ch[j]), flatten_items(cpv, ch.skip(j + 1)));
    assert(base + (decl_models::<M>(flatten_items(cpv, ch.take(j))) + (decl_models::<M>(
        flatten_item(cpv, ch[j]),
    ) + decl_models::<M>(flatten_items(cpv, ch.skip(j + 1))))) =~= ((base + decl_models::<M>(
        flatten_items(cpv, ch.take(j)),
    )) + decl_models::<M>(flatten_item(cpv, ch[j]))) + decl_models::<M>(
        flatten_items(cpv, ch.skip(j + 1)),
    ));
}

/// Every signal an item declares lies strictly below the prefix.
proof fn lemma_flatten_item_paths(prefix: Seq<Seq<char>>, item: ScopeItem)
    ensures
        forall|k: int|
            0 <= k < flatten_item(prefix, item).len() ==> (#[trigger] flatten_item(prefix, item)[k]).0.len()
                > prefix.len(),
    decreases item,
{
    match item {
        ScopeItem::Scope(s) => {
            lemma_flatten_items_paths(prefix.push(s.identifier@), s.children@);
            assert forall|k: int| 0 <= k < flatten_item(prefix, item).len() implies (
            #[trigger] flatten_item(prefix, item)[k]).0.len() > prefix.len() by {
                assert(flatten_item(prefix, item)[k] == flatten_items(
                    prefix.push(s.identifier@),
                    s.children@,
                )[k]);
            }
        },
        ScopeItem::Var(_) => {},
    }
}

/// Every signal a list of items declares lies strictly below the prefix.
proof fn lemma_flatten_items_paths(prefix: Seq<Seq<char>>, items: Seq<ScopeItem>)
    ensures
        forall|k: int|
            0 <= k < flatten_items(prefix, items).len() ==> (#[trigger] flatten_items(
                prefix,
                items,
            )[k]).0.len() > prefix.len(),
    decreases items,
{
    if items.len() > 0 {
        lemma_flatten_item_paths(prefix, items[0]);
        lemma_flatten_items_paths(prefix, items.drop_first());
        let head = flatten_item(prefix, items[0]);
        let tail = flatten_items(prefix, items.drop_first());
        assert forall|k: int| 0 <= k < (head + tail).len() implies (#[trigger] (head + tail)[k]).0.len()
            > prefix.len() by {
            if k < head.len() {
                assert((head + tail)[k] == head[k]);
            } else {
                assert((head + tail)[k] == tail[k - head.len()]);
            }
        }
    }
}

/// Every declared signal's path has at least one segment.
pub proof fn lemma_header_paths_nonempty(h: Header)
    ensures
        forall|k: int|
            0 <= k < header_decls(h).len() ==> (#[trigger] header_decls(h)[k]).0.len() > 0,
{
    lemma_flatten_items_paths(Seq::empty(), h.items@);
}

/// One signal's registration record and growing history.
pub struct MapItemList<V> {
    /// The recorded values, one per timestep, oldest first.
    pub values: Vec<V>,
    /// The signal's declaration.
    pub item: VarDecl,
}

/// The signal table.
pub struct SignalMap<V> {
    /// The registered signals, in registration order, each with its path.
    pub signals: Vec<(Path<String>, MapItemList<V>)>,
}

impl<V> Default for SignalMap<V> {
    /// An empty table with no registered signals.
    fn default() -> (r: Self)
        ensures
            r.signals@.len() == 0,
    {
        SignalMap { signals: Vec::new() }
    }
}

impl<V: ValueType> SignalMap<V> {
    /// The models of the registered signals, in registration order.
    pub open spec fn models(self) -> Seq<SigModel<V::Model>> {
        self.signals@.map(
            |i: int, e: (Path<String>, MapItemList<V>)|
                (SigModel {
                    code: e.1.item.code,
                    path: e.0@,
                    vals: e.1.values@.map(|j: int, v: V| v.model()),
                }),
        )
    }

    /// The table's invariant: distinct ids, distinct paths, histories in
    /// lockstep.
    pub open spec fn wf(self) -> bool {
        paths_distinct(self.models()) && ids_distinct(self.models()) && lockstep(self.models())
    }

    /// The position of the signal registered under `path`, if any.
    fn find_path(&self, path: &Path<String>) -> (r: Option<usize>)
        ensures
            (match r {
                Some(i) => i < self.models().len() && self.models()[i as int].path == path@,
                None => forall|k: int|
                    0 <= k < self.models().len() ==> self.models()[k].path != path@,
            }),
    {
        let n = self.signals.len();
        let mut i: usize = 0;
        while i < n
            invariant
                n == self.signals@.len(),
                i <= n,
                forall|k: int| 0 <= k < i ==> self.models()[k].path != path@,
            decreases n - i,
        {
            if self.signals[i].0.equals(path) {
                return Some(i);
            }
            i = i + 1;
        }
        None
    }

    /// The position of the signal registered under the compact id `code`,
    /// if any.
    fn find_code(&self, code: u64) -> (r: Option<usize>)
        ensures
            (match r {
                Some(i) => i < self.models().len() && self.models()[i as int].code == code,
                None => forall|k: int|
                    0 <= k < self.models().len() ==> self.models()[k].code != code,
            }),
    {
        let n = self.signals.len();
        let mut i: usize = 0;
        while i < n
            invariant
                n == self.signals@.len(),
                i <= n,
                forall|k: int| 0 <= k < i ==> self.models()[k].code != code,
            decreases n - i,
        {
            if self.signals[i].1.item.code == code {
                return Some(i);
            }
            i = i + 1;
        }
        None
    }

    /// Registers one signal with an empty history.  Fails, leaving the table
    /// unchanged, exactly when its path or its id is already taken.
    fn insert(&mut self, path: Path<String>, item: VarDecl) -> (r: Result<(), Error>)
        requires
            old(self).wf(),
            all_empty(old(self).models()),
        ensures
            final(self).wf(),
            all_empty(final(self).models()),
            (match r {
                Ok(()) => (forall|i: int|
                    0 <= i < old(self).models().len() ==> old(self).models()[i].path != path@
                        && old(self).models()[i].code != item.code) && final(self).models() == old(
                    self,
                ).models().push(
                    (SigModel { code: item.code, path: path@, vals: Seq::empty() }),
                ),
                Err(e) => *final(self) == *old(self) && ((e == Error::DuplicatePath && exists|i: int|
                    0 <= i < old(self).models().len() && old(self).models()[i].path == path@) || (e
                    == Error::DuplicateId && exists|i: int|
                    0 <= i < old(self).models().len() && old(self).models()[i].code == item.code)),
            }),
    {
        if self.find_path(&path).is_some() {
            return Err(Error::DuplicatePath);
        }
        if self.find_code(item.code).is_some() {
            return Err(Error::DuplicateId);
        }
        self.signals.push((path, MapItemList { values: Vec::new(), item }));
        proof {
            assert(self.signals@.last().1.values@.map(|j: int, v: V| v.model())
                =~= Seq::<V::Model>::empty());
            assert(self.models() =~= old(self).models().push(
                (SigModel {
                    code: self.signals@.last().1.item.code,
                    path: self.signals@.last().0@,
                    vals: Seq::empty(),
                }),
            ));
        }
        Ok(())
    }

    /// Overwrites the last history entry of the signal with compact id `id`
    /// by `value`: within one timestep, only the final asserted value stays
    /// visible.  Fails, leaving the table unchanged, exactly when no signal
    /// carries that id or its history has no entry yet.
    pub fn change_value(&mut self, id: u64, value: V) -> (r: Result<(), Error>)
        requires
            old(self).wf(),
        ensures
            final(self).wf(),
            (match r {
                Ok(()) => {
                    &&& exists|i: int|
                        0 <= i < old(self).models().len() && old(self).models()[i].code == id
                    &&& final(self).models().len() == old(self).models().len()
                    &&& forall|i: int|
                        #![trigger old(self).models()[i]]
                        0 <= i < old(self).models().len() && old(self).models()[i].code != id
                            ==> final(self).models()[i] == old(self).models()[i]
                    &&& forall|i: int|
                        #![trigger old(self).models()[i]]
                        0 <= i < old(self).models().len() && old(self).models()[i].code == id ==> {
                            &&& old(self).models()[i].vals.len() > 0
                            &&& final(self).models()[i] == (SigModel {
                                code: old(self).models()[i].code,
                                path: old(self).models()[i].path,
                                vals: old(self).models()[i].vals.update(
                                    old(self).models()[i].vals.len() - 1,
                                    value.model(),
                                ),
                            })
                        }
                },
                Err(e) => e == Error::ChangeValue && *final(self) == *old(self) && forall|i: int|
                    0 <= i < old(self).models().len() && old(self).models()[i].code == id ==> old(
                        self,
                    ).models()[i].vals.len() == 0,
            }),
    {
        let found = self.find_code(id);
        match found {
            None => Err(Error::ChangeValue),
            Some(i) => {
                if self.signals[i].1.values.len() == 0 {
                    return Err(Error::ChangeValue);
                }
                let mut entry = self.signals.remove(i);
                let _ = entry.1.values.pop();
                entry.1.values.push(value);
                self.signals.insert(i, entry);
                proof {
                    assert forall|k: int|
                        0 <= k < old(self).models().len() && old(self).models()[k].code
                            != id implies final(self).models()[k] == old(self).models()[k] by {
                        assert(self.signals@[k] == old(self).signals@[k]);
                    }
                    assert(self.models()[i as int].vals =~= old(self).models()[i as int].vals.update(
                        old(self).models()[i as int].vals.len() - 1,
                        value.model(),
                    ));
                    assert(final(self).models()[i as int] =~= (SigModel {
                        code: old(self).models()[i as int].code,
                        path: old(self).models()[i as int].path,
                        vals: old(self).models()[i as int].vals.update(
                            old(self).models()[i as int].vals.len() - 1,
                            value.model(),
                        ),
                    }));
                }
                Ok(())
            },
        }
    }

    /// Appends one entry to every signal's history: the last value carried
    /// forward, or the representation's initial value for a signal whose
    /// history is still empty.
    pub fn push_timestep(&mut self)
        requires
            old(self).wf(),
        ensures
            final(self).wf(),
            final(self).models().len() == old(self).models().len(),
            forall|i: int|
                0 <= i < old(self).models().len() ==> final(self).models()[i] == (SigModel {
                    code: old(self).models()[i].code,
                    path: old(self).models()[i].path,
                    vals: old(self).models()[i].vals.push(
                        if old(self).models()[i].vals.len() > 0 {
                            old(self).models()[i].vals.last()
                        } else {
                            V::empty_model()
                        },
                    ),
                }),
    {
        let n = self.signals.len();
        let mut i: usize = 0;
        while i < n
            invariant
                old(self).wf(),
                n == self.signals@.len(),
                n == old(self).signals@.len(),
                i <= n,
                forall|k: int|
                    i <= k < n ==> self.signals@[k] == old(self).signals@[k],
                forall|k: int|
                    0 <= k < i ==> self.models()[k] == (SigModel {
                        code: old(self).models()[k].code,
                        path: old(self).models()[k].path,
                        vals: old(self).models()[k].vals.push(
                            if old(self).models()[k].vals.len() > 0 {
                                old(self).models()[k].vals.last()
                            } else {
                                V::empty_model()
                            },
                        ),
                    }),
            decreases n - i,
        {
            let ghost prev = *self;
            let mut entry = self.signals.remove(i);
            let m = entry.1.values.len();
            if m > 0 {
                let carried = entry.1.values[m - 1].dup();
                entry.1.values.push(carried);
            } else {
                let fresh = V::empty(&entry.1.item);
                entry.1.values.push(fresh);
            }
            self.signals.insert(i, entry);
            proof {
                assert forall|k: int| 0 <= k < n && k != i implies self.signals@[k]
                    == prev.signals@[k] by {
                    assert(self.signals@.len() == n);
                    assert(self.signals@[k] == prev.signals@.remove(i as int).insert(
                        i as int,
                        self.signals@[i as int],
                    )[k]);
                }
                assert forall|k: int| 0 <= k < i implies self.models()[k] == prev.models()[k] by {
                    assert(self.signals@[k] == prev.signals@[k]);
                }
                assert(self.models()[i as int].vals =~= old(self).models()[i as int].vals.push(
                    if old(self).models()[i as int].vals.len() > 0 {
                        old(self).models()[i as int].vals.last()
                    } else {
                        V::empty_model()
                    },
                ));
                assert(self.models()[i as int] =~= (SigModel {
                    code: old(self).models()[i as int].code,
                    path: old(self).models()[i as int].path,
                    vals: old(self).models()[i as int].vals.push(
                        if old(self).models()[i as int].vals.len() > 0 {
                            old(self).models()[i as int].vals.last()
                        } else {
                            V::empty_model()
                        },
                    ),
                }));
                assert forall|k: int| 0 <= k < i + 1 implies self.models()[k] == (SigModel {
                    code: old(self).models()[k].code,
                    path: old(self).models()[k].path,
                    vals: old(self).models()[k].vals.push(
                        if old(self).models()[k].vals.len() > 0 {
                            old(self).models()[k].vals.last()
                        } else {
                            V::empty_model()
                        },
                    ),
                }) by {
                    if k < i {
                        assert(self.models()[k] == prev.models()[k]);
                        assert(prev.models()[k] == (SigModel {
                            code: old(self).models()[k].code,
                            path: old(self).models()[k].path,
                            vals: old(self).models()[k].vals.push(
                                if old(self).models()[k].vals.len() > 0 {
                                    old(self).models()[k].vals.last()
                                } else {
                                    V::empty_model()
                                },
                            ),
                        }));
                    }
                }
            }
            i = i + 1;
        }
    }

    /// Walks `item` depth first and registers every signal it declares,
    /// under `prefix` extended by the scope identifiers on the way.  Fails
    /// exactly when the registered and newly declared signals together
    /// repeat a path or an id.
    #[verifier::loop_isolation(false)]
    fn construct_map(&mut self, prefix: &Rc<Path<String>>, item: &ScopeItem) -> (r: Result<
        (),
        Error,
    >)
        requires
            old(self).wf(),
            all_empty(old(self).models()),
        ensures
            final(self).wf(),
            all_empty(final(self).models()),
            (match r {
                Ok(()) => final(self).models() == old(self).models() + decl_models::<V::Model>(
                    flatten_item(prefix@, *item),
                ),
                Err(e) => (e == Error::DuplicatePath && !paths_distinct(
                    old(self).models() + decl_models::<V::Model>(flatten_item(prefix@, *item)),
                )) || (e == Error::DuplicateId && !ids_distinct(
                    old(self).models() + decl_models::<V::Model>(flatten_item(prefix@, *item)),
                )),
            }),
        decreases *item,
    {
        match item {
            ScopeItem::Scope(data) => {
                let child_prefix = Rc::new(Path::extend(prefix, data.identifier.clone()));
                let ghost cpv = child_prefix@;
                let ghost ch = data.children@;
                let ghost base = old(self).models();
                proof {
                    assert(cpv == prefix@.push(data.identifier@));
                    assert(flatten_item(prefix@, *item) == flatten_items(cpv, ch));
                }
                let nch = data.children.len();
                let mut j: usize = 0;
                while j < nch
                    invariant
                        self.wf(),
                        all_empty(self.models()),
                        nch == ch.len(),
                        j <= nch,
                        ch == data.children@,
                        base == old(self).models(),
                        self.models() == base + decl_models::<V::Model>(
                            flatten_items(cpv, ch.take(j as int)),
                        ),
                    decreases nch - j,
                {
                    let ghost mid = self.models();
                    proof {
                        assert(decreases_to!(*item => data.children@[j as int])) by {
                            assert(*data == item->Scope_0);
                            assert(decreases_to!(*item => item->Scope_0));
                            assert(decreases_to!(item->Scope_0 => data.children));
                            assert(decreases_to!(data.children => data.children@));
                            assert(decreases_to!(data.children@ => data.children@[j as int]));
                        }
                    }
                    match self.construct_map(&child_prefix, &data.children[j]) {
                        Ok(()) => {
                            proof {
                                assert(self.models() == mid + decl_models::<V::Model>(
                                    flatten_item(cpv, ch[j as int]),
                                ));
                                lemma_flatten_items_snoc(cpv, ch, j as int);
                                lemma_dm_concat::<V::Model>(
                                    flatten_items(cpv, ch.take(j as int)),
                                    flatten_item(cpv, ch[j as int]),
                                );
                                assert(self.models() =~= base + decl_models::<V::Model>(
                                    flatten_items(cpv, ch.take(j + 1)),
                                ));
                            }
                        },
                        Err(e) => {
                            proof {
                                lemma_combined_prefix::<V::Model>(base, cpv, ch, j as int);
                                let upto = (base + decl_models::<V::Model>(
                                    flatten_items(cpv, ch.take(j as int)),
                                )) + decl_models::<V::Model>(flatten_item(cpv, ch[j as int]));
                                let rest = decl_models::<V::Model>(
                                    flatten_items(cpv, ch.skip(j + 1)),
                                );
                                assert(mid + decl_models::<V::Model>(
                                    flatten_item(cpv, ch[j as int]),
                                ) =~= upto);
                                if e == Error::DuplicatePath {
                                    lemma_not_paths_distinct_extend(upto, rest);
                                } else {
                                    lemma_not_ids_distinct_extend(upto, rest);
                                }
                            }
                            return Err(e);
                        },
                    }
                    j = j + 1;
                }
                proof {
                    assert(ch.take(nch as int) =~= ch);
                }
                Ok(())
            },
            ScopeItem::Var(data) => {
                let new_path = Path::extend(prefix, data.reference.clone());
                let ghost pv = new_path@;
                proof {
                    assert(pv == prefix@.push(data.reference@));
                    assert(flatten_item(prefix@, *item) =~= seq![(pv, *data)]);
                }
                let ghost base = old(self).models();
                let ghost target = SigModel::<V::Model> {
                    code: data.code,
                    path: pv,
                    vals: Seq::empty(),
                };
                proof {
                    assert(decl_models::<V::Model>(seq![(pv, *data)]) =~= seq![target]);
                }
                match self.insert(new_path, data.dup()) {
                    Ok(()) => {
                        proof {
                            assert(self.models() =~= base + seq![target]);
                        }
                        Ok(())
                    },
                    Err(e) => {
                        proof {
                            let comb = base + seq![target];
                            if e == Error::DuplicatePath {
                                let i = choose|i: int|
                                    0 <= i < base.len() && base[i].path == pv;
                                assert(comb[i] == base[i]);
                                assert(comb[base.len() as int] == target);
                                assert(!paths_distinct(comb));
                            } else {
                                let i = choose|i: int|
                                    0 <= i < base.len() && base[i].code == data.code;
                                assert(comb[i] == base[i]);
                                assert(comb[base.len() as int] == target);
                                assert(!ids_distinct(comb));
                            }
                        }
                        Err(e)
                    },
                }
            },
        }
    }

    /// Builds the table from a header: walks the declared hierarchy depth
    /// first, forming each signal's path from the scope identifiers on the
    /// way plus its display name, and registers it with an empty history.
    /// Succeeds exactly when the declared signals carry pairwise distinct
    /// paths and pairwise distinct ids.
    pub fn new(header: Header) -> (r: Result<Self, Error>)
        ensures
            (match r {
                Ok(m) => m.wf() && all_empty(m.models()) && m.models() == decl_models::<V::Model>(
                    header_decls(header),
                ),
                Err(e) => (e == Error::DuplicatePath && !paths_distinct(
                    decl_models::<V::Model>(header_decls(header)),
                )) || (e == Error::DuplicateId && !ids_distinct(
                    decl_models::<V::Model>(header_decls(header)),
                )),
            }),
            r is Ok <==> paths_distinct(decl_models::<V::Model>(header_decls(header)))
                && ids_distinct(decl_models::<V::Model>(header_decls(header))),
    {
        let mut map: SignalMap<V> = Default::default();
        proof {
            assert(map.models() =~= Seq::<SigModel<V::Model>>::empty());
        }
        let root = Rc::new(Path::empty());
        let ghost items = header.items@;
        let n = header.items.len();
        let mut i: usize = 0;
        while i < n
            invariant
                map.wf(),
                all_empty(map.models()),
                n == items.len(),
                i <= n,
                items == header.items@,
                root@ == Seq::<Seq<char>>::empty(),
                map.models() == decl_models::<V::Model>(
                    flatten_items(Seq::empty(), items.take(i as int)),
                ),
            decreases n - i,
        {
            let ghost mid = map.models();
            match map.construct_map(&root, &header.items[i]) {
                Ok(()) => {
                    proof {
                        lemma_flatten_items_snoc(Seq::empty(), items, i as int);
                        lemma_dm_concat::<V::Model>(
                            flatten_items(Seq::empty(), items.take(i as int)),
                            flatten_item(Seq::empty(), items[i as int]),
                        );
                        assert(map.models() =~= decl_models::<V::Model>(
                            flatten_items(Seq::empty(), items.take(i + 1)),
                        ));
                    }
                },
                Err(e) => {
                    proof {
                        lemma_combined_prefix::<V::Model>(
                            Seq::empty(),
                            Seq::empty(),
                            items,
                            i as int,
                        );
                        let upto = (Seq::empty() + decl_models::<V::Model>(
                            flatten_items(Seq::empty(), items.take(i as int)),
                        )) + decl_models::<V::Model>(flatten_item(Seq::empty(), items[i as int]));
                        let rest = decl_models::<V::Model>(
                            flatten_items(Seq::empty(), items.skip(i + 1)),
                        );
                        assert(mid + decl_models::<V::Model>(
                            flatten_item(Seq::empty(), items[i as int]),
                        ) =~= upto);
                        if e == Error::DuplicatePath {
                            lemma_not_paths_distinct_extend(upto, rest);
                        } else {
                            lemma_not_ids_distinct_extend(upto, rest);
                        }
                        assert(Seq::empty() + decl_models::<V::Model>(
                            flatten_items(Seq::empty(), items),
                        ) =~= decl_models::<V::Model>(header_decls(header)));
                    }
                    return Err(e);
                },
            }
            i = i + 1;
        }
        proof {
            assert(items.take(n as int) =~= items);
        }
        Ok(map)
    }
}

} // verus!
