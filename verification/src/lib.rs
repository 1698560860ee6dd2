//! Conversion core for discrete-event waveform traces.
//!
//! A trace declares a hierarchy of named signals, each carrying a compact
//! integer id, and then streams events: "advance time" and "the value of
//! signal X changed".  This library tracks every signal's complete
//! per-timestep value history under a "last value carries forward" rule and
//! finally re-indexes the histories into a tree keyed by hierarchical name
//! paths, ready for structured serialization by the caller.

pub mod errors;
pub mod map;
pub mod output;
pub mod path;
pub mod value;

use crate::errors::Error;
use crate::map::{
    all_empty, decl_models, header_decls, ids_distinct, paths_distinct, Header, SigModel,
    SignalMap,
};
use crate::output::{spec_build, OutModel, Output};
use crate::value::{Bit, ValueType};
use vstd::prelude::*;

verus! {

/// The caller's choices: an input file (standard input when absent), the
/// text representation instead of the numeric one, and pretty-printed
/// output.
pub struct Opts {
    /// The input file; standard input is read when absent.
    pub file: Option<String>,
    /// Record values as literal bit strings instead of numbers.
    pub strings: bool,
    /// Pretty-print the serialized output.
    pub pretty: bool,
}

/// One event of a trace, as the core consumes it.
pub enum Command {
    /// Time advances to a new timestep; the timestamp itself is not needed.
    Timestamp(u64),
    /// One signal's value changed to a single bit.
    ChangeScalar(u64, Bit),
    /// One signal's value changed to a bit vector.
    ChangeVector(u64, Vec<Bit>),
    /// One signal's value changed to a real, given as its decimal text.
    ChangeReal(u64, String),
    /// One signal's value changed to literal text.
    ChangeString(u64, String),
    /// Any other event kind; the core ignores it.
    Other,
}

/// How many "advance time" events a command sequence holds.
pub open spec fn count_timestamps(cmds: Seq<Command>) -> nat
    decreases cmds.len(),
{
    if cmds.len() == 0 {
        0
    } else {
        (if cmds[0] is Timestamp {
            1nat
        } else {
            0nat
        }) + count_timestamps(cmds.drop_first())
    }
}

/// The signal a command addresses, if it is a change event.
pub open spec fn cmd_target(c: Command) -> Option<u64> {
    match c {
        Command::ChangeScalar(id, _) => Some(id),
        Command::ChangeVector(id, _) => Some(id),
        Command::ChangeReal(id, _) => Some(id),
        Command::ChangeString(id, _) => Some(id),
        _ => None,
    }
}

/// What advancing time does: every history grows by one entry, the last
/// value carried forward, or the representation's initial value for a
/// history that was still empty.
pub open spec fn advance_one<M>(s: SigModel<M>, empty: M) -> SigModel<M> {
    SigModel {
        code: s.code,
        path: s.path,
        vals: s.vals.push(
            if s.vals.len() > 0 {
                s.vals.last()
            } else {
                empty
            },
        ),
    }
}

pub open spec fn step_timestamp<M>(m: Seq<SigModel<M>>, empty: M) -> Seq<SigModel<M>> {
    Seq::new(m.len(), |i: int| advance_one(m[i], empty))
}

/// What a decoded change does: the last history entry of the signal with
/// the given id is overwritten; an unknown id, or a signal with no history
/// entry yet, is an error.
pub open spec fn step_change<M>(m: Seq<SigModel<M>>, id: u64, value: M) -> Result<
    Seq<SigModel<M>>,
    Error,
> {
    if exists|i: int| 0 <= i < m.len() && m[i].code == id && m[i].vals.len() > 0 {
        Ok(Seq::new(m.len(), |i: int| change_one(m[i], id, value)))
    } else {
        Err(Error::ChangeValue)
    }
}

/// One signal's part in a change: its last entry is overwritten when the
/// id is its own, and nothing happens otherwise.
pub open spec fn change_one<M>(s: SigModel<M>, id: u64, value: M) -> SigModel<M> {
    if s.code == id && s.vals.len() > 0 {
        SigModel { code: s.code, path: s.path, vals: s.vals.update(s.vals.len() - 1, value) }
    } else {
        s
    }
}

/// What one command does to the signal table, under the representation `V`:
/// time advances, a change decodes and lands, a change the representation
/// declines is dropped, and unknown event kinds are ignored.
pub open spec fn spec_step<V: ValueType>(m: Seq<SigModel<V::Model>>, c: Command) -> Result<
    Seq<SigModel<V::Model>>,
    Error,
> {
    match c {
        Command::Timestamp(_) => Ok(step_timestamp(m, V::empty_model())),
        Command::ChangeScalar(id, b) => match V::scalar_model(b) {
            Ok(Some(v)) => step_change(m, id, v),
            Ok(None) => Ok(m),
            Err(e) => Err(e),
        },
        Command::ChangeVector(id, bits) => match V::vector_model(bits@) {
            Ok(Some(v)) => step_change(m, id, v),
            Ok(None) => Ok(m),
            Err(e) => Err(e),
        },
        Command::ChangeReal(id, text) => match V::real_model(text@) {
            Some(v) => step_change(m, id, v),
            None => Ok(m),
        },
        Command::ChangeString(id, text) => match V::string_model(text@) {
            Some(v) => step_change(m, id, v),
            None => Ok(m),
        },
        Command::Other => Ok(m),
    }
}

/// What a whole command sequence does, command by command; the first error
/// aborts the run.
pub open spec fn spec_run<V: ValueType>(m: Seq<SigModel<V::Model>>, cmds: Seq<Command>) -> Result<
    Seq<SigModel<V::Model>>,
    Error,
>
    decreases cmds.len(),
{
    if cmds.len() == 0 {
        Ok(m)
    } else {
        match spec_step::<V>(m, cmds[0]) {
            Ok(m2) => spec_run::<V>(m2, cmds.drop_first()),
            Err(e) => Err(e),
        }
    }
}

/// A table change that lands matches what [`step_change`] states.
proof fn lemma_change_matches<M>(pre: Seq<SigModel<M>>, post: Seq<SigModel<M>>, id: u64, vm: M)
    requires
        exists|i: int| 0 <= i < pre.len() && pre[i].code == id,
        post.len() == pre.len(),
        forall|i: int| #![trigger pre[i]] 0 <= i < pre.len() && pre[i].code != id ==> post[i] == pre[i],
        forall|i: int|
            #![trigger pre[i]]
            0 <= i < pre.len() && pre[i].code == id ==> pre[i].vals.len() > 0 && post[i] == (
            SigModel {
                code: pre[i].code,
                path: pre[i].path,
                vals: pre[i].vals.update(pre[i].vals.len() - 1, vm),
            }),
    ensures
        step_change(pre, id, vm) == Ok::<_, Error>(post),
{
    let w = choose|i: int| 0 <= i < pre.len() && pre[i].code == id;
    assert(0 <= w < pre.len() && pre[w].code == id && pre[w].vals.len() > 0);
    assert(step_change(pre, id, vm)->Ok_0 =~= post);
}

/// What a landed change looks like, signal by signal.
proof fn lemma_step_change_shape<M>(m: Seq<SigModel<M>>, id: u64, vm: M, m1: Seq<SigModel<M>>)
    requires
        step_change(m, id, vm) == Ok::<_, Error>(m1),
    ensures
        m1.len() == m.len(),
        forall|i: int| #![trigger m1[i]] 0 <= i < m.len() ==> m1[i] == change_one(m[i], id, vm),
        forall|i: int|
            #![trigger m1[i]]
            0 <= i < m.len() ==> m1[i].code == m[i].code && m1[i].path == m[i].path
                && m1[i].vals.len() == m[i].vals.len(),
{
    let ex = Seq::new(m.len(), |i: int| change_one(m[i], id, vm));
    assert(m1 =~= ex);
    assert forall|i: int| 0 <= i < m.len() implies m1[i] == change_one(m[i], id, vm) by {
        assert(m1[i] == ex[i]);
    }
    assert forall|i: int|
        0 <= i < m.len() implies m1[i].code == m[i].code && m1[i].path == m[i].path
        && m1[i].vals.len() == m[i].vals.len() by {
        assert(m1[i] == ex[i]);
        if m[i].vals.len() > 0 {
            assert(m[i].vals.update(m[i].vals.len() - 1, vm).len() == m[i].vals.len());
        }
    }
}

/// What an advanced table looks like, signal by signal.
proof fn lemma_step_timestamp_shape<M>(m: Seq<SigModel<M>>, empty: M, m1: Seq<SigModel<M>>)
    requires
        m1 == step_timestamp(m, empty),
    ensures
        m1.len() == m.len(),
        forall|i: int| #![trigger m1[i]] 0 <= i < m.len() ==> m1[i] == advance_one(m[i], empty),
        forall|i: int|
            #![trigger m1[i]]
            0 <= i < m.len() ==> m1[i].code == m[i].code && m1[i].path == m[i].path
                && m1[i].vals.len() == m[i].vals.len() + 1,
{
    let ex = Seq::new(m.len(), |i: int| advance_one(m[i], empty));
    assert(m1 =~= ex);
    assert forall|i: int| 0 <= i < m.len() implies m1[i] == advance_one(m[i], empty) by {
        assert(m1[i] == ex[i]);
    }
    assert forall|i: int|
        0 <= i < m.len() implies m1[i].code == m[i].code && m1[i].path == m[i].path
        && m1[i].vals.len() == m[i].vals.len() + 1 by {
        assert(m1[i] == ex[i]);
        assert(m[i].vals.push(
            if m[i].vals.len() > 0 {
                m[i].vals.last()
            } else {
                empty
            },
        ).len() == m[i].vals.len() + 1);
    }
}

/// Applies every command to the table, in order: "advance time" grows every
/// history by one carried-forward entry, a change event decodes into the
/// representation and overwrites the addressed signal's last entry, and a
/// change the representation declines is dropped.  The table afterwards is
/// exactly what [`spec_run`] states; the first error aborts and is returned.
#[verifier::loop_isolation(false)]
pub fn process_commands<V: ValueType>(map: &mut SignalMap<V>, commands: &Vec<Command>) -> (r:
    Result<(), Error>)
    requires
        old(map).wf(),
    ensures
        final(map).wf(),
        (match r {
            Ok(()) => spec_run::<V>(old(map).models(), commands@) == Ok::<_, Error>(
                final(map).models(),
            ),
            Err(e) => spec_run::<V>(old(map).models(), commands@) == Err::<
                Seq<SigModel<V::Model>>,
                _,
            >(e),
        }),
{
    let n = commands.len();
    let mut i: usize = 0;
    proof {
        assert(commands@.skip(0) =~= commands@);
    }
    while i < n
        invariant
            map.wf(),
            i <= n,
            spec_run::<V>(old(map).models(), commands@) == spec_run::<V>(
                map.models(),
                commands@.skip(i as int),
            ),
        decreases n - i,
    {
        let ghost pre = map.models();
        let ghost rest = commands@.skip(i as int);
        proof {
            assert(rest[0] == commands@[i as int]);
            assert(rest.drop_first() =~= commands@.skip(i + 1));
        }
        match &commands[i] {
            Command::Timestamp(_) => {
                map.push_timestep();
                proof {
                    assert(map.models() =~= step_timestamp(pre, V::empty_model()));
                }
            },
            Command::ChangeScalar(id, b) => {
                match V::from_scalar(*b) {
                    Err(e) => {
                        return Err(e);
                    },
                    Ok(None) => {},
                    Ok(Some(v)) => {
                        let ghost vm = v.model();
                        match map.change_value(*id, v) {
                            Ok(()) => {
                                proof {
                                    lemma_change_matches(pre, map.models(), *id, vm);
                                }
                            },
                            Err(e) => {
                                return Err(e);
                            },
                        }
                    },
                }
            },
            Command::ChangeVector(id, bits) => {
                match V::from_vector(bits) {
                    Err(e) => {
                        return Err(e);
                    },
                    Ok(None) => {},
                    Ok(Some(v)) => {
                        let ghost vm = v.model();
                        match map.change_value(*id, v) {
                            Ok(()) => {
                                proof {
                                    lemma_change_matches(pre, map.models(), *id, vm);
                                }
                            },
                            Err(e) => {
                                return Err(e);
                            },
                        }
                    },
                }
            },
            Command::ChangeReal(id, text) => {
                match V::from_real(text.clone()) {
                    Err(e) => {
                        return Err(e);
                    },
                    Ok(None) => {},
                    Ok(Some(v)) => {
                        let ghost vm = v.model();
                        match map.change_value(*id, v) {
                            Ok(()) => {
                                proof {
                                    lemma_change_matches(pre, map.models(), *id, vm);
                                }
                            },
                            Err(e) => {
                                return Err(e);
                            },
                        }
                    },
                }
            },
            Command::ChangeString(id, text) => {
                match V::from_string(text.clone()) {
                    Err(e) => {
                        return Err(e);
                    },
                    Ok(None) => {},
                    Ok(Some(v)) => {
                        let ghost vm = v.model();
                        match map.change_value(*id, v) {
                            Ok(()) => {
                                proof {
                                    lemma_change_matches(pre, map.models(), *id, vm);
                                }
                            },
                            Err(e) => {
                                return Err(e);
                            },
                        }
                    },
                }
            },
            Command::Other => {},
        }
        i = i + 1;
    }
    proof {
        assert(commands@.skip(n as int) =~= Seq::<Command>::empty());
    }
    Ok(())
}

/// Re-indexes the finished table into the output tree: every (path,
/// history) pair is inserted in table order.  The tree afterwards is
/// exactly what [`spec_build`] states, starting from an empty root scope;
/// the first path-prefix collision aborts and is returned.
#[verifier::loop_isolation(false)]
pub fn build_output<V: ValueType>(map: SignalMap<V>) -> (r: Result<Output<V>, Error>)
    ensures
        (match r {
            Ok(out) => spec_build(OutModel::Scope(Seq::empty()), map.models()) == Ok::<_, Error>(
                out.model(),
            ),
            Err(e) => spec_build(OutModel::Scope(Seq::empty()), map.models()) == Err::<
                OutModel<V::Model>,
                _,
            >(e),
        }),
{
    let ghost init = map.models();
    let mut map = map;
    let mut out: Output<V> = Default::default();
    proof {
        assert(out.model() == OutModel::<V::Model>::Scope(Seq::empty())) by {
            assert(crate::output::entries_model(out->Scope_0@)
                =~= Seq::<(Seq<char>, OutModel<V::Model>)>::empty());
        }
    }
    while map.signals.len() > 0
        invariant
            spec_build(OutModel::Scope(Seq::empty()), init) == spec_build(
                out.model(),
                map.models(),
            ),
        decreases map.signals@.len(),
    {
        let ghost pre = map.models();
        let ghost tree = out.model();
        let entry = map.signals.remove(0);
        proof {
            assert(map.models() =~= pre.drop_first());
            assert(entry.0@ == pre[0].path);
            assert(crate::output::series_model(entry.1.values@) =~= pre[0].vals);
        }
        match out.insert(entry.0, entry.1.values) {
            Ok(()) => {},
            Err(e) => {
                return Err(e);
            },
        }
    }
    proof {
        assert(map.models() =~= Seq::<SigModel<V::Model>>::empty());
    }
    Ok(out)
}

/// Converts one whole trace: builds the signal table from the declared
/// hierarchy, applies every event in order, and re-indexes the finished
/// histories into the output tree.  Each stage's exact behaviour is stated
/// by [`SignalMap::new`], [`spec_run`] and [`spec_build`]; the first error
/// of any stage aborts the conversion and is returned, with no partial
/// result.
pub fn run<V: ValueType>(header: Header, commands: Vec<Command>) -> (r: Result<Output<V>, Error>)
    ensures
        ({
            let decls = decl_models::<V::Model>(header_decls(header));
            match r {
                Ok(out) => paths_distinct(decls) && ids_distinct(decls) && (match spec_run::<V>(
                    decls,
                    commands@,
                ) {
                    Ok(m2) => spec_build(OutModel::Scope(Seq::empty()), m2) == Ok::<_, Error>(
                        out.model(),
                    ),
                    Err(_) => false,
                }),
                Err(e) => ((e == Error::DuplicatePath && !paths_distinct(decls)) || (e
                    == Error::DuplicateId && !ids_distinct(decls))) || (paths_distinct(decls)
                    && ids_distinct(decls) && (match spec_run::<V>(decls, commands@) {
                    Ok(m2) => spec_build(OutModel::Scope(Seq::empty()), m2) == Err::<
                        OutModel<V::Model>,
                        _,
                    >(e),
                    Err(e2) => e == e2,
                })),
            }
        }),
{
    let mut map: SignalMap<V> = match SignalMap::new(header) {
        Ok(m) => m,
        Err(e) => {
            return Err(e);
        },
    };
    match process_commands(&mut map, &commands) {
        Ok(()) => {},
        Err(e) => {
            return Err(e);
        },
    }
    build_output(map)
}

/// Law: a successful run touches no signal's id or path, and grows every
/// history by exactly the number of "advance time" events among the
/// commands.
pub proof fn lemma_timestep_count<V: ValueType>(
    m: Seq<SigModel<V::Model>>,
    cmds: Seq<Command>,
    m2: Seq<SigModel<V::Model>>,
)
    requires
        spec_run::<V>(m, cmds) == Ok::<_, Error>(m2),
    ensures
        m2.len() == m.len(),
        forall|i: int|
            0 <= i < m.len() ==> m2[i].code == m[i].code && m2[i].path == m[i].path
                && m2[i].vals.len() == m[i].vals.len() + count_timestamps(cmds),
    decreases cmds.len(),
{
    if cmds.len() > 0 {
        match spec_step::<V>(m, cmds[0]) {
            Ok(m1) => {
                lemma_timestep_count::<V>(m1, cmds.drop_first(), m2);
                match cmds[0] {
                    Command::Timestamp(_) => {
                        lemma_step_timestamp_shape(m, V::empty_model(), m1);
                    },
                    Command::ChangeScalar(id, b) => {
                        match V::scalar_model(b) {
                            Ok(Some(v)) => {
                                lemma_step_change_shape(m, id, v, m1);
                            },
                            _ => {},
                        }
                    },
                    Command::ChangeVector(id, bits) => {
                        match V::vector_model(bits@) {
                            Ok(Some(v)) => {
                                lemma_step_change_shape(m, id, v, m1);
                            },
                            _ => {},
                        }
                    },
                    Command::ChangeReal(id, text) => {
                        match V::real_model(text@) {
                            Some(v) => {
                                lemma_step_change_shape(m, id, v, m1);
                            },
                            None => {},
                        }
                    },
                    Command::ChangeString(id, text) => {
                        match V::string_model(text@) {
                            Some(v) => {
                                lemma_step_change_shape(m, id, v, m1);
                            },
                            None => {},
                        }
                    },
                    Command::Other => {},
                }
                assert(m1.len() == m.len());
                assert forall|i: int| 0 <= i < m.len() implies m1[i].code == m[i].code
                    && m1[i].path == m[i].path && m1[i].vals.len() == m[i].vals.len() + (
                if cmds[0] is Timestamp {
                    1int
                } else {
                    0int
                }) by {}
            },
            Err(_) => {},
        }
    }
}

/// Law: starting from a fresh table, after a run with N "advance time"
/// events every registered signal's history has length exactly N.
pub proof fn lemma_history_length<V: ValueType>(
    m: Seq<SigModel<V::Model>>,
    cmds: Seq<Command>,
    m2: Seq<SigModel<V::Model>>,
)
    requires
        spec_run::<V>(m, cmds) == Ok::<_, Error>(m2),
        all_empty(m),
    ensures
        m2.len() == m.len(),
        forall|i: int| 0 <= i < m2.len() ==> m2[i].vals.len() == count_timestamps(cmds),
{
    lemma_timestep_count::<V>(m, cmds, m2);
}

/// Law: a real-valued change applied to a representation that declines
/// reals leaves every signal's history unchanged.
pub proof fn lemma_real_change_dropped<V: ValueType>(
    m: Seq<SigModel<V::Model>>,
    id: u64,
    text: String,
)
    requires
        V::real_model(text@) is None,
    ensures
        spec_step::<V>(m, Command::ChangeReal(id, text)) == Ok::<_, Error>(m),
{
}

/// Whether some change event addresses signal `id` during timestep `k`:
/// it follows the (k+1)-th "advance time" event and precedes the next one.
pub open spec fn changed_in_step(cmds: Seq<Command>, id: u64, k: int) -> bool {
    exists|j: int|
        0 <= j < cmds.len() && cmd_target(cmds[j]) == Some(id) && count_timestamps(cmds.take(j))
            == k + 1
}

/// Whether some change event addresses signal `id` before any further
/// "advance time" event.
pub open spec fn changes_current(cmds: Seq<Command>, id: u64) -> bool {
    exists|j: int|
        0 <= j < cmds.len() && cmd_target(cmds[j]) == Some(id) && count_timestamps(cmds.take(j))
            == 0
}

/// Counting "advance time" events through one more command takes one step.
proof fn lemma_count_take_shift(cmds: Seq<Command>, j: int)
    requires
        0 <= j,
        j + 1 <= cmds.len(),
        cmds.len() > 0,
    ensures
        count_timestamps(cmds.take(j + 1)) == (if cmds[0] is Timestamp {
            1nat
        } else {
            0nat
        }) + count_timestamps(cmds.drop_first().take(j)),
{
    assert(cmds.take(j + 1)[0] == cmds[0]);
    assert(cmds.take(j + 1).drop_first() =~= cmds.drop_first().take(j));
}

/// After one command, the events addressing `id` before the next "advance
/// time" event are the same, provided that command neither advances time
/// nor addresses `id` itself at offset zero; and with an advance in front,
/// the events of the following timestep move down by one advance.
proof fn lemma_not_changed_shift(cmds: Seq<Command>, id: u64, o: int)
    requires
        cmds.len() > 0,
        1 <= o,
        !(exists|j: int|
            0 <= j < cmds.len() && cmd_target(cmds[j]) == Some(id) && count_timestamps(
                cmds.take(j),
            ) == o),
    ensures
        cmds[0] is Timestamp ==> !(exists|j: int|
            0 <= j < cmds.drop_first().len() && cmd_target(cmds.drop_first()[j]) == Some(id)
                && count_timestamps(cmds.drop_first().take(j)) == o - 1),
        !(cmds[0] is Timestamp) ==> !(exists|j: int|
            0 <= j < cmds.drop_first().len() && cmd_target(cmds.drop_first()[j]) == Some(id)
                && count_timestamps(cmds.drop_first().take(j)) == o),
{
    let rest = cmds.drop_first();
    if cmds[0] is Timestamp {
        if exists|j: int|
            0 <= j < rest.len() && cmd_target(rest[j]) == Some(id) && count_timestamps(
                rest.take(j),
            ) == o - 1 {
            let j = choose|j: int|
                0 <= j < rest.len() && cmd_target(rest[j]) == Some(id) && count_timestamps(
                    rest.take(j),
                ) == o - 1;
            lemma_count_take_shift(cmds, j);
            assert(cmds[j + 1] == rest[j]);
            assert(0 <= j + 1 < cmds.len() && cmd_target(cmds[j + 1]) == Some(id)
                && count_timestamps(cmds.take(j + 1)) == o);
        }
    } else {
        if exists|j: int|
            0 <= j < rest.len() && cmd_target(rest[j]) == Some(id) && count_timestamps(
                rest.take(j),
            ) == o {
            let j = choose|j: int|
                0 <= j < rest.len() && cmd_target(rest[j]) == Some(id) && count_timestamps(
                    rest.take(j),
                ) == o;
            lemma_count_take_shift(cmds, j);
            assert(cmds[j + 1] == rest[j]);
            assert(0 <= j + 1 < cmds.len() && cmd_target(cmds[j + 1]) == Some(id)
                && count_timestamps(cmds.take(j + 1)) == o);
        }
    }
}

/// A history entry below the mutable last slot never changes again; and
/// the last slot survives the remaining commands when none of them
/// addresses its signal before the next "advance time" event.
proof fn lemma_run_slot<V: ValueType>(
    m: Seq<SigModel<V::Model>>,
    cmds: Seq<Command>,
    m2: Seq<SigModel<V::Model>>,
    i: int,
    k: int,
)
    requires
        spec_run::<V>(m, cmds) == Ok::<_, Error>(m2),
        0 <= i < m.len(),
        0 <= k,
    ensures
        m2.len() == m.len(),
        m2[i].code == m[i].code,
        m[i].vals.len() >= k + 2 ==> k < m2[i].vals.len() && m2[i].vals[k] == m[i].vals[k],
        (m[i].vals.len() == k + 1 && !changes_current(cmds, m[i].code)) ==> k < m2[i].vals.len()
            && m2[i].vals[k] == m[i].vals[k],
    decreases cmds.len(),
{
    lemma_timestep_count::<V>(m, cmds, m2);
    if cmds.len() > 0 {
        let rest = cmds.drop_first();
        match spec_step::<V>(m, cmds[0]) {
            Ok(m1) => {
                match cmds[0] {
                    Command::Timestamp(_) => {
                        lemma_step_timestamp_shape(m, V::empty_model(), m1);
                        lemma_run_slot::<V>(m1, rest, m2, i, k);
                        assert(m1[i] == advance_one(m[i], V::empty_model()));
                        if m[i].vals.len() >= k + 1 {
                            assert(m1[i].vals[k] == m[i].vals[k]);
                        }
                    },
                    Command::Other => {
                        lemma_run_slot::<V>(m1, rest, m2, i, k);
                        if m[i].vals.len() == k + 1 && !changes_current(cmds, m[i].code) {
                            assert(!changes_current(rest, m[i].code)) by {
                                if changes_current(rest, m[i].code) {
                                    let j = choose|j: int|
                                        0 <= j < rest.len() && cmd_target(rest[j]) == Some(
                                            m[i].code,
                                        ) && count_timestamps(rest.take(j)) == 0;
                                    lemma_count_take_shift(cmds, j);
                                    assert(cmds[j + 1] == rest[j]);
                                    assert(changes_current(cmds, m[i].code));
                                }
                            }
                        }
                    },
                    _ => {
                        let id0 = cmd_target(cmds[0])->Some_0;
                        lemma_run_slot::<V>(m1, rest, m2, i, k);
                        assert(m1[i].vals.len() == m[i].vals.len() && m1[i].code == m[i].code)
                            by {
                            if m1 != m {
                                match cmds[0] {
                                    Command::ChangeScalar(id, b) => {
                                        match V::scalar_model(b) {
                                            Ok(Some(v)) => {
                                                lemma_step_change_shape(m, id, v, m1);
                                            },
                                            _ => {},
                                        }
                                    },
                                    Command::ChangeVector(id, bits) => {
                                        match V::vector_model(bits@) {
                                            Ok(Some(v)) => {
                                                lemma_step_change_shape(m, id, v, m1);
                                            },
                                            _ => {},
                                        }
                                    },
                                    Command::ChangeReal(id, text) => {
                                        match V::real_model(text@) {
                                            Some(v) => {
                                                lemma_step_change_shape(m, id, v, m1);
                                            },
                                            None => {},
                                        }
                                    },
                                    Command::ChangeString(id, text) => {
                                        match V::string_model(text@) {
                                            Some(v) => {
                                                lemma_step_change_shape(m, id, v, m1);
                                            },
                                            None => {},
                                        }
                                    },
                                    _ => {},
                                }
                            }
                        }
                        if m[i].vals.len() >= k + 2 {
                            assert(m1[i].vals[k] == m[i].vals[k]) by {
                                if m1 != m {
                                    match cmds[0] {
                                        Command::ChangeScalar(id, b) => {
                                            match V::scalar_model(b) {
                                                Ok(Some(v)) => {
                                                    lemma_step_change_shape(m, id, v, m1);
                                                    assert(m1[i] == change_one(m[i], id, v));
                                                },
                                                _ => {},
                                            }
                                        },
                                        Command::ChangeVector(id, bits) => {
                                            match V::vector_model(bits@) {
                                                Ok(Some(v)) => {
                                                    lemma_step_change_shape(m, id, v, m1);
                                                    assert(m1[i] == change_one(m[i], id, v));
                                                },
                                                _ => {},
                                            }
                                        },
                                        Command::ChangeReal(id, text) => {
                                            match V::real_model(text@) {
                                                Some(v) => {
                                                    lemma_step_change_shape(m, id, v, m1);
                                                    assert(m1[i] == change_one(m[i], id, v));
                                                },
                                                None => {},
                                            }
                                        },
                                        Command::ChangeString(id, text) => {
                                            match V::string_model(text@) {
                                                Some(v) => {
                                                    lemma_step_change_shape(m, id, v, m1);
                                                    assert(m1[i] == change_one(m[i], id, v));
                                                },
                                                None => {},
                                            }
                                        },
                                        _ => {},
                                    }
                                }
                            }
                        }
                        if m[i].vals.len() == k + 1 && !changes_current(cmds, m[i].code) {
                            assert(cmd_target(cmds[0]) == Some(id0));
                            assert(count_timestamps(cmds.take(0)) == 0) by {
                                assert(cmds.take(0) =~= Seq::<Command>::empty());
                            }
                            assert(id0 != m[i].code);
                            assert(m1[i] == m[i]) by {
                                if m1 != m {
                                    match cmds[0] {
                                        Command::ChangeScalar(id, b) => {
                                            match V::scalar_model(b) {
                                                Ok(Some(v)) => {
                                                    lemma_step_change_shape(m, id, v, m1);
                                                    assert(m1[i] == change_one(m[i], id, v));
                                                },
                                                _ => {},
                                            }
                                        },
                                        Command::ChangeVector(id, bits) => {
                                            match V::vector_model(bits@) {
                                                Ok(Some(v)) => {
                                                    lemma_step_change_shape(m, id, v, m1);
                                                    assert(m1[i] == change_one(m[i], id, v));
                                                },
                                                _ => {},
                                            }
                                        },
                                        Command::ChangeReal(id, text) => {
                                            match V::real_model(text@) {
                                                Some(v) => {
                                                    lemma_step_change_shape(m, id, v, m1);
                                                    assert(m1[i] == change_one(m[i], id, v));
                                                },
                                                None => {},
                                            }
                                        },
                                        Command::ChangeString(id, text) => {
                                            match V::string_model(text@) {
                                                Some(v) => {
                                                    lemma_step_change_shape(m, id, v, m1);
                                                    assert(m1[i] == change_one(m[i], id, v));
                                                },
                                                None => {},
                                            }
                                        },
                                        _ => {},
                                    }
                                }
                            }
                            assert(!changes_current(rest, m[i].code)) by {
                                if changes_current(rest, m[i].code) {
                                    let j = choose|j: int|
                                        0 <= j < rest.len() && cmd_target(rest[j]) == Some(
                                            m[i].code,
                                        ) && count_timestamps(rest.take(j)) == 0;
                                    lemma_count_take_shift(cmds, j);
                                    assert(cmds[j + 1] == rest[j]);
                                    assert(changes_current(cmds, m[i].code));
                                }
                            }
                        }
                    },
                }
            },
            Err(_) => {},
        }
    }
}

/// Once the (k+1)-th "advance time" event creates history slot `k`, the
/// slot starts as a copy of slot `k-1`; it then keeps that value when no
/// change event addresses the signal during timestep `k`.
proof fn lemma_carry_created<V: ValueType>(
    m: Seq<SigModel<V::Model>>,
    cmds: Seq<Command>,
    m2: Seq<SigModel<V::Model>>,
    i: int,
    k: int,
)
    requires
        spec_run::<V>(m, cmds) == Ok::<_, Error>(m2),
        0 <= i < m.len(),
        1 <= k,
        m[i].vals.len() <= k,
        !(exists|j: int|
            0 <= j < cmds.len() && cmd_target(cmds[j]) == Some(m[i].code) && count_timestamps(
                cmds.take(j),
            ) == k + 1 - m[i].vals.len()),
    ensures
        m2.len() == m.len(),
        k < m2[i].vals.len() ==> m2[i].vals[k] == m2[i].vals[k - 1],
    decreases cmds.len(),
{
    lemma_timestep_count::<V>(m, cmds, m2);
    if cmds.len() > 0 {
        let rest = cmds.drop_first();
        let o = k + 1 - m[i].vals.len();
        match spec_step::<V>(m, cmds[0]) {
            Ok(m1) => {
                lemma_not_changed_shift(cmds, m[i].code, o);
                match cmds[0] {
                    Command::Timestamp(_) => {
                        lemma_step_timestamp_shape(m, V::empty_model(), m1);
                        assert(m1[i] == advance_one(m[i], V::empty_model()));
                        if m1[i].vals.len() <= k {
                            lemma_carry_created::<V>(m1, rest, m2, i, k);
                        } else {
                            assert(m1[i].vals.len() == k + 1);
                            assert(m[i].vals.len() == k);
                            assert(m1[i].vals[k] == m[i].vals[k - 1]);
                            assert(m1[i].vals[k - 1] == m[i].vals[k - 1]);
                            lemma_run_slot::<V>(m1, rest, m2, i, k);
                            lemma_run_slot::<V>(m1, rest, m2, i, k - 1);
                            assert(!changes_current(rest, m1[i].code));
                            assert(m2[i].vals[k] == m1[i].vals[k]);
                            assert(m2[i].vals[k - 1] == m1[i].vals[k - 1]);
                        }
                    },
                    Command::Other => {
                        lemma_carry_created::<V>(m1, rest, m2, i, k);
                    },
                    _ => {
                        assert(m1[i].vals.len() == m[i].vals.len() && m1[i].code == m[i].code)
                            by {
                            if m1 != m {
                                match cmds[0] {
                                    Command::ChangeScalar(id, b) => {
                                        match V::scalar_model(b) {
                                            Ok(Some(v)) => {
                                                lemma_step_change_shape(m, id, v, m1);
                                            },
                                            _ => {},
                                        }
                                    },
                                    Command::ChangeVector(id, bits) => {
                                        match V::vector_model(bits@) {
                                            Ok(Some(v)) => {
                                                lemma_step_change_shape(m, id, v, m1);
                                            },
                                            _ => {},
                                        }
                                    },
                                    Command::ChangeReal(id, text) => {
                                        match V::real_model(text@) {
                                            Some(v) => {
                                                lemma_step_change_shape(m, id, v, m1);
                                            },
                                            None => {},
                                        }
                                    },
                                    Command::ChangeString(id, text) => {
                                        match V::string_model(text@) {
                                            Some(v) => {
                                                lemma_step_change_shape(m, id, v, m1);
                                            },
                                            None => {},
                                        }
                                    },
                                    _ => {},
                                }
                            }
                        }
                        lemma_carry_created::<V>(m1, rest, m2, i, k);
                    },
                }
            },
            Err(_) => {},
        }
    }
}

/// Carry-forward law: starting from a fresh table, if no change event
/// addresses a signal during timestep `k` (with `k > 0`), the signal's
/// value at timestep `k` equals its value at timestep `k - 1`.
pub proof fn lemma_carry_forward<V: ValueType>(
    m: Seq<SigModel<V::Model>>,
    cmds: Seq<Command>,
    m2: Seq<SigModel<V::Model>>,
    i: int,
    k: int,
)
    requires
        spec_run::<V>(m, cmds) == Ok::<_, Error>(m2),
        all_empty(m),
        0 <= i < m.len(),
        1 <= k,
        k < m2[i].vals.len(),
        !changed_in_step(cmds, m[i].code, k),
    ensures
        m2[i].vals[k] == m2[i].vals[k - 1],
{
    assert(!(exists|j: int|
        0 <= j < cmds.len() && cmd_target(cmds[j]) == Some(m[i].code) && count_timestamps(
            cmds.take(j),
        ) == k + 1 - m[i].vals.len()));
    lemma_carry_created::<V>(m, cmds, m2, i, k);
}

} // verus!
