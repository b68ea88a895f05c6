use crate::keymap::Key;
use vstd::prelude::*;

verus! {

/// The writes for each key in order, concatenated.
pub open spec fn ops_fold<T>(keys: Seq<Key>, f: spec_fn(Key) -> Seq<T>) -> Seq<T>
    decreases keys.len(),
{
    if keys.len() == 0 {
        Seq::empty()
    } else {
        ops_fold(keys.drop_last(), f) + f(keys.last())
    }
}

/// A step applied for each key in order; the first failure stops it.
pub open spec fn step_fold<M, E>(init: M, keys: Seq<Key>, f: spec_fn(M, Key) -> Result<M, E>) -> Result<M, E>
    decreases keys.len(),
{
    if keys.len() == 0 {
        Ok(init)
    } else {
        match step_fold(init, keys.drop_last(), f) {
            Err(e) => Err(e),
            Ok(m) => f(m, keys.last()),
        }
    }
}

/// The writes for a prefix of the keys are a prefix of the writes for all of them.
pub proof fn lemma_ops_fold_prefix<T>(keys: Seq<Key>, i: int, f: spec_fn(Key) -> Seq<T>)
    requires
        0 <= i <= keys.len(),
    ensures
        ops_fold(keys.subrange(0, i), f).is_prefix_of(ops_fold(keys, f)),
    decreases keys.len() - i,
{
    if i < keys.len() {
        lemma_ops_fold_prefix(keys, i + 1, f);
        let s = keys.subrange(0, i + 1);
        assert(s.drop_last() =~= keys.subrange(0, i));
        let a = ops_fold(keys.subrange(0, i), f);
        let b = ops_fold(s, f);
        let c = ops_fold(keys, f);
        assert(b == a + f(keys[i]));
        assert(a =~= b.subrange(0, a.len() as int));
        assert(b =~= c.subrange(0, b.len() as int));
        assert(a =~= c.subrange(0, a.len() as int));
    } else {
        assert(keys.subrange(0, i) =~= keys);
    }
}

/// The writes for one more key extend the writes for a prefix.
pub proof fn lemma_ops_fold_step<T>(keys: Seq<Key>, i: int, f: spec_fn(Key) -> Seq<T>)
    requires
        0 <= i < keys.len(),
    ensures
        ops_fold(keys.subrange(0, i + 1), f) == ops_fold(keys.subrange(0, i), f) + f(keys[i]),
{
    assert(keys.subrange(0, i + 1).drop_last() =~= keys.subrange(0, i));
}

/// A step that fails on a prefix of the keys fails the same way on all of them.
pub proof fn lemma_step_fold_err<M, E>(init: M, keys: Seq<Key>, i: int, f: spec_fn(M, Key) -> Result<M, E>)
    requires
        0 <= i <= keys.len(),
        step_fold(init, keys.subrange(0, i), f) is Err,
    ensures
        step_fold(init, keys, f) == step_fold(init, keys.subrange(0, i), f),
    decreases keys.len() - i,
{
    if i < keys.len() {
        assert(keys.subrange(0, i + 1).drop_last() =~= keys.subrange(0, i));
        lemma_step_fold_err(init, keys, i + 1, f);
    } else {
        assert(keys.subrange(0, i) =~= keys);
    }
}

/// One more key of a step.
pub proof fn lemma_step_fold_step<M, E>(init: M, keys: Seq<Key>, i: int, f: spec_fn(M, Key) -> Result<M, E>)
    requires
        0 <= i < keys.len(),
    ensures
        step_fold(init, keys.subrange(0, i + 1), f) == match step_fold(init, keys.subrange(0, i), f) {
            Err(e) => Err(e),
            Ok(m) => f(m, keys[i]),
        },
{
    assert(keys.subrange(0, i + 1).drop_last() =~= keys.subrange(0, i));
}

/// Folding the keys stops at key `i`: the keys before it fold into `m`, and the step of key `i`
/// fails.
pub open spec fn fold_stops_at<M, E>(init: M, keys: Seq<Key>, f: spec_fn(M, Key) -> Result<M, E>, i: int, m: M) -> bool {
    &&& 0 <= i < keys.len()
    &&& step_fold(init, keys.subrange(0, i), f) == Ok::<M, E>(m)
    &&& f(m, keys[i]) is Err
}

/// Where folding stops, its failure is the failure of the whole fold.
pub proof fn lemma_fold_stops_err<M, E>(init: M, keys: Seq<Key>, f: spec_fn(M, Key) -> Result<M, E>, i: int, m: M)
    requires
        fold_stops_at(init, keys, f, i, m),
    ensures
        step_fold(init, keys, f) == f(m, keys[i]),
{
    lemma_step_fold_step(init, keys, i, f);
    lemma_step_fold_err(init, keys, i + 1, f);
}

/// All keys of a step.
pub proof fn lemma_fold_whole(keys: Seq<Key>)
    ensures
        keys.subrange(0, keys.len() as int) == keys,
{
    assert(keys.subrange(0, keys.len() as int) =~= keys);
}

/// The writes grew by a prefix of `full`.
pub open spec fn extended_by_prefix<T>(before: Seq<T>, after: Seq<T>, full: Seq<T>) -> bool {
    &&& before.len() <= after.len() <= before.len() + full.len()
    &&& after == before + full.subrange(0, after.len() - before.len())
}

/// Writes `before + p` where `p` is a prefix of `full` end up being a prefix of `full` extended.
pub proof fn lemma_prefix_extends<T>(before: Seq<T>, p: Seq<T>, full: Seq<T>)
    requires
        p.is_prefix_of(full),
    ensures
        extended_by_prefix(before, before + p, full),
{
    assert((before + p).len() - before.len() == p.len());
    assert(p =~= full.subrange(0, p.len() as int));
}

/// The writes produced since `ops0`, when they grew by a prefix of one step after complete earlier
/// steps, are a prefix of the writes of all steps.
pub proof fn lemma_produced_prefix<T>(
    ops0: Seq<T>,
    done: Seq<T>,
    after: Seq<T>,
    step: Seq<T>,
    rest: Seq<T>,
    full: Seq<T>,
)
    requires
        extended_by_prefix(ops0 + done, after, step),
        full == done + step + rest,
    ensures
        after.skip(ops0.len() as int).is_prefix_of(full),
{
    let k = after.len() - (ops0 + done).len();
    assert(after.skip(ops0.len() as int) =~= done + step.subrange(0, k));
    assert(done + step.subrange(0, k) =~= full.subrange(0, done.len() + k));
}

/// A step that succeeds on every key of the map it is given and keeps that map's keys succeeds over
/// keys that are all in the initial map, and keeps its keys.
pub proof fn lemma_step_fold_ok<V, E>(
    init: Map<Seq<u8>, V>,
    keys: Seq<Key>,
    f: spec_fn(Map<Seq<u8>, V>, Key) -> Result<Map<Seq<u8>, V>, E>,
)
    requires
        forall|m: Map<Seq<u8>, V>, k: Key| m.dom().contains(k@) ==> (#[trigger] f(m, k)) is Ok && f(m, k)->Ok_0.dom() == m.dom(),
        forall|i: int| 0 <= i < keys.len() ==> init.dom().contains(#[trigger] keys[i]@),
    ensures
        step_fold(init, keys, f) is Ok,
        step_fold(init, keys, f)->Ok_0.dom() == init.dom(),
    decreases keys.len(),
{
    if keys.len() > 0 {
        let prev = keys.drop_last();
        assert forall|i: int| 0 <= i < prev.len() implies init.dom().contains(#[trigger] prev[i]@) by {
            assert(prev[i] == keys[i]);
        }
        lemma_step_fold_ok(init, prev, f);
        let m = step_fold(init, prev, f)->Ok_0;
        assert(init.dom().contains(keys[keys.len() - 1]@));
        assert(m.dom().contains(keys.last()@));
    }
}

} // verus!
