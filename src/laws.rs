use vstd::prelude::*;


verus! {

/// The entries that result from storing each pair of `ops`, in order, into
/// a table that holds `m`.
pub open spec fn inserts_applied<V>(m: Map<usize, V>, ops: Seq<(usize, V)>) -> Map<usize, V>
    decreases ops.len(),
{
    if ops.len() == 0 {
        m
    } else {
        inserts_applied(m, ops.drop_last()).insert(ops.last().0, ops.last().1)
    }
}

/// After a sequence of inserts into an empty table, a key holds the value
/// of the last insert that named it.
pub proof fn lemma_last_write_wins<V>(ops: Seq<(usize, V)>, i: int)
    requires
        0 <= i < ops.len(),
        forall|j: int| i < j < ops.len() ==> (#[trigger] ops[j]).0 != ops[i].0,
    ensures
        inserts_applied(Map::<usize, V>::empty(), ops).contains_key(ops[i].0),
        inserts_applied(Map::<usize, V>::empty(), ops)[ops[i].0] == ops[i].1,
    decreases ops.len(),
{
    if i < ops.len() - 1 {
        let d = ops.drop_last();
        assert forall|j: int| i < j < d.len() implies (#[trigger] d[j]).0 != d[i].0 by {
            assert(d[j] == ops[j]);
        }
        lemma_last_write_wins(d, i);
        assert(ops.last() == ops[ops.len() - 1]);
    }
}

/// After inserts of distinct keys into an empty table, each key holds the
/// value inserted with it.
pub proof fn lemma_round_trip<V>(ops: Seq<(usize, V)>)
    requires
        forall|i: int, j: int| 0 <= i < j < ops.len() ==> (#[trigger] ops[i]).0 != (#[trigger] ops[j]).0,
    ensures
        forall|i: int|
            0 <= i < ops.len() ==> {
                &&& inserts_applied(Map::<usize, V>::empty(), ops).contains_key(#[trigger] ops[i].0)
                &&& inserts_applied(Map::<usize, V>::empty(), ops)[ops[i].0] == ops[i].1
            },
{
    assert forall|i: int| 0 <= i < ops.len() implies {
        &&& inserts_applied(Map::<usize, V>::empty(), ops).contains_key(#[trigger] ops[i].0)
        &&& inserts_applied(Map::<usize, V>::empty(), ops)[ops[i].0] == ops[i].1
    } by {
        lemma_last_write_wins(ops, i);
    }
}

/// A run of inserts: `states[0]` is empty and each state is the one before
/// with the next pair of `ops` stored, as `insert` leaves a table.
pub open spec fn is_insert_run<V>(states: Seq<Map<usize, V>>, ops: Seq<(usize, V)>) -> bool {
    &&& states.len() == ops.len() + 1
    &&& states[0] == Map::<usize, V>::empty()
    &&& forall|i: int| 0 <= i < ops.len() ==> states[i + 1] == (#[trigger] states[i]).insert(ops[i].0, ops[i].1)
}

/// The table after a run of inserts holds `inserts_applied` of the pairs.
pub proof fn lemma_insert_run<V>(states: Seq<Map<usize, V>>, ops: Seq<(usize, V)>)
    requires
        is_insert_run(states, ops),
    ensures
        states.last() == inserts_applied(Map::<usize, V>::empty(), ops),
    decreases ops.len(),
{
    if ops.len() > 0 {
        let s2 = states.drop_last();
        let o2 = ops.drop_last();
        assert forall|i: int| 0 <= i < o2.len() implies s2[i + 1] == (#[trigger] s2[i]).insert(o2[i].0, o2[i].1) by {
            assert(states[i + 1] == states[i].insert(ops[i].0, ops[i].1));
        }
        lemma_insert_run(s2, o2);
        assert(states[ops.len() - 1 + 1] == states[ops.len() - 1].insert(ops[ops.len() - 1].0, ops[ops.len() - 1].1));
    }
}

/// After a run of inserts into an empty table, a key holds the value of the
/// last insert that named it, and keys never inserted are absent.
pub proof fn lemma_insert_run_lookup<V>(states: Seq<Map<usize, V>>, ops: Seq<(usize, V)>, i: int, absent: usize)
    requires
        is_insert_run(states, ops),
        0 <= i < ops.len(),
        forall|j: int| i < j < ops.len() ==> (#[trigger] ops[j]).0 != ops[i].0,
        forall|j: int| 0 <= j < ops.len() ==> (#[trigger] ops[j]).0 != absent,
    ensures
        states.last().contains_key(ops[i].0),
        states.last()[ops[i].0] == ops[i].1,
        !states.last().contains_key(absent),
{
    lemma_insert_run(states, ops);
    lemma_last_write_wins(ops, i);
    lemma_absent_stays_absent(ops, absent);
}

/// A key named by no insert is absent after them.
pub proof fn lemma_absent_stays_absent<V>(ops: Seq<(usize, V)>, absent: usize)
    requires
        forall|j: int| 0 <= j < ops.len() ==> (#[trigger] ops[j]).0 != absent,
    ensures
        !inserts_applied(Map::<usize, V>::empty(), ops).contains_key(absent),
    decreases ops.len(),
{
    if ops.len() > 0 {
        let d = ops.drop_last();
        assert forall|j: int| 0 <= j < d.len() implies (#[trigger] d[j]).0 != absent by {
            assert(d[j] == ops[j]);
        }
        lemma_absent_stays_absent(d, absent);
        assert(ops.last() == ops[ops.len() - 1]);
    }
}

/// Two inserts of different keys, whatever slot each key's probe starts at,
/// leave both keys with their own values.
pub proof fn lemma_two_keys_kept<V>(m: Map<usize, V>, k1: usize, a: V, k2: usize, b: V)
    requires
        k1 != k2,
    ensures
        m.insert(k1, a).insert(k2, b).contains_key(k1),
        m.insert(k1, a).insert(k2, b)[k1] == a,
        m.insert(k1, a).insert(k2, b).contains_key(k2),
        m.insert(k1, a).insert(k2, b)[k2] == b,
{
}

} // verus!
