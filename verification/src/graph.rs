//! Graph validation: the closed-world check on predecessor references,
//! cycle rejection, and the deterministic topological execution sequence
//! (vertices of in-degree zero are emitted first, ties broken by ascending
//! task id).

use vstd::prelude::*;
use crate::task::{DefaultTask, TaskMeta};
use bimap::BiHashMap;

verus! {

#[verifier::external_type_specification]
#[verifier::external_body]
#[verifier::reject_recursive_types(L)]
#[verifier::reject_recursive_types(R)]
#[verifier::reject_recursive_types(LS)]
#[verifier::reject_recursive_types(RS)]
pub struct ExBiHashMap<L, R, LS, RS>(BiHashMap<L, R, LS, RS>);

/// The pairs an id-to-index bimap holds, as a map from left to right value.
pub uninterp spec fn bimap_pairs(m: BiHashMap<usize, usize>) -> Map<usize, usize>;

/// Relies on bimap::BiHashMap::new: the fresh bimap holds no pair.
#[verifier::external_body]
pub(crate) fn bimap_new() -> (r: BiHashMap<usize, usize>)
    ensures
        forall|k: usize| !bimap_pairs(r).dom().contains(k),
{
    BiHashMap::new()
}

/// Relies on bimap::BiHashMap::insert_no_overwrite: when neither side of the
/// pair is present the pair is added and `Ok` comes back; otherwise the bimap
/// is unchanged.
#[verifier::external_body]
pub(crate) fn bimap_insert(m: &mut BiHashMap<usize, usize>, l: usize, r: usize) -> (ok: bool)
    ensures
        ok == (!bimap_pairs(*old(m)).dom().contains(l) && (forall|k: usize|
            bimap_pairs(*old(m)).dom().contains(k) ==> bimap_pairs(*old(m))[k] != r)),
        ok ==> bimap_pairs(*final(m)) == bimap_pairs(*old(m)).insert(l, r),
        !ok ==> bimap_pairs(*final(m)) == bimap_pairs(*old(m)),
{
    m.insert_no_overwrite(l, r).is_ok()
}

/// Relies on bimap::BiHashMap::get_by_left: the right value paired with `l`,
/// if the pair exists.
#[verifier::external_body]
pub(crate) fn bimap_index_of(m: &BiHashMap<usize, usize>, l: usize) -> (r: Option<usize>)
    ensures
        match r {
            Some(x) => bimap_pairs(*m).dom().contains(l) && bimap_pairs(*m)[l] == x,
            None => !bimap_pairs(*m).dom().contains(l),
        },
{
    m.get_by_left(&l).copied()
}

/// The task list as the graph layer sees it.
pub open spec fn metas(s: Seq<DefaultTask>) -> Seq<TaskMeta> {
    s.map_values(|t: DefaultTask| t@)
}

pub open spec fn distinct_ids(ts: Seq<TaskMeta>) -> bool {
    forall|i: int, j: int| 0 <= i < j < ts.len() ==> ts[i].id != ts[j].id
}

pub open spec fn has_id(ts: Seq<TaskMeta>, id: usize) -> bool {
    exists|i: int| 0 <= i < ts.len() && ts[i].id == id
}

/// Every predecessor task `j` declares is the id of a task in the list.
pub open spec fn task_refs_ok(ts: Seq<TaskMeta>, j: int) -> bool {
    forall|m: int| 0 <= m < ts[j].preds.len() ==> has_id(ts, #[trigger] ts[j].preds[m])
}

pub open spec fn closed_world(ts: Seq<TaskMeta>) -> bool {
    forall|j: int| 0 <= j < ts.len() ==> task_refs_ok(ts, j)
}

/// There is an edge from task `i` to task `j`: `j` declares `i`'s id.
pub open spec fn edge(ts: Seq<TaskMeta>, i: int, j: int) -> bool {
    0 <= i < ts.len() && 0 <= j < ts.len() && ts[j].preds.contains(ts[i].id)
}

pub open spec fn is_cycle(ts: Seq<TaskMeta>, c: Seq<int>) -> bool {
    &&& c.len() >= 1
    &&& forall|k: int| 0 <= k < c.len() ==> 0 <= #[trigger] c[k] < ts.len()
    &&& forall|k: int| 0 <= k < c.len() - 1 ==> edge(ts, #[trigger] c[k], c[k + 1])
    &&& edge(ts, c[c.len() - 1], c[0])
}

pub open spec fn has_cycle(ts: Seq<TaskMeta>) -> bool {
    exists|c: Seq<int>| is_cycle(ts, c)
}

/// Index value `x` occurs somewhere in `ord`.
pub open spec fn appears(ord: Seq<usize>, x: int) -> bool {
    exists|q: int| 0 <= q < ord.len() && ord[q] as int == x
}

/// The `m`-th declared predecessor of the task at position `q` of `ord` has
/// already been emitted at some earlier position.
pub open spec fn pred_settled(ts: Seq<TaskMeta>, ord: Seq<usize>, q: int, m: int) -> bool {
    exists|p: int| 0 <= p < q && ts[#[trigger] ord[p] as int].id == ts[ord[q] as int].preds[m]
}

/// `ord`, a sequence of task indices, is a topological execution order:
/// a permutation of all indices in which every task follows all of its
/// declared predecessors.
pub open spec fn is_topo_order(ts: Seq<TaskMeta>, ord: Seq<usize>) -> bool {
    &&& ord.len() == ts.len()
    &&& forall|q: int| 0 <= q < ord.len() ==> (#[trigger] ord[q] as int) < ts.len()
    &&& forall|p: int, q: int| 0 <= p < q < ord.len() ==> ord[p] != ord[q]
    &&& forall|x: int| 0 <= x < ts.len() ==> appears(ord, x)
    &&& forall|q: int, m: int|
        0 <= q < ord.len() && 0 <= m < ts[ord[q] as int].preds.len() ==> pred_settled(
            ts,
            ord,
            q,
            m,
        )
}

/// A topological execution order exists; equivalently, the graph is acyclic.
pub open spec fn schedulable(ts: Seq<TaskMeta>) -> bool {
    exists|ord: Seq<usize>| is_topo_order(ts, ord)
}

/// A task with the given id has already been emitted.
pub open spec fn pred_done(ts: Seq<TaskMeta>, done: Seq<bool>, id: usize) -> bool {
    exists|p: int| 0 <= p < ts.len() && ts[p].id == id && done[p]
}

/// Task `i` is unemitted and all of its declared predecessors are emitted.
pub open spec fn ready(ts: Seq<TaskMeta>, done: Seq<bool>, i: int) -> bool {
    &&& 0 <= i < ts.len()
    &&& !done[i]
    &&& forall|m: int|
        0 <= m < ts[i].preds.len() ==> pred_done(ts, done, #[trigger] ts[i].preds[m])
}

/// Task `i` is ready and carries the least id among the ready tasks: the one
/// the deterministic schedule emits next.
pub open spec fn is_first_ready(ts: Seq<TaskMeta>, done: Seq<bool>, i: int) -> bool {
    &&& ready(ts, done, i)
    &&& forall|j: int| #[trigger] ready(ts, done, j) ==> ts[i].id <= ts[j].id
}

pub open spec fn first_ready(ts: Seq<TaskMeta>, done: Seq<bool>) -> int {
    choose|i: int| is_first_ready(ts, done, i)
}

/// The emission sequence from an intermediate state: repeatedly emit the
/// ready task of least id, until none is ready or the fuel runs out.
pub open spec fn sched_from(ts: Seq<TaskMeta>, done: Seq<bool>, fuel: nat) -> Seq<usize>
    decreases fuel,
{
    if fuel > 0 && (exists|i: int| is_first_ready(ts, done, i)) {
        let i = first_ready(ts, done);
        seq![i as usize] + sched_from(ts, done.update(i, true), (fuel - 1) as nat)
    } else {
        Seq::empty()
    }
}

/// The deterministic execution sequence of the whole task list.
pub open spec fn schedule(ts: Seq<TaskMeta>) -> Seq<usize> {
    sched_from(ts, Seq::new(ts.len(), |i: int| false), ts.len() as nat)
}

/// The id-to-index bimap describes exactly the given task list.
pub open spec fn good_map(ts: Seq<TaskMeta>, m: Map<usize, usize>) -> bool {
    &&& forall|i: int|
        0 <= i < ts.len() ==> m.dom().contains(#[trigger] ts[i].id) && m[ts[i].id] as int == i
    &&& forall|id: usize| #[trigger] m.dom().contains(id) ==> has_id(ts, id)
}


/// A graph the engine accepts: nonempty, closed under predecessor
/// references, and acyclic.
pub open spec fn graph_valid(ts: Seq<TaskMeta>) -> bool {
    ts.len() > 0 && closed_world(ts) && schedulable(ts)
}

/// `j` is the first task whose predecessor list mentions an id that no task
/// in the list carries.
pub open spec fn dangling_at(ts: Seq<TaskMeta>, j: int) -> bool {
    &&& 0 <= j < ts.len()
    &&& !task_refs_ok(ts, j)
    &&& forall|j2: int| 0 <= j2 < j ==> task_refs_ok(ts, j2)
}

/// The index of the task carrying `id`.
pub open spec fn index_of_id(ts: Seq<TaskMeta>, id: usize) -> int {
    choose|i: int| 0 <= i < ts.len() && ts[i].id == id
}

pub open spec fn count_true(s: Seq<bool>) -> nat
    decreases s.len(),
{
    if s.len() == 0 {
        0
    } else {
        count_true(s.drop_last()) + (if s.last() {
            1nat
        } else {
            0nat
        })
    }
}

proof fn lemma_count_true_zero(s: Seq<bool>)
    requires
        forall|i: int| 0 <= i < s.len() ==> !s[i],
    ensures
        count_true(s) == 0,
    decreases s.len(),
{
    if s.len() > 0 {
        lemma_count_true_zero(s.drop_last());
    }
}

proof fn lemma_count_true_update(s: Seq<bool>, i: int)
    requires
        0 <= i < s.len(),
        !s[i],
    ensures
        count_true(s.update(i, true)) == count_true(s) + 1,
    decreases s.len(),
{
    if i == s.len() - 1 {
        assert(s.update(i, true).drop_last() =~= s.drop_last());
    } else {
        assert(s.update(i, true).drop_last() =~= s.drop_last().update(i, true));
        lemma_count_true_update(s.drop_last(), i);
    }
}

proof fn lemma_count_true_le(s: Seq<bool>)
    ensures
        count_true(s) <= s.len(),
    decreases s.len(),
{
    if s.len() > 0 {
        lemma_count_true_le(s.drop_last());
    }
}

proof fn lemma_count_true_full(s: Seq<bool>)
    requires
        count_true(s) == s.len(),
    ensures
        forall|i: int| 0 <= i < s.len() ==> s[i],
    decreases s.len(),
{
    if s.len() > 0 {
        lemma_count_true_le(s.drop_last());
        lemma_count_true_full(s.drop_last());
        assert forall|i: int| 0 <= i < s.len() implies s[i] by {
            if i < s.len() - 1 {
                assert(s.drop_last()[i]);
            }
        }
    }
}

proof fn lemma_count_true_partial(s: Seq<bool>)
    requires
        count_true(s) < s.len(),
    ensures
        exists|i: int| 0 <= i < s.len() && !s[i],
    decreases s.len(),
{
    if s.len() > 0 {
        if !s.last() {
            assert(!s[s.len() - 1]);
        } else {
            lemma_count_true_partial(s.drop_last());
            let i = choose|i: int| 0 <= i < s.len() - 1 && !s.drop_last()[i];
            assert(!s[i]);
        }
    }
}

/// Among the ready tasks, the one of least id is unique when ids are
/// distinct.
proof fn lemma_first_ready_unique(ts: Seq<TaskMeta>, done: Seq<bool>, b: int)
    requires
        distinct_ids(ts),
        is_first_ready(ts, done, b),
    ensures
        first_ready(ts, done) == b,
{
    let c = first_ready(ts, done);
    assert(is_first_ready(ts, done, c));
    assert(ready(ts, done, b));
    assert(ready(ts, done, c));
    assert(ts[b].id <= ts[c].id);
    assert(ts[c].id <= ts[b].id);
    if b != c {
        assert(ts[b].id != ts[c].id);
    }
}

/// Helper: the earliest position of `ord` holding an unemitted task.
proof fn lemma_first_undone(done: Seq<bool>, ord: Seq<usize>, q: int)
    requires
        0 <= q < ord.len(),
        forall|k: int| 0 <= k < ord.len() ==> (#[trigger] ord[k] as int) < done.len(),
        !done[ord[q] as int],
    ensures
        exists|qm: int|
            0 <= qm < ord.len() && !done[ord[qm] as int] && (forall|p: int|
                0 <= p < qm ==> done[ord[p] as int]),
    decreases q,
{
    if forall|p: int| 0 <= p < q ==> done[#[trigger] ord[p] as int] {
        assert(0 <= q < ord.len() && !done[ord[q] as int] && (forall|p: int|
            0 <= p < q ==> done[ord[p] as int]));
    } else {
        let p0 = choose|p: int| 0 <= p < q && !done[ord[p] as int];
        lemma_first_undone(done, ord, p0);
    }
}

/// If every unemitted task still waits on an unemitted predecessor, no
/// topological order of the whole list exists.
proof fn lemma_stall_unschedulable(ts: Seq<TaskMeta>, done: Seq<bool>)
    requires
        done.len() == ts.len(),
        distinct_ids(ts),
        closed_world(ts),
        exists|i: int| 0 <= i < ts.len() && !done[i],
        forall|i: int| !ready(ts, done, i),
    ensures
        !schedulable(ts),
{
    assert forall|ord: Seq<usize>| !is_topo_order(ts, ord) by {
        if is_topo_order(ts, ord) {
            let i0 = choose|i: int| 0 <= i < ts.len() && !done[i];
            assert(appears(ord, i0));
            let q0 = choose|q: int| 0 <= q < ord.len() && ord[q] as int == i0;
            assert(!done[ord[q0] as int]);
            lemma_first_undone(done, ord, q0);
            let qm = choose|qm: int|
                0 <= qm < ord.len() && !done[ord[qm] as int] && (forall|p: int|
                    0 <= p < qm ==> done[ord[p] as int]);
            let j = ord[qm] as int;
            assert(!ready(ts, done, j));
            assert(0 <= j < ts.len() && !done[j]);
            let m = choose|m: int|
                0 <= m < ts[j].preds.len() && !pred_done(ts, done, ts[j].preds[m]);
            assert(pred_settled(ts, ord, qm, m));
            let p = choose|p: int|
                0 <= p < qm && ts[ord[p] as int].id == ts[ord[qm] as int].preds[m];
            assert(done[ord[p] as int]);
            assert(pred_done(ts, done, ts[j].preds[m]));
        }
    }
}

/// The position in `ord` of the index value `x`.
pub open spec fn pos_of(ord: Seq<usize>, x: int) -> int {
    choose|q: int| 0 <= q < ord.len() && ord[q] as int == x
}

/// In a topological order, an edge source is emitted strictly before the
/// edge target.
proof fn lemma_edge_before(ts: Seq<TaskMeta>, ord: Seq<usize>, i: int, j: int)
    requires
        distinct_ids(ts),
        is_topo_order(ts, ord),
        edge(ts, i, j),
    ensures
        0 <= pos_of(ord, i) < ord.len(),
        0 <= pos_of(ord, j) < ord.len(),
        ord[pos_of(ord, i)] as int == i,
        ord[pos_of(ord, j)] as int == j,
        pos_of(ord, i) < pos_of(ord, j),
{
    assert(appears(ord, i));
    assert(appears(ord, j));
    let qi = pos_of(ord, i);
    let qj = pos_of(ord, j);
    assert(0 <= qi < ord.len() && ord[qi] as int == i);
    assert(0 <= qj < ord.len() && ord[qj] as int == j);
    let m = choose|m: int| 0 <= m < ts[j].preds.len() && ts[j].preds[m] == ts[i].id;
    assert(ts[ord[qj] as int].preds[m] == ts[i].id);
    assert(pred_settled(ts, ord, qj, m));
    let p = choose|p: int| 0 <= p < qj && ts[ord[p] as int].id == ts[ord[qj] as int].preds[m];
    assert(ts[ord[p] as int].id == ts[i].id);
    if ord[p] as int != i {
        assert(false);
    }
    if p != qi {
        assert(false);
    }
}

/// Walking a cycle through a topological order only moves forward.
proof fn lemma_cycle_chain(ts: Seq<TaskMeta>, ord: Seq<usize>, c: Seq<int>, k: int)
    requires
        distinct_ids(ts),
        is_topo_order(ts, ord),
        is_cycle(ts, c),
        0 <= k < c.len(),
    ensures
        pos_of(ord, c[0]) + k <= pos_of(ord, c[k]),
    decreases k,
{
    if k > 0 {
        lemma_cycle_chain(ts, ord, c, k - 1);
        assert(edge(ts, c[k - 1], c[k]));
        lemma_edge_before(ts, ord, c[k - 1], c[k]);
    }
}

/// A graph that contains a cycle (a self-loop included) admits no
/// topological order: initialization of such a graph is refused.
pub proof fn lemma_cycle_unschedulable(ts: Seq<TaskMeta>)
    requires
        distinct_ids(ts),
        has_cycle(ts),
    ensures
        !schedulable(ts),
{
    let c = choose|c: Seq<int>| is_cycle(ts, c);
    assert(is_cycle(ts, c));
    assert forall|ord: Seq<usize>| !is_topo_order(ts, ord) by {
        if is_topo_order(ts, ord) {
            lemma_cycle_chain(ts, ord, c, c.len() - 1);
            assert(edge(ts, c[c.len() - 1], c[0]));
            lemma_edge_before(ts, ord, c[c.len() - 1], c[0]);
        }
    }
}

/// Validation is deterministic: any two successful initializations of the
/// same task list yield the same execution sequence.
pub proof fn lemma_init_deterministic(ts: Seq<TaskMeta>, ord1: Seq<usize>, ord2: Seq<usize>)
    requires
        ord1 == schedule(ts),
        ord2 == schedule(ts),
    ensures
        ord1 == ord2,
{
}

/// Are all declared predecessors of `tasks[idx]` already emitted?
fn preds_emitted(
    tasks: &Vec<DefaultTask>,
    imap: &BiHashMap<usize, usize>,
    done: &Vec<bool>,
    idx: usize,
) -> (r: bool)
    requires
        distinct_ids(metas(tasks@)),
        closed_world(metas(tasks@)),
        good_map(metas(tasks@), bimap_pairs(*imap)),
        done@.len() == tasks@.len(),
        idx < tasks@.len(),
    ensures
        r == (forall|m: int|
            0 <= m < metas(tasks@)[idx as int].preds.len() ==> pred_done(
                metas(tasks@),
                done@,
                #[trigger] metas(tasks@)[idx as int].preds[m],
            )),
{
    let ghost ts = metas(tasks@);
    let preds = tasks[idx].predecessors();
    let mut m: usize = 0;
    while m < preds.len()
        invariant
            distinct_ids(ts),
            closed_world(ts),
            good_map(ts, bimap_pairs(*imap)),
            done@.len() == ts.len(),
            idx < ts.len(),
            ts == metas(tasks@),
            preds@ == ts[idx as int].preds,
            m <= preds@.len(),
            forall|k: int| 0 <= k < m ==> pred_done(ts, done@, #[trigger] ts[idx as int].preds[k]),
        decreases preds@.len() - m,
    {
        let pid = preds[m];
        proof {
            assert(task_refs_ok(ts, idx as int));
            assert(has_id(ts, ts[idx as int].preds[m as int]));
            assert(has_id(ts, pid));
        }
        match bimap_index_of(imap, pid) {
            Some(p) => {
                proof {
                    let w = choose|w: int| 0 <= w < ts.len() && ts[w].id == pid;
                    assert(bimap_pairs(*imap)[ts[w].id] as int == w);
                    assert(p as int == w);
                }
                if !done[p] {
                    proof {
                        let w = choose|w: int| 0 <= w < ts.len() && ts[w].id == pid;
                        assert(p as int == w);
                        assert forall|p2: int|
                            0 <= p2 < ts.len() && ts[p2].id == pid implies !done@[p2] by {
                            if p2 != w {
                                assert(ts[p2].id != ts[w].id);
                            }
                        }
                        assert(!pred_done(ts, done@, pid));
                    }
                    return false;
                }
                proof {
                    let w = choose|w: int| 0 <= w < ts.len() && ts[w].id == pid;
                    assert(p as int == w);
                    assert(ts[w].id == pid && done@[w]);
                    assert(pred_done(ts, done@, pid));
                }
            },
            None => {
                proof {
                    let w = choose|w: int| 0 <= w < ts.len() && ts[w].id == pid;
                    assert(bimap_pairs(*imap).dom().contains(ts[w].id));
                    assert(false);
                }
                return false;
            },
        }
        m = m + 1;
    }
    true
}

/// Kahn's algorithm with the least-id tie break.  On success the emitted
/// order is exactly the deterministic schedule; on failure no topological
/// order exists at all.
pub(crate) fn topo_sort(tasks: &Vec<DefaultTask>, imap: &BiHashMap<usize, usize>) -> (r: Option<
    Vec<usize>,
>)
    requires
        distinct_ids(metas(tasks@)),
        closed_world(metas(tasks@)),
        good_map(metas(tasks@), bimap_pairs(*imap)),
    ensures
        match r {
            Some(ord) => ord@ == schedule(metas(tasks@)) && is_topo_order(metas(tasks@), ord@),
            None => !schedulable(metas(tasks@)),
        },
{
    let ghost ts = metas(tasks@);
    let n = tasks.len();
    let mut done: Vec<bool> = Vec::new();
    let mut k: usize = 0;
    while k < n
        invariant
            k <= n,
            done@.len() == k,
            forall|p: int| 0 <= p < k ==> !done@[p],
        decreases n - k,
    {
        done.push(false);
        k = k + 1;
    }
    let mut ord: Vec<usize> = Vec::new();
    proof {
        assert(done@ =~= Seq::new(ts.len(), |i: int| false));
        lemma_count_true_zero(done@);
        assert(ord@ + sched_from(ts, done@, (n - ord@.len()) as nat) =~= sched_from(
            ts,
            done@,
            n as nat,
        ));
    }
    while ord.len() < n
        invariant
            n == ts.len(),
            n == tasks@.len(),
            ts == metas(tasks@),
            distinct_ids(ts),
            closed_world(ts),
            good_map(ts, bimap_pairs(*imap)),
            done@.len() == n,
            ord@.len() <= n,
            count_true(done@) == ord@.len(),
            forall|x: int| 0 <= x < n ==> (done@[x] <==> appears(ord@, x)),
            forall|q: int| 0 <= q < ord@.len() ==> (#[trigger] ord@[q] as int) < n,
            forall|p: int, q: int| 0 <= p < q < ord@.len() ==> ord@[p] != ord@[q],
            forall|q: int, m: int|
                0 <= q < ord@.len() && 0 <= m < ts[ord@[q] as int].preds.len() ==> pred_settled(
                    ts,
                    ord@,
                    q,
                    m,
                ),
            ord@ + sched_from(ts, done@, (n - ord@.len()) as nat) == schedule(ts),
        decreases n - ord.len(),
    {
        let mut best: Option<usize> = None;
        let mut i: usize = 0;
        while i < n
            invariant
                n == ts.len(),
                n == tasks@.len(),
                ts == metas(tasks@),
                distinct_ids(ts),
                closed_world(ts),
                good_map(ts, bimap_pairs(*imap)),
                done@.len() == n,
                i <= n,
                match best {
                    Some(b) => b < n && ready(ts, done@, b as int) && (forall|j: int|
                        0 <= j < i && #[trigger] ready(ts, done@, j) ==> ts[b as int].id
                            <= ts[j].id),
                    None => forall|j: int| 0 <= j < i ==> !ready(ts, done@, j),
                },
            decreases n - i,
        {
            if !done[i] && preds_emitted(tasks, imap, &done, i) {
                proof {
                    assert(ready(ts, done@, i as int));
                }
                match best {
                    None => {
                        best = Some(i);
                    },
                    Some(b) => {
                        if tasks[i].id() < tasks[b].id() {
                            best = Some(i);
                        }
                    },
                }
            } else {
                proof {
                    assert(!ready(ts, done@, i as int));
                }
            }
            i = i + 1;
        }
        match best {
            None => {
                proof {
                    assert forall|j: int| !ready(ts, done@, j) by {
                        if 0 <= j < n {
                            assert(!ready(ts, done@, j));
                        }
                    }
                    lemma_count_true_le(done@);
                    assert(count_true(done@) < done@.len());
                    lemma_count_true_partial(done@);
                    lemma_stall_unschedulable(ts, done@);
                }
                return None;
            },
            Some(b) => {
                proof {
                    assert forall|j: int| #[trigger] ready(ts, done@, j) implies ts[
                        b as int
                    ].id <= ts[j].id by {
                        assert(0 <= j < n);
                    }
                    assert(is_first_ready(ts, done@, b as int));
                    lemma_first_ready_unique(ts, done@, b as int);
                    let fuel = (n - ord@.len()) as nat;
                    assert(fuel > 0);
                    assert(sched_from(ts, done@, fuel) == seq![b] + sched_from(
                        ts,
                        done@.update(b as int, true),
                        (fuel - 1) as nat,
                    ));
                    lemma_count_true_update(done@, b as int);
                }
                let ghost old_ord = ord@;
                let ghost old_done = done@;
                done.set(b, true);
                ord.push(b);
                proof {
                    assert(done@ =~= old_done.update(b as int, true));
                    assert(ord@ =~= old_ord + seq![b]);
                    assert((old_ord + seq![b]) + sched_from(ts, done@, (n - ord@.len()) as nat)
                        =~= old_ord + (seq![b] + sched_from(ts, done@, (n - ord@.len()) as nat)));
                    assert(ord@ + sched_from(ts, done@, (n - ord@.len()) as nat) == schedule(ts));
                    assert forall|x: int| 0 <= x < n implies (done@[x] <==> appears(ord@, x)) by {
                        if x == b as int {
                            assert(ord@[ord@.len() - 1] as int == x);
                            assert(appears(ord@, x));
                        } else {
                            if appears(old_ord, x) {
                                let w = choose|w: int|
                                    0 <= w < old_ord.len() && old_ord[w] as int == x;
                                assert(ord@[w] as int == x);
                                assert(appears(ord@, x));
                            }
                            if appears(ord@, x) {
                                let w = choose|w: int| 0 <= w < ord@.len() && ord@[w] as int == x;
                                assert(w < old_ord.len());
                                assert(old_ord[w] as int == x);
                                assert(appears(old_ord, x));
                            }
                        }
                    }
                    let q = ord@.len() - 1;
                    assert forall|m: int|
                        0 <= m < ts[ord@[q] as int].preds.len() implies pred_settled(
                        ts,
                        ord@,
                        q,
                        m,
                    ) by {
                        let pid = ts[b as int].preds[m];
                        assert(pred_done(ts, old_done, pid));
                        let w = choose|w: int| 0 <= w < ts.len() && ts[w].id == pid && old_done[w];
                        assert(appears(old_ord, w));
                        let pw = choose|pw: int|
                            0 <= pw < old_ord.len() && old_ord[pw] as int == w;
                        assert(ord@[pw] == old_ord[pw]);
                        assert(ts[ord@[pw] as int].id == pid);
                    }
                    assert forall|q2: int, m: int|
                        0 <= q2 < ord@.len() && 0 <= m < ts[ord@[q2] as int].preds.len()
                        implies pred_settled(ts, ord@, q2, m) by {
                        if q2 < old_ord.len() {
                            assert(pred_settled(ts, old_ord, q2, m));
                            let p = choose|p: int|
                                0 <= p < q2 && ts[old_ord[p] as int].id == ts[old_ord[q2] as int].preds[m];
                            assert(ord@[p] == old_ord[p]);
                            assert(ts[ord@[p] as int].id == ts[ord@[q2] as int].preds[m]);
                        }
                    }
                }
            },
        }
    }
    proof {
        assert(sched_from(ts, done@, (n - ord@.len()) as nat) =~= Seq::<usize>::empty());
        assert(ord@ + sched_from(ts, done@, (n - ord@.len()) as nat) =~= ord@);
        assert(ord@ == schedule(ts));
        lemma_count_true_full(done@);
        assert(is_topo_order(ts, ord@));
    }
    Some(ord)
}

} // verus!
