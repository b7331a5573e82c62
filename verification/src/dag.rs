//! The DAG: a task set validated into a frozen execution sequence and driven
//! to completion, each task receiving its predecessors' output envelopes and
//! the shared environment, stopping at the first failure signal.

use vstd::prelude::*;
use std::sync::Arc;
use bimap::BiHashMap;
use crate::values::{Input, Output};
use crate::env::EnvVar;
use crate::task::{DefaultTask, TaskMeta};
use crate::graph::{
    appears, bimap_index_of, bimap_insert, bimap_new, bimap_pairs, closed_world, dangling_at,
    distinct_ids, good_map, graph_valid, has_id, index_of_id, is_topo_order, metas, pred_settled,
    schedulable, schedule, task_refs_ok, topo_sort,
};
use crate::engine::DagError;

verus! {

/// Relies on std::sync::Arc::clone: the clone is the same shared value.
#[verifier::external_body]
fn share_env(e: &Arc<EnvVar>) -> (r: Arc<EnvVar>)
    ensures
        r == *e,
{
    Arc::clone(e)
}

/// The output slot of task `x` holds an envelope that is not the failure
/// signal.
pub open spec fn good_output(outs: Seq<Option<Output>>, x: int) -> bool {
    outs[x] matches Some(o) && !o.is_fail_spec()
}

/// The output slot of task `x` holds the failure signal.
pub open spec fn failed_output(outs: Seq<Option<Output>>, x: int) -> bool {
    outs[x] matches Some(o) && o.is_fail_spec()
}

/// Entry `m` of `items` is the envelope produced by the task whose id is the
/// `m`-th declared predecessor of task `j`.
pub open spec fn bundle_entry_matches(
    ts: Seq<TaskMeta>,
    outs: Seq<Option<Output>>,
    j: int,
    items: Seq<Output>,
    m: int,
) -> bool {
    outs[index_of_id(ts, ts[j].preds[m])] matches Some(o) && items[m]@ == o@
}

/// The input bundle of task `j` delivers, position by position, the output
/// envelope of each declared predecessor, in declaration order.
pub open spec fn bundle_matches(
    ts: Seq<TaskMeta>,
    outs: Seq<Option<Output>>,
    j: int,
    items: Seq<Output>,
) -> bool {
    &&& items.len() == ts[j].preds.len()
    &&& forall|m: int| 0 <= m < items.len() ==> bundle_entry_matches(ts, outs, j, items, m)
}

/// A DAG: the task set, the environment shared by a run, the frozen
/// execution sequence, and the per-task caches a run fills.
pub struct Dag {
    tasks: Vec<DefaultTask>,
    env: Arc<EnvVar>,
    imap: BiHashMap<usize, usize>,
    seq_order: Vec<usize>,
    inited: bool,
    outputs: Vec<Option<Output>>,
    bundles: Vec<Option<Input>>,
    finished: Option<Output>,
}

impl Dag {
    pub closed spec fn tasks_view(self) -> Seq<TaskMeta> {
        metas(self.tasks@)
    }

    pub closed spec fn env_view(self) -> Seq<(String, crate::values::Content)> {
        self.env@
    }

    pub closed spec fn initialized(self) -> bool {
        self.inited
    }

    pub closed spec fn exec_seq(self) -> Seq<usize> {
        self.seq_order@
    }

    pub closed spec fn outputs_view(self) -> Seq<Option<Output>> {
        self.outputs@
    }

    pub closed spec fn bundles_view(self) -> Seq<Option<Input>> {
        self.bundles@
    }

    pub closed spec fn final_view(self) -> Option<Output> {
        self.finished
    }

    /// Ids are distinct, and once initialization has succeeded the frozen
    /// sequence is the deterministic schedule of a valid graph.
    pub closed spec fn wf(self) -> bool {
        &&& distinct_ids(self.tasks_view())
        &&& !self.inited ==> self.seq_order@.len() == 0
        &&& self.inited ==> {
            &&& self.tasks_view().len() > 0
            &&& closed_world(self.tasks_view())
            &&& self.seq_order@ == schedule(self.tasks_view())
            &&& is_topo_order(self.tasks_view(), self.seq_order@)
            &&& good_map(self.tasks_view(), bimap_pairs(self.imap))
        }
    }

    /// A DAG over the given tasks.  Task ids must be distinct: the id is the
    /// sole identity the graph layer knows.
    pub fn with_tasks(tasks: Vec<DefaultTask>) -> (r: Dag)
        requires
            distinct_ids(metas(tasks@)),
        ensures
            r.wf(),
            r.tasks_view() == metas(tasks@),
            !r.initialized(),
            r.outputs_view().len() == 0,
            r.bundles_view().len() == 0,
            r.final_view() is None,
            r.env_view().len() == 0,
    {
        Dag {
            tasks,
            env: Arc::new(EnvVar::new()),
            imap: bimap_new(),
            seq_order: Vec::new(),
            inited: false,
            outputs: Vec::new(),
            bundles: Vec::new(),
            finished: None,
        }
    }

    /// Replace the environment wholesale; the graph and caches are untouched.
    pub fn set_env(&mut self, env: EnvVar)
        ensures
            final(self).env_view() == env@,
            final(self).wf() == old(self).wf(),
            final(self).tasks_view() == old(self).tasks_view(),
            final(self).initialized() == old(self).initialized(),
            final(self).exec_seq() == old(self).exec_seq(),
            final(self).outputs_view() == old(self).outputs_view(),
            final(self).bundles_view() == old(self).bundles_view(),
            final(self).final_view() == old(self).final_view(),
    {
        self.env = Arc::new(env);
    }

    /// The final result envelope of the last run, if one completed.
    pub fn get_result(&self) -> (r: Option<Output>)
        ensures
            match r {
                Some(o) => self.final_view() matches Some(f) && o@ == f@,
                None => self.final_view() is None,
            },
    {
        match &self.finished {
            Some(o) => Some(o.clone()),
            None => None,
        }
    }

    /// Validate the graph: emptiness, then closed predecessor references,
    /// then acyclicity; on success freeze the deterministic execution
    /// sequence.  Succeeds exactly on valid graphs, and repeating it on an
    /// unchanged DAG yields the same sequence.
    pub fn init(&mut self) -> (r: Result<(), DagError>)
        requires
            old(self).wf(),
        ensures
            final(self).wf(),
            final(self).tasks_view() == old(self).tasks_view(),
            final(self).env_view() == old(self).env_view(),
            final(self).outputs_view() == old(self).outputs_view(),
            final(self).bundles_view() == old(self).bundles_view(),
            final(self).final_view() == old(self).final_view(),
            r is Ok <==> graph_valid(old(self).tasks_view()),
            r is Err ==> *final(self) == *old(self),
            match r {
                Ok(()) => final(self).initialized() && final(self).exec_seq() == schedule(
                    old(self).tasks_view(),
                ),
                Err(e) => final(self).initialized() == old(self).initialized()
                    && final(self).exec_seq() == old(self).exec_seq() && (match e {
                    DagError::EmptyJob => old(self).tasks_view().len() == 0,
                    DagError::RelyTaskIllegal(nm) => exists|j: int|
                        #[trigger] dangling_at(old(self).tasks_view(), j) && nm@ == old(
                            self,
                        ).tasks_view()[j].name,
                    DagError::LoopGraph => old(self).tasks_view().len() > 0 && closed_world(
                        old(self).tasks_view(),
                    ) && !schedulable(old(self).tasks_view()),
                    _ => false,
                }),
            },
    {
        let ghost tv = self.tasks_view();
        let n = self.tasks.len();
        if n == 0 {
            return Err(DagError::EmptyJob);
        }
        let mut imap = bimap_new();
        let mut i: usize = 0;
        while i < n
            invariant
                old(self).wf(),
                *self == *old(self),
                n == tv.len(),
                tv == metas(self.tasks@),
                distinct_ids(tv),
                i <= n,
                forall|k: int|
                    0 <= k < i ==> bimap_pairs(imap).dom().contains(#[trigger] tv[k].id)
                        && bimap_pairs(imap)[tv[k].id] as int == k,
                forall|id: usize| #[trigger] bimap_pairs(imap).dom().contains(id)
                    ==> exists|k: int| 0 <= k < i && tv[k].id == id,
            decreases n - i,
        {
            let id = self.tasks[i].id();
            let ghost before = bimap_pairs(imap);
            let ok = bimap_insert(&mut imap, id, i);
            proof {
                if before.dom().contains(id) {
                    let k = choose|k: int| 0 <= k < i && tv[k].id == id;
                    assert(tv[k].id == tv[i as int].id);
                    assert(false);
                }
                assert forall|k2: usize| before.dom().contains(k2) implies before[k2] != i by {
                    let k = choose|k: int| 0 <= k < i && tv[k].id == k2;
                    assert(before[tv[k].id] as int == k);
                }
                assert(ok);
                assert forall|id2: usize| #[trigger] bimap_pairs(imap).dom().contains(id2)
                    implies exists|k: int| 0 <= k < i + 1 && tv[k].id == id2 by {
                    if id2 == id {
                        assert(tv[i as int].id == id2);
                    } else {
                        assert(before.dom().contains(id2));
                    }
                }
            }
            i = i + 1;
        }
        let mut j: usize = 0;
        while j < n
            invariant
                old(self).wf(),
                *self == *old(self),
                n == tv.len(),
                tv == metas(self.tasks@),
                distinct_ids(tv),
                j <= n,
                forall|k: int|
                    0 <= k < n ==> bimap_pairs(imap).dom().contains(#[trigger] tv[k].id)
                        && bimap_pairs(imap)[tv[k].id] as int == k,
                forall|id: usize| #[trigger] bimap_pairs(imap).dom().contains(id)
                    ==> has_id(tv, id),
                forall|j2: int| 0 <= j2 < j ==> task_refs_ok(tv, j2),
            decreases n - j,
        {
            let preds = self.tasks[j].predecessors();
            let mut m: usize = 0;
            while m < preds.len()
                invariant
                    old(self).wf(),
                    *self == *old(self),
                    n == tv.len(),
                    tv == metas(self.tasks@),
                    distinct_ids(tv),
                    j < n,
                    preds@ == tv[j as int].preds,
                    m <= preds@.len(),
                    forall|k: int|
                        0 <= k < n ==> bimap_pairs(imap).dom().contains(#[trigger] tv[k].id)
                            && bimap_pairs(imap)[tv[k].id] as int == k,
                    forall|id: usize| #[trigger] bimap_pairs(imap).dom().contains(id)
                        ==> has_id(tv, id),
                    forall|j2: int| 0 <= j2 < j ==> task_refs_ok(tv, j2),
                    forall|m2: int|
                        0 <= m2 < m ==> has_id(tv, #[trigger] tv[j as int].preds[m2]),
                decreases preds@.len() - m,
            {
                let pid = preds[m];
                match bimap_index_of(&imap, pid) {
                    Some(_) => {
                        proof {
                            assert(has_id(tv, pid));
                        }
                    },
                    None => {
                        proof {
                            if has_id(tv, pid) {
                                let w = choose|w: int| 0 <= w < tv.len() && tv[w].id == pid;
                                assert(bimap_pairs(imap).dom().contains(tv[w].id));
                                assert(false);
                            }
                            assert(!task_refs_ok(tv, j as int));
                            assert(dangling_at(tv, j as int));
                        }
                        return Err(DagError::RelyTaskIllegal(self.tasks[j].name().clone()));
                    },
                }
                m = m + 1;
            }
            proof {
                assert(task_refs_ok(tv, j as int));
            }
            j = j + 1;
        }
        proof {
            assert(closed_world(tv));
            assert(good_map(tv, bimap_pairs(imap)));
        }
        match topo_sort(&self.tasks, &imap) {
            None => Err(DagError::LoopGraph),
            Some(ord) => {
                self.seq_order = ord;
                self.imap = imap;
                self.inited = true;
                Ok(())
            },
        }
    }
}


/// Each cached bundle delivers, per declared position, the predecessor's
/// cached output envelope.
pub open spec fn bundles_deliver(ts: Seq<TaskMeta>, post: Dag) -> bool {
    forall|x: int|
        0 <= x < ts.len() && (#[trigger] post.bundles_view()[x]) is Some ==> (
        post.bundles_view()[x] matches Some(b) && bundle_matches(
            ts,
            post.outputs_view(),
            x,
            b@,
        ))
}

pub open spec fn last_result(post: Dag, x: int) -> bool {
    post.final_view() matches Some(f) && (post.outputs_view()[x] matches Some(o) && f@ == o@)
}

/// A completed run: every task produced exactly one output envelope, none
/// the failure signal, every recorded bundle delivered the predecessors'
/// outputs in declaration order, and the final result is the envelope of
/// the last task of the execution sequence.
pub open spec fn run_completed(pre: Dag, post: Dag) -> bool {
    let ts = pre.tasks_view();
    let ord = schedule(ts);
    &&& post.tasks_view() == ts
    &&& post.env_view() == pre.env_view()
    &&& post.initialized()
    &&& post.exec_seq() == ord
    &&& post.outputs_view().len() == ts.len()
    &&& post.bundles_view().len() == ts.len()
    &&& forall|x: int| 0 <= x < ts.len() ==> good_output(post.outputs_view(), x)
    &&& forall|x: int| 0 <= x < ts.len() ==> (#[trigger] post.bundles_view()[x]) is Some
    &&& bundles_deliver(ts, post)
    &&& ts.len() > 0 ==> last_result(post, ord[ord.len() - 1] as int)
}

/// An aborted run: the sequence ran to position `k`, whose task returned
/// the failure signal; earlier tasks each hold a proper output, and no task
/// outside the first `k + 1` positions ever started.
pub open spec fn run_failed_at(pre: Dag, post: Dag, k: int) -> bool {
    let ts = pre.tasks_view();
    let ord = schedule(ts);
    &&& post.tasks_view() == ts
    &&& post.env_view() == pre.env_view()
    &&& post.initialized()
    &&& post.exec_seq() == ord
    &&& post.outputs_view().len() == ts.len()
    &&& post.bundles_view().len() == ts.len()
    &&& 0 <= k < ord.len()
    &&& forall|p: int| 0 <= p < k ==> good_output(post.outputs_view(), #[trigger] ord[p] as int)
    &&& failed_output(post.outputs_view(), ord[k] as int)
    &&& forall|p: int| 0 <= p <= k ==> (#[trigger] post.bundles_view()[ord[p] as int]) is Some
    &&& forall|x: int|
        0 <= x < ts.len() && !appears(ord.take(k + 1), x) ==> post.outputs_view()[x] is None
    &&& bundles_deliver(ts, post)
    &&& post.final_view() is None
}

/// Assemble the input bundle of `tasks[idx]`: one envelope per declared
/// predecessor, in declaration order, read from the output cache.
fn build_input(
    tasks: &Vec<DefaultTask>,
    imap: &BiHashMap<usize, usize>,
    outputs: &Vec<Option<Output>>,
    idx: usize,
) -> (r: Input)
    requires
        distinct_ids(metas(tasks@)),
        closed_world(metas(tasks@)),
        good_map(metas(tasks@), bimap_pairs(*imap)),
        outputs@.len() == tasks@.len(),
        idx < tasks@.len(),
        forall|m: int|
            0 <= m < metas(tasks@)[idx as int].preds.len() ==> outputs@[index_of_id(
                metas(tasks@),
                #[trigger] metas(tasks@)[idx as int].preds[m],
            )] is Some,
    ensures
        bundle_matches(metas(tasks@), outputs@, idx as int, r@),
{
    let ghost ts = metas(tasks@);
    let preds = tasks[idx].predecessors();
    let mut items: Vec<Output> = Vec::new();
    let mut m: usize = 0;
    while m < preds.len()
        invariant
            ts == metas(tasks@),
            distinct_ids(ts),
            closed_world(ts),
            good_map(ts, bimap_pairs(*imap)),
            outputs@.len() == ts.len(),
            idx < ts.len(),
            preds@ == ts[idx as int].preds,
            m <= preds@.len(),
            items@.len() == m,
            forall|m2: int|
                0 <= m2 < preds@.len() ==> outputs@[index_of_id(
                    ts,
                    #[trigger] ts[idx as int].preds[m2],
                )] is Some,
            forall|m2: int|
                0 <= m2 < m ==> bundle_entry_matches(ts, outputs@, idx as int, items@, m2),
        decreases preds@.len() - m,
    {
        let pid = preds[m];
        proof {
            assert(task_refs_ok(ts, idx as int));
            assert(has_id(ts, ts[idx as int].preds[m as int]));
            assert(has_id(ts, pid));
        }
        match bimap_index_of(imap, pid) {
            Some(p) => {
                proof {
                    let w = choose|w: int| 0 <= w < ts.len() && ts[w].id == pid;
                    assert(bimap_pairs(*imap)[ts[w].id] as int == w);
                    assert(p as int == w);
                    let v = index_of_id(ts, pid);
                    assert(0 <= v < ts.len() && ts[v].id == pid);
                    if v != w {
                        assert(false);
                    }
                    assert(outputs@[p as int] is Some);
                }
                let ghost old_items = items@;
                match &outputs[p] {
                    Some(o) => {
                        items.push(o.clone());
                        proof {
                            assert(items@[m as int]@ == outputs@[p as int]->0@);
                            assert(bundle_entry_matches(ts, outputs@, idx as int, items@, m as int));
                            assert forall|m2: int|
                                0 <= m2 < m implies bundle_entry_matches(
                                ts,
                                outputs@,
                                idx as int,
                                items@,
                                m2,
                            ) by {
                                assert(bundle_entry_matches(ts, outputs@, idx as int, old_items, m2));
                                assert(items@[m2] == old_items[m2]);
                            }
                        }
                    },
                    None => {
                        proof {
                            assert(false);
                        }
                    },
                }
            },
            None => {
                proof {
                    let w = choose|w: int| 0 <= w < ts.len() && ts[w].id == pid;
                    assert(bimap_pairs(*imap).dom().contains(ts[w].id));
                    assert(false);
                }
            },
        }
        m = m + 1;
    }
    Input::new(items)
}

impl Dag {
    /// Run the frozen sequence: each task receives its bundle and the shared
    /// environment; the first failure envelope aborts the run, and on
    /// completion the last task's envelope becomes the final result.
    fn execute_tasks(&mut self) -> (r: Result<(), DagError>)
        requires
            old(self).wf(),
            old(self).initialized(),
        ensures
            final(self).wf(),
            final(self).tasks_view() == old(self).tasks_view(),
            final(self).env_view() == old(self).env_view(),
            match r {
                Ok(()) => run_completed(*old(self), *final(self)),
                Err(e) => e matches DagError::TaskError(nm) && (exists|k: int|
                    #[trigger] run_failed_at(*old(self), *final(self), k) && nm@ == old(
                        self,
                    ).tasks_view()[schedule(old(self).tasks_view())[k] as int].name),
            },
    {
        let ghost tv = self.tasks_view();
        let n = self.tasks.len();
        let mut fresh_out: Vec<Option<Output>> = Vec::new();
        let mut fresh_bun: Vec<Option<Input>> = Vec::new();
        let mut z: usize = 0;
        while z < n
            invariant
                z <= n,
                fresh_out@.len() == z,
                fresh_bun@.len() == z,
                forall|x: int| 0 <= x < z ==> fresh_out@[x] is None,
                forall|x: int| 0 <= x < z ==> fresh_bun@[x] is None,
            decreases n - z,
        {
            fresh_out.push(None);
            fresh_bun.push(None);
            z = z + 1;
        }
        self.outputs = fresh_out;
        self.bundles = fresh_bun;
        self.finished = None;
        let ghost ord = self.seq_order@;
        let mut k: usize = 0;
        while k < n
            invariant
                old(self).wf(),
                old(self).initialized(),
                tv == old(self).tasks_view(),
                tv == metas(self.tasks@),
                self.tasks@ == old(self).tasks@,
                self.env@ == old(self).env@,
                self.inited,
                distinct_ids(tv),
                closed_world(tv),
                n == tv.len(),
                n > 0,
                ord == self.seq_order@,
                ord == schedule(tv),
                is_topo_order(tv, ord),
                good_map(tv, bimap_pairs(self.imap)),
                self.outputs@.len() == n,
                self.bundles@.len() == n,
                k <= n,
                self.finished is None,
                forall|p: int| 0 <= p < k ==> good_output(self.outputs@, #[trigger] ord[p] as int),
                forall|p: int| 0 <= p < k ==> (#[trigger] self.bundles@[ord[p] as int]) is Some,
                forall|x: int|
                    0 <= x < n && !appears(ord.take(k as int), x) ==> self.outputs@[x] is None,
                forall|x: int|
                    0 <= x < n && !appears(ord.take(k as int), x) ==> self.bundles@[x] is None,
                forall|x: int|
                    0 <= x < n && (#[trigger] self.bundles@[x]) is Some ==> (
                    self.bundles@[x] matches Some(b) && bundle_matches(tv, self.outputs@, x, b@)),
            decreases n - k,
        {
            let idx = self.seq_order[k];
            proof {
                assert((ord[k as int] as int) < n);
                assert forall|m: int|
                    0 <= m < tv[idx as int].preds.len() implies self.outputs@[index_of_id(
                    tv,
                    #[trigger] tv[idx as int].preds[m],
                )] is Some by {
                    assert(pred_settled(tv, ord, k as int, m));
                    let p = choose|p: int|
                        0 <= p < k && tv[ord[p] as int].id == tv[ord[k as int] as int].preds[m];
                    let pid = tv[idx as int].preds[m];
                    assert(has_id(tv, pid));
                    let w = index_of_id(tv, pid);
                    assert(0 <= w < tv.len() && tv[w].id == pid);
                    if w != ord[p] as int {
                        assert(false);
                    }
                    assert(good_output(self.outputs@, ord[p] as int));
                }
            }
            let input_store = build_input(&self.tasks, &self.imap, &self.outputs, idx);
            let input_run = build_input(&self.tasks, &self.imap, &self.outputs, idx);
            let envh = share_env(&self.env);
            let out = self.tasks[idx].perform(input_run, envh);
            let failed = out.is_err();
            let ghost old_outputs = self.outputs@;
            let ghost old_bundles = self.bundles@;
            let ghost out_g = out;
            self.bundles.set(idx, Some(input_store));
            self.outputs.set(idx, Some(out));
            proof {
                assert(self.outputs@ =~= old_outputs.update(idx as int, Some(out_g)));
                assert(!appears(ord.take(k as int), idx as int)) by {
                    if appears(ord.take(k as int), idx as int) {
                        let p = choose|p: int|
                            0 <= p < ord.take(k as int).len() && ord.take(k as int)[p] as int
                                == idx as int;
                        assert(ord[p] == ord[k as int]);
                        assert(false);
                    }
                }
                assert(old_outputs[idx as int] is None);
                assert(old_bundles[idx as int] is None);
                assert forall|p: int|
                    0 <= p < k + 1 implies good_output(self.outputs@, #[trigger] ord[p] as int)
                        || (p == k && failed) by {
                    if p < k {
                        assert(ord[p] != ord[k as int]);
                        assert(self.outputs@[ord[p] as int] == old_outputs[ord[p] as int]);
                    }
                }
                assert forall|x: int|
                    0 <= x < n && !appears(ord.take(k as int + 1), x) implies self.outputs@[x]
                    is None && self.bundles@[x] is None by {
                    assert(ord.take(k as int + 1)[k as int] as int == idx as int);
                    assert(appears(ord.take(k as int + 1), idx as int));
                    assert(x != idx as int);
                    assert forall|pp: int|
                        0 <= pp < k implies ord.take(k as int)[pp] == ord.take(k as int + 1)[pp] by {}
                    if appears(ord.take(k as int), x) {
                        let p = choose|p: int|
                            0 <= p < k && ord.take(k as int)[p] as int == x;
                        assert(ord.take(k as int + 1)[p] as int == x);
                        assert(appears(ord.take(k as int + 1), x));
                    }
                }
                assert forall|x: int|
                    0 <= x < n && (#[trigger] self.bundles@[x]) is Some implies (
                    self.bundles@[x] matches Some(b) && bundle_matches(
                    tv,
                    self.outputs@,
                    x,
                    b@,
                )) by {
                    if x == idx as int {
                        assert(self.bundles@[x] == Some(input_store));
                        assert(bundle_matches(tv, old_outputs, idx as int, input_store@));
                        assert forall|m: int|
                            0 <= m < input_store@.len() implies bundle_entry_matches(
                            tv,
                            self.outputs@,
                            idx as int,
                            input_store@,
                            m,
                        ) by {
                            let pid = tv[idx as int].preds[m];
                            assert(task_refs_ok(tv, idx as int));
                            assert(has_id(tv, pid));
                            let w = index_of_id(tv, pid);
                            assert(0 <= w < tv.len() && tv[w].id == pid);
                            assert(bundle_entry_matches(tv, old_outputs, idx as int, input_store@, m));
                            assert(old_outputs[w] is Some);
                            assert(w != idx as int);
                            assert(self.outputs@[w] == old_outputs[w]);
                        }
                    } else {
                        assert(old_bundles[x] == self.bundles@[x]);
                        assert(old_bundles[x] matches Some(b) && bundle_matches(
                            tv,
                            old_outputs,
                            x,
                            b@,
                        ));
                        let b = old_bundles[x]->0;
                        assert forall|m: int|
                            0 <= m < b@.len() implies bundle_entry_matches(
                            tv,
                            self.outputs@,
                            x,
                            b@,
                            m,
                        ) by {
                            let pid = tv[x].preds[m];
                            assert(task_refs_ok(tv, x));
                            assert(has_id(tv, pid));
                            let w = index_of_id(tv, pid);
                            assert(0 <= w < tv.len() && tv[w].id == pid);
                            assert(bundle_entry_matches(tv, old_outputs, x, b@, m));
                            assert(old_outputs[w] is Some);
                            assert(w != idx as int);
                            assert(self.outputs@[w] == old_outputs[w]);
                        }
                    }
                }
            }
            if failed {
                let nm = self.tasks[idx].name().clone();
                proof {
                    assert(failed_output(self.outputs@, ord[k as int] as int));
                    assert(run_failed_at(*old(self), *self, k as int));
                    assert(nm@ == tv[ord[k as int] as int].name);
                }
                return Err(DagError::TaskError(nm));
            }
            k = k + 1;
        }
        let last = self.seq_order[n - 1];
        proof {
            assert((ord[n - 1] as int) < n);
            assert(good_output(self.outputs@, ord[n - 1] as int));
        }
        let mut fin: Option<Output> = None;
        match &self.outputs[last] {
            Some(o) => {
                fin = Some(o.clone());
            },
            None => {
                proof {
                    assert(false);
                }
            },
        }
        self.finished = fin;
        proof {
            assert(last_result(*self, ord[n - 1] as int));
            assert forall|x: int| 0 <= x < tv.len() implies good_output(self.outputs@, x)
                && self.bundles@[x] is Some by {
                assert(appears(ord, x));
                let p = choose|p: int| 0 <= p < ord.len() && ord[p] as int == x;
                assert(good_output(self.outputs@, ord[p] as int));
                assert(self.bundles@[ord[p] as int] is Some);
            }
            assert forall|x: int| 0 <= x < tv.len() implies (#[trigger] self.bundles_view()[x])
                is Some by {
                assert(appears(ord, x));
                let p = choose|p: int| 0 <= p < ord.len() && ord[p] as int == x;
                assert(self.bundles@[ord[p] as int] is Some);
            }
            assert(run_completed(*old(self), *self));
        }
        Ok(())
    }

    /// The ids of the tasks in execution order: empty before
    /// initialization, the deterministic schedule after it.
    pub fn exec_sequence_ids(&self) -> (r: Vec<usize>)
        requires
            self.wf(),
        ensures
            r@.len() == self.exec_seq().len(),
            forall|q: int|
                0 <= q < r@.len() ==> r@[q] == self.tasks_view()[self.exec_seq()[q] as int].id,
    {
        let mut r: Vec<usize> = Vec::new();
        if !self.inited {
            return r;
        }
        let mut q: usize = 0;
        while q < self.seq_order.len()
            invariant
                self.wf(),
                self.initialized(),
                q <= self.seq_order@.len(),
                r@.len() == q,
                forall|p: int|
                    0 <= p < q ==> r@[p] == self.tasks_view()[self.exec_seq()[p] as int].id,
            decreases self.seq_order@.len() - q,
        {
            let idx = self.seq_order[q];
            proof {
                assert(is_topo_order(self.tasks_view(), self.seq_order@));
                assert((self.seq_order@[q as int] as int) < self.tasks_view().len());
            }
            r.push(self.tasks[idx].id());
            q = q + 1;
        }
        r
    }

    /// A validated DAG's graph is valid and its frozen sequence is the
    /// deterministic schedule.
    pub proof fn lemma_initialized_valid(self)
        requires
            self.wf(),
            self.initialized(),
        ensures
            graph_valid(self.tasks_view()),
            self.exec_seq() == schedule(self.tasks_view()),
    {
        assert(schedulable(self.tasks_view()));
    }

    /// Validate and run.  A validation failure aborts before any task runs
    /// and leaves the DAG untouched; the first failure envelope aborts the
    /// run and names the failing task; otherwise every task ran exactly once
    /// and the final result envelope is cached.
    pub fn start(&mut self) -> (r: Result<(), DagError>)
        requires
            old(self).wf(),
        ensures
            final(self).wf(),
            final(self).tasks_view() == old(self).tasks_view(),
            final(self).env_view() == old(self).env_view(),
            match r {
                Ok(()) => graph_valid(old(self).tasks_view()) && run_completed(
                    *old(self),
                    *final(self),
                ),
                Err(e) => match e {
                    DagError::EmptyJob => old(self).tasks_view().len() == 0 && *final(self)
                        == *old(self),
                    DagError::RelyTaskIllegal(nm) => (exists|j: int|
                        #[trigger] dangling_at(old(self).tasks_view(), j) && nm@ == old(
                            self,
                        ).tasks_view()[j].name) && *final(self) == *old(self),
                    DagError::LoopGraph => old(self).tasks_view().len() > 0 && closed_world(
                        old(self).tasks_view(),
                    ) && !schedulable(old(self).tasks_view()) && *final(self) == *old(self),
                    DagError::TaskError(nm) => graph_valid(old(self).tasks_view()) && (exists|
                        k: int,
                    |
                        #[trigger] run_failed_at(*old(self), *final(self), k) && nm@ == old(
                            self,
                        ).tasks_view()[schedule(old(self).tasks_view())[k] as int].name),
                    DagError::ParserError(_) => false,
                },
            },
    {
        let ghost pre = *old(self);
        match self.init() {
            Err(e) => Err(e),
            Ok(()) => {
                let ghost mid = *self;
                let r = self.execute_tasks();
                proof {
                    assert(mid.tasks_view() == pre.tasks_view());
                    match &r {
                        Ok(_) => {
                            assert(run_completed(mid, *self));
                            assert(run_completed(pre, *self));
                        },
                        Err(e2) => {
                            let k = choose|k: int|
                                run_failed_at(mid, *self, k) && (*e2 matches DagError::TaskError(
                                    nm,
                                ) && nm@ == mid.tasks_view()[schedule(mid.tasks_view())[k] as int].name);
                            assert(run_failed_at(mid, *self, k));
                            assert(run_failed_at(pre, *self, k));
                        },
                    }
                }
                r
            },
        }
    }
}

} // verus!
