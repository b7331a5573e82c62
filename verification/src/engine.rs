//! The engine: the error taxonomy spanning configuration, graph and runtime
//! faults, and a named registry of DAGs run singly or in insertion order.

use vstd::prelude::*;
use vstd::string::StringExecFns;
use crate::dag::{run_completed, run_failed_at, Dag};
use crate::graph::{graph_valid, schedule};
use crate::values::Output;

verus! {

/// Every failure the engine reports: configuration parsing, a predecessor
/// reference to a task that does not exist, a dependency cycle, an empty job
/// (or an unknown DAG name), and a task failing at run time.
#[derive(Debug)]
pub enum DagError {
    ParserError(String),
    RelyTaskIllegal(String),
    LoopGraph,
    EmptyJob,
    TaskError(String),
}

impl DagError {
    pub open spec fn err_msg_spec(self) -> Seq<char> {
        match self {
            DagError::EmptyJob => "There are no tasks in the job."@,
            DagError::LoopGraph => "Illegal directed a cyclic graph, loop Detect!"@,
            DagError::RelyTaskIllegal(name) => "Task["@ + name@
                + "] dependency task not exist."@,
            DagError::ParserError(msg) => "Parser error: "@ + msg@,
            DagError::TaskError(msg) => "Task error: "@ + msg@,
        }
    }

    /// The human-readable description of the error.
    pub fn to_err_msg(&self) -> (r: String)
        ensures
            r@ == self.err_msg_spec(),
    {
        match self {
            DagError::EmptyJob => "There are no tasks in the job.".to_owned(),
            DagError::LoopGraph => "Illegal directed a cyclic graph, loop Detect!".to_owned(),
            DagError::RelyTaskIllegal(name) => "Task[".to_owned().concat(name.as_str()).concat(
                "] dependency task not exist.",
            ),
            DagError::ParserError(msg) => "Parser error: ".to_owned().concat(msg.as_str()),
            DagError::TaskError(msg) => "Task error: ".to_owned().concat(msg.as_str()),
        }
    }
}


/// A named registry of DAGs.  Insertion order doubles as the sequence
/// numbering used by `run_sequential`.
pub struct Engine {
    dags: Vec<(String, Dag)>,
}

impl Engine {
    pub closed spec fn reg(self) -> Seq<(String, Dag)> {
        self.dags@
    }

    pub open spec fn len_spec(self) -> int {
        self.reg().len() as int
    }

    pub open spec fn name_at(self, i: int) -> Seq<char> {
        self.reg()[i].0@
    }

    pub open spec fn dag_at(self, i: int) -> Dag {
        self.reg()[i].1
    }

    pub open spec fn has_name(self, n: Seq<char>) -> bool {
        exists|i: int| 0 <= i < self.reg().len() && self.name_at(i) == n
    }

    pub open spec fn name_index(self, n: Seq<char>) -> int {
        choose|i: int| 0 <= i < self.reg().len() && self.name_at(i) == n
    }

    /// Names are unique, and every registered DAG has passed validation.
    pub open spec fn wf(self) -> bool {
        &&& forall|i: int, j: int|
            0 <= i < j < self.reg().len() ==> self.name_at(i) != self.name_at(j)
        &&& forall|i: int|
            0 <= i < self.reg().len() ==> (#[trigger] self.dag_at(i)).wf() && self.dag_at(
                i,
            ).initialized()
    }

    /// Bind `name` to the DAG, after validating it.  A name already bound is
    /// left untouched; a DAG that fails validation is dropped and the name
    /// stays unbound.
    pub fn append_dag(&mut self, name: &str, dag: Dag)
        requires
            old(self).wf(),
            dag.wf(),
        ensures
            final(self).wf(),
            old(self).has_name(name@) ==> final(self).reg() == old(self).reg(),
            !old(self).has_name(name@) && !graph_valid(dag.tasks_view()) ==> final(self).reg()
                == old(self).reg(),
            !old(self).has_name(name@) && graph_valid(dag.tasks_view()) ==> {
                &&& final(self).len_spec() == old(self).len_spec() + 1
                &&& final(self).reg().take(old(self).len_spec()) == old(self).reg()
                &&& final(self).name_at(old(self).len_spec()) == name@
                &&& final(self).dag_at(old(self).len_spec()).tasks_view() == dag.tasks_view()
                &&& final(self).dag_at(old(self).len_spec()).initialized()
                &&& final(self).dag_at(old(self).len_spec()).exec_seq() == schedule(
                    dag.tasks_view(),
                )
                &&& final(self).dag_at(old(self).len_spec()).env_view() == dag.env_view()
            },
    {
        let keyed: String = name.to_owned();
        let mut i: usize = 0;
        while i < self.dags.len()
            invariant
                old(self).wf(),
                *self == *old(self),
                keyed@ == name@,
                i <= self.dags@.len(),
                forall|j: int| 0 <= j < i ==> old(self).name_at(j) != name@,
            decreases self.dags@.len() - i,
        {
            if self.dags[i].0 == keyed {
                proof {
                    assert(old(self).name_at(i as int) == name@);
                    assert(old(self).has_name(name@));
                }
                return ;
            }
            i = i + 1;
        }
        proof {
            if old(self).has_name(name@) {
                let w = choose|w: int|
                    0 <= w < old(self).reg().len() && old(self).name_at(w) == name@;
                assert(false);
            }
        }
        let mut fresh = dag;
        match fresh.init() {
            Ok(()) => {
                let ghost before = self.dags@;
                self.dags.push((keyed, fresh));
                proof {
                    assert(before =~= old(self).reg());
                    assert(self.dags@.take(before.len() as int) =~= before);
                    assert forall|a: int, b: int|
                        0 <= a < b < self.reg().len() implies self.name_at(a) != self.name_at(
                        b,
                    ) by {
                        if b < before.len() {
                            assert(self.name_at(a) == old(self).name_at(a));
                            assert(self.name_at(b) == old(self).name_at(b));
                        } else {
                            assert(self.name_at(a) == old(self).name_at(a));
                            assert(self.name_at(b) == name@);
                            assert(old(self).name_at(a) != name@);
                        }
                    }
                    assert forall|j: int|
                        0 <= j < self.reg().len() implies (#[trigger] self.dag_at(j)).wf()
                            && self.dag_at(j).initialized() by {
                        if j < before.len() {
                            assert(self.dag_at(j) == old(self).dag_at(j));
                            assert(old(self).dag_at(j).wf() && old(self).dag_at(j).initialized());
                        } else {
                            assert(self.dag_at(j) == fresh);
                        }
                    }
                }
            },
            Err(_) => {},
        }
    }

    /// Run the named DAG to completion; an unknown name reports `EmptyJob`
    /// (there is nothing to run).
    pub fn run_dag(&mut self, name: &str) -> (r: Result<(), DagError>)
        requires
            old(self).wf(),
        ensures
            final(self).wf(),
            !old(self).has_name(name@) ==> (r matches Err(e) && e is EmptyJob
                && final(self).reg() == old(self).reg()),
            old(self).has_name(name@) ==> {
                let i = old(self).name_index(name@);
                &&& final(self).len_spec() == old(self).len_spec()
                &&& forall|j: int|
                    0 <= j < old(self).len_spec() && j != i ==> final(self).reg()[j] == old(
                        self,
                    ).reg()[j]
                &&& final(self).name_at(i) == old(self).name_at(i)
                &&& (r is Ok ==> run_completed(old(self).dag_at(i), final(self).dag_at(i)))
                &&& (r matches Err(e) ==> e matches DagError::TaskError(nm) && (exists|k: int|
                    #[trigger] run_failed_at(old(self).dag_at(i), final(self).dag_at(i), k)
                        && nm@ == old(self).dag_at(i).tasks_view()[schedule(
                        old(self).dag_at(i).tasks_view(),
                    )[k] as int].name))
            },
    {
        let keyed: String = name.to_owned();
        let mut i: usize = 0;
        while i < self.dags.len()
            invariant
                old(self).wf(),
                *self == *old(self),
                keyed@ == name@,
                i <= self.dags@.len(),
                forall|j: int| 0 <= j < i ==> old(self).name_at(j) != name@,
            decreases self.dags@.len() - i,
        {
            if self.dags[i].0 == keyed {
                proof {
                    assert(old(self).name_at(i as int) == name@);
                    assert(old(self).has_name(name@));
                    let w = old(self).name_index(name@);
                    assert(0 <= w < old(self).reg().len() && old(self).name_at(w) == name@);
                    if w != i as int {
                        assert(false);
                    }
                }
                let ghost before = self.dags@;
                let mut entry = self.dags.remove(i);
                proof {
                    assert(old(self).dag_at(i as int).wf() && old(self).dag_at(
                        i as int,
                    ).initialized());
                    assert(entry == before[i as int]);
                    assert(entry.1.wf() && entry.1.initialized());
                    entry.1.lemma_initialized_valid();
                }
                let ghost entry_pre = entry.1;
                let res = entry.1.start();
                self.dags.insert(i, entry);
                proof {
                    assert forall|j: int|
                        0 <= j < before.len() && j != i as int implies self.dags@[j] == before[j] by {
                        if j < i as int {
                            assert(before.remove(i as int)[j] == before[j]);
                        } else {
                            assert(before.remove(i as int)[j - 1] == before[j]);
                        }
                    }
                    assert(self.dags@.len() == before.len());
                    assert(self.dags@[i as int].1 == entry.1);
                    assert(self.dags@[i as int].0 == before[i as int].0);
                    assert forall|a: int, b: int|
                        0 <= a < b < self.reg().len() implies self.name_at(a) != self.name_at(
                        b,
                    ) by {
                        assert(self.name_at(a) == old(self).name_at(a));
                        assert(self.name_at(b) == old(self).name_at(b));
                    }
                    assert forall|j: int|
                        0 <= j < self.reg().len() implies (#[trigger] self.dag_at(j)).wf()
                            && self.dag_at(j).initialized() by {
                        if j != i as int {
                            assert(self.dags@[j] == before[j]);
                            assert(old(self).dag_at(j).wf() && old(self).dag_at(j).initialized());
                        } else {
                            assert(self.dag_at(j) == entry.1);
                        }
                    }
                    assert(entry_pre == old(self).dag_at(i as int));
                    assert(self.dag_at(i as int) == entry.1);
                    match &res {
                        Ok(_) => {
                            assert(run_completed(entry_pre, entry.1));
                        },
                        Err(e2) => {
                            assert(graph_valid(entry_pre.tasks_view()));
                            let k = choose|k: int|
                                run_failed_at(entry_pre, entry.1, k) && (*e2 matches
                                DagError::TaskError(nm) && nm@ == entry_pre.tasks_view()[schedule(
                                    entry_pre.tasks_view(),
                                )[k] as int].name);
                            assert(run_failed_at(entry_pre, entry.1, k));
                            assert(run_failed_at(old(self).dag_at(i as int), self.dag_at(i as int), k));
                        },
                    }
                }
                return res;
            }
            i = i + 1;
        }
        proof {
            if old(self).has_name(name@) {
                let w = choose|w: int|
                    0 <= w < old(self).reg().len() && old(self).name_at(w) == name@;
                assert(false);
            }
        }
        Err(DagError::EmptyJob)
    }
}


/// A sequential batch run stopped at position `m`: every DAG before `m` ran
/// to completion, the DAG at `m` failed with the reported task error, and no
/// DAG after `m` was touched.
pub open spec fn halted_at(pre: Engine, post: Engine, m: int, e: DagError) -> bool {
    &&& 0 <= m < pre.len_spec()
    &&& forall|j: int|
        0 <= j < m ==> run_completed(pre.dag_at(j), #[trigger] post.dag_at(j))
    &&& forall|j: int| m < j < pre.len_spec() ==> post.reg()[j] == pre.reg()[j]
    &&& (e matches DagError::TaskError(nm) && (exists|k: int|
        #[trigger] run_failed_at(pre.dag_at(m), post.dag_at(m), k) && nm@
            == pre.dag_at(m).tasks_view()[schedule(pre.dag_at(m).tasks_view())[k] as int].name))
}

impl Engine {
    /// Run every registered DAG in insertion order, stopping at the first
    /// failure and returning its error: the same observable outcome as
    /// calling `run_dag` on each name in sequence until one fails.
    pub fn run_sequential(&mut self) -> (r: Result<(), DagError>)
        requires
            old(self).wf(),
        ensures
            final(self).wf(),
            final(self).len_spec() == old(self).len_spec(),
            forall|j: int|
                0 <= j < old(self).len_spec() ==> final(self).name_at(j) == old(self).name_at(j),
            match r {
                Ok(()) => forall|j: int|
                    0 <= j < old(self).len_spec() ==> run_completed(
                        old(self).dag_at(j),
                        #[trigger] final(self).dag_at(j),
                    ),
                Err(e) => exists|m: int| #[trigger] halted_at(*old(self), *final(self), m, e),
            },
    {
        let n = self.dags.len();
        let mut i: usize = 0;
        while i < n
            invariant
                old(self).wf(),
                n == old(self).len_spec(),
                self.dags@.len() == n,
                i <= n,
                forall|j: int| 0 <= j < n ==> self.name_at(j) == old(self).name_at(j),
                forall|j: int|
                    0 <= j < n ==> (#[trigger] self.dag_at(j)).wf() && self.dag_at(
                        j,
                    ).initialized(),
                forall|j: int|
                    0 <= j < i ==> run_completed(old(self).dag_at(j), #[trigger] self.dag_at(j)),
                forall|j: int| i <= j < n ==> self.dags@[j] == old(self).reg()[j],
            decreases n - i,
        {
            let ghost snap = *self;
            let ghost before = self.dags@;
            let mut entry = self.dags.remove(i);
            proof {
                assert(entry == before[i as int]);
                assert(snap.dag_at(i as int).wf() && snap.dag_at(i as int).initialized());
                assert(entry.1 == snap.dag_at(i as int));
                entry.1.lemma_initialized_valid();
            }
            let ghost entry_pre = entry.1;
            let res = entry.1.start();
            self.dags.insert(i, entry);
            proof {
                assert forall|j: int|
                    0 <= j < n && j != i as int implies self.dags@[j] == before[j] by {
                    if j < i as int {
                        assert(before.remove(i as int)[j] == before[j]);
                    } else {
                        assert(before.remove(i as int)[j - 1] == before[j]);
                    }
                }
                assert(self.dags@[i as int].1 == entry.1);
                assert(self.dags@[i as int].0 == before[i as int].0);
                assert forall|j: int|
                    0 <= j < n implies (#[trigger] self.dag_at(j)).wf() && self.dag_at(
                    j,
                ).initialized() && self.name_at(j) == old(self).name_at(j) by {
                    if j != i as int {
                        assert(self.dags@[j] == before[j]);
                        assert(self.dag_at(j) == snap.dag_at(j));
                        assert(snap.dag_at(j).wf() && snap.dag_at(j).initialized());
                        assert(snap.name_at(j) == old(self).name_at(j));
                    } else {
                        assert(self.dag_at(j) == entry.1);
                        assert(snap.name_at(j) == old(self).name_at(j));
                        assert(self.name_at(j) == snap.name_at(j));
                    }
                }
            }
            match res {
                Ok(()) => {
                    proof {
                        assert(entry_pre == snap.dag_at(i as int));
                        assert(snap.dags@[i as int] == old(self).reg()[i as int]);
                        assert(run_completed(entry_pre, entry.1));
                        assert(run_completed(old(self).dag_at(i as int), self.dag_at(i as int)));
                        assert forall|j: int|
                            0 <= j < i + 1 implies run_completed(
                            old(self).dag_at(j),
                            #[trigger] self.dag_at(j),
                        ) by {
                            if j < i as int {
                                assert(self.dags@[j] == before[j]);
                                assert(self.dag_at(j) == snap.dag_at(j));
                                assert(run_completed(old(self).dag_at(j), snap.dag_at(j)));
                            }
                        }
                    }
                },
                Err(e) => {
                    proof {
                        assert(entry_pre == snap.dag_at(i as int));
                        assert(snap.dags@[i as int] == old(self).reg()[i as int]);
                        assert(graph_valid(entry_pre.tasks_view()));
                        let k = choose|k: int|
                            run_failed_at(entry_pre, entry.1, k) && (e matches
                            DagError::TaskError(nm) && nm@ == entry_pre.tasks_view()[schedule(
                                entry_pre.tasks_view(),
                            )[k] as int].name);
                        assert(run_failed_at(entry_pre, entry.1, k));
                        assert(run_failed_at(
                            old(self).dag_at(i as int),
                            self.dag_at(i as int),
                            k,
                        ));
                        assert forall|a: int, b: int|
                            0 <= a < b < self.reg().len() implies self.name_at(a)
                                != self.name_at(b) by {
                            assert(self.name_at(a) == old(self).name_at(a));
                            assert(self.name_at(b) == old(self).name_at(b));
                        }
                        assert forall|j: int|
                            0 <= j < i as int implies run_completed(
                            old(self).dag_at(j),
                            #[trigger] self.dag_at(j),
                        ) by {
                            assert(self.dags@[j] == before[j]);
                            assert(self.dag_at(j) == snap.dag_at(j));
                            assert(run_completed(old(self).dag_at(j), snap.dag_at(j)));
                        }
                        assert forall|j: int|
                            (i as int) < j < n implies self.dags@[j] == old(self).reg()[j] by {
                            assert(self.dags@[j] == before[j]);
                            assert(snap.dags@[j] == old(self).reg()[j]);
                        }
                        assert(halted_at(*old(self), *self, i as int, e));
                    }
                    return Err(e);
                },
            }
            i = i + 1;
        }
        proof {
            assert forall|a: int, b: int|
                0 <= a < b < self.reg().len() implies self.name_at(a) != self.name_at(b) by {
                assert(self.name_at(a) == old(self).name_at(a));
                assert(self.name_at(b) == old(self).name_at(b));
            }
        }
        Ok(())
    }

    /// The final result envelope of the named DAG's last completed run.
    pub fn get_dag_result(&self, name: &str) -> (r: Option<Output>)
        requires
            self.wf(),
        ensures
            !self.has_name(name@) ==> r is None,
            self.has_name(name@) ==> (match r {
                Some(o) => self.dag_at(self.name_index(name@)).final_view() matches Some(f)
                    && o@ == f@,
                None => self.dag_at(self.name_index(name@)).final_view() is None,
            }),
    {
        let keyed: String = name.to_owned();
        let mut i: usize = 0;
        while i < self.dags.len()
            invariant
                self.wf(),
                keyed@ == name@,
                i <= self.dags@.len(),
                forall|j: int| 0 <= j < i ==> self.name_at(j) != name@,
            decreases self.dags@.len() - i,
        {
            if self.dags[i].0 == keyed {
                proof {
                    assert(self.name_at(i as int) == name@);
                    assert(self.has_name(name@));
                    let w = self.name_index(name@);
                    assert(0 <= w < self.reg().len() && self.name_at(w) == name@);
                    if w != i as int {
                        assert(false);
                    }
                }
                return self.dags[i].1.get_result();
            }
            i = i + 1;
        }
        proof {
            if self.has_name(name@) {
                let w = choose|w: int| 0 <= w < self.reg().len() && self.name_at(w) == name@;
                assert(false);
            }
        }
        None
    }
}

impl Default for Engine {
    /// An engine with an empty registry.
    fn default() -> (r: Self)
        ensures
            r.wf(),
            r.len_spec() == 0,
    {
        Engine { dags: Vec::new() }
    }
}

} // verus!
