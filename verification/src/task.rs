//! The task model: an identified unit of work with a declared, ordered
//! predecessor list and an action that consumes an input bundle and the
//! shared environment.

use vstd::prelude::*;
use std::sync::Arc;
use crate::values::{Input, Output};
use crate::env::EnvVar;

verus! {

/// The capability a task's work is modelled as: consume the input bundle and
/// the environment, produce an output envelope (or the failure signal).
/// Implementations are supplied by the host; nothing is assumed of what they
/// return.
pub trait Complex {
    fn run(&self, input: Input, env: Arc<EnvVar>) -> Output;
}

/// An action built from a plain function value.
pub struct ClosureAction<F: Fn(Input, Arc<EnvVar>) -> Output> {
    f: F,
}

impl<F: Fn(Input, Arc<EnvVar>) -> Output> ClosureAction<F> {
    #[verifier::type_invariant]
    spec fn callable(self) -> bool {
        forall|i: Input, e: Arc<EnvVar>| self.f.requires((i, e))
    }

    pub fn new(f: F) -> Self
        requires
            forall|i: Input, e: Arc<EnvVar>| f.requires((i, e)),
    {
        ClosureAction { f }
    }
}

impl<F: Fn(Input, Arc<EnvVar>) -> Output> Complex for ClosureAction<F> {
    fn run(&self, input: Input, env: Arc<EnvVar>) -> Output {
        proof {
            use_type_invariant(&*self);
        }
        (self.f)(input, env)
    }
}

/// The mathematical content of a task as the graph layer sees it: identity,
/// display name, and the ordered predecessor identities.  The action is
/// deliberately absent: scheduling never depends on it.
pub ghost struct TaskMeta {
    pub id: usize,
    pub name: Seq<char>,
    pub preds: Seq<usize>,
}

/// A named, identified unit of work.  Identity is the numeric id alone; the
/// name is metadata for reporting.
pub struct DefaultTask {
    id: usize,
    name: String,
    preds: Vec<usize>,
    action: Box<dyn Complex>,
}

impl View for DefaultTask {
    type V = TaskMeta;

    closed spec fn view(&self) -> TaskMeta {
        TaskMeta { id: self.id, name: self.name@, preds: self.preds@ }
    }
}

impl DefaultTask {
    /// A task around any action.  Ids are chosen by the host (or by the
    /// configuration parser) and must be distinct within one DAG.
    pub fn with_action<A: Complex + 'static>(id: usize, name: &str, action: A) -> (r: Self)
        ensures
            r@.id == id,
            r@.name == name@,
            r@.preds == Seq::<usize>::empty(),
    {
        DefaultTask { id, name: name.to_owned(), preds: Vec::new(), action: Box::new(action) }
    }

    /// A task around a plain function value.
    pub fn with_closure<F: Fn(Input, Arc<EnvVar>) -> Output + 'static>(
        id: usize,
        name: &str,
        f: F,
    ) -> (r: Self)
        requires
            forall|i: Input, e: Arc<EnvVar>| f.requires((i, e)),
        ensures
            r@.id == id,
            r@.name == name@,
            r@.preds == Seq::<usize>::empty(),
    {
        DefaultTask {
            id,
            name: name.to_owned(),
            preds: Vec::new(),
            action: Box::new(ClosureAction::new(f)),
        }
    }

    pub fn id(&self) -> (r: usize)
        ensures
            r == self@.id,
    {
        self.id
    }

    pub fn name(&self) -> (r: &String)
        ensures
            r@ == self@.name,
    {
        &self.name
    }

    pub fn predecessors(&self) -> (r: &Vec<usize>)
        ensures
            r@ == self@.preds,
    {
        &self.preds
    }

    /// Declare the predecessors, in order, by reference to the tasks
    /// themselves.  Replaces any earlier declaration.
    pub fn set_predecessors(&mut self, preds: &[&DefaultTask])
        ensures
            final(self)@.id == old(self)@.id,
            final(self)@.name == old(self)@.name,
            final(self)@.preds.len() == preds@.len(),
            forall|m: int|
                0 <= m < preds@.len() ==> final(self)@.preds[m] == preds@[m]@.id,
    {
        let mut ids: Vec<usize> = Vec::new();
        let mut m: usize = 0;
        while m < preds.len()
            invariant
                m <= preds@.len(),
                ids@.len() == m,
                forall|k: int| 0 <= k < m ==> ids@[k] == preds@[k]@.id,
            decreases preds@.len() - m,
        {
            ids.push(preds[m].id());
            m = m + 1;
        }
        self.preds = ids;
    }

    /// Declare the predecessors, in order, by id.
    pub fn set_predecessor_ids(&mut self, ids: Vec<usize>)
        ensures
            final(self)@.id == old(self)@.id,
            final(self)@.name == old(self)@.name,
            final(self)@.preds == ids@,
    {
        self.preds = ids;
    }

    /// Replace the task's action; graph structure is untouched.
    pub fn set_action<A: Complex + 'static>(&mut self, action: A)
        ensures
            final(self)@ == old(self)@,
    {
        self.action = Box::new(action);
    }

    /// Run the task's action.  What it returns is the action's business.
    pub(crate) fn perform(&self, input: Input, env: Arc<EnvVar>) -> Output {
        self.action.run(input, env)
    }
}

} // verus!
