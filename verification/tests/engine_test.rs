use std::sync::Arc;

use dagrs::{Complex, Content, Dag, DagError, DefaultTask, Engine, EnvVar, Input, Output};

struct SumAction(usize);

impl Complex for SumAction {
    fn run(&self, input: Input, env: Arc<EnvVar>) -> Output {
        let base = env.get_usize("base").unwrap();
        let mut sum = self.0;
        for i in input.get_iter().iter() {
            sum += i.get_usize().unwrap() * base;
        }
        Output::new(Content::Uint(sum))
    }
}

fn diamond() -> Dag {
    let a = DefaultTask::with_action(1, "A", SumAction(1));
    let mut b = DefaultTask::with_action(2, "B", SumAction(2));
    let mut c = DefaultTask::with_action(3, "C", SumAction(4));
    let mut d = DefaultTask::with_action(4, "D", SumAction(8));
    b.set_predecessors(&[&a]);
    c.set_predecessors(&[&a]);
    d.set_predecessors(&[&b, &c]);
    let mut env = EnvVar::new();
    env.set_usize("base", 2);
    let mut job = Dag::with_tasks(vec![a, b, c, d]);
    job.set_env(env);
    job
}

#[test]
fn diamond_of_sums() {
    let mut engine = Engine::default();
    engine.append_dag("diamond", diamond());
    assert!(engine.run_dag("diamond").is_ok());
    let result = engine.get_dag_result("diamond").unwrap();
    assert_eq!(result.get_usize().unwrap(), 28);
}

#[test]
fn unknown_dag_name() {
    let mut engine = Engine::default();
    assert!(matches!(engine.run_dag("nothing"), Err(DagError::EmptyJob)));
    assert!(engine.get_dag_result("nothing").is_none());
}

#[test]
fn append_same_name_ignored() {
    let mut engine = Engine::default();
    engine.append_dag("one", diamond());
    engine.append_dag("one", diamond());
    assert!(engine.run_sequential().is_ok());
    assert_eq!(engine.get_dag_result("one").unwrap().get_usize().unwrap(), 28);
}

#[test]
fn run_sequential_matches_run_dag() {
    let mut batch = Engine::default();
    batch.append_dag("first", diamond());
    batch.append_dag("second", diamond());
    let batch_res = batch.run_sequential();

    let mut single = Engine::default();
    single.append_dag("first", diamond());
    single.append_dag("second", diamond());
    let r1 = single.run_dag("first");
    let r2 = single.run_dag("second");

    assert!(batch_res.is_ok() && r1.is_ok() && r2.is_ok());
    assert_eq!(
        batch.get_dag_result("first").unwrap().get_usize(),
        single.get_dag_result("first").unwrap().get_usize()
    );
    assert_eq!(
        batch.get_dag_result("second").unwrap().get_usize(),
        single.get_dag_result("second").unwrap().get_usize()
    );
}

struct CheckOrder;

impl Complex for CheckOrder {
    fn run(&self, input: Input, _env: Arc<EnvVar>) -> Output {
        if input.len() != 2 {
            return Output::error("wrong bundle size".to_string());
        }
        let first = input.get(0).unwrap().get_usize().unwrap();
        let second = input.get(1).unwrap().get_usize().unwrap();
        if first == 20 && second == 10 {
            Output::new(Content::Uint(first + second))
        } else {
            Output::error("bundle out of declaration order".to_string())
        }
    }
}

#[test]
fn input_bundle_follows_declaration_order() {
    let a = DefaultTask::with_closure(1, "a", |_, _| Output::new(Content::Uint(10)));
    let b = DefaultTask::with_closure(2, "b", |_, _| Output::new(Content::Uint(20)));
    let mut c = DefaultTask::with_action(3, "c", CheckOrder);
    c.set_predecessors(&[&b, &a]);
    let mut job = Dag::with_tasks(vec![a, b, c]);
    assert!(job.start().is_ok());
    assert_eq!(job.get_result().unwrap().get_usize().unwrap(), 30);
}

#[test]
fn rely_task_illegal() {
    let mut a = DefaultTask::with_closure(1, "lonely", |_, _| Output::empty());
    a.set_predecessor_ids(vec![99]);
    let mut job = Dag::with_tasks(vec![a]);
    let res = job.start();
    match res {
        Err(DagError::RelyTaskIllegal(name)) => assert_eq!(name, "lonely"),
        _ => panic!("expected a dangling-predecessor failure"),
    }
}

#[test]
fn init_repeats_same_sequence() {
    let mut job = diamond();
    assert!(job.init().is_ok());
    let first = job.exec_sequence_ids();
    assert!(job.init().is_ok());
    let second = job.exec_sequence_ids();
    assert_eq!(first, second);
    assert_eq!(first, vec![1, 2, 3, 4]);
}

#[test]
fn sequence_breaks_ties_by_ascending_id() {
    let a = DefaultTask::with_closure(3, "three", |_, _| Output::empty());
    let b = DefaultTask::with_closure(1, "one", |_, _| Output::empty());
    let c = DefaultTask::with_closure(2, "two", |_, _| Output::empty());
    let mut job = Dag::with_tasks(vec![a, b, c]);
    assert!(job.init().is_ok());
    assert_eq!(job.exec_sequence_ids(), vec![1, 2, 3]);
}

#[test]
fn failure_stops_later_tasks() {
    let a = DefaultTask::with_closure(1, "a", |_, _| Output::error("boom".to_string()));
    let mut b = DefaultTask::with_closure(2, "b", |_, _| Output::empty());
    b.set_predecessors(&[&a]);
    let mut job = Dag::with_tasks(vec![a, b]);
    match job.start() {
        Err(DagError::TaskError(name)) => assert_eq!(name, "a"),
        _ => panic!("expected a task failure"),
    }
    assert!(job.get_result().is_none());
}

#[test]
fn error_messages() {
    assert_eq!(DagError::EmptyJob.to_err_msg(), "There are no tasks in the job.");
    assert_eq!(
        DagError::LoopGraph.to_err_msg(),
        "Illegal directed a cyclic graph, loop Detect!"
    );
    assert_eq!(
        DagError::RelyTaskIllegal("t".to_string()).to_err_msg(),
        "Task[t] dependency task not exist."
    );
    assert_eq!(
        DagError::ParserError("oops".to_string()).to_err_msg(),
        "Parser error: oops"
    );
    assert_eq!(DagError::TaskError("t".to_string()).to_err_msg(), "Task error: t");
}

#[test]
fn env_reads_and_overwrites() {
    let mut env = EnvVar::new();
    assert!(env.get("base").is_none());
    env.set_usize("base", 2);
    env.set("greeting", Content::Text("hello".to_string()));
    assert_eq!(env.get_usize("base"), Some(2));
    env.set_usize("base", 7);
    assert_eq!(env.get_usize("base"), Some(7));
    assert!(env.get_usize("greeting").is_none());
    assert!(matches!(env.get("greeting"), Some(Content::Text(_))));
}

#[test]
fn output_accessors() {
    let single = Output::new(Content::Uint(5));
    assert_eq!(single.get_usize(), Some(5));
    assert!(!single.is_err());
    let seq = Output::new_sequence(vec![Content::Uint(1), Content::Truth(true)]);
    assert!(seq.get_usize().is_none());
    assert!(seq.as_single().is_none());
    assert_eq!(Output::empty(), Output::Empty);
    let failed = Output::error("bad".to_string());
    assert!(failed.is_err());
    let content = Content::Truth(false);
    assert_eq!(content.get_bool(), Some(false));
    assert!(content.get_usize().is_none());
}
