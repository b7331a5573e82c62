use std::sync::Arc;

use dagrs::{Complex, Content, Dag, DagError, DefaultTask, EnvVar, Input, Output};

fn correct_doc() -> &'static str {
    "dagrs:\n  a:\n    name: \"Task 1\"\n    after: [ b, c ]\n    cmd: echo a\n  b:\n    name: \"Task 2\"\n    after: [ c, f, g ]\n    cmd: echo b\n  c:\n    name: \"Task 3\"\n    after: [ e, g ]\n    cmd: echo c\n  d:\n    name: \"Task 4\"\n    after: [ c, e ]\n    cmd: echo d\n  e:\n    name: \"Task 5\"\n    after: [ h ]\n    cmd: echo e\n  f:\n    name: \"Task 6\"\n    after: [ g ]\n    cmd: echo f\n  g:\n    name: \"Task 7\"\n    after: [ h ]\n    cmd: echo g\n  h:\n    name: \"Task 8\"\n    cmd: echo h\n"
}

#[test]
fn yaml_task_correct_execute() {
    let mut job = Dag::with_yaml_str(correct_doc()).unwrap();
    assert!(job.start().is_ok());
}

#[test]
fn yaml_task_loop_graph() {
    let doc = "dagrs:\n  a:\n    name: \"Task 1\"\n    after: [ b ]\n    cmd: echo a\n  b:\n    name: \"Task 2\"\n    after: [ c ]\n    cmd: echo b\n  c:\n    name: \"Task 3\"\n    after: [ a ]\n    cmd: echo c\n";
    let res = Dag::with_yaml_str(doc).unwrap().start();
    assert!(matches!(res, Err(DagError::LoopGraph)))
}

#[test]
fn yaml_task_self_loop_graph() {
    let doc = "dagrs:\n  a:\n    name: \"Task 1\"\n    after: [ a ]\n    cmd: echo a\n";
    let res = Dag::with_yaml_str(doc).unwrap().start();
    assert!(matches!(res, Err(DagError::LoopGraph)))
}

struct AlwaysFails;

impl Complex for AlwaysFails {
    fn run(&self, _input: Input, _env: Arc<EnvVar>) -> Output {
        Output::error("script failed".to_string())
    }
}

#[test]
fn yaml_task_failed_execute() {
    let mut tasks = dagrs::YamlParser::parse(correct_doc()).unwrap();
    tasks[7].set_action(AlwaysFails);
    let mut job = Dag::with_tasks(tasks);
    let res = job.start();
    assert!(!res.is_ok());
}

#[test]
fn task_loop_graph() {
    let mut a = DefaultTask::with_closure(1, "a", |_, _| Output::empty());
    let mut b = DefaultTask::with_closure(2, "b", |_, _| Output::empty());
    let mut c = DefaultTask::with_closure(3, "c", |_, _| Output::empty());
    a.set_predecessors(&[&b]);
    b.set_predecessors(&[&c]);
    c.set_predecessors(&[&a]);

    let mut env = EnvVar::new();
    env.set_usize("base", 2);

    let mut job = Dag::with_tasks(vec![a, b, c]);
    job.set_env(env);
    let res = job.start();
    assert!(matches!(res, Err(DagError::LoopGraph)));
}

#[test]
fn non_job() {
    let tasks: Vec<DefaultTask> = Vec::new();
    let res = Dag::with_tasks(tasks).start();
    assert!(res.is_err());
}

struct SumAction(usize);

impl Complex for SumAction {
    fn run(&self, input: Input, env: Arc<EnvVar>) -> Output {
        let base = env.get_usize("base").unwrap();
        let mut sum = self.0;
        for i in input.get_iter().iter() {
            sum += i.get_usize().unwrap() * base;
        }
        Output::new(Content::Uint(sum))
    }
}

struct FailedActionC(usize);

impl Complex for FailedActionC {
    fn run(&self, _input: Input, env: Arc<EnvVar>) -> Output {
        let base = env.get_usize("base").unwrap();
        match base.checked_div(self.0) {
            Some(v) => Output::new(Content::Uint(v)),
            None => Output::error("division by zero".to_string()),
        }
    }
}

struct FailedActionD(usize);

impl Complex for FailedActionD {
    fn run(&self, _input: Input, _env: Arc<EnvVar>) -> Output {
        Output::error("error".to_string())
    }
}

#[test]
fn task_failed_execute() {
    let a = DefaultTask::with_action(1, "Compute A", SumAction(1));
    let mut b = DefaultTask::with_action(2, "Compute B", SumAction(2));
    let mut c = DefaultTask::with_action(3, "Compute C", FailedActionC(0));
    let mut d = DefaultTask::with_action(4, "Compute D", FailedActionD(1));
    let mut e = DefaultTask::with_action(5, "Compute E", SumAction(16));
    let mut f = DefaultTask::with_action(6, "Compute F", SumAction(32));
    let mut g = DefaultTask::with_action(7, "Compute G", SumAction(64));

    b.set_predecessors(&[&a]);
    c.set_predecessors(&[&a]);
    d.set_predecessors(&[&a]);
    e.set_predecessors(&[&b, &c]);
    f.set_predecessors(&[&c, &d]);
    g.set_predecessors(&[&b, &e, &f]);

    let mut env = EnvVar::new();
    env.set_usize("base", 2);

    let mut job = Dag::with_tasks(vec![a, b, c, d, e, f, g]);
    job.set_env(env);
    assert!(!job.start().is_ok());
}
