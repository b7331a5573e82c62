use dagrs::{Dag, DagError, YamlParser};

fn eight_task_doc() -> &'static str {
    "dagrs:\n  a:\n    name: \"Task 1\"\n    after: [ b, c ]\n    cmd: echo a\n  b:\n    name: \"Task 2\"\n    after: [ c, f, g ]\n    cmd: echo b\n  c:\n    name: \"Task 3\"\n    after: [ e, g ]\n    cmd: echo c\n  d:\n    name: \"Task 4\"\n    after: [ c, e ]\n    cmd: echo d\n  e:\n    name: \"Task 5\"\n    after: [ h ]\n    cmd: echo e\n  f:\n    name: \"Task 6\"\n    after: [ g ]\n    cmd: echo f\n  g:\n    name: \"Task 7\"\n    after: [ h ]\n    cmd: echo g\n  h:\n    name: \"Task 8\"\n    cmd: echo h\n"
}

#[test]
fn parses_eight_tasks_and_runs_to_the_sink() {
    let mut job = Dag::with_yaml_str(eight_task_doc()).unwrap();
    assert!(job.start().is_ok());
    // Ids are allocated in document order from 1; the deterministic
    // schedule emits in-degree-zero tasks first, ties by ascending id.
    assert_eq!(job.exec_sequence_ids(), vec![8, 5, 7, 3, 4, 6, 2, 1]);
    // The sink of the document is its first record, last in the sequence;
    // the placeholder action hands back the empty envelope.
    assert_eq!(job.get_result(), Some(dagrs::Output::Empty));
}

#[test]
fn empty_document_is_refused() {
    let res = YamlParser::parse("");
    match res {
        Err(e) => assert_eq!(e.to_err_msg(), "Parser error: File is empty! []"),
        Ok(_) => panic!("an empty document must be refused"),
    }
}

#[test]
fn missing_start_word_is_refused() {
    let res = YamlParser::parse("jobs:\n  a:\n    name: \"Task 1\"\n    cmd: echo a\n");
    match res {
        Err(e) => assert_eq!(
            e.to_err_msg(),
            "Parser error: File content is not start with 'dagrs'."
        ),
        Ok(_) => panic!("a document without the start word must be refused"),
    }
}

#[test]
fn missing_name_is_refused() {
    let res = YamlParser::parse("dagrs:\n  a:\n    cmd: echo a\n");
    match res {
        Err(e) => assert_eq!(e.to_err_msg(), "Parser error: Task has no name field. [a]"),
        Ok(_) => panic!("a record without a name must be refused"),
    }
}

#[test]
fn missing_script_is_refused() {
    let res = YamlParser::parse("dagrs:\n  a:\n    name: \"Task 1\"\n");
    match res {
        Err(e) => assert_eq!(
            e.to_err_msg(),
            "Parser error: The 'script' attribute is not defined. [Task 1]"
        ),
        Ok(_) => panic!("a record without a script must be refused"),
    }
}

#[test]
fn dangling_after_is_refused() {
    let res = YamlParser::parse(
        "dagrs:\n  a:\n    name: \"Task 1\"\n    after: [ zz ]\n    cmd: echo a\n",
    );
    match res {
        Err(e) => assert_eq!(
            e.to_err_msg(),
            "Parser error: Task cannot find the specified predecessor. [Task 1]"
        ),
        Ok(_) => panic!("a dangling predecessor reference must be refused"),
    }
}

#[test]
fn malformed_document_is_refused() {
    let res = YamlParser::parse("dagrs: [unclosed\n");
    assert!(matches!(res, Err(DagError::ParserError(_))));
}

#[test]
fn script_field_is_an_alternative_to_cmd() {
    let res = YamlParser::parse("dagrs:\n  a:\n    name: \"Task 1\"\n    script: echo a\n");
    assert!(res.is_ok());
}
