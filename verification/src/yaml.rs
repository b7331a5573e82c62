//! The declarative configuration parser: a document whose root holds a
//! `dagrs` mapping of task records (`name`, optional `after`, and a script
//! field) becomes a list of tasks ready for a DAG, or a parser error.

use vstd::prelude::*;
use vstd::string::{StrSliceExecFns, StringExecFns};
use yaml_rust::{ScanError, Yaml, YamlLoader};
use crate::engine::DagError;
use crate::task::{DefaultTask, TaskMeta};
use crate::dag::Dag;
use crate::graph::{closed_world, distinct_ids, has_id, metas, task_refs_ok};
use crate::values::{Input, Output};
use crate::env::EnvVar;
use std::sync::Arc;

verus! {

#[verifier::external_type_specification]
#[verifier::external_body]
pub struct ExYaml(Yaml);

#[verifier::external_type_specification]
#[verifier::external_body]
pub struct ExScanError(ScanError);

#[verifier::external_type_specification]
#[verifier::external_body]
pub struct ExIoError(std::io::Error);

/// The mathematical shape of a parsed document value: the string scalars
/// the records use, ordered lists, insertion-ordered mappings, and every
/// other kind of scalar collapsed into one constructor.
pub ghost enum YamlModel {
    Scalar(Seq<char>),
    List(Seq<YamlModel>),
    Mapping(Seq<(YamlModel, YamlModel)>),
    Other,
}

/// The shape of a parsed document value: a function of the value alone.
pub uninterp spec fn yaml_model(y: Yaml) -> YamlModel;

/// What parsing a text yields: the models of its documents in order, or
/// nothing for malformed text; a function of the text alone.
pub uninterp spec fn yaml_docs_of(text: Seq<char>) -> Option<Seq<YamlModel>>;

/// The description a scan error prints: a function of the error alone.
pub uninterp spec fn scan_error_text(e: ScanError) -> Seq<char>;

/// The models of a pair list's keys and values.
pub open spec fn pairs_model(ps: Seq<(Yaml, Yaml)>) -> Seq<(YamlModel, YamlModel)> {
    ps.map_values(|p: (Yaml, Yaml)| (yaml_model(p.0), yaml_model(p.1)))
}

/// Relies on yaml_rust::YamlLoader::load_from_str: the parsed documents, or
/// a scan error exactly for malformed text; parsing is a function of the
/// text alone.
#[verifier::external_body]
fn load_yaml(text: &str) -> (r: Result<Vec<Yaml>, ScanError>)
    ensures
        match r {
            Ok(docs) => yaml_docs_of(text@) matches Some(ms) && docs@.map_values(
                |y: Yaml| yaml_model(y),
            ) == ms,
            Err(_) => yaml_docs_of(text@) is None,
        },
{
    YamlLoader::load_from_str(text)
}

/// Relies on yaml_rust::Yaml::as_hash and LinkedHashMap iteration: the
/// mapping's entries in insertion order, or `None` for a non-mapping value.
#[verifier::external_body]
fn yaml_hash_entries(y: &Yaml) -> (r: Option<Vec<(Yaml, Yaml)>>)
    ensures
        match r {
            Some(pairs) => yaml_model(*y) matches YamlModel::Mapping(ps) && pairs_model(pairs@)
                == ps,
            None => !(yaml_model(*y) is Mapping),
        },
{
    match y.as_hash() {
        Some(h) => Some(h.iter().map(|(k, v)| (k.clone(), v.clone())).collect()),
        None => None,
    }
}

/// Relies on yaml_rust::Yaml::as_str: the string scalar, or `None` for any
/// other kind of value.
#[verifier::external_body]
fn yaml_as_str(y: &Yaml) -> (r: Option<String>)
    ensures
        match r {
            Some(s) => yaml_model(*y) == YamlModel::Scalar(s@),
            None => !(yaml_model(*y) is Scalar),
        },
{
    y.as_str().map(|s| s.to_owned())
}

/// Relies on yaml_rust::Yaml::as_vec: the list's elements in order, or
/// `None` for a non-list value.
#[verifier::external_body]
fn yaml_as_vec(y: &Yaml) -> (r: Option<Vec<Yaml>>)
    ensures
        match r {
            Some(items) => yaml_model(*y) matches YamlModel::List(ms) && items@.map_values(
                |e: Yaml| yaml_model(e),
            ) == ms,
            None => !(yaml_model(*y) is List),
        },
{
    y.as_vec().map(|v| v.clone())
}

/// Relies on the Display impl of yaml_rust::ScanError: a plain rendering of
/// the error's stored position and message, a function of the error alone.
#[verifier::external_body]
fn scan_error_msg(e: &ScanError) -> (r: String)
    ensures
        r@ == scan_error_text(*e),
{
    format!("{}", e)
}

/// Relies on the Display impl of std::io::Error for the error text.
#[verifier::external_body]
fn io_error_msg(e: &std::io::Error) -> (r: String)
{
    format!("{}", e)
}

/// A fault in a task record of the configuration document.
#[derive(Debug)]
pub enum YamlTaskError {
    /// The document root does not hold the expected start word mapping.
    StartWordError,
    /// The named record has no `name` field.
    NoNameAttr(String),
    /// The named task lists a predecessor key that no record carries.
    NotFoundPrecursor(String),
    /// The named task has no script field.
    NoScriptAttr(String),
}

/// A fault in the document text itself.
#[derive(Debug)]
pub enum FileContentError {
    /// The text is not well-formed configuration syntax.
    IllegalYamlContent(ScanError),
    /// The named file held no text at all.
    Empty(String),
}

/// The configuration file could not be read.
pub struct FileNotFound(pub std::io::Error);

impl YamlTaskError {
    pub open spec fn msg_spec(self) -> Seq<char> {
        match self {
            YamlTaskError::StartWordError => "File content is not start with 'dagrs'."@,
            YamlTaskError::NoNameAttr(nm) => "Task has no name field. ["@ + nm@ + "]"@,
            YamlTaskError::NotFoundPrecursor(nm) =>
                "Task cannot find the specified predecessor. ["@ + nm@ + "]"@,
            YamlTaskError::NoScriptAttr(nm) => "The 'script' attribute is not defined. ["@ + nm@
                + "]"@,
        }
    }
}

impl DagError {
    /// The configuration-parsing failure a task-record fault surfaces as.
    pub fn from_yaml_task_error(value: YamlTaskError) -> (r: DagError)
        ensures
            r matches DagError::ParserError(m) && m@ == value.msg_spec(),
    {
        let msg: String = match &value {
            YamlTaskError::StartWordError => "File content is not start with 'dagrs'.".to_owned(),
            YamlTaskError::NoNameAttr(nm) => "Task has no name field. [".to_owned().concat(
                nm.as_str(),
            ).concat("]"),
            YamlTaskError::NotFoundPrecursor(nm) =>
                "Task cannot find the specified predecessor. [".to_owned().concat(
                nm.as_str(),
            ).concat("]"),
            YamlTaskError::NoScriptAttr(nm) => "The 'script' attribute is not defined. [".to_owned(
            ).concat(nm.as_str()).concat("]"),
        };
        DagError::ParserError(msg)
    }

    /// The configuration-parsing failure a document fault surfaces as.
    pub fn from_file_content_error(value: FileContentError) -> (r: DagError)
        ensures
            r is ParserError,
            value matches FileContentError::Empty(f) ==> (r matches DagError::ParserError(m) && m@
                == "File is empty! ["@ + f@ + "]"@),
            value matches FileContentError::IllegalYamlContent(err) ==> (r matches
                DagError::ParserError(m) && m@ == scan_error_text(err)),
    {
        match &value {
            FileContentError::IllegalYamlContent(err) => DagError::ParserError(
                scan_error_msg(err),
            ),
            FileContentError::Empty(file) => DagError::ParserError(
                "File is empty! [".to_owned().concat(file.as_str()).concat("]"),
            ),
        }
    }

    /// The configuration-parsing failure an unreadable file surfaces as.
    pub fn from_file_not_found(value: FileNotFound) -> (r: DagError)
        ensures
            r matches DagError::ParserError(m) && (exists|t: Seq<char>|
                m@ == "File not found. ["@ + t + "]"@),
    {
        let detail = io_error_msg(&value.0);
        let msg = "File not found. [".to_owned().concat(detail.as_str()).concat("]");
        proof {
            assert(msg@ == "File not found. ["@ + detail@ + "]"@);
        }
        DagError::ParserError(msg)
    }
}

/// One task record read from the document, reduced to plain values: the
/// record's key, its `name` and script fields if present, and the `after`
/// keys in order.
pub struct RawEntry {
    pub key: String,
    pub name: Option<String>,
    pub after: Vec<String>,
    pub script: Option<String>,
}

/// The mathematical content of a record.
#[verifier::ext_equal]
pub ghost struct RawEntryModel {
    pub key: Seq<char>,
    pub name: Option<Seq<char>>,
    pub after: Seq<Seq<char>>,
    pub script: Option<Seq<char>>,
}

impl View for RawEntry {
    type V = RawEntryModel;

    open spec fn view(&self) -> RawEntryModel {
        RawEntryModel {
            key: self.key@,
            name: match self.name {
                Some(n) => Some(n@),
                None => None,
            },
            after: self.after@.map_values(|s: String| s@),
            script: match self.script {
                Some(s) => Some(s@),
                None => None,
            },
        }
    }
}

pub open spec fn entry_models(es: Seq<RawEntry>) -> Seq<RawEntryModel> {
    es.map_values(|e: RawEntry| e@)
}


pub open spec fn scalar_chars(m: YamlModel) -> Seq<char> {
    match m {
        YamlModel::Scalar(t) => t,
        _ => Seq::empty(),
    }
}

pub open spec fn model_has_key(ps: Seq<(YamlModel, YamlModel)>, key: Seq<char>) -> bool {
    exists|j: int| 0 <= j < ps.len() && ps[j].0 == YamlModel::Scalar(key)
}

pub open spec fn model_key_at(ps: Seq<(YamlModel, YamlModel)>, key: Seq<char>) -> int {
    choose|j: int|
        0 <= j < ps.len() && ps[j].0 == YamlModel::Scalar(key) && (forall|j2: int|
            0 <= j2 < j ==> ps[j2].0 != YamlModel::Scalar(key))
}

/// The value of the first field keyed `key`, if any.
pub open spec fn model_lookup(ps: Seq<(YamlModel, YamlModel)>, key: Seq<char>) -> Option<
    YamlModel,
> {
    if model_has_key(ps, key) {
        Some(ps[model_key_at(ps, key)].1)
    } else {
        None
    }
}

proof fn lemma_model_key_at_valid(ps: Seq<(YamlModel, YamlModel)>, key: Seq<char>, w: int)
    requires
        0 <= w < ps.len(),
        ps[w].0 == YamlModel::Scalar(key),
    ensures
        0 <= model_key_at(ps, key) < ps.len(),
        ps[model_key_at(ps, key)].0 == YamlModel::Scalar(key),
        forall|j2: int| 0 <= j2 < model_key_at(ps, key) ==> ps[j2].0 != YamlModel::Scalar(key),
    decreases w,
{
    if forall|j2: int| 0 <= j2 < w ==> ps[j2].0 != YamlModel::Scalar(key) {
        assert(0 <= w < ps.len() && ps[w].0 == YamlModel::Scalar(key) && (forall|j2: int|
            0 <= j2 < w ==> ps[j2].0 != YamlModel::Scalar(key)));
    } else {
        let w0 = choose|j2: int| 0 <= j2 < w && ps[j2].0 == YamlModel::Scalar(key);
        lemma_model_key_at_valid(ps, key, w0);
    }
}

pub open spec fn fields_of(v: YamlModel) -> Seq<(YamlModel, YamlModel)> {
    match v {
        YamlModel::Mapping(fs) => fs,
        _ => Seq::empty(),
    }
}

/// The record's `name` field, when it is a string scalar.
pub open spec fn name_of(fs: Seq<(YamlModel, YamlModel)>) -> Option<Seq<char>> {
    match model_lookup(fs, "name"@) {
        Some(m) => match m {
            YamlModel::Scalar(t) => Some(t),
            _ => None,
        },
        None => None,
    }
}

/// The record's script: the `cmd` field when present, else `script`.
pub open spec fn script_of(fs: Seq<(YamlModel, YamlModel)>) -> Option<Seq<char>> {
    match model_lookup(fs, "cmd"@) {
        Some(m) => match m {
            YamlModel::Scalar(t) => Some(t),
            _ => None,
        },
        None => match model_lookup(fs, "script"@) {
            Some(m) => match m {
                YamlModel::Scalar(t) => Some(t),
                _ => None,
            },
            None => None,
        },
    }
}

/// The record's `after` keys in order; an entry that is no string scalar
/// resolves to the empty key, which no record carries a name under.
pub open spec fn after_of(fs: Seq<(YamlModel, YamlModel)>) -> Seq<Seq<char>> {
    match model_lookup(fs, "after"@) {
        Some(m) => match m {
            YamlModel::List(ms) => ms.map_values(|e: YamlModel| scalar_chars(e)),
            _ => Seq::empty(),
        },
        None => Seq::empty(),
    }
}

/// The plain record a document record reduces to.
#[verifier::opaque]
pub open spec fn record_entry(key: Seq<char>, v: YamlModel) -> RawEntryModel {
    RawEntryModel {
        key: key,
        name: name_of(fields_of(v)),
        after: after_of(fields_of(v)),
        script: script_of(fields_of(v)),
    }
}

/// The record list under the `dagrs` start word, when the document has the
/// expected shape.
pub open spec fn doc_records(doc: YamlModel) -> Option<Seq<(YamlModel, YamlModel)>> {
    match doc {
        YamlModel::Mapping(ps) => match model_lookup(ps, "dagrs"@) {
            Some(b) => match b {
                YamlModel::Mapping(rs) => Some(rs),
                _ => None,
            },
            None => None,
        },
        _ => None,
    }
}

pub open spec fn keys_scalar(rs: Seq<(YamlModel, YamlModel)>) -> bool {
    forall|j: int| 0 <= j < rs.len() ==> (#[trigger] rs[j].0) is Scalar
}

pub open spec fn records_of(rs: Seq<(YamlModel, YamlModel)>) -> Seq<RawEntryModel> {
    Seq::new(rs.len(), |j: int| record_entry(scalar_chars(rs[j].0), rs[j].1))
}

/// The document fails the structural check: no start-word mapping, or a
/// record key that is not a string.
pub open spec fn start_word_fault(doc: YamlModel) -> bool {
    match doc_records(doc) {
        Some(rs) => !keys_scalar(rs),
        None => true,
    }
}

/// What a text parses to, when it parses at all: nonempty text, at least
/// one well-formed document, the start-word mapping present, every record
/// key a string.
pub open spec fn parsed_records(text: Seq<char>) -> Option<Seq<RawEntryModel>> {
    if text.len() == 0 {
        None
    } else {
        match yaml_docs_of(text) {
            Some(ds) => if ds.len() > 0 {
                match doc_records(ds[0]) {
                    Some(rs) => if keys_scalar(rs) {
                        Some(records_of(rs))
                    } else {
                        None
                    },
                    None => None,
                }
            } else {
                None
            },
            None => None,
        }
    }
}

/// Every record carries a name and a script, and every `after` key names
/// some record.
pub open spec fn records_buildable(es: Seq<RawEntryModel>) -> bool {
    &&& forall|j: int|
        0 <= j < es.len() ==> (#[trigger] es[j]).name is Some && es[j].script is Some
    &&& forall|j: int, m: int|
        0 <= j < es.len() && 0 <= m < es[j].after.len() ==> key_found(
            es,
            #[trigger] es[j].after[m],
        )
}

/// Tasks materialized from records: ids in document order from 1, names
/// from the `name` fields, predecessors the ids of the first records
/// carrying the `after` keys, in declaration order.
pub open spec fn tasks_match(es: Seq<RawEntryModel>, ts: Seq<TaskMeta>) -> bool {
    &&& ts.len() == es.len()
    &&& forall|j: int|
        0 <= j < es.len() ==> (#[trigger] ts[j]).id == j + 1 && (es[j].name matches Some(n)
            && ts[j].name == n) && ts[j].preds.len() == es[j].after.len()
    &&& forall|j: int, m: int|
        0 <= j < es.len() && 0 <= m < es[j].after.len() ==> (#[trigger] ts[j].preds[m]) as int
            == key_first(es, es[j].after[m]) + 1
}

/// The first record carrying `key`, the one `after` references resolve to.
pub open spec fn key_first(es: Seq<RawEntryModel>, key: Seq<char>) -> int {
    choose|j: int|
        0 <= j < es.len() && es[j].key == key && (forall|j2: int|
            0 <= j2 < j ==> es[j2].key != key)
}

pub open spec fn key_found(es: Seq<RawEntryModel>, key: Seq<char>) -> bool {
    exists|j: int| 0 <= j < es.len() && es[j].key == key
}

/// Records before `j` carry both a name and a script.
pub open spec fn fields_ok_before(es: Seq<RawEntryModel>, j: int) -> bool {
    forall|j2: int| 0 <= j2 < j ==> es[j2].name is Some && es[j2].script is Some
}

/// All `after` keys of records before `j` resolve.
pub open spec fn resolved_before(es: Seq<RawEntryModel>, j: int) -> bool {
    forall|j2: int, m: int|
        0 <= j2 < j && 0 <= m < es[j2].after.len() ==> key_found(es, #[trigger] es[j2].after[m])
}

/// The action a freshly parsed task carries: it produces the empty
/// envelope.  The host replaces it with a real runner before execution.
pub struct EmptyAction;

impl crate::task::Complex for EmptyAction {
    fn run(&self, _input: Input, _env: Arc<EnvVar>) -> Output {
        Output::empty()
    }
}

/// Materialize tasks from the plain records: ids are allocated in document
/// order starting at 1, names are taken from the `name` fields, and each
/// `after` key becomes the id of the first record carrying that key.
pub fn build_tasks(entries: &Vec<RawEntry>) -> (r: Result<Vec<DefaultTask>, YamlTaskError>)
    ensures
        match r {
            Ok(tasks) => {
                let es = entry_models(entries@);
                &&& tasks_match(es, metas(tasks@))
                &&& records_buildable(es)
            },
            Err(e) => {
                let es = entry_models(entries@);
                match e {
                    YamlTaskError::NoNameAttr(k) => exists|j: int|
                        0 <= j < es.len() && (#[trigger] es[j].name) is None && fields_ok_before(
                            es,
                            j,
                        ) && k@ == es[j].key,
                    YamlTaskError::NoScriptAttr(nm) => exists|j: int|
                        0 <= j < es.len() && es[j].name is Some && (#[trigger] es[j].script)
                            is None && fields_ok_before(es, j) && (es[j].name matches Some(n)
                            && nm@ == n),
                    YamlTaskError::NotFoundPrecursor(nm) => exists|j: int, m: int|
                        0 <= j < es.len() && 0 <= m < es[j].after.len() && !key_found(
                            es,
                            #[trigger] es[j].after[m],
                        ) && resolved_before(es, j) && fields_ok_before(es, es.len() as int) && (
                        es[j].name matches Some(n) && nm@ == n),
                    YamlTaskError::StartWordError => false,
                }
            },
        },
{
    let ghost es = entry_models(entries@);
    let n = entries.len();
    let mut j: usize = 0;
    while j < n
        invariant
            es == entry_models(entries@),
            n == es.len(),
            j <= n,
            fields_ok_before(es, j as int),
        decreases n - j,
    {
        proof {
            assert(es[j as int] == entries@[j as int]@);
        }
        match &entries[j].name {
            None => {
                proof {
                    assert(es[j as int].name is None);
                }
                return Err(YamlTaskError::NoNameAttr(entries[j].key.clone()));
            },
            Some(nm) => {
                match &entries[j].script {
                    None => {
                        proof {
                            assert(es[j as int].name is Some && es[j as int].script is None);
                            assert(es[j as int].name matches Some(n) && nm@ == n);
                        }
                        return Err(YamlTaskError::NoScriptAttr(nm.clone()));
                    },
                    Some(_) => {},
                }
            },
        }
        j = j + 1;
    }
    let mut tasks: Vec<DefaultTask> = Vec::new();
    let mut j2: usize = 0;
    while j2 < n
        invariant
            es == entry_models(entries@),
            n == es.len(),
            j2 <= n,
            fields_ok_before(es, n as int),
            resolved_before(es, j2 as int),
            tasks@.len() == j2,
            forall|j3: int|
                0 <= j3 < j2 ==> (#[trigger] tasks@[j3]@).id == j3 + 1 && (es[j3].name
                    matches Some(nn) && tasks@[j3]@.name == nn) && tasks@[j3]@.preds.len()
                    == es[j3].after.len(),
            forall|j3: int, m: int|
                0 <= j3 < j2 && 0 <= m < es[j3].after.len() ==> (
                #[trigger] tasks@[j3]@.preds[m]) as int == key_first(es, es[j3].after[m]) + 1,
        decreases n - j2,
    {
        let mut pred_ids: Vec<usize> = Vec::new();
        let mut m: usize = 0;
        let after_len = entries[j2].after.len();
        while m < after_len
            invariant
                es == entry_models(entries@),
                n == es.len(),
                j2 < n,
                resolved_before(es, j2 as int),
                fields_ok_before(es, n as int),
                after_len == es[j2 as int].after.len(),
                m <= after_len,
                pred_ids@.len() == m,
                forall|m2: int|
                    0 <= m2 < m ==> (#[trigger] pred_ids@[m2]) as int == key_first(
                        es,
                        es[j2 as int].after[m2],
                    ) + 1,
                forall|m2: int| 0 <= m2 < m ==> key_found(es, #[trigger] es[j2 as int].after[m2]),
            decreases after_len - m,
        {
            let wanted = &entries[j2].after[m];
            let mut w: usize = 0;
            let mut found: Option<usize> = None;
            while w < n
                invariant
                    es == entry_models(entries@),
                    n == es.len(),
                    w <= n,
                    wanted@ == es[j2 as int].after[m as int],
                    j2 < n,
                    m < es[j2 as int].after.len(),
                    match found {
                        Some(fw) => fw < n && es[fw as int].key == wanted@ && (forall|w2: int|
                            0 <= w2 < fw ==> es[w2].key != wanted@),
                        None => forall|w2: int| 0 <= w2 < w ==> es[w2].key != wanted@,
                    },
                decreases n - w,
            {
                if found.is_none() && entries[w].key == *wanted {
                    found = Some(w);
                    proof {
                        assert(es[w as int] == entries@[w as int]@);
                        assert(es[w as int].key == wanted@);
                    }
                } else {
                    proof {
                        if found is None {
                            assert(es[w as int] == entries@[w as int]@);
                            assert(es[w as int].key != wanted@);
                        }
                    }
                }
                w = w + 1;
            }
            match found {
                Some(fw) => {
                    proof {
                        let kf = key_first(es, wanted@);
                        assert(0 <= fw < es.len() && es[fw as int].key == wanted@);
                        assert(forall|w2: int| 0 <= w2 < fw ==> es[w2].key != wanted@);
                        assert(0 <= kf < es.len() && es[kf].key == wanted@ && (forall|w2: int|
                            0 <= w2 < kf ==> es[w2].key != wanted@));
                        if kf < fw as int {
                            assert(es[kf].key != wanted@);
                        }
                        if (fw as int) < kf {
                            assert(es[fw as int].key != wanted@);
                        }
                        assert(kf == fw as int);
                    }
                    pred_ids.push(fw + 1);
                },
                None => {
                    proof {
                        assert(!key_found(es, wanted@)) by {
                            if key_found(es, wanted@) {
                                let w2 = choose|w2: int|
                                    0 <= w2 < es.len() && es[w2].key == wanted@;
                                assert(es[w2].key != wanted@);
                            }
                        }
                        assert(es[j2 as int].name is Some);
                    }
                    let mut nm: String = String::new();
                    match &entries[j2].name {
                        Some(nn) => {
                            nm = nn.clone();
                        },
                        None => {
                            proof {
                                assert(false);
                            }
                        },
                    }
                    return Err(YamlTaskError::NotFoundPrecursor(nm));
                },
            }
            m = m + 1;
        }
        let mut nm2: String = String::new();
        match &entries[j2].name {
            Some(nn) => {
                nm2 = nn.clone();
            },
            None => {
                proof {
                    assert(es[j2 as int].name is Some);
                    assert(false);
                }
            },
        }
        let mut t = DefaultTask::with_action(j2 + 1, nm2.as_str(), EmptyAction);
        t.set_predecessor_ids(pred_ids);
        let ghost old_tasks = tasks@;
        tasks.push(t);
        proof {
            assert(tasks@[j2 as int]@.id == j2 + 1);
            assert(es[j2 as int].name matches Some(nn) && tasks@[j2 as int]@.name == nn);
            assert forall|j3: int, m2: int|
                0 <= j3 < j2 + 1 && 0 <= m2 < es[j3].after.len() implies (
                #[trigger] tasks@[j3]@.preds[m2]) as int == key_first(es, es[j3].after[m2])
                + 1 by {
                if j3 < j2 as int {
                    assert(tasks@[j3] == old_tasks[j3]);
                }
            }
        }
        j2 = j2 + 1;
    }
    proof {
        let es = entry_models(entries@);
        let mts = metas(tasks@);
        assert(mts.len() == es.len());
        assert forall|j: int|
            0 <= j < es.len() implies (#[trigger] mts[j]).id == j + 1 && (es[j].name
            matches Some(nn) && mts[j].name == nn) && mts[j].preds.len() == es[j].after.len() by {
            assert(mts[j] == tasks@[j]@);
        }
        assert forall|j: int, m: int|
            0 <= j < es.len() && 0 <= m < es[j].after.len() implies (
        #[trigger] mts[j].preds[m]) as int == key_first(es, es[j].after[m]) + 1 by {
            assert(mts[j] == tasks@[j]@);
            assert((tasks@[j]@.preds[m]) as int == key_first(es, es[j].after[m]) + 1);
        }
        assert(tasks_match(es, mts));
        assert forall|j: int|
            0 <= j < es.len() implies (#[trigger] es[j]).name is Some && es[j].script
            is Some by {
            assert(fields_ok_before(es, n as int));
        }
        assert forall|j: int, m: int|
            0 <= j < es.len() && 0 <= m < es[j].after.len() implies key_found(
            es,
            #[trigger] es[j].after[m],
        ) by {
            assert(resolved_before(es, n as int));
        }
        assert(records_buildable(es));
    }
    Ok(tasks)
}


/// The value of the first field of the record whose key is `name`.
fn field_of<'a>(pairs: &'a Vec<(Yaml, Yaml)>, name: &str) -> (r: Option<&'a Yaml>)
    ensures
        match r {
            Some(v) => model_lookup(pairs_model(pairs@), name@) matches Some(m) && yaml_model(*v)
                == m,
            None => model_lookup(pairs_model(pairs@), name@) is None,
        },
{
    let ghost ps = pairs_model(pairs@);
    let keyed: String = name.to_owned();
    let mut i: usize = 0;
    while i < pairs.len()
        invariant
            ps == pairs_model(pairs@),
            keyed@ == name@,
            i <= ps.len(),
            forall|j: int| 0 <= j < i ==> ps[j].0 != YamlModel::Scalar(name@),
        decreases pairs@.len() - i,
    {
        match yaml_as_str(&pairs[i].0) {
            Some(k) => {
                proof {
                    assert(ps[i as int].0 == YamlModel::Scalar(k@));
                }
                if k == keyed {
                    proof {
                        assert(ps[i as int].0 == YamlModel::Scalar(name@));
                        lemma_model_key_at_valid(ps, name@, i as int);
                        let a = model_key_at(ps, name@);
                        if a < i as int {
                            assert(ps[a].0 != YamlModel::Scalar(name@));
                        }
                        if (i as int) < a {
                            assert(ps[i as int].0 != YamlModel::Scalar(name@));
                        }
                        assert(a == i as int);
                        assert(model_lookup(ps, name@) == Some(ps[i as int].1));
                        assert(ps[i as int].1 == yaml_model(pairs@[i as int].1));
                    }
                    return Some(&pairs[i].1);
                }
            },
            None => {
                proof {
                    assert(!(ps[i as int].0 is Scalar));
                }
            },
        }
        i = i + 1;
    }
    proof {
        if model_has_key(ps, name@) {
            let w = choose|j: int| 0 <= j < ps.len() && ps[j].0 == YamlModel::Scalar(name@);
            assert(ps[w].0 != YamlModel::Scalar(name@));
        }
    }
    None
}

/// Read the records under the `dagrs` start word into plain values.  A root
/// that is not a mapping, a missing start word, or a record key that is not
/// a string is the start-word fault; a record that is not a mapping yields
/// a record with no fields, reported downstream.  An `after` entry that is
/// not a string resolves to no record and is reported as a missing
/// precursor downstream.
#[verifier::rlimit(100)]
#[verifier::loop_isolation(false)]
fn extract_entries(doc: &Yaml) -> (r: Result<Vec<RawEntry>, YamlTaskError>)
    ensures
        match r {
            Ok(es) => doc_records(yaml_model(*doc)) matches Some(rs) && keys_scalar(rs)
                && entry_models(es@) == records_of(rs),
            Err(e) => e is StartWordError && start_word_fault(yaml_model(*doc)),
        },
{
    let root = match yaml_hash_entries(doc) {
        Some(pairs) => pairs,
        None => {
            return Err(YamlTaskError::StartWordError);
        },
    };
    let body = match field_of(&root, "dagrs") {
        Some(v) => v,
        None => {
            return Err(YamlTaskError::StartWordError);
        },
    };
    let records = match yaml_hash_entries(body) {
        Some(pairs) => pairs,
        None => {
            return Err(YamlTaskError::StartWordError);
        },
    };
    let ghost rsm = pairs_model(records@);
    proof {
        assert(doc_records(yaml_model(*doc)) == Some(rsm));
    }
    let mut entries: Vec<RawEntry> = Vec::new();
    let mut i: usize = 0;
    while i < records.len()
        invariant
            rsm == pairs_model(records@),
            doc_records(yaml_model(*doc)) == Some(rsm),
            i <= rsm.len(),
            entries@.len() == i,
            forall|j: int| 0 <= j < i ==> (#[trigger] rsm[j].0) is Scalar,
            forall|j: int|
                0 <= j < i ==> (#[trigger] entries@[j])@ == record_entry(
                    scalar_chars(rsm[j].0),
                    rsm[j].1,
                ),
        decreases records@.len() - i,
    {
        let key = match yaml_as_str(&records[i].0) {
            Some(k) => k,
            None => {
                proof {
                    assert(!(rsm[i as int].0 is Scalar));
                    assert(!keys_scalar(rsm));
                }
                return Err(YamlTaskError::StartWordError);
            },
        };
        proof {
            assert(rsm[i as int].0 == YamlModel::Scalar(key@));
        }
        let ghost fsm = fields_of(rsm[i as int].1);
        let fields: Vec<(Yaml, Yaml)> = match yaml_hash_entries(&records[i].1) {
            Some(pairs) => pairs,
            None => Vec::new(),
        };
        proof {
            assert(pairs_model(fields@) =~= fsm);
        }
        let name = match field_of(&fields, "name") {
            Some(v) => yaml_as_str(v),
            None => None,
        };
        proof {
            assert(match name {
                Some(nn) => name_of(fsm) == Some(nn@),
                None => name_of(fsm) is None,
            });
        }
        let script = match field_of(&fields, "cmd") {
            Some(v) => yaml_as_str(v),
            None => {
                match field_of(&fields, "script") {
                    Some(v) => yaml_as_str(v),
                    None => None,
                }
            },
        };
        proof {
            assert(match script {
                Some(sc) => script_of(fsm) == Some(sc@),
                None => script_of(fsm) is None,
            });
        }
        let mut after: Vec<String> = Vec::new();
        match field_of(&fields, "after") {
            Some(v) => {
                match yaml_as_vec(v) {
                    Some(items) => {
                        let ghost msv = items@.map_values(|e: Yaml| yaml_model(e));
                        proof {
                            assert(after_of(fsm) == msv.map_values(
                                |e: YamlModel| scalar_chars(e),
                            ));
                            assert(after_of(fsm).len() == items@.len());
                            assert forall|x: int|
                                0 <= x < items@.len() implies after_of(fsm)[x] == scalar_chars(
                                yaml_model(#[trigger] items@[x]),
                            ) by {
                                assert(msv[x] == yaml_model(items@[x]));
                            }
                        }
                        let mut a: usize = 0;
                        while a < items.len()
                            invariant
                                after_of(fsm).len() == items@.len(),
                                forall|x: int|
                                    0 <= x < items@.len() ==> after_of(fsm)[x] == scalar_chars(
                                        yaml_model(#[trigger] items@[x]),
                                    ),
                                a <= items@.len(),
                                after@.len() == a,
                                forall|x: int|
                                    0 <= x < a ==> (#[trigger] after@[x])@ == after_of(fsm)[x],
                            decreases items@.len() - a,
                        {
                            match yaml_as_str(&items[a]) {
                                Some(k) => {
                                    after.push(k);
                                },
                                None => {
                                    after.push(String::new());
                                },
                            }
                            a = a + 1;
                        }
                    },
                    None => {
                        proof {
                            assert(after_of(fsm) =~= Seq::<Seq<char>>::empty());
                        }
                    },
                }
            },
            None => {
                proof {
                    assert(after_of(fsm) =~= Seq::<Seq<char>>::empty());
                }
            },
        }
        proof {
            assert(after@.map_values(|t: String| t@) =~= after_of(fsm));
        }
        let ghost old_entries = entries@;
        entries.push(RawEntry { key, name, after, script });
        proof {
            reveal(record_entry);
            assert(entries@[i as int]@ =~= record_entry(
                scalar_chars(rsm[i as int].0),
                rsm[i as int].1,
            ));
            assert forall|j: int|
                0 <= j < i + 1 implies (#[trigger] entries@[j])@ == record_entry(
                scalar_chars(rsm[j].0),
                rsm[j].1,
            ) by {
                if j < i as int {
                    assert(entries@[j] == old_entries[j]);
                    assert(old_entries[j]@ == record_entry(scalar_chars(rsm[j].0), rsm[j].1));
                }
            }
        }
        i = i + 1;
    }
    proof {
        assert(keys_scalar(rsm));
        assert(entry_models(entries@) =~= records_of(rsm));
    }
    Ok(entries)
}

/// The configuration parser.
pub struct YamlParser;

impl YamlParser {
    /// Parse a configuration document into tasks carrying placeholder
    /// actions; the host attaches real runners.  Succeeds exactly when the
    /// text parses to records that all carry a name and a script and whose
    /// `after` keys all resolve; the tasks then realize those records, a
    /// closed graph with distinct ids allocated in document order from 1.
    pub fn parse(text: &str) -> (r: Result<Vec<DefaultTask>, DagError>)
        ensures
            r is Ok <==> (parsed_records(text@) matches Some(es) && records_buildable(es)),
            r matches Ok(tasks) ==> (parsed_records(text@) matches Some(es) && tasks_match(
                es,
                metas(tasks@),
            ) && distinct_ids(metas(tasks@)) && closed_world(metas(tasks@))),
            r matches Err(e) ==> e is ParserError,
    {
        let entries = match YamlParser::parse_entries(text) {
            Ok(es) => es,
            Err(e) => {
                return Err(e);
            },
        };
        match build_tasks(&entries) {
            Ok(tasks) => {
                proof {
                    let ts = metas(tasks@);
                    let es = entry_models(entries@);
                    assert forall|i: int, j: int|
                        0 <= i < j < ts.len() implies ts[i].id != ts[j].id by {
                        assert(ts[i].id == i + 1);
                        assert(ts[j].id == j + 1);
                    }
                    assert forall|j: int| 0 <= j < ts.len() implies task_refs_ok(ts, j) by {
                        assert forall|m: int|
                            0 <= m < ts[j].preds.len() implies has_id(
                            ts,
                            #[trigger] ts[j].preds[m],
                        ) by {
                            let kf = key_first(es, es[j].after[m]);
                            assert((ts[j].preds[m]) as int == kf + 1);
                            assert(key_found(es, es[j].after[m]));
                            assert(0 <= kf < es.len() && es[kf].key == es[j].after[m]) by {
                                let w = choose|w: int|
                                    0 <= w < es.len() && es[w].key == es[j].after[m];
                                lemma_key_first_valid(es, es[j].after[m], w);
                            }
                            assert(ts[kf].id == kf + 1);
                        }
                    }
                }
                Ok(tasks)
            },
            Err(e) => {
                proof {
                    let es = entry_models(entries@);
                    match &e {
                        YamlTaskError::NoNameAttr(_) => {
                            assert(!records_buildable(es));
                        },
                        YamlTaskError::NoScriptAttr(_) => {
                            assert(!records_buildable(es));
                        },
                        YamlTaskError::NotFoundPrecursor(_) => {
                            assert(!records_buildable(es));
                        },
                        YamlTaskError::StartWordError => {
                            assert(false);
                        },
                    }
                }
                Err(DagError::from_yaml_task_error(e))
            },
        }
    }
}

impl YamlParser {
    /// Read the document into the plain task records it holds: exactly
    /// `parsed_records` of the text, or a parser error for empty text, a
    /// malformed document, or a missing start word.
    pub fn parse_entries(text: &str) -> (r: Result<Vec<RawEntry>, DagError>)
        ensures
            r is Ok <==> parsed_records(text@) is Some,
            r matches Ok(es) ==> (parsed_records(text@) matches Some(ms) && entry_models(es@)
                == ms),
            r matches Err(e) ==> e is ParserError,
            text@.len() == 0 ==> (r matches Err(e) && e matches DagError::ParserError(m) && m@
                == "File is empty! ["@ + Seq::<char>::empty() + "]"@),
            (text@.len() > 0 && (yaml_docs_of(text@) matches Some(ds) && ds.len() > 0
                && start_word_fault(ds[0]))) ==> (r matches Err(e) && e matches
                DagError::ParserError(m) && m@ == "File content is not start with 'dagrs'."@),
    {
        if text.unicode_len() == 0 {
            return Err(
                DagError::from_file_content_error(FileContentError::Empty(String::new())),
            );
        }
        let docs = match load_yaml(text) {
            Ok(d) => d,
            Err(e) => {
                return Err(
                    DagError::from_file_content_error(FileContentError::IllegalYamlContent(e)),
                );
            },
        };
        let ghost ms = yaml_docs_of(text@)->0;
        if docs.len() == 0 {
            proof {
                assert(ms.len() == 0);
            }
            return Err(
                DagError::from_file_content_error(FileContentError::Empty(String::new())),
            );
        }
        proof {
            assert(yaml_model(docs@[0]) == ms[0]);
        }
        match extract_entries(&docs[0]) {
            Ok(es) => {
                proof {
                    assert(doc_records(ms[0]) matches Some(rs) && keys_scalar(rs)
                        && entry_models(es@) == records_of(rs));
                    assert(!start_word_fault(ms[0]));
                    assert(parsed_records(text@) matches Some(pm) && entry_models(es@) == pm);
                }
                Ok(es)
            },
            Err(e) => {
                proof {
                    assert(start_word_fault(ms[0]));
                    assert(parsed_records(text@) is None);
                }
                Err(DagError::from_yaml_task_error(e))
            },
        }
    }
}

/// The earliest record carrying a key that occurs at all is a valid
/// position for `key_first`.
proof fn lemma_key_first_valid(es: Seq<RawEntryModel>, key: Seq<char>, w: int)
    requires
        0 <= w < es.len(),
        es[w].key == key,
    ensures
        0 <= key_first(es, key) < es.len() && es[key_first(es, key)].key == key,
    decreases w,
{
    if forall|w2: int| 0 <= w2 < w ==> es[w2].key != key {
        assert(0 <= w < es.len() && es[w].key == key && (forall|w2: int|
            0 <= w2 < w ==> es[w2].key != key));
    } else {
        let w0 = choose|w2: int| 0 <= w2 < w && es[w2].key == key;
        lemma_key_first_valid(es, key, w0);
    }
}

impl Dag {
    /// Build a DAG from configuration text.  The tasks carry placeholder
    /// actions; a host that wants real runners parses the records itself,
    /// attaches actions with `set_action`, and builds the DAG from those.
    /// Succeeds exactly when `parse` does, and the DAG's tasks realize the
    /// parsed records.
    pub fn with_yaml_str(text: &str) -> (r: Result<Dag, DagError>)
        ensures
            r is Ok <==> (parsed_records(text@) matches Some(es) && records_buildable(es)),
            r matches Ok(d) ==> (d.wf() && !d.initialized() && closed_world(d.tasks_view()) && (
            parsed_records(text@) matches Some(es) && tasks_match(es, d.tasks_view()))),
            r matches Err(e) ==> e is ParserError,
    {
        match YamlParser::parse(text) {
            Ok(tasks) => Ok(Dag::with_tasks(tasks)),
            Err(e) => Err(e),
        }
    }
}

} // verus!
