//! Imports: journal steps and canonical JSON lines as ledger events.
use vstd::prelude::*;

use crate::chars::{
    blank, decimal, decimal_int, decimal_int_text, decimal_text, is_blank, lower, lower_text,
    opt_text, same_text, trim, trimmed,
};
use crate::digits::{nearest, nearest_whole, DIGITS_53};
use crate::error::{failure, ErrorModel, MemoryError, MemoryResult};
use crate::json::{json_text, json_words, parse_json, parsed_json, JsonModel, JsonNumber, JsonValue};
use crate::ledger::{EventModel, LedgerEvent};
use crate::model::{MemoryNodeKind, SpanModel};
use crate::rows::opt_str;
use crate::store::{at_span, MemoryStore, StoreModel};
use crate::table::some_row;
use crate::text::{concise, concise_form, stable_id, stable_id_of, str_texts};

verus! {

// ---------------------------------------------------------------------------
// Reading values
// ---------------------------------------------------------------------------
/// The words of the first of some fields that has any.
pub open spec fn first_words(value: JsonModel, fields: Seq<Seq<char>>) -> Option<Seq<char>>
    decreases fields.len(),
{
    if fields.len() == 0 {
        None
    } else {
        match first_words(value, fields.drop_last()) {
            Some(words) => Some(words),
            None => value.at(fields.last()).as_words(),
        }
    }
}

/// The value at the end of a path of keys, where there is one.
pub open spec fn at_path(value: JsonModel, path: Seq<Seq<char>>) -> Option<JsonModel>
    decreases path.len(),
{
    if path.len() == 0 {
        Some(value)
    } else {
        match at_path(value, path.drop_last()) {
            Some(inner) => inner.get(path.last()),
            None => None,
        }
    }
}

/// The words at the end of a path of keys.
pub open spec fn words_at(value: JsonModel, path: Seq<Seq<char>>) -> Option<Seq<char>> {
    match at_path(value, path) {
        Some(inner) => inner.as_words(),
        None => None,
    }
}

/// The first of two that is there.
pub open spec fn or_else<A>(first: Option<A>, second: Option<A>) -> Option<A> {
    if first is Some {
        first
    } else {
        second
    }
}

fn or_text(first: Option<String>, second: Option<String>) -> (r: Option<String>)
    ensures
        opt_text(r) == or_else(opt_text(first), opt_text(second)),
{
    if first.is_some() {
        first
    } else {
        second
    }
}

/// The value under a key, or null.
fn member<'a>(value: &'a JsonValue, key: &str, nothing: &'a JsonValue) -> (r: &'a JsonValue)
    requires
        nothing@ == JsonModel::Null,
    ensures
        r@ == value@.at(key@),
{
    match value.get(key) {
        Some(inner) => inner,
        None => nothing,
    }
}

/// The words of the first of some fields that has any.
pub fn first_string_field(value: &JsonValue, fields: &[&str]) -> (r: Option<String>)
    ensures
        opt_text(r) == first_words(value@, str_texts(fields@)),
{
    let ghost all = str_texts(fields@);
    let mut i: usize = 0;
    proof {
        assert(all.take(0) =~= Seq::empty());
    }
    while i < fields.len()
        invariant
            i <= fields@.len(),
            all == str_texts(fields@),
            first_words(value@, all.take(i as int)) is None,
        decreases fields.len() - i,
    {
        proof {
            assert(all.take(i as int + 1).drop_last() =~= all.take(i as int));
            assert(all.take(i as int + 1).last() == fields@[i as int]@);
        }
        if let Some(inner) = value.get(fields[i]) {
            let words = inner.as_words();
            if words.is_some() {
                proof {
                    lemma_first_words_prefix(value@, all, i as int + 1);
                }
                return words;
            }
        }
        i += 1;
    }
    proof {
        assert(all.take(i as int) =~= all);
    }
    None
}

proof fn lemma_first_words_prefix(value: JsonModel, fields: Seq<Seq<char>>, k: int)
    requires
        0 <= k <= fields.len(),
        first_words(value, fields.take(k)) is Some,
    ensures
        first_words(value, fields) == first_words(value, fields.take(k)),
    decreases fields.len(),
{
    if k < fields.len() {
        assert(fields.drop_last().take(k) =~= fields.take(k));
        lemma_first_words_prefix(value, fields.drop_last(), k);
    } else {
        assert(fields.take(k) =~= fields);
    }
}

proof fn lemma_at_path_prefix(value: JsonModel, path: Seq<Seq<char>>, k: int)
    requires
        0 <= k <= path.len(),
        at_path(value, path.take(k)) is None,
    ensures
        at_path(value, path) is None,
    decreases path.len(),
{
    if k < path.len() {
        assert(path.drop_last().take(k) =~= path.take(k));
        lemma_at_path_prefix(value, path.drop_last(), k);
    } else {
        assert(path.take(k) =~= path);
    }
}

/// The words at the end of a path of keys.
pub fn string_at_path(value: &JsonValue, path: &[&str]) -> (r: Option<String>)
    ensures
        opt_text(r) == words_at(value@, str_texts(path@)),
{
    let ghost all = str_texts(path@);
    let mut cursor = value;
    let mut i: usize = 0;
    proof {
        assert(all.take(0) =~= Seq::empty());
    }
    while i < path.len()
        invariant
            i <= path@.len(),
            all == str_texts(path@),
            at_path(value@, all.take(i as int)) == Some(cursor@),
        decreases path.len() - i,
    {
        proof {
            assert(all.take(i as int + 1).drop_last() =~= all.take(i as int));
            assert(all.take(i as int + 1).last() == path@[i as int]@);
        }
        match cursor.get(path[i]) {
            Some(inner) => {
                cursor = inner;
            },
            None => {
                proof {
                    lemma_at_path_prefix(value@, all, i as int + 1);
                }
                return None;
            },
        }
        i += 1;
    }
    proof {
        assert(all.take(i as int) =~= all);
    }
    cursor.as_words()
}

// ---------------------------------------------------------------------------
// Kinds and texts of memories
// ---------------------------------------------------------------------------
/// The kind that a word stands for: a kind by name or alias, or a common other word for one.
pub open spec fn kind_word(value: Option<Seq<char>>) -> Option<MemoryNodeKind> {
    match value {
        None => None,
        Some(text) => {
            let word = lower(trim(text));
            if word == "semantic"@ {
                Some(MemoryNodeKind::Fact)
            } else if word == "episodic"@ {
                Some(MemoryNodeKind::Episode)
            } else if word == "runbook"@ || word == "workflow"@ {
                Some(MemoryNodeKind::Procedure)
            } else if word == "failure"@ {
                Some(MemoryNodeKind::Gotcha)
            } else {
                MemoryNodeKind::named(word)
            }
        },
    }
}

/// The kind that a word stands for.
pub fn parse_memory_kind(value: &Option<String>) -> (r: Option<MemoryNodeKind>)
    ensures
        r == kind_word(opt_text(*value)),
{
    match value {
        None => None,
        Some(text) => {
            let core = trimmed(text.as_str());
            let word_text = lower_text(core.as_str());
            let word = word_text.as_str();
            if same_text(word, "semantic") {
                Some(MemoryNodeKind::Fact)
            } else if same_text(word, "episodic") {
                Some(MemoryNodeKind::Episode)
            } else if same_text(word, "runbook") || same_text(word, "workflow") {
                Some(MemoryNodeKind::Procedure)
            } else if same_text(word, "failure") {
                Some(MemoryNodeKind::Gotcha)
            } else {
                match MemoryNodeKind::parse(word) {
                    Ok(kind) => Some(kind),
                    Err(_) => None,
                }
            }
        },
    }
}

/// The kind that a field names.
pub open spec fn kind_in_field(value: JsonModel, key: Seq<char>) -> Option<MemoryNodeKind> {
    kind_word(words_at(value, seq![key]))
}

/// The kind that a field inside a field names.
pub open spec fn kind_in_inner(value: JsonModel, outer: Seq<char>, key: Seq<char>) -> Option<
    MemoryNodeKind,
> {
    kind_word(words_at(value, seq![outer, key]))
}

/// The kind of memory that a record names, by the first of its usual places that names one.
pub open spec fn kind_of_record(value: JsonModel) -> Option<MemoryNodeKind> {
    let a = kind_in_inner(value, "attributes"@, "beater.memory.kind"@);
    let b = or_else(a, kind_in_inner(value, "attributes"@, "memory.kind"@));
    let c = or_else(b, kind_in_inner(value, "input"@, "kind"@));
    let d = or_else(c, kind_in_inner(value, "input"@, "memory_kind"@));
    let e = or_else(d, kind_in_inner(value, "payload"@, "kind"@));
    let f = or_else(e, kind_in_inner(value, "payload"@, "memory_kind"@));
    let g = or_else(f, kind_in_inner(value, "output"@, "kind"@));
    let h = or_else(g, kind_in_inner(value, "output"@, "memory_kind"@));
    let i = or_else(h, kind_in_field(value, "memory_kind"@));
    let j = or_else(i, kind_in_field(value, "node_kind"@));
    let k = or_else(j, kind_in_field(value, "name"@));
    or_else(k, kind_in_field(value, "kind"@))
}

fn kind_inside(value: &JsonValue, outer: &str, key: &str) -> (r: Option<MemoryNodeKind>)
    ensures
        r == kind_in_inner(value@, outer@, key@),
{
    let path = [outer, key];
    proof {
        assert(str_texts(path@) =~= seq![outer@, key@]);
    }
    let words = string_at_path(value, &path);
    parse_memory_kind(&words)
}

fn kind_under(value: &JsonValue, key: &str) -> (r: Option<MemoryNodeKind>)
    ensures
        r == kind_in_field(value@, key@),
{
    let path = [key];
    proof {
        assert(str_texts(path@) =~= seq![key@]);
    }
    let words = string_at_path(value, &path);
    parse_memory_kind(&words)
}

fn or_kind(first: Option<MemoryNodeKind>, second: Option<MemoryNodeKind>) -> (r: Option<
    MemoryNodeKind,
>)
    ensures
        r == or_else(first, second),
{
    if first.is_some() {
        first
    } else {
        second
    }
}

/// The kind of memory that a record names.
pub fn memory_kind_from_value(value: &JsonValue) -> (r: Option<MemoryNodeKind>)
    ensures
        r == kind_of_record(value@),
{
    let a = kind_inside(value, "attributes", "beater.memory.kind");
    let b = or_kind(a, kind_inside(value, "attributes", "memory.kind"));
    let c = or_kind(b, kind_inside(value, "input", "kind"));
    let d = or_kind(c, kind_inside(value, "input", "memory_kind"));
    let e = or_kind(d, kind_inside(value, "payload", "kind"));
    let f = or_kind(e, kind_inside(value, "payload", "memory_kind"));
    let g = or_kind(f, kind_inside(value, "output", "kind"));
    let h = or_kind(g, kind_inside(value, "output", "memory_kind"));
    let i = or_kind(h, kind_under(value, "memory_kind"));
    let j = or_kind(i, kind_under(value, "node_kind"));
    let k = or_kind(j, kind_under(value, "name"));
    or_kind(k, kind_under(value, "kind"))
}

/// The fields that hold the text of a memory.
pub open spec fn memory_fields() -> Seq<Seq<char>> {
    seq!["memory"@, "text"@, "content"@, "value"@]
}

/// The text of a memory that a record writes.
pub open spec fn written_words(value: JsonModel) -> Option<Seq<char>> {
    let a = first_words(value, memory_fields());
    let b = or_else(a, first_words(value.at("input"@), memory_fields()));
    let c = or_else(b, value.at("input"@).as_words());
    let d = or_else(c, first_words(value.at("payload"@), memory_fields()));
    let e = or_else(d, first_words(value.at("output"@), memory_fields()));
    or_else(e, value.at("output"@).as_words())
}

fn memory_words(value: &JsonValue) -> (r: Option<String>)
    ensures
        opt_text(r) == first_words(value@, memory_fields()),
{
    let fields = ["memory", "text", "content", "value"];
    proof {
        assert(str_texts(fields@) =~= memory_fields());
    }
    first_string_field(value, &fields)
}

/// The text of a memory that a record writes.
pub fn memory_write_text_from_value(value: &JsonValue) -> (r: Option<String>)
    ensures
        opt_text(r) == written_words(value@),
{
    let nothing = JsonValue::Null;
    let input = member(value, "input", &nothing);
    let payload = member(value, "payload", &nothing);
    let output = member(value, "output", &nothing);
    let a = memory_words(value);
    let b = or_text(a, memory_words(input));
    let c = or_text(b, input.as_words());
    let d = or_text(c, memory_words(payload));
    let e = or_text(d, memory_words(output));
    or_text(e, output.as_words())
}

/// The question of a memory read.
pub open spec fn read_question(request: JsonModel) -> Option<Seq<char>> {
    or_else(
        or_else(
            request.as_words(),
            first_words(request, seq!["question"@, "query"@, "input"@, "text"@]),
        ),
        first_words(request.at("input"@), seq!["question"@, "query"@, "text"@]),
    )
}

/// The answer of a memory read.
pub open spec fn read_answer(result: JsonModel) -> Option<Seq<char>> {
    or_else(
        or_else(
            result.as_words(),
            first_words(result, seq!["answer"@, "summary"@, "output"@, "text"@]),
        ),
        first_words(result.at("output"@), seq!["answer"@, "summary"@, "text"@]),
    )
}

/// A memory read in words.
pub open spec fn read_words(request: JsonModel, result: JsonModel) -> Option<Seq<char>> {
    match (read_question(request), read_answer(result)) {
        (Some(question), Some(answer)) => Some(
            "memory read question: "@ + question + " answer: "@ + answer,
        ),
        (Some(question), None) => Some("memory read question: "@ + question),
        (None, Some(answer)) => Some("memory read answer: "@ + answer),
        (None, None) => None,
    }
}

/// A memory read in words.
pub fn memory_read_text(request: &JsonValue, result: &JsonValue) -> (r: Option<String>)
    ensures
        opt_text(r) == read_words(request@, result@),
{
    let nothing = JsonValue::Null;
    let asked = ["question", "query", "input", "text"];
    let asked_inside = ["question", "query", "text"];
    let told = ["answer", "summary", "output", "text"];
    let told_inside = ["answer", "summary", "text"];
    proof {
        assert(str_texts(asked@) =~= seq!["question"@, "query"@, "input"@, "text"@]);
        assert(str_texts(asked_inside@) =~= seq!["question"@, "query"@, "text"@]);
        assert(str_texts(told@) =~= seq!["answer"@, "summary"@, "output"@, "text"@]);
        assert(str_texts(told_inside@) =~= seq!["answer"@, "summary"@, "text"@]);
    }
    let question = or_text(
        or_text(request.as_words(), first_string_field(request, &asked)),
        first_string_field(member(request, "input", &nothing), &asked_inside),
    );
    let answer = or_text(
        or_text(result.as_words(), first_string_field(result, &told)),
        first_string_field(member(result, "output", &nothing), &told_inside),
    );
    match (question, answer) {
        (Some(question), Some(answer)) => {
            let mut words = "memory read question: ".to_owned();
            words.append(question.as_str());
            words.append(" answer: ");
            words.append(answer.as_str());
            Some(words)
        },
        (Some(question), None) => Some(
            "memory read question: ".to_owned().concat(question.as_str()),
        ),
        (None, Some(answer)) => Some("memory read answer: ".to_owned().concat(answer.as_str())),
        (None, None) => None,
    }
}

// ---------------------------------------------------------------------------
// Journal steps
// ---------------------------------------------------------------------------
/// Importer for the SQLite journal created by `beater.js`.
#[derive(Clone, Debug)]
pub struct BeaterJsJournal {
    pub path: String,
}

impl BeaterJsJournal {
    #[must_use]
    pub fn new(path: &str) -> (r: Self)
        ensures
            r.path@ == path@,
    {
        BeaterJsJournal { path: path.to_owned() }
    }
}

#[derive(Clone, Copy, Debug, Default, PartialEq, Eq, Structural)]
pub struct BeaterJsImportReport {
    pub rows_seen: usize,
    pub rows_skipped: usize,
    pub events_inserted: usize,
    pub events_duplicate: usize,
}

#[derive(Clone, Copy, Debug, Default, PartialEq, Eq, Structural)]
pub struct CanonicalJsonlImportReport {
    pub rows_seen: usize,
    pub events_inserted: usize,
    pub events_duplicate: usize,
}

/// One step of a journalled run, as the journal's tables hold it.
#[derive(Clone, Debug, PartialEq, Eq)]
pub struct BeaterJsStep {
    pub run_id: String,
    pub agent: String,
    pub run_status: String,
    pub run_input: String,
    pub run_created_at: i64,
    pub seq: u64,
    pub kind: String,
    pub status: String,
    pub request_json: String,
    pub result_json: Option<String>,
    pub tool_name: Option<String>,
    pub tool_use_id: Option<String>,
    pub attempt: i64,
    pub started_at: i64,
    pub finished_at: Option<i64>,
}

/// A status that a run ends in.
pub open spec fn terminal_status(status: Seq<char>) -> bool {
    let word = lower(trim(status));
    ||| word == "completed"@
    ||| word == "complete"@
    ||| word == "succeeded"@
    ||| word == "success"@
    ||| word == "failed"@
    ||| word == "error"@
    ||| word == "errored"@
    ||| word == "cancelled"@
    ||| word == "canceled"@
}

/// A status that a run ends well in.
pub open spec fn success_status(status: Seq<char>) -> bool {
    let word = lower(trim(status));
    ||| word == "completed"@
    ||| word == "complete"@
    ||| word == "succeeded"@
    ||| word == "success"@
}

pub fn is_terminal_beater_js_status(status: &str) -> (r: bool)
    ensures
        r == terminal_status(status@),
{
    let core = trimmed(status);
    let word_text = lower_text(core.as_str());
    let word = word_text.as_str();
    same_text(word, "completed") || same_text(word, "complete") || same_text(word, "succeeded")
        || same_text(word, "success") || same_text(word, "failed") || same_text(word, "error")
        || same_text(word, "errored") || same_text(word, "cancelled") || same_text(
        word,
        "canceled",
    )
}

pub fn is_success_beater_js_status(status: &str) -> (r: bool)
    ensures
        r == success_status(status@),
{
    let core = trimmed(status);
    let word_text = lower_text(core.as_str());
    let word = word_text.as_str();
    same_text(word, "completed") || same_text(word, "complete") || same_text(word, "succeeded")
        || same_text(word, "success")
}

/// A run that ended well has ended.
pub proof fn success_is_terminal(status: Seq<char>)
    requires
        success_status(status),
    ensures
        terminal_status(status),
{
}

/// The span kind of a step: reads and writes of memory are told from other tool calls.
pub open spec fn step_span_kind(kind: Seq<char>, tool: Option<Seq<char>>) -> Seq<char> {
    if kind == "llm_call"@ {
        "llm.call"@
    } else if kind == "tool_call"@ {
        if tool == Some("memory.read"@) || tool == Some("memory_read"@) {
            "memory.read"@
        } else if tool == Some("memory.write"@) || tool == Some("memory_write"@) {
            "memory.write"@
        } else {
            "tool.call"@
        }
    } else {
        kind
    }
}

pub fn beater_js_span_kind(kind: &str, tool_name: &Option<String>) -> (r: String)
    ensures
        r@ == step_span_kind(kind@, opt_text(*tool_name)),
{
    if same_text(kind, "llm_call") {
        "llm.call".to_owned()
    } else if same_text(kind, "tool_call") {
        match tool_name {
            Some(tool) => if same_text(tool.as_str(), "memory.read") || same_text(
                tool.as_str(),
                "memory_read",
            ) {
                "memory.read".to_owned()
            } else if same_text(tool.as_str(), "memory.write") || same_text(
                tool.as_str(),
                "memory_write",
            ) {
                "memory.write".to_owned()
            } else {
                "tool.call".to_owned()
            },
            None => "tool.call".to_owned(),
        }
    } else {
        kind.to_owned()
    }
}

/// A step that is not imported: one that has not ended, or a write of memory that failed.
pub open spec fn step_skipped(step: BeaterJsStep) -> bool {
    !terminal_status(step.status@) || (step_span_kind(step.kind@, opt_text(step.tool_name))
        == "memory.write"@ && !success_status(step.status@))
}

pub fn should_skip_beater_js_step(step: &BeaterJsStep) -> (r: bool)
    ensures
        r == step_skipped(*step),
{
    if !is_terminal_beater_js_status(step.status.as_str()) {
        return true;
    }
    let span_kind = beater_js_span_kind(step.kind.as_str(), &step.tool_name);
    same_text(span_kind.as_str(), "memory.write") && !is_success_beater_js_status(
        step.status.as_str(),
    )
}

/// The name of a step's event: the kind of a memory that is written, the episode of one that
/// is read, and otherwise the tool or the agent with the kind of step.
pub open spec fn step_name(
    step: BeaterJsStep,
    span_kind: Seq<char>,
    request: JsonModel,
    result: JsonModel,
) -> Seq<char> {
    if span_kind == "memory.write"@ {
        match or_else(kind_of_record(request), kind_of_record(result)) {
            Some(kind) => kind.name(),
            None => MemoryNodeKind::Fact.name(),
        }
    } else if span_kind == "memory.read"@ {
        MemoryNodeKind::Episode.name()
    } else {
        match step.tool_name {
            Some(tool) => tool@,
            None => step.agent@ + ":"@ + step.kind@,
        }
    }
}

/// The name of a step's event.
pub fn beater_js_event_name(
    step: &BeaterJsStep,
    span_kind: &str,
    request: &JsonValue,
    result: &JsonValue,
) -> (r: String)
    ensures
        r@ == step_name(*step, span_kind@, request@, result@),
{
    if same_text(span_kind, "memory.write") {
        let kind = or_kind(memory_kind_from_value(request), memory_kind_from_value(result));
        return match kind {
            Some(kind) => kind.as_str().to_owned(),
            None => MemoryNodeKind::Fact.as_str().to_owned(),
        };
    }
    if same_text(span_kind, "memory.read") {
        return MemoryNodeKind::Episode.as_str().to_owned();
    }
    match &step.tool_name {
        Some(tool) => tool.clone(),
        None => {
            let mut name = step.agent.clone();
            name.append(":");
            name.append(step.kind.as_str());
            name
        },
    }
}

/// The text of a step's event: the memory that is written or read, or else everything that the
/// step says.
pub open spec fn step_text(
    span_kind: Seq<char>,
    run_input: Seq<char>,
    request: JsonModel,
    result: JsonModel,
) -> Seq<char> {
    let written = or_else(written_words(request), written_words(result));
    let read = read_words(request, result);
    if span_kind == "memory.write"@ && written is Some {
        concise_form(written->0, 2_400)
    } else if span_kind == "memory.read"@ && read is Some {
        concise_form(read->0, 2_400)
    } else {
        concise_form(
            "run input: "@ + run_input + " request: "@ + json_words(request) + " result: "@
                + json_words(result),
            2_400,
        )
    }
}

/// The text of a step's event.
pub fn beater_js_event_text(
    span_kind: &str,
    run_input: &str,
    request: &JsonValue,
    result: &JsonValue,
) -> (r: String)
    ensures
        r@ == step_text(span_kind@, run_input@, request@, result@),
{
    if same_text(span_kind, "memory.write") {
        let written = or_text(
            memory_write_text_from_value(request),
            memory_write_text_from_value(result),
        );
        if let Some(memory) = written {
            return concise(memory.as_str(), 2_400);
        }
    }
    if same_text(span_kind, "memory.read") {
        if let Some(read) = memory_read_text(request, result) {
            return concise(read.as_str(), 2_400);
        }
    }
    let mut all = "run input: ".to_owned();
    all.append(run_input);
    all.append(" request: ");
    let asked = json_text(request);
    all.append(asked.as_str());
    all.append(" result: ");
    let told = json_text(result);
    all.append(told.as_str());
    concise(all.as_str(), 2_400)
}

/// A number as a JSON value.
pub open spec fn json_number(n: i64) -> JsonModel {
    JsonModel::Number(
        decimal_int(n as int),
        Some(n),
        if n >= 0 {
            Some(n as u64)
        } else {
            None
        },
    )
}

fn number_value(n: i64) -> (r: JsonValue)
    ensures
        r@ == json_number(n),
{
    let value = JsonValue::Number(
        JsonNumber {
            text: decimal_int_text(n),
            signed: Some(n),
            unsigned: if n >= 0 {
                Some(n as u64)
            } else {
                None
            },
        },
    );
    proof {
        assert(value@ == json_number(n));
    }
    value
}

pub open spec fn json_opt_text(value: Option<Seq<char>>) -> JsonModel {
    match value {
        Some(text) => JsonModel::Text(text),
        None => JsonModel::Null,
    }
}

fn opt_text_value(value: &Option<String>) -> (r: JsonValue)
    ensures
        r@ == json_opt_text(opt_text(*value)),
{
    match value {
        Some(text) => {
            let out = JsonValue::Text(text.clone());
            proof {
                assert(out@ == JsonModel::Text(text@));
            }
            out
        },
        None => {
            let out = JsonValue::Null;
            proof {
                assert(out@ == JsonModel::Null);
            }
            out
        },
    }
}

/// Everything a step says, as the payload of its event.
#[verifier::opaque]
pub open spec fn step_payload(step: BeaterJsStep, request: JsonModel, result: JsonModel) -> JsonModel {
    JsonModel::Object(seq![("agent"@, JsonModel::Text(step.agent@))]).with_member(
        "run_status"@,
        JsonModel::Text(step.run_status@),
    ).with_member("run_created_at"@, json_number(step.run_created_at)).with_member(
        "request"@,
        request,
    ).with_member("result"@, result).with_member(
        "tool_name"@,
        json_opt_text(opt_text(step.tool_name)),
    ).with_member("tool_use_id"@, json_opt_text(opt_text(step.tool_use_id))).with_member(
        "attempt"@,
        json_number(step.attempt),
    ).with_member(
        "finished_at"@,
        match step.finished_at {
            Some(at) => json_number(at),
            None => JsonModel::Null,
        },
    )
}

fn payload_of_step(step: &BeaterJsStep, request: JsonValue, result: JsonValue) -> (r: JsonValue)
    ensures
        r@ == step_payload(*step, request@, result@),
{
    proof {
        reveal(step_payload);
    }
    let agent = JsonValue::Text(step.agent.clone());
    let run_status = JsonValue::Text(step.run_status.clone());
    proof {
        assert(agent@ == JsonModel::Text(step.agent@));
        assert(run_status@ == JsonModel::Text(step.run_status@));
    }
    let finished_at = match step.finished_at {
        Some(at) => number_value(at),
        None => {
            let out = JsonValue::Null;
            proof {
                assert(out@ == JsonModel::Null);
            }
            out
        },
    };
    let mut payload = JsonValue::object_of("agent", agent);
    payload.set("run_status", run_status);
    payload.set("run_created_at", number_value(step.run_created_at));
    payload.set("request", request);
    payload.set("result", result);
    payload.set("tool_name", opt_text_value(&step.tool_name));
    payload.set("tool_use_id", opt_text_value(&step.tool_use_id));
    payload.set("attempt", number_value(step.attempt));
    payload.set("finished_at", finished_at);
    payload
}

/// Seconds as milliseconds, up to the bounds of `i64`.
pub open spec fn seconds_to_ms(seconds: i64) -> i64 {
    if seconds * 1_000 > i64::MAX {
        i64::MAX
    } else if seconds * 1_000 < i64::MIN {
        i64::MIN
    } else {
        (seconds * 1_000) as i64
    }
}

fn ms_of_seconds(seconds: i64) -> (r: i64)
    ensures
        r == seconds_to_ms(seconds),
{
    if seconds > 9_223_372_036_854_775 {
        i64::MAX
    } else if seconds < -9_223_372_036_854_775 {
        i64::MIN
    } else {
        seconds * 1_000
    }
}

/// The event of a step, given what its request and result say.
pub open spec fn step_event(
    step: BeaterJsStep,
    request: JsonModel,
    result: JsonModel,
    tenant_id: Seq<char>,
    project_id: Seq<char>,
    environment_id: Option<Seq<char>>,
    now: i64,
) -> EventModel {
    let span_kind = step_span_kind(step.kind@, opt_text(step.tool_name));
    EventModel {
        id: None,
        source: "beater.js.journal"@,
        tenant_id,
        project_id,
        environment_id,
        trace_id: step.run_id@,
        span_id: match step.tool_use_id {
            Some(id) => id@,
            None => "step-"@ + decimal(step.seq as nat),
        },
        seq: step.seq,
        span_kind,
        name: step_name(step, span_kind, request, result),
        status: step.status@,
        text: step_text(span_kind, step.run_input@, request, result),
        payload: step_payload(step, request, result),
        observed_at_unix_ms: seconds_to_ms(step.started_at),
        ingested_at_unix_ms: now,
        projected_at_unix_ms: None,
    }
}

fn owned(value: Option<&str>) -> (r: Option<String>)
    ensures
        opt_text(r) == opt_str(value),
{
    match value {
        Some(text) => Some(text.to_owned()),
        None => None,
    }
}

/// The words in which a step's JSON is refused.
pub open spec fn step_json_problem(field: Seq<char>, step: BeaterJsStep, words: Seq<char>) -> Seq<
    char,
> {
    "invalid beater.js journal "@ + field + " JSON for run_id="@ + step.run_id@ + " seq="@ + decimal(
        step.seq as nat,
    ) + ": "@ + words
}

/// What a step's request and result say, or why they cannot be read. A step without a result
/// has a null one.
pub open spec fn step_values(step: BeaterJsStep) -> Result<(JsonModel, JsonModel), Seq<char>> {
    match parsed_json(step.request_json@) {
        Err(words) => Err(step_json_problem("request"@, step, words)),
        Ok(request) => match step.result_json {
            None => Ok((request, JsonModel::Null)),
            Some(text) => match parsed_json(text@) {
                Err(words) => Err(step_json_problem("result"@, step, words)),
                Ok(result) => Ok((request, result)),
            },
        },
    }
}

impl BeaterJsStep {
    /// The event of a step, given what its request and result say.
    pub fn event_with(
        &self,
        request: JsonValue,
        result: JsonValue,
        tenant_id: &str,
        project_id: &str,
        environment_id: Option<&str>,
        now: i64,
    ) -> (r: LedgerEvent)
        ensures
            r@ == step_event(
                *self,
                request@,
                result@,
                tenant_id@,
                project_id@,
                opt_str(environment_id),
                now,
            ),
    {
        let span_kind = beater_js_span_kind(self.kind.as_str(), &self.tool_name);
        let name = beater_js_event_name(self, span_kind.as_str(), &request, &result);
        let text = beater_js_event_text(
            span_kind.as_str(),
            self.run_input.as_str(),
            &request,
            &result,
        );
        let span_id = match &self.tool_use_id {
            Some(id) => id.clone(),
            None => {
                let number = decimal_text(self.seq);
                "step-".to_owned().concat(number.as_str())
            },
        };
        LedgerEvent {
            id: None,
            source: "beater.js.journal".to_owned(),
            tenant_id: tenant_id.to_owned(),
            project_id: project_id.to_owned(),
            environment_id: owned(environment_id),
            trace_id: self.run_id.clone(),
            span_id,
            seq: self.seq,
            span_kind,
            name,
            status: self.status.clone(),
            text,
            payload: payload_of_step(self, request, result),
            observed_at_unix_ms: ms_of_seconds(self.started_at),
            ingested_at_unix_ms: now,
            projected_at_unix_ms: None,
        }
    }

    fn invalid_json_error(&self, field: &str, words: &str) -> (r: MemoryError)
        ensures
            r@ == ErrorModel::InvalidInput(step_json_problem(field@, *self, words@)),
    {
        let mut message = "invalid beater.js journal ".to_owned();
        message.append(field);
        message.append(" JSON for run_id=");
        message.append(self.run_id.as_str());
        message.append(" seq=");
        let number = decimal_text(self.seq);
        message.append(number.as_str());
        message.append(": ");
        message.append(words);
        MemoryError::InvalidInput(message)
    }

    /// The event of a step.
    pub fn into_event(
        &self,
        tenant_id: &str,
        project_id: &str,
        environment_id: Option<&str>,
        now: i64,
    ) -> (r: MemoryResult<LedgerEvent>)
        ensures
            match (r, step_values(*self)) {
                (Ok(event), Ok((request, result))) => event@ == step_event(
                    *self,
                    request,
                    result,
                    tenant_id@,
                    project_id@,
                    opt_str(environment_id),
                    now,
                ),
                (Err(error), Err(problem)) => error@ == ErrorModel::InvalidInput(problem),
                _ => false,
            },
    {
        let request = match parse_json(self.request_json.as_str()) {
            Ok(request) => request,
            Err(words) => {
                return Err(self.invalid_json_error("request", words.as_str()));
            },
        };
        let result = match &self.result_json {
            Some(text) => match parse_json(text.as_str()) {
                Ok(result) => result,
                Err(words) => {
                    return Err(self.invalid_json_error("result", words.as_str()));
                },
            },
            None => {
                let nothing = JsonValue::Null;
                proof {
                    assert(nothing@ == JsonModel::Null);
                }
                nothing
            },
        };
        Ok(self.event_with(request, result, tenant_id, project_id, environment_id, now))
    }
}

/// An import under way: the tables and the counts so far.
pub struct StepsModel {
    pub store: StoreModel,
    pub report: BeaterJsImportReport,
}

/// A count that stops at the greatest `usize`.
pub open spec fn next_count(count: usize) -> usize {
    if count == usize::MAX {
        count
    } else {
        (count + 1) as usize
    }
}

fn count_on(count: usize) -> (r: usize)
    ensures
        r == next_count(count),
{
    if count == usize::MAX {
        count
    } else {
        count + 1
    }
}

/// The words in which the event of a step is refused.
pub open spec fn step_event_problem(event: EventModel, problem: Seq<char>) -> Seq<char> {
    "invalid beater.js journal row run_id="@ + event.trace_id + " seq="@ + decimal(event.seq as nat)
        + ": "@ + ErrorModel::InvalidInput(problem).line()
}

/// The import after one more step.
pub open spec fn step_imported(
    before: StepsModel,
    step: BeaterJsStep,
    tenant_id: Seq<char>,
    project_id: Seq<char>,
    environment_id: Option<Seq<char>>,
    now: i64,
) -> Result<StepsModel, ErrorModel> {
    let seen = BeaterJsImportReport {
        rows_seen: next_count(before.report.rows_seen),
        ..before.report
    };
    if step_skipped(step) {
        Ok(
            StepsModel {
                report: BeaterJsImportReport { rows_skipped: next_count(seen.rows_skipped), ..seen },
                ..before
            },
        )
    } else {
        match step_values(step) {
            Err(problem) => Err(ErrorModel::InvalidInput(problem)),
            Ok((request, result)) => {
                let event = step_event(
                    step,
                    request,
                    result,
                    tenant_id,
                    project_id,
                    environment_id,
                    now,
                );
                match event.problem() {
                    Some(problem) => Err(
                        ErrorModel::InvalidInput(step_event_problem(event, problem)),
                    ),
                    None => match before.store.appended(event) {
                        Err(error) => Err(error),
                        Ok((store, added)) => Ok(
                            StepsModel {
                                store,
                                report: if added {
                                    BeaterJsImportReport {
                                        events_inserted: next_count(seen.events_inserted),
                                        ..seen
                                    }
                                } else {
                                    BeaterJsImportReport {
                                        events_duplicate: next_count(seen.events_duplicate),
                                        ..seen
                                    }
                                },
                            },
                        ),
                    },
                }
            },
        }
    }
}

/// The import after some steps, up to the first that is refused.
pub open spec fn steps_imported(
    store: StoreModel,
    steps: Seq<BeaterJsStep>,
    tenant_id: Seq<char>,
    project_id: Seq<char>,
    environment_id: Option<Seq<char>>,
    now: i64,
) -> Result<StepsModel, ErrorModel>
    decreases steps.len(),
{
    if steps.len() == 0 {
        Ok(
            StepsModel {
                store,
                report: BeaterJsImportReport {
                    rows_seen: 0,
                    rows_skipped: 0,
                    events_inserted: 0,
                    events_duplicate: 0,
                },
            },
        )
    } else {
        match steps_imported(store, steps.drop_last(), tenant_id, project_id, environment_id, now) {
            Err(error) => Err(error),
            Ok(front) => step_imported(
                front,
                steps.last(),
                tenant_id,
                project_id,
                environment_id,
                now,
            ),
        }
    }
}

proof fn lemma_steps_prefix(
    store: StoreModel,
    steps: Seq<BeaterJsStep>,
    tenant_id: Seq<char>,
    project_id: Seq<char>,
    environment_id: Option<Seq<char>>,
    now: i64,
    k: int,
)
    requires
        0 <= k <= steps.len(),
        steps_imported(store, steps.take(k), tenant_id, project_id, environment_id, now) is Err,
    ensures
        steps_imported(store, steps, tenant_id, project_id, environment_id, now) == steps_imported(
            store,
            steps.take(k),
            tenant_id,
            project_id,
            environment_id,
            now,
        ),
    decreases steps.len(),
{
    if k < steps.len() {
        assert(steps.drop_last().take(k) =~= steps.take(k));
        lemma_steps_prefix(
            store,
            steps.drop_last(),
            tenant_id,
            project_id,
            environment_id,
            now,
            k,
        );
    } else {
        assert(steps.take(k) =~= steps);
    }
}

fn import_step(
    store: &mut MemoryStore,
    report: BeaterJsImportReport,
    step: &BeaterJsStep,
    tenant_id: &str,
    project_id: &str,
    environment_id: Option<&str>,
    now: i64,
) -> (r: MemoryResult<BeaterJsImportReport>)
    ensures
        match (
            r,
            step_imported(
                StepsModel { store: old(store)@, report },
                *step,
                tenant_id@,
                project_id@,
                opt_str(environment_id),
                now,
            ),
        ) {
            (Ok(counted), Ok(after)) => final(store)@ == after.store && counted == after.report,
            (Err(error), Err(words)) => error@ == words,
            _ => false,
        },
{
    let mut counted = report;
    counted.rows_seen = count_on(counted.rows_seen);
    if should_skip_beater_js_step(step) {
        counted.rows_skipped = count_on(counted.rows_skipped);
        return Ok(counted);
    }
    let event = step.into_event(tenant_id, project_id, environment_id, now)?;
    if let Err(error) = event.validate() {
        let mut message = "invalid beater.js journal row run_id=".to_owned();
        message.append(event.trace_id.as_str());
        message.append(" seq=");
        let number = decimal_text(event.seq);
        message.append(number.as_str());
        message.append(": ");
        let line = error.message();
        message.append(line.as_str());
        return Err(MemoryError::InvalidInput(message));
    }
    let added = store.append_event(&event)?;
    if added {
        counted.events_inserted = count_on(counted.events_inserted);
    } else {
        counted.events_duplicate = count_on(counted.events_duplicate);
    }
    Ok(counted)
}

/// Imports the steps of a journal. A step that is refused leaves the tables as they were.
pub fn import_steps(
    store: &mut MemoryStore,
    steps: &Vec<BeaterJsStep>,
    tenant_id: &str,
    project_id: &str,
    environment_id: Option<&str>,
    now: i64,
) -> (r: MemoryResult<BeaterJsImportReport>)
    ensures
        match (
            r,
            steps_imported(
                old(store)@,
                steps@,
                tenant_id@,
                project_id@,
                opt_str(environment_id),
                now,
            ),
        ) {
            (Ok(report), Ok(after)) => final(store)@ == after.store && report == after.report,
            (Err(error), Err(words)) => error@ == words && final(store)@ == old(store)@,
            _ => false,
        },
{
    let ghost start = store@;
    let ghost environment = opt_str(environment_id);
    let mut work = store.snapshot();
    let mut report = BeaterJsImportReport {
        rows_seen: 0,
        rows_skipped: 0,
        events_inserted: 0,
        events_duplicate: 0,
    };
    let mut i: usize = 0;
    proof {
        assert(steps@.take(0) =~= Seq::empty());
    }
    while i < steps.len()
        invariant
            i <= steps@.len(),
            start == old(store)@,
            store@ == start,
            environment == opt_str(environment_id),
            steps_imported(
                start,
                steps@.take(i as int),
                tenant_id@,
                project_id@,
                environment,
                now,
            ) == Ok::<StepsModel, ErrorModel>(StepsModel { store: work@, report }),
        decreases steps.len() - i,
    {
        proof {
            assert(steps@.take(i as int + 1).drop_last() =~= steps@.take(i as int));
            assert(steps@.take(i as int + 1).last() == steps@[i as int]);
        }
        match import_step(
            &mut work,
            report,
            &steps[i],
            tenant_id,
            project_id,
            environment_id,
            now,
        ) {
            Ok(counted) => {
                report = counted;
            },
            Err(error) => {
                proof {
                    lemma_steps_prefix(
                        start,
                        steps@,
                        tenant_id@,
                        project_id@,
                        environment,
                        now,
                        i as int + 1,
                    );
                }
                return Err(error);
            },
        }
        i += 1;
    }
    proof {
        assert(steps@.take(i as int) =~= steps@);
    }
    *store = work;
    Ok(report)
}

impl BeaterJsJournal {
    /// Imports the steps that the journal holds.
    pub fn import_into(
        &self,
        store: &mut MemoryStore,
        steps: &Vec<BeaterJsStep>,
        tenant_id: &str,
        project_id: &str,
        environment_id: Option<&str>,
        now: i64,
    ) -> (r: MemoryResult<BeaterJsImportReport>)
        ensures
            match (
                r,
                steps_imported(
                    old(store)@,
                    steps@,
                    tenant_id@,
                    project_id@,
                    opt_str(environment_id),
                    now,
                ),
            ) {
                (Ok(report), Ok(after)) => final(store)@ == after.store && report == after.report,
                (Err(error), Err(words)) => error@ == words && final(store)@ == old(store)@,
                _ => false,
            },
    {
        import_steps(store, steps, tenant_id, project_id, environment_id, now)
    }
}

// ---------------------------------------------------------------------------
// Times
// ---------------------------------------------------------------------------
/// A whole number of seconds or milliseconds since the epoch as milliseconds: a number from
/// a billion up to a trillion counts seconds. The number is first rounded to 53 binary digits.
pub open spec fn whole_time(number: i64) -> i64 {
    let rounded = if number < 0 {
        -(nearest(DIGITS_53 as nat, (-number) as nat, 1) as int)
    } else {
        nearest(DIGITS_53 as nat, number as nat, 1) as int
    };
    if rounded > i64::MAX {
        i64::MAX
    } else if rounded < i64::MIN {
        i64::MIN
    } else if 1_000_000_000 <= rounded < 1_000_000_000_000 {
        (rounded * 1_000) as i64
    } else {
        rounded as i64
    }
}

/// A whole number of seconds or milliseconds since the epoch as milliseconds.
pub fn whole_unix_number_to_ms(number: i64) -> (r: i64)
    ensures
        r == whole_time(number),
{
    if number < 0 {
        let size: u128 = if number == i64::MIN {
            0x8000_0000_0000_0000
        } else {
            (-number) as u128
        };
        let rounded: u128 = nearest_whole(DIGITS_53, size);
        if rounded > 0x8000_0000_0000_0000 {
            i64::MIN
        } else if rounded == 0x8000_0000_0000_0000 {
            i64::MIN
        } else {
            -(rounded as i64)
        }
    } else {
        let rounded: u128 = nearest_whole(DIGITS_53, number as u128);
        if rounded > 0x7fff_ffff_ffff_ffff {
            i64::MAX
        } else if 1_000_000_000 <= rounded && rounded < 1_000_000_000_000 {
            (rounded * 1_000) as i64
        } else {
            rounded as i64
        }
    }
}

/// The milliseconds since the epoch of a time that is written as RFC 3339 has it, where the
/// text is one.
pub uninterp spec fn rfc3339_millis(text: Seq<char>) -> Option<i64>;

/// Calls `chrono::DateTime::parse_from_rfc3339` and takes the milliseconds of the time that it
/// reads. The contract claims that the result depends on nothing but the text.
#[verifier::external_body]
fn parse_rfc3339(text: &str) -> (r: Option<i64>)
    ensures
        r == rfc3339_millis(text@),
{
    chrono::DateTime::parse_from_rfc3339(text).map(|time| time.timestamp_millis()).ok()
}

/// What the fields of a record that may hold a time say when they are read as numbers with a
/// fraction, in milliseconds: nothing for a field that is no such number, or is below zero.
#[derive(Clone, Copy, Debug, Default, PartialEq, Eq, Structural)]
pub struct TimeReadings {
    pub start_time: Option<i64>,
    pub start_time_camel: Option<i64>,
    pub timestamp: Option<i64>,
}

/// The time that a field holds: a whole number, a number with a fraction, or a text that
/// writes a date or a number.
pub open spec fn time_of_value(
    value: JsonModel,
    dated: Option<i64>,
    reading: Option<i64>,
) -> Option<i64> {
    if let Some(number) = value.as_int() {
        Some(whole_time(number))
    } else if value is Number {
        reading
    } else if value.as_words() is Some {
        or_else(dated, reading)
    } else {
        None
    }
}

/// The time that a field holds, given the date that its text writes and what it says as a
/// number with a fraction.
pub fn timestamp_value_to_unix_ms(
    value: &JsonValue,
    dated: Option<i64>,
    reading: Option<i64>,
) -> (r: Option<i64>)
    ensures
        r == time_of_value(value@, dated, reading),
{
    if let Some(number) = value.as_int() {
        return Some(whole_unix_number_to_ms(number));
    }
    match value {
        JsonValue::Number(_) => reading,
        _ => if value.as_words().is_some() {
            if dated.is_some() {
                dated
            } else {
                reading
            }
        } else {
            None
        },
    }
}

/// The date that a field's text writes.
pub open spec fn date_of_value(value: JsonModel) -> Option<i64> {
    match value.as_words() {
        Some(words) => rfc3339_millis(words),
        None => None,
    }
}

fn field_time(value: &JsonValue, key: &str, reading: Option<i64>) -> (r: Option<i64>)
    ensures
        r == time_of_value(value@.at(key@), date_of_value(value@.at(key@)), reading),
{
    let nothing = JsonValue::Null;
    let field = member(value, key, &nothing);
    let dated = match field.as_words() {
        Some(words) => parse_rfc3339(words.as_str()),
        None => None,
    };
    timestamp_value_to_unix_ms(field, dated, reading)
}

/// When a record was observed.
pub open spec fn observed_time(value: JsonModel, readings: TimeReadings, now: i64) -> i64 {
    let a = value.at("start_time_unix_ms"@).as_int();
    let b = or_else(a, value.at("start_time_ms"@).as_int());
    let c = or_else(b, value.at("timestamp_unix_ms"@).as_int());
    let start = value.at("start_time"@);
    let d = or_else(c, time_of_value(start, date_of_value(start), readings.start_time));
    let camel = value.at("startTime"@);
    let e = or_else(d, time_of_value(camel, date_of_value(camel), readings.start_time_camel));
    let stamp = value.at("timestamp"@);
    let f = or_else(e, time_of_value(stamp, date_of_value(stamp), readings.timestamp));
    match f {
        Some(at) => at,
        None => now,
    }
}

/// When a record was observed: the first of its time fields that holds one, or else now.
pub fn canonical_observed_at_unix_ms(value: &JsonValue, readings: &TimeReadings, now: i64) -> (r:
    i64)
    ensures
        r == observed_time(value@, *readings, now),
{
    let nothing = JsonValue::Null;
    if let Some(at) = member(value, "start_time_unix_ms", &nothing).as_int() {
        return at;
    }
    if let Some(at) = member(value, "start_time_ms", &nothing).as_int() {
        return at;
    }
    if let Some(at) = member(value, "timestamp_unix_ms", &nothing).as_int() {
        return at;
    }
    if let Some(at) = field_time(value, "start_time", readings.start_time) {
        return at;
    }
    if let Some(at) = field_time(value, "startTime", readings.start_time_camel) {
        return at;
    }
    if let Some(at) = field_time(value, "timestamp", readings.timestamp) {
        return at;
    }
    now
}

// ---------------------------------------------------------------------------
// Canonical records
// ---------------------------------------------------------------------------
/// The span kind of a record.
pub open spec fn record_span_kind(value: JsonModel) -> Seq<char> {
    let attributes = value.at("attributes"@);
    let a = value.at("span_kind"@).as_text();
    let b = or_else(a, attributes.at("openinference.span.kind"@).as_text());
    let c = or_else(b, attributes.at("beater.span.kind"@).as_text());
    match or_else(c, value.at("kind"@).as_text()) {
        Some(kind) => kind,
        None => "agent.step"@,
    }
}

pub fn canonical_span_kind(value: &JsonValue) -> (r: String)
    ensures
        r@ == record_span_kind(value@),
{
    let nothing = JsonValue::Null;
    let attributes = member(value, "attributes", &nothing);
    let a = member(value, "span_kind", &nothing).as_text();
    let b = or_text(a, member(attributes, "openinference.span.kind", &nothing).as_text());
    let c = or_text(b, member(attributes, "beater.span.kind", &nothing).as_text());
    match or_text(c, member(value, "kind", &nothing).as_text()) {
        Some(kind) => kind,
        None => "agent.step".to_owned(),
    }
}

/// The name of a record's event.
pub open spec fn record_name(value: JsonModel, span_kind: Seq<char>) -> Seq<char> {
    if span_kind == "memory.write"@ {
        match kind_of_record(value) {
            Some(kind) => kind.name(),
            None => MemoryNodeKind::Fact.name(),
        }
    } else if span_kind == "memory.read"@ {
        MemoryNodeKind::Episode.name()
    } else {
        match value.at("name"@).as_text() {
            Some(name) => name,
            None => span_kind,
        }
    }
}

pub fn canonical_event_name(value: &JsonValue, span_kind: &str) -> (r: String)
    ensures
        r@ == record_name(value@, span_kind@),
{
    if same_text(span_kind, "memory.write") {
        return match memory_kind_from_value(value) {
            Some(kind) => kind.as_str().to_owned(),
            None => MemoryNodeKind::Fact.as_str().to_owned(),
        };
    }
    if same_text(span_kind, "memory.read") {
        return MemoryNodeKind::Episode.as_str().to_owned();
    }
    let nothing = JsonValue::Null;
    match member(value, "name", &nothing).as_text() {
        Some(name) => name,
        None => span_kind.to_owned(),
    }
}

/// The text of a record's event.
pub open spec fn record_text(value: JsonModel, span_kind: Seq<char>) -> Seq<char> {
    let written = written_words(value);
    let read = read_words(value.at("input"@), value.at("output"@));
    if span_kind == "memory.write"@ && written is Some {
        concise_form(written->0, 2_400)
    } else if span_kind == "memory.read"@ && read is Some {
        concise_form(read->0, 2_400)
    } else {
        concise_form(json_words(value), 2_400)
    }
}

pub fn canonical_event_text(value: &JsonValue, span_kind: &str) -> (r: String)
    ensures
        r@ == record_text(value@, span_kind@),
{
    if same_text(span_kind, "memory.write") {
        if let Some(memory) = memory_write_text_from_value(value) {
            return concise(memory.as_str(), 2_400);
        }
    }
    if same_text(span_kind, "memory.read") {
        let nothing = JsonValue::Null;
        let input = member(value, "input", &nothing);
        let output = member(value, "output", &nothing);
        if let Some(read) = memory_read_text(input, output) {
            return concise(read.as_str(), 2_400);
        }
    }
    let all = json_text(value);
    concise(all.as_str(), 2_400)
}

/// What is given, or else what a record says, or else a default.
pub open spec fn given_or_said(
    given: Option<Seq<char>>,
    value: JsonModel,
    key: Seq<char>,
    default: Seq<char>,
) -> Seq<char> {
    match or_else(given, value.at(key).as_text()) {
        Some(text) => text,
        None => default,
    }
}

fn given_or_field(given: Option<&str>, value: &JsonValue, key: &str, default: &str) -> (r: String)
    ensures
        r@ == given_or_said(opt_str(given), value@, key@, default@),
{
    let nothing = JsonValue::Null;
    match or_text(owned(given), member(value, key, &nothing).as_text()) {
        Some(text) => text,
        None => default.to_owned(),
    }
}

/// The trace of a record: the one it names, or one made of what it says.
pub open spec fn record_trace(value: JsonModel) -> Seq<char> {
    match value.at("trace_id"@).as_text() {
        Some(id) => id,
        None => stable_id_of("trace"@, seq![json_words(value)]),
    }
}

/// The span of a record: the one it names, or one made of its trace and what it says.
pub open spec fn record_span(value: JsonModel) -> Seq<char> {
    match value.at("span_id"@).as_text() {
        Some(id) => id,
        None => stable_id_of("span"@, seq![record_trace(value), json_words(value)]),
    }
}

/// The event of a record.
pub open spec fn record_event(
    value: JsonModel,
    tenant_id: Option<Seq<char>>,
    project_id: Option<Seq<char>>,
    environment_id: Option<Seq<char>>,
    readings: TimeReadings,
    now: i64,
) -> EventModel {
    let span_kind = record_span_kind(value);
    EventModel {
        id: None,
        source: "beater-agents.canonical-jsonl"@,
        tenant_id: given_or_said(tenant_id, value, "tenant_id"@, "local"@),
        project_id: given_or_said(project_id, value, "project_id"@, "default"@),
        environment_id: or_else(environment_id, value.at("environment_id"@).as_text()),
        trace_id: record_trace(value),
        span_id: record_span(value),
        seq: match value.at("seq"@).as_uint() {
            Some(seq) => seq,
            None => 1,
        },
        span_kind,
        name: record_name(value, span_kind),
        status: given_or_said(None, value, "status"@, "ok"@),
        text: record_text(value, span_kind),
        payload: value,
        observed_at_unix_ms: observed_time(value, readings, now),
        ingested_at_unix_ms: now,
        projected_at_unix_ms: None,
    }
}

/// The event of a record. A scope that is given comes before the one that the record names.
pub fn canonical_json_event(
    value: &JsonValue,
    tenant_id: Option<&str>,
    project_id: Option<&str>,
    environment_id: Option<&str>,
    readings: &TimeReadings,
    now: i64,
) -> (r: LedgerEvent)
    ensures
        r@ == record_event(
            value@,
            opt_str(tenant_id),
            opt_str(project_id),
            opt_str(environment_id),
            *readings,
            now,
        ),
        tenant_id matches Some(t) ==> r@.tenant_id == t@,
        project_id matches Some(p) ==> r@.project_id == p@,
        environment_id matches Some(e) ==> r@.environment_id == Some(e@),
{
    let nothing = JsonValue::Null;
    let all = json_text(value);
    let trace_id = match member(value, "trace_id", &nothing).as_text() {
        Some(id) => id,
        None => {
            let parts = [all.as_str()];
            proof {
                assert(str_texts(parts@) =~= seq![json_words(value@)]);
            }
            stable_id("trace", &parts)
        },
    };
    let span_id = match member(value, "span_id", &nothing).as_text() {
        Some(id) => id,
        None => {
            let parts = [trace_id.as_str(), all.as_str()];
            proof {
                assert(str_texts(parts@) =~= seq![record_trace(value@), json_words(value@)]);
            }
            stable_id("span", &parts)
        },
    };
    let seq: u64 = match member(value, "seq", &nothing).as_uint() {
        Some(seq) => seq,
        None => 1,
    };
    let span_kind = canonical_span_kind(value);
    let name = canonical_event_name(value, span_kind.as_str());
    let text = canonical_event_text(value, span_kind.as_str());
    LedgerEvent {
        id: None,
        source: "beater-agents.canonical-jsonl".to_owned(),
        tenant_id: given_or_field(tenant_id, value, "tenant_id", "local"),
        project_id: given_or_field(project_id, value, "project_id", "default"),
        environment_id: or_text(
            owned(environment_id),
            member(value, "environment_id", &nothing).as_text(),
        ),
        trace_id,
        span_id,
        seq,
        span_kind,
        name,
        status: given_or_field(None, value, "status", "ok"),
        text,
        payload: value.clone(),
        observed_at_unix_ms: canonical_observed_at_unix_ms(value, readings, now),
        ingested_at_unix_ms: now,
        projected_at_unix_ms: None,
    }
}

/// One line of a file of records: its text, or why it could not be read, with what its time
/// fields say.
#[derive(Debug)]
pub struct JsonlLine {
    pub content: Result<String, String>,
    pub readings: TimeReadings,
}

/// An import of records under way: the tables and the counts so far.
pub struct LinesModel {
    pub store: StoreModel,
    pub report: CanonicalJsonlImportReport,
}

pub open spec fn unreadable_line(number: nat, words: Seq<char>) -> ErrorModel {
    ErrorModel::InvalidInput("failed reading JSONL line "@ + decimal(number) + ": "@ + words)
}

pub open spec fn invalid_line(number: nat, words: Seq<char>) -> ErrorModel {
    ErrorModel::InvalidInput("invalid canonical JSONL line "@ + decimal(number) + ": "@ + words)
}

/// The scope that an import is given.
pub struct GivenScope {
    pub tenant_id: Option<Seq<char>>,
    pub project_id: Option<Seq<char>>,
    pub environment_id: Option<Seq<char>>,
}

/// The import after the record of one more line.
pub open spec fn record_imported(
    before: LinesModel,
    number: nat,
    value: JsonModel,
    readings: TimeReadings,
    given: GivenScope,
    now: i64,
) -> Result<LinesModel, ErrorModel> {
    let event = record_event(
        value,
        given.tenant_id,
        given.project_id,
        given.environment_id,
        readings,
        now,
    );
    let seen = CanonicalJsonlImportReport {
        rows_seen: next_count(before.report.rows_seen),
        ..before.report
    };
    match event.problem() {
        Some(problem) => Err(invalid_line(number, ErrorModel::InvalidInput(problem).line())),
        None => match before.store.appended(event) {
            Err(error) => Err(error),
            Ok((store, added)) => Ok(
                LinesModel {
                    store,
                    report: if added {
                        CanonicalJsonlImportReport {
                            events_inserted: next_count(seen.events_inserted),
                            ..seen
                        }
                    } else {
                        CanonicalJsonlImportReport {
                            events_duplicate: next_count(seen.events_duplicate),
                            ..seen
                        }
                    },
                },
            ),
        },
    }
}

/// The import after one more line. A blank line is passed over.
pub open spec fn line_imported(
    before: LinesModel,
    number: nat,
    line: JsonlLine,
    given: GivenScope,
    now: i64,
) -> Result<LinesModel, ErrorModel> {
    match line.content {
        Err(words) => Err(unreadable_line(number, words@)),
        Ok(text) => if blank(text@) {
            Ok(before)
        } else {
            match parsed_json(trim(text@)) {
                Err(words) => Err(invalid_line(number, words)),
                Ok(value) => record_imported(before, number, value, line.readings, given, now),
            }
        },
    }
}

/// The import after some lines, up to the first that is refused.
pub open spec fn lines_imported(
    store: StoreModel,
    lines: Seq<JsonlLine>,
    given: GivenScope,
    now: i64,
) -> Result<LinesModel, ErrorModel>
    decreases lines.len(),
{
    if lines.len() == 0 {
        Ok(
            LinesModel {
                store,
                report: CanonicalJsonlImportReport {
                    rows_seen: 0,
                    events_inserted: 0,
                    events_duplicate: 0,
                },
            },
        )
    } else {
        match lines_imported(store, lines.drop_last(), given, now) {
            Err(error) => Err(error),
            Ok(front) => line_imported(front, lines.len(), lines.last(), given, now),
        }
    }
}

proof fn lemma_lines_prefix(
    store: StoreModel,
    lines: Seq<JsonlLine>,
    given: GivenScope,
    now: i64,
    k: int,
)
    requires
        0 <= k <= lines.len(),
        lines_imported(store, lines.take(k), given, now) is Err,
    ensures
        lines_imported(store, lines, given, now) == lines_imported(store, lines.take(k), given, now),
    decreases lines.len(),
{
    if k < lines.len() {
        assert(lines.drop_last().take(k) =~= lines.take(k));
        lemma_lines_prefix(store, lines.drop_last(), given, now, k);
    } else {
        assert(lines.take(k) =~= lines);
    }
}

fn line_error(opening: &str, number: usize, words: &str) -> (r: MemoryError)
    ensures
        r@ == ErrorModel::InvalidInput(opening@ + decimal(number as nat) + ": "@ + words@),
{
    let mut message = opening.to_owned();
    let digits = decimal_text(number as u64);
    message.append(digits.as_str());
    message.append(": ");
    message.append(words);
    MemoryError::InvalidInput(message)
}

/// Imports the record of one line.
pub fn import_record(
    store: &mut MemoryStore,
    report: CanonicalJsonlImportReport,
    number: usize,
    value: &JsonValue,
    readings: &TimeReadings,
    tenant_id: Option<&str>,
    project_id: Option<&str>,
    environment_id: Option<&str>,
    now: i64,
) -> (r: MemoryResult<CanonicalJsonlImportReport>)
    ensures
        match (
            r,
            record_imported(
                LinesModel { store: old(store)@, report },
                number as nat,
                value@,
                *readings,
                GivenScope {
                    tenant_id: opt_str(tenant_id),
                    project_id: opt_str(project_id),
                    environment_id: opt_str(environment_id),
                },
                now,
            ),
        ) {
            (Ok(counted), Ok(after)) => final(store)@ == after.store && counted == after.report,
            (Err(error), Err(words)) => error@ == words && final(store)@ == old(store)@,
            _ => false,
        },
{
    let mut counted = report;
    counted.rows_seen = count_on(counted.rows_seen);
    let event = canonical_json_event(
        value,
        tenant_id,
        project_id,
        environment_id,
        readings,
        now,
    );
    if let Err(error) = event.validate() {
        let line = error.message();
        return Err(line_error("invalid canonical JSONL line ", number, line.as_str()));
    }
    let added = store.append_event(&event)?;
    if added {
        counted.events_inserted = count_on(counted.events_inserted);
    } else {
        counted.events_duplicate = count_on(counted.events_duplicate);
    }
    Ok(counted)
}

fn import_line(
    store: &mut MemoryStore,
    report: CanonicalJsonlImportReport,
    number: usize,
    line: &JsonlLine,
    tenant_id: Option<&str>,
    project_id: Option<&str>,
    environment_id: Option<&str>,
    now: i64,
) -> (r: MemoryResult<CanonicalJsonlImportReport>)
    ensures
        match (
            r,
            line_imported(
                LinesModel { store: old(store)@, report },
                number as nat,
                *line,
                GivenScope {
                    tenant_id: opt_str(tenant_id),
                    project_id: opt_str(project_id),
                    environment_id: opt_str(environment_id),
                },
                now,
            ),
        ) {
            (Ok(counted), Ok(after)) => final(store)@ == after.store && counted == after.report,
            (Err(error), Err(words)) => error@ == words,
            _ => false,
        },
{
    match &line.content {
        Err(words) => Err(line_error("failed reading JSONL line ", number, words.as_str())),
        Ok(text) => {
            if is_blank(text.as_str()) {
                return Ok(report);
            }
            let core = trimmed(text.as_str());
            match parse_json(core.as_str()) {
                Err(words) => Err(
                    line_error("invalid canonical JSONL line ", number, words.as_str()),
                ),
                Ok(value) => import_record(
                    store,
                    report,
                    number,
                    &value,
                    &line.readings,
                    tenant_id,
                    project_id,
                    environment_id,
                    now,
                ),
            }
        },
    }
}

/// Imports the lines of a file of records. A line that is refused leaves the tables as they
/// were.
pub fn import_canonical_jsonl(
    lines: &Vec<JsonlLine>,
    store: &mut MemoryStore,
    tenant_id: Option<&str>,
    project_id: Option<&str>,
    environment_id: Option<&str>,
    now: i64,
) -> (r: MemoryResult<CanonicalJsonlImportReport>)
    ensures
        match (
            r,
            lines_imported(
                old(store)@,
                lines@,
                GivenScope {
                    tenant_id: opt_str(tenant_id),
                    project_id: opt_str(project_id),
                    environment_id: opt_str(environment_id),
                },
                now,
            ),
        ) {
            (Ok(report), Ok(after)) => final(store)@ == after.store && report == after.report,
            (Err(error), Err(words)) => error@ == words && final(store)@ == old(store)@,
            _ => false,
        },
{
    let ghost start = store@;
    let ghost given = GivenScope {
        tenant_id: opt_str(tenant_id),
        project_id: opt_str(project_id),
        environment_id: opt_str(environment_id),
    };
    let mut work = store.snapshot();
    let mut report = CanonicalJsonlImportReport {
        rows_seen: 0,
        events_inserted: 0,
        events_duplicate: 0,
    };
    let mut i: usize = 0;
    proof {
        assert(lines@.take(0) =~= Seq::empty());
    }
    while i < lines.len()
        invariant
            i <= lines@.len(),
            start == old(store)@,
            store@ == start,
            given == (GivenScope {
                tenant_id: opt_str(tenant_id),
                project_id: opt_str(project_id),
                environment_id: opt_str(environment_id),
            }),
            lines_imported(start, lines@.take(i as int), given, now) == Ok::<
                LinesModel,
                ErrorModel,
            >(LinesModel { store: work@, report }),
        decreases lines.len() - i,
    {
        proof {
            assert(lines@.take(i as int + 1).drop_last() =~= lines@.take(i as int));
            assert(lines@.take(i as int + 1).last() == lines@[i as int]);
        }
        match import_line(
            &mut work,
            report,
            i + 1,
            &lines[i],
            tenant_id,
            project_id,
            environment_id,
            now,
        ) {
            Ok(counted) => {
                report = counted;
            },
            Err(error) => {
                proof {
                    lemma_lines_prefix(start, lines@, given, now, i as int + 1);
                }
                return Err(error);
            },
        }
        i += 1;
    }
    proof {
        assert(lines@.take(i as int) =~= lines@);
    }
    *store = work;
    Ok(report)
}

// ---------------------------------------------------------------------------
// Laws
// ---------------------------------------------------------------------------
/// The ledger has an event at a place.
pub open spec fn recorded(store: StoreModel, span: SpanModel) -> bool {
    some_row(store.ledger, at_span(span))
}

proof fn lemma_appended_records(store: StoreModel, event: EventModel, span: SpanModel)
    requires
        store.appended(event) is Ok,
    ensures
        recorded(store.appended(event)->Ok_0.0, event.span()),
        recorded(store, span) ==> recorded(store.appended(event)->Ok_0.0, span),
{
    let (after, added) = store.appended(event)->Ok_0;
    if added {
        let last = store.ledger.len() as int;
        assert((at_span(event.span()))(after.ledger[last]));
        if recorded(store, span) {
            let i = choose|i: int|
                0 <= i < store.ledger.len() && (at_span(span))(#[trigger] store.ledger[i]);
            assert((at_span(span))(after.ledger[i]));
        }
    }
}

/// The event that a step is imported as, where it is.
pub open spec fn event_of_step(
    step: BeaterJsStep,
    tenant_id: Seq<char>,
    project_id: Seq<char>,
    environment_id: Option<Seq<char>>,
    now: i64,
) -> Option<EventModel> {
    if step_skipped(step) {
        None
    } else {
        match step_values(step) {
            Err(_) => None,
            Ok((request, result)) => Some(
                step_event(step, request, result, tenant_id, project_id, environment_id, now),
            ),
        }
    }
}

proof fn lemma_steps_recorded(
    store: StoreModel,
    steps: Seq<BeaterJsStep>,
    tenant_id: Seq<char>,
    project_id: Seq<char>,
    environment_id: Option<Seq<char>>,
    now: i64,
    k: int,
)
    requires
        0 <= k < steps.len(),
        steps_imported(store, steps, tenant_id, project_id, environment_id, now) is Ok,
    ensures
        match event_of_step(steps[k], tenant_id, project_id, environment_id, now) {
            Some(event) => event.problem() is None && recorded(
                steps_imported(
                    store,
                    steps,
                    tenant_id,
                    project_id,
                    environment_id,
                    now,
                )->Ok_0.store,
                event.span(),
            ),
            None => step_skipped(steps[k]),
        },
    decreases steps.len(),
{
    let front = steps_imported(
        store,
        steps.drop_last(),
        tenant_id,
        project_id,
        environment_id,
        now,
    )->Ok_0;
    let mine = event_of_step(steps[k], tenant_id, project_id, environment_id, now);
    let last = event_of_step(steps.last(), tenant_id, project_id, environment_id, now);
    if k < steps.len() - 1 {
        lemma_steps_recorded(
            store,
            steps.drop_last(),
            tenant_id,
            project_id,
            environment_id,
            now,
            k,
        );
        assert(steps.drop_last()[k] == steps[k]);
    }
    if let Some(event) = last {
        lemma_appended_records(
            front.store,
            event,
            match mine {
                Some(own) => own.span(),
                None => event.span(),
            },
        );
    }
}

proof fn lemma_steps_again(
    after: StoreModel,
    steps: Seq<BeaterJsStep>,
    tenant_id: Seq<char>,
    project_id: Seq<char>,
    environment_id: Option<Seq<char>>,
    later: i64,
)
    requires
        forall|k: int|
            0 <= k < steps.len() ==> match event_of_step(
                #[trigger] steps[k],
                tenant_id,
                project_id,
                environment_id,
                later,
            ) {
                Some(event) => event.problem() is None && recorded(after, event.span()),
                None => step_skipped(steps[k]),
            },
    ensures
        match steps_imported(after, steps, tenant_id, project_id, environment_id, later) {
            Ok(again) => again.store == after && again.report.events_inserted == 0,
            Err(_) => false,
        },
    decreases steps.len(),
{
    if steps.len() > 0 {
        let front = steps.drop_last();
        assert forall|k: int| 0 <= k < front.len() implies match event_of_step(
            #[trigger] front[k],
            tenant_id,
            project_id,
            environment_id,
            later,
        ) {
            Some(event) => event.problem() is None && recorded(after, event.span()),
            None => step_skipped(front[k]),
        } by {
            assert(front[k] == steps[k]);
        }
        lemma_steps_again(after, front, tenant_id, project_id, environment_id, later);
        assert(steps[steps.len() - 1] == steps.last());
    }
}

/// A journal that was imported is not imported twice: importing it again, then or later,
/// succeeds, adds nothing and changes nothing.
pub proof fn reimported_steps_add_nothing(
    store: StoreModel,
    steps: Seq<BeaterJsStep>,
    tenant_id: Seq<char>,
    project_id: Seq<char>,
    environment_id: Option<Seq<char>>,
    now: i64,
    later: i64,
)
    requires
        steps_imported(store, steps, tenant_id, project_id, environment_id, now) is Ok,
        0 <= later,
    ensures
        ({
            let after = steps_imported(
                store,
                steps,
                tenant_id,
                project_id,
                environment_id,
                now,
            )->Ok_0.store;
            match steps_imported(after, steps, tenant_id, project_id, environment_id, later) {
                Ok(again) => again.store == after && again.report.events_inserted == 0,
                Err(_) => false,
            }
        }),
{
    let after = steps_imported(
        store,
        steps,
        tenant_id,
        project_id,
        environment_id,
        now,
    )->Ok_0.store;
    assert forall|k: int| 0 <= k < steps.len() implies match event_of_step(
        #[trigger] steps[k],
        tenant_id,
        project_id,
        environment_id,
        later,
    ) {
        Some(event) => event.problem() is None && recorded(after, event.span()),
        None => step_skipped(steps[k]),
    } by {
        lemma_steps_recorded(store, steps, tenant_id, project_id, environment_id, now, k);
    }
    lemma_steps_again(after, steps, tenant_id, project_id, environment_id, later);
}

/// The event that a line is imported as, where it is.
pub open spec fn event_of_line(line: JsonlLine, given: GivenScope, now: i64) -> Option<EventModel> {
    match line.content {
        Err(_) => None,
        Ok(text) => if blank(text@) {
            None
        } else {
            match parsed_json(trim(text@)) {
                Err(_) => None,
                Ok(value) => Some(
                    record_event(
                        value,
                        given.tenant_id,
                        given.project_id,
                        given.environment_id,
                        line.readings,
                        now,
                    ),
                ),
            }
        },
    }
}

/// A line that is passed over.
pub open spec fn line_skipped(line: JsonlLine) -> bool {
    line.content matches Ok(text) && blank(text@)
}

proof fn lemma_lines_recorded(
    store: StoreModel,
    lines: Seq<JsonlLine>,
    given: GivenScope,
    now: i64,
    k: int,
)
    requires
        0 <= k < lines.len(),
        lines_imported(store, lines, given, now) is Ok,
    ensures
        match event_of_line(lines[k], given, now) {
            Some(event) => event.problem() is None && recorded(
                lines_imported(store, lines, given, now)->Ok_0.store,
                event.span(),
            ),
            None => line_skipped(lines[k]),
        },
    decreases lines.len(),
{
    let front = lines_imported(store, lines.drop_last(), given, now)->Ok_0;
    let mine = event_of_line(lines[k], given, now);
    if k < lines.len() - 1 {
        lemma_lines_recorded(store, lines.drop_last(), given, now, k);
        assert(lines.drop_last()[k] == lines[k]);
    }
    if let Some(event) = event_of_line(lines.last(), given, now) {
        lemma_appended_records(
            front.store,
            event,
            match mine {
                Some(own) => own.span(),
                None => event.span(),
            },
        );
    }
}

/// An event that is a record's now is one later too, at the same place.
proof fn lemma_record_later(
    value: JsonModel,
    given: GivenScope,
    readings: TimeReadings,
    now: i64,
    later: i64,
)
    requires
        0 <= later,
        record_event(
            value,
            given.tenant_id,
            given.project_id,
            given.environment_id,
            readings,
            now,
        ).problem() is None,
    ensures
        record_event(
            value,
            given.tenant_id,
            given.project_id,
            given.environment_id,
            readings,
            later,
        ).problem() is None,
        record_event(
            value,
            given.tenant_id,
            given.project_id,
            given.environment_id,
            readings,
            now,
        ).span() == record_event(
            value,
            given.tenant_id,
            given.project_id,
            given.environment_id,
            readings,
            later,
        ).span(),
{
}

proof fn lemma_lines_again(
    after: StoreModel,
    lines: Seq<JsonlLine>,
    given: GivenScope,
    later: i64,
)
    requires
        forall|k: int|
            0 <= k < lines.len() ==> match event_of_line(#[trigger] lines[k], given, later) {
                Some(event) => event.problem() is None && recorded(after, event.span()),
                None => line_skipped(lines[k]),
            },
    ensures
        match lines_imported(after, lines, given, later) {
            Ok(again) => again.store == after && again.report.events_inserted == 0,
            Err(_) => false,
        },
    decreases lines.len(),
{
    if lines.len() > 0 {
        let front = lines.drop_last();
        assert forall|k: int| 0 <= k < front.len() implies match event_of_line(
            #[trigger] front[k],
            given,
            later,
        ) {
            Some(event) => event.problem() is None && recorded(after, event.span()),
            None => line_skipped(front[k]),
        } by {
            assert(front[k] == lines[k]);
        }
        lemma_lines_again(after, front, given, later);
        assert(lines[lines.len() - 1] == lines.last());
    }
}

/// A file of records that was imported is not imported twice: importing it again, then or
/// later, succeeds, adds nothing and changes nothing.
pub proof fn reimported_lines_add_nothing(
    store: StoreModel,
    lines: Seq<JsonlLine>,
    given: GivenScope,
    now: i64,
    later: i64,
)
    requires
        lines_imported(store, lines, given, now) is Ok,
        0 <= later,
    ensures
        ({
            let after = lines_imported(store, lines, given, now)->Ok_0.store;
            match lines_imported(after, lines, given, later) {
                Ok(again) => again.store == after && again.report.events_inserted == 0,
                Err(_) => false,
            }
        }),
{
    let after = lines_imported(store, lines, given, now)->Ok_0.store;
    assert forall|k: int| 0 <= k < lines.len() implies match event_of_line(
        #[trigger] lines[k],
        given,
        later,
    ) {
        Some(event) => event.problem() is None && recorded(after, event.span()),
        None => line_skipped(lines[k]),
    } by {
        lemma_lines_recorded(store, lines, given, now, k);
        if event_of_line(lines[k], given, now) is Some {
            let value = parsed_json(trim(lines[k].content->Ok_0@))->Ok_0;
            lemma_record_later(value, given, lines[k].readings, now, later);
        }
    }
    lemma_lines_again(after, lines, given, later);
}

} // verus!
