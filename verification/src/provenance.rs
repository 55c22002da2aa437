//! Laws of imports: where a record or a journal step ends up, and what is kept of it.
use vstd::prelude::*;

use crate::chars::{blank, decimal, join, lower, opt_text, text_less, trim};
use crate::digits::{digit_step, nearest, DIGITS_53};
use crate::imports::{
    event_of_line, event_of_step, first_words, json_number, json_opt_text, kind_of_record,
    kind_word, line_imported, lines_imported, memory_fields, read_answer, read_question, read_words,
    record_event, step_event, step_imported, step_payload, step_skipped, step_span_kind,
    step_values, steps_imported, time_of_value, whole_time, words_at, written_words, BeaterJsStep,
    GivenScope, JsonlLine, TimeReadings,
};
use crate::error::ErrorModel;
use crate::json::{
    find_member, item_words, json_words, member_words, parsed_json, set_member, JsonModel,
};
use crate::ledger::EventModel;
use crate::model::MemoryNodeKind;
use crate::store::StoreModel;
use crate::text::concise_form;

verus! {

// ---------------------------------------------------------------------------
// Values
// ---------------------------------------------------------------------------
/// An object gives the first of its members that has a key, and nothing where none has it.
pub proof fn members_are_found_by_key(members: Seq<(Seq<char>, JsonModel)>, key: Seq<char>, k: int)
    requires
        0 <= k <= members.len(),
        forall|i: int| 0 <= i < k ==> (#[trigger] members[i]).0 != key,
        k < members.len() ==> members[k].0 == key,
    ensures
        JsonModel::Object(members).get(key) == (if k < members.len() {
            Some(members[k].1)
        } else {
            None
        }),
        JsonModel::Object(members).at(key) == (if k < members.len() {
            members[k].1
        } else {
            JsonModel::Null
        }),
    decreases members.len(),
{
    if members.len() > 0 {
        let front = members.drop_last();
        assert forall|i: int| 0 <= i < k && i < front.len() implies (#[trigger] front[i]).0
            != key by {
            assert(front[i] == members[i]);
        }
        if k == members.len() {
            members_are_found_by_key(front, key, k - 1);
            assert(members[k - 1].0 != key);
        } else if k < front.len() {
            assert(front[k] == members[k]);
            members_are_found_by_key(front, key, k);
        } else {
            members_are_found_by_key(front, key, k);
        }
        assert(find_member(front, key) == JsonModel::Object(front).get(key));
    }
}

/// A string says its text, without the white space round it where words are asked for; words
/// are never blank, and nothing but a string has any.
pub proof fn strings_alone_say_words(value: JsonModel)
    ensures
        forall|text: Seq<char>|
            value == JsonModel::Text(text) ==> value.as_text() == Some(text) && (trim(text).len() > 0
                ==> value.as_words() == Some(trim(text))),
        value.as_words() matches Some(words) ==> value is Text && words == trim(value->Text_0)
            && words.len() > 0,
        !(value is Text) ==> value.as_text() is None && value.as_words() is None,
{
}

/// Of some fields the first that has words is read: every one before it has none.
pub proof fn the_first_words_are_read(value: JsonModel, fields: Seq<Seq<char>>, k: int)
    requires
        0 <= k <= fields.len(),
        forall|i: int| 0 <= i < k ==> value.at(#[trigger] fields[i]).as_words() is None,
        k < fields.len() ==> value.at(fields[k]).as_words() is Some,
    ensures
        first_words(value, fields) == (if k < fields.len() {
            value.at(fields[k]).as_words()
        } else {
            None
        }),
    decreases fields.len(),
{
    if fields.len() > 0 {
        let front = fields.drop_last();
        assert forall|i: int| 0 <= i < k && i < front.len() implies value.at(
            #[trigger] front[i],
        ).as_words() is None by {
            assert(front[i] == fields[i]);
        }
        if k == fields.len() {
            the_first_words_are_read(value, front, k - 1);
            assert(value.at(fields[k - 1]).as_words() is None);
        } else if k < front.len() {
            assert(front[k] == fields[k]);
            the_first_words_are_read(value, front, k);
        } else {
            the_first_words_are_read(value, front, k);
        }
    }
}

// ---------------------------------------------------------------------------
// Scopes of records
// ---------------------------------------------------------------------------
/// A record goes to the scope that the import is given, whatever the record says; a part of the
/// scope that is not given is the record's own, and one that neither names is the local
/// tenant's default project, in no environment.
pub proof fn given_scopes_come_first(
    value: JsonModel,
    given: GivenScope,
    readings: TimeReadings,
    now: i64,
)
    ensures
        ({
            let event = record_event(
                value,
                given.tenant_id,
                given.project_id,
                given.environment_id,
                readings,
                now,
            );
            &&& given.tenant_id matches Some(t) ==> event.tenant_id == t
            &&& given.project_id matches Some(p) ==> event.project_id == p
            &&& given.environment_id is Some ==> event.environment_id == given.environment_id
            &&& given.tenant_id is None ==> match value.at("tenant_id"@) {
                JsonModel::Text(t) => event.tenant_id == t,
                _ => event.tenant_id == "local"@,
            }
            &&& given.project_id is None ==> match value.at("project_id"@) {
                JsonModel::Text(p) => event.project_id == p,
                _ => event.project_id == "default"@,
            }
            &&& given.environment_id is None ==> match value.at("environment_id"@) {
                JsonModel::Text(e) => event.environment_id == Some(e),
                _ => event.environment_id is None,
            }
        }),
{
}

proof fn lemma_reads_are_no_writes()
    ensures
        "memory.read"@ != "memory.write"@,
{
    reveal_strlit("memory.read");
    assert("memory.read"@.len() == 11);
    reveal_strlit("memory.write");
    assert("memory.write"@.len() == 12);
}

/// A record keeps the place in a trace, the number, the status and the name that it states, all
/// that it says as its payload, and the time of the import as the time it was taken in.
pub proof fn records_are_taken_at_their_word(
    value: JsonModel,
    given: GivenScope,
    readings: TimeReadings,
    now: i64,
)
    ensures
        ({
            let event = record_event(
                value,
                given.tenant_id,
                given.project_id,
                given.environment_id,
                readings,
                now,
            );
            &&& event.source == "beater-agents.canonical-jsonl"@
            &&& event.payload == value
            &&& event.ingested_at_unix_ms == now
            &&& event.projected_at_unix_ms is None
            &&& event.id is None
            &&& value.at("trace_id"@) matches JsonModel::Text(id) ==> event.trace_id == id
            &&& value.at("span_id"@) matches JsonModel::Text(id) ==> event.span_id == id
            &&& value.at("seq"@).as_uint() matches Some(seq) ==> event.seq == seq
            &&& value.at("seq"@).as_uint() is None ==> event.seq == 1
            &&& match value.at("status"@) {
                JsonModel::Text(status) => event.status == status,
                _ => event.status == "ok"@,
            }
            &&& value.at("span_kind"@) matches JsonModel::Text(kind) ==> event.span_kind == kind
            &&& event.span_kind != "memory.write"@ && event.span_kind != "memory.read"@
                ==> match value.at("name"@) {
                JsonModel::Text(name) => event.name == name,
                _ => event.name == event.span_kind,
            }
            &&& event.span_kind == "memory.read"@ ==> event.name == "episode"@
        }),
{
    lemma_reads_are_no_writes();
}

/// The span kind of a record is the first that its span kind, its attributes for either
/// convention and its kind name, and that of an agent's step where none does.
pub proof fn span_kinds_are_read_in_turn(
    value: JsonModel,
    given: GivenScope,
    readings: TimeReadings,
    now: i64,
)
    ensures
        ({
            let attributes = value.at("attributes"@);
            let own = value.at("span_kind"@);
            let open = attributes.at("openinference.span.kind"@);
            let beater = attributes.at("beater.span.kind"@);
            let plain = value.at("kind"@);
            let kind = record_event(
                value,
                given.tenant_id,
                given.project_id,
                given.environment_id,
                readings,
                now,
            ).span_kind;
            &&& own is Text ==> kind == own->Text_0
            &&& !(own is Text) && open is Text ==> kind == open->Text_0
            &&& !(own is Text) && !(open is Text) && beater is Text ==> kind == beater->Text_0
            &&& !(own is Text) && !(open is Text) && !(beater is Text) && plain is Text ==> kind
                == plain->Text_0
            &&& !(own is Text) && !(open is Text) && !(beater is Text) && !(plain is Text) ==> kind
                == "agent.step"@
        }),
{
}

proof fn lemma_record_added(
    before: crate::imports::LinesModel,
    number: nat,
    line: JsonlLine,
    given: GivenScope,
    now: i64,
)
    requires
        line_imported(before, number, line, given, now) is Ok,
    ensures
        ({
            let after = line_imported(before, number, line, given, now)->Ok_0;
            let held = before.store.ledger;
            &&& after.store == (StoreModel {
                ledger: after.store.ledger,
                last_event_id: after.store.last_event_id,
                ..before.store
            })
            &&& after.store.ledger == held || (event_of_line(line, given, now) is Some
                && after.store.ledger.len() == held.len() + 1 && after.store.ledger.drop_last()
                == held && after.store.ledger.last() == (EventModel {
                id: after.store.ledger.last().id,
                ..event_of_line(line, given, now)->0
            }))
        }),
{
    let after = line_imported(before, number, line, given, now)->Ok_0;
    let held = before.store.ledger;
    if after.store.ledger != held {
        assert(after.store.ledger.drop_last() =~= held);
    }
}

/// Every event that an import of records adds to the ledger is the event of one of its lines,
/// and lies in the tenant, the project and the environment that the import is given. The events
/// that were there before stay as they were, before the new ones, and no other table changes.
pub proof fn imported_records_stay_in_the_given_scope(
    store: StoreModel,
    lines: Seq<JsonlLine>,
    given: GivenScope,
    now: i64,
    i: int,
) -> (k: int)
    requires
        lines_imported(store, lines, given, now) is Ok,
        store.ledger.len() <= i < lines_imported(store, lines, given, now)->Ok_0.store.ledger.len(),
    ensures
        ({
            let after = lines_imported(store, lines, given, now)->Ok_0.store;
            let event = after.ledger[i];
            &&& 0 <= k < lines.len()
            &&& lines[k].content matches Ok(text) && !blank(text@) && parsed_json(trim(text@))
                == Ok::<JsonModel, Seq<char>>(event.payload)
            &&& given.tenant_id matches Some(t) ==> event.tenant_id == t
            &&& given.project_id matches Some(p) ==> event.project_id == p
            &&& given.environment_id is Some ==> event.environment_id == given.environment_id
            &&& event.ingested_at_unix_ms == now
        }),
    decreases lines.len(),
{
    if lines.len() == 0 {
        0
    } else {
        let front = lines_imported(store, lines.drop_last(), given, now)->Ok_0;
        let after = lines_imported(store, lines, given, now)->Ok_0;
        lemma_record_added(front, lines.len(), lines.last(), given, now);
        if i < front.store.ledger.len() {
            let k = imported_records_stay_in_the_given_scope(
                store,
                lines.drop_last(),
                given,
                now,
                i,
            );
            assert(lines.drop_last()[k] == lines[k]);
            if after.store.ledger != front.store.ledger {
                assert(after.store.ledger.drop_last()[i] == after.store.ledger[i]);
            }
            k
        } else {
            assert(after.store.ledger[i] == after.store.ledger.last());
            lines.len() - 1
        }
    }
}

/// An import of records keeps the ledger that it found as the beginning of the one that it
/// leaves, and counts each line that says something once: as an event that it adds, or as one
/// that was there.
pub proof fn imports_count_what_they_add(
    store: StoreModel,
    lines: Seq<JsonlLine>,
    given: GivenScope,
    now: i64,
)
    requires
        lines_imported(store, lines, given, now) is Ok,
        lines.len() < usize::MAX,
    ensures
        ({
            let after = lines_imported(store, lines, given, now)->Ok_0;
            &&& store.ledger.len() <= after.store.ledger.len()
            &&& after.store.ledger.take(store.ledger.len() as int) == store.ledger
            &&& after.store.nodes == store.nodes
            &&& after.store.edges == store.edges
            &&& after.report.events_inserted == after.store.ledger.len() - store.ledger.len()
            &&& after.report.rows_seen == after.report.events_inserted
                + after.report.events_duplicate
            &&& after.report.rows_seen == lines.filter(
                |line: JsonlLine| line.content matches Ok(text) && !blank(text@),
            ).len()
            &&& after.report.rows_seen <= lines.len()
        }),
    decreases lines.len(),
{
    let says = |line: JsonlLine| line.content matches Ok(text) && !blank(text@);
    reveal(Seq::filter);
    if lines.len() == 0 {
        assert(store.ledger.take(store.ledger.len() as int) =~= store.ledger);
    } else {
        let front = lines_imported(store, lines.drop_last(), given, now)->Ok_0;
        let after = lines_imported(store, lines, given, now)->Ok_0;
        imports_count_what_they_add(store, lines.drop_last(), given, now);
        lemma_record_added(front, lines.len(), lines.last(), given, now);
        if after.store.ledger != front.store.ledger {
            assert(after.store.ledger.take(store.ledger.len() as int)
                =~= after.store.ledger.drop_last().take(store.ledger.len() as int));
        }
    }
}

// ---------------------------------------------------------------------------
// Times
// ---------------------------------------------------------------------------
/// A whole number from a billion up to a trillion counts seconds, and any other from zero up to
/// nine quadrillion milliseconds.
pub proof fn whole_numbers_are_seconds_or_milliseconds(number: i64)
    requires
        0 <= number < 9_000_000_000_000_000,
    ensures
        1_000_000_000 <= number < 1_000_000_000_000 ==> whole_time(number) == number * 1_000,
        number < 1_000_000_000 || 1_000_000_000_000 <= number ==> whole_time(number) == number,
{
    let size = number as nat;
    assert(digit_step(DIGITS_53 as nat, size, 1, 1) == 1);
    assert(1 * digit_step(DIGITS_53 as nat, size, 1, 1) == 1);
    assert(size / 1 == size && size % 1 == 0);
    assert(size * 1 == size);
    assert(nearest(DIGITS_53 as nat, size, 1) == size);
}

/// A record was observed when it says, in milliseconds, that it began; where it says nothing of
/// the kind, at the time of its stamp; and where it says no time at all, now.
pub proof fn records_were_observed_when_they_say(
    value: JsonModel,
    given: GivenScope,
    readings: TimeReadings,
    now: i64,
)
    ensures
        ({
            let at = record_event(
                value,
                given.tenant_id,
                given.project_id,
                given.environment_id,
                readings,
                now,
            ).observed_at_unix_ms;
            let began = value.at("start_time_unix_ms"@).as_int();
            let began_ms = value.at("start_time_ms"@).as_int();
            let stamped = value.at("timestamp_unix_ms"@).as_int();
            &&& began matches Some(t) ==> at == t
            &&& began is None && began_ms is Some ==> at == began_ms->0
            &&& began is None && began_ms is None && stamped is Some ==> at == stamped->0
            &&& began is None && began_ms is None && stamped is None ==> {
                let start = value.at("start_time"@).as_int();
                let camel = value.at("startTime"@).as_int();
                let stamp = value.at("timestamp"@).as_int();
                &&& start is Some ==> at == whole_time(start->0)
                &&& value.at("start_time"@) is Null && camel is Some ==> at == whole_time(camel->0)
                &&& value.at("start_time"@) is Null && value.at("startTime"@) is Null
                    && stamp is Some ==> at == whole_time(stamp->0)
                &&& value.at("start_time"@) is Null && value.at("startTime"@) is Null && value.at(
                    "timestamp"@,
                ) is Null ==> at == now
            }
        }),
{
}

// ---------------------------------------------------------------------------
// Memories in records
// ---------------------------------------------------------------------------
/// A memory is named by its kind in any case and between any white space, or by one of the
/// common other words for it.
pub proof fn kinds_have_common_words(text: Seq<char>)
    ensures
        ({
            let word = lower(trim(text));
            let kind = kind_word(Some(text));
            &&& word == "semantic"@ ==> kind == Some(MemoryNodeKind::Fact)
            &&& word == "episodic"@ ==> kind == Some(MemoryNodeKind::Episode)
            &&& word == "runbook"@ || word == "workflow"@ ==> kind == Some(
                MemoryNodeKind::Procedure,
            )
            &&& word == "failure"@ ==> kind == Some(MemoryNodeKind::Gotcha)
        }),
        kind_word(None) is None,
{
    reveal_strlit("semantic");
    assert("semantic"@.len() == 8);
    reveal_strlit("episodic");
    assert("episodic"@.len() == 8);
    reveal_strlit("runbook");
    assert("runbook"@.len() == 7);
    reveal_strlit("workflow");
    assert("workflow"@.len() == 8);
    reveal_strlit("failure");
    assert("failure"@.len() == 7);
    assert("semantic"@[0] == 's' && "episodic"@[0] == 'e' && "workflow"@[0] == 'w');
    assert("runbook"@[0] == 'r' && "failure"@[0] == 'f');
}

/// A record that says its text in a field of its own is remembered by it, whatever its input,
/// payload and output say; one that does not, by what its input says, then its payload, then
/// its output.
pub proof fn writes_are_read_from_the_outside_in(value: JsonModel)
    ensures
        ({
            let own = first_words(value, seq!["memory"@, "text"@, "content"@, "value"@]);
            let input = value.at("input"@);
            let payload = value.at("payload"@);
            let output = value.at("output"@);
            let in_input = first_words(input, seq!["memory"@, "text"@, "content"@, "value"@]);
            let in_payload = first_words(payload, seq!["memory"@, "text"@, "content"@, "value"@]);
            let in_output = first_words(output, seq!["memory"@, "text"@, "content"@, "value"@]);
            let r = written_words(value);
            &&& own is Some ==> r == own
            &&& own is None && in_input is Some ==> r == in_input
            &&& own is None && input.as_words() is Some ==> r == input.as_words()
            &&& own is None && in_input is None && input.as_words() is None && in_payload is Some
                ==> r == in_payload
            &&& own is None && in_input is None && input.as_words() is None && in_payload is None
                && in_output is Some ==> r == in_output
            &&& own is None && in_input is None && input.as_words() is None && in_payload is None
                && output.as_words() is Some ==> r == output.as_words()
            &&& r is Some ==> own is Some || in_input is Some || input.as_words() is Some
                || in_payload is Some || in_output is Some || output.as_words() is Some
        }),
{
    let fields = memory_fields();
    assert(fields == seq!["memory"@, "text"@, "content"@, "value"@]);
    if value.at("input"@) is Text {
        lemma_words_have_no_members(value.at("input"@), fields);
    }
    if value.at("output"@) is Text {
        lemma_words_have_no_members(value.at("output"@), fields);
    }
}

proof fn lemma_words_have_no_members(value: JsonModel, fields: Seq<Seq<char>>)
    requires
        value is Text,
    ensures
        first_words(value, fields) is None,
    decreases fields.len(),
{
    if fields.len() > 0 {
        lemma_words_have_no_members(value, fields.drop_last());
    }
}

/// A read of memory is told by its question and its answer, in this order, each where it is
/// known.
pub proof fn reads_tell_question_and_answer(request: JsonModel, result: JsonModel)
    ensures
        request.as_words() is Some ==> read_question(request) == request.as_words(),
        result.as_words() is Some ==> read_answer(result) == result.as_words(),
        request.at("question"@).as_words() is Some ==> read_question(request) == request.at(
            "question"@,
        ).as_words(),
        result.at("answer"@).as_words() is Some ==> read_answer(result) == result.at(
            "answer"@,
        ).as_words(),
        match (read_question(request), read_answer(result)) {
            (Some(asked), Some(told)) => read_words(request, result) == Some(
                "memory read question: "@ + asked + " answer: "@ + told,
            ),
            (Some(asked), None) => read_words(request, result) == Some(
                "memory read question: "@ + asked,
            ),
            (None, Some(told)) => read_words(request, result) == Some(
                "memory read answer: "@ + told,
            ),
            (None, None) => read_words(request, result) is None,
        },
{
    let asked = seq!["question"@, "query"@, "input"@, "text"@];
    let told = seq!["answer"@, "summary"@, "output"@, "text"@];
    if request.at("question"@).as_words() is Some {
        the_first_words_are_read(request, asked, 0);
    }
    if result.at("answer"@).as_words() is Some {
        the_first_words_are_read(result, told, 0);
    }
}

/// A memory that a record writes is kept in its words, under its kind, as a fact where it names
/// none.
pub proof fn written_memories_keep_their_words_and_kind(
    value: JsonModel,
    given: GivenScope,
    readings: TimeReadings,
    now: i64,
)
    ensures
        ({
            let event = record_event(
                value,
                given.tenant_id,
                given.project_id,
                given.environment_id,
                readings,
                now,
            );
            event.span_kind == "memory.write"@ ==> {
                &&& written_words(value) matches Some(words) ==> event.text == concise_form(
                    words,
                    2_400,
                )
                &&& kind_of_record(value) matches Some(kind) ==> event.name == kind.name()
                &&& kind_of_record(value) is None ==> event.name == "fact"@
            }
        }),
        kind_word(words_at(value, seq!["attributes"@, "beater.memory.kind"@])) matches Some(kind)
            ==> kind_of_record(value) == Some(kind),
        kind_word(words_at(value, seq!["attributes"@, "beater.memory.kind"@])) is None
            ==> (kind_word(words_at(value, seq!["attributes"@, "memory.kind"@])) matches Some(kind)
            ==> kind_of_record(value) == Some(kind)),
        kind_of_record(value) is None ==> kind_word(words_at(value, seq!["kind"@])) is None
            && kind_word(words_at(value, seq!["memory_kind"@])) is None && kind_word(
            words_at(value, seq!["input"@, "kind"@]),
        ) is None && kind_word(words_at(value, seq!["payload"@, "kind"@])) is None && kind_word(
            words_at(value, seq!["output"@, "kind"@]),
        ) is None,
{
    lemma_reads_are_no_writes();
}

// ---------------------------------------------------------------------------
// Journal steps
// ---------------------------------------------------------------------------
/// A step is imported when its run has come to an end there, well or badly, but a write of
/// memory only when it has come to a good one. A step that waits, runs or says anything else of
/// itself is passed over.
pub proof fn ended_steps_are_imported(step: BeaterJsStep)
    ensures
        ({
            let word = lower(trim(step.status@));
            let well = word == "completed"@ || word == "complete"@ || word == "succeeded"@ || word
                == "success"@;
            let badly = word == "failed"@ || word == "error"@ || word == "errored"@ || word
                == "cancelled"@ || word == "canceled"@;
            let writes = step.kind@ == "tool_call"@ && (step.tool_name matches Some(tool) && (tool@
                == "memory.write"@ || tool@ == "memory_write"@));
            &&& well ==> !step_skipped(step)
            &&& badly && !well && writes ==> step_skipped(step)
            &&& badly && !writes && step.kind@ != "memory.write"@ ==> !step_skipped(step)
            &&& !well && !badly ==> step_skipped(step)
        }),
{
    lemma_reads_are_no_writes();
    reveal_strlit("memory_read");
    assert("memory_read"@.len() == 11);
    reveal_strlit("memory_write");
    assert("memory_write"@.len() == 12);
    reveal_strlit("memory.write");
    assert("memory.write"@.len() == 12);
    reveal_strlit("memory.read");
    assert("memory.read"@.len() == 11);
    reveal_strlit("tool_call");
    assert("tool_call"@.len() == 9);
    reveal_strlit("tool.call");
    assert("tool.call"@.len() == 9);
    reveal_strlit("llm_call");
    assert("llm_call"@.len() == 8);
    reveal_strlit("llm.call");
    assert("llm.call"@.len() == 8);
    reveal_strlit("completed");
    assert("completed"@.len() == 9);
    reveal_strlit("complete");
    assert("complete"@.len() == 8);
    reveal_strlit("succeeded");
    assert("succeeded"@.len() == 9);
    reveal_strlit("success");
    assert("success"@.len() == 7);
    reveal_strlit("failed");
    assert("failed"@.len() == 6);
    reveal_strlit("error");
    assert("error"@.len() == 5);
    reveal_strlit("errored");
    assert("errored"@.len() == 7);
    reveal_strlit("cancelled");
    assert("cancelled"@.len() == 9);
    reveal_strlit("canceled");
    assert("canceled"@.len() == 8);
}

/// A step is kept in the scope that the import is given, in the trace of its run and at its
/// number there, with its status, and as begun when it began, in milliseconds.
pub proof fn steps_keep_their_place_in_the_run(
    step: BeaterJsStep,
    request: JsonModel,
    result: JsonModel,
    tenant_id: Seq<char>,
    project_id: Seq<char>,
    environment_id: Option<Seq<char>>,
    now: i64,
)
    ensures
        ({
            let event = step_event(
                step,
                request,
                result,
                tenant_id,
                project_id,
                environment_id,
                now,
            );
            &&& event.tenant_id == tenant_id
            &&& event.project_id == project_id
            &&& event.environment_id == environment_id
            &&& event.trace_id == step.run_id@
            &&& event.seq == step.seq
            &&& event.status == step.status@
            &&& event.ingested_at_unix_ms == now
            &&& event.projected_at_unix_ms is None
            &&& step.tool_use_id matches Some(id) ==> event.span_id == id@
            &&& -9_000_000_000_000_000 < step.started_at < 9_000_000_000_000_000
                ==> event.observed_at_unix_ms == step.started_at * 1_000
            &&& step.kind@ == "llm_call"@ ==> event.span_kind == "llm.call"@
            &&& step.kind@ != "llm_call"@ && step.kind@ != "tool_call"@ ==> event.span_kind
                == step.kind@
            &&& step.kind@ == "tool_call"@ && step.tool_name is None ==> event.span_kind
                == "tool.call"@
            &&& event.span_kind == "memory.read"@ ==> event.name == "episode"@
            &&& event.span_kind == "memory.write"@ ==> (kind_of_record(request) matches Some(kind)
                ==> event.name == kind.name())
            &&& event.span_kind == "memory.write"@ ==> (written_words(request) matches Some(words)
                ==> event.text == concise_form(words, 2_400))
            &&& event.span_kind == "memory.read"@ ==> (read_words(request, result) matches Some(
                words,
            ) ==> event.text == concise_form(words, 2_400))
        }),
{
    lemma_reads_are_no_writes();
    reveal_strlit("tool_call");
    assert("tool_call"@.len() == 9);
    reveal_strlit("llm_call");
    assert("llm_call"@.len() == 8);
}

proof fn lemma_step_added(
    before: crate::imports::StepsModel,
    step: BeaterJsStep,
    tenant_id: Seq<char>,
    project_id: Seq<char>,
    environment_id: Option<Seq<char>>,
    now: i64,
)
    requires
        step_imported(before, step, tenant_id, project_id, environment_id, now) is Ok,
    ensures
        ({
            let after = step_imported(
                before,
                step,
                tenant_id,
                project_id,
                environment_id,
                now,
            )->Ok_0;
            let held = before.store.ledger;
            let event = event_of_step(step, tenant_id, project_id, environment_id, now);
            &&& after.store.ledger == held || (event is Some && after.store.ledger.len()
                == held.len() + 1 && after.store.ledger.drop_last() == held
                && after.store.ledger.last() == (EventModel {
                id: after.store.ledger.last().id,
                ..event->0
            }))
        }),
{
    let after = step_imported(
        before,
        step,
        tenant_id,
        project_id,
        environment_id,
        now,
    )->Ok_0;
    if after.store.ledger != before.store.ledger {
        assert(after.store.ledger.drop_last() =~= before.store.ledger);
    }
}

/// Every event that an import of a journal adds to the ledger is the event of one of its steps
/// that is not passed over, and lies in the scope that the import is given.
pub proof fn imported_steps_stay_in_the_given_scope(
    store: StoreModel,
    steps: Seq<BeaterJsStep>,
    tenant_id: Seq<char>,
    project_id: Seq<char>,
    environment_id: Option<Seq<char>>,
    now: i64,
    i: int,
) -> (k: int)
    requires
        steps_imported(store, steps, tenant_id, project_id, environment_id, now) is Ok,
        store.ledger.len() <= i < steps_imported(
            store,
            steps,
            tenant_id,
            project_id,
            environment_id,
            now,
        )->Ok_0.store.ledger.len(),
    ensures
        ({
            let event = steps_imported(
                store,
                steps,
                tenant_id,
                project_id,
                environment_id,
                now,
            )->Ok_0.store.ledger[i];
            &&& 0 <= k < steps.len()
            &&& !step_skipped(steps[k])
            &&& event.trace_id == steps[k].run_id@
            &&& event.seq == steps[k].seq
            &&& event.tenant_id == tenant_id
            &&& event.project_id == project_id
            &&& event.environment_id == environment_id
        }),
    decreases steps.len(),
{
    if steps.len() == 0 {
        0
    } else {
        let front = steps_imported(
            store,
            steps.drop_last(),
            tenant_id,
            project_id,
            environment_id,
            now,
        )->Ok_0;
        let after = steps_imported(
            store,
            steps,
            tenant_id,
            project_id,
            environment_id,
            now,
        )->Ok_0;
        lemma_step_added(front, steps.last(), tenant_id, project_id, environment_id, now);
        if i < front.store.ledger.len() {
            let k = imported_steps_stay_in_the_given_scope(
                store,
                steps.drop_last(),
                tenant_id,
                project_id,
                environment_id,
                now,
                i,
            );
            assert(steps.drop_last()[k] == steps[k]);
            if after.store.ledger != front.store.ledger {
                assert(after.store.ledger.drop_last()[i] == after.store.ledger[i]);
            }
            k
        } else {
            assert(after.store.ledger[i] == after.store.ledger.last());
            steps.len() - 1
        }
    }
}

// ---------------------------------------------------------------------------
// Payloads and words
// ---------------------------------------------------------------------------
proof fn lemma_set_new(members: Seq<(Seq<char>, JsonModel)>, key: Seq<char>, value: JsonModel)
    requires
        find_member(members, key) is None,
    ensures
        find_member(set_member(members, key, value), key) == Some(value),
    decreases members.len(),
{
    let out = set_member(members, key, value);
    if members.len() == 0 {
        assert(out.drop_last() =~= members);
    } else if text_less(key, members.last().0) {
        lemma_set_new(members.drop_last(), key, value);
        assert(out.drop_last() =~= set_member(members.drop_last(), key, value));
    } else {
        assert(out.drop_last() =~= members);
    }
}

/// Setting a member changes no other: under any other key an object gives what it gave.
pub proof fn set_members_leave_others(
    members: Seq<(Seq<char>, JsonModel)>,
    key: Seq<char>,
    value: JsonModel,
    other: Seq<char>,
)
    requires
        other != key,
    ensures
        JsonModel::Object(members).with_member(key, value).get(other) == JsonModel::Object(
            members,
        ).get(other),
    decreases members.len(),
{
    let out = set_member(members, key, value);
    if members.len() == 0 {
        assert(out.drop_last() =~= members);
    } else if key == members.last().0 {
        assert(out.drop_last() =~= members.drop_last());
    } else if text_less(key, members.last().0) {
        set_members_leave_others(members.drop_last(), key, value, other);
        assert(out.drop_last() =~= set_member(members.drop_last(), key, value));
    } else {
        assert(out.drop_last() =~= members);
    }
}

/// An object with new members set one after the other gives each of them back.
proof fn lemma_set_on(object: JsonModel, key: Seq<char>, value: JsonModel, other: Seq<char>)
    requires
        object is Object,
        object.get(key) is None,
    ensures
        object.with_member(key, value) is Object,
        object.with_member(key, value).get(key) == Some(value),
        other != key ==> object.with_member(key, value).get(other) == object.get(other),
{
    let members = object->Object_0;
    lemma_set_new(members, key, value);
    if other != key {
        set_members_leave_others(members, key, value, other);
    }
}

proof fn lemma_step_keys()
    ensures
        "agent"@.len() == 5,
        "run_status"@.len() == 10,
        "run_created_at"@.len() == 14,
        "request"@.len() == 7,
        "request"@[0] == 'r',
        "result"@.len() == 6,
        "tool_name"@.len() == 9,
        "tool_use_id"@.len() == 11,
        "tool_use_id"@[0] == 't',
        "attempt"@.len() == 7,
        "attempt"@[0] == 'a',
        "finished_at"@.len() == 11,
        "finished_at"@[0] == 'f',
{
    reveal_strlit("agent");
    reveal_strlit("run_status");
    reveal_strlit("run_created_at");
    reveal_strlit("request");
    reveal_strlit("result");
    reveal_strlit("tool_name");
    reveal_strlit("tool_use_id");
    reveal_strlit("attempt");
    reveal_strlit("finished_at");
}

/// The keys of the payload of a step, in the order in which they are set.
spec fn step_keys() -> Seq<Seq<char>> {
    seq![
        "agent"@,
        "run_status"@,
        "run_created_at"@,
        "request"@,
        "result"@,
        "tool_name"@,
        "tool_use_id"@,
        "attempt"@,
        "finished_at"@,
    ]
}

/// An object with the first values under the first of some keys.
spec fn with_first(keys: Seq<Seq<char>>, values: Seq<JsonModel>, n: int) -> JsonModel
    decreases n,
{
    if n <= 1 {
        JsonModel::Object(seq![(keys[0], values[0])])
    } else {
        with_first(keys, values, n - 1).with_member(keys[n - 1], values[n - 1])
    }
}

proof fn lemma_with_first(keys: Seq<Seq<char>>, values: Seq<JsonModel>, n: int, i: int)
    requires
        1 <= n <= keys.len(),
        keys.len() == values.len(),
        0 <= i < keys.len(),
        forall|a: int, b: int|
            0 <= a < b < keys.len() ==> #[trigger] keys[a] != #[trigger] keys[b],
    ensures
        with_first(keys, values, n) is Object,
        with_first(keys, values, n).get(keys[i]) == (if i < n {
            Some(values[i])
        } else {
            None
        }),
    decreases n,
{
    if n == 1 {
        let only = seq![(keys[0], values[0])];
        members_are_found_by_key(
            only,
            keys[i],
            if i == 0 {
                0
            } else {
                1
            },
        );
    } else {
        lemma_with_first(keys, values, n - 1, i);
        lemma_with_first(keys, values, n - 1, n - 1);
        lemma_set_on(with_first(keys, values, n - 1), keys[n - 1], values[n - 1], keys[i]);
    }
}

/// The payload of a step holds what the step said, each under its own name: the agent, the run's
/// status and time, what was asked and what came of it, the tool and its call, the attempt and
/// the end.
pub proof fn steps_carry_what_they_said(step: BeaterJsStep, request: JsonModel, result: JsonModel)
    ensures
        ({
            let payload = step_payload(step, request, result);
            &&& payload.get("agent"@) == Some(JsonModel::Text(step.agent@))
            &&& payload.get("run_status"@) == Some(JsonModel::Text(step.run_status@))
            &&& payload.get("run_created_at"@) == Some(json_number(step.run_created_at))
            &&& payload.get("request"@) == Some(request)
            &&& payload.get("result"@) == Some(result)
            &&& payload.get("tool_name"@) == Some(json_opt_text(opt_text(step.tool_name)))
            &&& payload.get("tool_use_id"@) == Some(json_opt_text(opt_text(step.tool_use_id)))
            &&& payload.get("attempt"@) == Some(json_number(step.attempt))
            &&& step.finished_at matches Some(at) ==> payload.get("finished_at"@) == Some(
                json_number(at),
            )
            &&& step.finished_at is None ==> payload.get("finished_at"@) == Some(JsonModel::Null)
        }),
{
    reveal(step_payload);
    lemma_step_keys();
    let keys = step_keys();
    let values = seq![
        JsonModel::Text(step.agent@),
        JsonModel::Text(step.run_status@),
        json_number(step.run_created_at),
        request,
        result,
        json_opt_text(opt_text(step.tool_name)),
        json_opt_text(opt_text(step.tool_use_id)),
        json_number(step.attempt),
        match step.finished_at {
            Some(at) => json_number(at),
            None => JsonModel::Null,
        },
    ];
    reveal_with_fuel(with_first, 10);
    assert(with_first(keys, values, 9) == step_payload(step, request, result));
    assert forall|a: int, b: int| 0 <= a < b < keys.len() implies #[trigger] keys[a]
        != #[trigger] keys[b] by {}
    assert forall|i: int| 0 <= i < 9 implies step_payload(step, request, result).get(
        #[trigger] keys[i],
    ) == Some(values[i]) by {
        lemma_with_first(keys, values, 9, i);
    }
    assert(keys[0] == "agent"@ && keys[1] == "run_status"@ && keys[2] == "run_created_at"@
        && keys[3] == "request"@ && keys[4] == "result"@);
    assert(keys[5] == "tool_name"@ && keys[6] == "tool_use_id"@ && keys[7] == "attempt"@ && keys[8]
        == "finished_at"@);
}

/// An array says what its items say, in their order.
pub proof fn arrays_say_what_their_items_say(items: Seq<JsonModel>, i: int)
    ensures
        item_words(items).len() == items.len(),
        0 <= i < items.len() ==> item_words(items)[i] == json_words(items[i]),
        json_words(JsonModel::Array(items)) == join(item_words(items), " "@),
    decreases items.len(),
{
    if items.len() > 0 {
        arrays_say_what_their_items_say(items.drop_last(), i);
    }
}

/// An object says each of its members that says anything, after its key, but for those that only
/// tell where a record comes from.
pub proof fn objects_say_their_telling_members(
    members: Seq<(Seq<char>, JsonModel)>,
    i: int,
) -> (k: int)
    requires
        0 <= i < members.len(),
        json_words(members[i].1).len() > 0,
        members[i].0 != "trace_id"@,
        members[i].0 != "span_id"@,
        members[i].0 != "parent_span_id"@,
        members[i].0 != "tenant_id"@,
        members[i].0 != "project_id"@,
        members[i].0 != "environment_id"@,
        members[i].0 != "schema_version"@,
        members[i].0 != "normalizer_version"@,
    ensures
        0 <= k < member_words(members).len(),
        member_words(members)[k] == members[i].0 + ": "@ + json_words(members[i].1),
        json_words(JsonModel::Object(members)) == join(member_words(members), " "@),
    decreases members.len(),
{
    let front = members.drop_last();
    if i < front.len() {
        assert(front[i] == members[i]);
        objects_say_their_telling_members(front, i)
    } else {
        member_words(front).len() as int
    }
}

/// Whatever an object says comes from one of its members, and none that only tells where a record
/// comes from is told.
pub proof fn objects_say_nothing_else(
    members: Seq<(Seq<char>, JsonModel)>,
    k: int,
) -> (i: int)
    requires
        0 <= k < member_words(members).len(),
    ensures
        0 <= i < members.len(),
        member_words(members)[k] == members[i].0 + ": "@ + json_words(members[i].1),
        json_words(members[i].1).len() > 0,
        members[i].0 != "trace_id"@,
        members[i].0 != "span_id"@,
        members[i].0 != "parent_span_id"@,
        members[i].0 != "tenant_id"@,
        members[i].0 != "project_id"@,
        members[i].0 != "environment_id"@,
        members[i].0 != "schema_version"@,
        members[i].0 != "normalizer_version"@,
    decreases members.len(),
{
    let front = members.drop_last();
    if k < member_words(front).len() {
        let i = objects_say_nothing_else(front, k);
        assert(front[i] == members[i]);
        i
    } else {
        members.len() - 1
    }
}

/// Texts and numbers say themselves, flags their names, and null nothing.
pub proof fn plain_values_say_themselves(value: JsonModel)
    ensures
        value matches JsonModel::Text(text) ==> json_words(value) == text,
        value matches JsonModel::Number(text, _, _) ==> json_words(value) == text,
        value matches JsonModel::Bool(flag) ==> json_words(value) == (if flag {
            "true"@
        } else {
            "false"@
        }),
        value is Null ==> json_words(value).len() == 0,
{
}

// ---------------------------------------------------------------------------
// Refusals
// ---------------------------------------------------------------------------
/// An import is refused for the first line that cannot be taken, counted from one and with blank
/// lines counted: the line cannot be read, is no record, or makes no valid event, or the ledger
/// is full. Every line before it could be taken.
pub proof fn refused_imports_name_their_line(
    store: StoreModel,
    lines: Seq<JsonlLine>,
    given: GivenScope,
    now: i64,
) -> (k: int)
    requires
        lines_imported(store, lines, given, now) is Err,
    ensures
        ({
            let error = lines_imported(store, lines, given, now)->Err_0;
            &&& 0 <= k < lines.len()
            &&& lines_imported(store, lines.take(k), given, now) is Ok
            &&& match lines[k].content {
                Err(words) => error == ErrorModel::InvalidInput(
                    "failed reading JSONL line "@ + decimal((k + 1) as nat) + ": "@ + words@,
                ),
                Ok(text) => !blank(text@) && match parsed_json(trim(text@)) {
                    Err(words) => error == ErrorModel::InvalidInput(
                        "invalid canonical JSONL line "@ + decimal((k + 1) as nat) + ": "@ + words,
                    ),
                    Ok(value) => {
                        let event = record_event(
                            value,
                            given.tenant_id,
                            given.project_id,
                            given.environment_id,
                            lines[k].readings,
                            now,
                        );
                        &&& event.problem() matches Some(problem) ==> error
                            == ErrorModel::InvalidInput(
                            "invalid canonical JSONL line "@ + decimal((k + 1) as nat) + ": "@
                                + ErrorModel::InvalidInput(problem).line(),
                        )
                        &&& event.problem() is None ==> lines_imported(
                            store,
                            lines.take(k),
                            given,
                            now,
                        )->Ok_0.store.last_event_id == i64::MAX
                    },
                },
            }
        }),
    decreases lines.len(),
{
    let front = lines.drop_last();
    if lines_imported(store, front, given, now) is Err {
        let k = refused_imports_name_their_line(store, front, given, now);
        assert(front[k] == lines[k]);
        assert(front.take(k) =~= lines.take(k));
        k
    } else {
        assert(lines.take(lines.len() - 1) =~= front);
        lines.len() - 1
    }
}

/// A journal step says what its request and result say; a step without a result has a null one,
/// and one whose request or result cannot be read is refused in words that name its run and
/// number and which of the two it was.
pub proof fn steps_are_read_from_both_sides(step: BeaterJsStep)
    ensures
        ({
            match parsed_json(step.request_json@) {
                Err(words) => step_values(step) == Err::<(JsonModel, JsonModel), Seq<char>>(
                    "invalid beater.js journal "@ + "request"@ + " JSON for run_id="@
                        + step.run_id@ + " seq="@ + decimal(step.seq as nat) + ": "@ + words,
                ),
                Ok(request) => match step.result_json {
                    None => step_values(step) == Ok::<(JsonModel, JsonModel), Seq<char>>(
                        (request, JsonModel::Null),
                    ),
                    Some(text) => match parsed_json(text@) {
                        Ok(result) => step_values(step) == Ok::<(JsonModel, JsonModel), Seq<char>>(
                            (request, result),
                        ),
                        Err(words) => step_values(step) == Err::<
                            (JsonModel, JsonModel),
                            Seq<char>,
                        >(
                            "invalid beater.js journal "@ + "result"@ + " JSON for run_id="@
                                + step.run_id@ + " seq="@ + decimal(step.seq as nat) + ": "@
                                + words,
                        ),
                    },
                },
            }
        }),
{
}

/// A step that neither reads nor writes memory is told in full: what its run was given, what was
/// asked and what came of it, in this order. It has the name of its tool, or that of its agent
/// and its kind.
pub proof fn other_steps_are_told_in_full(
    step: BeaterJsStep,
    request: JsonModel,
    result: JsonModel,
    tenant_id: Seq<char>,
    project_id: Seq<char>,
    environment_id: Option<Seq<char>>,
    now: i64,
)
    ensures
        ({
            let event = step_event(
                step,
                request,
                result,
                tenant_id,
                project_id,
                environment_id,
                now,
            );
            event.span_kind != "memory.write"@ && event.span_kind != "memory.read"@ ==> {
                &&& event.text == concise_form(
                    "run input: "@ + step.run_input@ + " request: "@ + json_words(request)
                        + " result: "@ + json_words(result),
                    2_400,
                )
                &&& step.tool_name matches Some(tool) ==> event.name == tool@
                &&& step.tool_name is None ==> event.name == step.agent@ + ":"@ + step.kind@
            }
        }),
        step.tool_use_id is None ==> step_event(
            step,
            request,
            result,
            tenant_id,
            project_id,
            environment_id,
            now,
        ).span_id == "step-"@ + decimal(step.seq as nat),
        step_event(
            step,
            request,
            result,
            tenant_id,
            project_id,
            environment_id,
            now,
        ).source == "beater.js.journal"@,
{
}

/// A tool call is a read or a write of memory where its tool is one by either name, and a plain
/// tool call otherwise.
pub proof fn memory_tools_are_told_by_name(tool: Seq<char>)
    ensures
        tool == "memory.read"@ || tool == "memory_read"@ ==> step_span_kind(
            "tool_call"@,
            Some(tool),
        ) == "memory.read"@,
        tool == "memory.write"@ || tool == "memory_write"@ ==> step_span_kind(
            "tool_call"@,
            Some(tool),
        ) == "memory.write"@,
        tool != "memory.read"@ && tool != "memory_read"@ && tool != "memory.write"@ && tool
            != "memory_write"@ ==> step_span_kind("tool_call"@, Some(tool)) == "tool.call"@,
        step_span_kind("tool_call"@, None) == "tool.call"@,
{
    reveal_strlit("tool_call");
    reveal_strlit("llm_call");
    reveal_strlit("memory.read");
    reveal_strlit("memory_read");
    reveal_strlit("memory.write");
    reveal_strlit("memory_write");
    assert("tool_call"@.len() == 9);
    assert("llm_call"@.len() == 8);
    assert("memory.read"@.len() == 11);
    assert("memory_read"@.len() == 11);
    assert("memory.write"@.len() == 12);
    assert("memory_write"@.len() == 12);
}

/// A record that is no write or read of memory says all it says; one that writes or reads and
/// says nothing of a memory does too.
pub proof fn other_records_are_told_in_full(
    value: JsonModel,
    given: GivenScope,
    readings: TimeReadings,
    now: i64,
)
    ensures
        ({
            let event = record_event(
                value,
                given.tenant_id,
                given.project_id,
                given.environment_id,
                readings,
                now,
            );
            let read = read_words(value.at("input"@), value.at("output"@));
            &&& event.span_kind != "memory.write"@ && event.span_kind != "memory.read"@
                ==> event.text == concise_form(json_words(value), 2_400)
            &&& event.span_kind == "memory.write"@ && written_words(value) is None ==> event.text
                == concise_form(json_words(value), 2_400)
            &&& event.span_kind == "memory.read"@ ==> event.text == (if read is Some {
                concise_form(read->0, 2_400)
            } else {
                concise_form(json_words(value), 2_400)
            })
        }),
{
    lemma_reads_are_no_writes();
}

/// A time field is read as what it is: a whole number as such, any other number by its reading,
/// and a text by the date that it writes before its reading. Nothing else holds a time.
pub proof fn time_fields_are_read_as_what_they_are(
    value: JsonModel,
    dated: Option<i64>,
    reading: Option<i64>,
)
    ensures
        value.as_int() matches Some(number) ==> time_of_value(value, dated, reading) == Some(
            whole_time(number),
        ),
        value is Number && value.as_int() is None ==> time_of_value(value, dated, reading)
            == reading,
        value.as_words() is Some && dated is Some ==> time_of_value(value, dated, reading) == dated,
        value.as_words() is Some && dated is None ==> time_of_value(value, dated, reading)
            == reading,
        value is Null || value is Bool || value is Array || value is Object ==> time_of_value(
            value,
            dated,
            reading,
        ) is None,
{
}

} // verus!
