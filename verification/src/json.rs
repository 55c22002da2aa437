//! JSON values as the library reads them.
use vstd::prelude::*;

use crate::chars::{
    is_text_less, join, join_texts, lemma_text_less_irreflexive, lemma_text_less_total, opt_text,
    same_text, text_less, texts, trim, trimmed,
};

verus! {

/// A JSON number: its numeral, and the integers that it stands for where it is one.
#[derive(Debug, PartialEq, Eq)]
pub struct JsonNumber {
    pub text: String,
    pub signed: Option<i64>,
    pub unsigned: Option<u64>,
}

/// One member of a JSON object.
#[derive(Debug, PartialEq, Eq)]
pub struct JsonMember {
    pub key: String,
    pub value: JsonValue,
}

/// A JSON value. The members of an object stand in the order of their keys.
#[derive(Debug, PartialEq, Eq)]
pub enum JsonValue {
    Null,
    Bool(bool),
    Number(JsonNumber),
    Text(String),
    Array(Vec<JsonValue>),
    Object(Vec<JsonMember>),
}

/// What a JSON value says.
pub enum JsonModel {
    Null,
    Bool(bool),
    Number(Seq<char>, Option<i64>, Option<u64>),
    Text(Seq<char>),
    Array(Seq<JsonModel>),
    Object(Seq<(Seq<char>, JsonModel)>),
}

pub open spec fn json_model(value: JsonValue) -> JsonModel
    decreases value,
{
    match value {
        JsonValue::Null => JsonModel::Null,
        JsonValue::Bool(flag) => JsonModel::Bool(flag),
        JsonValue::Number(number) => JsonModel::Number(number.text@, number.signed, number.unsigned),
        JsonValue::Text(text) => JsonModel::Text(text@),
        JsonValue::Array(items) => JsonModel::Array(
            Seq::new(
                items@.len(),
                |i: int|
                    if 0 <= i < items.len() {
                        json_model(items[i])
                    } else {
                        JsonModel::Null
                    },
            ),
        ),
        JsonValue::Object(members) => JsonModel::Object(
            Seq::new(
                members@.len(),
                |i: int|
                    if 0 <= i < members.len() {
                        (members[i].key@, json_model(members[i].value))
                    } else {
                        (Seq::empty(), JsonModel::Null)
                    },
            ),
        ),
    }
}

impl View for JsonValue {
    type V = JsonModel;

    open spec fn view(&self) -> JsonModel {
        json_model(*self)
    }
}

// ---------------------------------------------------------------------------
// Reading
// ---------------------------------------------------------------------------
/// What `serde_json` reads from a text: the value it stands for, or the error in words.
pub uninterp spec fn parsed_json(text: Seq<char>) -> Result<JsonModel, Seq<char>>;

/// `serde_json::Value`, the outside type that a text is first read into.
#[verifier::external_type_specification]
#[verifier::external_body]
pub struct ExSerdeValue(serde_json::Value);

/// What a `serde_json::Value` holds.
pub uninterp spec fn held_json(value: serde_json::Value) -> JsonModel;

/// The outermost layer of a `serde_json::Value`.
pub enum ValueParts {
    Null,
    Bool(bool),
    Number(JsonNumber),
    Text(String),
    Array(Vec<serde_json::Value>),
    Object(Vec<(String, serde_json::Value)>),
}

/// What the outermost layer of a value holds with what lies under it.
pub open spec fn parts_model(parts: ValueParts) -> JsonModel {
    match parts {
        ValueParts::Null => JsonModel::Null,
        ValueParts::Bool(flag) => JsonModel::Bool(flag),
        ValueParts::Number(number) => JsonModel::Number(
            number.text@,
            number.signed,
            number.unsigned,
        ),
        ValueParts::Text(text) => JsonModel::Text(text@),
        ValueParts::Array(items) => JsonModel::Array(
            Seq::new(items@.len(), |i: int| held_json(items@[i])),
        ),
        ValueParts::Object(members) => JsonModel::Object(
            Seq::new(members@.len(), |i: int| (members@[i].0@, held_json(members@[i].1))),
        ),
    }
}

/// Reads a text with `serde_json::from_str`. What comes back, the value or the error in words,
/// depends on the text alone.
#[verifier::external_body]
fn read_value(text: &str) -> (r: Result<serde_json::Value, String>)
    ensures
        match (r, parsed_json(text@)) {
            (Ok(value), Ok(model)) => held_json(value) == model,
            (Err(message), Err(words)) => message@ == words,
            _ => false,
        },
{
    serde_json::from_str::<serde_json::Value>(text).map_err(|error| error.to_string())
}

/// Takes the outermost layer off a `serde_json::Value`: its variant, with the items of an array
/// and the members of an object in the order in which the value lists them, and of a number the
/// numeral that `to_string` writes and what `as_i64` and `as_u64` say. The contract claims that
/// the layer and what lies under it make up what the value holds.
#[verifier::external_body]
fn take_apart(value: serde_json::Value) -> (r: ValueParts)
    ensures
        parts_model(r) == held_json(value),
{
    match value {
        serde_json::Value::Null => ValueParts::Null,
        serde_json::Value::Bool(flag) => ValueParts::Bool(flag),
        serde_json::Value::Number(n) => ValueParts::Number(
            JsonNumber { text: n.to_string(), signed: n.as_i64(), unsigned: n.as_u64() },
        ),
        serde_json::Value::String(text) => ValueParts::Text(text),
        serde_json::Value::Array(items) => ValueParts::Array(items),
        serde_json::Value::Object(members) => ValueParts::Object(members.into_iter().collect()),
    }
}

/// The items of a list in reverse, so that the first can be taken from the end.
fn turned<T>(items: Vec<T>) -> (r: Vec<T>)
    ensures
        r@ == items@.reverse(),
{
    let ghost all = items@;
    let mut rest = items;
    let mut out: Vec<T> = Vec::new();
    while rest.len() > 0
        invariant
            rest@.len() + out@.len() == all.len(),
            rest@ == all.take(rest@.len() as int),
            forall|i: int| 0 <= i < out@.len() ==> out@[i] == all[all.len() - 1 - i],
        decreases rest.len(),
    {
        let ghost before = rest@;
        match rest.pop() {
            Some(item) => {
                out.push(item);
                proof {
                    assert(rest@ =~= all.take(rest@.len() as int));
                }
            },
            None => {},
        }
    }
    proof {
        assert(out@ =~= all.reverse());
    }
    out
}

/// The library's value for a `serde_json::Value`.
fn plain_json(value: serde_json::Value) -> (r: JsonValue)
    ensures
        r@ == held_json(value),
    decreases held_json(value),
{
    let ghost whole = held_json(value);
    match take_apart(value) {
        ValueParts::Null => JsonValue::Null,
        ValueParts::Bool(flag) => JsonValue::Bool(flag),
        ValueParts::Number(number) => JsonValue::Number(number),
        ValueParts::Text(text) => JsonValue::Text(text),
        ValueParts::Array(items) => {
            let ghost all = items@;
            let mut waiting = turned(items);
            let mut out: Vec<JsonValue> = Vec::new();
            while waiting.len() > 0
                invariant
                    whole == held_json(value),
                    whole == JsonModel::Array(Seq::new(all.len(), |i: int| held_json(all[i]))),
                    waiting@.len() + out@.len() == all.len(),
                    waiting@ == all.skip(out@.len() as int).reverse(),
                    forall|i: int|
                        0 <= i < out@.len() ==> (#[trigger] out@[i])@ == held_json(all[i]),
                decreases waiting.len(),
            {
                let ghost at = out@.len() as int;
                match waiting.pop() {
                    Some(item) => {
                        proof {
                            assert(item == all[at]);
                            assert(waiting@ =~= all.skip(at + 1).reverse());
                            assert(decreases_to!(whole => whole->Array_0));
                            assert(decreases_to!(whole->Array_0 => whole->Array_0[at]));
                            assert(whole->Array_0[at] == held_json(item));
                        }
                        out.push(plain_json(item));
                    },
                    None => {},
                }
            }
            let r = JsonValue::Array(out);
            proof {
                assert(r@->Array_0 =~= whole->Array_0);
            }
            r
        },
        ValueParts::Object(members) => {
            let ghost all = members@;
            let mut waiting = turned(members);
            let mut out: Vec<JsonMember> = Vec::new();
            while waiting.len() > 0
                invariant
                    whole == held_json(value),
                    whole == JsonModel::Object(
                        Seq::new(all.len(), |i: int| (all[i].0@, held_json(all[i].1))),
                    ),
                    waiting@.len() + out@.len() == all.len(),
                    waiting@ == all.skip(out@.len() as int).reverse(),
                    forall|i: int|
                        0 <= i < out@.len() ==> (#[trigger] out@[i]).key@ == all[i].0@
                            && out@[i].value@ == held_json(all[i].1),
                decreases waiting.len(),
            {
                let ghost at = out@.len() as int;
                match waiting.pop() {
                    Some((key, item)) => {
                        proof {
                            assert((key, item) == all[at]);
                            assert(waiting@ =~= all.skip(at + 1).reverse());
                            assert(decreases_to!(whole => whole->Object_0));
                            assert(decreases_to!(whole->Object_0 => whole->Object_0[at]));
                            assert(decreases_to!(whole->Object_0[at] => whole->Object_0[at].1));
                            assert(whole->Object_0[at].1 == held_json(item));
                        }
                        let value = plain_json(item);
                        out.push(JsonMember { key, value });
                    },
                    None => {},
                }
            }
            let r = JsonValue::Object(out);
            proof {
                assert(r@->Object_0 =~= whole->Object_0);
            }
            r
        },
    }
}

/// Reads a text as JSON: the value it stands for, or the error in words.
pub fn parse_json(text: &str) -> (r: Result<JsonValue, String>)
    ensures
        match (r, parsed_json(text@)) {
            (Ok(value), Ok(model)) => value@ == model,
            (Err(message), Err(words)) => message@ == words,
            _ => false,
        },
{
    match read_value(text) {
        Ok(value) => Ok(plain_json(value)),
        Err(message) => Err(message),
    }
}

// ---------------------------------------------------------------------------
// Copies
// ---------------------------------------------------------------------------
impl Clone for JsonValue {
    fn clone(&self) -> (r: Self)
        ensures
            r@ == self@,
        decreases self,
    {
        match self {
            JsonValue::Null => JsonValue::Null,
            JsonValue::Bool(flag) => JsonValue::Bool(*flag),
            JsonValue::Number(number) => JsonValue::Number(
                JsonNumber { text: number.text.clone(), signed: number.signed, unsigned: number.unsigned },
            ),
            JsonValue::Text(text) => JsonValue::Text(text.clone()),
            JsonValue::Array(items) => {
                let mut out: Vec<JsonValue> = Vec::new();
                let mut i: usize = 0;
                while i < items.len()
                    invariant
                        *self == JsonValue::Array(*items),
                        i <= items@.len(),
                        out@.len() == i,
                        forall|k: int| 0 <= k < i ==> (#[trigger] out@[k])@ == json_model(items[k]),
                    decreases items.len() - i,
                {
                    proof {
                        assert(decreases_to!(*items => items[i as int]));
                    }
                    proof {
                        assert(decreases_to!(*self => self->Array_0));
                    }
                    let item = items[i].clone();
                    out.push(item);
                    i += 1;
                }
                let r = JsonValue::Array(out);
                proof {
                    assert(r@->Array_0 =~= self@->Array_0);
                }
                r
            },
            JsonValue::Object(members) => {
                let mut out: Vec<JsonMember> = Vec::new();
                let mut i: usize = 0;
                while i < members.len()
                    invariant
                        *self == JsonValue::Object(*members),
                        i <= members@.len(),
                        out@.len() == i,
                        forall|k: int|
                            0 <= k < i ==> (#[trigger] out@[k]).key@ == members[k].key@
                                && out@[k].value@ == json_model(members[k].value),
                    decreases members.len() - i,
                {
                    proof {
                        assert(decreases_to!(*members => members[i as int]));
                    }
                    proof {
                        assert(decreases_to!(*self => self->Object_0));
                        assert(decreases_to!(members[i as int] => members[i as int].value));
                    }
                    let value = members[i].value.clone();
                    out.push(JsonMember { key: members[i].key.clone(), value });
                    i += 1;
                }
                let r = JsonValue::Object(out);
                proof {
                    assert(r@->Object_0 =~= self@->Object_0);
                }
                r
            },
        }
    }
}

// ---------------------------------------------------------------------------
// Lookup
// ---------------------------------------------------------------------------
/// The value of the first member with the key.
pub open spec fn find_member(members: Seq<(Seq<char>, JsonModel)>, key: Seq<char>) -> Option<
    JsonModel,
>
    decreases members.len(),
{
    if members.len() == 0 {
        None
    } else if find_member(members.drop_last(), key) is Some {
        find_member(members.drop_last(), key)
    } else if members.last().0 == key {
        Some(members.last().1)
    } else {
        None
    }
}

impl JsonModel {
    /// The value under a key, where the value is an object that has it.
    pub open spec fn get(self, key: Seq<char>) -> Option<JsonModel> {
        match self {
            JsonModel::Object(members) => find_member(members, key),
            _ => None,
        }
    }

    /// The value under a key, or null.
    pub open spec fn at(self, key: Seq<char>) -> JsonModel {
        match self.get(key) {
            Some(value) => value,
            None => JsonModel::Null,
        }
    }

    /// The text of a string value.
    pub open spec fn as_text(self) -> Option<Seq<char>> {
        match self {
            JsonModel::Text(text) => Some(text),
            _ => None,
        }
    }

    /// The text of a string value without the white space round it, where something is left.
    pub open spec fn as_words(self) -> Option<Seq<char>> {
        match self {
            JsonModel::Text(text) => if trim(text).len() > 0 {
                Some(trim(text))
            } else {
                None
            },
            _ => None,
        }
    }

    pub open spec fn as_int(self) -> Option<i64> {
        match self {
            JsonModel::Number(_, whole, _) => whole,
            _ => None,
        }
    }

    pub open spec fn as_uint(self) -> Option<u64> {
        match self {
            JsonModel::Number(_, _, whole) => whole,
            _ => None,
        }
    }
}

impl JsonValue {
    /// The value under a key, where the value is an object that has it.
    pub fn get(&self, key: &str) -> (r: Option<&JsonValue>)
        ensures
            match (r, self@.get(key@)) {
                (Some(value), Some(model)) => value@ == model,
                (None, None) => true,
                _ => false,
            },
    {
        match self {
            JsonValue::Object(members) => {
                let ghost all = self@->Object_0;
                let mut i: usize = 0;
                proof {
                    assert(all.take(0) =~= Seq::empty());
                }
                while i < members.len()
                    invariant
                        i <= members@.len(),
                        *self == JsonValue::Object(*members),
                        all == self@->Object_0,
                        all.len() == members@.len(),
                        find_member(all.take(i as int), key@) is None,
                    decreases members.len() - i,
                {
                    proof {
                        assert(all.take(i as int + 1).drop_last() =~= all.take(i as int));
                        assert(all.take(i as int + 1).last() == all[i as int]);
                        assert(all[i as int] == (members[i as int].key@, json_model(
                            members[i as int].value,
                        )));
                    }
                    if same_text(members[i].key.as_str(), key) {
                        proof {
                            lemma_find_member_prefix(all, key@, i as int + 1);
                        }
                        return Some(&members[i].value);
                    }
                    i += 1;
                }
                proof {
                    assert(all.take(i as int) =~= all);
                }
                None
            },
            _ => None,
        }
    }

    /// The text of a string value.
    pub fn as_text(&self) -> (r: Option<String>)
        ensures
            opt_text(r) == self@.as_text(),
    {
        match self {
            JsonValue::Text(text) => Some(text.clone()),
            _ => None,
        }
    }

    /// The text of a string value without the white space round it, where something is left.
    pub fn as_words(&self) -> (r: Option<String>)
        ensures
            opt_text(r) == self@.as_words(),
    {
        match self {
            JsonValue::Text(text) => {
                let words = trimmed(text.as_str());
                if words.as_str().is_empty() {
                    None
                } else {
                    Some(words)
                }
            },
            _ => None,
        }
    }

    pub fn as_int(&self) -> (r: Option<i64>)
        ensures
            r == self@.as_int(),
    {
        match self {
            JsonValue::Number(number) => number.signed,
            _ => None,
        }
    }

    pub fn as_uint(&self) -> (r: Option<u64>)
        ensures
            r == self@.as_uint(),
    {
        match self {
            JsonValue::Number(number) => number.unsigned,
            _ => None,
        }
    }
}

proof fn lemma_find_member_prefix(members: Seq<(Seq<char>, JsonModel)>, key: Seq<char>, k: int)
    requires
        0 <= k <= members.len(),
        find_member(members.take(k), key) is Some,
    ensures
        find_member(members, key) == find_member(members.take(k), key),
    decreases members.len(),
{
    if k < members.len() {
        assert(members.drop_last().take(k) =~= members.take(k));
        lemma_find_member_prefix(members.drop_last(), key, k);
    } else {
        assert(members.take(k) =~= members);
    }
}

// ---------------------------------------------------------------------------
// Members
// ---------------------------------------------------------------------------
/// The members of an object with one set: in place of the member with its key, or where its
/// key belongs.
pub open spec fn set_member(
    members: Seq<(Seq<char>, JsonModel)>,
    key: Seq<char>,
    value: JsonModel,
) -> Seq<(Seq<char>, JsonModel)>
    decreases members.len(),
{
    if members.len() == 0 {
        seq![(key, value)]
    } else if key == members.last().0 {
        members.drop_last().push((key, value))
    } else if text_less(key, members.last().0) {
        set_member(members.drop_last(), key, value).push(members.last())
    } else {
        members.push((key, value))
    }
}

impl JsonModel {
    /// An object with a member set; any other value as it is.
    pub open spec fn with_member(self, key: Seq<char>, value: JsonModel) -> JsonModel {
        match self {
            JsonModel::Object(members) => JsonModel::Object(set_member(members, key, value)),
            _ => self,
        }
    }
}

/// A member that was set is read back.
pub proof fn set_members_read_back(
    members: Seq<(Seq<char>, JsonModel)>,
    key: Seq<char>,
    value: JsonModel,
)
    requires
        forall|i: int, j: int|
            0 <= i < j < members.len() ==> text_less(
                (#[trigger] members[i]).0,
                (#[trigger] members[j]).0,
            ),
    ensures
        JsonModel::Object(members).with_member(key, value).get(key) == Some(value),
    decreases members.len(),
{
    let out = set_member(members, key, value);
    if members.len() == 0 {
        assert(out.drop_last() =~= Seq::empty());
    } else {
        let front = members.drop_last();
        assert forall|i: int, j: int| 0 <= i < j < front.len() implies text_less(
            (#[trigger] front[i]).0,
            (#[trigger] front[j]).0,
        ) by {
            assert(front[i] == members[i] && front[j] == members[j]);
        }
        if key == members.last().0 {
            assert(out.drop_last() =~= front);
            assert forall|i: int| 0 <= i < front.len() implies (#[trigger] front[i]).0 != key by {
                assert(front[i] == members[i]);
                assert(text_less(members[i].0, members[members.len() - 1].0));
                lemma_text_less_irreflexive(key);
            }
            lemma_find_member_absent(front, key);
        } else if text_less(key, members.last().0) {
            set_members_read_back(front, key, value);
            assert(out.drop_last() =~= set_member(front, key, value));
        } else {
            assert(out.drop_last() =~= members);
            lemma_text_less_total(key, members.last().0);
            assert forall|i: int| 0 <= i < members.len() implies (#[trigger] members[i]).0
                != key by {
                if members[i].0 == key && i < members.len() - 1 {
                    assert(text_less(members[i].0, members[members.len() - 1].0));
                }
            }
            lemma_find_member_absent(members, key);
        }
    }
}

proof fn lemma_find_member_absent(members: Seq<(Seq<char>, JsonModel)>, key: Seq<char>)
    requires
        forall|i: int| 0 <= i < members.len() ==> (#[trigger] members[i]).0 != key,
    ensures
        find_member(members, key) is None,
    decreases members.len(),
{
    if members.len() > 0 {
        let front = members.drop_last();
        assert forall|i: int| 0 <= i < front.len() implies (#[trigger] front[i]).0 != key by {
            assert(front[i] == members[i]);
        }
        lemma_find_member_absent(front, key);
        assert(members[members.len() - 1].0 != key);
    }
}

/// The members of an object, as their model lists them.
pub open spec fn member_models(members: Seq<JsonMember>) -> Seq<(Seq<char>, JsonModel)> {
    Seq::new(members.len(), |i: int| (members[i].key@, members[i].value@))
}

fn put_member(members: &mut Vec<JsonMember>, key: String, value: JsonValue)
    ensures
        member_models(final(members)@) == set_member(member_models(old(members)@), key@, value@),
{
    let mut at: usize = members.len();
    let ghost rows = member_models(members@);
    let ghost k = key@;
    let ghost v = value@;
    proof {
        assert(rows.take(rows.len() as int) =~= rows);
        assert(set_member(rows, k, v) =~= set_member(rows.take(at as int), k, v) + rows.skip(
            at as int,
        ));
    }
    while at > 0 && is_text_less(key.as_str(), members[at - 1].key.as_str())
        invariant
            at <= members@.len(),
            members@ == old(members)@,
            rows == member_models(members@),
            k == key@,
            v == value@,
            set_member(rows, k, v) == set_member(rows.take(at as int), k, v) + rows.skip(at as int),
        decreases at,
    {
        proof {
            let head = rows.take(at as int);
            lemma_text_less_irreflexive(k);
            assert(head.last() == rows[at as int - 1]);
            assert(head.drop_last() =~= rows.take(at as int - 1));
            assert(set_member(head, k, v) + rows.skip(at as int) =~= set_member(
                rows.take(at as int - 1),
                k,
                v,
            ) + rows.skip(at as int - 1));
        }
        at -= 1;
    }
    if at > 0 && same_text(key.as_str(), members[at - 1].key.as_str()) {
        let member = JsonMember { key, value };
        members.set(at - 1, member);
        proof {
            let head = rows.take(at as int);
            assert(head.last() == rows[at as int - 1]);
            assert(member_models(members@) =~= head.drop_last().push((k, v)) + rows.skip(
                at as int,
            ));
        }
        return ;
    }
    proof {
        let head = rows.take(at as int);
        if at > 0 {
            assert(head.last() == rows[at as int - 1]);
        } else {
            assert(seq![(k, v)] =~= head.push((k, v)));
        }
        assert(set_member(head, k, v) == head.push((k, v)));
    }
    let member = JsonMember { key, value };
    members.insert(at, member);
    proof {
        assert(member_models(members@) =~= rows.take(at as int).push((k, v)) + rows.skip(
            at as int,
        ));
    }
}

impl JsonValue {
    /// Sets a member of an object; leaves any other value as it is.
    pub fn set(&mut self, key: &str, value: JsonValue)
        ensures
            final(self)@ == old(self)@.with_member(key@, value@),
    {
        match self {
            JsonValue::Object(members) => {
                let ghost start = members@;
                put_member(members, key.to_owned(), value);
                proof {
                    assert(old(self)@->Object_0 =~= member_models(start));
                    assert(json_model(JsonValue::Object(*members))->Object_0 =~= member_models(
                        members@,
                    ));
                }
            },
            _ => {},
        }
    }

    /// An object with one member.
    pub fn object_of(key: &str, value: JsonValue) -> (r: JsonValue)
        ensures
            r@ == JsonModel::Object(seq![(key@, value@)]),
    {
        let ghost v = value@;
        let mut members: Vec<JsonMember> = Vec::new();
        members.push(JsonMember { key: key.to_owned(), value });
        let r = JsonValue::Object(members);
        proof {
            assert(r@->Object_0 =~= seq![(key@, v)]);
        }
        r
    }
}

// ---------------------------------------------------------------------------
// Text
// ---------------------------------------------------------------------------
/// A key that names where a record comes from and not what it says.
pub open spec fn bookkeeping_key(key: Seq<char>) -> bool {
    ||| key == "trace_id"@
    ||| key == "span_id"@
    ||| key == "parent_span_id"@
    ||| key == "tenant_id"@
    ||| key == "project_id"@
    ||| key == "environment_id"@
    ||| key == "schema_version"@
    ||| key == "normalizer_version"@
}

fn is_bookkeeping_key(key: &str) -> (r: bool)
    ensures
        r == bookkeeping_key(key@),
{
    same_text(key, "trace_id") || same_text(key, "span_id") || same_text(key, "parent_span_id")
        || same_text(key, "tenant_id") || same_text(key, "project_id") || same_text(
        key,
        "environment_id",
    ) || same_text(key, "schema_version") || same_text(key, "normalizer_version")
}

/// What a JSON value says in words: its texts, numbers and flags, members with their keys.
pub open spec fn json_words(value: JsonModel) -> Seq<char>
    decreases value,
{
    match value {
        JsonModel::Null => Seq::empty(),
        JsonModel::Bool(flag) => if flag {
            "true"@
        } else {
            "false"@
        },
        JsonModel::Number(text, _, _) => text,
        JsonModel::Text(text) => text,
        JsonModel::Array(items) => join(item_words(items), " "@),
        JsonModel::Object(members) => join(member_words(members), " "@),
    }
}

/// What the items of an array say.
pub open spec fn item_words(items: Seq<JsonModel>) -> Seq<Seq<char>>
    decreases items,
{
    if items.len() == 0 {
        Seq::empty()
    } else {
        item_words(items.drop_last()).push(json_words(items[items.len() - 1]))
    }
}

/// What the members of an object say, leaving out bookkeeping and what says nothing.
pub open spec fn member_words(members: Seq<(Seq<char>, JsonModel)>) -> Seq<Seq<char>>
    decreases members,
{
    if members.len() == 0 {
        Seq::empty()
    } else {
        let front = member_words(members.drop_last());
        let (key, value) = members[members.len() - 1];
        if bookkeeping_key(key) || json_words(value).len() == 0 {
            front
        } else {
            front.push(key + ": "@ + json_words(value))
        }
    }
}

/// What a JSON value says in words.
pub fn json_text(value: &JsonValue) -> (r: String)
    ensures
        r@ == json_words(value@),
    decreases value,
{
    match value {
        JsonValue::Null => {
            let out = String::new();
            proof {
                assert(value@ == JsonModel::Null);
                assert(out@ =~= Seq::empty());
            }
            out
        },
        JsonValue::Bool(flag) => if *flag {
            "true".to_owned()
        } else {
            "false".to_owned()
        },
        JsonValue::Number(number) => number.text.clone(),
        JsonValue::Text(text) => text.clone(),
        JsonValue::Array(items) => {
            let mut pieces: Vec<String> = Vec::new();
            let ghost all = value@->Array_0;
            let mut i: usize = 0;
            proof {
                assert(all.take(0) =~= Seq::empty());
                assert(texts(pieces@) =~= Seq::empty());
            }
            while i < items.len()
                invariant
                    *value == JsonValue::Array(*items),
                    all == value@->Array_0,
                    all.len() == items@.len(),
                    i <= items@.len(),
                    texts(pieces@) == item_words(all.take(i as int)),
                decreases items.len() - i,
            {
                proof {
                    assert(decreases_to!(*items => items[i as int]));
                    assert(decreases_to!(*value => value->Array_0));
                    assert(all.take(i as int + 1).drop_last() =~= all.take(i as int));
                    assert(all[i as int] == json_model(items[i as int]));
                }
                let ghost before = texts(pieces@);
                let piece = json_text(&items[i]);
                let ghost added = piece@;
                pieces.push(piece);
                proof {
                    assert(texts(pieces@) =~= before.push(added));
                }
                i += 1;
            }
            proof {
                assert(all.take(i as int) =~= all);
            }
            join_texts(&pieces, " ")
        },
        JsonValue::Object(members) => {
            let mut pieces: Vec<String> = Vec::new();
            let ghost all = value@->Object_0;
            let mut i: usize = 0;
            proof {
                assert(all.take(0) =~= Seq::empty());
                assert(texts(pieces@) =~= Seq::empty());
            }
            while i < members.len()
                invariant
                    *value == JsonValue::Object(*members),
                    all == value@->Object_0,
                    all.len() == members@.len(),
                    i <= members@.len(),
                    texts(pieces@) == member_words(all.take(i as int)),
                decreases members.len() - i,
            {
                proof {
                    assert(all.take(i as int + 1).drop_last() =~= all.take(i as int));
                    assert(all[i as int] == (members[i as int].key@, json_model(
                        members[i as int].value,
                    )));
                }
                if !is_bookkeeping_key(members[i].key.as_str()) {
                    proof {
                        assert(decreases_to!(*members => members[i as int]));
                    }
                    let text = json_text(&members[i].value);
                    if !text.as_str().is_empty() {
                        let ghost before = texts(pieces@);
                        let mut piece = members[i].key.clone();
                        piece.append(": ");
                        piece.append(text.as_str());
                        let ghost added = piece@;
                        pieces.push(piece);
                        proof {
                            assert(texts(pieces@) =~= before.push(added));
                        }
                    }
                }
                i += 1;
            }
            proof {
                assert(all.take(i as int) =~= all);
            }
            join_texts(&pieces, " ")
        },
    }
}

} // verus!
