//! The line back to the node: one completion from its side model.
//!
//! The process holds no provider key and does not reach out on its own. It asks the
//! node, over a loopback callback, to run a prompt, and the node decides whether it
//! may. Everything else works with no host at all.

use crate::gate::{parse_port, port_named, text_view};
use crate::model::opt_view;
use crate::text::{numeral, push_numeral, same_text, trim, trimmed};
use vstd::prelude::*;
use vstd::string::*;

verus! {

/// A JSON value, as far as a reply is read.
#[derive(Debug)]
pub enum Json {
    Null,
    Bool(bool),
    /// A number. Nothing reads which.
    Number,
    Text(String),
    List(Vec<Json>),
    Object(Vec<(String, Json)>),
}

/// The place of the field named `key`, where there is one.
pub open spec fn field_at(fields: Seq<(String, Json)>, key: Seq<char>) -> Option<int>
    decreases fields.len(),
{
    if fields.len() == 0 {
        None
    } else {
        match field_at(fields.drop_last(), key) {
            Some(i) => Some(i),
            None => if fields.last().0@ == key {
                Some(fields.len() - 1)
            } else {
                None
            },
        }
    }
}

/// Finds the field named `key`.
fn find_field(fields: &Vec<(String, Json)>, key: &str) -> (r: Option<usize>)
    ensures
        match r {
            Some(i) => i < fields.len() && field_at(fields@, key@) == Some(i as int),
            None => field_at(fields@, key@) is None,
        },
{
    let mut i: usize = 0;
    while i < fields.len()
        invariant
            i <= fields.len(),
            field_at(fields@.take(i as int), key@) is None,
        decreases fields.len() - i,
    {
        assert(fields@.take(i + 1).drop_last() =~= fields@.take(i as int));
        if same_text(fields[i].0.as_str(), key) {
            proof {
                found_stays_found(fields@, i + 1, key@);
            }
            return Some(i);
        }
        i = i + 1;
    }
    assert(fields@.take(i as int) =~= fields@);
    None
}

/// What the first fields hold, all of them hold.
proof fn found_stays_found(fields: Seq<(String, Json)>, n: int, key: Seq<char>)
    requires
        0 <= n <= fields.len(),
        field_at(fields.take(n), key) is Some,
    ensures
        field_at(fields, key) == field_at(fields.take(n), key),
    decreases fields.len(),
{
    if n == fields.len() {
        assert(fields.take(n) =~= fields);
    } else {
        assert(fields.drop_last().take(n) =~= fields.take(n));
        found_stays_found(fields.drop_last(), n, key);
    }
}

/// The field that holds a result's text: `text`, or else `content`, or else `output`.
pub open spec fn text_field(fields: Seq<(String, Json)>) -> Option<int> {
    match field_at(fields, "text"@) {
        Some(i) => Some(i),
        None => match field_at(fields, "content"@) {
            Some(i) => Some(i),
            None => field_at(fields, "output"@),
        },
    }
}

/// The text of a result: a bare text, the text of an object's text field, or the
/// texts of a list's elements, one after the other.
pub open spec fn rendered(value: Json) -> Seq<char>
    decreases value,
{
    match value {
        Json::Text(s) => s@,
        Json::Object(fields) => match text_field(fields@) {
            Some(i) => if 0 <= i < fields@.len() {
                rendered(fields@[i].1)
            } else {
                seq![]
            },
            None => seq![],
        },
        Json::List(items) => rendered_all(items@),
        _ => seq![],
    }
}

/// The texts of several results, one after the other.
pub open spec fn rendered_all(items: Seq<Json>) -> Seq<char>
    decreases items,
{
    if items.len() == 0 {
        seq![]
    } else {
        rendered_all(items.drop_last()) + rendered(items.last())
    }
}

/// The text of a result. Providers answer with a bare text or with an object around
/// it; both are taken.
pub fn render_result(value: &Json) -> (r: String)
    ensures
        r@ == rendered(*value),
    decreases value,
{
    match value {
        Json::Text(s) => s.clone(),
        Json::Object(fields) => {
            let text: Option<usize> = find_field(fields, "text");
            let content: Option<usize> = find_field(fields, "content");
            let output: Option<usize> = find_field(fields, "output");
            let at: Option<usize> = match (text, content) {
                (Some(i), _) => Some(i),
                (None, Some(i)) => Some(i),
                (None, None) => output,
            };
            match at {
                Some(i) => render_result(&fields[i].1),
                None => String::new(),
            }
        },
        Json::List(items) => {
            let mut out: String = String::new();
            let mut i: usize = 0;
            assert(items@.take(0) =~= seq![]);
            while i < items.len()
                invariant
                    *value == Json::List(*items),
                    i <= items.len(),
                    out@ == rendered_all(items@.take(i as int)),
                decreases items.len() - i,
            {
                assert(decreases_to!(*value => value->List_0));
                assert(decreases_to!(*items => items@[i as int]));
                let part: String = render_result(&items[i]);
                assert(items@.take(i + 1).drop_last() =~= items@.take(i as int));
                out.append(part.as_str());
                i = i + 1;
            }
            assert(items@.take(i as int) =~= items@);
            out
        },
        _ => String::new(),
    }
}

/// The field of a value that is an object, where it has one.
pub open spec fn member(value: Json, key: Seq<char>) -> Option<Json> {
    match value {
        Json::Object(fields) => match field_at(fields@, key) {
            Some(i) => Some(fields@[i].1),
            None => None,
        },
        _ => None,
    }
}

/// The field of a value that is an object, where it has one.
fn get<'a>(value: &'a Json, key: &str) -> (r: Option<&'a Json>)
    ensures
        match r {
            Some(v) => member(*value, key@) == Some(*v),
            None => member(*value, key@) is None,
        },
{
    match value {
        Json::Object(fields) => match find_field(fields, key) {
            Some(i) => Some(&fields[i].1),
            None => None,
        },
        _ => None,
    }
}

/// The reason phrase that goes with an HTTP status code, where there is one.
pub uninterp spec fn reason_phrase(code: u16) -> Option<Seq<char>>;

/// Calls `reqwest::StatusCode::canonical_reason`: the reason phrase of a status code.
/// Which phrase goes with which code is fixed in that crate; here it is only named.
/// A number that is no status code has no phrase.
#[verifier::external_body]
pub(crate) fn canonical_reason(code: u16) -> (r: Option<&'static str>)
    ensures
        text_view(r) == reason_phrase(code),
{
    match reqwest::StatusCode::from_u16(code) {
        Ok(status) => status.canonical_reason(),
        Err(_) => None,
    }
}

/// What a reply that is no success says went wrong: the message in it, or a general
/// one, with the status.
pub open spec fn refusal(code: u16, reason: Option<Seq<char>>, body: Json) -> Seq<char> {
    let message = match member(body, "error"@) {
        Some(Json::Text(s)) => s@,
        _ => "host model callback failed"@,
    };
    let phrase = match reason {
        Some(p) => p,
        None => "<unknown status code>"@,
    };
    message + " (HTTP "@ + numeral(code as nat) + " "@ + phrase + ")"@
}

/// The text in a reply that is a success.
pub open spec fn completion_text(body: Json) -> Seq<char> {
    match member(body, "result"@) {
        Some(v) => rendered(v),
        None => seq![],
    }
}

/// Whether a status code is one of success.
pub open spec fn is_success(code: u16) -> bool {
    200 <= code < 300
}

/// What a reply means: the completion, or what went wrong. A blank completion is
/// none.
pub open spec fn reply_means(
    code: u16,
    reason: Option<Seq<char>>,
    body: Json,
) -> Result<Seq<char>, Seq<char>> {
    if !is_success(code) {
        Err(refusal(code, reason, body))
    } else if trimmed(completion_text(body)).len() == 0 {
        Err("the model returned an empty completion"@)
    } else {
        Ok(completion_text(body))
    }
}

/// The view of an outcome that is a text or the message of what went wrong.
pub open spec fn outcome_view(r: Result<String, String>) -> Result<Seq<char>, Seq<char>> {
    match r {
        Ok(s) => Ok(s@),
        Err(s) => Err(s@),
    }
}

/// Reads a reply whose status has the given reason phrase.
pub fn read_reply(code: u16, reason: Option<&str>, body: &Json) -> (r: Result<String, String>)
    ensures
        outcome_view(r) == reply_means(code, text_view(reason), *body),
{
    if !(200 <= code && code < 300) {
        let mut message: String = match get(body, "error") {
            Some(Json::Text(s)) => s.clone(),
            _ => "host model callback failed".to_owned(),
        };
        message.append(" (HTTP ");
        push_numeral(&mut message, code as u64);
        message.append(" ");
        match reason {
            Some(p) => {
                message.append(p);
            },
            None => {
                message.append("<unknown status code>");
            },
        }
        message.append(")");
        return Err(message);
    }
    let text: String = match get(body, "result") {
        Some(v) => render_result(v),
        None => String::new(),
    };
    if trim(text.as_str()).is_empty() {
        return Err("the model returned an empty completion".to_owned());
    }
    Ok(text)
}

/// The node's callback: where it is, and what to present to it.
#[derive(Debug)]
pub struct Host {
    pub base: String,
    pub plugin_id: String,
    pub token: String,
}

impl Clone for Host {
    fn clone(&self) -> (r: Self)
        ensures
            r == *self,
    {
        Host {
            base: self.base.clone(),
            plugin_id: self.plugin_id.clone(),
            token: self.token.clone(),
        }
    }
}

/// One call of the node's callback.
#[derive(Debug)]
pub struct CompletionCall {
    pub url: String,
    pub plugin_id: String,
    pub bearer: String,
    pub system: String,
    pub prompt: String,
    /// The settings key by which the user points this at a model of their choice.
    pub model_pref_key: Option<String>,
}

impl Host {
    /// The callback that the settings name, or `None` where one of them is missing:
    /// the process was not started by the node.
    pub fn from_env(token: Option<&str>, plugin_id: Option<&str>, port: Option<&str>) -> (r: Option<
        Host,
    >)
        ensures
            match r {
                Some(h) => {
                    &&& text_view(token) == Some(h.token@)
                    &&& h.token@.len() > 0
                    &&& text_view(plugin_id) == Some(h.plugin_id@)
                    &&& h.plugin_id@.len() > 0
                    &&& port is Some
                    &&& port_named(port->0@) is Some
                    &&& h.base@ == "http://127.0.0.1:"@ + numeral(port_named(port->0@)->0)
                },
                None => {
                    ||| token is None
                    ||| token->0@.len() == 0
                    ||| plugin_id is None
                    ||| plugin_id->0@.len() == 0
                    ||| port is None
                    ||| port_named(port->0@) is None
                },
            },
    {
        match (token, plugin_id, port) {
            (Some(token), Some(plugin_id), Some(port)) => {
                if token.is_empty() || plugin_id.is_empty() {
                    return None;
                }
                match parse_port(port) {
                    Some(p) => {
                        let mut base: String = "http://127.0.0.1:".to_owned();
                        push_numeral(&mut base, p as u64);
                        Some(
                            Host {
                                base,
                                plugin_id: plugin_id.to_owned(),
                                token: token.to_owned(),
                            },
                        )
                    },
                    None => None,
                }
            },
            _ => None,
        }
    }

    /// The call that asks for one completion.
    pub fn complete(&self, system: &str, prompt: &str, model_pref_key: Option<&str>) -> (r:
        CompletionCall)
        ensures
            r.url@ == self.base@ + "/api/host/model/complete"@,
            r.plugin_id@ == self.plugin_id@,
            r.bearer@ == self.token@,
            r.system@ == system@,
            r.prompt@ == prompt@,
            opt_view(r.model_pref_key) == text_view(model_pref_key),
    {
        let mut url: String = self.base.clone();
        url.append("/api/host/model/complete");
        CompletionCall {
            url,
            plugin_id: self.plugin_id.clone(),
            bearer: self.token.clone(),
            system: system.to_owned(),
            prompt: prompt.to_owned(),
            model_pref_key: match model_pref_key {
                Some(k) => Some(k.to_owned()),
                None => None,
            },
        }
    }

    /// What the reply to such a call means.
    pub fn completed(code: u16, body: &Json) -> (r: Result<String, String>)
        ensures
            outcome_view(r) == reply_means(code, reason_phrase(code), *body),
    {
        read_reply(code, canonical_reason(code), body)
    }
}

/// A completion is only ever taken from a reply that is a success, and is never blank.
pub proof fn no_completion_is_blank(code: u16, reason: Option<Seq<char>>, body: Json)
    ensures
        reply_means(code, reason, body) matches Ok(text) ==> is_success(code) && trimmed(
            text,
        ).len() > 0,
{
}

/// Whether the field at a place is the first of its name.
pub open spec fn is_first_named(
    fields: Seq<(String, Json)>,
    key: Seq<char>,
    i: int,
) -> bool {
    &&& 0 <= i < fields.len()
    &&& fields[i].0@ == key
    &&& forall|j: int| 0 <= j < i ==> (#[trigger] fields[j]).0@ != key
}

/// Whether no field has a name.
pub open spec fn is_unnamed(fields: Seq<(String, Json)>, key: Seq<char>) -> bool {
    forall|j: int| 0 <= j < fields.len() ==> (#[trigger] fields[j]).0@ != key
}

/// A field is found by its name, the first of several, and where none has the name none is.
pub proof fn a_field_is_found_by_its_name(fields: Seq<(String, Json)>, key: Seq<char>, i: int)
    ensures
        is_first_named(fields, key, i) ==> field_at(fields, key) == Some(i),
        is_unnamed(fields, key) <==> field_at(fields, key) is None,
    decreases fields.len(),
{
    if fields.len() > 0 {
        let rest = fields.drop_last();
        let n = fields.len() - 1;
        a_field_is_found_by_its_name(rest, key, i);
        if is_first_named(fields, key, i) {
            if i < n {
                assert(rest[i] == fields[i]);
                assert(is_first_named(rest, key, i)) by {
                    assert forall|j: int| 0 <= j < i implies (#[trigger] rest[j]).0@ != key by {
                        assert(fields[j].0@ != key);
                    }
                }
            } else {
                assert(is_unnamed(rest, key)) by {
                    assert forall|j: int| 0 <= j < rest.len() implies (#[trigger] rest[j]).0@
                        != key by {
                        assert(fields[j].0@ != key);
                    }
                }
            }
        }
        if is_unnamed(fields, key) {
            assert forall|j: int| 0 <= j < rest.len() implies (#[trigger] rest[j]).0@ != key by {
                assert(fields[j].0@ != key);
            }
            assert(fields[n].0@ != key);
        }
        if field_at(fields, key) is None {
            assert forall|j: int| 0 <= j < fields.len() implies (#[trigger] fields[j]).0@
                != key by {
                if j < n {
                    assert(rest[j].0@ != key);
                }
            }
        }
    }
}

/// A bare text renders as itself, and what is no text, list or object as nothing.
pub proof fn a_bare_text_renders_as_itself(text: String, b: bool)
    ensures
        rendered(Json::Text(text)) == text@,
        rendered(Json::Null) == Seq::<char>::empty(),
        rendered(Json::Bool(b)) == Seq::<char>::empty(),
        rendered(Json::Number) == Seq::<char>::empty(),
{
}

/// An object renders as its `text`; without one, as its `content`; without either, as its
/// `output`; and without any of these as nothing.
pub proof fn an_object_renders_as_its_text(fields: Vec<(String, Json)>, i: int)
    ensures
        is_first_named(fields@, "text"@, i) ==> rendered(Json::Object(fields)) == rendered(
            fields@[i].1,
        ),
        is_unnamed(fields@, "text"@) && is_first_named(fields@, "content"@, i) ==> rendered(
            Json::Object(fields),
        ) == rendered(fields@[i].1),
        is_unnamed(fields@, "text"@) && is_unnamed(fields@, "content"@) && is_first_named(
            fields@,
            "output"@,
            i,
        ) ==> rendered(Json::Object(fields)) == rendered(fields@[i].1),
        is_unnamed(fields@, "text"@) && is_unnamed(fields@, "content"@) && is_unnamed(
            fields@,
            "output"@,
        ) ==> rendered(Json::Object(fields)) == Seq::<char>::empty(),
{
    a_field_is_found_by_its_name(fields@, "text"@, i);
    a_field_is_found_by_its_name(fields@, "content"@, i);
    a_field_is_found_by_its_name(fields@, "output"@, i);
}

/// A list renders as its elements do, one after the other, with nothing between them.
pub proof fn a_list_renders_one_after_the_other(front: Vec<Json>, last: Json, all: Vec<Json>)
    requires
        all@ == front@.push(last),
    ensures
        rendered(Json::List(all)) == rendered(Json::List(front)) + rendered(last),
        front@.len() == 0 ==> rendered(Json::List(front)) == Seq::<char>::empty(),
{
    reveal_with_fuel(rendered, 3);
    reveal_with_fuel(rendered_all, 3);
    assert(all@.drop_last() =~= front@);
}

/// A reply whose status is no success means an error: the text of its `error`, or a general
/// one where it has none, with the status and its phrase.
pub proof fn a_refusal_says_what_and_with_which_status(
    code: u16,
    reason: Option<Seq<char>>,
    fields: Vec<(String, Json)>,
    i: int,
)
    requires
        code < 200 || code > 299,
    ensures
        ({
            let status = " (HTTP "@ + numeral(code as nat) + " "@ + (match reason {
                Some(p) => p,
                None => "<unknown status code>"@,
            }) + ")"@;
            let general = Err::<Seq<char>, Seq<char>>("host model callback failed"@ + status);
            &&& is_first_named(fields@, "error"@, i) ==> reply_means(
                code,
                reason,
                Json::Object(fields),
            ) == (match fields@[i].1 {
                Json::Text(s) => Err(s@ + status),
                _ => general,
            })
            &&& is_unnamed(fields@, "error"@) ==> reply_means(code, reason, Json::Object(fields))
                == general
            &&& reply_means(code, reason, Json::Null) == general
        }),
{
    a_field_is_found_by_its_name(fields@, "error"@, i);
    let phrase = match reason {
        Some(p) => p,
        None => "<unknown status code>"@,
    };
    let status = " (HTTP "@ + numeral(code as nat) + " "@ + phrase + ")"@;
    assert forall|m: Seq<char>|
        #[trigger] (m + " (HTTP "@) + numeral(code as nat) + " "@ + phrase + ")"@ == m
            + status by {
        assert((m + " (HTTP "@) + numeral(code as nat) + " "@ + phrase + ")"@ =~= m + status);
    }
}

/// A reply whose status is a success means what its `result` renders as, unless that is
/// blank; without a result it means an empty completion.
pub proof fn a_success_means_its_result(
    code: u16,
    reason: Option<Seq<char>>,
    fields: Vec<(String, Json)>,
    i: int,
)
    requires
        200 <= code <= 299,
    ensures
        is_first_named(fields@, "result"@, i) && trimmed(rendered(fields@[i].1)).len() > 0
            ==> reply_means(code, reason, Json::Object(fields)) == Ok::<Seq<char>, Seq<char>>(
            rendered(fields@[i].1),
        ),
        is_first_named(fields@, "result"@, i) && trimmed(rendered(fields@[i].1)).len() == 0
            ==> reply_means(code, reason, Json::Object(fields)) == Err::<Seq<char>, Seq<char>>(
            "the model returned an empty completion"@,
        ),
        is_unnamed(fields@, "result"@) ==> reply_means(code, reason, Json::Object(fields)) == Err::<
            Seq<char>,
            Seq<char>,
        >("the model returned an empty completion"@),
{
    a_field_is_found_by_its_name(fields@, "result"@, i);
    assert(trimmed(Seq::<char>::empty()) =~= Seq::<char>::empty());
}

/// A reply that is no object says nothing: it means the general error where its status is
/// no success, and an empty completion where it is.
pub proof fn a_reply_that_is_no_object_says_nothing(
    code: u16,
    reason: Option<Seq<char>>,
    body: Json,
)
    requires
        !(body is Object),
    ensures
        200 <= code <= 299 ==> reply_means(code, reason, body) == Err::<Seq<char>, Seq<char>>(
            "the model returned an empty completion"@,
        ),
        code < 200 || code > 299 ==> reply_means(code, reason, body) == reply_means(
            code,
            reason,
            Json::Null,
        ),
{
    assert(trimmed(Seq::<char>::empty()) =~= Seq::<char>::empty());
}

} // verus!
