//! How the model service is asked, and what is made of its replies.
use crate::error::{fail, Error};
use crate::order::{
    drop_repeats, in_order, ordered, repeats_are_dropped, sort_texts, sorting_orders,
    without_repeats,
};
use crate::text::{
    begins, blank, is_blank, lemma_texts_push, starts_with,
    strip_end, stripped_end, texts, trim, trimmed,
};
use vstd::prelude::*;

verus! {

/// How a model is asked: where, with which key, and whether a temperature is
/// sent.
#[derive(Debug)]
pub struct LlmClient {
    base_url: String,
    api_key: String,
    model: String,
    send_temperature: bool,
}

/// The view of how a model is asked.
#[verifier::ext_equal]
pub struct ClientView {
    pub base_url: Seq<char>,
    pub api_key: Seq<char>,
    pub model: Seq<char>,
    pub send_temperature: bool,
}

impl View for LlmClient {
    type V = ClientView;

    closed spec fn view(&self) -> ClientView {
        ClientView {
            base_url: self.base_url@,
            api_key: self.api_key@,
            model: self.model@,
            send_temperature: self.send_temperature,
        }
    }
}

impl Clone for LlmClient {
    fn clone(&self) -> (r: Self)
        ensures
            r@ == self@,
    {
        LlmClient {
            base_url: self.base_url.clone(),
            api_key: self.api_key.clone(),
            model: self.model.clone(),
            send_temperature: self.send_temperature,
        }
    }
}

impl LlmClient {
    /// A model at an address; slashes at its end do not count.
    pub fn new(base_url: &str, api_key: &str, model: &str) -> (r: Self)
        ensures
            r@ == (ClientView {
                base_url: stripped_end(base_url@, '/'),
                api_key: api_key@,
                model: model@,
                send_temperature: true,
            }),
    {
        LlmClient {
            base_url: strip_end(base_url, '/'),
            api_key: api_key.to_owned(),
            model: model.to_owned(),
            send_temperature: true,
        }
    }

    /// The same, with a temperature sent or not.
    pub fn with_custom_temperature(self, enabled: bool) -> (r: Self)
        ensures
            r@ == (ClientView { send_temperature: enabled, ..self@ }),
    {
        LlmClient {
            base_url: self.base_url,
            api_key: self.api_key,
            model: self.model,
            send_temperature: enabled,
        }
    }

    /// The model.
    pub fn model_id(&self) -> (r: &str)
        ensures
            r@ == self@.model,
    {
        self.model.as_str()
    }

    /// The key.
    pub fn api_key(&self) -> (r: &str)
        ensures
            r@ == self@.api_key,
    {
        self.api_key.as_str()
    }

    /// Where the models are listed.
    pub fn models_url(&self) -> (r: String)
        ensures
            r@ == self@.base_url + "/models"@,
    {
        let mut out: String = self.base_url.clone();
        out.append("/models");
        out
    }

    /// Where an answer is asked for.
    pub fn completions_url(&self) -> (r: String)
        ensures
            r@ == self@.base_url + "/chat/completions"@,
    {
        let mut out: String = self.base_url.clone();
        out.append("/chat/completions");
        out
    }

    /// Where an answer is asked for by the native protocol.
    pub fn messages_url(&self) -> (r: String)
        ensures
            r@ == self@.base_url + "/messages"@,
    {
        let mut out: String = self.base_url.clone();
        out.append("/messages");
        out
    }

    /// The temperature that is sent, as the bits of its floating-point form.
    pub fn sent_temperature(&self, bits: u32) -> (r: Option<u32>)
        ensures
            r == (if self@.send_temperature {
                Some(bits)
            } else {
                None
            }),
    {
        if self.send_temperature {
            Some(bits)
        } else {
            None
        }
    }

    /// Checks that there is a key, before anything is sent.
    pub fn ensure_api_key(&self) -> (r: Result<(), Error>)
        ensures
            if blank(self@.api_key) {
                r matches Err(e) && e@
                    == "no API credential configured; run `noya login <model>` or set the provider API key environment variable"@
            } else {
                r is Ok
            },
    {
        if is_blank(self.api_key.as_str()) {
            return Err(
                fail(
                    "no API credential configured; run `noya login <model>` or set the provider API key environment variable",
                ),
            );
        }
        Ok(())
    }
}

/// The names in a list that are not blank, without the space around them.
pub open spec fn proper_names(names: Seq<Seq<char>>) -> Seq<Seq<char>>
    decreases names.len(),
{
    if names.len() == 0 {
        Seq::empty()
    } else if blank(names.last()) {
        proper_names(names.drop_last())
    } else {
        proper_names(names.drop_last()).push(trimmed(names.last()))
    }
}

/// The models that a service lists: without the space around their names, in
/// order, and each once.
pub fn normalize_models(names: Vec<String>) -> (r: Result<Vec<String>, Error>)
    ensures
        ({
            let models = without_repeats(ordered(proper_names(texts(names@))));
            if models.len() == 0 {
                r matches Err(e) && e@ == "LLM model discovery returned no model IDs"@
            } else {
                r matches Ok(v) && texts(v@) == models
            }
        }),
{
    let mut kept: Vec<String> = Vec::new();
    let ghost all = texts(names@);
    let mut i: usize = 0;
    assert(texts(kept@) =~= proper_names(all.take(0)));
    while i < names.len()
        invariant
            i <= names.len(),
            all == texts(names@),
            texts(kept@) == proper_names(all.take(i as int)),
        decreases names.len() - i,
    {
        proof {
            assert(all.take(i + 1).drop_last() =~= all.take(i as int));
            assert(all.take(i + 1).last() == names@[i as int]@);
        }
        if !is_blank(names[i].as_str()) {
            let name = trim(names[i].as_str());
            proof {
                lemma_texts_push(kept@, name);
            }
            kept.push(name);
        }
        i += 1;
    }
    assert(all.take(i as int) =~= all);
    let models = drop_repeats(&sort_texts(&kept));
    if models.len() == 0 {
        assert(texts(models@).len() == 0);
        return Err(fail("LLM model discovery returned no model IDs"));
    }
    assert(texts(models@).len() > 0);
    Ok(models)
}

/// What follows when a streamed answer was asked for.
#[derive(Debug, Clone, Copy, PartialEq, Eq, Structural)]
pub enum StreamReply {
    /// The stream is read.
    Events,
    /// The answer came as a whole.
    Whole,
    /// The service does not stream: the answer is asked for as a whole.
    Fallback,
    /// The request failed.
    Failed,
}

/// The statuses by which a service says that it does not stream.
pub open spec fn refuses_streaming(status: u16) -> bool {
    status == 400 || status == 404 || status == 405 || status == 415 || status == 422 || status
        == 501
}

/// What follows when a stream is closed: it must have said before that it is
/// `done`.
pub fn on_stream_closed(done: bool) -> (r: Result<(), Error>)
    ensures
        done ==> r is Ok,
        !done ==> (r matches Err(e) && e@ == "LLM stream ended before [DONE]"@),
{
    if done {
        Ok(())
    } else {
        Err(fail("LLM stream ended before [DONE]"))
    }
}

/// What follows when a streamed answer was asked for: `status` is the status of
/// the reply, and `content_type` what it says of its form.
pub fn on_stream_reply(status: u16, content_type: Option<String>) -> (r: StreamReply)
    ensures
        r == (if !(200 <= status <= 299) {
            if refuses_streaming(status) {
                StreamReply::Fallback
            } else {
                StreamReply::Failed
            }
        } else if content_type matches Some(t) && begins(t@, "text/event-stream"@) {
            StreamReply::Events
        } else {
            StreamReply::Whole
        }),
{
    if !(200 <= status && status <= 299) {
        if status == 400 || status == 404 || status == 405 || status == 415 || status == 422
            || status == 501 {
            return StreamReply::Fallback;
        }
        return StreamReply::Failed;
    }
    match content_type {
        Some(text) => if starts_with(text.as_str(), "text/event-stream") {
            StreamReply::Events
        } else {
            StreamReply::Whole
        },
        None => StreamReply::Whole,
    }
}

/// The message of a request that failed: what failed, the status as it is
/// written, and what the service said.
pub fn failure_message(what: &str, status: &str, body: &str) -> (r: String)
    ensures
        r@ == what@ + " ("@ + status@ + "): "@ + body@,
{
    let mut out: String = what.to_owned();
    out.append(" (");
    out.append(status);
    out.append("): ");
    out.append(body);
    out
}

/// The list of models names each model once, in order: exactly the names that were
/// given and are not blank, without the space around them.
pub proof fn each_model_is_listed_once(names: Seq<Seq<char>>)
    ensures
        ({
            let models = without_repeats(ordered(proper_names(names)));
            &&& in_order(models)
            &&& models.no_duplicates()
            &&& forall|m: Seq<char>|
                #![trigger models.contains(m)]
                models.contains(m) <==> exists|i: int|
                    0 <= i < names.len() && !blank(#[trigger] names[i]) && trimmed(names[i]) == m
        }),
{
    let proper = proper_names(names);
    let sorted = ordered(proper);
    let models = without_repeats(sorted);
    sorting_orders(proper);
    repeats_are_dropped(sorted);
    assert forall|m: Seq<char>|
        #![trigger models.contains(m)]
        models.contains(m) <==> exists|i: int|
            0 <= i < names.len() && !blank(#[trigger] names[i]) && trimmed(names[i]) == m by {
        lemma_proper(names, m);
        vstd::seq_lib::to_multiset_contains(sorted, m);
        vstd::seq_lib::to_multiset_contains(proper, m);
    }
}

proof fn lemma_proper(names: Seq<Seq<char>>, m: Seq<char>)
    ensures
        proper_names(names).contains(m) <==> exists|i: int|
            0 <= i < names.len() && !blank(#[trigger] names[i]) && trimmed(names[i]) == m,
    decreases names.len(),
{
    if names.len() > 0 {
        let t = names.drop_last();
        lemma_proper(t, m);
        let out = proper_names(names);
        let before = proper_names(t);
        if out.contains(m) {
            let k = choose|k: int| 0 <= k < out.len() && out[k] == m;
            if k < before.len() {
                assert(before[k] == m);
                let i = choose|i: int|
                    0 <= i < t.len() && !blank(#[trigger] t[i]) && trimmed(t[i]) == m;
                assert(names[i] == t[i]);
            } else {
                assert(names[names.len() - 1] == names.last());
            }
        }
        if exists|i: int| 0 <= i < names.len() && !blank(#[trigger] names[i]) && trimmed(names[i]) == m {
            let i = choose|i: int|
                0 <= i < names.len() && !blank(#[trigger] names[i]) && trimmed(names[i]) == m;
            if i < t.len() {
                assert(t[i] == names[i]);
                let k = choose|k: int| 0 <= k < before.len() && before[k] == m;
                assert(out[k] == m);
            } else {
                assert(out[out.len() - 1] == m);
            }
        }
    }
}

} // verus!
