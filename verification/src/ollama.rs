//! Requests to an Ollama server and the reading of its replies.

use crate::text;
use crate::text_laws;
use vstd::prelude::*;

verus! {

/// Access to a model on an Ollama server.
#[derive(Debug)]
pub struct OllamaClient {
    /// Address of the server, without a slash at the end.
    pub base_url: String,
    pub model: String,
    /// Seconds after which a request is given up.
    pub timeout_seconds: u64,
    /// Number of context tokens that are asked for.
    pub num_ctx: u32,
}

/// The body of a request to generate text.
#[derive(Debug)]
pub struct GenerateRequest {
    pub model: String,
    pub prompt: String,
    /// Whether the reply comes in parts.
    pub stream: bool,
    pub options: GenerateOptions,
}

/// The sampling options of a request.
#[derive(Debug, Clone, Copy, PartialEq, Eq, Structural)]
pub struct GenerateOptions {
    /// Temperature in hundredths.
    pub temperature_percent: u32,
    pub num_ctx: u32,
    /// Penalty on repetitions in hundredths.
    pub repeat_penalty_percent: u32,
}

/// The reply to a request to generate text.
#[derive(Debug)]
pub struct GenerateResponse {
    pub response: String,
    /// Whether the reply is complete.
    pub done: bool,
}

/// The reply to a request to list the models.
#[derive(Debug)]
pub struct TagsResponse {
    pub models: Vec<ModelInfo>,
}

/// A model on the server.
#[derive(Debug)]
pub struct ModelInfo {
    pub name: String,
}

/// Why a reply could not be used.
#[derive(Debug, Clone, Copy, PartialEq, Eq, Structural)]
pub enum OllamaError {
    /// The reply is not complete.
    Unfinished,
}

impl OllamaError {
    /// The message that describes the error.
    pub fn message(&self) -> (r: &'static str)
        ensures
            r@ == "Ollama response did not finish cleanly"@,
    {
        "Ollama response did not finish cleanly"
    }
}

/// The names of the models of a reply.
pub open spec fn model_names(models: Seq<ModelInfo>) -> Seq<Seq<char>> {
    models.map_values(|m: ModelInfo| m.name@)
}

/// The answer of a reply.
pub open spec fn answer_of(response: Seq<char>, done: bool) -> Result<Seq<char>, OllamaError> {
    if done {
        Ok(text::trim(response))
    } else {
        Err(OllamaError::Unfinished)
    }
}

/// The address of the server, from which a client takes the slashes at the end.
pub open spec fn base_of(url: Seq<char>) -> Seq<char> {
    text::trim_end_matches(url, '/')
}

/// Where the models of a server are listed.
pub open spec fn tags_address(base: Seq<char>) -> Seq<char> {
    base + "/api/tags"@
}

/// Where a server generates text.
pub open spec fn generate_address(base: Seq<char>) -> Seq<char> {
    base + "/api/generate"@
}

/// What a `GenerateRequest` holds, as mathematical values.
pub struct RequestView {
    pub model: Seq<char>,
    pub prompt: Seq<char>,
    pub stream: bool,
    pub options: GenerateOptions,
}

impl View for GenerateRequest {
    type V = RequestView;

    open spec fn view(&self) -> RequestView {
        RequestView {
            model: self.model@,
            prompt: self.prompt@,
            stream: self.stream,
            options: self.options,
        }
    }
}

/// The request that asks a model for an answer.
pub open spec fn request_for(model: Seq<char>, num_ctx: u32, prompt: Seq<char>) -> RequestView {
    RequestView {
        model,
        prompt,
        stream: false,
        options: GenerateOptions { temperature_percent: 10, num_ctx, repeat_penalty_percent: 112 },
    }
}

impl OllamaClient {
    /// Access to `model` on the server at `base_url`.
    pub fn new(base_url: String, model: String, timeout_seconds: u64, num_ctx: u32) -> (r: Self)
        ensures
            r.base_url@ == base_of(base_url@),
            r.model@ == model@,
            r.timeout_seconds == timeout_seconds,
            r.num_ctx == num_ctx,
    {
        OllamaClient {
            base_url: text::trimmed_end_matches(base_url.as_str(), '/').to_owned(),
            model,
            timeout_seconds,
            num_ctx,
        }
    }

    /// Where the models are listed.
    pub fn tags_url(&self) -> (r: String)
        ensures
            r@ == tags_address(self.base_url@),
    {
        let mut url = self.base_url.clone();
        url.append("/api/tags");
        url
    }

    /// Where text is generated.
    pub fn generate_url(&self) -> (r: String)
        ensures
            r@ == generate_address(self.base_url@),
    {
        let mut url = self.base_url.clone();
        url.append("/api/generate");
        url
    }

    /// The names of the models that a reply lists.
    pub fn list_models(&self, reply: TagsResponse) -> (r: Vec<String>)
        ensures
            text::views(r@) == model_names(reply.models@),
    {
        let mut names: Vec<String> = Vec::new();
        let mut i: usize = 0;
        while i < reply.models.len()
            invariant
                i <= reply.models@.len(),
                names@.len() == i,
                forall|j: int| 0 <= j < i ==> (#[trigger] names@[j])@ == reply.models@[j].name@,
            decreases reply.models@.len() - i,
        {
            names.push(reply.models[i].name.clone());
            i += 1;
        }
        assert(text::views(names@) == model_names(reply.models@));
        names
    }

    /// The request that asks for an answer to `prompt`.
    pub fn generate_request(&self, prompt: &str) -> (r: GenerateRequest)
        ensures
            r@ == request_for(self.model@, self.num_ctx, prompt@),
    {
        GenerateRequest {
            model: self.model.clone(),
            prompt: prompt.to_owned(),
            stream: false,
            options: GenerateOptions {
                temperature_percent: 10,
                num_ctx: self.num_ctx,
                repeat_penalty_percent: 112,
            },
        }
    }

    /// The answer that a reply holds, without surrounding whitespace; an error if the reply
    /// is not complete.
    pub fn generate(&self, reply: GenerateResponse) -> (r: Result<String, OllamaError>)
        ensures
            match r {
                Ok(s) => answer_of(reply.response@, reply.done) == Ok::<Seq<char>, OllamaError>(s@),
                Err(e) => answer_of(reply.response@, reply.done) == Err::<Seq<char>, OllamaError>(
                    e,
                ),
            },
    {
        if !reply.done {
            return Err(OllamaError::Unfinished);
        }
        Ok(text::trimmed(reply.response.as_str()).to_owned())
    }
}

/// The message when a model is not on the server.
pub open spec fn missing_model_text(models: Seq<Seq<char>>, model: Seq<char>) -> Seq<char> {
    "model '"@ + model + "' was not found in Ollama. Available models: "@ + text::join(
        models,
        ", "@,
    )
}

/// Whether a model is among those of the server.
pub open spec fn is_listed(models: Seq<Seq<char>>, model: Seq<char>) -> bool {
    models.contains(model)
}

/// Checks that `model` is among the models of the server; the error says which there are.
pub fn check_model_listed(models: &Vec<String>, model: &str) -> (r: Result<(), String>)
    ensures
        r is Ok <==> is_listed(text::views(models@), model@),
        match r {
            Ok(_) => true,
            Err(message) => message@ == missing_model_text(text::views(models@), model@),
        },
{
    let ghost names = text::views(models@);
    let mut i: usize = 0;
    while i < models.len()
        invariant
            names == text::views(models@),
            i <= models@.len(),
            forall|j: int| 0 <= j < i ==> #[trigger] names[j] != model@,
        decreases models@.len() - i,
    {
        if text::same_text(models[i].as_str(), model) {
            assert(names[i as int] == model@);
            return Ok(());
        }
        assert(names[i as int] == models@[i as int]@);
        i += 1;
    }
    let list = text::join_between(models, 0, models.len(), ", ");
    assert(names.subrange(0, names.len() as int) == names);
    let mut message = String::new();
    message.append("model '");
    assert(message@ == "model '"@);
    message.append(model);
    message.append("' was not found in Ollama. Available models: ");
    message.append(list.as_str());
    Err(message)
}

/// The address of a server never ends in a slash, so that the paths behind it begin with
/// exactly one.
pub proof fn law_base_url_has_no_final_slash(url: Seq<char>)
    ensures
        ({
            let base = text::trim_end_matches(url, '/');
            base.len() > 0 ==> base.last() != '/'
        }),
    decreases url.len(),
{
    if url.len() > 0 && url.last() == '/' {
        law_base_url_has_no_final_slash(url.drop_last());
    }
}

/// The paths of a server stand behind its address with exactly one slash between, however many
/// slashes the address was given with: what was given is the address and slashes.
pub proof fn law_addresses_lie_under_the_given_one(url: Seq<char>)
    ensures
        ({
            let base = base_of(url);
            &&& base.is_prefix_of(url)
            &&& forall|i: int| base.len() <= i < url.len() ==> #[trigger] url[i] == '/'
            &&& base.len() > 0 ==> base.last() != '/'
            &&& tags_address(base) == base + "/api/tags"@
            &&& generate_address(base) == base + "/api/generate"@
        }),
{
    text_laws::law_end_matches_are_cut(url, '/');
}

/// A request hands the prompt to the model whole, asks for one reply, and for the configured
/// context; the temperature is 0.1 and the penalty on repetitions 1.12.
pub proof fn law_requests_hold_the_prompt(model: Seq<char>, num_ctx: u32, prompt: Seq<char>)
    ensures
        ({
            let r = request_for(model, num_ctx, prompt);
            &&& r.model == model
            &&& r.prompt == prompt
            &&& !r.stream
            &&& r.options.num_ctx == num_ctx
            &&& r.options.temperature_percent == 10
            &&& r.options.repeat_penalty_percent == 112
        }),
{
}

/// A complete reply is answered by its text without the whitespace around it, and no other
/// character is lost; one that is not complete is an error.
pub proof fn law_answers_are_trimmed(response: Seq<char>)
    ensures
        answer_of(response, false) == Err::<Seq<char>, OllamaError>(OllamaError::Unfinished),
        exists|i: int, j: int|
            0 <= i <= j <= response.len() && answer_of(response, true) == Ok::<
                Seq<char>,
                OllamaError,
            >(#[trigger] response.subrange(i, j)) && (forall|k: int|
                0 <= k < i || j <= k < response.len() ==> text::is_space(#[trigger] response[k]))
                && (i < j ==> !text::is_space(response[i]) && !text::is_space(response[j - 1])),
{
    text_laws::law_trim_cuts_whitespace_only(response);
}

/// The names of the models are listed all, in the order of the reply, and a model is found
/// exactly if one of them is its name.
pub proof fn law_every_model_is_listed(models: Seq<ModelInfo>, model: Seq<char>)
    ensures
        model_names(models).len() == models.len(),
        forall|i: int|
            0 <= i < models.len() ==> #[trigger] model_names(models)[i] == models[i].name@,
        is_listed(model_names(models), model) <==> exists|i: int|
            0 <= i < models.len() && (#[trigger] models[i]).name@ == model,
{
    let names = model_names(models);
    if is_listed(names, model) {
        let i = choose|i: int| 0 <= i < names.len() && names[i] == model;
        assert(models[i].name@ == model);
    }
    if exists|i: int| 0 <= i < models.len() && (#[trigger] models[i]).name@ == model {
        let i = choose|i: int| 0 <= i < models.len() && (#[trigger] models[i]).name@ == model;
        assert(names[i] == model);
    }
}

/// The message about a missing model names it and lists the others.
pub proof fn law_missing_model_message(models: Seq<Seq<char>>, model: Seq<char>)
    ensures
        missing_model_text(models, model) == "model '"@ + model
            + "' was not found in Ollama. Available models: "@ + text::join(models, ", "@),
{
}

} // verus!
