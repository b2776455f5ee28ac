//! Value types for a single completion request and for the persisted
//! prompt and configuration documents, together with request validation.

use vstd::prelude::*;

verus! {

/// A fully validated completion request: every field is present.
pub struct ChatRequest {
    pub api_key: String,
    pub api_base: String,
    pub model: String,
    pub max_tokens: u32,
    pub prompt: String,
}

/// The abstract value of a [`ChatRequest`].
pub struct ChatRequestView {
    pub api_key: Seq<char>,
    pub api_base: Seq<char>,
    pub model: Seq<char>,
    pub max_tokens: u32,
    pub prompt: Seq<char>,
}

impl View for ChatRequest {
    type V = ChatRequestView;

    open spec fn view(&self) -> ChatRequestView {
        ChatRequestView {
            api_key: self.api_key@,
            api_base: self.api_base@,
            model: self.model@,
            max_tokens: self.max_tokens,
            prompt: self.prompt@,
        }
    }
}

/// A request as handed over by the host, before validation: any field
/// may be absent.
pub struct RequestFields {
    pub api_key: Option<String>,
    pub api_base: Option<String>,
    pub model: Option<String>,
    pub max_tokens: Option<u32>,
    pub prompt: Option<String>,
}

/// The abstract value of a [`RequestFields`].
pub struct RequestFieldsView {
    pub api_key: Option<Seq<char>>,
    pub api_base: Option<Seq<char>>,
    pub model: Option<Seq<char>>,
    pub max_tokens: Option<u32>,
    pub prompt: Option<Seq<char>>,
}

impl View for RequestFields {
    type V = RequestFieldsView;

    open spec fn view(&self) -> RequestFieldsView {
        RequestFieldsView {
            api_key: match self.api_key {
                Some(ref s) => Some(s@),
                None => None,
            },
            api_base: match self.api_base {
                Some(ref s) => Some(s@),
                None => None,
            },
            model: match self.model {
                Some(ref s) => Some(s@),
                None => None,
            },
            max_tokens: self.max_tokens,
            prompt: match self.prompt {
                Some(ref s) => Some(s@),
                None => None,
            },
        }
    }
}

impl RequestFieldsView {
    /// A request is well formed exactly when every field is present.
    pub open spec fn complete(self) -> bool {
        &&& self.api_key is Some
        &&& self.api_base is Some
        &&& self.model is Some
        &&& self.max_tokens is Some
        &&& self.prompt is Some
    }

    /// The validated request that a complete set of fields denotes.
    pub open spec fn as_request(self) -> ChatRequestView {
        ChatRequestView {
            api_key: self.api_key.unwrap(),
            api_base: self.api_base.unwrap(),
            model: self.model.unwrap(),
            max_tokens: self.max_tokens.unwrap(),
            prompt: self.prompt.unwrap(),
        }
    }
}

/// The synchronous rejection of a request with an absent field.
#[derive(Clone, Copy, PartialEq, Eq, Structural, Debug)]
pub struct MalformedRequest;

impl ChatRequest {
    /// Validation at the host boundary: a request builds exactly when
    /// every field is present; otherwise the caller is told synchronously.
    pub fn from_fields(fields: RequestFields) -> (r: Result<ChatRequest, MalformedRequest>)
        ensures
            fields@.complete() ==> (r matches Ok(c) && c@ == fields@.as_request()),
            !fields@.complete() ==> r is Err,
    {
        match (fields.api_key, fields.api_base, fields.model, fields.max_tokens, fields.prompt) {
            (Some(api_key), Some(api_base), Some(model), Some(max_tokens), Some(prompt)) => Ok(
                ChatRequest { api_key, api_base, model, max_tokens, prompt },
            ),
            _ => Err(MalformedRequest),
        }
    }
}

/// One named prompt template.
pub struct Prompt {
    pub title: String,
    pub text: String,
}

/// The abstract value of a [`Prompt`].
pub struct PromptView {
    pub title: Seq<char>,
    pub text: Seq<char>,
}

impl View for Prompt {
    type V = PromptView;

    open spec fn view(&self) -> PromptView {
        PromptView { title: self.title@, text: self.text@ }
    }
}

/// A persisted set of prompt templates.
pub struct PromptSet {
    pub prompt_template: String,
    pub prompts: Vec<Prompt>,
}

/// The abstract value of a [`PromptSet`].
pub struct PromptSetView {
    pub prompt_template: Seq<char>,
    pub prompts: Seq<PromptView>,
}

impl View for PromptSet {
    type V = PromptSetView;

    open spec fn view(&self) -> PromptSetView {
        PromptSetView {
            prompt_template: self.prompt_template@,
            prompts: self.prompts@.map_values(|p: Prompt| p@),
        }
    }
}

/// Persisted connection settings.
pub struct ConfigSet {
    pub api_key: String,
    pub api_base: String,
    pub model: String,
    pub max_tokens: u32,
}

/// The abstract value of a [`ConfigSet`].
pub struct ConfigSetView {
    pub api_key: Seq<char>,
    pub api_base: Seq<char>,
    pub model: Seq<char>,
    pub max_tokens: u32,
}

impl View for ConfigSet {
    type V = ConfigSetView;

    open spec fn view(&self) -> ConfigSetView {
        ConfigSetView {
            api_key: self.api_key@,
            api_base: self.api_base@,
            model: self.model@,
            max_tokens: self.max_tokens,
        }
    }
}

} // verus!
