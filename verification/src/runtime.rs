//! How a runtime is configured before it starts, and the error it reports.
use crate::text::push_str;
use vstd::prelude::*;

verus! {

/// Errors of the runtime.
#[derive(Debug)]
pub enum RuntimeError {
    /// The process manager failed; carries its message.
    Process(String),
}

/// The text of a `RuntimeError`.
pub open spec fn runtime_error_text(e: RuntimeError) -> Seq<char> {
    match e {
        RuntimeError::Process(m) => "process manager error: "@ + m@,
    }
}

impl RuntimeError {
    /// The error's message.
    pub fn message(&self) -> (r: String)
        ensures
            r@ == runtime_error_text(*self),
    {
        let mut out = String::new();
        match self {
            RuntimeError::Process(m) => {
                push_str(&mut out, "process manager error: ");
                push_str(&mut out, m.as_str());
            },
        }
        out
    }
}

/// What a runtime starts with: the model configuration `C` for its pool, if
/// the pool is to be configured at once.
#[derive(Clone, Debug)]
pub struct RuntimeConfig<C> {
    pub model_config: Option<C>,
}

impl<C> RuntimeConfig<C> {
    /// A configuration with no model configuration (the pool is configured
    /// later).
    pub fn headless() -> (r: Self)
        ensures
            r.model_config is None,
    {
        RuntimeConfig { model_config: None }
    }

    /// This configuration with `config` as its model configuration.
    pub fn with_model_config(self, config: C) -> (r: Self)
        ensures
            r.model_config == Some(config),
    {
        RuntimeConfig { model_config: Some(config) }
    }
}

impl<C> Default for RuntimeConfig<C> {
    /// No model configuration.
    fn default() -> (r: Self)
        ensures
            r.model_config is None,
    {
        Self::headless()
    }
}

} // verus!
