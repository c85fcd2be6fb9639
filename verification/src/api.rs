//! The plain records exchanged with the HTTP server and kept in the settings
//! database.
use crate::text::string_from;
use vstd::prelude::*;

verus! {

/// Body of a request to create an agent.
#[derive(Debug)]
pub struct CreateAgentRequest {
    pub identity: String,
}

/// An agent as the server describes it.
#[derive(Debug)]
pub struct AgentDetail {
    pub id: String,
    pub identity: String,
    pub status: String,
}

/// The server's answer to a chat message.
#[derive(Debug)]
pub struct ChatResponse {
    pub agent_id: String,
    pub status: String,
}

/// Query string of a SQL request.
#[derive(Debug)]
pub struct QueryParams {
    pub sql: String,
}

/// A table of the data lake.
#[derive(Debug)]
pub struct TableInfo {
    pub name: String,
    pub namespace: String,
}

/// A row of the `providers` table.
#[derive(Debug, Clone)]
pub struct ProviderRow {
    pub id: i64,
    pub name: String,
    pub provider_type: String,
    pub base_url: String,
    pub api_key: String,
    pub auth_method: String,
}

/// The provider values an edit form works on.
pub struct ProviderInput {
    pub name: String,
    pub provider_type: String,
    pub base_url: String,
    pub api_key: String,
    pub auth_method: String,
}

impl ProviderInput {
    /// A blank form: every text empty, but the provider type and the
    /// authentication method, which start as `Anthropic`.
    pub fn empty() -> (r: Self)
        ensures
            r.name@ == Seq::<char>::empty(),
            r.provider_type@ == "Anthropic"@,
            r.base_url@ == Seq::<char>::empty(),
            r.api_key@ == Seq::<char>::empty(),
            r.auth_method@ == "Anthropic"@,
    {
        ProviderInput {
            name: String::new(),
            provider_type: string_from("Anthropic"),
            base_url: String::new(),
            api_key: String::new(),
            auth_method: string_from("Anthropic"),
        }
    }
}

} // verus!
