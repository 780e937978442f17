//! Plain data types of the tool-call protocol and the output layer: result
//! envelopes, capability descriptions, and the summary row of an item list.
//! Wire encoding and transport live outside.

use vstd::prelude::*;
use crate::item::WorkItem;
use crate::value::DocValue;

verus! {

/// The output format a caller asked for.
#[derive(Clone, Copy, Debug, PartialEq, Eq, Structural)]
pub enum OutputFormat {
    Human,
    Json,
    Yaml,
}

/// One piece of a tool call's result.
pub enum ToolContent {
    Text { text: String },
}

/// The result of one tool call.
pub struct ToolCallResult {
    /// The content pieces, in order.
    pub content: Vec<ToolContent>,
    /// Set when the result reports a failure.
    pub is_error: Option<bool>,
}

impl ToolCallResult {
    /// A successful result carrying one text piece.
    pub fn text(text: String) -> (r: Self)
        ensures
            r.content@.len() == 1,
            r.content@[0] matches ToolContent::Text { text: t } && t@ == text@,
            r.is_error is None,
    {
        let mut content: Vec<ToolContent> = Vec::new();
        content.push(ToolContent::Text { text });
        ToolCallResult { content, is_error: None }
    }

    /// A failure result carrying one text piece.
    pub fn error(message: String) -> (r: Self)
        ensures
            r.content@.len() == 1,
            r.content@[0] matches ToolContent::Text { text: t } && t@ == message@,
            r.is_error == Some(true),
    {
        let mut content: Vec<ToolContent> = Vec::new();
        content.push(ToolContent::Text { text: message });
        ToolCallResult { content, is_error: Some(true) }
    }
}

/// What a client tells the server about itself.
pub struct ClientInfo {
    pub name: String,
    pub version: String,
}

/// Whether the server announces tool-list changes.
pub struct ToolsCapability {
    pub list_changed: bool,
}

/// What the server can do.
pub struct ServerCapabilities {
    pub tools: ToolsCapability,
}

/// What the server tells a client about itself.
pub struct ServerInfo {
    pub name: String,
    pub version: String,
}

/// The server's answer to an initialization request.
pub struct InitializeResult {
    pub protocol_version: String,
    pub capabilities: ServerCapabilities,
    pub server_info: ServerInfo,
}

/// The summary row of an item in list output.
pub struct WorkItemSummary {
    pub uid: String,
    pub title: String,
    pub state: String,
    pub assignee: Option<String>,
}

impl WorkItemSummary {
    /// The summary of an item.
    pub fn of_item(item: &WorkItem) -> (r: Self)
        ensures
            r.uid@ == item@.uid,
            r.title@ == item@.title,
            r.state@ == item@.state,
            match r.assignee {
                Some(a) => item@.assignee == Some(a@),
                None => item@.assignee is None,
            },
    {
        WorkItemSummary {
            uid: item.uid.clone(),
            title: item.title.clone(),
            state: item.state.clone(),
            assignee: match &item.assignee {
                Some(a) => Some(a.clone()),
                None => None,
            },
        }
    }
}


/// A JSON-RPC request envelope.
pub struct JsonRpcRequest {
    pub jsonrpc: String,
    pub id: Option<DocValue>,
    pub method: String,
    pub params: Option<DocValue>,
}

/// A JSON-RPC response envelope: exactly one of `result` and `error` is
/// set.
pub struct JsonRpcResponse {
    pub jsonrpc: String,
    pub id: Option<DocValue>,
    pub result: Option<DocValue>,
    pub error: Option<JsonRpcError>,
}

/// A JSON-RPC error object.
pub struct JsonRpcError {
    pub code: i32,
    pub message: String,
    pub data: Option<DocValue>,
}

impl JsonRpcResponse {
    /// A successful response carrying a result.
    pub fn success(id: Option<DocValue>, result: DocValue) -> (r: Self)
        ensures
            r.jsonrpc@ == "2.0"@,
            r.id == id,
            r.result matches Some(v) && v == result,
            r.error is None,
    {
        JsonRpcResponse {
            jsonrpc: String::from_str("2.0"),
            id,
            result: Some(result),
            error: None,
        }
    }

    /// A failure response carrying an error object.
    pub fn error(id: Option<DocValue>, code: i32, message: String) -> (r: Self)
        ensures
            r.jsonrpc@ == "2.0"@,
            r.id == id,
            r.result is None,
            r.error matches Some(e) && e.code == code && e.message@ == message@ && e.data
                is None,
    {
        JsonRpcResponse {
            jsonrpc: String::from_str("2.0"),
            id,
            result: None,
            error: Some(JsonRpcError { code, message, data: None }),
        }
    }
}

/// What a client may announce about itself at initialization.
pub struct ClientCapabilities {
    pub roots: Option<DocValue>,
    pub sampling: Option<DocValue>,
}

/// A client's initialization request.
pub struct InitializeParams {
    pub protocol_version: String,
    pub capabilities: ClientCapabilities,
    pub client_info: ClientInfo,
}

/// One tool the server offers.
pub struct ToolDefinition {
    pub name: String,
    pub description: String,
    pub input_schema: DocValue,
}

/// The server's tool list.
pub struct ToolsListResult {
    pub tools: Vec<ToolDefinition>,
}

/// A tool call request.
pub struct ToolCallParams {
    pub name: String,
    pub arguments: Option<DocValue>,
}

} // verus!
