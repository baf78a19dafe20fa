//! The tool-protocol surface, reduced to its decisions: which action a
//! request selects. Framing and transport are caller concerns.

use vstd::prelude::*;
use crate::strutil::str_eq;

verus! {

broadcast use vstd::string::group_string_axioms;

/// What a protocol request asks the daemon to do.
pub enum McpAction {
    /// A notification; no reply is sent.
    NoReply,
    /// Reply with the server's description.
    Initialize,
    /// Reply with the tool list.
    ListTools,
    /// Run a context search.
    CallSearch,
    /// Report index statistics.
    CallStatus,
    /// A tool call that names no known tool.
    UnknownTool,
    /// A tool call without parameters.
    MissingParams,
    /// A method this server does not speak.
    UnknownMethod,
}

/// Route one request: notifications get no reply; the handshake and the
/// tool list are answered directly; tool calls dispatch on the tool
/// name; everything else is unknown.
pub fn mcp_route(method: &str, has_id: bool, has_params: bool, tool_name: &str) -> (r: McpAction)
    ensures
        !has_id ==> r is NoReply,
        has_id ==> {
            &&& (method@ == "initialize"@ ==> r is Initialize)
            &&& (method@ == "tools/list"@ ==> r is ListTools)
            &&& (method@ == "tools/call"@ && !has_params ==> r is MissingParams)
            &&& (method@ == "tools/call"@ && has_params ==> {
                &&& (tool_name@ == "search_context"@ ==> r is CallSearch)
                &&& (tool_name@ == "get_status"@ ==> r is CallStatus)
                &&& (tool_name@ != "search_context"@ && tool_name@ != "get_status"@
                    ==> r is UnknownTool)
            })
            &&& (method@ != "initialize"@ && method@ != "tools/list"@ && method@ != "tools/call"@
                ==> r is UnknownMethod)
        },
{
    if !has_id {
        return McpAction::NoReply;
    }
    proof {
        reveal_strlit("initialize");
        reveal_strlit("tools/list");
        reveal_strlit("tools/call");
        reveal_strlit("search_context");
        reveal_strlit("get_status");
        assert("initialize"@ != "tools/list"@) by {
            assert("initialize"@[0] == 'i');
            assert("tools/list"@[0] == 't');
        }
        assert("initialize"@ != "tools/call"@) by {
            assert("initialize"@[0] == 'i');
            assert("tools/call"@[0] == 't');
        }
        assert("tools/list"@ != "tools/call"@) by {
            assert("tools/list"@[6] == 'l');
            assert("tools/call"@[6] == 'c');
        }
        assert("search_context"@ != "get_status"@) by {
            assert("search_context"@.len() == 14);
            assert("get_status"@.len() == 10);
        }
    }
    if str_eq(method, "initialize") {
        McpAction::Initialize
    } else if str_eq(method, "tools/list") {
        McpAction::ListTools
    } else if str_eq(method, "tools/call") {
        if !has_params {
            McpAction::MissingParams
        } else if str_eq(tool_name, "search_context") {
            McpAction::CallSearch
        } else if str_eq(tool_name, "get_status") {
            McpAction::CallStatus
        } else {
            McpAction::UnknownTool
        }
    } else {
        McpAction::UnknownMethod
    }
}

/// The protocol error code each failed action reports.
pub fn mcp_error_code(action: &McpAction) -> (r: i64)
    ensures
        r == match action {
            McpAction::UnknownTool => -32601int,
            McpAction::UnknownMethod => -32601int,
            McpAction::MissingParams => -32602int,
            _ => -32603int,
        },
{
    match action {
        McpAction::UnknownTool => -32601,
        McpAction::UnknownMethod => -32601,
        McpAction::MissingParams => -32602,
        _ => -32603,
    }
}

/// A query request as transport collaborators hand it to the core:
/// the query text, a result cap, a time window, post-filters, and the
/// scoring knobs (in micros).
pub struct QueryRequest {
    pub query: String,
    pub limit: Option<usize>,
    pub start_time: Option<u64>,
    pub end_time: Option<u64>,
    pub file_types: Option<Vec<String>>,
    pub paths: Option<Vec<String>>,
    pub min_score: Option<i64>,
    pub recency_weight: Option<i64>,
}

impl QueryRequest {
    /// A request with only the query text set.
    pub fn new(query: String) -> (r: QueryRequest)
        ensures
            r.query == query,
            r.limit is None,
            r.start_time is None,
            r.end_time is None,
            r.file_types is None,
            r.paths is None,
            r.min_score is None,
            r.recency_weight is None,
    {
        QueryRequest {
            query,
            limit: None,
            start_time: None,
            end_time: None,
            file_types: None,
            paths: None,
            min_score: None,
            recency_weight: None,
        }
    }

    /// The retrieval options this request selects; the request gives its
    /// filters up to them.
    pub fn into_options(self) -> (r: crate::search::SearchOptions)
        ensures
            r.limit == self.limit,
            r.start_time == self.start_time,
            r.end_time == self.end_time,
            r.file_types == self.file_types,
            r.paths == self.paths,
            r.min_score == self.min_score,
            r.recency_weight == self.recency_weight,
    {
        crate::search::SearchOptions {
            limit: self.limit,
            start_time: self.start_time,
            end_time: self.end_time,
            file_types: self.file_types,
            paths: self.paths,
            min_score: self.min_score,
            recency_weight: self.recency_weight,
        }
    }
}

} // verus!
