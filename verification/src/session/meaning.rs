//! What a session's parameters are, and which of them can be set.
use vstd::prelude::*;
use crate::session;
use crate::session::{Context, ParameterKind, SessionState};
use crate::text;

verus! {

proof fn lemma_names_differ()
    ensures
        "server_version"@.len() == 14,
        "server_encoding"@.len() == 15,
        "client_encoding"@.len() == 15,
        "client_encoding"@[0] == 'c',
        "server_encoding"@[0] == 's',
        "standard_conforming_strings"@.len() == 27,
        "integer_datetimes"@.len() == 17,
        "datestyle"@.len() == 9,
        "timezone"@.len() == 8,
        !"server_version"@.contains('.'),
        !"server_encoding"@.contains('.'),
        !"integer_datetimes"@.contains('.'),
        "timezone"@[0] == 't',
        "work_mem"@.len() == 8,
        "work_mem"@[0] == 'w',
        "search_path"@.len() == 11,
        "statement_timeout"@.len() == 17,
        "statement_timeout"@[0] == 's',
        "integer_datetimes"@[0] == 'i',
        "hnsw_ef_search"@.len() == 14,
        "hnsw_ef_search"@[0] == 'h',
        "server_version"@[0] == 's',
{
    reveal_strlit("server_version");
    reveal_strlit("server_encoding");
    reveal_strlit("client_encoding");
    reveal_strlit("standard_conforming_strings");
    reveal_strlit("integer_datetimes");
    reveal_strlit("datestyle");
    reveal_strlit("timezone");
    reveal_strlit("work_mem");
    reveal_strlit("search_path");
    reveal_strlit("statement_timeout");
    reveal_strlit("hnsw_ef_search");
}

/// What a session has set stands in front of what every session has.
pub proof fn law_session_settings_come_first(state: SessionState, c: Context, name: Seq<char>)
    ensures
        state.pinned == Some(c) && c.settings@.contains_key(name) ==> session::setting_value(state, name) == Some(
            c.settings@[name],
        ),
        state.pinned == Some(c) && !c.settings@.contains_key(name) ==> session::setting_value(state, name)
            == session::setting_value(SessionState { pinned: None, ..state }, name),
{
}

/// Without a setting of its own a session has the server's version, UTF-8, dates in ISO form and the time
/// zone UTC.
pub proof fn law_sessions_have_defaults(state: SessionState)
    requires
        state.pinned is None,
    ensures
        session::setting_value(state, "server_version"@) == Some(state.server_version@),
        session::setting_value(state, "server_encoding"@) == Some("UTF8"@),
        session::setting_value(state, "client_encoding"@) == Some("UTF8"@),
        session::setting_value(state, "standard_conforming_strings"@) == Some("on"@),
        session::setting_value(state, "integer_datetimes"@) == Some("on"@),
        session::setting_value(state, "datestyle"@) == Some("ISO, MDY"@),
        session::setting_value(state, "timezone"@) == Some("UTC"@),
        session::setting_value(state, "work_mem"@) is None,
        session::setting_value(state, "search_path"@) is None,
        session::default_database() == "nusadb"@,
        session::default_schema() == "public"@,
{
    lemma_names_differ();
}

/// What describes the server cannot be set, in whatever case it is named. The common settings can, and so
/// can any name with a dot.
pub proof fn law_what_describes_the_server_cannot_be_set(name: Seq<char>)
    ensures
        ({
            let n = text::lower_seq(name);
            let kind = session::parameter_kind(name);
            &&& n == "server_version"@ ==> kind is Fixed
            &&& n == "server_encoding"@ ==> kind is Fixed
            &&& n == "integer_datetimes"@ ==> kind is Fixed
            &&& n.contains('.') ==> kind is Settable
            &&& n == "search_path"@ ==> kind is Settable
            &&& n == "work_mem"@ ==> kind is Settable
            &&& n == "statement_timeout"@ ==> kind is Settable
            &&& n == "hnsw_ef_search"@ ==> kind is Settable
            &&& n == "client_encoding"@ ==> kind is Settable
            &&& n == "standard_conforming_strings"@ ==> kind is Settable
            &&& n == "datestyle"@ ==> kind is Settable
            &&& n == "timezone"@ ==> kind is Settable
            &&& n.len() == 0 ==> kind is Unknown
        }),
{
    lemma_names_differ();
    if text::lower_seq(name).len() == 0 {
        reveal_strlit("max_autocommit_retries");
        reveal_strlit("transaction_isolation");
        reveal_strlit("default_transaction_isolation");
    }
}

} // verus!
