//! The session that a statement runs in.
use vstd::prelude::*;
use crate::error::Error;
use crate::names::NameMap;
use crate::text;

pub mod meaning;

verus! {

/// What a statement sees of its session.
pub struct Context {
    /// The session's user.
    pub user: String,
    /// The session's variables, by their names in lower case.
    pub settings: NameMap<String>,
    pub database: String,
    pub schema: String,
    /// The schema of the session's temporary tables, where it is a real session.
    pub temp_schema: Option<String>,
}

/// The context pinned for the statement that runs, and what holds where none is pinned.
pub struct SessionState {
    pub pinned: Option<Context>,
    /// The user of a statement without a session.
    pub default_user: String,
    /// The version of the server.
    pub server_version: String,
}

/// The name of the database where none is pinned.
pub open spec fn default_database() -> Seq<char> {
    "nusadb"@
}

/// The name of the schema where none is pinned.
pub open spec fn default_schema() -> Seq<char> {
    "public"@
}

/// Pin the context of the statement about to run, in place of the one before.
pub fn set_session_context(
    state: &mut SessionState,
    user: String,
    settings: NameMap<String>,
    database: String,
    schema: String,
    temp_schema: Option<String>,
)
    ensures
        final(state).pinned == Some(Context { user, settings, database, schema, temp_schema }),
        final(state).default_user == old(state).default_user,
        final(state).server_version == old(state).server_version,
{
    state.pinned = Some(Context { user, settings, database, schema, temp_schema });
}

/// Pin only the user: no variables, and the default database and schema.
pub fn set_session_user(state: &mut SessionState, user: String)
    ensures
        final(state).default_user == old(state).default_user,
        final(state).server_version == old(state).server_version,
        final(state).pinned matches Some(c) && c.user == user && c.settings@ == Map::<
            Seq<char>,
            Seq<char>,
        >::empty() && c.database@ == default_database() && c.schema@ == default_schema()
            && c.temp_schema is None,
{
    set_session_context(
        state,
        user,
        NameMap::new(),
        "nusadb".to_owned(),
        "public".to_owned(),
        None,
    );
}

/// Pin the user with the session's variables. The database and the temporary schema are the
/// variables of the given names, where they are set; `schema` is what the search path leads to.
pub fn set_session_user_with_settings(
    state: &mut SessionState,
    user: String,
    settings: NameMap<String>,
    schema: String,
    database_setting: &str,
    temp_schema_setting: &str,
)
    ensures
        final(state).default_user == old(state).default_user,
        final(state).server_version == old(state).server_version,
        final(state).pinned matches Some(c) && c.user == user && c.settings == settings && c.schema
            == schema && c.database@ == (if settings@.contains_key(database_setting@) {
            settings@[database_setting@]
        } else {
            default_database()
        }) && match c.temp_schema {
            Some(t) => settings@.contains_key(temp_schema_setting@) && t@
                == settings@[temp_schema_setting@],
            None => !settings@.contains_key(temp_schema_setting@),
        },
{
    let database = match settings.get(database_setting) {
        Some(d) => d.clone(),
        None => "nusadb".to_owned(),
    };
    let temp_schema = match settings.get(temp_schema_setting) {
        Some(t) => Some(t.clone()),
        None => None,
    };
    set_session_context(state, user, settings, database, schema, temp_schema);
}

/// The user of the statement.
pub fn current_user(state: &SessionState) -> (r: String)
    ensures
        r@ == match state.pinned {
            Some(c) => c.user@,
            None => state.default_user@,
        },
{
    match &state.pinned {
        Some(c) => c.user.clone(),
        None => state.default_user.clone(),
    }
}

/// The database of the statement.
pub fn current_database(state: &SessionState) -> (r: String)
    ensures
        r@ == match state.pinned {
            Some(c) => c.database@,
            None => default_database(),
        },
{
    match &state.pinned {
        Some(c) => c.database.clone(),
        None => "nusadb".to_owned(),
    }
}

/// The schema of the statement.
pub fn current_schema(state: &SessionState) -> (r: String)
    ensures
        r@ == match state.pinned {
            Some(c) => c.schema@,
            None => default_schema(),
        },
{
    match &state.pinned {
        Some(c) => c.schema.clone(),
        None => "public".to_owned(),
    }
}

/// The schema of the session's temporary tables.
pub fn current_temp_schema(state: &SessionState) -> (r: Option<String>)
    ensures
        match state.pinned {
            Some(c) => match c.temp_schema {
                Some(t) => r matches Some(x) && x@ == t@,
                None => r is None,
            },
            None => r is None,
        },
{
    match &state.pinned {
        Some(c) => match &c.temp_schema {
            Some(t) => Some(t.clone()),
            None => None,
        },
        None => None,
    }
}

/// The value of a well-known parameter that is the same in every session.
pub open spec fn builtin_default(name: Seq<char>, server_version: Seq<char>) -> Option<Seq<char>> {
    if name == "server_version"@ {
        Some(server_version)
    } else if name == "server_encoding"@ || name == "client_encoding"@ {
        Some("UTF8"@)
    } else if name == "standard_conforming_strings"@ || name == "integer_datetimes"@ {
        Some("on"@)
    } else if name == "datestyle"@ {
        Some("ISO, MDY"@)
    } else if name == "timezone"@ {
        Some("UTC"@)
    } else {
        None
    }
}

/// The value of a well-known parameter that is the same in every session.
pub fn builtin_guc_static_default(name: &str, server_version: &str) -> (r: Option<String>)
    ensures
        match builtin_default(name@, server_version@) {
            Some(v) => r matches Some(x) && x@ == v,
            None => r is None,
        },
{
    if text::same_text(name, "server_version") {
        Some(server_version.to_owned())
    } else if text::same_text(name, "server_encoding") || text::same_text(name, "client_encoding") {
        Some("UTF8".to_owned())
    } else if text::same_text(name, "standard_conforming_strings") || text::same_text(
        name,
        "integer_datetimes",
    ) {
        Some("on".to_owned())
    } else if text::same_text(name, "datestyle") {
        Some("ISO, MDY".to_owned())
    } else if text::same_text(name, "timezone") {
        Some("UTC".to_owned())
    } else {
        None
    }
}

/// The value of the parameter of the (lower-case) name: the session's own, or else the built-in one.
pub open spec fn setting_value(state: SessionState, name: Seq<char>) -> Option<Seq<char>> {
    match state.pinned {
        Some(c) => if c.settings@.contains_key(name) {
            Some(c.settings@[name])
        } else {
            builtin_default(name, state.server_version@)
        },
        None => builtin_default(name, state.server_version@),
    }
}

/// The value of a parameter; its name is not case-sensitive.
pub fn setting(state: &SessionState, name: &str) -> (r: Option<String>)
    ensures
        match setting_value(*state, text::lower_seq(name@)) {
            Some(v) => r matches Some(x) && x@ == v,
            None => r is None,
        },
{
    let folded = text::to_lower(name);
    match &state.pinned {
        Some(c) => match c.settings.get(folded.as_str()) {
            Some(v) => Some(v.clone()),
            None => builtin_guc_static_default(folded.as_str(), state.server_version.as_str()),
        },
        None => builtin_guc_static_default(folded.as_str(), state.server_version.as_str()),
    }
}

/// Names that differ only in case name the same parameter.
pub proof fn law_parameter_names_fold(state: SessionState, a: Seq<char>, b: Seq<char>)
    requires
        text::lower_seq(a) == text::lower_seq(b),
    ensures
        setting_value(state, text::lower_seq(a)) == setting_value(state, text::lower_seq(b)),
        parameter_kind(a) == parameter_kind(b),
{
}

// ---------------------------------------------------------------- settable parameters

pub enum ParameterKind {
    /// It describes the server.
    Fixed,
    /// A session may set it.
    Settable,
    /// There is none of this name.
    Unknown,
}

/// What a session may do with the parameter `name`. A name with a dot is an application's own. The name
/// of the setting that bounds automatic retries, `max_autocommit_retries`, belongs to the retry loop and
/// is taken as given here.
pub open spec fn parameter_kind(name: Seq<char>) -> ParameterKind {
    let n = text::lower_seq(name);
    if n == "server_version"@ || n == "server_encoding"@ || n == "integer_datetimes"@ {
        ParameterKind::Fixed
    } else if n.contains('.') || n == "search_path"@ || n == "work_mem"@ || n
        == "statement_timeout"@ || n == "hnsw_ef_search"@ || n == "max_autocommit_retries"@ || n
        == "client_encoding"@ || n == "standard_conforming_strings"@ || n == "datestyle"@ || n
        == "timezone"@ || n == "transaction_isolation"@ || n == "default_transaction_isolation"@ {
        ParameterKind::Settable
    } else {
        ParameterKind::Unknown
    }
}

fn has_dot(s: &str) -> (r: bool)
    ensures
        r == s@.contains('.'),
{
    let cs = text::to_chars(s);
    let mut i: usize = 0;
    while i < cs.len()
        invariant
            i <= cs@.len(),
            cs@ == s@,
            forall|k: int| 0 <= k < i ==> cs@[k] != '.',
        decreases cs@.len() - i,
    {
        if cs[i] == '.' {
            assert(s@[i as int] == '.');
            return true;
        }
        i += 1;
    }
    false
}

/// Check that a session may set the parameter `name`, whatever the case it is written in.
///
/// Refused for a parameter that describes the server, and for one that is not known.
pub fn check_settable_parameter(name: &str) -> (r: Result<(), Error>)
    ensures
        match parameter_kind(name@) {
            ParameterKind::Fixed => r matches Err(Error::UnchangeableParameter(n)) && n@ == name@,
            ParameterKind::Settable => r == Ok::<(), Error>(()),
            ParameterKind::Unknown => r matches Err(Error::UnknownParameter(n)) && n@ == name@,
        },
{
    let folded = text::to_lower(name);
    let n = folded.as_str();
    if text::same_text(n, "server_version") || text::same_text(n, "server_encoding")
        || text::same_text(n, "integer_datetimes") {
        return Err(Error::UnchangeableParameter(name.to_owned()));
    }
    if has_dot(n) || text::same_text(n, "search_path") || text::same_text(n, "work_mem")
        || text::same_text(n, "statement_timeout") || text::same_text(n, "hnsw_ef_search")
        || text::same_text(n, "max_autocommit_retries") || text::same_text(n, "client_encoding")
        || text::same_text(n, "standard_conforming_strings") || text::same_text(n, "datestyle")
        || text::same_text(n, "timezone") || text::same_text(n, "transaction_isolation")
        || text::same_text(n, "default_transaction_isolation") {
        return Ok(());
    }
    Err(Error::UnknownParameter(name.to_owned()))
}

} // verus!
