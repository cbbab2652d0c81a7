//! The deployment environment and the names of the configuration variables.
use vstd::prelude::*;

use vstd::std_specs::convert::FromSpecImpl;

use crate::text::str_eq;

verus! {

/// The environment the service runs in.
#[derive(Clone, Copy, Debug, PartialEq, Eq, Structural)]
pub enum ENV {
    Development,
    Production,
}

/// The name of an environment, as it is written in configuration.
pub open spec fn env_name(env: ENV) -> Seq<char> {
    match env {
        ENV::Development => "Development"@,
        ENV::Production => "Production"@,
    }
}

/// The environment a name denotes: `Production` for `"Production"`, and
/// `Development` for `"Development"` and for any other text.
pub open spec fn env_from_name(name: Seq<char>) -> ENV {
    if name == "Production"@ {
        ENV::Production
    } else {
        ENV::Development
    }
}

impl ENV {
    /// The name of the environment: `"Development"` or `"Production"`.
    pub fn to_string(&self) -> (r: String)
        ensures
            r@ == env_name(*self),
    {
        match self {
            ENV::Development => String::from_str("Development"),
            ENV::Production => String::from_str("Production"),
        }
    }
}

impl FromSpecImpl<&str> for ENV {
    open spec fn obeys_from_spec() -> bool {
        true
    }

    open spec fn from_spec(env: &str) -> ENV {
        env_from_name(env@)
    }
}

impl From<&str> for ENV {
    /// Reads an environment name; any text other than `"Development"` and
    /// `"Production"` falls back to `Development`.
    fn from(env: &str) -> (r: ENV) {
        if str_eq(env, "Development") {
            proof {
                reveal_strlit("Development");
                reveal_strlit("Production");
                assert(env@ != "Production"@) by {
                    assert(env@.len() != "Production"@.len());
                }
            }
            ENV::Development
        } else if str_eq(env, "Production") {
            ENV::Production
        } else {
            ENV::Development
        }
    }
}

/// Reading back the name of an environment gives that environment.
pub proof fn law_env_name_round_trip(env: ENV)
    ensures
        env_from_name(env_name(env)) == env,
{
    reveal_strlit("Development");
    reveal_strlit("Production");
    assert("Development"@.len() != "Production"@.len());
}

/// The names of the configuration variables that the service reads.
#[derive(Clone, Copy, Debug, PartialEq, Eq, Structural)]
pub enum Env {
    Env,
    ServerPort,
    ServerHost,
    DatabaseUrl,
    DbPort,
    DbHost,
    DbUser,
    DbPassword,
    DbName,
}

/// The environment variable that holds a configuration value.
pub open spec fn env_key(key: Env) -> Seq<char> {
    match key {
        Env::Env => "ENV"@,
        Env::ServerPort => "SERVER_PORT"@,
        Env::ServerHost => "SERVER_HOST"@,
        Env::DatabaseUrl => "DATABASE_URL"@,
        Env::DbPort => "DB_PORT"@,
        Env::DbHost => "DB_HOST"@,
        Env::DbUser => "DB_USER"@,
        Env::DbPassword => "DB_PASSWORD"@,
        Env::DbName => "DB_NAME"@,
    }
}

impl Env {
    /// The name of the environment variable for this value, such as
    /// `"DB_HOST"` for `Env::DbHost`.
    pub fn to_string(&self) -> (r: String)
        ensures
            r@ == env_key(*self),
    {
        match self {
            Env::Env => String::from_str("ENV"),
            Env::ServerPort => String::from_str("SERVER_PORT"),
            Env::ServerHost => String::from_str("SERVER_HOST"),
            Env::DatabaseUrl => String::from_str("DATABASE_URL"),
            Env::DbPort => String::from_str("DB_PORT"),
            Env::DbHost => String::from_str("DB_HOST"),
            Env::DbUser => String::from_str("DB_USER"),
            Env::DbPassword => String::from_str("DB_PASSWORD"),
            Env::DbName => String::from_str("DB_NAME"),
        }
    }
}

/// Different configuration values are read from different variables.
pub proof fn law_env_keys_distinct(a: Env, b: Env)
    ensures
        env_key(a) == env_key(b) ==> a == b,
{
    reveal_strlit("ENV");
    reveal_strlit("SERVER_PORT");
    reveal_strlit("SERVER_HOST");
    reveal_strlit("DATABASE_URL");
    reveal_strlit("DB_PORT");
    reveal_strlit("DB_HOST");
    reveal_strlit("DB_USER");
    reveal_strlit("DB_PASSWORD");
    reveal_strlit("DB_NAME");
    if env_key(a) == env_key(b) && a != b {
        let ka = env_key(a);
        let kb = env_key(b);
        assert(ka.len() == kb.len());
        assert(ka[3] == kb[3]);
        assert(ka[4] == kb[4]);
        assert(ka[7] == kb[7]);
    }
}

} // verus!
