//! Reading the required settings out of a parsed configuration document.
//!
//! The document is an INI file parsed by the `ini` crate; its contents are
//! modeled as a map from section name to key/value map, and the lookups are
//! the only trusted calls. Everything required is checked before any network
//! or store activity: a missing section or key is reported exactly.

use crate::fetch::Scraper;
use ini::Ini;
use ini::Properties;
use vstd::prelude::*;

verus! {

#[verifier::external_type_specification]
#[verifier::external_body]
pub struct ExIni(Ini);

#[verifier::external_type_specification]
#[verifier::external_body]
pub struct ExProperties(Properties);

/// What a parsed configuration document holds: each named section's
/// key/value pairs.
pub uninterp spec fn ini_sections(conf: Ini) -> Map<Seq<char>, Map<Seq<char>, Seq<char>>>;

/// What one section holds.
pub uninterp spec fn props_map(p: Properties) -> Map<Seq<char>, Seq<char>>;

/// Relies on ini::Ini::section: finds the named section of the document, the
/// one [`ini_sections`] lists under that name.
#[verifier::external_body]
fn section_lookup<'a>(conf: &'a Ini, name: &str) -> (r: Option<&'a Properties>)
    ensures
        r is Some <==> ini_sections(*conf).contains_key(name@),
        r matches Some(p) ==> props_map(*p) == ini_sections(*conf)[name@],
{
    conf.section(Some(name))
}

/// Relies on ini::Properties::get: finds the first value stored under the
/// key, the one [`props_map`] lists.
#[verifier::external_body]
fn key_lookup(p: &Properties, key: &str) -> (r: Option<String>)
    ensures
        r is Some <==> props_map(*p).contains_key(key@),
        r matches Some(v) ==> v@ == props_map(*p)[key@],
{
    p.get(key).map(|s| s.to_owned())
}

/// The required keys of a store or provider section.
#[derive(Clone, Copy, PartialEq, Eq, Structural, Debug)]
pub enum ConfigKey {
    Host,
    Dbname,
    Username,
    Password,
}

/// A fatal configuration fault, reported before any network activity.
#[derive(Clone, Copy, PartialEq, Eq, Structural, Debug)]
pub enum ConfigError {
    MissingSection,
    MissingKey(ConfigKey),
}

/// The connection settings of the store.
pub struct Database {
    pub name: String,
    pub host: String,
    pub dbname: String,
    pub username: String,
    pub password: String,
}

impl Database {
    /// The store connection string: encrypted transport required, and the
    /// application named so the store can attribute its sessions.
    pub fn connection_string(&self) -> (r: String)
        ensures
            r@ == "postgres://"@ + self.username@ + ":"@ + self.password@ + "@"@ + self.host@
                + "/"@ + self.dbname@ + "?sslmode=require&application_name=elicznik"@,
    {
        let mut s = String::new();
        s.append("postgres://");
        s.append(self.username.as_str());
        s.append(":");
        s.append(self.password.as_str());
        s.append("@");
        s.append(self.host.as_str());
        s.append("/");
        s.append(self.dbname.as_str());
        s.append("?sslmode=require&application_name=elicznik");
        s
    }
}

/// What the store section must supply, and which fault a document draws:
/// the `postgres` section with `host`, `dbname`, `username` and `password`,
/// the first missing one reported.
pub open spec fn spec_read_postgres(conf: Ini) -> Result<(), ConfigError> {
    let m = ini_sections(conf);
    if !m.contains_key("postgres"@) {
        Err(ConfigError::MissingSection)
    } else {
        let s = m["postgres"@];
        if !s.contains_key("host"@) {
            Err(ConfigError::MissingKey(ConfigKey::Host))
        } else if !s.contains_key("dbname"@) {
            Err(ConfigError::MissingKey(ConfigKey::Dbname))
        } else if !s.contains_key("username"@) {
            Err(ConfigError::MissingKey(ConfigKey::Username))
        } else if !s.contains_key("password"@) {
            Err(ConfigError::MissingKey(ConfigKey::Password))
        } else {
            Ok(())
        }
    }
}

/// Read the store settings from the `postgres` section.
pub fn config_read_postgres(conf: &Ini) -> (r: Result<Database, ConfigError>)
    ensures
        ({
            let m = ini_sections(*conf);
            match r {
                Ok(db) => {
                    &&& m.contains_key("postgres"@)
                    &&& m["postgres"@].contains_key("host"@)
                    &&& m["postgres"@].contains_key("dbname"@)
                    &&& m["postgres"@].contains_key("username"@)
                    &&& m["postgres"@].contains_key("password"@)
                    &&& db.host@ == m["postgres"@]["host"@]
                    &&& db.dbname@ == m["postgres"@]["dbname"@]
                    &&& db.username@ == m["postgres"@]["username"@]
                    &&& db.password@ == m["postgres"@]["password"@]
                    &&& db.name@ == "postgres"@
                },
                Err(e) => spec_read_postgres(*conf) == Err::<(), ConfigError>(e),
            }
        }),
        r is Err <==> spec_read_postgres(*conf) is Err,
{
    let section = match section_lookup(conf, "postgres") {
        Some(s) => s,
        None => {
            return Err(ConfigError::MissingSection);
        },
    };
    let host = match key_lookup(section, "host") {
        Some(v) => v,
        None => {
            return Err(ConfigError::MissingKey(ConfigKey::Host));
        },
    };
    let dbname = match key_lookup(section, "dbname") {
        Some(v) => v,
        None => {
            return Err(ConfigError::MissingKey(ConfigKey::Dbname));
        },
    };
    let username = match key_lookup(section, "username") {
        Some(v) => v,
        None => {
            return Err(ConfigError::MissingKey(ConfigKey::Username));
        },
    };
    let password = match key_lookup(section, "password") {
        Some(v) => v,
        None => {
            return Err(ConfigError::MissingKey(ConfigKey::Password));
        },
    };
    Ok(Database { name: "postgres".to_owned(), host, dbname, username, password })
}

/// What the provider section must supply: `tauron` with `username` and
/// `password`, the first missing one reported.
pub open spec fn spec_read_tauron(conf: Ini) -> Result<(), ConfigError> {
    let m = ini_sections(conf);
    if !m.contains_key("tauron"@) {
        Err(ConfigError::MissingSection)
    } else {
        let s = m["tauron"@];
        if !s.contains_key("username"@) {
            Err(ConfigError::MissingKey(ConfigKey::Username))
        } else if !s.contains_key("password"@) {
            Err(ConfigError::MissingKey(ConfigKey::Password))
        } else {
            Ok(())
        }
    }
}

/// Read the provider settings from the `tauron` section and build the fetch
/// run for the given date range.
pub fn config_read_tauron(conf: &Ini, start_date: String, end_date: Option<String>) -> (r: Result<
    Scraper,
    ConfigError,
>)
    ensures
        ({
            let m = ini_sections(*conf);
            match r {
                Ok(sc) => {
                    &&& m.contains_key("tauron"@)
                    &&& m["tauron"@].contains_key("username"@)
                    &&& m["tauron"@].contains_key("password"@)
                    &&& sc.username@ == m["tauron"@]["username"@]
                    &&& sc.password@ == m["tauron"@]["password"@]
                    &&& sc.start_date == start_date
                    &&& sc.end_date == end_date
                    &&& sc.name@ == "tauron"@
                },
                Err(e) => spec_read_tauron(*conf) == Err::<(), ConfigError>(e),
            }
        }),
        r is Err <==> spec_read_tauron(*conf) is Err,
{
    let section = match section_lookup(conf, "tauron") {
        Some(s) => s,
        None => {
            return Err(ConfigError::MissingSection);
        },
    };
    let username = match key_lookup(section, "username") {
        Some(v) => v,
        None => {
            return Err(ConfigError::MissingKey(ConfigKey::Username));
        },
    };
    let password = match key_lookup(section, "password") {
        Some(v) => v,
        None => {
            return Err(ConfigError::MissingKey(ConfigKey::Password));
        },
    };
    Ok(Scraper { name: "tauron".to_owned(), username, password, start_date, end_date })
}

} // verus!
