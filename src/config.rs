use crate::error::ProtoError;
use crate::params::{entries_map, ParamMap};
use crate::startup::StartupMessage;
use vstd::prelude::*;

verus! {

/// `std::time::SystemTime`, carried opaquely as the time a configuration was read.
#[verifier::external_type_specification]
#[verifier::external_body]
pub struct ExSystemTime(std::time::SystemTime);

/// Relies on `SystemTime`'s `Clone`, which std derives (the type is `Copy`):
/// the copy is the same instant.
pub assume_specification[ <std::time::SystemTime as Clone>::clone ](t: &std::time::SystemTime) -> (r: std::time::SystemTime)
    ensures
        r == *t,
;

/// Relies on `std::time::SystemTime::now`: the current time, of which
/// nothing more is promised.
#[verifier::external_body]
fn system_now() -> std::time::SystemTime {
    std::time::SystemTime::now()
}

/// The connection settings of one upstream database, under an alias.
#[derive(Debug, Clone)]
pub struct Database {
    pub dbname: String,
    pub user: String,
    pub host: String,
    pub password: Option<String>,
    pub port: String,
    pub pool_size: u32,
}

/// The proxy's settings: where to listen and which databases it fronts,
/// each under the alias that clients ask for.
#[derive(Debug, Clone)]
pub struct Config {
    pub bind_address: String,
    pub databases: Vec<(String, Database)>,
    pub updated_at: std::time::SystemTime,
}

/// The port used when a database entry names none.
pub fn default_port() -> (r: String)
    ensures
        r@ == "5432"@,
{
    "5432".to_owned()
}

/// The pool size used when a database entry names none.
pub fn default_pool_size() -> (r: u32)
    ensures
        r == 25,
{
    25
}

/// The alias under which `i` is stored is `name`.
pub open spec fn alias_at(c: Config, i: int) -> Seq<char> {
    c.databases@[i].0@
}

impl Config {
    /// Aliases are unique.
    pub open spec fn wf(&self) -> bool {
        forall|i: int, j: int|
            0 <= i < j < self.databases@.len() ==> alias_at(*self, i) != alias_at(*self, j)
    }

    /// A configuration with one database, `my_db_alias`, on the local host.
    pub fn example() -> (c: Self)
        ensures
            c.wf(),
            c.bind_address@ == "localhost:8432"@,
            c.databases@.len() == 1,
            alias_at(c, 0) == "my_db_alias"@,
            c.databases@[0].1.dbname@ == "dispatch_development"@,
            c.databases@[0].1.user@ == "testuser"@,
            c.databases@[0].1.host@ == "127.0.0.1"@,
            c.databases@[0].1.port@ == "5432"@,
            c.databases@[0].1.password matches Some(p) && p@ == "123456"@,
            c.databases@[0].1.pool_size == 25,
    {
        let db = Database {
            port: "5432".to_owned(),
            host: "127.0.0.1".to_owned(),
            dbname: "dispatch_development".to_owned(),
            user: "testuser".to_owned(),
            password: Some("123456".to_owned()),
            pool_size: 25,
        };
        let mut databases: Vec<(String, Database)> = Vec::new();
        databases.push(("my_db_alias".to_owned(), db));
        Config { updated_at: system_now(), bind_address: "localhost:8432".to_owned(), databases }
    }

    /// The database stored under `alias`: the first entry with that alias.
    pub fn database(&self, alias: &str) -> (r: Option<&Database>)
        ensures
            match r {
                Some(d) => exists|i: int|
                    0 <= i < self.databases@.len() && alias_at(*self, i) == alias@ && *d
                        == self.databases@[i].1 && forall|j: int| 0 <= j < i ==> alias_at(*self, j) != alias@,
                None => forall|i: int| 0 <= i < self.databases@.len() ==> alias_at(*self, i) != alias@,
            },
    {
        let n = self.databases.len();
        for i in 0..n
            invariant
                n == self.databases@.len(),
                forall|j: int| 0 <= j < i ==> alias_at(*self, j) != alias@,
        {
            if crate::params::same_key(self.databases[i].0.as_str(), alias) {
                assert(alias_at(*self, i as int) == alias@);
                return Some(&self.databases[i].1);
            }
        }
        None
    }

    /// The settings of the database that a client's startup message names.
    pub fn database_for(&self, startup_message: &StartupMessage) -> (r: Result<&Database, ProtoError>)
        requires
            startup_message.parameters.wf(),
        ensures
            match r {
                Ok(d) => entries_map(startup_message.parameters@).contains_key("database"@)
                    && exists|i: int|
                    0 <= i < self.databases@.len() && alias_at(*self, i) == entries_map(
                        startup_message.parameters@,
                    )["database"@] && *d == self.databases@[i].1,
                Err(e) => e == ProtoError::UnknownDatabase && (!entries_map(
                    startup_message.parameters@,
                ).contains_key("database"@) || forall|i: int|
                    0 <= i < self.databases@.len() ==> alias_at(*self, i) != entries_map(
                        startup_message.parameters@,
                    )["database"@]),
            },
    {
        let name = match startup_message.database_name() {
            Some(name) => name,
            None => return Err(ProtoError::UnknownDatabase),
        };
        match self.database(name.as_str()) {
            Some(d) => Ok(d),
            None => Err(ProtoError::UnknownDatabase),
        }
    }

    /// The pool size configured for the database that `startup_message` names.
    pub fn pool_size(&self, startup_message: &StartupMessage) -> (r: Result<u32, ProtoError>)
        requires
            startup_message.parameters.wf(),
        ensures
            match r {
                Ok(n) => exists|i: int|
                    0 <= i < self.databases@.len() && alias_at(*self, i) == entries_map(
                        startup_message.parameters@,
                    )["database"@] && n == self.databases@[i].1.pool_size,
                Err(e) => e == ProtoError::UnknownDatabase,
            },
            r is Ok <==> entries_map(startup_message.parameters@).contains_key("database"@)
                && exists|i: int|
                0 <= i < self.databases@.len() && alias_at(*self, i) == entries_map(
                    startup_message.parameters@,
                )["database"@],
    {
        match self.database_for(startup_message) {
            Ok(d) => Ok(d.pool_size),
            Err(e) => Err(e),
        }
    }
}

impl Database {
    /// The parameters that the upstream server must see: the real database
    /// name and the configured user.
    pub fn startup_parameters(&self) -> (r: ParamMap)
        ensures
            r.wf(),
            entries_map(r@) == Map::<Seq<char>, Seq<char>>::empty().insert("database"@, self.dbname@).insert(
                "user"@,
                self.user@,
            ),
    {
        let mut params = ParamMap::new();
        params.insert("database".to_owned(), self.dbname.clone());
        params.insert("user".to_owned(), self.user.clone());
        params
    }

    /// The startup message sent upstream for a client: the client's own,
    /// with `database` and `user` taken from this entry and
    /// `application_name` set to `tusq`.
    pub fn upstream_startup(&self, client: &StartupMessage) -> (r: StartupMessage)
        requires
            client.parameters.wf(),
        ensures
            r.protocol_version == client.protocol_version,
            r.parameters.wf(),
            entries_map(r.parameters@) == entries_map(client.parameters@).insert("database"@, self.dbname@).insert(
                "user"@,
                self.user@,
            ).insert("application_name"@, "tusq"@),
    {
        let mut parameters = client.parameters.cloned();
        parameters.insert("database".to_owned(), self.dbname.clone());
        parameters.insert("user".to_owned(), self.user.clone());
        parameters.insert("application_name".to_owned(), "tusq".to_owned());
        StartupMessage { protocol_version: client.protocol_version, parameters }
    }
}

} // verus!
