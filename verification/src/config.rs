use vstd::prelude::*;

verus! {

/// A setting of the database connection that is missing.
#[derive(Clone, Copy, Debug, PartialEq, Eq, Structural)]
pub enum ParseConfigsError {
    Address,
    User,
    Password,
}

/// Why the configuration could not be put together.
#[derive(Clone, Copy, Debug, PartialEq, Eq, Structural)]
pub enum Error {
    ParseConfigs(ParseConfigsError),
}

impl ParseConfigsError {
    /// What the error says to the operator.
    pub open spec fn spec_message(&self) -> Seq<char> {
        match self {
            ParseConfigsError::Address => "couldn't read DATABASE_ADDRESS env variable"@,
            ParseConfigsError::User => "couldn't read DATABASE_USER env variable"@,
            ParseConfigsError::Password => "couldn't read DATABASE_PASSWORD env variable"@,
        }
    }

    /// What the error says to the operator.
    pub fn message(&self) -> (m: &'static str)
        ensures
            m@ == self.spec_message(),
    {
        match self {
            ParseConfigsError::Address => "couldn't read DATABASE_ADDRESS env variable",
            ParseConfigsError::User => "couldn't read DATABASE_USER env variable",
            ParseConfigsError::Password => "couldn't read DATABASE_PASSWORD env variable",
        }
    }
}

impl Error {
    /// What the error says to the operator.
    pub open spec fn spec_message(&self) -> Seq<char> {
        match self {
            Error::ParseConfigs(e) => e.spec_message(),
        }
    }

    /// What the error says to the operator.
    pub fn message(&self) -> (m: &'static str)
        ensures
            m@ == self.spec_message(),
    {
        match self {
            Error::ParseConfigs(e) => e.message(),
        }
    }
}

/// How to reach the database.
#[derive(Clone, Debug, PartialEq, Eq)]
pub struct DBConf {
    pub addr: String,
    pub user: String,
    pub pwd: String,
}

impl DBConf {
    /// Puts the settings together from the values of the variables
    /// `DATABASE_ADDRESS`, `DATABASE_USER` and `DATABASE_PASSWORD`, each
    /// `None` where the variable could not be read. The first one that is
    /// missing, in this order, is the error.
    pub fn parse(addr: Option<String>, user: Option<String>, pwd: Option<String>) -> (r: Result<
        DBConf,
        Error,
    >)
        ensures
            match (addr, user, pwd) {
                (Some(a), Some(u), Some(p)) => r matches Ok(conf) && conf.addr == a && conf.user
                    == u && conf.pwd == p,
                (None, _, _) => r == Err::<DBConf, Error>(
                    Error::ParseConfigs(ParseConfigsError::Address),
                ),
                (Some(_), None, _) => r == Err::<DBConf, Error>(
                    Error::ParseConfigs(ParseConfigsError::User),
                ),
                (Some(_), Some(_), None) => r == Err::<DBConf, Error>(
                    Error::ParseConfigs(ParseConfigsError::Password),
                ),
            },
    {
        let addr = match addr {
            Some(a) => a,
            None => {
                return Err(Error::ParseConfigs(ParseConfigsError::Address));
            },
        };
        let user = match user {
            Some(u) => u,
            None => {
                return Err(Error::ParseConfigs(ParseConfigsError::User));
            },
        };
        let pwd = match pwd {
            Some(p) => p,
            None => {
                return Err(Error::ParseConfigs(ParseConfigsError::Password));
            },
        };
        Ok(DBConf { addr, user, pwd })
    }
}

} // verus!
