use vstd::prelude::*;
use vstd::string::StringExecFns;

verus! {

/// What went wrong, with a one-line detail.
#[derive(Debug, Clone, PartialEq, Eq)]
pub enum ErrorKind {
    /// A key met twice while overwriting is off.
    DuplicateKey(String),
    /// A source file could not be opened, read or split into entries.
    FileError(String),
    JsonError(String),
    YamlError(String),
    TomlError(String),
    /// The process environment could not be read as name/value pairs.
    ParseError(String),
    /// The merged tree could not be read as the requested shape's root.
    BuildError(String),
    /// A value did not fit the shape asked of it: a kind mismatch, a missing
    /// field, or an enum written in a form that names no variant.
    SerdeError(String),
}

/// The error of building a configuration.
#[derive(Debug, Clone, PartialEq, Eq)]
pub struct ConfigError {
    pub kind: ErrorKind,
}

/// The tag that every rendered error starts with.
pub const CONFIG_ERROR_PREFIX: &'static str = "[CONFIG][ERROR]";

/// The tag that starts the detail of a materialization error.
pub const SERDE_ERROR_PREFIX: &'static str = "[CONFIG][ERROR][SERDE]";

pub open spec fn config_error_prefix() -> Seq<char> {
    "[CONFIG][ERROR]"@
}

/// The fixed words that open the detail of each kind.
pub open spec fn kind_lead(k: ErrorKind) -> Seq<char> {
    match k {
        ErrorKind::DuplicateKey(_) => "Overwrite is false, found key: "@,
        ErrorKind::FileError(_) => "File error: "@,
        ErrorKind::JsonError(_) => "Json parsing error: "@,
        ErrorKind::YamlError(_) => "Yaml parsing error: "@,
        ErrorKind::TomlError(_) => "Toml parsing error: "@,
        ErrorKind::ParseError(_) => "Environment parsing error: "@,
        ErrorKind::BuildError(_) => "Failed building config: "@,
        ErrorKind::SerdeError(_) => "Failed parsing error into serde: "@,
    }
}

/// The detail string that a kind carries.
pub open spec fn kind_detail(k: ErrorKind) -> String {
    match k {
        ErrorKind::DuplicateKey(d) => d,
        ErrorKind::FileError(d) => d,
        ErrorKind::JsonError(d) => d,
        ErrorKind::YamlError(d) => d,
        ErrorKind::TomlError(d) => d,
        ErrorKind::ParseError(d) => d,
        ErrorKind::BuildError(d) => d,
        ErrorKind::SerdeError(d) => d,
    }
}

/// The words that close the detail of each kind.
pub open spec fn kind_tail(k: ErrorKind) -> Seq<char> {
    match k {
        ErrorKind::DuplicateKey(_) => " is duplicated"@,
        _ => Seq::empty(),
    }
}

/// The one-line rendering of an error: the tag, a space, then the detail.
pub open spec fn rendered(e: ConfigError) -> Seq<char> {
    config_error_prefix() + " "@ + kind_lead(e.kind) + kind_detail(e.kind)@ + kind_tail(e.kind)
}

impl ConfigError {
    pub fn new(kind: ErrorKind) -> (r: ConfigError)
        ensures
            r.kind == kind,
    {
        ConfigError { kind }
    }

    pub fn duplicate_key(key: String) -> (r: ConfigError)
        ensures
            r.kind == ErrorKind::DuplicateKey(key),
    {
        ConfigError { kind: ErrorKind::DuplicateKey(key) }
    }

    /// The kind of this error.
    pub fn kind(&self) -> (r: &ErrorKind)
        ensures
            *r == self.kind,
    {
        &self.kind
    }

    fn detail(&self) -> (r: &String)
        ensures
            *r == kind_detail(self.kind),
    {
        match &self.kind {
            ErrorKind::DuplicateKey(d) => d,
            ErrorKind::FileError(d) => d,
            ErrorKind::JsonError(d) => d,
            ErrorKind::YamlError(d) => d,
            ErrorKind::TomlError(d) => d,
            ErrorKind::ParseError(d) => d,
            ErrorKind::BuildError(d) => d,
            ErrorKind::SerdeError(d) => d,
        }
    }

    /// Renders the error on one line, starting with `CONFIG_ERROR_PREFIX`.
    pub fn to_string(&self) -> (r: String)
        ensures
            r@ == rendered(*self),
    {
        proof {
            reveal_strlit("[CONFIG][ERROR]");
        }
        let mut r = String::from_str(CONFIG_ERROR_PREFIX);
        r.append(" ");
        let lead = match &self.kind {
            ErrorKind::DuplicateKey(_) => "Overwrite is false, found key: ",
            ErrorKind::FileError(_) => "File error: ",
            ErrorKind::JsonError(_) => "Json parsing error: ",
            ErrorKind::YamlError(_) => "Yaml parsing error: ",
            ErrorKind::TomlError(_) => "Toml parsing error: ",
            ErrorKind::ParseError(_) => "Environment parsing error: ",
            ErrorKind::BuildError(_) => "Failed building config: ",
            ErrorKind::SerdeError(_) => "Failed parsing error into serde: ",
        };
        r.append(lead);
        r.append(self.detail().as_str());
        match &self.kind {
            ErrorKind::DuplicateKey(_) => {
                r.append(" is duplicated");
            },
            _ => {},
        }
        r
    }
}

} // verus!
