//! Configuration: the indexed root, the database file and the skip
//! patterns, with `$VAR` and `~` expanded in both paths.
//!
//! Expansion uses `shellexpand` against an explicit environment (the
//! variables and home directory the caller read from the process), so that
//! it is a function of its inputs.
use vstd::prelude::*;

use crate::skip::{compile_all, Skip};
use crate::symlink::opt_view;
use crate::text::{owned, str_eq};

verus! {

/// Why a variable lookup failed.
#[derive(Debug, PartialEq, Eq, Structural, Clone, Copy)]
pub enum VarLookupError {
    /// No such variable.
    NotPresent,
    /// The variable's value is not valid Unicode.
    NotUnicode,
}

/// Why the configuration could not be loaded.
#[derive(Debug)]
pub enum ConfigError {
    DirectoryNotFound(String),
    FileNotFound(String),
    ProjectDirsError,
    IOError(String),
    TOMLError(String),
    EnvVariableError { var_name: String, cause: VarLookupError },
    ConfigFileNotFound(String),
}

/// How a failed lookup is described.
pub open spec fn cause_text(c: VarLookupError) -> Seq<char> {
    match c {
        VarLookupError::NotPresent => "environment variable not found"@,
        VarLookupError::NotUnicode => "environment variable was not valid unicode"@,
    }
}

/// How a failed expansion is described: the variable and why its lookup
/// failed.
pub open spec fn lookup_text(var_name: Seq<char>, cause: VarLookupError) -> Seq<char> {
    "error looking key '"@ + var_name + "' up: "@ + cause_text(cause)
}

/// The message that describes a configuration error.
pub open spec fn config_message(e: &ConfigError) -> Seq<char> {
    match e {
        ConfigError::DirectoryNotFound(p) => "Directory not found: "@ + p@,
        ConfigError::FileNotFound(p) => "File not found: "@ + p@,
        ConfigError::ProjectDirsError => "ProjectDirs error"@,
        ConfigError::IOError(m) => "IOError: "@ + m@,
        ConfigError::TOMLError(m) => "TOMLError: "@ + m@,
        ConfigError::EnvVariableError { var_name, cause } => "EnvVariableError: "@ + lookup_text(
            var_name@,
            *cause,
        ),
        ConfigError::ConfigFileNotFound(p) => "Config file not found: "@ + p@,
    }
}

/// The description of a failed lookup of `var_name`.
pub fn lookup_message(var_name: &str, cause: VarLookupError) -> (m: String)
    ensures
        m@ == lookup_text(var_name@, cause),
{
    let mut m = String::new();
    m.append("error looking key '");
    m.append(var_name);
    m.append("' up: ");
    match cause {
        VarLookupError::NotPresent => m.append("environment variable not found"),
        VarLookupError::NotUnicode => m.append("environment variable was not valid unicode"),
    }
    proof {
        assert(Seq::<char>::empty() + "error looking key '"@ =~= "error looking key '"@);
    }
    m
}

impl ConfigError {
    /// The error's message.
    pub fn message(&self) -> (m: String)
        ensures
            m@ == config_message(self),
    {
        let mut m = String::new();
        match self {
            ConfigError::DirectoryNotFound(p) => {
                m.append("Directory not found: ");
                m.append(p.as_str());
            },
            ConfigError::FileNotFound(p) => {
                m.append("File not found: ");
                m.append(p.as_str());
            },
            ConfigError::ProjectDirsError => {
                m.append("ProjectDirs error");
            },
            ConfigError::IOError(e) => {
                m.append("IOError: ");
                m.append(e.as_str());
            },
            ConfigError::TOMLError(e) => {
                m.append("TOMLError: ");
                m.append(e.as_str());
            },
            ConfigError::EnvVariableError { var_name, cause } => {
                m.append("EnvVariableError: ");
                let text = lookup_message(var_name.as_str(), *cause);
                m.append(text.as_str());
            },
            ConfigError::ConfigFileNotFound(p) => {
                m.append("Config file not found: ");
                m.append(p.as_str());
            },
        }
        proof {
            assert(Seq::<char>::empty() + "Directory not found: "@ =~= "Directory not found: "@);
            assert(Seq::<char>::empty() + "File not found: "@ =~= "File not found: "@);
            assert(Seq::<char>::empty() + "ProjectDirs error"@ =~= "ProjectDirs error"@);
            assert(Seq::<char>::empty() + "IOError: "@ =~= "IOError: "@);
            assert(Seq::<char>::empty() + "TOMLError: "@ =~= "TOMLError: "@);
            assert(Seq::<char>::empty() + "EnvVariableError: "@ =~= "EnvVariableError: "@);
            assert(Seq::<char>::empty() + "Config file not found: "@ =~= "Config file not found: "@);
        }
        m
    }
}

/// The `[paths]` table of the configuration file, as written.
pub struct TOMLPaths {
    pub root: String,
    pub database: String,
}

/// The paths of the configuration, expanded.
pub struct Paths {
    pub root: String,
    pub database: String,
}

/// The whole configuration.
pub struct Config {
    pub paths: Paths,
    pub skip: Skip,
}

/// The process environment as seen by expansion: each variable with its
/// value (`None` when it is not valid Unicode), and the home directory.
pub struct Environment {
    vars: Vec<(String, Option<String>)>,
    home: Option<String>,
}

/// An environment as mathematical values.
pub struct EnvView {
    pub vars: Seq<(Seq<char>, Option<Seq<char>>)>,
    pub home: Option<Seq<char>>,
}

impl View for Environment {
    type V = EnvView;

    closed spec fn view(&self) -> EnvView {
        EnvView {
            vars: self.vars@.map_values(|v: (String, Option<String>)| (v.0@, opt_view(v.1))),
            home: opt_view(self.home),
        }
    }
}

/// The value of variable `name`: the first entry with that name decides.
pub open spec fn var_lookup(vars: Seq<(Seq<char>, Option<Seq<char>>)>, name: Seq<char>) -> Result<
    Option<Seq<char>>,
    VarLookupError,
>
    decreases vars.len(),
{
    if vars.len() == 0 {
        Err(VarLookupError::NotPresent)
    } else if vars[0].0 == name {
        match vars[0].1 {
            Some(v) => Ok(Some(v)),
            None => Err(VarLookupError::NotUnicode),
        }
    } else {
        var_lookup(vars.drop_first(), name)
    }
}

/// The result of `shellexpand::env_with_context` on `input` with lookups in
/// `vars`: the expanded text, or the name of the variable whose lookup
/// failed.
pub uninterp spec fn env_expansion(input: Seq<char>, vars: Seq<(Seq<char>, Option<Seq<char>>)>) -> Result<
    Seq<char>,
    Seq<char>,
>;

/// Whether a text holds a `$`, which starts a variable reference.
pub open spec fn has_reference(input: Seq<char>) -> bool {
    input.contains('$')
}

/// `~` expansion: a leading `~` alone or followed by `/` becomes the home
/// directory, when it is known; anything else is left as is.
pub open spec fn tilde_expanded(input: Seq<char>, home: Option<Seq<char>>) -> Seq<char> {
    if input.len() > 0 && input[0] == '~' && (input.len() == 1 || input[1] == '/') {
        match home {
            Some(h) => h + input.drop_first(),
            None => input,
        }
    } else {
        input
    }
}

/// Full expansion: variables first, then `~`.
pub open spec fn expanded(input: Seq<char>, env: EnvView) -> Result<Seq<char>, Seq<char>> {
    match env_expansion(input, env.vars) {
        Ok(s) => Ok(tilde_expanded(s, env.home)),
        Err(name) => Err(name),
    }
}

impl Environment {
    /// An environment with the given variables and home directory.
    pub fn new(vars: Vec<(String, Option<String>)>, home: Option<String>) -> (r: Self)
        ensures
            r@.vars == vars@.map_values(|v: (String, Option<String>)| (v.0@, opt_view(v.1))),
            r@.home == opt_view(home),
    {
        Environment { vars, home }
    }

    /// The home directory, if known.
    pub fn home_dir(&self) -> (r: Option<String>)
        ensures
            opt_view(r) == self@.home,
    {
        match &self.home {
            Some(h) => Some(owned(h.as_str())),
            None => None,
        }
    }

    /// Looks variable `name` up.
    pub fn lookup(&self, name: &str) -> (r: Result<Option<String>, VarLookupError>)
        ensures
            match r {
                Ok(Some(v)) => var_lookup(self@.vars, name@) == Ok::<
                    Option<Seq<char>>,
                    VarLookupError,
                >(Some(v@)),
                Ok(None) => var_lookup(self@.vars, name@) == Ok::<
                    Option<Seq<char>>,
                    VarLookupError,
                >(None),
                Err(e) => var_lookup(self@.vars, name@) == Err::<Option<Seq<char>>, VarLookupError>(
                    e,
                ),
            },
    {
        let ghost vs = self@.vars;
        let mut i: usize = 0;
        proof {
            assert(vs.skip(0) =~= vs);
        }
        while i < self.vars.len()
            invariant
                i <= self.vars.len(),
                vs == self@.vars,
                vs.len() == self.vars@.len(),
                var_lookup(vs, name@) == var_lookup(vs.skip(i as int), name@),
            decreases self.vars.len() - i,
        {
            proof {
                assert(vs[i as int] == (self.vars@[i as int].0@, opt_view(self.vars@[i as int].1)));
                assert(vs.skip(i as int)[0] == vs[i as int]);
                assert(vs.skip(i as int).drop_first() =~= vs.skip(i + 1));
            }
            if str_eq(self.vars[i].0.as_str(), name) {
                return match &self.vars[i].1 {
                    Some(v) => Ok(Some(owned(v.as_str()))),
                    None => Err(VarLookupError::NotUnicode),
                };
            }
            i += 1;
        }
        proof {
            assert(vs.skip(i as int).len() == 0);
        }
        Err(VarLookupError::NotPresent)
    }
}

/// `shellexpand::env_with_context` on `input`, with lookups answered by
/// `Environment::lookup`: the expanded text, or the name of the variable
/// whose lookup failed. The result is named `env_expansion`; the contract
/// also states that text without `$` is returned as is, as the source does.
#[verifier::external_body]
fn expand_vars(input: &str, env: &Environment) -> (r: Result<String, String>)
    ensures
        r matches Ok(s) ==> (env_expansion(input@, env@.vars) matches Ok(t) && t == s@),
        r matches Err(n) ==> (env_expansion(input@, env@.vars) matches Err(t) && t == n@),
        !has_reference(input@) ==> r is Ok && r->Ok_0@ == input@,
{
    match shellexpand::env_with_context(input, |name: &str| env.lookup(name)) {
        Ok(s) => Ok(s.into_owned()),
        Err(e) => Err(e.var_name),
    }
}

/// `shellexpand::tilde_with_context` on `input`, with the home directory
/// from `env`: a leading `~` alone or followed by `/` becomes the home
/// directory when it is known (on Unix, where `\` is no separator).
#[verifier::external_body]
fn expand_tilde(input: &str, env: &Environment) -> (r: String)
    ensures
        r@ == tilde_expanded(input@, env@.home),
{
    shellexpand::tilde_with_context(input, || env.home_dir()).into_owned()
}

/// Expands `$VAR`/`${VAR}` references, then a leading `~`.
pub fn expand(input: &str, env: &Environment) -> (r: Result<String, ConfigError>)
    ensures
        match r {
            Ok(s) => expanded(input@, env@) == Ok::<Seq<char>, Seq<char>>(s@),
            Err(ConfigError::EnvVariableError { var_name, cause }) => expanded(input@, env@) == Err::<
                Seq<char>,
                Seq<char>,
            >(var_name@) && (var_lookup(env@.vars, var_name@) is Err ==> var_lookup(
                env@.vars,
                var_name@,
            ) == Err::<Option<Seq<char>>, VarLookupError>(cause)),
            Err(_) => false,
        },
        !has_reference(input@) ==> (r matches Ok(s) && s@ == tilde_expanded(input@, env@.home)),
{
    match expand_vars(input, env) {
        Ok(s) => Ok(expand_tilde(s.as_str(), env)),
        Err(name) => {
            let cause = match env.lookup(name.as_str()) {
                Err(c) => c,
                Ok(_) => VarLookupError::NotPresent,
            };
            Err(ConfigError::EnvVariableError { var_name: name, cause })
        },
    }
}

impl Paths {
    /// Expands both paths of the `[paths]` table.
    pub fn default(tp: TOMLPaths, env: &Environment) -> (r: Result<Self, ConfigError>)
        ensures
            r matches Ok(p) ==> expanded(tp.root@, env@) == Ok::<Seq<char>, Seq<char>>(p.root@)
                && expanded(tp.database@, env@) == Ok::<Seq<char>, Seq<char>>(p.database@),
            r is Err <==> expanded(tp.root@, env@) is Err || expanded(tp.database@, env@) is Err,
            r matches Err(e) ==> e matches ConfigError::EnvVariableError { var_name, cause } && (
            match expanded(tp.root@, env@) {
                Err(n) => n == var_name@,
                Ok(_) => expanded(tp.database@, env@) == Err::<Seq<char>, Seq<char>>(var_name@),
            }),
            !has_reference(tp.root@) && !has_reference(tp.database@) ==> (r matches Ok(p) && p.root@
                == tilde_expanded(tp.root@, env@.home) && p.database@ == tilde_expanded(
                tp.database@,
                env@.home,
            )),
    {
        let root = expand(tp.root.as_str(), env)?;
        let database = expand(tp.database.as_str(), env)?;
        Ok(Paths { root, database })
    }
}

impl Config {
    /// The configuration from the `[paths]` table and the `[skip]` patterns
    /// (empty when the table is absent).
    pub fn from_parts(tp: TOMLPaths, skip_patterns: &[String], env: &Environment) -> (r: Result<
        Self,
        ConfigError,
    >)
        ensures
            r matches Ok(c) ==> expanded(tp.root@, env@) == Ok::<Seq<char>, Seq<char>>(
                c.paths.root@,
            ) && expanded(tp.database@, env@) == Ok::<Seq<char>, Seq<char>>(c.paths.database@)
                && c.skip@ == compile_all(skip_patterns@.map_values(|s: String| s@)),
            r is Err <==> expanded(tp.root@, env@) is Err || expanded(tp.database@, env@) is Err,
            r matches Err(e) ==> e matches ConfigError::EnvVariableError { var_name, cause } && (
            match expanded(tp.root@, env@) {
                Err(n) => n == var_name@,
                Ok(_) => expanded(tp.database@, env@) == Err::<Seq<char>, Seq<char>>(var_name@),
            }),
            !has_reference(tp.root@) && !has_reference(tp.database@) ==> (r matches Ok(c) && c.paths.root@
                == tilde_expanded(tp.root@, env@.home) && c.paths.database@ == tilde_expanded(
                tp.database@,
                env@.home,
            )),
    {
        let paths = Paths::default(tp, env)?;
        Ok(Config { paths, skip: Skip::new(skip_patterns) })
    }
}

} // verus!
