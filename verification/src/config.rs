//! Operations, raw options, and the resolved configuration.
//!
//! The raw command line carries a positional argument list plus two
//! optional overrides (store file, working directory).  Parsing the
//! positional list yields exactly one [`Operation`]; resolving the
//! overrides against the caller-supplied home directory and current
//! directory yields a [`Config`].

use crate::strings::decimal_string;
use crate::strings::spec_decimal;
use crate::strings::str_matches;
use vstd::prelude::*;

verus! {

/// What one invocation asks for.
#[derive(Debug, Clone, PartialEq)]
pub enum Operation {
    /// Print every visible value (`None`) or one key's value (`Some`).
    Print(Option<String>),
    /// Set a key to a value at the working directory.
    Add(String, String),
    /// Delete a key at the working directory.
    Remove(String),
}

/// A positional argument list that some operation accepts.
pub open spec fn args_wellformed(args: Seq<Seq<char>>) -> bool {
    if args.len() == 0 {
        true
    } else if args[0] == "add"@ {
        args.len() == 3
    } else if args[0] == "rm"@ {
        args.len() == 2
    } else {
        args.len() == 1
    }
}

/// `op` is the one operation that the list `args` denotes.
pub open spec fn op_matches(args: Seq<Seq<char>>, op: Operation) -> bool {
    match op {
        Operation::Print(opt) => match opt {
            None => args.len() == 0,
            Some(t) => args.len() == 1 && args[0] != "add"@ && args[0] != "rm"@ && t@ == args[0],
        },
        Operation::Add(k, v) => args.len() == 3 && args[0] == "add"@ && k@ == args[1] && v@
            == args[2],
        Operation::Remove(k) => args.len() == 2 && args[0] == "rm"@ && k@ == args[1],
    }
}

/// A wrong argument count, with the count that is reported.
#[derive(Debug, Clone, Copy, PartialEq)]
pub enum UsageError {
    /// `add` with other than two arguments after the verb.
    AddCount(usize),
    /// `rm` with other than one argument after the verb.
    RemoveCount(usize),
    /// Two or more positional arguments without a recognized verb.
    PrintCount(usize),
}

/// `e` is the one usage error that the list `args` provokes.
pub open spec fn usage_error_matches(args: Seq<Seq<char>>, e: UsageError) -> bool {
    match e {
        UsageError::AddCount(n) => args.len() > 0 && args[0] == "add"@ && args.len() != 3 && n
            == args.len() - 1,
        UsageError::RemoveCount(n) => args.len() > 0 && args[0] != "add"@ && args[0] == "rm"@
            && args.len() != 2 && n == args.len() - 1,
        UsageError::PrintCount(n) => args.len() > 1 && args[0] != "add"@ && args[0] != "rm"@ && n
            == args.len(),
    }
}

impl UsageError {
    /// The user-facing message, with the exact expected-vs-actual counts.
    pub fn message(&self) -> (r: String)
        ensures
            usage_message_matches(*self, r@),
    {
        match self {
            UsageError::AddCount(n) => String::from_str(
                "Operation 'add' expects 2 arguments, got ",
            ).concat(decimal_string(*n).as_str()).concat(" instead"),
            UsageError::RemoveCount(n) => String::from_str(
                "Operation 'remove' expects 1 arguments, got ",
            ).concat(decimal_string(*n).as_str()).concat(" instead"),
            UsageError::PrintCount(n) => String::from_str(
                "Operation 'print' expects 0 or 1 arguments, got ",
            ).concat(decimal_string(*n).as_str()).concat(" instead"),
        }
    }
}

impl Operation {
    /// Parses the positional argument list into the operation it denotes,
    /// or reports the exact count mismatch.
    pub fn from_args(args: &Vec<String>) -> (r: Result<Operation, UsageError>)
        ensures
            match r {
                Ok(op) => op_matches(args.deep_view(), op),
                Err(e) => usage_error_matches(args.deep_view(), e),
            },
    {
        let n = args.len();
        if n == 0 {
            return Ok(Operation::Print(None));
        }
        if str_matches(&args[0], "add") {
            if n != 3 {
                return Err(UsageError::AddCount(n - 1));
            }
            return Ok(Operation::Add(args[1].clone(), args[2].clone()));
        }
        if str_matches(&args[0], "rm") {
            if n != 2 {
                return Err(UsageError::RemoveCount(n - 1));
            }
            return Ok(Operation::Remove(args[1].clone()));
        }
        if n > 1 {
            return Err(UsageError::PrintCount(n));
        }
        Ok(Operation::Print(Some(args[0].clone())))
    }
}

/// The raw command-line options: positionals plus the two overrides.
#[derive(Debug, Clone)]
pub struct Opts {
    pub args: Vec<String>,
    pub config: Option<String>,
    pub pwd: Option<String>,
}

/// Why a configuration could not be resolved.
#[derive(Debug, Clone, PartialEq)]
pub enum ConfigError {
    /// The positional arguments fit no operation.
    Usage(UsageError),
    /// No store-file override and no home directory to default from.
    MissingHome,
    /// No working-directory override and no current directory to default
    /// from.
    MissingWorkingDir,
}

impl ConfigError {
    /// The user-facing message.
    pub fn message(&self) -> (r: String)
        ensures
            match *self {
                ConfigError::Usage(u) => usage_message_matches(u, r@),
                ConfigError::MissingHome => r@ == "Unable to find HOME"@,
                ConfigError::MissingWorkingDir => r@ == "Unable to get current_dir"@,
            },
    {
        match self {
            ConfigError::Usage(u) => u.message(),
            ConfigError::MissingHome => String::from_str("Unable to find HOME"),
            ConfigError::MissingWorkingDir => String::from_str("Unable to get current_dir"),
        }
    }
}

/// `m` is the message text of the usage error `u`.
pub open spec fn usage_message_matches(u: UsageError, m: Seq<char>) -> bool {
    match u {
        UsageError::AddCount(n) => m == "Operation 'add' expects 2 arguments, got "@
            + spec_decimal(n as nat) + " instead"@,
        UsageError::RemoveCount(n) => m == "Operation 'remove' expects 1 arguments, got "@
            + spec_decimal(n as nat) + " instead"@,
        UsageError::PrintCount(n) => m == "Operation 'print' expects 0 or 1 arguments, got "@
            + spec_decimal(n as nat) + " instead"@,
    }
}

/// A fully resolved invocation: the operation, the store file path, and
/// the working directory.
#[derive(Debug, Clone)]
pub struct Config {
    pub operation: Operation,
    pub config: String,
    pub pwd: String,
}

impl Config {
    /// Resolves the raw options against the caller's home directory and
    /// current working directory: overrides win; the store file defaults
    /// to `<home>/projector/projector.json`; each default that is needed
    /// but unavailable is an error.
    pub fn resolve(opts: Opts, home: Option<String>, cwd: Option<String>) -> (r: Result<
        Config,
        ConfigError,
    >)
        ensures
            match r {
                Ok(c) => {
                    &&& op_matches(opts.args.deep_view(), c.operation)
                    &&& match opts.config {
                        Some(cc) => c.config@ == cc@,
                        None => home is Some && c.config@ == home->0@
                            + "/projector/projector.json"@,
                    }
                    &&& match opts.pwd {
                        Some(p) => c.pwd@ == p@,
                        None => cwd is Some && c.pwd@ == cwd->0@,
                    }
                },
                Err(e) => match e {
                    ConfigError::Usage(u) => usage_error_matches(opts.args.deep_view(), u),
                    ConfigError::MissingHome => args_wellformed(opts.args.deep_view())
                        && opts.config is None && home is None,
                    ConfigError::MissingWorkingDir => args_wellformed(opts.args.deep_view()) && (
                    opts.config is Some || home is Some) && opts.pwd is None && cwd is None,
                },
            },
    {
        let operation = match Operation::from_args(&opts.args) {
            Ok(op) => op,
            Err(e) => {
                return Err(ConfigError::Usage(e));
            },
        };
        proof {
            reveal_strlit("add");
            reveal_strlit("rm");
            let a = opts.args.deep_view();
            assert(op_matches(a, operation));
            assert(("add"@).len() == 3);
            assert(("rm"@).len() == 2);
            assert("add"@ != "rm"@);
            if a.len() > 0 && a[0] == "add"@ {
                assert(operation is Add);
            } else if a.len() > 0 && a[0] == "rm"@ {
                assert(operation is Remove);
            } else if a.len() > 1 {
                assert(false);
            }
            assert(args_wellformed(a));
        }
        let config = match opts.config {
            Some(c) => c,
            None => match home {
                Some(h) => h.concat("/projector/projector.json"),
                None => {
                    return Err(ConfigError::MissingHome);
                },
            },
        };
        let pwd = match opts.pwd {
            Some(p) => p,
            None => match cwd {
                Some(c) => c,
                None => {
                    return Err(ConfigError::MissingWorkingDir);
                },
            },
        };
        Ok(Config { operation, config, pwd })
    }
}

} // verus!
