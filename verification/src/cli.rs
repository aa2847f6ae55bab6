//! The command line.

use crate::text::{decimal, push_decimal, same, views};
use vstd::prelude::*;
use vstd::string::*;

verus! {

/// What the command line asks for.
#[derive(Debug)]
pub enum Command {
    /// Serve the configuration, or only validate it.
    Run { config: String, test_only: bool },
    /// Print the version.
    Version,
    /// Print the help.
    Help,
    /// Report a mistake, with the help behind it or not, and fail.
    Usage { message: String, with_help: bool },
}

/// Model of a [`Command`].
pub enum CommandV {
    Run { config: Seq<char>, test_only: bool },
    Version,
    Help,
    Usage { message: Seq<char>, with_help: bool },
}

impl View for Command {
    type V = CommandV;

    open spec fn view(&self) -> CommandV {
        match self {
            Command::Run { config, test_only } => CommandV::Run {
                config: config@,
                test_only: *test_only,
            },
            Command::Version => CommandV::Version,
            Command::Help => CommandV::Help,
            Command::Usage { message, with_help } => CommandV::Usage {
                message: message@,
                with_help: *with_help,
            },
        }
    }
}

/// What the arguments ask for when `config` and `test_only` are set so far.
/// The first argument that ends it decides.
pub open spec fn command_of(args: Seq<Seq<char>>, config: Seq<char>, test_only: bool) -> CommandV
    decreases args.len(),
{
    if args.len() == 0 {
        CommandV::Run { config, test_only }
    } else if args[0] == "-c"@ || args[0] == "--config"@ {
        if args.len() == 1 {
            CommandV::Usage {
                message: "error: "@ + args[0] + " requires a path argument"@,
                with_help: false,
            }
        } else {
            command_of(args.skip(2), args[1], test_only)
        }
    } else if args[0] == "-t"@ || args[0] == "--test"@ {
        command_of(args.skip(1), config, true)
    } else if args[0] == "-v"@ || args[0] == "--version"@ {
        CommandV::Version
    } else if args[0] == "-h"@ || args[0] == "--help"@ {
        CommandV::Help
    } else {
        CommandV::Usage {
            message: "error: unknown argument '"@ + args[0] + "'"@,
            with_help: true,
        }
    }
}

fn quoted(a: &str, arg: &str, b: &str) -> (m: String)
    ensures
        m@ == a@ + arg@ + b@,
{
    let mut m = a.to_owned();
    m.append(arg);
    m.append(b);
    m
}

/// Read the arguments behind the program's name. The configuration file is
/// `elrond.conf` unless one is named.
pub fn parse_args(args: &Vec<String>) -> (r: Command)
    ensures
        r@ == command_of(views(args@), "elrond.conf"@, false),
{
    let ghost all = views(args@);
    let mut config = "elrond.conf".to_owned();
    let mut test_only = false;
    let mut i: usize = 0;
    assert(all.skip(0) == all);
    while i < args.len()
        invariant
            i <= args@.len(),
            all == views(args@),
            command_of(all.skip(i as int), config@, test_only) == command_of(
                all,
                "elrond.conf"@,
                false,
            ),
        decreases args@.len() - i,
    {
        let ghost rest = all.skip(i as int);
        assert(rest[0] == args@[i as int]@);
        assert(rest.skip(1) == all.skip(i + 1));
        let arg = args[i].as_str();
        if same(arg, "-c") || same(arg, "--config") {
            if i + 1 >= args.len() {
                return Command::Usage {
                    message: quoted("error: ", arg, " requires a path argument"),
                    with_help: false,
                };
            }
            assert(rest[1] == args@[i + 1]@);
            assert(rest.skip(2) == all.skip(i + 2));
            config = args[i + 1].clone();
            i = i + 2;
        } else if same(arg, "-t") || same(arg, "--test") {
            test_only = true;
            i = i + 1;
        } else if same(arg, "-v") || same(arg, "--version") {
            return Command::Version;
        } else if same(arg, "-h") || same(arg, "--help") {
            return Command::Help;
        } else {
            return Command::Usage {
                message: quoted("error: unknown argument '", arg, "'"),
                with_help: true,
            };
        }
    }
    Command::Run { config, test_only }
}

/// What is printed when a configuration is valid.
pub fn valid_message(config: &str, http: usize, stream: usize) -> (r: String)
    ensures
        r@ == "config '"@ + config@ + "' is valid: "@ + decimal(http as nat) + " http + "@
            + decimal(stream as nat) + " stream server block(s)"@,
{
    let mut m = quoted("config '", config, "' is valid: ");
    push_decimal(&mut m, http as u64);
    m.append(" http + ");
    push_decimal(&mut m, stream as u64);
    m.append(" stream server block(s)");
    m
}

} // verus!
