//! The command line.
use vstd::prelude::*;
use vstd::string::*;

use crate::text::{after_prefix, has_suffix, law_prefix, law_suffix, same_text, texts};

verus! {

pub const USAGE: &'static str =
    "usage: codex-cont.exe [service|install|uninstall|start|stop|restart]";

/// What the program is asked to do.
#[derive(Clone, Copy, Debug, PartialEq, Eq, Structural)]
pub enum Command {
    Serve,
    Service,
    Install,
    Uninstall,
    Start,
    Stop,
    Restart,
}

/// The command of a name.
pub open spec fn command_named(name: Seq<char>) -> Option<Command> {
    if name == "service"@ {
        Some(Command::Service)
    } else if name == "install"@ {
        Some(Command::Install)
    } else if name == "uninstall"@ {
        Some(Command::Uninstall)
    } else if name == "start"@ {
        Some(Command::Start)
    } else if name == "stop"@ {
        Some(Command::Stop)
    } else if name == "restart"@ {
        Some(Command::Restart)
    } else {
        None
    }
}

/// Whether a name asks for help.
pub open spec fn asks_help(name: Seq<char>) -> bool {
    name == "-h"@ || name == "--help"@ || name == "help"@
}

/// What the program is asked to do, or what is wrong with how it is asked.
pub open spec fn command_of(args: Seq<Seq<char>>) -> Result<Command, Seq<char>> {
    if args.len() == 0 {
        Ok(Command::Serve)
    } else {
        match command_named(args[0]) {
            Some(command) => if args.len() > 1 {
                Err("unexpected argument: "@ + args[1] + "\n"@ + USAGE@)
            } else {
                Ok(command)
            },
            None => if asks_help(args[0]) {
                Err(USAGE@)
            } else {
                Err("unknown command: "@ + args[0] + "\n"@ + USAGE@)
            },
        }
    }
}

pub fn usage() -> (r: &'static str)
    ensures
        r@ == USAGE@,
{
    USAGE
}

/// Whether nothing follows a command; what is wrong with it otherwise.
pub fn ensure_no_extra(args: &Vec<String>) -> (r: Result<(), String>)
    ensures
        match r {
            Ok(()) => args@.len() <= 1,
            Err(e) => args@.len() > 1 && e@ == "unexpected argument: "@ + args@[1]@ + "\n"@
                + USAGE@,
        },
{
    if args.len() > 1 {
        let mut out = "unexpected argument: ".to_owned();
        out.append(args[1].as_str());
        out.append("\n");
        out.append(usage());
        Err(out)
    } else {
        Ok(())
    }
}

fn named(name: &str) -> (r: Option<Command>)
    ensures
        r == command_named(name@),
{
    if same_text(name, "service") {
        Some(Command::Service)
    } else if same_text(name, "install") {
        Some(Command::Install)
    } else if same_text(name, "uninstall") {
        Some(Command::Uninstall)
    } else if same_text(name, "start") {
        Some(Command::Start)
    } else if same_text(name, "stop") {
        Some(Command::Stop)
    } else if same_text(name, "restart") {
        Some(Command::Restart)
    } else {
        None
    }
}

/// What the program is asked to do by the arguments that follow its own name.
pub fn parse_command(args: &Vec<String>) -> (r: Result<Command, String>)
    ensures
        match r {
            Ok(command) => command_of(texts(args@)) == Ok::<Command, Seq<char>>(command),
            Err(e) => command_of(texts(args@)) == Err::<Command, Seq<char>>(e@),
        },
{
    if args.len() == 0 {
        return Ok(Command::Serve);
    }
    let name = args[0].as_str();
    match named(name) {
        Some(command) => match ensure_no_extra(args) {
            Ok(()) => Ok(command),
            Err(e) => Err(e),
        },
        None => {
            if same_text(name, "-h") || same_text(name, "--help") || same_text(name, "help") {
                Err(usage().to_owned())
            } else {
                let mut out = "unknown command: ".to_owned();
                out.append(name);
                out.append("\n");
                out.append(usage());
                Err(out)
            }
        },
    }
}

/// Each command has one name, and is meant by that name alone; without any the program serves.
pub proof fn law_commands(args: Seq<Seq<char>>, name: Seq<char>)
    ensures
        ({
            let alone = command_of(seq![name]);
            &&& command_of(Seq::empty()) == Ok::<Command, Seq<char>>(Command::Serve)
            &&& alone == Ok::<Command, Seq<char>>(Command::Service) <==> name == "service"@
            &&& alone == Ok::<Command, Seq<char>>(Command::Install) <==> name == "install"@
            &&& alone == Ok::<Command, Seq<char>>(Command::Uninstall) <==> name == "uninstall"@
            &&& alone == Ok::<Command, Seq<char>>(Command::Start) <==> name == "start"@
            &&& alone == Ok::<Command, Seq<char>>(Command::Stop) <==> name == "stop"@
            &&& alone == Ok::<Command, Seq<char>>(Command::Restart) <==> name == "restart"@
            &&& alone != Ok::<Command, Seq<char>>(Command::Serve)
            &&& args.len() > 1 ==> command_of(args) is Err
        }),
{
    reveal_strlit("service");
    reveal_strlit("install");
    reveal_strlit("uninstall");
    reveal_strlit("start");
    reveal_strlit("stop");
    reveal_strlit("restart");
    assert("service"@.len() == 7 && "service"@[0] == 's');
    assert("install"@.len() == 7 && "install"@[0] == 'i');
    assert("uninstall"@.len() == 9);
    assert("start"@.len() == 5);
    assert("stop"@.len() == 4);
    assert("restart"@.len() == 7 && "restart"@[0] == 'r');
}

/// What is wrong with how the program is asked is told with what it can be asked: an unknown
/// command, or an argument too many; who asks for help is told just that.
pub proof fn law_wrong_asked(args: Seq<Seq<char>>)
    requires
        command_of(args) is Err,
    ensures
        has_suffix(command_of(args)->Err_0, USAGE@),
        command_of(args)->Err_0 != USAGE@ && command_named(args[0]) is Some ==> after_prefix(
            command_of(args)->Err_0,
            "unexpected argument: "@ + args[1],
        ) is Some,
        command_of(args)->Err_0 != USAGE@ && command_named(args[0]) is None ==> after_prefix(
            command_of(args)->Err_0,
            "unknown command: "@ + args[0],
        ) is Some,
        args[0] == "-h"@ || args[0] == "--help"@ || args[0] == "help"@ ==> command_of(args)->Err_0
            == USAGE@,
{
    reveal_strlit("service");
    reveal_strlit("install");
    reveal_strlit("uninstall");
    reveal_strlit("start");
    reveal_strlit("stop");
    reveal_strlit("restart");
    reveal_strlit("-h");
    reveal_strlit("--help");
    reveal_strlit("help");
    assert("service"@.len() == 7);
    assert("install"@.len() == 7);
    assert("uninstall"@.len() == 9);
    assert("start"@.len() == 5);
    assert("stop"@.len() == 4 && "stop"@[0] == 's');
    assert("restart"@.len() == 7);
    assert("-h"@.len() == 2);
    assert("--help"@.len() == 6);
    assert("help"@.len() == 4 && "help"@[0] == 'h');
    let told = command_of(args)->Err_0;
    law_suffix(Seq::empty(), USAGE@);
    assert(Seq::<char>::empty() + USAGE@ =~= USAGE@);
    if args.len() > 1 {
        let head = "unexpected argument: "@ + args[1];
        law_suffix(head + "\n"@, USAGE@);
        law_prefix(head + ("\n"@ + USAGE@), head, "\n"@ + USAGE@);
        assert(head + "\n"@ + USAGE@ =~= head + ("\n"@ + USAGE@));
    }
    let head = "unknown command: "@ + args[0];
    law_suffix(head + "\n"@, USAGE@);
    law_prefix(head + ("\n"@ + USAGE@), head, "\n"@ + USAGE@);
    assert(head + "\n"@ + USAGE@ =~= head + ("\n"@ + USAGE@));
}

} // verus!
