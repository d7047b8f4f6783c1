//! What the daemon decides around each connection: its command line, what an
//! instruction asks of it, and the answer it writes back.
use vstd::prelude::*;
use crate::text::same_text;
use crate::tm_mod::cmd::Instruction;
use crate::tm_mod::exec_error::{ExecErrors, exec_errors_message};

verus! {

/// Why the daemon's command line cannot be used.
#[derive(Debug, PartialEq, Eq, Clone)]
pub enum ArgvError {
    /// Fewer than two arguments.
    NotEnoughArguments,
    /// The first argument is not `-c`.
    UnknownOption(String),
}

/// The command line holds `-c` and a file name after the program name.
pub open spec fn argv_ok(args: Seq<String>) -> bool {
    args.len() >= 3 && args[1]@ == "-c"@
}

/// Why the command line cannot be used, if it cannot.
pub fn argv_error(args: &[String]) -> (r: Option<ArgvError>)
    ensures
        r is None <==> argv_ok(args@),
        r matches Some(ArgvError::NotEnoughArguments) <==> args@.len() < 3,
        r matches Some(ArgvError::UnknownOption(o)) ==> args@.len() >= 3 && o@ == args@[1]@,
{
    if args.len() < 3 {
        return Some(ArgvError::NotEnoughArguments);
    }
    if !same_text(args[1].as_str(), "-c") {
        return Some(ArgvError::UnknownOption(args[1].clone()));
    }
    None
}

/// The option and the configuration file's name.
pub fn parse_argv(args: &[String]) -> (r: (&str, &str))
    requires
        argv_ok(args@),
    ensures
        r.0@ == args@[1]@,
        r.1@ == args@[2]@,
{
    let option = args[1].as_str();
    let filename = args[2].as_str();
    (option, filename)
}

/// What the daemon does with a command.
#[derive(Debug, PartialEq, Eq, Structural, Clone, Copy)]
pub enum ConnectionPlan {
    /// Stop serving.
    Shutdown,
    /// Read the configuration anew, then carry the command out.
    RereadThenExec,
    /// Restart: stop every process, read the configuration anew and launch
    /// everything it describes, then carry the command out.
    ReloadThenExec,
    /// Carry the command out.
    Exec,
}

pub fn connection_plan(ins: Instruction) -> (p: ConnectionPlan)
    ensures
        p == match ins {
            Instruction::SHUTDOWN => ConnectionPlan::Shutdown,
            Instruction::REREAD => ConnectionPlan::RereadThenExec,
            Instruction::RELOAD => ConnectionPlan::ReloadThenExec,
            _ => ConnectionPlan::Exec,
        },
{
    match ins {
        Instruction::SHUTDOWN => ConnectionPlan::Shutdown,
        Instruction::REREAD => ConnectionPlan::RereadThenExec,
        Instruction::RELOAD => ConnectionPlan::ReloadThenExec,
        _ => ConnectionPlan::Exec,
    }
}

/// The answers of the threads, each preceded by a line break.
pub open spec fn replies_text(replies: Seq<Seq<char>>) -> Seq<char>
    decreases replies.len(),
{
    if replies.len() == 0 {
        Seq::<char>::empty()
    } else {
        replies_text(replies.drop_last()) + "\n"@ + replies.last()
    }
}

/// The answer to a command: the threads' answers, then the errors met.
pub fn connection_response(replies: &Vec<String>, result: &Result<(), ExecErrors>) -> (r: String)
    ensures
        r@ == replies_text(replies.deep_view()) + match result {
            Ok(_) => Seq::<char>::empty(),
            Err(es) => exec_errors_message(es.e_vect.deep_view()),
        },
{
    let mut r = String::new();
    let n = replies.len();
    let mut i: usize = 0;
    proof {
        assert(replies.deep_view().take(0) =~= Seq::<Seq<char>>::empty());
    }
    while i < n
        invariant
            n == replies.len(),
            i <= n,
            r@ == replies_text(replies.deep_view().take(i as int)),
        decreases n - i,
    {
        r.append("\n");
        r.append(replies[i].as_str());
        proof {
            let rs = replies.deep_view();
            assert(rs.take(i + 1).drop_last() =~= rs.take(i as int));
            assert(rs.take(i + 1).last() == replies[i as int]@);
        }
        i = i + 1;
    }
    proof {
        assert(replies.deep_view().take(n as int) =~= replies.deep_view());
    }
    match result {
        Ok(_) => {},
        Err(es) => {
            let m = es.message();
            r.append(m.as_str());
        },
    }
    r
}

} // verus!
