//! The client's command line: help topics and what a typed line asks for.
use vstd::prelude::*;
use crate::text::{split_whitespace, words_seq, same_text};
use crate::tm_mod::cmd::{Cmd, CmdView, ParseError, ParseErrorView, cmd_of};

verus! {

pub const HELP_START: &'static str = "\nstart <name>\t\tStart a process\nstart <gname>:*\t\tStart all processes in a group\nstart <name> <name>\tStart multiple processes or groups\nstart all\t\tStart all processes\n";

pub const HELP_RESTART: &'static str = "\nrestart <name>\t\tRestart a process\nrestart <gname>:*\tRestart all processes in a group\nrestart <name> <name>\tRestart multiple processes or groups\nrestart all\t\tRestart all processes\nNote: restart does not reread config files. For that, see reread and update.\n";

pub const HELP_STOP: &'static str = "\nstop <name>\t\tStop a process\nstop <gname>:*\t\tStop all processes in a group\nstop <name> <name>\tStop multiple processes or groups\nstop all\t\tStop all processes\n";

pub const HELP_RELOAD: &'static str = "\nreload \t\tRestart the remote supervisord.\n";

pub const HELP_STATUS: &'static str = "\nstatus <name>\t\tGet status for a single process\nstatus <gname>:*\tGet status for all processes in a group\nstatus <name> <name>\tGet status for multiple named processes\nstatus\t\t\tGet all process status info\n";

pub const HELP_SHUTDOWN: &'static str = "\nshutdown \tShut the remote supervisord down.\n";

pub const HELP_DISPLAY: &'static str = "\ndefault commands (type help <topic>):\n=====================================\nstart  restart   stop  reload  status    shutdown\n";

/// The help text that `help` followed by the words `ws[1..]` shows: the
/// topic's text, or the list of topics for no topic or an unknown one.
pub open spec fn help_of(ws: Seq<Seq<char>>) -> Seq<char> {
    if ws.len() < 2 {
        HELP_DISPLAY@
    } else if ws[1] == "start"@ {
        HELP_START@
    } else if ws[1] == "restart"@ {
        HELP_RESTART@
    } else if ws[1] == "stop"@ {
        HELP_STOP@
    } else if ws[1] == "reload"@ {
        HELP_RELOAD@
    } else if ws[1] == "status"@ {
        HELP_STATUS@
    } else if ws[1] == "shutdown"@ {
        HELP_SHUTDOWN@
    } else {
        HELP_DISPLAY@
    }
}

/// What a line typed at the client asks for.
#[derive(Debug)]
pub enum LineOutcome {
    /// Nothing: the line holds no word.
    Nothing,
    /// Help: the text to show.
    Help(&'static str),
    /// A command that cannot be read, and why.
    Invalid(ParseError),
    /// A command to send to the server.
    Command(Cmd),
}

/// The help text for `help` and the words after it.
pub fn help_text(words: &Vec<&str>) -> (r: &'static str)
    ensures
        r@ == help_of(words.deep_view()),
{
    if words.len() < 2 {
        return HELP_DISPLAY;
    }
    let topic = words[1];
    if same_text(topic, "start") {
        HELP_START
    } else if same_text(topic, "restart") {
        HELP_RESTART
    } else if same_text(topic, "stop") {
        HELP_STOP
    } else if same_text(topic, "reload") {
        HELP_RELOAD
    } else if same_text(topic, "status") {
        HELP_STATUS
    } else if same_text(topic, "shutdown") {
        HELP_SHUTDOWN
    } else {
        HELP_DISPLAY
    }
}

/// Reads a typed line: no word asks for nothing, `help` asks for help, and
/// anything else is read as a command.
pub fn interpret_line(line: &str) -> (r: LineOutcome)
    ensures
        ({
            let ws = words_seq(line@);
            match r {
                LineOutcome::Nothing => ws.len() == 0,
                LineOutcome::Help(t) => ws.len() > 0 && ws[0] == "help"@ && t@ == help_of(ws),
                LineOutcome::Invalid(e) => ws.len() > 0 && ws[0] != "help"@ && cmd_of(ws) == Err::<CmdView, ParseErrorView>(e@),
                LineOutcome::Command(c) => ws.len() > 0 && ws[0] != "help"@ && cmd_of(ws) == Ok::<CmdView, ParseErrorView>(c@),
            }
        }),
{
    let words = split_whitespace(line);
    proof {
        assert(words.deep_view() =~= words@.map_values(|p: &str| p@));
    }
    if words.len() == 0 {
        return LineOutcome::Nothing;
    }
    if same_text(words[0], "help") {
        return LineOutcome::Help(help_text(&words));
    }
    match Cmd::from_vec(words) {
        Ok(c) => LineOutcome::Command(c),
        Err(e) => LineOutcome::Invalid(e),
    }
}

/// The command that a typed line asks to send, if any: none for an empty
/// line, a request for help, or a command that cannot be read.
pub fn parse_into_cmd(line: &str) -> (r: Option<Cmd>)
    ensures
        ({
            let ws = words_seq(line@);
            &&& r is Some <==> (ws.len() > 0 && ws[0] != "help"@ && cmd_of(ws) is Ok)
            &&& r matches Some(c) ==> cmd_of(ws) == Ok::<CmdView, ParseErrorView>(c@)
        }),
{
    match interpret_line(line) {
        LineOutcome::Command(c) => Some(c),
        _ => None,
    }
}

/// The words that name a command with a help text of its own.
pub open spec fn is_topic(w: Seq<char>) -> bool {
    w == "start"@ || w == "restart"@ || w == "stop"@ || w == "reload"@ || w == "status"@ || w == "shutdown"@
}

/// `help` with a command's name shows that command's own text, whose first
/// line is its usage: a line break, the command's name and a blank. Any other
/// word, or none, shows the same text as `help` alone; and two different
/// topics never show the same text.
pub proof fn lemma_help_topics(ws: Seq<Seq<char>>, vs: Seq<Seq<char>>)
    requires
        ws.len() >= 2,
        vs.len() >= 2,
    ensures
        is_topic(ws[1]) ==> help_of(ws).len() >= ws[1].len() + 2 && help_of(ws).subrange(0, ws[1].len() + 2 as int) == seq!['\n']
            + ws[1] + seq![' '],
        !is_topic(ws[1]) ==> help_of(ws) == help_of(seq![ws[0]]),
        is_topic(ws[1]) && ws[1] != vs[1] ==> help_of(ws) != help_of(vs),
{
    reveal_strlit("\nstart <name>\t\tStart a process\nstart <gname>:*\t\tStart all processes in a group\nstart <name> <name>\tStart multiple processes or groups\nstart all\t\tStart all processes\n");
    reveal_strlit("\nrestart <name>\t\tRestart a process\nrestart <gname>:*\tRestart all processes in a group\nrestart <name> <name>\tRestart multiple processes or groups\nrestart all\t\tRestart all processes\nNote: restart does not reread config files. For that, see reread and update.\n");
    reveal_strlit("\nstop <name>\t\tStop a process\nstop <gname>:*\t\tStop all processes in a group\nstop <name> <name>\tStop multiple processes or groups\nstop all\t\tStop all processes\n");
    reveal_strlit("\nreload \t\tRestart the remote supervisord.\n");
    reveal_strlit("\nstatus <name>\t\tGet status for a single process\nstatus <gname>:*\tGet status for all processes in a group\nstatus <name> <name>\tGet status for multiple named processes\nstatus\t\t\tGet all process status info\n");
    reveal_strlit("\nshutdown \tShut the remote supervisord down.\n");
    reveal_strlit("\ndefault commands (type help <topic>):\n=====================================\nstart  restart   stop  reload  status    shutdown\n");
    reveal_strlit("start");
    reveal_strlit("restart");
    reveal_strlit("stop");
    reveal_strlit("reload");
    reveal_strlit("status");
    reveal_strlit("shutdown");
    let a = help_of(ws);
    let b = help_of(vs);
    if is_topic(ws[1]) {
        assert(a.subrange(0, ws[1].len() + 2 as int) =~= seq!['\n'] + ws[1] + seq![' ']);
        if ws[1] != vs[1] && a == b {
            assert(a[1] == b[1] && a[2] == b[2] && a[3] == b[3] && a[4] == b[4]);
        }
    }
}

} // verus!
