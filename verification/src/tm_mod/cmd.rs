//! The command language that the client sends to the server.
use vstd::prelude::*;
use crate::text::{split_on, split_seq, lemma_split_nonempty, parse_usize, usize_decimal, same_text, lemma_split_whole,
    lemma_split_join, lemma_decimal_chars};

verus! {

#[derive(PartialEq, Eq, Structural, Clone, Copy, Debug)]
pub enum Instruction {
    START,
    RESTART,
    STOP,
    REREAD,
    STATUS,
    SHUTDOWN,
    RELOAD,
}

/// List of possible targets for an instruction.
/// ALL -> Every single process in every service.
/// Process(p, id) -> The process with name p (only thread `id` when given).
/// Service(s) -> Every single process in service named s.
/// ServiceProcess(s, p, id) -> The process name p in service s.
#[derive(Debug, PartialEq)]
pub enum Target {
    ALL,
    Process(String, Option<usize>),
    Service(String),
    ServiceProcess((String, String, Option<usize>)),
}

/// A target with its names taken as character sequences.
pub enum TargetView {
    ALL,
    Process(Seq<char>, Option<usize>),
    Service(Seq<char>),
    ServiceProcess(Seq<char>, Seq<char>, Option<usize>),
}

impl View for Target {
    type V = TargetView;

    open spec fn view(&self) -> TargetView {
        match self {
            Target::ALL => TargetView::ALL,
            Target::Process(p, id) => TargetView::Process(p@, *id),
            Target::Service(s) => TargetView::Service(s@),
            Target::ServiceProcess((s, p, id)) => TargetView::ServiceProcess(s@, p@, *id),
        }
    }
}

impl DeepView for Target {
    type V = TargetView;

    open spec fn deep_view(&self) -> TargetView {
        self@
    }
}

/// The struct that will be sent to the server, representing the
/// operation to launch and the targets to launch it onto.
#[derive(Debug, PartialEq)]
pub struct Cmd {
    pub instruction: Instruction,
    pub target_vec: Vec<Target>,
}

pub struct CmdView {
    pub instruction: Instruction,
    pub target_vec: Seq<TargetView>,
}

impl View for Cmd {
    type V = CmdView;

    open spec fn view(&self) -> CmdView {
        CmdView { instruction: self.instruction, target_vec: self.target_vec.deep_view() }
    }
}

#[derive(Debug, PartialEq, Eq, PartialOrd, Ord, Clone)]
pub enum ParseError {
    MissingProcess,
    MissingService,
    BadThreadId,
    MissingTarget,
    UnexpectedError,
    ToManyLevels,
    InvalidCommand(String),
}

pub enum ParseErrorView {
    MissingProcess,
    MissingService,
    BadThreadId,
    MissingTarget,
    UnexpectedError,
    ToManyLevels,
    InvalidCommand(Seq<char>),
}

impl View for ParseError {
    type V = ParseErrorView;

    open spec fn view(&self) -> ParseErrorView {
        match self {
            ParseError::MissingProcess => ParseErrorView::MissingProcess,
            ParseError::MissingService => ParseErrorView::MissingService,
            ParseError::BadThreadId => ParseErrorView::BadThreadId,
            ParseError::MissingTarget => ParseErrorView::MissingTarget,
            ParseError::UnexpectedError => ParseErrorView::UnexpectedError,
            ParseError::ToManyLevels => ParseErrorView::ToManyLevels,
            ParseError::InvalidCommand(w) => ParseErrorView::InvalidCommand(w@),
        }
    }
}

/// `s.to_lowercase() == "all"`: only `A` lowercases to `a` and only `L` to `l`.
pub open spec fn is_all_word(s: Seq<char>) -> bool {
    &&& s.len() == 3
    &&& (s[0] == 'a' || s[0] == 'A')
    &&& (s[1] == 'l' || s[1] == 'L')
    &&& (s[2] == 'l' || s[2] == 'L')
}

/// The target that a word of a command line denotes, or why it denotes none.
/// The word is cut at every `:` into at most three levels.
pub open spec fn target_of(chunk: Seq<char>) -> Result<TargetView, ParseErrorView> {
    let parts = split_seq(chunk, ':');
    if parts.len() > 3 {
        Err(ParseErrorView::ToManyLevels)
    } else if parts.len() == 1 {
        if is_all_word(parts[0]) {
            Ok(TargetView::ALL)
        } else {
            Ok(TargetView::Process(parts[0], None))
        }
    } else if parts[0].len() == 0 {
        Err(ParseErrorView::MissingService)
    } else if parts[1].len() == 0 {
        Err(ParseErrorView::MissingProcess)
    } else if parts[1] == seq!['*'] {
        Ok(TargetView::Service(parts[0]))
    } else if parts.len() == 2 {
        match usize_decimal(parts[1]) {
            Some(id) => Ok(TargetView::Process(parts[0], Some(id))),
            None => Ok(TargetView::ServiceProcess(parts[0], parts[1], None)),
        }
    } else {
        match usize_decimal(parts[2]) {
            Some(id) => Ok(TargetView::ServiceProcess(parts[0], parts[1], Some(id))),
            None => Err(ParseErrorView::BadThreadId),
        }
    }
}

/// The instruction that a word names, if any.
pub open spec fn instruction_of(w: Seq<char>) -> Option<Instruction> {
    if w == "start"@ {
        Some(Instruction::START)
    } else if w == "restart"@ {
        Some(Instruction::RESTART)
    } else if w == "stop"@ {
        Some(Instruction::STOP)
    } else if w == "reread"@ {
        Some(Instruction::REREAD)
    } else if w == "status"@ {
        Some(Instruction::STATUS)
    } else if w == "shutdown"@ {
        Some(Instruction::SHUTDOWN)
    } else if w == "reload"@ {
        Some(Instruction::RELOAD)
    } else {
        None
    }
}

/// The targets of a list of words, in order, or the error of the first word
/// that denotes none.
pub open spec fn targets_of(ws: Seq<Seq<char>>) -> Result<Seq<TargetView>, ParseErrorView>
    decreases ws.len(),
{
    if ws.len() == 0 {
        Ok(Seq::<TargetView>::empty())
    } else {
        match targets_of(ws.drop_last()) {
            Err(e) => Err(e),
            Ok(ts) => match target_of(ws.last()) {
                Err(e) => Err(e),
                Ok(t) => Ok(ts.push(t)),
            },
        }
    }
}

/// The instructions that act on the daemon as a whole, not on processes:
/// `shutdown`, `reread` and `reload` take no targets.
pub open spec fn takes_no_target(ins: Instruction) -> bool {
    ins == Instruction::SHUTDOWN || ins == Instruction::REREAD || ins == Instruction::RELOAD
}

fn no_target(ins: Instruction) -> (r: bool)
    ensures
        r == takes_no_target(ins),
{
    match ins {
        Instruction::SHUTDOWN | Instruction::REREAD | Instruction::RELOAD => true,
        _ => false,
    }
}

/// The command that a non-empty list of words denotes. `shutdown`, `reread`
/// and `reload` take no targets and ignore the words after them; the other instructions act
/// on every process when no target is given.
pub open spec fn cmd_of(ws: Seq<Seq<char>>) -> Result<CmdView, ParseErrorView> {
    match instruction_of(ws[0]) {
        None => Err(ParseErrorView::InvalidCommand(ws[0])),
        Some(ins) => if takes_no_target(ins) {
            Ok(CmdView { instruction: ins, target_vec: Seq::<TargetView>::empty() })
        } else {
            match targets_of(ws.drop_first()) {
                Err(e) => Err(e),
                Ok(ts) => Ok(
                    CmdView {
                        instruction: ins,
                        target_vec: if ts.len() == 0 { seq![TargetView::ALL] } else { ts },
                    },
                ),
            }
        },
    }
}

pub open spec fn view_cmd_result(r: Result<Cmd, ParseError>) -> Result<CmdView, ParseErrorView> {
    match r {
        Ok(c) => Ok(c@),
        Err(e) => Err(e@),
    }
}

pub open spec fn view_target_result(r: Result<Target, ParseError>) -> Result<TargetView, ParseErrorView> {
    match r {
        Ok(t) => Ok(t@),
        Err(e) => Err(e@),
    }
}

fn is_all(s: &str) -> (r: bool)
    ensures
        r == is_all_word(s@),
{
    if s.unicode_len() != 3 {
        return false;
    }
    let a = s.get_char(0);
    let b = s.get_char(1);
    let c = s.get_char(2);
    (a == 'a' || a == 'A') && (b == 'l' || b == 'L') && (c == 'l' || c == 'L')
}

impl Cmd {
    /// Creates an instance of the cmd struct with already complete values.
    pub fn new(instruction: Instruction, target_vec: Vec<Target>) -> (c: Cmd)
        ensures
            c.instruction == instruction,
            c.target_vec == target_vec,
    {
        Cmd { instruction, target_vec }
    }

    /// Create a command from a vector of string.
    pub fn from_vec(word_list: Vec<&str>) -> (r: Result<Cmd, ParseError>)
        requires
            word_list.len() >= 1,
        ensures
            view_cmd_result(r) == cmd_of(word_list.deep_view()),
    {
        let ghost ws = word_list.deep_view();
        let first = word_list[0];
        let instruction = if same_text(first, "start") {
            Instruction::START
        } else if same_text(first, "restart") {
            Instruction::RESTART
        } else if same_text(first, "stop") {
            Instruction::STOP
        } else if same_text(first, "reread") {
            Instruction::REREAD
        } else if same_text(first, "status") {
            Instruction::STATUS
        } else if same_text(first, "shutdown") {
            Instruction::SHUTDOWN
        } else if same_text(first, "reload") {
            Instruction::RELOAD
        } else {
            return Err(ParseError::InvalidCommand(first.to_owned()));
        };
        assert(instruction_of(ws[0]) == Some(instruction));
        let mut target_vec: Vec<Target> = Vec::new();
        if !no_target(instruction) {
            let n = word_list.len();
            let mut i: usize = 1;
            proof {
                assert(ws.drop_first().take(0) =~= Seq::<Seq<char>>::empty());
                assert(target_vec.deep_view() =~= Seq::<TargetView>::empty());
            }
            while i < n
                invariant
                    n == word_list.len(),
                    ws == word_list.deep_view(),
                    instruction_of(ws[0]) == Some(instruction),
                    !takes_no_target(instruction),
                    1 <= i <= n,
                    targets_of(ws.drop_first().take(i - 1)) == Ok::<Seq<TargetView>, ParseErrorView>(target_vec.deep_view()),
                decreases n - i,
            {
                let ghost prefix = ws.drop_first().take(i - 1);
                let ghost next = ws.drop_first().take(i as int);
                proof {
                    assert(next.drop_last() =~= prefix);
                    assert(next.last() == word_list[i as int]@);
                }
                let ret = Target::from_str(word_list[i]);
                match ret {
                    Err(e) => {
                        proof {
                            lemma_targets_err_extends(ws.drop_first(), i as nat);
                        }
                        return Err(e);
                    },
                    Ok(t) => {
                        let ghost before = target_vec.deep_view();
                        target_vec.push(t);
                        proof {
                            assert(target_vec.deep_view() =~= before.push(t@));
                        }
                    },
                }
                i = i + 1;
            }
            proof {
                assert(ws.drop_first().take(n - 1) =~= ws.drop_first());
            }
            if target_vec.len() == 0 {
                target_vec.push(Target::ALL);
                proof {
                    assert(target_vec.deep_view() =~= seq![TargetView::ALL]);
                }
            }
        } else {
            proof {
                assert(target_vec.deep_view() =~= Seq::<TargetView>::empty());
            }
        }
        Ok(Cmd { instruction, target_vec })
    }
}

/// Once a prefix of the words fails, every longer prefix fails with the same error.
pub proof fn lemma_targets_err_extends(ws: Seq<Seq<char>>, k: nat)
    requires
        k <= ws.len(),
        targets_of(ws.take(k as int)) is Err,
    ensures
        targets_of(ws) == targets_of(ws.take(k as int)),
    decreases ws.len() - k,
{
    if k < ws.len() {
        let a = ws.take(k as int);
        let b = ws.take((k + 1) as int);
        assert(b.drop_last() =~= a);
        lemma_targets_err_extends(ws, k + 1);
    } else {
        assert(ws.take(k as int) =~= ws);
    }
}

impl Target {
    /// Receives a string that represents a target, returns the
    /// correct Target enum that fits the pattern.
    pub fn from_str(chunk: &str) -> (r: Result<Target, ParseError>)
        ensures
            view_target_result(r) == target_of(chunk@),
    {
        let chunk_split: Vec<&str> = split_on(chunk, ':');
        let ghost parts = split_seq(chunk@, ':');
        proof {
            lemma_split_nonempty(chunk@, ':');
            assert(chunk_split@.map_values(|p: &str| p@).len() == chunk_split.len());
            assert forall|i: int| 0 <= i < chunk_split.len() implies #[trigger] chunk_split[i]@ == parts[i] by {
                assert(chunk_split@.map_values(|p: &str| p@)[i] == chunk_split[i]@);
            }
        }
        let n = chunk_split.len();
        if n > 3 {
            return Err(ParseError::ToManyLevels);
        }
        if n == 1 {
            if is_all(chunk_split[0]) {
                return Ok(Target::ALL);
            }
            return Ok(Target::Process(chunk_split[0].to_owned(), None));
        }
        if chunk_split[0].unicode_len() == 0 {
            return Err(ParseError::MissingService);
        }
        if chunk_split[1].unicode_len() == 0 {
            return Err(ParseError::MissingProcess);
        }
        proof {
            reveal_strlit("*");
            assert("*"@ =~= seq!['*']);
        }
        if same_text(chunk_split[1], "*") {
            return Ok(Target::Service(chunk_split[0].to_owned()));
        }
        if n == 2 {
            match parse_usize(chunk_split[1]) {
                Some(id) => Ok(Target::Process(chunk_split[0].to_owned(), Some(id))),
                None => Ok(
                    Target::ServiceProcess(
                        (chunk_split[0].to_owned(), chunk_split[1].to_owned(), None),
                    ),
                ),
            }
        } else {
            match parse_usize(chunk_split[2]) {
                Some(id) => Ok(
                    Target::ServiceProcess(
                        (chunk_split[0].to_owned(), chunk_split[1].to_owned(), Some(id)),
                    ),
                ),
                None => Err(ParseError::BadThreadId),
            }
        }
    }
}


/// The short description of each parse error.
pub open spec fn parse_error_text(e: ParseErrorView) -> Seq<char> {
    match e {
        ParseErrorView::MissingProcess => "Missing process name. Type 'help' to see different commands and syntaxs"@,
        ParseErrorView::MissingService => "Missing service name. Type 'help' to see different commands and syntaxs"@,
        ParseErrorView::BadThreadId => "bad parsing for thread id : must be a valid usize"@,
        ParseErrorView::UnexpectedError => "unexpected error"@,
        ParseErrorView::MissingTarget => "Missing target"@,
        ParseErrorView::ToManyLevels => "To many levels"@,
        ParseErrorView::InvalidCommand(_) => "Invalid command"@,
    }
}

/// The full message of a parse error: its description, followed for an
/// invalid command by a space and the word that was not understood.
pub open spec fn parse_error_message(e: ParseErrorView) -> Seq<char> {
    match e {
        ParseErrorView::InvalidCommand(w) => parse_error_text(e) + " "@ + w,
        _ => parse_error_text(e),
    }
}

impl ParseError {
    pub fn description(&self) -> (r: &'static str)
        ensures
            r@ == parse_error_text(self@),
    {
        match self {
            ParseError::MissingProcess => "Missing process name. Type 'help' to see different commands and syntaxs",
            ParseError::MissingService => "Missing service name. Type 'help' to see different commands and syntaxs",
            ParseError::BadThreadId => "bad parsing for thread id : must be a valid usize",
            ParseError::UnexpectedError => "unexpected error",
            ParseError::MissingTarget => "Missing target",
            ParseError::ToManyLevels => "To many levels",
            ParseError::InvalidCommand(_) => "Invalid command",
        }
    }

    /// The text that displaying the error shows.
    pub fn message(&self) -> (r: String)
        ensures
            r@ == parse_error_message(self@),
    {
        let mut r = String::from_str(self.description());
        match self {
            ParseError::InvalidCommand(name) => {
                r.append(" ");
                r.append(name.as_str());
            },
            _ => {},
        }
        r
    }
}

proof fn lemma_targets_ok(ws: Seq<Seq<char>>)
    requires
        targets_of(ws) is Ok,
    ensures
        targets_of(ws)->Ok_0.len() == ws.len(),
        forall|i: int| 0 <= i < ws.len() ==> target_of(#[trigger] ws[i]) == Ok::<TargetView, ParseErrorView>(
            targets_of(ws)->Ok_0[i],
        ),
    decreases ws.len(),
{
    if ws.len() > 0 {
        let pre = ws.drop_last();
        lemma_targets_ok(pre);
        let ts = targets_of(ws)->Ok_0;
        assert forall|i: int| 0 <= i < ws.len() implies target_of(#[trigger] ws[i]) == Ok::<TargetView, ParseErrorView>(ts[i]) by {
            if i < pre.len() {
                assert(pre[i] == ws[i]);
            }
        }
    }
}

/// A command read from words names its targets word by word, each being what
/// its word denotes; with no target word it acts on every process. Only
/// `shutdown`, `reread` and `reload` act on no target.
pub proof fn lemma_cmd_targets(ws: Seq<Seq<char>>)
    requires
        ws.len() >= 1,
        cmd_of(ws) is Ok,
    ensures
        ({
            let c = cmd_of(ws)->Ok_0;
            &&& instruction_of(ws[0]) == Some(c.instruction)
            &&& takes_no_target(c.instruction) <==> c.target_vec.len() == 0
            &&& (c.target_vec.len() > 0 && ws.len() == 1) ==> c.target_vec == seq![TargetView::ALL]
            &&& (c.target_vec.len() > 0 && ws.len() > 1) ==> c.target_vec.len() == ws.len() - 1 && forall|i: int|
                1 <= i < ws.len() ==> target_of(#[trigger] ws[i]) == Ok::<TargetView, ParseErrorView>(c.target_vec[i - 1])
        }),
{
    let c = cmd_of(ws)->Ok_0;
    if !takes_no_target(c.instruction) {
        let rest = ws.drop_first();
        lemma_targets_ok(rest);
        assert forall|i: int| 1 <= i < ws.len() implies target_of(#[trigger] ws[i]) == Ok::<TargetView, ParseErrorView>(
            targets_of(rest)->Ok_0[i - 1],
        ) by {
            assert(rest[i - 1] == ws[i]);
        }
    }
}

proof fn lemma_targets_prefix_ok(ws: Seq<Seq<char>>, k: int)
    requires
        0 <= k <= ws.len(),
        forall|j: int| 0 <= j < k ==> #[trigger] target_of(ws[j]) is Ok,
    ensures
        targets_of(ws.take(k)) is Ok,
    decreases k,
{
    if k > 0 {
        lemma_targets_prefix_ok(ws, k - 1);
        assert(ws.take(k).drop_last() =~= ws.take(k - 1));
        assert(ws.take(k).last() == ws[k - 1]);
    }
}

/// A command whose instruction takes targets is refused with the error of
/// its first target word that denotes no target.
pub proof fn lemma_cmd_first_error(ws: Seq<Seq<char>>, k: int)
    requires
        1 <= k < ws.len(),
        instruction_of(ws[0]) matches Some(ins) && !takes_no_target(ins),
        target_of(ws[k]) is Err,
        forall|j: int| 1 <= j < k ==> #[trigger] target_of(ws[j]) is Ok,
    ensures
        cmd_of(ws) == Err::<CmdView, ParseErrorView>(target_of(ws[k])->Err_0),
{
    let rest = ws.drop_first();
    assert forall|j: int| 0 <= j < k - 1 implies #[trigger] target_of(rest[j]) is Ok by {
        assert(rest[j] == ws[j + 1]);
    }
    lemma_targets_prefix_ok(rest, k - 1);
    let pre = rest.take(k);
    assert(pre.drop_last() =~= rest.take(k - 1));
    assert(pre.last() == ws[k]);
    lemma_targets_err_extends(rest, k as nat);
}

/// A word `s:p:d` that names a service `s` and a program `p` other than `*`,
/// with a decimal thread id `d`, targets thread `d` of `p` in `s`, whatever
/// the id; a word `p:d` targets thread `d` of program `p`. The thread id read
/// is the thread id kept.
pub proof fn lemma_thread_targets(s: Seq<char>, p: Seq<char>, d: Seq<char>)
    requires
        s.len() > 0,
        p.len() > 0,
        p != seq!['*'],
        !s.contains(':'),
        !p.contains(':'),
        usize_decimal(d) is Some,
    ensures
        target_of(s + seq![':'] + p + seq![':'] + d) == Ok::<TargetView, ParseErrorView>(
            TargetView::ServiceProcess(s, p, usize_decimal(d)),
        ),
        target_of(p + seq![':'] + d) == Ok::<TargetView, ParseErrorView>(TargetView::Process(p, usize_decimal(d))),
{
    lemma_decimal_chars(d, ':');
    lemma_decimal_chars(d, '*');
    lemma_split_whole(s, ':');
    lemma_split_whole(p, ':');
    lemma_split_whole(d, ':');
    lemma_split_join(s, p, ':');
    lemma_split_join(s + seq![':'] + p, d, ':');
    lemma_split_join(p, d, ':');
    let three = split_seq(s + seq![':'] + p + seq![':'] + d, ':');
    assert(three =~= seq![s, p, d]);
    let two = split_seq(p + seq![':'] + d, ':');
    assert(two =~= seq![p, d]);
    assert(d.len() > 0);
    if d == seq!['*'] {
        assert(d.contains('*'));
    }
}

} // verus!
