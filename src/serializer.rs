use vstd::prelude::*;

use crate::lexer::{find_matches, lines_of, regex_compiles, regex_matches, split_text_lines, strings_view, LexError};

verus! {

/// The pattern of the words of a saved command line: a single- or
/// double-quoted text, or a run of word characters.
pub const COMMAND_PATTERN: &'static str = "((\\\"|\\\').*?(\\\"|\\\'))|(\\b\\w+\\b)";

/// A command to run: a program and its arguments.
#[derive(Debug, Clone, PartialEq, Eq)]
pub struct CommandLine {
    pub program: String,
    pub args: Vec<String>,
}

impl CommandLine {
    pub open spec fn program_view(&self) -> Seq<char> {
        self.program@
    }

    pub open spec fn args_view(&self) -> Seq<Seq<char>> {
        strings_view(self.args@)
    }
}

/// Saves and loads lists of commands as text, one command per line.
#[derive(Debug)]
pub struct BuildSerializer;

/// `ws` with one space between neighbours.
pub open spec fn join_words(ws: Seq<Seq<char>>) -> Seq<char>
    decreases ws.len(),
{
    if ws.len() == 0 {
        Seq::empty()
    } else if ws.len() == 1 {
        ws[0]
    } else {
        join_words(ws.subrange(0, ws.len() - 1)) + " "@ + ws[ws.len() - 1]
    }
}

/// The saved line of a command: the program, a space, the arguments joined
/// by spaces, and a newline.
pub open spec fn command_text(program: Seq<char>, args: Seq<Seq<char>>) -> Seq<char> {
    program + " "@ + join_words(args) + "\n"@
}

/// The saved text of a list of commands.
pub open spec fn commands_text(cs: Seq<CommandLine>) -> Seq<char>
    decreases cs.len(),
{
    if cs.len() == 0 {
        Seq::empty()
    } else {
        commands_text(cs.subrange(0, cs.len() - 1)) + command_text(
            cs[cs.len() - 1].program_view(),
            cs[cs.len() - 1].args_view(),
        )
    }
}

/// The commands of the lines of a saved text: each line with at least one
/// word gives its first word as the program and the others as arguments.
pub open spec fn commands_of_lines(ls: Seq<Seq<char>>) -> Seq<(Seq<char>, Seq<Seq<char>>)>
    decreases ls.len(),
{
    if ls.len() == 0 {
        Seq::empty()
    } else {
        let p = commands_of_lines(ls.subrange(0, ls.len() - 1));
        let ws = regex_matches(COMMAND_PATTERN@, ls[ls.len() - 1]);
        if ws.len() == 0 {
            p
        } else {
            p.push((ws[0], ws.subrange(1, ws.len() as int)))
        }
    }
}

/// The program and arguments of each command.
pub open spec fn commands_view(v: Seq<CommandLine>) -> Seq<(Seq<char>, Seq<Seq<char>>)> {
    v.map_values(|c: CommandLine| (c.program_view(), c.args_view()))
}

impl BuildSerializer {
    /// The command given by the words of a saved line: the first word is the
    /// program and the rest are its arguments; no words give no command.
    pub fn command_from_words(words: Vec<String>) -> (r: Option<CommandLine>)
        ensures
            words@.len() == 0 <==> r is None,
            r matches Some(c) ==> c.program_view() == words@[0]@ && c.args_view() == strings_view(
                words@,
            ).subrange(1, words@.len() as int),
    {
        let mut words = words;
        if words.len() == 0 {
            return None;
        }
        let ghost all = words@;
        let program = words.remove(0);
        assert(strings_view(words@) =~= strings_view(all).subrange(1, all.len() as int));
        Some(CommandLine { program, args: words })
    }

    /// The saved line of one command.
    pub fn format_command(cmd: &CommandLine) -> (r: String)
        ensures
            r@ == command_text(cmd.program_view(), cmd.args_view()),
    {
        let mut out = String::new();
        out.append(cmd.program.as_str());
        out.append(" ");
        let ghost av = cmd.args_view();
        let ghost base = out@;
        let mut i: usize = 0;
        assert(base + join_words(av.subrange(0, 0)) =~= base);
        while i < cmd.args.len()
            invariant
                i <= cmd.args@.len(),
                av == cmd.args_view(),
                out@ == base + join_words(av.subrange(0, i as int)),
            decreases cmd.args@.len() - i,
        {
            let ghost prev = av.subrange(0, i as int);
            assert(av.subrange(0, i + 1).subrange(0, i as int) =~= prev);
            if i > 0 {
                out.append(" ");
            }
            out.append(cmd.args[i].as_str());
            proof {
                if i == 0 {
                    assert(base + join_words(av.subrange(0, 1)) =~= base + av[0]);
                } else {
                    assert(out@ =~= base + join_words(av.subrange(0, i + 1)));
                }
            }
            i = i + 1;
        }
        assert(av.subrange(0, cmd.args@.len() as int) =~= av);
        out.append("\n");
        out
    }

    /// The saved text of a list of commands, one line each.
    pub fn format_commands(cmds: &Vec<CommandLine>) -> (r: String)
        ensures
            r@ == commands_text(cmds@),
    {
        let mut out = String::new();
        let mut i: usize = 0;
        while i < cmds.len()
            invariant
                i <= cmds@.len(),
                out@ == commands_text(cmds@.subrange(0, i as int)),
            decreases cmds@.len() - i,
        {
            assert(cmds@.subrange(0, i + 1).subrange(0, i as int) =~= cmds@.subrange(0, i as int));
            let line = Self::format_command(&cmds[i]);
            out.append(line.as_str());
            i = i + 1;
        }
        assert(cmds@.subrange(0, cmds@.len() as int) =~= cmds@);
        out
    }

    /// The commands of a saved text, one per line that holds a word. Fails
    /// only when the regular-expression engine refuses the word pattern.
    pub fn parse_commands(text: &str) -> (r: Result<Vec<CommandLine>, LexError>)
        ensures
            r is Ok <==> regex_compiles(COMMAND_PATTERN@),
            r matches Ok(v) ==> commands_view(v@) == commands_of_lines(lines_of(text@)),
    {
        let lines = split_text_lines(text);
        let ghost lv = strings_view(lines@);
        proof {
            crate::lexer::lemma_lines_of_len(text@);
        }
        let mut out: Vec<CommandLine> = Vec::new();
        let mut i: usize = 0;
        assert(commands_view(out@) =~= commands_of_lines(lv.subrange(0, 0)));
        while i < lines.len()
            invariant
                i <= lines@.len(),
                lv == strings_view(lines@),
                lv == lines_of(text@),
                i > 0 ==> regex_compiles(COMMAND_PATTERN@),
                commands_view(out@) == commands_of_lines(lv.subrange(0, i as int)),
            decreases lines@.len() - i,
        {
            assert(lv.subrange(0, i + 1).subrange(0, i as int) =~= lv.subrange(0, i as int));
            assert(lv.subrange(0, i + 1)[i as int] == lines@[i as int]@);
            match find_matches(COMMAND_PATTERN, lines[i].as_str()) {
                None => return Err(LexError::PatternRejected),
                Some(words) => {
                    let ghost ws = strings_view(words@);
                    let ghost before = out@;
                    match Self::command_from_words(words) {
                        None => {},
                        Some(c) => {
                            out.push(c);
                            assert(commands_view(out@) =~= commands_view(before).push(
                                (ws[0], ws.subrange(1, ws.len() as int)),
                            ));
                        },
                    }
                },
            }
            i = i + 1;
        }
        assert(lv.subrange(0, lines@.len() as int) =~= lv);
        Ok(out)
    }
}

} // verus!
