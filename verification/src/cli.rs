//! Command-line arguments.
use vstd::prelude::*;
use crate::text::str_eq;

verus! {

#[derive(Debug, Clone, PartialEq, Eq)]
pub enum CommandKind {
    RunUi { library_root: String },
}

#[derive(Debug, Clone, PartialEq, Eq)]
pub enum ParsedArgs {
    Run(CommandKind),
    ShowHelp(HelpTopic),
}

#[derive(Debug, Clone, Copy, PartialEq, Eq, Structural)]
pub enum HelpTopic {
    Root,
}

/// Whether an argument asks for help.
pub open spec fn is_help_flag(arg: Seq<char>) -> bool {
    arg == "-h"@ || arg == "--help"@
}

/// The library directory that the arguments (the program name first) select, or
/// `None` when they ask for help: no further argument means `current_dir`, one
/// argument is the directory unless it is `-h` or `--help`, and anything else
/// asks for help.
pub open spec fn library_choice(args: Seq<Seq<char>>, current_dir: Seq<char>) -> Option<Seq<char>> {
    if args.len() == 1 {
        Some(current_dir)
    } else if args.len() == 2 && !is_help_flag(args[1]) {
        Some(args[1])
    } else {
        None
    }
}

/// Reads the arguments (the program name first); `current_dir` is the working
/// directory, used when no directory is given.
pub fn parse_args(args: Vec<String>, current_dir: String) -> (parsed: ParsedArgs)
    ensures
        match library_choice(args@.map_values(|a: String| a@), current_dir@) {
            Some(root) => parsed matches ParsedArgs::Run(CommandKind::RunUi { library_root })
                && library_root@ == root,
            None => parsed == ParsedArgs::ShowHelp(HelpTopic::Root),
        },
{
    let ghost views = args@.map_values(|a: String| a@);
    if args.len() == 1 {
        return ParsedArgs::Run(CommandKind::RunUi { library_root: current_dir });
    }
    if args.len() == 2 {
        assert(views[1] == args@[1]@);
        let arg = &args[1];
        if str_eq(arg.as_str(), "-h") || str_eq(arg.as_str(), "--help") {
            return ParsedArgs::ShowHelp(HelpTopic::Root);
        }
        return ParsedArgs::Run(CommandKind::RunUi { library_root: arg.clone() });
    }
    ParsedArgs::ShowHelp(HelpTopic::Root)
}

pub fn help_text(topic: HelpTopic) -> (text: &'static str)
    ensures
        text@ == "cadenza\n\nUsage:\n  cadenza [path]\n\nArguments:\n  [path]            Scan and play music from this directory (defaults to current directory)\n\nOptions:\n  -h, --help        Show this help text\n"@,
{
    match topic {
        HelpTopic::Root => {
            "cadenza\n\nUsage:\n  cadenza [path]\n\nArguments:\n  [path]            Scan and play music from this directory (defaults to current directory)\n\nOptions:\n  -h, --help        Show this help text\n"
        },
    }
}

} // verus!
