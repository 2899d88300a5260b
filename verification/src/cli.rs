//! The command line: options, the book to download, and where to put it.

use vstd::prelude::*;

use crate::text::{chars_of, str_eq, string_of, trim, trimmed};

verus! {

/// One command-line argument: its text (with invalid UTF-8 replaced) and
/// whether it was valid Unicode.
pub struct Argument {
    pub text: String,
    pub unicode: bool,
}

/// Where the book is saved.
#[derive(Debug, PartialEq, Eq)]
pub enum OutputDirectory {
    /// The current directory.
    Current,
    /// The argument at this position, as it was given.
    Argument(usize),
    /// The text after `--output-dir=`.
    Inline(String),
}

#[derive(Debug, PartialEq, Eq)]
pub struct Options {
    pub token: Option<String>,
    pub book: String,
    pub output_directory: OutputDirectory,
}

#[derive(Debug, PartialEq, Eq)]
pub enum Command {
    Run(Options),
    Help,
    Version,
}

/// A command-line error, with the message shown to the user.
#[derive(Debug, PartialEq, Eq)]
pub struct CliError {
    pub message: String,
}

pub enum DirectoryView {
    Current,
    Argument(int),
    Inline(Seq<char>),
}

pub enum CommandView {
    Run(Option<Seq<char>>, Seq<char>, DirectoryView),
    Help,
    Version,
}

pub open spec fn arguments_view(arguments: Seq<Argument>) -> Seq<(Seq<char>, bool)> {
    arguments.map_values(|a: Argument| (a.text@, a.unicode))
}

pub open spec fn directory_view(d: OutputDirectory) -> DirectoryView {
    match d {
        OutputDirectory::Current => DirectoryView::Current,
        OutputDirectory::Argument(i) => DirectoryView::Argument(i as int),
        OutputDirectory::Inline(s) => DirectoryView::Inline(s@),
    }
}

pub open spec fn command_view(c: Command) -> CommandView {
    match c {
        Command::Run(o) => CommandView::Run(
            match o.token {
                Some(t) => Some(t@),
                None => None,
            },
            o.book@,
            directory_view(o.output_directory),
        ),
        Command::Help => CommandView::Help,
        Command::Version => CommandView::Version,
    }
}

pub open spec fn begins_with(s: Seq<char>, prefix: Seq<char>) -> bool {
    s.len() >= prefix.len() && s.take(prefix.len() as int) == prefix
}

/// Whether argument `a` is, exactly, the option `name`.
pub open spec fn is_option(a: (Seq<char>, bool), name: Seq<char>) -> bool {
    a.1 && a.0 == name
}

/// The command that the arguments from `i` on give, with what was read so
/// far: the token, the output directory, the positions of the arguments that
/// are no options, and whether options are still read.
pub open spec fn parse_from(
    args: Seq<(Seq<char>, bool)>,
    i: int,
    token: Option<Seq<char>>,
    output: DirectoryView,
    positional: Seq<int>,
    options: bool,
) -> Result<CommandView, Seq<char>>
    decreases args.len() - i,
{
    if i < 0 || i >= args.len() {
        finish_parse(args, token, output, positional)
    } else {
        let a = args[i];
        if options && is_option(a, "--"@) {
            parse_from(args, i + 1, token, output, positional, false)
        } else if options && (is_option(a, "-h"@) || is_option(a, "--help"@)) {
            Ok(CommandView::Help)
        } else if options && (is_option(a, "-V"@) || is_option(a, "--version"@)) {
            Ok(CommandView::Version)
        } else if options && is_option(a, "--token"@) {
            if i + 1 >= args.len() {
                Err("expected a value after --token"@)
            } else if !args[i + 1].1 {
                Err("token is not valid UTF-8"@)
            } else {
                parse_from(args, i + 2, Some(args[i + 1].0), output, positional, options)
            }
        } else if options && a.1 && begins_with(a.0, "--token="@) {
            parse_from(args, i + 1, Some(a.0.skip(8)), output, positional, options)
        } else if options && (is_option(a, "-o"@) || is_option(a, "--output-dir"@)) {
            if i + 1 >= args.len() {
                Err("expected a value after "@ + a.0)
            } else {
                parse_from(args, i + 2, token, DirectoryView::Argument(i + 1), positional, options)
            }
        } else if options && a.1 && begins_with(a.0, "--output-dir="@) {
            parse_from(
                args,
                i + 1,
                token,
                DirectoryView::Inline(a.0.skip(13)),
                positional,
                options,
            )
        } else if options && begins_with(a.0, "-"@) {
            Err("unknown option: "@ + a.0)
        } else {
            parse_from(args, i + 1, token, output, positional.push(i), options)
        }
    }
}

/// The command once all arguments are read: exactly one book, valid
/// Unicode.
pub open spec fn finish_parse(
    args: Seq<(Seq<char>, bool)>,
    token: Option<Seq<char>>,
    output: DirectoryView,
    positional: Seq<int>,
) -> Result<CommandView, Seq<char>> {
    if positional.len() == 0 {
        Err("book URL is missing"@)
    } else if positional.len() > 1 {
        Err("expected only a book URL"@)
    } else if !args[positional[0]].1 {
        Err("book URL is not valid UTF-8"@)
    } else {
        Ok(CommandView::Run(token, args[positional[0]].0, output))
    }
}

/// The command that `args` give, or the message of what is wrong with
/// them.
pub open spec fn parse_spec(args: Seq<(Seq<char>, bool)>) -> Result<CommandView, Seq<char>> {
    parse_from(args, 0, None, DirectoryView::Current, seq![], true)
}

fn is_option_exec(a: &Argument, name: &str) -> (r: bool)
    ensures
        r == is_option((a.text@, a.unicode), name@),
{
    a.unicode && str_eq(a.text.as_str(), name)
}

fn begins_with_exec(s: &str, prefix: &str) -> (r: bool)
    ensures
        r == begins_with(s@, prefix@),
{
    let v = chars_of(s);
    let p = chars_of(prefix);
    if v.len() < p.len() {
        return false;
    }
    let r = crate::text::chars_equal(v.as_slice(), 0, p.len(), prefix);
    assert(v@.subrange(0, p@.len() as int) == v@.take(p@.len() as int));
    r
}

/// The text of `s` from character `from` on.
fn text_after(s: &str, from: usize) -> (r: String)
    requires
        from <= s@.len(),
    ensures
        r@ == s@.skip(from as int),
{
    let v = chars_of(s);
    string_of(v.as_slice(), from, v.len())
}

fn error(message: &str) -> (r: CliError)
    ensures
        r.message@ == message@,
{
    CliError { message: String::from_str(message) }
}

fn error_with(message: &str, detail: &str) -> (r: CliError)
    ensures
        r.message@ == message@ + detail@,
{
    let mut text = String::from_str(message);
    text.append(detail);
    CliError { message: text }
}

/// Reads the command line (without the program name): `--token TOKEN` (or
/// `--token=TOKEN`), `-o`/`--output-dir PATH` (or `--output-dir=PATH`),
/// `-h`/`--help`, `-V`/`--version`, `--` to end the options, and the book.
pub fn parse_args(arguments: &Vec<Argument>) -> (r: Result<Command, CliError>)
    ensures
        match r {
            Ok(c) => parse_spec(arguments_view(arguments@)) == Ok::<CommandView, Seq<char>>(
                command_view(c),
            ),
            Err(e) => parse_spec(arguments_view(arguments@)) == Err::<CommandView, Seq<char>>(
                e.message@,
            ),
        },
{
    let ghost args = arguments_view(arguments@);
    let mut token: Option<String> = None;
    let mut output = OutputDirectory::Current;
    let mut positional: Vec<usize> = Vec::new();
    let mut options = true;
    let mut i: usize = 0;
    assert(positional@.map_values(|p: usize| p as int) =~= Seq::<int>::empty());
    while i < arguments.len()
        invariant
            args == arguments_view(arguments@),
            args.len() == arguments@.len(),
            0 <= i <= arguments@.len(),
            forall|k: int| 0 <= k < positional@.len() ==> positional@[k] < arguments@.len(),
            parse_spec(args) == parse_from(
                args,
                i as int,
                match token {
                    Some(t) => Some(t@),
                    None => None,
                },
                directory_view(output),
                positional@.map_values(|p: usize| p as int),
                options,
            ),
        decreases arguments@.len() - i,
    {
        let a = &arguments[i];
        let ghost view = (a.text@, a.unicode);
        assert(args[i as int] == view);
        let ghost before = positional@.map_values(|p: usize| p as int);
        if options && is_option_exec(a, "--") {
            options = false;
            i = i + 1;
        } else if options && (is_option_exec(a, "-h") || is_option_exec(a, "--help")) {
            return Ok(Command::Help);
        } else if options && (is_option_exec(a, "-V") || is_option_exec(a, "--version")) {
            return Ok(Command::Version);
        } else if options && is_option_exec(a, "--token") {
            if i + 1 >= arguments.len() {
                return Err(error("expected a value after --token"));
            }
            let value = &arguments[i + 1];
            assert(args[i + 1] == (value.text@, value.unicode));
            if !value.unicode {
                return Err(error("token is not valid UTF-8"));
            }
            token = Some(value.text.clone());
            i = i + 2;
        } else if options && a.unicode && begins_with_exec(a.text.as_str(), "--token=") {
            proof {
                reveal_strlit("--token=");
            }
            token = Some(text_after(a.text.as_str(), 8));
            i = i + 1;
        } else if options && (is_option_exec(a, "-o") || is_option_exec(a, "--output-dir")) {
            if i + 1 >= arguments.len() {
                return Err(error_with("expected a value after ", a.text.as_str()));
            }
            output = OutputDirectory::Argument(i + 1);
            i = i + 2;
        } else if options && a.unicode && begins_with_exec(a.text.as_str(), "--output-dir=") {
            proof {
                reveal_strlit("--output-dir=");
            }
            output = OutputDirectory::Inline(text_after(a.text.as_str(), 13));
            i = i + 1;
        } else if options && begins_with_exec(a.text.as_str(), "-") {
            return Err(error_with("unknown option: ", a.text.as_str()));
        } else {
            positional.push(i);
            assert(positional@.map_values(|p: usize| p as int) =~= before.push(i as int));
            i = i + 1;
        }
    }
    let ghost final_positions = positional@.map_values(|p: usize| p as int);
    if positional.len() == 0 {
        return Err(error("book URL is missing"));
    }
    if positional.len() > 1 {
        return Err(error("expected only a book URL"));
    }
    let book = &arguments[positional[0]];
    assert(args[final_positions[0]] == (book.text@, book.unicode));
    if !book.unicode {
        return Err(error("book URL is not valid UTF-8"));
    }
    Ok(Command::Run(Options { token, book: book.text.clone(), output_directory: output }))
}

/// The text of the output directory: `.` for the current one.
pub fn output_directory_text(directory: &OutputDirectory, arguments: &Vec<Argument>) -> (r: String)
    requires
        directory matches OutputDirectory::Argument(i) ==> i < arguments@.len(),
    ensures
        r@ == match directory_view(*directory) {
            DirectoryView::Current => "."@,
            DirectoryView::Argument(i) => arguments@[i].text@,
            DirectoryView::Inline(s) => s,
        },
{
    match directory {
        OutputDirectory::Current => String::from_str("."),
        OutputDirectory::Argument(i) => arguments[*i].text.clone(),
        OutputDirectory::Inline(s) => s.clone(),
    }
}

/// The token to use, or the message for its absence: the option's value,
/// else the environment's, without surrounding whitespace; it must not be
/// empty.
pub open spec fn token_choice(option: Option<Seq<char>>, environment: Option<Seq<char>>) -> Result<
    Seq<char>,
    Seq<char>,
> {
    let given = match option {
        Some(t) => Some(t),
        None => environment,
    };
    match given {
        None => Err("provide --token or set the YA_BOOKS_TOKEN environment variable"@),
        Some(t) => if trim(t).len() == 0 {
            Err("the token must not be empty"@)
        } else {
            Ok(trim(t))
        },
    }
}

/// Picks the token from the `--token` option, else from the value of the
/// `YA_BOOKS_TOKEN` environment variable (`None` when it is unset or not
/// Unicode), trimmed; fails when there is none or it is empty.
pub fn choose_token(option: Option<String>, environment: Option<String>) -> (r: Result<String, CliError>)
    ensures
        match r {
            Ok(token) => token_choice(option_view(option), option_view(environment)) == Ok::<
                Seq<char>,
                Seq<char>,
            >(token@),
            Err(e) => token_choice(option_view(option), option_view(environment)) == Err::<
                Seq<char>,
                Seq<char>,
            >(e.message@),
        },
{
    let given = match option {
        Some(t) => t,
        None => match environment {
            Some(t) => t,
            None => {
                return Err(error("provide --token or set the YA_BOOKS_TOKEN environment variable"));
            },
        },
    };
    let v = chars_of(given.as_str());
    let kept = trimmed(v.as_slice());
    if kept.len() == 0 {
        return Err(error("the token must not be empty"));
    }
    assert(kept@.subrange(0, kept@.len() as int) =~= kept@);
    Ok(string_of(kept.as_slice(), 0, kept.len()))
}

/// The text of an optional string.
pub open spec fn option_view(value: Option<String>) -> Option<Seq<char>> {
    match value {
        Some(s) => Some(s@),
        None => None,
    }
}

} // verus!
