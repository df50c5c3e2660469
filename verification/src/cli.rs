//! The command line of the viewer, parsed by `clap`.
use vstd::prelude::*;

use crate::sessions;

verus! {

/// What the viewer is started with.
#[derive(Debug, PartialEq, Eq)]
pub struct Cli {
    /// The TCP address of the server.
    pub iggy_addr: String,
    /// The stream to read.
    pub stream: String,
    /// Whether to connect over TLS.
    pub tls: bool,
}

/// Why the viewer does not start: a complaint about the command line, or a text
/// that it asks for.
#[derive(Debug, PartialEq, Eq)]
pub struct Refusal {
    pub text: String,
    pub is_error: bool,
}

/// An option of a command that takes a value.
pub struct OptionText {
    pub id: String,
    pub long: String,
    pub value_name: String,
    pub default: String,
    pub help: String,
}

/// An option of a command that takes no value.
pub struct FlagText {
    pub id: String,
    pub long: String,
    pub help: String,
}

/// A command with two options that take a value and one that takes none.
pub struct CommandText {
    pub name: String,
    pub version: String,
    pub about: String,
    pub first: OptionText,
    pub second: OptionText,
    pub flag: FlagText,
}

/// What an [`OptionText`] denotes.
pub struct OptionView {
    pub id: Seq<char>,
    pub long: Seq<char>,
    pub value_name: Seq<char>,
    pub default: Seq<char>,
    pub help: Seq<char>,
}

/// What a [`FlagText`] denotes.
pub struct FlagView {
    pub id: Seq<char>,
    pub long: Seq<char>,
    pub help: Seq<char>,
}

/// What a [`CommandText`] denotes.
pub struct CommandView {
    pub name: Seq<char>,
    pub version: Seq<char>,
    pub about: Seq<char>,
    pub first: OptionView,
    pub second: OptionView,
    pub flag: FlagView,
}

impl View for OptionText {
    type V = OptionView;

    open spec fn view(&self) -> OptionView {
        OptionView {
            id: self.id@,
            long: self.long@,
            value_name: self.value_name@,
            default: self.default@,
            help: self.help@,
        }
    }
}

impl View for FlagText {
    type V = FlagView;

    open spec fn view(&self) -> FlagView {
        FlagView { id: self.id@, long: self.long@, help: self.help@ }
    }
}

impl View for CommandText {
    type V = CommandView;

    open spec fn view(&self) -> CommandView {
        CommandView {
            name: self.name@,
            version: self.version@,
            about: self.about@,
            first: self.first@,
            second: self.second@,
            flag: self.flag@,
        }
    }
}

/// Whether names can stand beside each other in a command that has options for
/// help and for its version.
pub open spec fn names_are_distinct(a: Seq<char>, b: Seq<char>, c: Seq<char>) -> bool {
    &&& a != b && b != c && a != c
    &&& a != "help"@ && b != "help"@ && c != "help"@
    &&& a != "version"@ && b != "version"@ && c != "version"@
}

/// Whether a name can follow two dashes: it is not empty and does not begin with
/// a dash itself.
pub open spec fn follows_dashes(name: Seq<char>) -> bool {
    name.len() > 0 && name[0] != '-'
}

impl CommandText {
    /// Whether the options can be told apart.
    pub open spec fn is_valid(self) -> bool {
        &&& names_are_distinct(self.first.id@, self.second.id@, self.flag.id@)
        &&& names_are_distinct(self.first.long@, self.second.long@, self.flag.long@)
        &&& follows_dashes(self.first.long@)
        &&& follows_dashes(self.second.long@)
        &&& follows_dashes(self.flag.long@)
    }
}

/// The parser's own description of an option.
#[verifier::external_type_specification]
#[verifier::external_body]
pub struct ExArg(clap::Arg);

/// Describes an option that takes a value as a `clap::Arg`.
#[verifier::external_body]
fn option_arg(option: &OptionText) -> clap::Arg {
    clap::Arg::new(option.id.clone()).long(option.long.clone())
        .value_name(option.value_name.clone()).default_value(option.default.clone())
        .help(option.help.clone())
}

/// Describes an option that takes no value as a `clap::Arg`.
#[verifier::external_body]
fn flag_arg(flag: &FlagText) -> clap::Arg {
    clap::Arg::new(flag.id.clone()).long(flag.long.clone()).help(flag.help.clone())
        .action(clap::ArgAction::SetTrue)
}

/// What `clap` makes of the arguments of a command, the first of which is the name
/// of the program: the values of the two options and whether the flag is there; or,
/// where the arguments are refused, or ask for help or the version, the text to
/// show and whether it is a complaint.
pub uninterp spec fn read_arguments(command: CommandView, args: Seq<Seq<char>>) -> Result<
    (Seq<char>, Seq<char>, bool),
    (Seq<char>, bool),
>;

/// Whether the program is named by a path that is taken apart in the same way on
/// every system: it has no backslash and no colon, and does not begin with two
/// slashes.
pub open spec fn has_plain_path(args: Seq<Seq<char>>) -> bool {
    args.len() > 0 ==> {
        &&& !args[0].contains('\\')
        &&& !args[0].contains(':')
        &&& !seq!['/', '/'].is_prefix_of(args[0])
    }
}

/// Whether a refusal is one that `clap` gives.
pub open spec fn is_refusal(refusal: Refusal, args: Seq<Seq<char>>, given: (Seq<char>, bool)) -> bool {
    &&& refusal.is_error == given.1
    &&& has_plain_path(args) ==> refusal.text@ == given.0
}

/// Reads the arguments of a command.
///
/// Trusted: calls `clap::Command::try_get_matches_from`, then
/// `ArgMatches::get_one` and `ArgMatches::get_flag`; of an error, its text and
/// `use_stderr`. All of it depends on the command and the arguments alone. Without
/// arguments the defaults are read and the flag is not set. The text of a refusal
/// shows the last part of the program's path; where the path has a backslash or a
/// colon, or begins with two slashes, that part may differ between systems, and the
/// text is left unsaid.
#[verifier::external_body]
fn run_clap(command: &CommandText, args: &Vec<String>) -> (read: Result<(String, String, bool), Refusal>)
    requires
        command.is_valid(),
    ensures
        match (read, read_arguments(command@, sessions::name_views(args@))) {
            (Ok((first, second, flag)), Ok(values)) => (first@, second@, flag) == values,
            (Err(refusal), Err(given)) => is_refusal(
                refusal,
                sessions::name_views(args@),
                given,
            ),
            _ => false,
        },
        args@.len() <= 1 ==> match read {
            Ok((first, second, flag)) => first@ == command.first.default@ && second@
                == command.second.default@ && !flag,
            Err(_) => false,
        },
{
    let parser = clap::Command::new(command.name.clone()).version(command.version.clone())
        .about(command.about.clone()).arg(option_arg(&command.first))
        .arg(option_arg(&command.second)).arg(flag_arg(&command.flag));
    match parser.try_get_matches_from(args) {
        Ok(m) => Ok((
            m.get_one(&command.first.id).cloned().unwrap_or_default(),
            m.get_one(&command.second.id).cloned().unwrap_or_default(),
            m.get_flag(&command.flag.id),
        )),
        Err(e) => Err(Refusal { text: e.to_string(), is_error: e.use_stderr() }),
    }
}

/// The command of the viewer.
pub open spec fn viewer() -> CommandView {
    CommandView {
        name: "agent-audit"@,
        version: "0.1.0"@,
        about: "Replay viewer for go-llm-agent audit events in Apache Iggy"@,
        first: OptionView {
            id: "iggy_addr"@,
            long: "iggy-addr"@,
            value_name: "IGGY_ADDR"@,
            default: "127.0.0.1:8090"@,
            help: "Iggy の TCP アドレス"@,
        },
        second: OptionView {
            id: "stream"@,
            long: "stream"@,
            value_name: "STREAM"@,
            default: "agent-audit"@,
            help: "stream 名"@,
        },
        flag: FlagView {
            id: "tls"@,
            long: "tls"@,
            help: "TLS で接続する（ループバック以外のアドレスでは必須）"@,
        },
    }
}

fn viewer_command() -> (command: CommandText)
    ensures
        command@ == viewer(),
        command.is_valid(),
{
    proof {
        reveal_strlit("iggy_addr");
        reveal_strlit("iggy-addr");
        reveal_strlit("stream");
        reveal_strlit("tls");
        reveal_strlit("help");
        reveal_strlit("version");
        assert("iggy_addr"@.len() == 9);
        assert("iggy-addr"@.len() == 9);
        assert("stream"@.len() == 6);
        assert("tls"@.len() == 3);
        assert("help"@.len() == 4);
        assert("version"@.len() == 7);
        assert("iggy-addr"@[0] == 'i');
        assert("stream"@[0] == 's');
        assert("tls"@[0] == 't');
    }
    CommandText {
        name: "agent-audit".to_string(),
        version: "0.1.0".to_string(),
        about: "Replay viewer for go-llm-agent audit events in Apache Iggy".to_string(),
        first: OptionText {
            id: "iggy_addr".to_string(),
            long: "iggy-addr".to_string(),
            value_name: "IGGY_ADDR".to_string(),
            default: "127.0.0.1:8090".to_string(),
            help: "Iggy の TCP アドレス".to_string(),
        },
        second: OptionText {
            id: "stream".to_string(),
            long: "stream".to_string(),
            value_name: "STREAM".to_string(),
            default: "agent-audit".to_string(),
            help: "stream 名".to_string(),
        },
        flag: FlagText {
            id: "tls".to_string(),
            long: "tls".to_string(),
            help: "TLS で接続する（ループバック以外のアドレスでは必須）".to_string(),
        },
    }
}

impl Cli {
    /// Takes over the values that were read.
    pub fn of_values(iggy_addr: String, stream: String, tls: bool) -> (cli: Self)
        ensures
            cli == (Cli { iggy_addr, stream, tls }),
    {
        Cli { iggy_addr, stream, tls }
    }

    /// Reads the command line; the first argument is the name of the program.
    pub fn parse_from(args: &Vec<String>) -> (read: Result<Cli, Refusal>)
        ensures
            match (read, read_arguments(viewer(), sessions::name_views(args@))) {
                (Ok(cli), Ok(values)) => (cli.iggy_addr@, cli.stream@, cli.tls) == values,
                (Err(refusal), Err(given)) => is_refusal(
                    refusal,
                    sessions::name_views(args@),
                    given,
                ),
                _ => false,
            },
            args@.len() <= 1 ==> match read {
                Ok(cli) => cli.iggy_addr@ == "127.0.0.1:8090"@ && cli.stream@ == "agent-audit"@
                    && !cli.tls,
                Err(_) => false,
            },
    {
        let command = viewer_command();
        match run_clap(&command, args) {
            Ok((iggy_addr, stream, tls)) => Ok(Cli::of_values(iggy_addr, stream, tls)),
            Err(refusal) => Err(refusal),
        }
    }
}

/// The viewer takes a server, a stream and whether to encrypt by these options.
pub proof fn the_options_go_by_their_names()
    ensures
        viewer().first.long == "iggy-addr"@,
        viewer().first.default == "127.0.0.1:8090"@,
        viewer().second.long == "stream"@,
        viewer().second.default == "agent-audit"@,
        viewer().flag.long == "tls"@,
        viewer().name == "agent-audit"@,
{
}

} // verus!
