//! The command line: which options there are, and what they ask for.
use vstd::prelude::*;
use vstd::utf8::is_ascii_chars;

verus! {

/// The options that a command line may hold.
#[verifier::external_type_specification]
#[verifier::external_body]
pub struct ExOptions(getopts::Options);

/// The options and free arguments found on a command line.
#[verifier::external_type_specification]
#[verifier::external_body]
pub struct ExMatches(getopts::Matches);

/// Why a command line does not fit the options.
#[verifier::external_type_specification]
#[verifier::external_body]
pub struct ExFail(getopts::Fail);

/// The short and the long name of each option of `opts`, in the order
/// in which they were added.
pub uninterp spec fn option_names(opts: getopts::Options) -> Seq<(Seq<char>, Seq<char>)>;

/// The description of each option of `opts`, in the order in which the
/// options were added.
pub uninterp spec fn option_descriptions(opts: getopts::Options) -> Seq<Seq<char>>;

/// The rows of the help text, one for each option and with line feeds
/// between them, for options that are flags with the given names and
/// descriptions.
pub uninterp spec fn usage_rows(names: Seq<(Seq<char>, Seq<char>)>, descriptions: Seq<Seq<char>>)
    -> Seq<char>;

/// How often each option was given, by each of its names.
pub uninterp spec fn occurrences(m: getopts::Matches) -> Map<Seq<char>, nat>;

/// The arguments that are not options.
pub uninterp spec fn free_arguments(m: getopts::Matches) -> Seq<Seq<char>>;

/// Every option of `opts` is a flag: it takes no argument and may be
/// given once.  The arguments are read in the style that a new set of
/// options has.
pub uninterp spec fn flags_only(opts: getopts::Options) -> bool;

/// What is found on the command line `args` where the options are
/// flags with the given short and long names: how often each option
/// was given, by each of its names, and the arguments that are not
/// options; or `None` where the arguments do not fit the options.
pub uninterp spec fn parse_outcome(names: Seq<(Seq<char>, Seq<char>)>, args: Seq<Seq<char>>)
    -> Option<(Map<Seq<char>, nat>, Seq<Seq<char>>)>;

/// The texts of the arguments.
pub open spec fn argument_texts(args: Seq<String>) -> Seq<Seq<char>> {
    args.map_values(|arg: String| arg@)
}

/// Each option has a short name of one character and a long name of
/// several, all of them ASCII.
pub open spec fn well_named(names: Seq<(Seq<char>, Seq<char>)>) -> bool {
    forall|i: int|
        0 <= i < names.len() ==> {
            &&& (#[trigger] names[i]).0.len() == 1
            &&& names[i].1.len() > 1
            &&& is_ascii_chars(names[i].0)
            &&& is_ascii_chars(names[i].1)
        }
}

/// `name` is the short or the long name of one of the options.
pub open spec fn names_option(names: Seq<(Seq<char>, Seq<char>)>, name: Seq<char>) -> bool {
    exists|i: int| 0 <= i < names.len() && ((#[trigger] names[i]).0 == name || names[i].1 == name)
}

/// `getopts::Options::new`: a set of options that is empty.
#[verifier::external_body]
fn new_options() -> (opts: getopts::Options)
    ensures
        option_names(opts) == Seq::<(Seq<char>, Seq<char>)>::empty(),
        option_descriptions(opts) == Seq::<Seq<char>>::empty(),
        flags_only(opts),
{
    getopts::Options::new()
}

/// `getopts::Options::optflag`: adds an option without argument that
/// may be given once.  It refuses a short name that is not one byte
/// long and a long name of one byte.
#[verifier::external_body]
fn add_flag(opts: &mut getopts::Options, short_name: &str, long_name: &str, desc: &str)
    requires
        short_name.is_ascii(),
        long_name.is_ascii(),
        short_name@.len() == 1,
        long_name@.len() > 1,
    ensures
        option_names(*final(opts)) == option_names(*old(opts)).push((short_name@, long_name@)),
        option_descriptions(*final(opts)) == option_descriptions(*old(opts)).push(desc@),
        flags_only(*final(opts)) == flags_only(*old(opts)),
{
    opts.optflag(short_name, long_name, desc);
}

/// `getopts::Options::parse`: reads the arguments.  What it finds
/// depends on the options and the arguments alone.  Where it succeeds,
/// the names that can be asked for are the names of the options.
#[verifier::external_body]
fn parse_arguments(opts: &getopts::Options, args: &Vec<String>) -> (r: Result<
    getopts::Matches,
    getopts::Fail,
>)
    requires
        well_named(option_names(*opts)),
        flags_only(*opts),
    ensures
        r matches Ok(m) ==> parse_outcome(option_names(*opts), argument_texts(args@)) == Some(
            (occurrences(m), free_arguments(m)),
        ),
        r matches Ok(m) ==> forall|name: Seq<char>| #[trigger]
            occurrences(m).dom().contains(name) <==> names_option(option_names(*opts), name),
        r is Err ==> parse_outcome(option_names(*opts), argument_texts(args@)) is None,
{
    opts.parse(args)
}

/// `getopts::Matches::opt_present`: whether the option was given.  It
/// panics on a name that belongs to no option.
#[verifier::external_body]
fn opt_present(m: &getopts::Matches, name: &str) -> (r: bool)
    requires
        occurrences(*m).dom().contains(name@),
    ensures
        r == (occurrences(*m)[name@] > 0),
{
    m.opt_present(name)
}

/// `getopts::Matches::opt_defined`: whether the name belongs to an
/// option.
#[verifier::external_body]
fn opt_defined(m: &getopts::Matches, name: &str) -> (r: bool)
    ensures
        r == occurrences(*m).dom().contains(name@),
{
    m.opt_defined(name)
}

/// The field `free` of `getopts::Matches`: whether every argument is
/// an option.
#[verifier::external_body]
fn no_free(m: &getopts::Matches) -> (r: bool)
    ensures
        r == (free_arguments(*m).len() == 0),
{
    m.free.is_empty()
}

/// `getopts::Options::usage`: the help text for the options: the line
/// `brief`, an empty line, the line `Options:`, the rows of the options
/// and a line feed.
#[verifier::external_body]
fn usage_text(opts: &getopts::Options, brief: &str) -> (r: String)
    requires
        well_named(option_names(*opts)),
        flags_only(*opts),
    ensures
        r@ == brief@ + "\n\nOptions:\n"@ + usage_rows(
            option_names(*opts),
            option_descriptions(*opts),
        ) + "\n"@,
{
    opts.usage(brief)
}

/// The `Display` form of `getopts::Fail`: the reason in words.
#[verifier::external_body]
fn fail_message(fail: &getopts::Fail) -> (r: String) {
    fail.to_string()
}

/// The address family of the input.
#[derive(Clone, Copy, Debug, PartialEq, Eq, Structural)]
pub enum ConfigProtocol {
    Any,
    IPv4,
    IPv6,
}

/// What the command line asks for.
#[derive(Clone, Copy, Debug, PartialEq, Eq, Structural)]
pub struct Config {
    pub invert: bool,
    pub complete: bool,
    pub aggregate: bool,
    pub protocol: ConfigProtocol,
}

/// Which options a command line holds.
#[derive(Clone, Copy, Debug, PartialEq, Eq, Structural)]
pub struct Flags {
    pub help: bool,
    pub free: bool,
    pub ipv4: bool,
    pub ipv6: bool,
    pub complete: bool,
    pub aggregate: bool,
    pub invert: bool,
}

/// Why a command line gives no configuration.
#[derive(Clone, Copy, Debug, PartialEq, Eq, Structural)]
pub enum ConfigError {
    /// The arguments do not fit the options.
    Syntax,
    /// The help text was asked for.
    Help,
    /// There are arguments that are not options.
    FreeArguments,
    /// Both the complete and the aggregate rendering were asked for.
    OperationConflict,
    /// Both IPv4 and IPv6 were asked for.
    ProtocolConflict,
}

/// A command line that gives no configuration: the kind of failure and
/// the reason in words, for the user.
pub struct ConfigFailure {
    pub kind: ConfigError,
    pub reason: String,
}

impl ConfigError {
    /// The diagnostic for a conflict between options; empty for the
    /// other kinds.
    pub open spec fn diagnostic(self) -> Seq<char> {
        match self {
            ConfigError::OperationConflict => "Error: Can either show aggregated or complete list"@,
            ConfigError::ProtocolConflict => "Error: Need at most one of --ipv4/--ipv6."@,
            _ => Seq::empty(),
        }
    }

    /// The diagnostic for the user.
    pub fn message(&self) -> (r: String)
        ensures
            r@ == self.diagnostic(),
    {
        let mut r = String::new();
        match self {
            ConfigError::OperationConflict => {
                r.push_str("Error: Can either show aggregated or complete list");
            },
            ConfigError::ProtocolConflict => {
                r.push_str("Error: Need at most one of --ipv4/--ipv6.");
            },
            _ => {},
        }
        r
    }
}

/// Whether the option `name` was given, and `false` for a name that
/// belongs to no option.
pub open spec fn given(found: Map<Seq<char>, nat>, name: Seq<char>) -> bool {
    found.dom().contains(name) && found[name] > 0
}

/// The options that a command line holds, by how often each was found
/// and the arguments that are not options.
pub open spec fn flags_found(found: Map<Seq<char>, nat>, free: Seq<Seq<char>>) -> Flags {
    Flags {
        help: given(found, "h"@),
        free: free.len() > 0,
        ipv4: given(found, "ipv4"@),
        ipv6: given(found, "ipv6"@),
        complete: given(found, "complete"@),
        aggregate: given(found, "aggregate"@),
        invert: given(found, "invert"@),
    }
}

/// The options that the parsed command line `m` holds.
pub open spec fn flags_of(m: getopts::Matches) -> Flags {
    flags_found(occurrences(m), free_arguments(m))
}

fn is_given(m: &getopts::Matches, name: &str) -> (r: bool)
    ensures
        r == given(occurrences(*m), name@),
{
    opt_defined(m, name) && opt_present(m, name)
}

impl Config {
    /// The configuration that the options ask for.  A request for help
    /// comes first, then free arguments, then a conflict between the
    /// renderings, then one between the address families.  Without a
    /// rendering the compressed one is meant, without an address family
    /// any.
    pub open spec fn decided(flags: Flags) -> Result<Config, ConfigError> {
        if flags.help {
            Err(ConfigError::Help)
        } else if flags.free {
            Err(ConfigError::FreeArguments)
        } else if flags.complete && flags.aggregate {
            Err(ConfigError::OperationConflict)
        } else if flags.ipv4 && flags.ipv6 {
            Err(ConfigError::ProtocolConflict)
        } else {
            Ok(
                Config {
                    invert: flags.invert,
                    complete: flags.complete,
                    aggregate: flags.aggregate,
                    protocol: if flags.ipv4 {
                        ConfigProtocol::IPv4
                    } else if flags.ipv6 {
                        ConfigProtocol::IPv6
                    } else {
                        ConfigProtocol::Any
                    },
                },
            )
        }
    }

    /// Decides what the options ask for.
    pub fn from_flags(flags: &Flags) -> (r: Result<Config, ConfigError>)
        ensures
            r == Self::decided(*flags),
    {
        if flags.help {
            return Err(ConfigError::Help);
        }
        if flags.free {
            return Err(ConfigError::FreeArguments);
        }
        if flags.complete && flags.aggregate {
            return Err(ConfigError::OperationConflict);
        }
        if flags.ipv4 && flags.ipv6 {
            return Err(ConfigError::ProtocolConflict);
        }
        Ok(
            Config {
                invert: flags.invert,
                complete: flags.complete,
                aggregate: flags.aggregate,
                protocol: if flags.ipv4 {
                    ConfigProtocol::IPv4
                } else if flags.ipv6 {
                    ConfigProtocol::IPv6
                } else {
                    ConfigProtocol::Any
                },
            },
        )
    }
}

/// The names of the options of the program.
pub open spec fn program_option_names() -> Seq<(Seq<char>, Seq<char>)> {
    seq![
        ("4"@, "ipv4"@),
        ("6"@, "ipv6"@),
        ("c"@, "complete"@),
        ("a"@, "aggregate"@),
        ("i"@, "invert"@),
        ("h"@, "help"@),
    ]
}

/// The descriptions of the options of the program.
pub open spec fn program_option_descriptions() -> Seq<Seq<char>> {
    seq![
        "IPv4 mode"@,
        "IPv6 mode"@,
        "Complete covering list of ranges"@,
        "Aggregate including ranges"@,
        "Invert input list"@,
        "print this help menu"@,
    ]
}

/// The help text of the program below the line `brief`: that line, an
/// empty line, the line `Options:` and one row for each option of the
/// program.
pub open spec fn usage_of(brief: Seq<char>) -> Seq<char> {
    brief + "\n\nOptions:\n"@ + usage_rows(
        program_option_names(),
        program_option_descriptions(),
    ) + "\n"@
}

/// The options of the program.
pub fn program_options() -> (opts: getopts::Options)
    ensures
        well_named(option_names(opts)),
        flags_only(opts),
        option_names(opts) == program_option_names(),
        option_descriptions(opts) == program_option_descriptions(),
{
    let mut opts = new_options();
    proof {
        reveal_strlit("4");
        reveal_strlit("6");
        reveal_strlit("c");
        reveal_strlit("a");
        reveal_strlit("i");
        reveal_strlit("h");
        reveal_strlit("ipv4");
        reveal_strlit("ipv6");
        reveal_strlit("complete");
        reveal_strlit("aggregate");
        reveal_strlit("invert");
        reveal_strlit("help");
    }
    add_flag(&mut opts, "4", "ipv4", "IPv4 mode");
    add_flag(&mut opts, "6", "ipv6", "IPv6 mode");
    add_flag(&mut opts, "c", "complete", "Complete covering list of ranges");
    add_flag(&mut opts, "a", "aggregate", "Aggregate including ranges");
    add_flag(&mut opts, "i", "invert", "Invert input list");
    add_flag(&mut opts, "h", "help", "print this help menu");
    assert(option_names(opts) =~= program_option_names());
    assert(option_descriptions(opts) =~= program_option_descriptions());
    opts
}

/// The help text of the program, below the line `brief`.
pub fn usage(brief: &str) -> (r: String)
    ensures
        r@ == usage_of(brief@),
{
    let opts = program_options();
    usage_text(&opts, brief)
}

/// Reads the options off a parsed command line.
pub fn read_flags(m: &getopts::Matches) -> (r: Flags)
    ensures
        r == flags_of(*m),
{
    Flags {
        help: is_given(m, "h"),
        free: !no_free(m),
        ipv4: is_given(m, "ipv4"),
        ipv6: is_given(m, "ipv6"),
        complete: is_given(m, "complete"),
        aggregate: is_given(m, "aggregate"),
        invert: is_given(m, "invert"),
    }
}

/// What the arguments `args` of the program, without its name, ask for.
/// Arguments that do not fit the options are a syntax error; otherwise
/// the options found decide.
pub open spec fn configured(args: Seq<Seq<char>>) -> Result<Config, ConfigError> {
    match parse_outcome(program_option_names(), args) {
        None => Err(ConfigError::Syntax),
        Some((found, free)) => Config::decided(flags_found(found, free)),
    }
}

/// Reads the arguments of the program, without its name, and decides
/// what they ask for.  A failure carries the reason in words: for a
/// conflict its diagnostic, for a syntax error what the reading of the
/// arguments says.
pub fn get_config(args: &Vec<String>) -> (r: Result<Config, ConfigFailure>)
    ensures
        match configured(argument_texts(args@)) {
            Ok(config) => r == Ok::<Config, ConfigFailure>(config),
            Err(kind) => r matches Err(failure) && failure.kind == kind && (kind
                != ConfigError::Syntax ==> failure.reason@ == kind.diagnostic()),
        },
{
    let opts = program_options();
    match parse_arguments(&opts, args) {
        Ok(m) => {
            let flags = read_flags(&m);
            match Config::from_flags(&flags) {
                Ok(config) => Ok(config),
                Err(kind) => Err(ConfigFailure { kind, reason: kind.message() }),
            }
        },
        Err(f) => Err(ConfigFailure { kind: ConfigError::Syntax, reason: fail_message(&f) }),
    }
}

} // verus!
