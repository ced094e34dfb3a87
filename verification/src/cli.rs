//! The command line.
use crate::description::DependencyField;
use crate::text;
use crate::text::{cut_at, has_prefix, opt_text, texts};
use vstd::prelude::*;

verus! {

/// A command line that was read.
#[derive(Debug)]
pub struct Cli {
    pub command: Commands,
}

/// What is to be done.
#[allow(inconsistent_fields)]
#[derive(Debug)]
pub enum Commands {
    Init(InitArgs),
    Add { dependency_type: AddDependencyTypeArgs, packages: Vec<String> },
    Remove { packages: Vec<String> },
    Run { command: Vec<String> },
    Lock {},
    Status,
    Sync { install_system: bool, install_only_system: bool },
    Clean,
    Repo { command: RepoCommands },
}

/// What is given of a new project.
#[derive(Debug)]
pub struct InitArgs {
    pub path: Option<String>,
    pub name: Option<String>,
    pub title: Option<String>,
    pub description: Option<String>,
    pub author_name: Option<String>,
    pub author_email: Option<String>,
    pub license: Option<InitLicense>,
}

/// A license that a new project can have.
#[derive(Clone, Copy, PartialEq, Eq, Structural, Debug)]
pub enum InitLicense {
    Mit,
    Apache2,
    Gpl2,
    Gpl3,
    Agpl3,
    Lgpl21,
    Lgpl3,
    Cc0,
    CcBy4,
    Proprietary,
}

/// The field that packages are added to, at most one of the four.
#[derive(Clone, Copy, PartialEq, Eq, Structural, Debug)]
pub struct AddDependencyTypeArgs {
    pub depends: bool,
    pub imports: bool,
    pub linking_to: bool,
    pub suggests: bool,
}

/// The field that is selected first; without a selection, Imports.
pub open spec fn selected_field(args: AddDependencyTypeArgs) -> DependencyField {
    if args.depends {
        DependencyField::Depends
    } else if args.imports {
        DependencyField::Imports
    } else if args.linking_to {
        DependencyField::LinkingTo
    } else if args.suggests {
        DependencyField::Suggests
    } else {
        DependencyField::Imports
    }
}

impl From<AddDependencyTypeArgs> for DependencyField {
    fn from(args: AddDependencyTypeArgs) -> (r: Self) {
        if args.depends {
            DependencyField::Depends
        } else if args.imports {
            DependencyField::Imports
        } else if args.linking_to {
            DependencyField::LinkingTo
        } else if args.suggests {
            DependencyField::Suggests
        } else {
            DependencyField::Imports
        }
    }
}

impl vstd::std_specs::convert::FromSpecImpl<AddDependencyTypeArgs> for DependencyField {
    open spec fn obeys_from_spec() -> bool {
        true
    }

    open spec fn from_spec(args: AddDependencyTypeArgs) -> Self {
        selected_field(args)
    }
}

/// What is to be done with repositories.
#[allow(inconsistent_fields)]
#[derive(Debug)]
pub enum RepoCommands {
    Add(RepoAdditionalAddArgs),
    Remove(RepoAdditionalRemoveArgs),
    List(RepoListArgs),
    Base { command: RepoBaseCommands },
    Additional { command: RepoAdditionalCommands },
    Remote { command: RepoRemoteCommands },
}

/// What is to be done with the base repository.
#[derive(Debug)]
pub enum RepoBaseCommands {
    SetUrl(RepoBaseSetArgs),
    Reset(RepoBaseResetArgs),
}

/// What is to be done with additional repositories.
#[derive(Debug)]
pub enum RepoAdditionalCommands {
    Add(RepoAdditionalAddArgs),
    Remove(RepoAdditionalRemoveArgs),
}

/// What is to be done with remote packages.
#[derive(Debug)]
pub enum RepoRemoteCommands {
    Add(RepoRemoteArgs),
    Remove(RepoRemoteArgs),
}

/// A repository to add.
#[derive(Debug)]
pub struct RepoAdditionalAddArgs {
    pub url: String,
}

/// A repository to remove.
#[derive(Debug)]
pub struct RepoAdditionalRemoveArgs {
    pub url: String,
    pub remove_credential: bool,
}

/// The repositories to list.
#[derive(Clone, Copy, PartialEq, Eq, Structural, Debug)]
pub struct RepoListArgs {
    pub repository_type: Option<RepositoryType>,
}

/// The base repository to set.
#[derive(Debug)]
pub struct RepoBaseSetArgs {
    pub url: String,
}

/// How the base repository is reset.
#[derive(Clone, Copy, PartialEq, Eq, Structural, Debug)]
pub struct RepoBaseResetArgs {
    pub remove_credential: bool,
}

/// A remote package.
#[derive(Debug)]
pub struct RepoRemoteArgs {
    pub remote: String,
}

/// A class of repositories.
#[derive(Clone, Copy, PartialEq, Eq, Structural, Debug)]
pub enum RepositoryType {
    Base,
    Additional,
    Remote,
}

/// A part of the command line that has help of its own.
#[derive(Clone, Copy, PartialEq, Eq, Structural, Debug)]
pub enum HelpTopic {
    Rpx,
    Init,
    Add,
    Remove,
    Run,
    Lock,
    Status,
    Sync,
    Clean,
    Help,
    Repo,
    RepoAdd,
    RepoRemove,
    RepoList,
    RepoHelp,
    RepoBase,
    RepoBaseSet,
    RepoBaseReset,
    RepoBaseHelp,
    RepoAdditional,
    RepoAdditionalAdd,
    RepoAdditionalRemove,
    RepoAdditionalHelp,
    RepoRemote,
    RepoRemoteAdd,
    RepoRemoteRemove,
    RepoRemoteHelp,
}

/// Why a command line is no command. Help is asked for at length or not.
#[allow(inconsistent_fields)]
#[derive(Debug)]
pub enum CliError {
    Help(HelpTopic, bool),
    Version,
    MissingCommand(HelpTopic),
    UnknownCommand { name: String },
    UnexpectedArgument { argument: String },
    MissingValue { option: String },
    RepeatedOption { option: String },
    InvalidValue { option: String, value: String },
    MissingArgument { name: &'static str },
    ConflictingOptions(HelpTopic),
}

/// Why a command line is no command.
pub enum CliFaultV {
    Help(HelpTopic, bool),
    Version,
    MissingCommand(HelpTopic),
    UnknownCommand(Seq<char>),
    UnexpectedArgument(Seq<char>),
    MissingValue(Seq<char>),
    RepeatedOption(Seq<char>),
    InvalidValue(Seq<char>, Seq<char>),
    MissingArgument(Seq<char>),
    ConflictingOptions(HelpTopic),
}

/// A fault in words.
pub open spec fn fault_text(fault: CliFaultV) -> Seq<char> {
    match fault {
        CliFaultV::Help(_, _) => "help was asked for"@,
        CliFaultV::Version => "the version was asked for"@,
        CliFaultV::MissingCommand(_) => "a subcommand is required"@,
        CliFaultV::UnknownCommand(name) => "unrecognized subcommand '"@ + name + "'"@,
        CliFaultV::UnexpectedArgument(argument) => "unexpected argument '"@ + argument
            + "' found"@,
        CliFaultV::MissingValue(option) => "a value is required for '--"@ + option
            + "' but none was supplied"@,
        CliFaultV::RepeatedOption(option) => "the argument '--"@ + option
            + "' cannot be used multiple times"@,
        CliFaultV::InvalidValue(option, value) => "invalid value '"@ + value + "' for '--"@
            + option + "'"@,
        CliFaultV::MissingArgument(name) => "the required argument <"@ + name
            + "> was not provided"@,
        CliFaultV::ConflictingOptions(_) => "only one of the options can be used at a time"@,
    }
}

impl CliError {
    /// The error, as characters.
    pub open spec fn view(&self) -> CliFaultV {
        match self {
            CliError::Help(topic, at_length) => CliFaultV::Help(*topic, *at_length),
            CliError::Version => CliFaultV::Version,
            CliError::MissingCommand(topic) => CliFaultV::MissingCommand(*topic),
            CliError::UnknownCommand { name } => CliFaultV::UnknownCommand(name@),
            CliError::UnexpectedArgument { argument } => CliFaultV::UnexpectedArgument(argument@),
            CliError::MissingValue { option } => CliFaultV::MissingValue(option@),
            CliError::RepeatedOption { option } => CliFaultV::RepeatedOption(option@),
            CliError::InvalidValue { option, value } => CliFaultV::InvalidValue(option@, value@),
            CliError::MissingArgument { name } => CliFaultV::MissingArgument(name@),
            CliError::ConflictingOptions(topic) => CliFaultV::ConflictingOptions(*topic),
        }
    }

    /// The error in words.
    pub fn message(&self) -> (r: String)
        ensures
            r@ == fault_text(self@),
    {
        match self {
            CliError::Help(_, _) => "help was asked for".to_owned(),
            CliError::Version => "the version was asked for".to_owned(),
            CliError::MissingCommand(_) => "a subcommand is required".to_owned(),
            CliError::UnknownCommand { name } => text::cat3(
                "unrecognized subcommand '",
                name.as_str(),
                "'",
            ),
            CliError::UnexpectedArgument { argument } => text::cat3(
                "unexpected argument '",
                argument.as_str(),
                "' found",
            ),
            CliError::MissingValue { option } => text::cat3(
                "a value is required for '--",
                option.as_str(),
                "' but none was supplied",
            ),
            CliError::RepeatedOption { option } => text::cat3(
                "the argument '--",
                option.as_str(),
                "' cannot be used multiple times",
            ),
            CliError::InvalidValue { option, value } => {
                let mut line = text::cat4(
                    "invalid value '",
                    value.as_str(),
                    "' for '--",
                    option.as_str(),
                );
                line.push_str("'");
                line
            },
            CliError::MissingArgument { name } => text::cat3(
                "the required argument <",
                name,
                "> was not provided",
            ),
            CliError::ConflictingOptions(_) => {
                "only one of the options can be used at a time".to_owned()
            },
        }
    }
}

/// The options, flags and places of a command.
#[derive(Debug)]
pub struct Grammar {
    pub topic: HelpTopic,
    pub options: Vec<&'static str>,
    pub flags: Vec<(&'static str, usize)>,
    pub slots: usize,
    pub places: Option<usize>,
}

/// The options, flags and places of a command: an option takes a value, a flag sets the slot
/// with its number, and without a number of places any number of other arguments may come.
pub struct GrammarV {
    pub topic: HelpTopic,
    pub options: Seq<Seq<char>>,
    pub flags: Seq<(Seq<char>, int)>,
    pub slots: nat,
    pub places: Option<nat>,
}

/// The names of options.
pub open spec fn name_views(v: Seq<&'static str>) -> Seq<Seq<char>> {
    v.map_values(|s: &'static str| s@)
}

/// The names of flags with their slots.
pub open spec fn flag_views(v: Seq<(&'static str, usize)>) -> Seq<(Seq<char>, int)> {
    v.map_values(|f: (&'static str, usize)| (f.0@, f.1 as int))
}

impl Grammar {
    /// The grammar, as characters.
    pub open spec fn view(&self) -> GrammarV {
        GrammarV {
            topic: self.topic,
            options: name_views(self.options@),
            flags: flag_views(self.flags@),
            slots: self.slots as nat,
            places: match self.places {
                Some(n) => Some(n as nat),
                None => None,
            },
        }
    }

    /// Every flag has a slot.
    pub open spec fn wf(&self) -> bool {
        forall|i: int| 0 <= i < self.flags@.len() ==> (#[trigger] self.flags@[i]).1 < self.slots
    }
}

/// What was given to a command.
#[derive(Debug)]
pub struct Given {
    pub values: Vec<Option<String>>,
    pub set: Vec<bool>,
    pub free: Vec<String>,
}

/// What was given to a command: the value of each option, whether each slot was set, and the
/// other arguments.
pub struct GivenV {
    pub values: Seq<Option<Seq<char>>>,
    pub set: Seq<bool>,
    pub free: Seq<Seq<char>>,
}

/// The values that may be there.
pub open spec fn value_views(v: Seq<Option<String>>) -> Seq<Option<Seq<char>>> {
    v.map_values(|o: Option<String>| opt_text(o))
}

impl Given {
    /// What was given, as characters.
    pub open spec fn view(&self) -> GivenV {
        GivenV { values: value_views(self.values@), set: self.set@, free: texts(self.free@) }
    }
}

/// Nothing was given.
pub open spec fn nothing_given(grammar: GrammarV) -> GivenV {
    GivenV {
        values: Seq::new(grammar.options.len(), |i: int| None::<Seq<char>>),
        set: Seq::new(grammar.slots, |i: int| false),
        free: Seq::empty(),
    }
}

/// The place of a name.
pub open spec fn option_at(names: Seq<Seq<char>>, name: Seq<char>) -> Option<int>
    decreases names.len(),
{
    if names.len() == 0 {
        None
    } else {
        match option_at(names.drop_last(), name) {
            Some(i) => Some(i),
            None => if names.last() == name {
                Some(names.len() - 1)
            } else {
                None
            },
        }
    }
}

/// The slot of a flag.
pub open spec fn slot_of(flags: Seq<(Seq<char>, int)>, name: Seq<char>) -> Option<int>
    decreases flags.len(),
{
    if flags.len() == 0 {
        None
    } else {
        match slot_of(flags.drop_last(), name) {
            Some(i) => Some(i),
            None => if flags.last().0 == name {
                Some(flags.last().1)
            } else {
                None
            },
        }
    }
}

/// An argument that is no value: a hyphen and more.
pub open spec fn is_hyphened(argument: Seq<char>) -> bool {
    argument.len() > 1 && argument[0] == '-'
}

/// The arguments from a place on, after what was given before; after a bare `--` nothing is
/// an option.
pub open spec fn read_from(
    args: Seq<Seq<char>>,
    i: int,
    plain: bool,
    grammar: GrammarV,
    given: GivenV,
) -> Result<GivenV, CliFaultV>
    decreases args.len() - i,
{
    if i >= args.len() {
        Ok(given)
    } else if plain || !is_hyphened(args[i]) {
        if grammar.places is Some && given.free.len() >= grammar.places->0 {
            Err(CliFaultV::UnexpectedArgument(args[i]))
        } else {
            read_from(
                args,
                i + 1,
                plain,
                grammar,
                GivenV { free: given.free.push(args[i]), ..given },
            )
        }
    } else if args[i] == "--"@ {
        read_from(args, i + 1, true, grammar, given)
    } else if args[i] == "--help"@ || args[i] == "-h"@ {
        Err(CliFaultV::Help(grammar.topic, args[i] == "--help"@))
    } else if !has_prefix(args[i], "--"@) {
        Err(CliFaultV::UnexpectedArgument(args[i]))
    } else {
        let (name, value) = match cut_at(args[i].skip(2), '=') {
            None => (args[i].skip(2), None::<Seq<char>>),
            Some((name, value)) => (name, Some(value)),
        };
        match option_at(grammar.options, name) {
            Some(k) => if given.values[k] is Some {
                Err(CliFaultV::RepeatedOption(name))
            } else {
                match value {
                    Some(value) => read_from(
                        args,
                        i + 1,
                        plain,
                        grammar,
                        GivenV { values: given.values.update(k, Some(value)), ..given },
                    ),
                    None => if i + 1 >= args.len() || is_hyphened(args[i + 1]) {
                        Err(CliFaultV::MissingValue(name))
                    } else {
                        read_from(
                            args,
                            i + 2,
                            plain,
                            grammar,
                            GivenV { values: given.values.update(k, Some(args[i + 1])), ..given },
                        )
                    },
                }
            },
            None => match slot_of(grammar.flags, name) {
                Some(k) => if value is Some {
                    Err(CliFaultV::UnexpectedArgument(args[i]))
                } else if given.set[k] {
                    Err(CliFaultV::RepeatedOption(name))
                } else {
                    read_from(
                        args,
                        i + 1,
                        plain,
                        grammar,
                        GivenV { set: given.set.update(k, true), ..given },
                    )
                },
                None => Err(CliFaultV::UnexpectedArgument(args[i])),
            },
        }
    }
}

/// What the arguments give to a command.
pub open spec fn arguments_of(args: Seq<Seq<char>>, from: int, grammar: GrammarV) -> Result<
    GivenV,
    CliFaultV,
> {
    read_from(args, from, false, grammar, nothing_given(grammar))
}

fn find_option(options: &Vec<&'static str>, name: &str) -> (r: Option<usize>)
    ensures
        match r {
            Some(k) => option_at(name_views(options@), name@) == Some(k as int) && k
                < options@.len(),
            None => option_at(name_views(options@), name@) is None,
        },
{
    let ghost all = name_views(options@);
    let mut found: Option<usize> = None;
    let mut i: usize = 0;
    assert(all.take(0) =~= Seq::<Seq<char>>::empty());
    while i < options.len()
        invariant
            i <= options@.len(),
            all == name_views(options@),
            match found {
                Some(k) => option_at(all.take(i as int), name@) == Some(k as int) && k < i,
                None => option_at(all.take(i as int), name@) is None,
            },
        decreases options@.len() - i,
    {
        assert(all.take(i + 1).drop_last() =~= all.take(i as int));
        assert(all[i as int] == options@[i as int]@);
        if found.is_none() && text::same(options[i], name) {
            found = Some(i);
        }
        i = i + 1;
    }
    assert(all.take(i as int) =~= all);
    found
}

fn find_slot(flags: &Vec<(&'static str, usize)>, name: &str) -> (r: Option<usize>)
    ensures
        match r {
            Some(k) => slot_of(flag_views(flags@), name@) == Some(k as int) && exists|i: int|
                0 <= i < flags@.len() && (#[trigger] flags@[i]).1 == k,
            None => slot_of(flag_views(flags@), name@) is None,
        },
{
    let ghost all = flag_views(flags@);
    let mut found: Option<usize> = None;
    let mut i: usize = 0;
    assert(all.take(0) =~= Seq::<(Seq<char>, int)>::empty());
    while i < flags.len()
        invariant
            i <= flags@.len(),
            all == flag_views(flags@),
            match found {
                Some(k) => slot_of(all.take(i as int), name@) == Some(k as int) && exists|j: int|
                    0 <= j < i && (#[trigger] flags@[j]).1 == k,
                None => slot_of(all.take(i as int), name@) is None,
            },
        decreases flags@.len() - i,
    {
        assert(all.take(i + 1).drop_last() =~= all.take(i as int));
        assert(all[i as int] == (flags@[i as int].0@, flags@[i as int].1 as int));
        if found.is_none() && text::same(flags[i].0, name) {
            found = Some(flags[i].1);
        }
        i = i + 1;
    }
    assert(all.take(i as int) =~= all);
    found
}

fn hyphened(argument: &str) -> (r: bool)
    ensures
        r == is_hyphened(argument@),
{
    let v = text::chars_of(argument);
    v.len() > 1 && v[0] == '-'
}

/// A result of reading arguments.
pub open spec fn given_view(r: Result<Given, CliError>) -> Result<GivenV, CliFaultV> {
    match r {
        Ok(given) => Ok(given@),
        Err(error) => Err(error@),
    }
}

/// Reads the arguments of a command.
pub fn read_arguments(args: &Vec<String>, from: usize, grammar: &Grammar) -> (r: Result<
    Given,
    CliError,
>)
    requires
        grammar.wf(),
        from <= args@.len(),
    ensures
        given_view(r) == arguments_of(texts(args@), from as int, grammar@),
        r matches Ok(given) ==> given.values@.len() == grammar.options@.len() && given.set@.len()
            == grammar.slots,
{
    let ghost all = texts(args@);
    let ghost g = grammar@;
    let mut values: Vec<Option<String>> = Vec::new();
    let mut n: usize = 0;
    while n < grammar.options.len()
        invariant
            n <= grammar.options@.len(),
            values@.len() == n,
            forall|k: int| 0 <= k < n ==> (#[trigger] values@[k]) is None,
        decreases grammar.options@.len() - n,
    {
        values.push(None);
        n = n + 1;
    }
    let mut set: Vec<bool> = Vec::new();
    n = 0;
    while n < grammar.slots
        invariant
            n <= grammar.slots,
            set@.len() == n,
            forall|k: int| 0 <= k < n ==> !(#[trigger] set@[k]),
        decreases grammar.slots - n,
    {
        set.push(false);
        n = n + 1;
    }
    let mut given = Given { values, set, free: Vec::new() };
    proof {
        let start = nothing_given(g);
        assert(given@.values =~= start.values);
        assert(given@.set =~= start.set);
        assert(given@.free =~= start.free);
    }
    let mut plain = false;
    let mut i: usize = from;
    let total: usize = args.len();
    while i < total
        invariant
            i <= total,
            total == args@.len(),
            grammar.wf(),
            all == texts(args@),
            g == grammar@,
            given.values@.len() == grammar.options@.len(),
            given.set@.len() == grammar.slots,
            arguments_of(all, from as int, g) == read_from(all, i as int, plain, g, given@),
        decreases total - i,
    {
        let argument = args[i].as_str();
        let ghost before = given@;
        assert(all[i as int] == argument@);
        proof {
            reveal_strlit("--");
        }
        if plain || !hyphened(argument) {
            match grammar.places {
                Some(places) => {
                    if given.free.len() >= places {
                        return Err(
                            CliError::UnexpectedArgument { argument: argument.to_owned() },
                        );
                    }
                },
                None => {},
            }
            given.free.push(argument.to_owned());
            assert(given@.free =~= before.free.push(argument@));
            assert(given@ == (GivenV { free: before.free.push(argument@), ..before }));
            i = i + 1;
        } else if text::same(argument, "--") {
            plain = true;
            i = i + 1;
        } else if text::same(argument, "--help") || text::same(argument, "-h") {
            return Err(CliError::Help(grammar.topic, text::same(argument, "--help")));
        } else if !text::starts_with(argument, "--") {
            return Err(CliError::UnexpectedArgument { argument: argument.to_owned() });
        } else {
            let rest = text::skip_chars(argument, 2);
            let (name, value): (String, Option<String>) = match text::split_once(
                rest.as_str(),
                '=',
            ) {
                None => (rest, None),
                Some((name, value)) => (name, Some(value)),
            };
            match find_option(&grammar.options, name.as_str()) {
                Some(k) => {
                    assert(before.values[k as int] == opt_text(given.values@[k as int]));
                    if given.values[k].is_some() {
                        return Err(CliError::RepeatedOption { option: name });
                    }
                    match value {
                        Some(value) => {
                            given.values.set(k, Some(value));
                            assert(given@.values =~= before.values.update(k as int, Some(value@)));
                            i = i + 1;
                        },
                        None => {
                            if i + 1 >= total || hyphened(args[i + 1].as_str()) {
                                assert(i + 1 < total ==> all[i + 1] == args@[i + 1]@);
                                return Err(CliError::MissingValue { option: name });
                            }
                            assert(all[i + 1] == args@[i + 1]@);
                            let next = args[i + 1].clone();
                            given.values.set(k, Some(next));
                            assert(given@.values =~= before.values.update(k as int, Some(next@)));
                            i = i + 2;
                        },
                    }
                },
                None => {
                    match find_slot(&grammar.flags, name.as_str()) {
                        Some(k) => {
                            if value.is_some() {
                                return Err(
                                    CliError::UnexpectedArgument { argument: argument.to_owned() },
                                );
                            }
                            if given.set[k] {
                                return Err(CliError::RepeatedOption { option: name });
                            }
                            given.set.set(k, true);
                            assert(given@.set =~= before.set.update(k as int, true));
                            i = i + 1;
                        },
                        None => {
                            return Err(
                                CliError::UnexpectedArgument { argument: argument.to_owned() },
                            );
                        },
                    }
                },
            }
        }
    }
    Ok(given)
}

/// What is given of a new project.
pub struct InitV {
    pub path: Option<Seq<char>>,
    pub name: Option<Seq<char>>,
    pub title: Option<Seq<char>>,
    pub description: Option<Seq<char>>,
    pub author_name: Option<Seq<char>>,
    pub author_email: Option<Seq<char>>,
    pub license: Option<InitLicense>,
}

/// What is to be done with repositories.
pub enum RepoV {
    Add(Seq<char>),
    Remove(Seq<char>, bool),
    List(Option<RepositoryType>),
    BaseSet(Seq<char>),
    BaseReset(bool),
    AdditionalAdd(Seq<char>),
    AdditionalRemove(Seq<char>, bool),
    RemoteAdd(Seq<char>),
    RemoteRemove(Seq<char>),
}

/// What is to be done.
pub enum CommandV {
    Init(InitV),
    Add(AddDependencyTypeArgs, Seq<Seq<char>>),
    Remove(Seq<Seq<char>>),
    Run(Seq<Seq<char>>),
    Lock,
    Status,
    Sync(bool, bool),
    Clean,
    Repo(RepoV),
}

impl InitArgs {
    /// What is given, as characters.
    pub open spec fn view(&self) -> InitV {
        InitV {
            path: opt_text(self.path),
            name: opt_text(self.name),
            title: opt_text(self.title),
            description: opt_text(self.description),
            author_name: opt_text(self.author_name),
            author_email: opt_text(self.author_email),
            license: self.license,
        }
    }
}

impl RepoCommands {
    /// The command, as characters.
    pub open spec fn view(&self) -> RepoV {
        match self {
            RepoCommands::Add(args) => RepoV::Add(args.url@),
            RepoCommands::Remove(args) => RepoV::Remove(args.url@, args.remove_credential),
            RepoCommands::List(args) => RepoV::List(args.repository_type),
            RepoCommands::Base { command: RepoBaseCommands::SetUrl(args) } => RepoV::BaseSet(
                args.url@,
            ),
            RepoCommands::Base { command: RepoBaseCommands::Reset(args) } => RepoV::BaseReset(
                args.remove_credential,
            ),
            RepoCommands::Additional { command: RepoAdditionalCommands::Add(args) } => {
                RepoV::AdditionalAdd(args.url@)
            },
            RepoCommands::Additional { command: RepoAdditionalCommands::Remove(args) } => {
                RepoV::AdditionalRemove(args.url@, args.remove_credential)
            },
            RepoCommands::Remote { command: RepoRemoteCommands::Add(args) } => RepoV::RemoteAdd(
                args.remote@,
            ),
            RepoCommands::Remote { command: RepoRemoteCommands::Remove(args) } => {
                RepoV::RemoteRemove(args.remote@)
            },
        }
    }
}

impl Commands {
    /// The command, as characters.
    pub open spec fn view(&self) -> CommandV {
        match self {
            Commands::Init(args) => CommandV::Init(args@),
            Commands::Add { dependency_type, packages } => CommandV::Add(
                *dependency_type,
                texts(packages@),
            ),
            Commands::Remove { packages } => CommandV::Remove(texts(packages@)),
            Commands::Run { command } => CommandV::Run(texts(command@)),
            Commands::Lock {  } => CommandV::Lock,
            Commands::Status => CommandV::Status,
            Commands::Sync { install_system, install_only_system } => CommandV::Sync(
                *install_system,
                *install_only_system,
            ),
            Commands::Clean => CommandV::Clean,
            Commands::Repo { command } => CommandV::Repo(command@),
        }
    }
}

/// The license of a name.
pub open spec fn license_named(name: Seq<char>) -> Option<InitLicense> {
    if name == "mit"@ {
        Some(InitLicense::Mit)
    } else if name == "apache-2.0"@ {
        Some(InitLicense::Apache2)
    } else if name == "gpl-2"@ {
        Some(InitLicense::Gpl2)
    } else if name == "gpl-3"@ {
        Some(InitLicense::Gpl3)
    } else if name == "agpl-3"@ {
        Some(InitLicense::Agpl3)
    } else if name == "lgpl-2.1"@ {
        Some(InitLicense::Lgpl21)
    } else if name == "lgpl-3"@ {
        Some(InitLicense::Lgpl3)
    } else if name == "cc0"@ {
        Some(InitLicense::Cc0)
    } else if name == "cc-by-4.0"@ {
        Some(InitLicense::CcBy4)
    } else if name == "proprietary"@ {
        Some(InitLicense::Proprietary)
    } else {
        None
    }
}

impl InitLicense {
    /// The license of a name.
    pub fn from_name(name: &str) -> (r: Option<InitLicense>)
        ensures
            r == license_named(name@),
    {
        if text::same(name, "mit") {
            Some(InitLicense::Mit)
        } else if text::same(name, "apache-2.0") {
            Some(InitLicense::Apache2)
        } else if text::same(name, "gpl-2") {
            Some(InitLicense::Gpl2)
        } else if text::same(name, "gpl-3") {
            Some(InitLicense::Gpl3)
        } else if text::same(name, "agpl-3") {
            Some(InitLicense::Agpl3)
        } else if text::same(name, "lgpl-2.1") {
            Some(InitLicense::Lgpl21)
        } else if text::same(name, "lgpl-3") {
            Some(InitLicense::Lgpl3)
        } else if text::same(name, "cc0") {
            Some(InitLicense::Cc0)
        } else if text::same(name, "cc-by-4.0") {
            Some(InitLicense::CcBy4)
        } else if text::same(name, "proprietary") {
            Some(InitLicense::Proprietary)
        } else {
            None
        }
    }
}

/// The class of repositories of a name.
pub open spec fn type_named(name: Seq<char>) -> Option<RepositoryType> {
    if name == "base"@ {
        Some(RepositoryType::Base)
    } else if name == "additional"@ {
        Some(RepositoryType::Additional)
    } else if name == "remote"@ {
        Some(RepositoryType::Remote)
    } else {
        None
    }
}

impl RepositoryType {
    /// The class of repositories of a name.
    pub fn from_name(name: &str) -> (r: Option<RepositoryType>)
        ensures
            r == type_named(name@),
    {
        if text::same(name, "base") {
            Some(RepositoryType::Base)
        } else if text::same(name, "additional") {
            Some(RepositoryType::Additional)
        } else if text::same(name, "remote") {
            Some(RepositoryType::Remote)
        } else {
            None
        }
    }
}

/// A command without options that takes a number of places.
pub open spec fn bare_grammar(topic: HelpTopic, places: Option<nat>) -> GrammarV {
    GrammarV { topic, options: Seq::empty(), flags: Seq::empty(), slots: 0, places }
}

fn make_bare_grammar(topic: HelpTopic, places: Option<usize>) -> (r: Grammar)
    ensures
        r.wf(),
        r@ == bare_grammar(
            topic,
            match places {
                Some(n) => Some(n as nat),
                None => None,
            },
        ),
{
    let r = Grammar { topic, options: Vec::new(), flags: Vec::new(), slots: 0, places };
    assert(r@.options =~= Seq::<Seq<char>>::empty());
    assert(r@.flags =~= Seq::<(Seq<char>, int)>::empty());
    r
}

/// The options of `init`.
pub open spec fn init_grammar() -> GrammarV {
    GrammarV {
        topic: HelpTopic::Init,
        options: seq![
            "name"@,
            "title"@,
            "description"@,
            "author-name"@,
            "author-email"@,
            "license"@,
        ],
        flags: Seq::empty(),
        slots: 0,
        places: Some(1),
    }
}

fn make_init_grammar() -> (r: Grammar)
    ensures
        r.wf(),
        r@ == init_grammar(),
        r.options@.len() == 6,
{
    let mut options: Vec<&'static str> = Vec::new();
    options.push("name");
    options.push("title");
    options.push("description");
    options.push("author-name");
    options.push("author-email");
    options.push("license");
    let r = Grammar {
        topic: HelpTopic::Init,
        options,
        flags: Vec::new(),
        slots: 0,
        places: Some(1),
    };
    assert(r@.options =~= init_grammar().options);
    assert(r@.flags =~= Seq::<(Seq<char>, int)>::empty());
    r
}

/// The flags of `add`.
pub open spec fn add_grammar() -> GrammarV {
    GrammarV {
        topic: HelpTopic::Add,
        options: Seq::empty(),
        flags: seq![
            ("depends"@, 0int),
            ("imports"@, 1int),
            ("linking-to"@, 2int),
            ("suggests"@, 3int),
            ("dev"@, 3int),
        ],
        slots: 4,
        places: None,
    }
}

fn make_add_grammar() -> (r: Grammar)
    ensures
        r.wf(),
        r@ == add_grammar(),
        r.slots == 4,
{
    let mut flags: Vec<(&'static str, usize)> = Vec::new();
    flags.push(("depends", 0));
    flags.push(("imports", 1));
    flags.push(("linking-to", 2));
    flags.push(("suggests", 3));
    flags.push(("dev", 3));
    let r = Grammar {
        topic: HelpTopic::Add,
        options: Vec::new(),
        flags,
        slots: 4,
        places: None,
    };
    assert(r@.options =~= Seq::<Seq<char>>::empty());
    assert(r@.flags =~= add_grammar().flags);
    r
}

/// The flags of `sync`.
pub open spec fn sync_grammar() -> GrammarV {
    GrammarV {
        topic: HelpTopic::Sync,
        options: Seq::empty(),
        flags: seq![("install-system"@, 0int), ("install-only-system"@, 1int)],
        slots: 2,
        places: Some(0),
    }
}

fn make_sync_grammar() -> (r: Grammar)
    ensures
        r.wf(),
        r@ == sync_grammar(),
        r.slots == 2,
{
    let mut flags: Vec<(&'static str, usize)> = Vec::new();
    flags.push(("install-system", 0));
    flags.push(("install-only-system", 1));
    let r = Grammar {
        topic: HelpTopic::Sync,
        options: Vec::new(),
        flags,
        slots: 2,
        places: Some(0),
    };
    assert(r@.options =~= Seq::<Seq<char>>::empty());
    assert(r@.flags =~= sync_grammar().flags);
    r
}

/// A command that can also remove a credential.
pub open spec fn removal_grammar(topic: HelpTopic, places: nat) -> GrammarV {
    GrammarV {
        topic,
        options: Seq::empty(),
        flags: seq![("remove-credential"@, 0int)],
        slots: 1,
        places: Some(places),
    }
}

fn make_removal_grammar(topic: HelpTopic, places: usize) -> (r: Grammar)
    ensures
        r.wf(),
        r@ == removal_grammar(topic, places as nat),
        r.slots == 1,
{
    let mut flags: Vec<(&'static str, usize)> = Vec::new();
    flags.push(("remove-credential", 0));
    let r = Grammar { topic, options: Vec::new(), flags, slots: 1, places: Some(places) };
    assert(r@.options =~= Seq::<Seq<char>>::empty());
    assert(r@.flags =~= seq![("remove-credential"@, 0int)]);
    r
}

/// The option of `repo list`.
pub open spec fn list_grammar() -> GrammarV {
    GrammarV {
        topic: HelpTopic::RepoList,
        options: seq!["type"@],
        flags: Seq::empty(),
        slots: 0,
        places: Some(0),
    }
}

fn make_list_grammar() -> (r: Grammar)
    ensures
        r.wf(),
        r@ == list_grammar(),
        r.options@.len() == 1,
{
    let mut options: Vec<&'static str> = Vec::new();
    options.push("type");
    let r = Grammar {
        topic: HelpTopic::RepoList,
        options,
        flags: Vec::new(),
        slots: 0,
        places: Some(0),
    };
    assert(r@.options =~= list_grammar().options);
    assert(r@.flags =~= Seq::<(Seq<char>, int)>::empty());
    r
}

/// The new project that the arguments of `init` describe.
pub open spec fn init_command(args: Seq<Seq<char>>, from: int) -> Result<CommandV, CliFaultV> {
    match arguments_of(args, from, init_grammar()) {
        Err(fault) => Err(fault),
        Ok(given) => {
            let license = match given.values[5] {
                None => Ok(None),
                Some(name) => match license_named(name) {
                    Some(license) => Ok(Some(license)),
                    None => Err(CliFaultV::InvalidValue("license"@, name)),
                },
            };
            match license {
                Err(fault) => Err(fault),
                Ok(license) => Ok(
                    CommandV::Init(
                        InitV {
                            path: if given.free.len() > 0 {
                                Some(given.free[0])
                            } else {
                                None
                            },
                            name: given.values[0],
                            title: given.values[1],
                            description: given.values[2],
                            author_name: given.values[3],
                            author_email: given.values[4],
                            license,
                        },
                    ),
                ),
            }
        },
    }
}

/// A result of reading a command.
pub open spec fn command_view(r: Result<Commands, CliError>) -> Result<CommandV, CliFaultV> {
    match r {
        Ok(command) => Ok(command@),
        Err(error) => Err(error@),
    }
}

fn read_init(args: &Vec<String>, from: usize) -> (r: Result<Commands, CliError>)
    requires
        from <= args@.len(),
    ensures
        command_view(r) == init_command(texts(args@), from as int),
{
    let grammar = make_init_grammar();
    let given = match read_arguments(args, from, &grammar) {
        Ok(given) => given,
        Err(error) => {
            return Err(error);
        },
    };
    let ghost view = given@;
    assert forall|k: int| 0 <= k < 6 implies view.values[k] == opt_text(
        #[trigger] given.values@[k],
    ) by {}
    assert(view.free.len() == given.free@.len());
    let license_name = text::copy_opt(&given.values[5]);
    let license = match license_name {
        None => None,
        Some(name) => match InitLicense::from_name(name.as_str()) {
            Some(license) => Some(license),
            None => {
                return Err(CliError::InvalidValue { option: "license".to_owned(), value: name });
            },
        },
    };
    let path = if given.free.len() > 0 {
        assert(view.free[0] == given.free@[0]@);
        Some(given.free[0].clone())
    } else {
        None
    };
    Ok(
        Commands::Init(
            InitArgs {
                path,
                name: text::copy_opt(&given.values[0]),
                title: text::copy_opt(&given.values[1]),
                description: text::copy_opt(&given.values[2]),
                author_name: text::copy_opt(&given.values[3]),
                author_email: text::copy_opt(&given.values[4]),
                license,
            },
        ),
    )
}

/// How many of four flags are set.
pub open spec fn count_set(a: bool, b: bool, c: bool, d: bool) -> int {
    (if a { 1int } else { 0 }) + (if b { 1int } else { 0 }) + (if c { 1int } else { 0 }) + (if d {
        1int
    } else {
        0
    })
}

/// The packages that the arguments of `add` name, and the field they go to.
pub open spec fn add_command(args: Seq<Seq<char>>, from: int) -> Result<CommandV, CliFaultV> {
    match arguments_of(args, from, add_grammar()) {
        Err(fault) => Err(fault),
        Ok(given) => if given.free.len() == 0 {
            Err(CliFaultV::MissingArgument("PACKAGE[@CONSTRAINTVERSION]"@))
        } else if count_set(given.set[0], given.set[1], given.set[2], given.set[3]) > 1 {
            Err(CliFaultV::ConflictingOptions(HelpTopic::Add))
        } else {
            Ok(
                CommandV::Add(
                    AddDependencyTypeArgs {
                        depends: given.set[0],
                        imports: given.set[1],
                        linking_to: given.set[2],
                        suggests: given.set[3],
                    },
                    given.free,
                ),
            )
        },
    }
}

fn read_add(args: &Vec<String>, from: usize) -> (r: Result<Commands, CliError>)
    requires
        from <= args@.len(),
    ensures
        command_view(r) == add_command(texts(args@), from as int),
{
    let grammar = make_add_grammar();
    let given = match read_arguments(args, from, &grammar) {
        Ok(given) => given,
        Err(error) => {
            return Err(error);
        },
    };
    assert(given@.free.len() == given.free@.len());
    if given.free.len() == 0 {
        return Err(CliError::MissingArgument { name: "PACKAGE[@CONSTRAINTVERSION]" });
    }
    let dependency_type = AddDependencyTypeArgs {
        depends: given.set[0],
        imports: given.set[1],
        linking_to: given.set[2],
        suggests: given.set[3],
    };
    let mut count: u64 = 0;
    if dependency_type.depends {
        count = count + 1;
    }
    if dependency_type.imports {
        count = count + 1;
    }
    if dependency_type.linking_to {
        count = count + 1;
    }
    if dependency_type.suggests {
        count = count + 1;
    }
    if count > 1 {
        return Err(CliError::ConflictingOptions(HelpTopic::Add));
    }
    Ok(Commands::Add { dependency_type, packages: given.free })
}

/// The packages that the arguments of `remove` name.
pub open spec fn remove_command(args: Seq<Seq<char>>, from: int) -> Result<CommandV, CliFaultV> {
    match arguments_of(args, from, bare_grammar(HelpTopic::Remove, None)) {
        Err(fault) => Err(fault),
        Ok(given) => if given.free.len() == 0 {
            Err(CliFaultV::MissingArgument("PACKAGE"@))
        } else {
            Ok(CommandV::Remove(given.free))
        },
    }
}

fn read_remove(args: &Vec<String>, from: usize) -> (r: Result<Commands, CliError>)
    requires
        from <= args@.len(),
    ensures
        command_view(r) == remove_command(texts(args@), from as int),
{
    let grammar = make_bare_grammar(HelpTopic::Remove, None);
    match read_arguments(args, from, &grammar) {
        Err(error) => Err(error),
        Ok(given) => {
            assert(given@.free.len() == given.free@.len());
            if given.free.len() == 0 {
                Err(CliError::MissingArgument { name: "PACKAGE" })
            } else {
                Ok(Commands::Remove { packages: given.free })
            }
        },
    }
}

/// The command that the arguments of `run` are, as they stand; a bare `--` before it is
/// passed over.
pub open spec fn run_command(args: Seq<Seq<char>>, from: int) -> Result<CommandV, CliFaultV> {
    if from < args.len() && (args[from] == "--help"@ || args[from] == "-h"@) {
        Err(CliFaultV::Help(HelpTopic::Run, args[from] == "--help"@))
    } else {
        let start = if from < args.len() && args[from] == "--"@ {
            from + 1
        } else {
            from
        };
        if start >= args.len() {
            Err(CliFaultV::MissingArgument("COMMAND"@))
        } else {
            Ok(CommandV::Run(args.skip(start)))
        }
    }
}

fn read_run(args: &Vec<String>, from: usize) -> (r: Result<Commands, CliError>)
    requires
        from <= args@.len(),
    ensures
        command_view(r) == run_command(texts(args@), from as int),
{
    let ghost all = texts(args@);
    let mut start: usize = from;
    if from < args.len() {
        let first = args[from].as_str();
        assert(all[from as int] == first@);
        if text::same(first, "--help") || text::same(first, "-h") {
            return Err(CliError::Help(HelpTopic::Run, text::same(first, "--help")));
        }
        if text::same(first, "--") {
            start = from + 1;
        }
    }
    if start >= args.len() {
        return Err(CliError::MissingArgument { name: "COMMAND" });
    }
    let mut command: Vec<String> = Vec::new();
    let mut i: usize = start;
    while i < args.len()
        invariant
            start <= i <= args@.len(),
            all == texts(args@),
            command@.len() == i - start,
            forall|k: int| 0 <= k < i - start ==> (#[trigger] command@[k])@ == all[start + k],
        decreases args@.len() - i,
    {
        command.push(args[i].clone());
        i = i + 1;
    }
    assert(texts(command@) =~= all.skip(start as int));
    Ok(Commands::Run { command })
}

/// A command without arguments.
pub open spec fn simple_command(
    args: Seq<Seq<char>>,
    from: int,
    topic: HelpTopic,
    command: CommandV,
) -> Result<CommandV, CliFaultV> {
    match arguments_of(args, from, bare_grammar(topic, Some(0))) {
        Err(fault) => Err(fault),
        Ok(_) => Ok(command),
    }
}

fn read_simple(args: &Vec<String>, from: usize, topic: HelpTopic, command: Commands) -> (r: Result<
    Commands,
    CliError,
>)
    requires
        from <= args@.len(),
    ensures
        command_view(r) == simple_command(texts(args@), from as int, topic, command@),
{
    let grammar = make_bare_grammar(topic, Some(0));
    match read_arguments(args, from, &grammar) {
        Err(error) => Err(error),
        Ok(_) => Ok(command),
    }
}

/// What the arguments of `sync` ask for.
pub open spec fn sync_command(args: Seq<Seq<char>>, from: int) -> Result<CommandV, CliFaultV> {
    match arguments_of(args, from, sync_grammar()) {
        Err(fault) => Err(fault),
        Ok(given) => if given.set[0] && given.set[1] {
            Err(CliFaultV::ConflictingOptions(HelpTopic::Sync))
        } else {
            Ok(CommandV::Sync(given.set[0], given.set[1]))
        },
    }
}

fn read_sync(args: &Vec<String>, from: usize) -> (r: Result<Commands, CliError>)
    requires
        from <= args@.len(),
    ensures
        command_view(r) == sync_command(texts(args@), from as int),
{
    let grammar = make_sync_grammar();
    match read_arguments(args, from, &grammar) {
        Err(error) => Err(error),
        Ok(given) => {
            if given.set[0] && given.set[1] {
                Err(CliError::ConflictingOptions(HelpTopic::Sync))
            } else {
                Ok(
                    Commands::Sync {
                        install_system: given.set[0],
                        install_only_system: given.set[1],
                    },
                )
            }
        },
    }
}

/// The one argument of a command.
pub open spec fn one_argument(
    args: Seq<Seq<char>>,
    from: int,
    topic: HelpTopic,
    name: Seq<char>,
) -> Result<Seq<char>, CliFaultV> {
    match arguments_of(args, from, bare_grammar(topic, Some(1))) {
        Err(fault) => Err(fault),
        Ok(given) => if given.free.len() == 0 {
            Err(CliFaultV::MissingArgument(name))
        } else {
            Ok(given.free[0])
        },
    }
}

/// A result of reading a text.
pub open spec fn text_view(r: Result<String, CliError>) -> Result<Seq<char>, CliFaultV> {
    match r {
        Ok(text) => Ok(text@),
        Err(error) => Err(error@),
    }
}

fn read_one(args: &Vec<String>, from: usize, topic: HelpTopic, name: &'static str) -> (r: Result<
    String,
    CliError,
>)
    requires
        from <= args@.len(),
    ensures
        text_view(r) == one_argument(texts(args@), from as int, topic, name@),
{
    let grammar = make_bare_grammar(topic, Some(1));
    match read_arguments(args, from, &grammar) {
        Err(error) => Err(error),
        Ok(given) => {
            assert(given@.free.len() == given.free@.len());
            if given.free.len() == 0 {
                Err(CliError::MissingArgument { name })
            } else {
                assert(given@.free[0] == given.free@[0]@);
                Ok(given.free[0].clone())
            }
        },
    }
}

/// A repository, and whether its credential is removed too.
pub open spec fn removed_url(args: Seq<Seq<char>>, from: int, topic: HelpTopic) -> Result<
    (Seq<char>, bool),
    CliFaultV,
> {
    match arguments_of(args, from, removal_grammar(topic, 1)) {
        Err(fault) => Err(fault),
        Ok(given) => if given.free.len() == 0 {
            Err(CliFaultV::MissingArgument("URL"@))
        } else {
            Ok((given.free[0], given.set[0]))
        },
    }
}

fn read_removal(args: &Vec<String>, from: usize, topic: HelpTopic) -> (r: Result<
    RepoAdditionalRemoveArgs,
    CliError,
>)
    requires
        from <= args@.len(),
    ensures
        match r {
            Ok(removal) => removed_url(texts(args@), from as int, topic) == Ok::<
                (Seq<char>, bool),
                CliFaultV,
            >((removal.url@, removal.remove_credential)),
            Err(error) => removed_url(texts(args@), from as int, topic) == Err::<
                (Seq<char>, bool),
                CliFaultV,
            >(error@),
        },
{
    let grammar = make_removal_grammar(topic, 1);
    match read_arguments(args, from, &grammar) {
        Err(error) => Err(error),
        Ok(given) => {
            assert(given@.free.len() == given.free@.len());
            if given.free.len() == 0 {
                Err(CliError::MissingArgument { name: "URL" })
            } else {
                assert(given@.free[0] == given.free@[0]@);
                Ok(
                    RepoAdditionalRemoveArgs {
                        url: given.free[0].clone(),
                        remove_credential: given.set[0],
                    },
                )
            }
        },
    }
}

/// The classes of repositories that the arguments of `repo list` ask for.
pub open spec fn list_command(args: Seq<Seq<char>>, from: int) -> Result<RepoV, CliFaultV> {
    match arguments_of(args, from, list_grammar()) {
        Err(fault) => Err(fault),
        Ok(given) => match given.values[0] {
            None => Ok(RepoV::List(None)),
            Some(name) => match type_named(name) {
                Some(kind) => Ok(RepoV::List(Some(kind))),
                None => Err(CliFaultV::InvalidValue("type"@, name)),
            },
        },
    }
}

/// A result of reading a command on repositories.
pub open spec fn repo_view(r: Result<RepoCommands, CliError>) -> Result<RepoV, CliFaultV> {
    match r {
        Ok(command) => Ok(command@),
        Err(error) => Err(error@),
    }
}

fn read_list(args: &Vec<String>, from: usize) -> (r: Result<RepoCommands, CliError>)
    requires
        from <= args@.len(),
    ensures
        repo_view(r) == list_command(texts(args@), from as int),
{
    let grammar = make_list_grammar();
    match read_arguments(args, from, &grammar) {
        Err(error) => Err(error),
        Ok(given) => {
            assert(given@.values[0] == opt_text(given.values@[0]));
            match text::copy_opt(&given.values[0]) {
                None => Ok(RepoCommands::List(RepoListArgs { repository_type: None })),
                Some(name) => match RepositoryType::from_name(name.as_str()) {
                    Some(kind) => Ok(
                        RepoCommands::List(RepoListArgs { repository_type: Some(kind) }),
                    ),
                    None => Err(CliError::InvalidValue { option: "type".to_owned(), value: name }),
                },
            }
        },
    }
}

/// The topic of a subcommand of a command.
pub open spec fn child_topic(topic: HelpTopic, name: Seq<char>) -> Option<HelpTopic> {
    match topic {
        HelpTopic::Rpx => if name == "help"@ {
            Some(HelpTopic::Help)
        } else {
            topic_named(name)
        },
        HelpTopic::Repo => {
            if name == "add"@ {
                Some(HelpTopic::RepoAdd)
            } else if name == "remove"@ {
                Some(HelpTopic::RepoRemove)
            } else if name == "list"@ {
                Some(HelpTopic::RepoList)
            } else if name == "base"@ {
                Some(HelpTopic::RepoBase)
            } else if name == "additional"@ {
                Some(HelpTopic::RepoAdditional)
            } else if name == "remote"@ {
                Some(HelpTopic::RepoRemote)
            } else if name == "help"@ {
                Some(HelpTopic::RepoHelp)
            } else {
                None
            }
        },
        HelpTopic::RepoBase => {
            if name == "set"@ {
                Some(HelpTopic::RepoBaseSet)
            } else if name == "reset"@ {
                Some(HelpTopic::RepoBaseReset)
            } else if name == "help"@ {
                Some(HelpTopic::RepoBaseHelp)
            } else {
                None
            }
        },
        HelpTopic::RepoAdditional => {
            if name == "add"@ {
                Some(HelpTopic::RepoAdditionalAdd)
            } else if name == "remove"@ {
                Some(HelpTopic::RepoAdditionalRemove)
            } else if name == "help"@ {
                Some(HelpTopic::RepoAdditionalHelp)
            } else {
                None
            }
        },
        HelpTopic::RepoRemote => {
            if name == "add"@ {
                Some(HelpTopic::RepoRemoteAdd)
            } else if name == "remove"@ {
                Some(HelpTopic::RepoRemoteRemove)
            } else if name == "help"@ {
                Some(HelpTopic::RepoRemoteHelp)
            } else {
                None
            }
        },
        _ => None,
    }
}

fn find_child(topic: HelpTopic, name: &str) -> (r: Option<HelpTopic>)
    ensures
        r == child_topic(topic, name@),
{
    match topic {
        HelpTopic::Rpx => if text::same(name, "help") {
            Some(HelpTopic::Help)
        } else {
            find_topic(name)
        },
        HelpTopic::Repo => {
            if text::same(name, "add") {
                Some(HelpTopic::RepoAdd)
            } else if text::same(name, "remove") {
                Some(HelpTopic::RepoRemove)
            } else if text::same(name, "list") {
                Some(HelpTopic::RepoList)
            } else if text::same(name, "base") {
                Some(HelpTopic::RepoBase)
            } else if text::same(name, "additional") {
                Some(HelpTopic::RepoAdditional)
            } else if text::same(name, "remote") {
                Some(HelpTopic::RepoRemote)
            } else if text::same(name, "help") {
                Some(HelpTopic::RepoHelp)
            } else {
                None
            }
        },
        HelpTopic::RepoBase => {
            if text::same(name, "set") {
                Some(HelpTopic::RepoBaseSet)
            } else if text::same(name, "reset") {
                Some(HelpTopic::RepoBaseReset)
            } else if text::same(name, "help") {
                Some(HelpTopic::RepoBaseHelp)
            } else {
                None
            }
        },
        HelpTopic::RepoAdditional => {
            if text::same(name, "add") {
                Some(HelpTopic::RepoAdditionalAdd)
            } else if text::same(name, "remove") {
                Some(HelpTopic::RepoAdditionalRemove)
            } else if text::same(name, "help") {
                Some(HelpTopic::RepoAdditionalHelp)
            } else {
                None
            }
        },
        HelpTopic::RepoRemote => {
            if text::same(name, "add") {
                Some(HelpTopic::RepoRemoteAdd)
            } else if text::same(name, "remove") {
                Some(HelpTopic::RepoRemoteRemove)
            } else if text::same(name, "help") {
                Some(HelpTopic::RepoRemoteHelp)
            } else {
                None
            }
        },
        _ => None,
    }
}

/// The help that the names from a place on ask for, each a subcommand of the one before; or
/// the first that is none.
pub open spec fn help_at(args: Seq<Seq<char>>, from: int, topic: HelpTopic) -> CliFaultV
    decreases args.len() - from,
{
    if from >= args.len() {
        CliFaultV::Help(topic, true)
    } else {
        match child_topic(topic, args[from]) {
            Some(child) => help_at(args, from + 1, child),
            None => CliFaultV::UnknownCommand(args[from]),
        }
    }
}

fn read_help(args: &Vec<String>, from: usize, topic: HelpTopic) -> (r: CliError)
    requires
        from <= args@.len(),
    ensures
        r@ == help_at(texts(args@), from as int, topic),
{
    let ghost all = texts(args@);
    let mut current: HelpTopic = topic;
    let mut i: usize = from;
    while i < args.len()
        invariant
            from <= i <= args@.len(),
            all == texts(args@),
            help_at(all, from as int, topic) == help_at(all, i as int, current),
        decreases args@.len() - i,
    {
        let name = args[i].as_str();
        assert(all[i as int] == name@);
        match find_child(current, name) {
            Some(child) => {
                current = child;
            },
            None => {
                return CliError::UnknownCommand { name: name.to_owned() };
            },
        }
        i = i + 1;
    }
    CliError::Help(current, true)
}

/// The subcommand at a place: its name, or the fault of having none.
pub open spec fn subcommand_at(args: Seq<Seq<char>>, from: int, topic: HelpTopic) -> Result<
    Seq<char>,
    CliFaultV,
> {
    if from >= args.len() {
        Err(CliFaultV::MissingCommand(topic))
    } else if args[from] == "--help"@ || args[from] == "-h"@ {
        Err(CliFaultV::Help(topic, args[from] == "--help"@))
    } else if args[from] == "help"@ {
        Err(help_at(args, from + 1, topic))
    } else if is_hyphened(args[from]) {
        Err(CliFaultV::UnexpectedArgument(args[from]))
    } else {
        Ok(args[from])
    }
}

fn read_subcommand(args: &Vec<String>, from: usize, topic: HelpTopic) -> (r: Result<
    String,
    CliError,
>)
    ensures
        text_view(r) == subcommand_at(texts(args@), from as int, topic),
        r is Ok ==> from < args@.len() && from < usize::MAX,
{
    if from >= args.len() {
        return Err(CliError::MissingCommand(topic));
    }
    let name = args[from].as_str();
    assert(texts(args@)[from as int] == name@);
    if text::same(name, "--help") || text::same(name, "-h") {
        Err(CliError::Help(topic, text::same(name, "--help")))
    } else if text::same(name, "help") {
        Err(read_help(args, from + 1, topic))
    } else if hyphened(name) {
        Err(CliError::UnexpectedArgument { argument: name.to_owned() })
    } else {
        Ok(name.to_owned())
    }
}

/// The command on the base repository.
pub open spec fn base_command(args: Seq<Seq<char>>, from: int) -> Result<RepoV, CliFaultV> {
    match subcommand_at(args, from, HelpTopic::RepoBase) {
        Err(fault) => Err(fault),
        Ok(name) => if name == "set"@ {
            match one_argument(args, from + 1, HelpTopic::RepoBaseSet, "URL"@) {
                Err(fault) => Err(fault),
                Ok(url) => Ok(RepoV::BaseSet(url)),
            }
        } else if name == "reset"@ {
            match arguments_of(args, from + 1, removal_grammar(HelpTopic::RepoBaseReset, 0)) {
                Err(fault) => Err(fault),
                Ok(given) => Ok(RepoV::BaseReset(given.set[0])),
            }
        } else {
            Err(CliFaultV::UnknownCommand(name))
        },
    }
}

fn read_base(args: &Vec<String>, from: usize) -> (r: Result<RepoCommands, CliError>)
    requires
        from <= args@.len(),
    ensures
        repo_view(r) == base_command(texts(args@), from as int),
{
    let name = match read_subcommand(args, from, HelpTopic::RepoBase) {
        Ok(name) => name,
        Err(error) => {
            return Err(error);
        },
    };
    if text::same(name.as_str(), "set") {
        match read_one(args, from + 1, HelpTopic::RepoBaseSet, "URL") {
            Err(error) => Err(error),
            Ok(url) => Ok(
                RepoCommands::Base { command: RepoBaseCommands::SetUrl(RepoBaseSetArgs { url }) },
            ),
        }
    } else if text::same(name.as_str(), "reset") {
        let grammar = make_removal_grammar(HelpTopic::RepoBaseReset, 0);
        match read_arguments(args, from + 1, &grammar) {
            Err(error) => Err(error),
            Ok(given) => Ok(
                RepoCommands::Base {
                    command: RepoBaseCommands::Reset(
                        RepoBaseResetArgs { remove_credential: given.set[0] },
                    ),
                },
            ),
        }
    } else {
        Err(CliError::UnknownCommand { name })
    }
}

/// The command on additional repositories.
pub open spec fn additional_command(args: Seq<Seq<char>>, from: int) -> Result<RepoV, CliFaultV> {
    match subcommand_at(args, from, HelpTopic::RepoAdditional) {
        Err(fault) => Err(fault),
        Ok(name) => if name == "add"@ {
            match one_argument(args, from + 1, HelpTopic::RepoAdditionalAdd, "URL"@) {
                Err(fault) => Err(fault),
                Ok(url) => Ok(RepoV::AdditionalAdd(url)),
            }
        } else if name == "remove"@ {
            match removed_url(args, from + 1, HelpTopic::RepoAdditionalRemove) {
                Err(fault) => Err(fault),
                Ok((url, credential)) => Ok(RepoV::AdditionalRemove(url, credential)),
            }
        } else {
            Err(CliFaultV::UnknownCommand(name))
        },
    }
}

fn read_additional(args: &Vec<String>, from: usize) -> (r: Result<RepoCommands, CliError>)
    requires
        from <= args@.len(),
    ensures
        repo_view(r) == additional_command(texts(args@), from as int),
{
    let name = match read_subcommand(args, from, HelpTopic::RepoAdditional) {
        Ok(name) => name,
        Err(error) => {
            return Err(error);
        },
    };
    if text::same(name.as_str(), "add") {
        match read_one(args, from + 1, HelpTopic::RepoAdditionalAdd, "URL") {
            Err(error) => Err(error),
            Ok(url) => Ok(
                RepoCommands::Additional {
                    command: RepoAdditionalCommands::Add(RepoAdditionalAddArgs { url }),
                },
            ),
        }
    } else if text::same(name.as_str(), "remove") {
        match read_removal(args, from + 1, HelpTopic::RepoAdditionalRemove) {
            Err(error) => Err(error),
            Ok(removal) => Ok(
                RepoCommands::Additional { command: RepoAdditionalCommands::Remove(removal) },
            ),
        }
    } else {
        Err(CliError::UnknownCommand { name })
    }
}

/// The command on remote packages.
pub open spec fn remote_command(args: Seq<Seq<char>>, from: int) -> Result<RepoV, CliFaultV> {
    match subcommand_at(args, from, HelpTopic::RepoRemote) {
        Err(fault) => Err(fault),
        Ok(name) => if name == "add"@ || name == "remove"@ {
            let topic = if name == "add"@ {
                HelpTopic::RepoRemoteAdd
            } else {
                HelpTopic::RepoRemoteRemove
            };
            match one_argument(args, from + 1, topic, "REMOTE"@) {
                Err(fault) => Err(fault),
                Ok(remote) => if name == "add"@ {
                    Ok(RepoV::RemoteAdd(remote))
                } else {
                    Ok(RepoV::RemoteRemove(remote))
                },
            }
        } else {
            Err(CliFaultV::UnknownCommand(name))
        },
    }
}

fn read_remote(args: &Vec<String>, from: usize) -> (r: Result<RepoCommands, CliError>)
    requires
        from <= args@.len(),
    ensures
        repo_view(r) == remote_command(texts(args@), from as int),
{
    let name = match read_subcommand(args, from, HelpTopic::RepoRemote) {
        Ok(name) => name,
        Err(error) => {
            return Err(error);
        },
    };
    let adds = text::same(name.as_str(), "add");
    if !adds && !text::same(name.as_str(), "remove") {
        return Err(CliError::UnknownCommand { name });
    }
    let topic = if adds {
        HelpTopic::RepoRemoteAdd
    } else {
        HelpTopic::RepoRemoteRemove
    };
    match read_one(args, from + 1, topic, "REMOTE") {
        Err(error) => Err(error),
        Ok(remote) => if adds {
            Ok(RepoCommands::Remote { command: RepoRemoteCommands::Add(RepoRemoteArgs { remote }) })
        } else {
            Ok(
                RepoCommands::Remote {
                    command: RepoRemoteCommands::Remove(RepoRemoteArgs { remote }),
                },
            )
        },
    }
}

/// The command on repositories.
pub open spec fn repo_command(args: Seq<Seq<char>>, from: int) -> Result<RepoV, CliFaultV> {
    match subcommand_at(args, from, HelpTopic::Repo) {
        Err(fault) => Err(fault),
        Ok(name) => if name == "add"@ {
            match one_argument(args, from + 1, HelpTopic::RepoAdd, "URL"@) {
                Err(fault) => Err(fault),
                Ok(url) => Ok(RepoV::Add(url)),
            }
        } else if name == "remove"@ {
            match removed_url(args, from + 1, HelpTopic::RepoRemove) {
                Err(fault) => Err(fault),
                Ok((url, credential)) => Ok(RepoV::Remove(url, credential)),
            }
        } else if name == "list"@ {
            list_command(args, from + 1)
        } else if name == "base"@ {
            base_command(args, from + 1)
        } else if name == "additional"@ {
            additional_command(args, from + 1)
        } else if name == "remote"@ {
            remote_command(args, from + 1)
        } else {
            Err(CliFaultV::UnknownCommand(name))
        },
    }
}

fn read_repo(args: &Vec<String>, from: usize) -> (r: Result<RepoCommands, CliError>)
    requires
        from <= args@.len(),
    ensures
        repo_view(r) == repo_command(texts(args@), from as int),
{
    let name = match read_subcommand(args, from, HelpTopic::Repo) {
        Ok(name) => name,
        Err(error) => {
            return Err(error);
        },
    };
    if text::same(name.as_str(), "add") {
        match read_one(args, from + 1, HelpTopic::RepoAdd, "URL") {
            Err(error) => Err(error),
            Ok(url) => Ok(RepoCommands::Add(RepoAdditionalAddArgs { url })),
        }
    } else if text::same(name.as_str(), "remove") {
        match read_removal(args, from + 1, HelpTopic::RepoRemove) {
            Err(error) => Err(error),
            Ok(removal) => Ok(RepoCommands::Remove(removal)),
        }
    } else if text::same(name.as_str(), "list") {
        read_list(args, from + 1)
    } else if text::same(name.as_str(), "base") {
        read_base(args, from + 1)
    } else if text::same(name.as_str(), "additional") {
        read_additional(args, from + 1)
    } else if text::same(name.as_str(), "remote") {
        read_remote(args, from + 1)
    } else {
        Err(CliError::UnknownCommand { name })
    }
}

/// The topic of a command.
pub open spec fn topic_named(name: Seq<char>) -> Option<HelpTopic> {
    if name == "init"@ {
        Some(HelpTopic::Init)
    } else if name == "add"@ {
        Some(HelpTopic::Add)
    } else if name == "remove"@ {
        Some(HelpTopic::Remove)
    } else if name == "run"@ {
        Some(HelpTopic::Run)
    } else if name == "lock"@ {
        Some(HelpTopic::Lock)
    } else if name == "status"@ {
        Some(HelpTopic::Status)
    } else if name == "sync"@ {
        Some(HelpTopic::Sync)
    } else if name == "clean"@ {
        Some(HelpTopic::Clean)
    } else if name == "repo"@ {
        Some(HelpTopic::Repo)
    } else {
        None
    }
}

fn find_topic(name: &str) -> (r: Option<HelpTopic>)
    ensures
        r == topic_named(name@),
{
    if text::same(name, "init") {
        Some(HelpTopic::Init)
    } else if text::same(name, "add") {
        Some(HelpTopic::Add)
    } else if text::same(name, "remove") {
        Some(HelpTopic::Remove)
    } else if text::same(name, "run") {
        Some(HelpTopic::Run)
    } else if text::same(name, "lock") {
        Some(HelpTopic::Lock)
    } else if text::same(name, "status") {
        Some(HelpTopic::Status)
    } else if text::same(name, "sync") {
        Some(HelpTopic::Sync)
    } else if text::same(name, "clean") {
        Some(HelpTopic::Clean)
    } else if text::same(name, "repo") {
        Some(HelpTopic::Repo)
    } else {
        None
    }
}

/// The command that a command line is, the name of the program first.
pub open spec fn command_of(args: Seq<Seq<char>>) -> Result<CommandV, CliFaultV> {
    if args.len() <= 1 {
        Err(CliFaultV::MissingCommand(HelpTopic::Rpx))
    } else {
        let name = args[1];
        if name == "--version"@ || name == "-V"@ {
            Err(CliFaultV::Version)
        } else if name == "--help"@ || name == "-h"@ {
            Err(CliFaultV::Help(HelpTopic::Rpx, name == "--help"@))
        } else if is_hyphened(name) {
            Err(CliFaultV::UnexpectedArgument(name))
        } else if name == "help"@ {
            Err(help_at(args, 2, HelpTopic::Rpx))
        } else {
            match topic_named(name) {
                Some(HelpTopic::Init) => init_command(args, 2),
                Some(HelpTopic::Add) => add_command(args, 2),
                Some(HelpTopic::Remove) => remove_command(args, 2),
                Some(HelpTopic::Run) => run_command(args, 2),
                Some(HelpTopic::Lock) => simple_command(
                    args,
                    2,
                    HelpTopic::Lock,
                    CommandV::Lock,
                ),
                Some(HelpTopic::Status) => simple_command(
                    args,
                    2,
                    HelpTopic::Status,
                    CommandV::Status,
                ),
                Some(HelpTopic::Sync) => sync_command(args, 2),
                Some(HelpTopic::Clean) => simple_command(
                    args,
                    2,
                    HelpTopic::Clean,
                    CommandV::Clean,
                ),
                Some(HelpTopic::Repo) => match repo_command(args, 2) {
                    Ok(command) => Ok(CommandV::Repo(command)),
                    Err(fault) => Err(fault),
                },
                _ => Err(CliFaultV::UnknownCommand(name)),
            }
        }
    }
}

fn read_command(args: &Vec<String>) -> (r: Result<Commands, CliError>)
    ensures
        command_view(r) == command_of(texts(args@)),
{
    let ghost all = texts(args@);
    if args.len() <= 1 {
        return Err(CliError::MissingCommand(HelpTopic::Rpx));
    }
    let name = args[1].as_str();
    assert(all[1] == name@);
    if text::same(name, "--version") || text::same(name, "-V") {
        return Err(CliError::Version);
    }
    if text::same(name, "--help") || text::same(name, "-h") {
        return Err(CliError::Help(HelpTopic::Rpx, text::same(name, "--help")));
    }
    if hyphened(name) {
        return Err(CliError::UnexpectedArgument { argument: name.to_owned() });
    }
    if text::same(name, "help") {
        return Err(read_help(args, 2, HelpTopic::Rpx));
    }
    match find_topic(name) {
        Some(HelpTopic::Init) => read_init(args, 2),
        Some(HelpTopic::Add) => read_add(args, 2),
        Some(HelpTopic::Remove) => read_remove(args, 2),
        Some(HelpTopic::Run) => read_run(args, 2),
        Some(HelpTopic::Lock) => read_simple(args, 2, HelpTopic::Lock, Commands::Lock {  }),
        Some(HelpTopic::Status) => read_simple(args, 2, HelpTopic::Status, Commands::Status),
        Some(HelpTopic::Sync) => read_sync(args, 2),
        Some(HelpTopic::Clean) => read_simple(args, 2, HelpTopic::Clean, Commands::Clean),
        Some(HelpTopic::Repo) => match read_repo(args, 2) {
            Ok(command) => Ok(Commands::Repo { command }),
            Err(error) => Err(error),
        },
        _ => Err(CliError::UnknownCommand { name: name.to_owned() }),
    }
}

impl Cli {
    /// Reads a command line, the name of the program first.
    pub fn try_parse_from(args: &Vec<String>) -> (r: Result<Cli, CliError>)
        ensures
            match r {
                Ok(cli) => command_of(texts(args@)) == Ok::<CommandV, CliFaultV>(cli.command@),
                Err(error) => command_of(texts(args@)) == Err::<CommandV, CliFaultV>(error@),
            },
    {
        match read_command(args) {
            Ok(command) => Ok(Cli { command }),
            Err(error) => Err(error),
        }
    }
}

/// Packages go to one field at most: of a command line that adds packages, no two fields
/// are selected.
pub proof fn added_packages_have_one_field(args: Seq<Seq<char>>)
    ensures
        command_of(args) matches Ok(CommandV::Add(fields, packages)) ==> packages.len() > 0
            && count_set(fields.depends, fields.imports, fields.linking_to, fields.suggests) <= 1,
{
}

/// What a command is, is left as it stands on the command line: nothing of it is an option.
pub proof fn commands_are_run_as_written(program: Seq<char>, command: Seq<Seq<char>>)
    requires
        command.len() > 0,
        command[0] != "--help"@,
        command[0] != "-h"@,
        command[0] != "--"@,
    ensures
        command_of(seq![program, "run"@] + command) == Ok::<CommandV, CliFaultV>(
            CommandV::Run(command),
        ),
{
    let args = seq![program, "run"@] + command;
    reveal_strlit("run");
    reveal_strlit("--version");
    reveal_strlit("-V");
    reveal_strlit("--help");
    reveal_strlit("-h");
    reveal_strlit("help");
    reveal_strlit("init");
    reveal_strlit("add");
    reveal_strlit("remove");
    assert(args[1] == "run"@);
    assert("run"@[0] == 'r' && "-V"@[0] == '-' && "--version"@[0] == '-' && "--help"@[0] == '-'
        && "-h"@[0] == '-' && "help"@[0] == 'h' && "init"@[0] == 'i' && "add"@[0] == 'a');
    assert("remove"@.len() == 6);
    assert(args[2] == command[0]);
    assert(args.skip(2) =~= command);
}

/// The help of `rpx`.
pub const RPX_TEXT: &'static str = "Manage R project dependencies with DESCRIPTION and rpx.lock\n\nUsage: rpx <COMMAND>\n\nCommands:\n  init    Initialize an R project\n  add     Install one or more packages\n  remove  Remove one or more packages\n  run     Run a command in the project environment\n  lock    Resolve project dependencies\n  status  Check project dependency state\n  sync    Install the locked package set\n  clean   Remove project library and caches\n  repo    Manage package repositories\n  help    Print this message or the help of the given subcommand(s)\n\nOptions:\n  -h, --help     Print help\n  -V, --version  Print version\n";

/// The help of `rpx init` in short.
pub const INIT_TEXT: &'static str = "Initialize an R project\n\nUsage: rpx init [OPTIONS] [PATH]\n\nArguments:\n  [PATH]  Directory to initialize\n\nOptions:\n      --name <NAME>                  Package name; defaults to the target directory name\n      --title <TITLE>                Package title\n      --description <DESCRIPTION>    Package description\n      --author-name <AUTHOR_NAME>    Package author name\n      --author-email <AUTHOR_EMAIL>  Package author email\n      --license <LICENSE>            Package license [possible values: mit, apache-2.0, gpl-2, gpl-3, agpl-3, lgpl-2.1, lgpl-3, cc0, cc-by-4.0, proprietary]\n  -h, --help                         Print help (see more with '--help')\n";

/// The help of `rpx init` at length.
pub const INIT_LONG_TEXT: &'static str = "Initialize an R package project in a new or empty target directory.\n\nUsage: rpx init [OPTIONS] [PATH]\n\nArguments:\n  [PATH]\n          Directory to initialize\n\nOptions:\n      --name <NAME>\n          Package name; defaults to the target directory name\n\n      --title <TITLE>\n          Package title\n\n      --description <DESCRIPTION>\n          Package description\n\n      --author-name <AUTHOR_NAME>\n          Package author name\n\n      --author-email <AUTHOR_EMAIL>\n          Package author email\n\n      --license <LICENSE>\n          Package license\n          \n          [possible values: mit, apache-2.0, gpl-2, gpl-3, agpl-3, lgpl-2.1, lgpl-3, cc0, cc-by-4.0, proprietary]\n\n  -h, --help\n          Print help (see a summary with '-h')\n";

/// The help of `rpx add` in short.
pub const ADD_TEXT: &'static str = "Install one or more packages\n\nUsage: rpx add [OPTIONS] <PACKAGE[@CONSTRAINTVERSION]>...\n\nArguments:\n  <PACKAGE[@CONSTRAINTVERSION]>...  Packages to add, optionally with a constraint such as digest@>=0.6.37\n\nOptions:\n      --depends     Add packages to Depends\n      --imports     Add packages to Imports (default)\n      --linking-to  Add packages to LinkingTo\n      --suggests    Add packages to Suggests [alias: --dev]\n  -h, --help        Print help (see more with '--help')\n";

/// The help of `rpx add` at length.
pub const ADD_LONG_TEXT: &'static str = "Install one or more packages for this project. Each package is recorded in DESCRIPTION, then rpx regenerates rpx.lock and syncs the project library.\n\nUsage: rpx add [OPTIONS] <PACKAGE[@CONSTRAINTVERSION]>...\n\nArguments:\n  <PACKAGE[@CONSTRAINTVERSION]>...\n          Packages to add, optionally with a constraint such as digest@>=0.6.37\n\nOptions:\n      --depends\n          Add packages to Depends\n\n      --imports\n          Add packages to Imports (default)\n\n      --linking-to\n          Add packages to LinkingTo\n\n      --suggests\n          Add packages to Suggests\n          \n          [alias: --dev]\n\n  -h, --help\n          Print help (see a summary with '-h')\n";

/// The help of `rpx remove` in short.
pub const REMOVE_TEXT: &'static str = "Remove one or more packages\n\nUsage: rpx remove <PACKAGE>...\n\nArguments:\n  <PACKAGE>...  Package names to remove from the project's dependencies\n\nOptions:\n  -h, --help  Print help (see more with '--help')\n";

/// The help of `rpx remove` at length.
pub const REMOVE_LONG_TEXT: &'static str = "Remove one or more packages from this project. The packages are removed from DESCRIPTION, the project library is synced, and rpx regenerates rpx.lock.\n\nUsage: rpx remove <PACKAGE>...\n\nArguments:\n  <PACKAGE>...\n          Package names to remove from the project's dependencies\n\nOptions:\n  -h, --help\n          Print help (see a summary with '-h')\n";

/// The help of `rpx run` in short.
pub const RUN_TEXT: &'static str = "Run a command in the project environment\n\nUsage: rpx run <COMMAND>...\n\nArguments:\n  <COMMAND>...  Command and arguments to run inside the project environment\n\nOptions:\n  -h, --help  Print help (see more with '--help')\n";

/// The help of `rpx run` at length.
pub const RUN_LONG_TEXT: &'static str = "Run a command with this project's isolated R package library activated.\n\nUsage: rpx run <COMMAND>...\n\nArguments:\n  <COMMAND>...\n          Command and arguments to run inside the project environment\n\nOptions:\n  -h, --help\n          Print help (see a summary with '-h')\n";

/// The help of `rpx lock` in short.
pub const LOCK_TEXT: &'static str = "Resolve project dependencies\n\nUsage: rpx lock\n\nOptions:\n  -h, --help  Print help (see more with '--help')\n";

/// The help of `rpx lock` at length.
pub const LOCK_LONG_TEXT: &'static str = "Resolve project dependencies from DESCRIPTION and write the resolved package set to rpx.lock without installing packages.\n\nUsage: rpx lock\n\nOptions:\n  -h, --help\n          Print help (see a summary with '-h')\n";

/// The help of `rpx status` in short.
pub const STATUS_TEXT: &'static str = "Check project dependency state\n\nUsage: rpx status\n\nOptions:\n  -h, --help  Print help (see more with '--help')\n";

/// The help of `rpx status` at length.
pub const STATUS_LONG_TEXT: &'static str = "Check whether DESCRIPTION, rpx.lock, and the project library are in sync.\n\nUsage: rpx status\n\nOptions:\n  -h, --help\n          Print help (see a summary with '-h')\n";

/// The help of `rpx sync` in short.
pub const SYNC_TEXT: &'static str = "Install the locked package set\n\nUsage: rpx sync [OPTIONS]\n\nOptions:\n      --install-system       Install missing system dependencies before syncing R packages\n      --install-only-system  Install only missing system dependencies and stop\n  -h, --help                 Print help (see more with '--help')\n";

/// The help of `rpx sync` at length.
pub const SYNC_LONG_TEXT: &'static str = "Install the exact package set recorded in rpx.lock into the project library.\n\nUsage: rpx sync [OPTIONS]\n\nOptions:\n      --install-system\n          Install missing system dependencies before syncing R packages\n\n      --install-only-system\n          Install only missing system dependencies and stop\n\n  -h, --help\n          Print help (see a summary with '-h')\n";

/// The help of `rpx clean` in short.
pub const CLEAN_TEXT: &'static str = "Remove project library and caches\n\nUsage: rpx clean\n\nOptions:\n  -h, --help  Print help (see more with '--help')\n";

/// The help of `rpx clean` at length.
pub const CLEAN_LONG_TEXT: &'static str = "Remove this project's isolated library and wipe rpx cache directories so the next sync or add starts from a clean local state.\n\nUsage: rpx clean\n\nOptions:\n  -h, --help\n          Print help (see a summary with '-h')\n";

/// The help of `rpx help`.
pub const HELP_TEXT: &'static str = "Print this message or the help of the given subcommand(s)\n\nUsage: rpx help [COMMAND]...\n\nArguments:\n  [COMMAND]...  Print help for the subcommand(s)\n";

/// The help of `rpx repo`.
pub const REPO_TEXT: &'static str = "Manage package repositories\n\nUsage: rpx repo <COMMAND>\n\nCommands:\n  add         Add an additional repository (shortcut)\n  remove      Remove an additional repository (shortcut)\n  list        List configured repositories\n  base        Manage the base repository\n  additional  Manage additional repositories\n  remote      Manage remote package repositories\n  help        Print this message or the help of the given subcommand(s)\n\nOptions:\n  -h, --help  Print help\n";

/// The help of `rpx repo add`.
pub const REPO_ADD_TEXT: &'static str = "Add an additional repository (shortcut)\n\nUsage: rpx repo add <URL>\n\nArguments:\n  <URL>  Repository base URL\n\nOptions:\n  -h, --help  Print help\n";

/// The help of `rpx repo remove`.
pub const REPO_REMOVE_TEXT: &'static str = "Remove an additional repository (shortcut)\n\nUsage: rpx repo remove [OPTIONS] <URL>\n\nArguments:\n  <URL>  Repository base URL\n\nOptions:\n      --remove-credential  Also remove any stored API key for this repository's origin\n  -h, --help               Print help\n";

/// The help of `rpx repo list`.
pub const REPO_LIST_TEXT: &'static str = "List configured repositories\n\nUsage: rpx repo list [OPTIONS]\n\nOptions:\n      --type <REPOSITORY_TYPE>  Show only one repository class [possible values: base, additional, remote]\n  -h, --help                    Print help\n";

/// The help of `rpx repo help`.
pub const REPO_HELP_TEXT: &'static str = "Print this message or the help of the given subcommand(s)\n\nUsage: rpx repo help [COMMAND]...\n\nArguments:\n  [COMMAND]...  Print help for the subcommand(s)\n";

/// The help of `rpx repo base`.
pub const REPO_BASE_TEXT: &'static str = "Manage the base repository\n\nUsage: rpx repo base <COMMAND>\n\nCommands:\n  set    Set the configured base repository\n  reset  Reset the configured base repository\n  help   Print this message or the help of the given subcommand(s)\n\nOptions:\n  -h, --help  Print help\n";

/// The help of `rpx repo base set`.
pub const REPO_BASE_SET_TEXT: &'static str = "Set the configured base repository\n\nUsage: rpx repo base set <URL>\n\nArguments:\n  <URL>  Repository base URL\n\nOptions:\n  -h, --help  Print help\n";

/// The help of `rpx repo base reset`.
pub const REPO_BASE_RESET_TEXT: &'static str = "Reset the configured base repository\n\nUsage: rpx repo base reset [OPTIONS]\n\nOptions:\n      --remove-credential  Also remove any stored API key for the configured repository's origin\n  -h, --help               Print help\n";

/// The help of `rpx repo base help`.
pub const REPO_BASE_HELP_TEXT: &'static str = "Print this message or the help of the given subcommand(s)\n\nUsage: rpx repo base help [COMMAND]...\n\nArguments:\n  [COMMAND]...  Print help for the subcommand(s)\n";

/// The help of `rpx repo additional`.
pub const REPO_ADDITIONAL_TEXT: &'static str = "Manage additional repositories\n\nUsage: rpx repo additional <COMMAND>\n\nCommands:\n  add     Add an additional repository\n  remove  Remove an additional repository\n  help    Print this message or the help of the given subcommand(s)\n\nOptions:\n  -h, --help  Print help\n";

/// The help of `rpx repo additional add`.
pub const REPO_ADDITIONAL_ADD_TEXT: &'static str = "Add an additional repository\n\nUsage: rpx repo additional add <URL>\n\nArguments:\n  <URL>  Repository base URL\n\nOptions:\n  -h, --help  Print help\n";

/// The help of `rpx repo additional remove`.
pub const REPO_ADDITIONAL_REMOVE_TEXT: &'static str = "Remove an additional repository\n\nUsage: rpx repo additional remove [OPTIONS] <URL>\n\nArguments:\n  <URL>  Repository base URL\n\nOptions:\n      --remove-credential  Also remove any stored API key for this repository's origin\n  -h, --help               Print help\n";

/// The help of `rpx repo additional help`.
pub const REPO_ADDITIONAL_HELP_TEXT: &'static str = "Print this message or the help of the given subcommand(s)\n\nUsage: rpx repo additional help [COMMAND]...\n\nArguments:\n  [COMMAND]...  Print help for the subcommand(s)\n";

/// The help of `rpx repo remote`.
pub const REPO_REMOTE_TEXT: &'static str = "Manage remote package repositories\n\nUsage: rpx repo remote <COMMAND>\n\nCommands:\n  add     Add a remote package repository\n  remove  Remove a remote package repository\n  help    Print this message or the help of the given subcommand(s)\n\nOptions:\n  -h, --help  Print help\n";

/// The help of `rpx repo remote add`.
pub const REPO_REMOTE_ADD_TEXT: &'static str = "Add a remote package repository\n\nUsage: rpx repo remote add <REMOTE>\n\nArguments:\n  <REMOTE>  Remote repository specification\n\nOptions:\n  -h, --help  Print help\n";

/// The help of `rpx repo remote remove`.
pub const REPO_REMOTE_REMOVE_TEXT: &'static str = "Remove a remote package repository\n\nUsage: rpx repo remote remove <REMOTE>\n\nArguments:\n  <REMOTE>  Remote repository specification\n\nOptions:\n  -h, --help  Print help\n";

/// The help of `rpx repo remote help`.
pub const REPO_REMOTE_HELP_TEXT: &'static str = "Print this message or the help of the given subcommand(s)\n\nUsage: rpx repo remote help [COMMAND]...\n\nArguments:\n  [COMMAND]...  Print help for the subcommand(s)\n";

impl HelpTopic {
    /// The help of the topic, at length or in short where the two differ.
    pub fn text(self, at_length: bool) -> (r: &'static str)
        ensures
            r@ == match (self, at_length) {
                (HelpTopic::Rpx, _) => RPX_TEXT@,
                (HelpTopic::Init, false) => INIT_TEXT@,
                (HelpTopic::Init, true) => INIT_LONG_TEXT@,
                (HelpTopic::Add, false) => ADD_TEXT@,
                (HelpTopic::Add, true) => ADD_LONG_TEXT@,
                (HelpTopic::Remove, false) => REMOVE_TEXT@,
                (HelpTopic::Remove, true) => REMOVE_LONG_TEXT@,
                (HelpTopic::Run, false) => RUN_TEXT@,
                (HelpTopic::Run, true) => RUN_LONG_TEXT@,
                (HelpTopic::Lock, false) => LOCK_TEXT@,
                (HelpTopic::Lock, true) => LOCK_LONG_TEXT@,
                (HelpTopic::Status, false) => STATUS_TEXT@,
                (HelpTopic::Status, true) => STATUS_LONG_TEXT@,
                (HelpTopic::Sync, false) => SYNC_TEXT@,
                (HelpTopic::Sync, true) => SYNC_LONG_TEXT@,
                (HelpTopic::Clean, false) => CLEAN_TEXT@,
                (HelpTopic::Clean, true) => CLEAN_LONG_TEXT@,
                (HelpTopic::Help, _) => HELP_TEXT@,
                (HelpTopic::Repo, _) => REPO_TEXT@,
                (HelpTopic::RepoAdd, _) => REPO_ADD_TEXT@,
                (HelpTopic::RepoRemove, _) => REPO_REMOVE_TEXT@,
                (HelpTopic::RepoList, _) => REPO_LIST_TEXT@,
                (HelpTopic::RepoHelp, _) => REPO_HELP_TEXT@,
                (HelpTopic::RepoBase, _) => REPO_BASE_TEXT@,
                (HelpTopic::RepoBaseSet, _) => REPO_BASE_SET_TEXT@,
                (HelpTopic::RepoBaseReset, _) => REPO_BASE_RESET_TEXT@,
                (HelpTopic::RepoBaseHelp, _) => REPO_BASE_HELP_TEXT@,
                (HelpTopic::RepoAdditional, _) => REPO_ADDITIONAL_TEXT@,
                (HelpTopic::RepoAdditionalAdd, _) => REPO_ADDITIONAL_ADD_TEXT@,
                (HelpTopic::RepoAdditionalRemove, _) => REPO_ADDITIONAL_REMOVE_TEXT@,
                (HelpTopic::RepoAdditionalHelp, _) => REPO_ADDITIONAL_HELP_TEXT@,
                (HelpTopic::RepoRemote, _) => REPO_REMOTE_TEXT@,
                (HelpTopic::RepoRemoteAdd, _) => REPO_REMOTE_ADD_TEXT@,
                (HelpTopic::RepoRemoteRemove, _) => REPO_REMOTE_REMOVE_TEXT@,
                (HelpTopic::RepoRemoteHelp, _) => REPO_REMOTE_HELP_TEXT@,
            },
    {
        match (self, at_length) {
            (HelpTopic::Rpx, _) => RPX_TEXT,
            (HelpTopic::Init, false) => INIT_TEXT,
            (HelpTopic::Init, true) => INIT_LONG_TEXT,
            (HelpTopic::Add, false) => ADD_TEXT,
            (HelpTopic::Add, true) => ADD_LONG_TEXT,
            (HelpTopic::Remove, false) => REMOVE_TEXT,
            (HelpTopic::Remove, true) => REMOVE_LONG_TEXT,
            (HelpTopic::Run, false) => RUN_TEXT,
            (HelpTopic::Run, true) => RUN_LONG_TEXT,
            (HelpTopic::Lock, false) => LOCK_TEXT,
            (HelpTopic::Lock, true) => LOCK_LONG_TEXT,
            (HelpTopic::Status, false) => STATUS_TEXT,
            (HelpTopic::Status, true) => STATUS_LONG_TEXT,
            (HelpTopic::Sync, false) => SYNC_TEXT,
            (HelpTopic::Sync, true) => SYNC_LONG_TEXT,
            (HelpTopic::Clean, false) => CLEAN_TEXT,
            (HelpTopic::Clean, true) => CLEAN_LONG_TEXT,
            (HelpTopic::Help, _) => HELP_TEXT,
            (HelpTopic::Repo, _) => REPO_TEXT,
            (HelpTopic::RepoAdd, _) => REPO_ADD_TEXT,
            (HelpTopic::RepoRemove, _) => REPO_REMOVE_TEXT,
            (HelpTopic::RepoList, _) => REPO_LIST_TEXT,
            (HelpTopic::RepoHelp, _) => REPO_HELP_TEXT,
            (HelpTopic::RepoBase, _) => REPO_BASE_TEXT,
            (HelpTopic::RepoBaseSet, _) => REPO_BASE_SET_TEXT,
            (HelpTopic::RepoBaseReset, _) => REPO_BASE_RESET_TEXT,
            (HelpTopic::RepoBaseHelp, _) => REPO_BASE_HELP_TEXT,
            (HelpTopic::RepoAdditional, _) => REPO_ADDITIONAL_TEXT,
            (HelpTopic::RepoAdditionalAdd, _) => REPO_ADDITIONAL_ADD_TEXT,
            (HelpTopic::RepoAdditionalRemove, _) => REPO_ADDITIONAL_REMOVE_TEXT,
            (HelpTopic::RepoAdditionalHelp, _) => REPO_ADDITIONAL_HELP_TEXT,
            (HelpTopic::RepoRemote, _) => REPO_REMOTE_TEXT,
            (HelpTopic::RepoRemoteAdd, _) => REPO_REMOTE_ADD_TEXT,
            (HelpTopic::RepoRemoteRemove, _) => REPO_REMOTE_REMOVE_TEXT,
            (HelpTopic::RepoRemoteHelp, _) => REPO_REMOTE_HELP_TEXT,
        }
    }
}

proof fn lemma_rest_is_free(
    args: Seq<Seq<char>>,
    i: int,
    plain: bool,
    grammar: GrammarV,
    given: GivenV,
)
    requires
        0 <= i <= args.len(),
        plain || forall|k: int| i <= k < args.len() ==> !is_hyphened(#[trigger] args[k]),
        grammar.places matches Some(places) ==> given.free.len() + args.len() - i <= places,
    ensures
        read_from(args, i, plain, grammar, given) == Ok::<GivenV, CliFaultV>(
            GivenV { free: given.free + args.skip(i), ..given },
        ),
    decreases args.len() - i,
{
    if i < args.len() {
        let more = GivenV { free: given.free.push(args[i]), ..given };
        lemma_rest_is_free(args, i + 1, plain, grammar, more);
        assert(given.free.push(args[i]) + args.skip(i + 1) =~= given.free + args.skip(i));
    } else {
        assert(given.free + args.skip(i) =~= given.free);
    }
}

/// Arguments without a hyphen are taken as they stand, in order, as far as there is a place
/// for them; so is everything behind two hyphens.
pub proof fn plain_arguments_are_kept(args: Seq<Seq<char>>, grammar: GrammarV)
    requires
        grammar.places matches Some(places) ==> args.len() <= places,
    ensures
        (forall|k: int| 0 <= k < args.len() ==> !is_hyphened(#[trigger] args[k])) ==> arguments_of(
            args,
            0,
            grammar,
        ) == Ok::<GivenV, CliFaultV>(GivenV { free: args, ..nothing_given(grammar) }),
        arguments_of(seq!["--"@] + args, 0, grammar) == Ok::<GivenV, CliFaultV>(
            GivenV { free: args, ..nothing_given(grammar) },
        ),
{
    let none = nothing_given(grammar);
    assert(none.free + args.skip(0) =~= args);
    if forall|k: int| 0 <= k < args.len() ==> !is_hyphened(#[trigger] args[k]) {
        lemma_rest_is_free(args, 0, false, grammar, none);
    }
    let all = seq!["--"@] + args;
    reveal_strlit("--");
    assert(all[0] == "--"@);
    assert("--"@[0] == '-');
    lemma_rest_is_free(all, 1, true, grammar, none);
    assert(none.free + all.skip(1) =~= args);
}

/// Where there is no place for an argument, it is told.
pub proof fn arguments_without_a_place_are_refused(argument: Seq<char>, topic: HelpTopic)
    requires
        !is_hyphened(argument),
    ensures
        arguments_of(seq![argument], 0, bare_grammar(topic, Some(0))) == Err::<GivenV, CliFaultV>(
            CliFaultV::UnexpectedArgument(argument),
        ),
{
    let args = seq![argument];
    assert(args[0] == argument);
}

proof fn lemma_read_later(
    args: Seq<Seq<char>>,
    n: int,
    i: int,
    plain: bool,
    grammar: GrammarV,
    given: GivenV,
)
    requires
        0 <= n <= i <= args.len(),
    ensures
        read_from(args, i, plain, grammar, given) == read_from(
            args.skip(n),
            i - n,
            plain,
            grammar,
            given,
        ),
    decreases args.len() - i,
{
    let rest = args.skip(n);
    if i < args.len() {
        assert(rest[i - n] == args[i]);
        if plain || !is_hyphened(args[i]) {
            lemma_read_later(
                args,
                n,
                i + 1,
                plain,
                grammar,
                GivenV { free: given.free.push(args[i]), ..given },
            );
        } else if args[i] == "--"@ {
            lemma_read_later(args, n, i + 1, true, grammar, given);
        } else if has_prefix(args[i], "--"@) {
            let (name, value) = match cut_at(args[i].skip(2), '=') {
                None => (args[i].skip(2), None::<Seq<char>>),
                Some((name, value)) => (name, Some(value)),
            };
            if let Some(k) = option_at(grammar.options, name) {
                match value {
                    Some(value) => {
                        lemma_read_later(
                            args,
                            n,
                            i + 1,
                            plain,
                            grammar,
                            GivenV { values: given.values.update(k, Some(value)), ..given },
                        );
                    },
                    None => {
                        if i + 1 < args.len() {
                            assert(rest[i + 1 - n] == args[i + 1]);
                            if !is_hyphened(args[i + 1]) {
                                lemma_read_later(
                                    args,
                                    n,
                                    i + 2,
                                    plain,
                                    grammar,
                                    GivenV {
                                        values: given.values.update(k, Some(args[i + 1])),
                                        ..given
                                    },
                                );
                            }
                        }
                    },
                }
            } else if let Some(k) = slot_of(grammar.flags, name) {
                lemma_read_later(
                    args,
                    n,
                    i + 1,
                    plain,
                    grammar,
                    GivenV { set: given.set.update(k, true), ..given },
                );
            }
        }
    }
}

/// An option with a value is given in two arguments or in one with an equality sign; either
/// way the same is given.
pub proof fn options_are_given_in_either_way(
    name: Seq<char>,
    value: Seq<char>,
    after: Seq<Seq<char>>,
    grammar: GrammarV,
    k: int,
)
    requires
        !name.contains('='),
        name.len() > 0,
        name != "help"@,
        option_at(grammar.options, name) == Some(k),
        0 <= k < grammar.options.len(),
        !is_hyphened(value),
    ensures
        arguments_of(seq!["--"@ + name, value] + after, 0, grammar) == arguments_of(
            seq!["--"@ + name + "="@ + value] + after,
            0,
            grammar,
        ),
        after.len() == 0 ==> arguments_of(seq!["--"@ + name, value] + after, 0, grammar) == Ok::<
            GivenV,
            CliFaultV,
        >(
            GivenV {
                values: nothing_given(grammar).values.update(k, Some(value)),
                ..nothing_given(grammar)
            },
        ),
{
    reveal_strlit("--");
    reveal_strlit("=");
    reveal_strlit("-h");
    reveal_strlit("--help");
    reveal_strlit("help");
    let two = seq!["--"@ + name, value] + after;
    let one = seq!["--"@ + name + "="@ + value] + after;
    let none = nothing_given(grammar);
    let more = GivenV { values: none.values.update(k, Some(value)), ..none };
    let a = "--"@ + name;
    let b = "--"@ + name + "="@ + value;
    assert(two[0] == a && two[1] == value && one[0] == b);
    assert(a.take(2) =~= "--"@ && b.take(2) =~= "--"@);
    assert(a.skip(2) =~= name);
    assert(b.skip(2) =~= name + seq!['='] + value);
    crate::text::texts_are_cut_at_the_first_occurrence(name, '=', value);
    assert(a[0] == '-' && b[0] == '-' && a[1] == '-' && b[1] == '-');
    assert("-h"@[1] == 'h');
    assert(a != "--help"@) by {
        if a == "--help"@ {
            assert("--help"@.skip(2) =~= "help"@);
        }
    }
    assert(b != "--help"@) by {
        if b == "--help"@ {
            assert(b[(2 + name.len()) as int] == '=');
            let i = (2 + name.len()) as int;
            assert("--help"@[i] == '=');
        }
    }
    lemma_read_later(two, 2, 2, false, grammar, more);
    lemma_read_later(one, 1, 1, false, grammar, more);
    assert(two.skip(2) =~= after);
    assert(one.skip(1) =~= after);
}

proof fn lemma_commands()
    ensures
        topic_named("init"@) == Some(HelpTopic::Init),
        topic_named("add"@) == Some(HelpTopic::Add),
        topic_named("remove"@) == Some(HelpTopic::Remove),
        topic_named("lock"@) == Some(HelpTopic::Lock),
        topic_named("status"@) == Some(HelpTopic::Status),
        topic_named("sync"@) == Some(HelpTopic::Sync),
        topic_named("clean"@) == Some(HelpTopic::Clean),
        topic_named("repo"@) == Some(HelpTopic::Repo),
        forall|name: Seq<char>| (#[trigger] topic_named(name)) is Some ==> is_command(name),
        topic_named("help"@) is None,
{
    reveal_strlit("init");
    reveal_strlit("add");
    reveal_strlit("remove");
    reveal_strlit("run");
    reveal_strlit("lock");
    reveal_strlit("status");
    reveal_strlit("sync");
    reveal_strlit("clean");
    reveal_strlit("repo");
    reveal_strlit("help");
    reveal_strlit("--version");
    reveal_strlit("-V");
    reveal_strlit("--help");
    reveal_strlit("-h");
    assert("init"@.len() == 4 && "init"@[0] == 'i');
    assert("add"@.len() == 3 && "add"@[0] == 'a');
    assert("remove"@.len() == 6 && "remove"@[0] == 'r');
    assert("run"@.len() == 3 && "run"@[0] == 'r');
    assert("lock"@.len() == 4 && "lock"@[0] == 'l');
    assert("status"@.len() == 6 && "status"@[0] == 's');
    assert("sync"@.len() == 4 && "sync"@[0] == 's');
    assert("clean"@.len() == 5);
    assert("repo"@.len() == 4 && "repo"@[0] == 'r');
    assert("help"@.len() == 4 && "help"@[0] == 'h');
    assert("--version"@[0] == '-' && "-V"@[0] == '-' && "--help"@[0] == '-' && "-h"@[0] == '-');
}

/// The argument is no option and does not ask for help.
pub open spec fn is_command(name: Seq<char>) -> bool {
    !is_hyphened(name) && name != "--version"@ && name != "-V"@ && name != "--help"@ && name
        != "-h"@ && name != "help"@
}

/// Packages are added and removed as they are written. Without an option they go to no
/// selected field.
pub proof fn packages_are_taken_as_written(program: Seq<char>, packages: Seq<Seq<char>>)
    requires
        packages.len() > 0,
        forall|k: int| 0 <= k < packages.len() ==> !is_hyphened(#[trigger] packages[k]),
    ensures
        command_of(seq![program, "add"@] + packages) matches Ok(CommandV::Add(fields, taken))
            && taken == packages && !fields.depends && !fields.imports && !fields.linking_to
            && !fields.suggests,
        command_of(seq![program, "remove"@] + packages) == Ok::<CommandV, CliFaultV>(
            CommandV::Remove(packages),
        ),
{
    lemma_commands();
    let added = seq![program, "add"@] + packages;
    let removed = seq![program, "remove"@] + packages;
    assert(added[1] == "add"@ && removed[1] == "remove"@);
    assert forall|k: int| 2 <= k < added.len() implies !is_hyphened(#[trigger] added[k]) by {
        assert(added[k] == packages[k - 2]);
    }
    assert forall|k: int| 2 <= k < removed.len() implies !is_hyphened(#[trigger] removed[k]) by {
        assert(removed[k] == packages[k - 2]);
    }
    let a = nothing_given(add_grammar());
    let b = nothing_given(bare_grammar(HelpTopic::Remove, None));
    lemma_rest_is_free(added, 2, false, add_grammar(), a);
    lemma_rest_is_free(removed, 2, false, bare_grammar(HelpTopic::Remove, None), b);
    assert(a.free + added.skip(2) =~= packages);
    assert(b.free + removed.skip(2) =~= packages);
    assert(is_command("add"@) && is_command("remove"@));
}

proof fn lemma_fields()
    ensures
        slot_of(add_grammar().flags, "depends"@) == Some(0int),
        slot_of(add_grammar().flags, "imports"@) == Some(1int),
        slot_of(add_grammar().flags, "linking-to"@) == Some(2int),
        slot_of(add_grammar().flags, "suggests"@) == Some(3int),
        slot_of(add_grammar().flags, "dev"@) == Some(3int),
{
    reveal_strlit("depends");
    reveal_strlit("imports");
    reveal_strlit("linking-to");
    reveal_strlit("suggests");
    reveal_strlit("dev");
    assert("depends"@.len() == 7 && "depends"@[0] == 'd');
    assert("imports"@.len() == 7 && "imports"@[0] == 'i');
    assert("linking-to"@.len() == 10 && "suggests"@.len() == 8 && "dev"@.len() == 3);
    let flags = add_grammar().flags;
    let f4 = flags.drop_last();
    let f3 = f4.drop_last();
    let f2 = f3.drop_last();
    let f1 = f2.drop_last();
    assert(f1.drop_last().len() == 0);
    assert(f1.last() == ("depends"@, 0int) && f2.last() == ("imports"@, 1int));
    assert(f3.last() == ("linking-to"@, 2int) && f4.last() == ("suggests"@, 3int));
    assert(flags.last() == ("dev"@, 3int));
    reveal_with_fuel(slot_of, 6);
}

/// An option before the packages selects the field of its name; `--dev` is another name of
/// `--suggests`.
pub proof fn options_select_the_field(
    program: Seq<char>,
    option: Seq<char>,
    packages: Seq<Seq<char>>,
)
    requires
        option == "depends"@ || option == "imports"@ || option == "linking-to"@ || option
            == "suggests"@ || option == "dev"@,
        packages.len() > 0,
        forall|k: int| 0 <= k < packages.len() ==> !is_hyphened(#[trigger] packages[k]),
    ensures
        command_of(seq![program, "add"@, "--"@ + option] + packages) matches Ok(
            CommandV::Add(fields, taken),
        ) && taken == packages && (fields.depends <==> option == "depends"@) && (fields.imports
            <==> option == "imports"@) && (fields.linking_to <==> option == "linking-to"@) && (
        fields.suggests <==> option == "suggests"@ || option == "dev"@),
{
    lemma_commands();
    lemma_fields();
    reveal_strlit("--");
    reveal_strlit("depends");
    reveal_strlit("imports");
    reveal_strlit("linking-to");
    reveal_strlit("suggests");
    reveal_strlit("dev");
    reveal_strlit("-h");
    reveal_strlit("--help");
    reveal_strlit("help");
    let grammar = add_grammar();
    let args = seq![program, "add"@, "--"@ + option] + packages;
    let flag = "--"@ + option;
    assert(args[1] == "add"@ && args[2] == flag);
    assert(is_command("add"@));
    assert(flag[0] == '-' && flag[1] == '-');
    assert(flag.take(2) =~= "--"@ && flag.skip(2) =~= option);
    assert("-h"@.len() == 2 && "--help"@.len() == 6 && flag.len() == option.len() + 2);
    assert(option.len() != 4);
    assert forall|i: int| 0 <= i < option.len() implies option[i] != '=' by {}
    crate::text::lemma_not_at(option, '=');
    let none = nothing_given(grammar);
    let k = slot_of(grammar.flags, option)->0;
    let more = GivenV { set: none.set.update(k, true), ..none };
    assert forall|j: int| 3 <= j < args.len() implies !is_hyphened(#[trigger] args[j]) by {
        assert(args[j] == packages[j - 3]);
    }
    lemma_rest_is_free(args, 3, false, grammar, more);
    assert(more.free + args.skip(3) =~= packages);
    assert(option_at(grammar.options, option) is None);
    assert("depends"@[0] == 'd' && "imports"@[0] == 'i');
    assert("depends"@.len() == 7 && "imports"@.len() == 7 && "linking-to"@.len() == 10);
    assert("suggests"@.len() == 8 && "dev"@.len() == 3);
}

/// Packages go to the field that was selected, and to `Imports` where none was.
pub proof fn packages_go_to_the_selected_field(args: AddDependencyTypeArgs)
    requires
        count_set(args.depends, args.imports, args.linking_to, args.suggests) <= 1,
    ensures
        selected_field(args) == DependencyField::Depends <==> args.depends,
        selected_field(args) == DependencyField::LinkingTo <==> args.linking_to,
        selected_field(args) == DependencyField::Suggests <==> args.suggests,
        selected_field(args) == DependencyField::Imports <==> !args.depends && !args.linking_to
            && !args.suggests,
{
}

/// Commands without arguments are taken by their name, a name that is no command is told, and
/// so is that there is none.
pub proof fn commands_are_taken_by_name(program: Seq<char>, name: Seq<char>)
    ensures
        command_of(seq![program, "lock"@]) == Ok::<CommandV, CliFaultV>(CommandV::Lock),
        command_of(seq![program, "status"@]) == Ok::<CommandV, CliFaultV>(CommandV::Status),
        command_of(seq![program, "clean"@]) == Ok::<CommandV, CliFaultV>(CommandV::Clean),
        command_of(seq![program, "sync"@]) == Ok::<CommandV, CliFaultV>(
            CommandV::Sync(false, false),
        ),
        command_of(seq![program]) == Err::<CommandV, CliFaultV>(
            CliFaultV::MissingCommand(HelpTopic::Rpx),
        ),
        is_command(name) && topic_named(name) is None ==> command_of(seq![program, name]) == Err::<
            CommandV,
            CliFaultV,
        >(CliFaultV::UnknownCommand(name)),
{
    lemma_commands();
    assert(seq![program, "lock"@][1] == "lock"@);
    assert(seq![program, "status"@][1] == "status"@);
    assert(seq![program, "clean"@][1] == "clean"@);
    assert(seq![program, "sync"@][1] == "sync"@);
    assert(seq![program, name][1] == name);
    assert(is_command("lock"@) && is_command("status"@) && is_command("clean"@) && is_command(
        "sync"@,
    ));
}

proof fn lemma_repo_words()
    ensures
        is_command("add"@) && is_command("remove"@) && is_command("list"@),
        is_command("base"@) && is_command("additional"@) && is_command("remote"@),
        is_command("set"@) && is_command("reset"@),
        "add"@ != "remove"@ && "add"@ != "list"@ && "add"@ != "base"@,
        "add"@ != "additional"@ && "add"@ != "remote"@,
        "remove"@ != "list"@ && "remove"@ != "base"@ && "remove"@ != "additional"@,
        "remove"@ != "remote"@ && "list"@ != "base"@ && "list"@ != "additional"@,
        "list"@ != "remote"@ && "base"@ != "additional"@ && "base"@ != "remote"@,
        "additional"@ != "remote"@ && "set"@ != "reset"@,
{
    reveal_strlit("add");
    reveal_strlit("remove");
    reveal_strlit("list");
    reveal_strlit("base");
    reveal_strlit("additional");
    reveal_strlit("remote");
    reveal_strlit("set");
    reveal_strlit("reset");
    reveal_strlit("help");
    reveal_strlit("--version");
    reveal_strlit("-V");
    reveal_strlit("--help");
    reveal_strlit("-h");
    assert("add"@.len() == 3 && "remove"@.len() == 6 && "list"@.len() == 4 && "base"@.len() == 4);
    assert("additional"@.len() == 10 && "remote"@.len() == 6 && "set"@.len() == 3);
    assert("reset"@.len() == 5 && "help"@.len() == 4);
    assert("list"@[0] == 'l' && "base"@[0] == 'b' && "help"@[0] == 'h');
    assert("remove"@[4] == 'v' && "remote"@[4] == 't');
    assert("--version"@[0] == '-' && "-V"@[0] == '-' && "--help"@[0] == '-' && "-h"@[0] == '-');
    assert("add"@[0] == 'a' && "remove"@[0] == 'r' && "additional"@[0] == 'a');
    assert("remote"@[0] == 'r' && "set"@[0] == 's' && "reset"@[0] == 'r');
}

proof fn lemma_one_argument(args: Seq<Seq<char>>, from: int, topic: HelpTopic, name: Seq<char>)
    requires
        0 <= from,
        args.len() == from + 1,
        !is_hyphened(args[from]),
    ensures
        one_argument(args, from, topic, name) == Ok::<Seq<char>, CliFaultV>(args[from]),
        removed_url(args, from, topic) == Ok::<(Seq<char>, bool), CliFaultV>((args[from], false)),
{
    let g = bare_grammar(topic, Some(1));
    let h = removal_grammar(topic, 1);
    lemma_rest_is_free(args, from, false, g, nothing_given(g));
    lemma_rest_is_free(args, from, false, h, nothing_given(h));
    assert(nothing_given(g).free + args.skip(from) =~= seq![args[from]]);
    assert(nothing_given(h).free + args.skip(from) =~= seq![args[from]]);
}

/// Repositories are added, removed and set at the address that is written, each by its own
/// command.
pub proof fn repositories_are_taken_as_written(program: Seq<char>, url: Seq<char>)
    requires
        !is_hyphened(url),
    ensures
        command_of(seq![program, "repo"@, "add"@, url]) == Ok::<CommandV, CliFaultV>(
            CommandV::Repo(RepoV::Add(url)),
        ),
        command_of(seq![program, "repo"@, "remove"@, url]) == Ok::<CommandV, CliFaultV>(
            CommandV::Repo(RepoV::Remove(url, false)),
        ),
        command_of(seq![program, "repo"@, "list"@]) == Ok::<CommandV, CliFaultV>(
            CommandV::Repo(RepoV::List(None)),
        ),
        command_of(seq![program, "repo"@, "base"@, "set"@, url]) == Ok::<CommandV, CliFaultV>(
            CommandV::Repo(RepoV::BaseSet(url)),
        ),
        command_of(seq![program, "repo"@, "base"@, "reset"@]) == Ok::<CommandV, CliFaultV>(
            CommandV::Repo(RepoV::BaseReset(false)),
        ),
        command_of(seq![program, "repo"@, "additional"@, "add"@, url]) == Ok::<
            CommandV,
            CliFaultV,
        >(CommandV::Repo(RepoV::AdditionalAdd(url))),
        command_of(seq![program, "repo"@, "additional"@, "remove"@, url]) == Ok::<
            CommandV,
            CliFaultV,
        >(CommandV::Repo(RepoV::AdditionalRemove(url, false))),
        command_of(seq![program, "repo"@, "remote"@, "add"@, url]) == Ok::<CommandV, CliFaultV>(
            CommandV::Repo(RepoV::RemoteAdd(url)),
        ),
        command_of(seq![program, "repo"@, "remote"@, "remove"@, url]) == Ok::<CommandV, CliFaultV>(
            CommandV::Repo(RepoV::RemoteRemove(url)),
        ),
{
    lemma_commands();
    lemma_repo_words();
    assert(is_command("repo"@));
    let a = seq![program, "repo"@, "add"@, url];
    assert(a[1] == "repo"@ && a[2] == "add"@ && a[3] == url);
    lemma_one_argument(a, 3, HelpTopic::RepoAdd, "URL"@);
    let b = seq![program, "repo"@, "remove"@, url];
    assert(b[1] == "repo"@ && b[2] == "remove"@ && b[3] == url);
    lemma_one_argument(b, 3, HelpTopic::RepoRemove, "URL"@);
    let c = seq![program, "repo"@, "list"@];
    assert(c[1] == "repo"@ && c[2] == "list"@);
    let d = seq![program, "repo"@, "base"@, "set"@, url];
    assert(d[1] == "repo"@ && d[2] == "base"@ && d[3] == "set"@ && d[4] == url);
    lemma_one_argument(d, 4, HelpTopic::RepoBaseSet, "URL"@);
    let e = seq![program, "repo"@, "base"@, "reset"@];
    assert(e[1] == "repo"@ && e[2] == "base"@ && e[3] == "reset"@);
    let f = seq![program, "repo"@, "additional"@, "add"@, url];
    assert(f[1] == "repo"@ && f[2] == "additional"@ && f[3] == "add"@ && f[4] == url);
    lemma_one_argument(f, 4, HelpTopic::RepoAdditionalAdd, "URL"@);
    let g = seq![program, "repo"@, "additional"@, "remove"@, url];
    assert(g[1] == "repo"@ && g[2] == "additional"@ && g[3] == "remove"@ && g[4] == url);
    lemma_one_argument(g, 4, HelpTopic::RepoAdditionalRemove, "URL"@);
    let h = seq![program, "repo"@, "remote"@, "add"@, url];
    assert(h[1] == "repo"@ && h[2] == "remote"@ && h[3] == "add"@ && h[4] == url);
    lemma_one_argument(h, 4, HelpTopic::RepoRemoteAdd, "REMOTE"@);
    let i = seq![program, "repo"@, "remote"@, "remove"@, url];
    assert(i[1] == "repo"@ && i[2] == "remote"@ && i[3] == "remove"@ && i[4] == url);
    lemma_one_argument(i, 4, HelpTopic::RepoRemoteRemove, "REMOTE"@);
}

/// Each license and each kind of repository has one name.
pub proof fn licenses_and_kinds_have_one_name(a: Seq<char>, b: Seq<char>)
    ensures
        license_named(a) is Some && license_named(a) == license_named(b) ==> a == b,
        type_named(a) is Some && type_named(a) == type_named(b) ==> a == b,
{
}

/// The project that is asked for has the path and the options that are given for it, each
/// option in its own place.
pub proof fn projects_are_asked_for_as_written(program: Seq<char>, value: Seq<char>)
    requires
        !is_hyphened(value),
    ensures
        command_of(seq![program, "init"@, value]) matches Ok(CommandV::Init(asked)) && asked.path
            == Some(value) && asked.name is None && asked.title is None && asked.license is None,
        command_of(seq![program, "init"@, "--name"@, value]) matches Ok(CommandV::Init(asked))
            && asked.name == Some(value) && asked.path is None && asked.title is None,
        command_of(seq![program, "init"@, "--title"@, value]) matches Ok(CommandV::Init(asked))
            && asked.title == Some(value) && asked.name is None && asked.description is None,
        command_of(seq![program, "init"@, "--description"@, value]) matches Ok(
            CommandV::Init(asked),
        ) && asked.description == Some(value) && asked.title is None && asked.author_name is None,
        command_of(seq![program, "init"@, "--author-name"@, value]) matches Ok(
            CommandV::Init(asked),
        ) && asked.author_name == Some(value) && asked.author_email is None,
        command_of(seq![program, "init"@, "--author-email"@, value]) matches Ok(
            CommandV::Init(asked),
        ) && asked.author_email == Some(value) && asked.author_name is None,
        license_named(value) is Some ==> (command_of(
            seq![program, "init"@, "--license"@, value],
        ) matches Ok(CommandV::Init(asked)) && asked.license == license_named(value)),
        license_named(value) is None ==> command_of(seq![program, "init"@, "--license"@, value])
            == Err::<CommandV, CliFaultV>(CliFaultV::InvalidValue("license"@, value)),
{
    lemma_commands();
    assert(is_command("init"@));
    let grammar = init_grammar();
    let path = seq![program, "init"@, value];
    assert(path[1] == "init"@ && path[2] == value);
    lemma_rest_is_free(path, 2, false, grammar, nothing_given(grammar));
    assert(nothing_given(grammar).free + path.skip(2) =~= seq![value]);
    lemma_options();
    lemma_given_option(program, "name"@, "--name"@, value, 0);
    lemma_given_option(program, "title"@, "--title"@, value, 1);
    lemma_given_option(program, "description"@, "--description"@, value, 2);
    lemma_given_option(program, "author-name"@, "--author-name"@, value, 3);
    lemma_given_option(program, "author-email"@, "--author-email"@, value, 4);
    lemma_given_option(program, "license"@, "--license"@, value, 5);
}

proof fn lemma_options()
    ensures
        option_at(init_grammar().options, "name"@) == Some(0int),
        option_at(init_grammar().options, "title"@) == Some(1int),
        option_at(init_grammar().options, "description"@) == Some(2int),
        option_at(init_grammar().options, "author-name"@) == Some(3int),
        option_at(init_grammar().options, "author-email"@) == Some(4int),
        option_at(init_grammar().options, "license"@) == Some(5int),
        "--name"@ == "--"@ + "name"@,
        "--title"@ == "--"@ + "title"@,
        "--description"@ == "--"@ + "description"@,
        "--author-name"@ == "--"@ + "author-name"@,
        "--author-email"@ == "--"@ + "author-email"@,
        "--license"@ == "--"@ + "license"@,
        "name"@ != "help"@ && "name"@.len() > 0 && !"name"@.contains('='),
        "title"@ != "help"@ && "title"@.len() > 0 && !"title"@.contains('='),
        "description"@ != "help"@ && "description"@.len() > 0 && !"description"@.contains('='),
        "author-name"@ != "help"@ && "author-name"@.len() > 0 && !"author-name"@.contains('='),
        "author-email"@ != "help"@ && "author-email"@.len() > 0 && !"author-email"@.contains('='),
        "license"@ != "help"@ && "license"@.len() > 0 && !"license"@.contains('='),
{
    reveal_strlit("name");
    reveal_strlit("title");
    reveal_strlit("description");
    reveal_strlit("author-name");
    reveal_strlit("author-email");
    reveal_strlit("license");
    reveal_strlit("help");
    reveal_strlit("--");
    reveal_strlit("--name");
    reveal_strlit("--title");
    reveal_strlit("--description");
    reveal_strlit("--author-name");
    reveal_strlit("--author-email");
    reveal_strlit("--license");
    assert("--name"@ =~= "--"@ + "name"@);
    assert("--title"@ =~= "--"@ + "title"@);
    assert("--description"@ =~= "--"@ + "description"@);
    assert("--author-name"@ =~= "--"@ + "author-name"@);
    assert("--author-email"@ =~= "--"@ + "author-email"@);
    assert("--license"@ =~= "--"@ + "license"@);
    assert("name"@.len() == 4 && "title"@.len() == 5 && "description"@.len() == 11);
    assert("author-name"@.len() == 11 && "author-email"@.len() == 12 && "license"@.len() == 7);
    assert("description"@[0] == 'd' && "author-name"@[0] == 'a');
    assert("name"@[0] == 'n' && "help"@[0] == 'h' && "help"@.len() == 4);
    let o6 = init_grammar().options;
    let o5 = o6.drop_last();
    let o4 = o5.drop_last();
    let o3 = o4.drop_last();
    let o2 = o3.drop_last();
    let o1 = o2.drop_last();
    assert(o1.drop_last().len() == 0);
    assert(o1.last() == "name"@ && o2.last() == "title"@ && o3.last() == "description"@);
    assert(o4.last() == "author-name"@ && o5.last() == "author-email"@ && o6.last() == "license"@);
    reveal_with_fuel(option_at, 7);
}

proof fn lemma_given_option(
    program: Seq<char>,
    name: Seq<char>,
    option: Seq<char>,
    value: Seq<char>,
    k: int,
)
    requires
        option == "--"@ + name,
        !name.contains('='),
        name.len() > 0,
        name != "help"@,
        option_at(init_grammar().options, name) == Some(k),
        0 <= k < 6,
        !is_hyphened(value),
    ensures
        arguments_of(seq![program, "init"@, option, value], 2, init_grammar()) == Ok::<
            GivenV,
            CliFaultV,
        >(
            GivenV {
                values: nothing_given(init_grammar()).values.update(k, Some(value)),
                ..nothing_given(init_grammar())
            },
        ),
        seq![program, "init"@, option, value][1] == "init"@,
{
    let args = seq![program, "init"@, option, value];
    let none = Seq::<Seq<char>>::empty();
    options_are_given_in_either_way(name, value, none, init_grammar(), k);
    lemma_read_later(args, 2, 2, false, init_grammar(), nothing_given(init_grammar()));
    assert(args.skip(2) =~= seq![option, value] + none);
}

} // verus!
