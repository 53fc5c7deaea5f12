//! Slash command definitions and option reading.

use vstd::prelude::*;

use crate::text::is_str_chars;
use crate::text::to_chars;

verus! {

/// A string option of a slash command.
pub struct OptionSpec {
    pub name: String,
    pub description: String,
    pub required: bool,
    pub autocomplete: bool,
}

/// A chat-input slash command.
pub struct CommandSpec {
    pub name: String,
    pub description: String,
    pub options: Vec<OptionSpec>,
}

/// The plain value of an option: name, description, required.
pub open spec fn option_row(o: OptionSpec) -> (Seq<char>, Seq<char>, bool, bool) {
    (o.name@, o.description@, o.required, o.autocomplete)
}

/// The plain value of a command.
pub open spec fn command_row(c: CommandSpec) -> (Seq<char>, Seq<char>, Seq<(Seq<char>, Seq<char>, bool, bool)>) {
    (c.name@, c.description@, c.options@.map_values(|o: OptionSpec| option_row(o)))
}

/// The commands the bot registers.
pub open spec fn command_table() -> Seq<(Seq<char>, Seq<char>, Seq<(Seq<char>, Seq<char>, bool, bool)>)> {
    seq![
        (
            "docs"@,
            "Search Rust docs (Reference, By Example, Nomicon, Book)"@,
            seq![
                ("query"@, "What to look up, e.g. ownership or unsafe transmute"@, true, false),
                ("source"@, "Book, Reference, By Example, or Nomicon (default: auto)"@, false, false),
            ],
        ),
        (
            "ask"@,
            "Ask in natural language — AI routes to the right docs Skill"@,
            seq![("question"@, "Your Rust question"@, true, false)],
        ),
        (
            "context7"@,
            "Fresh library docs via Context7 (e.g. tokio, serenity)"@,
            seq![
                ("library"@, "Library name, e.g. tokio or serenity"@, true, false),
                ("query"@, "What to look up"@, true, false),
            ],
        ),
        ("help"@, "Show help for the Rust docs bot"@, Seq::empty()),
        ("ping"@, "Check the bot is alive"@, Seq::empty()),
    ]
}

fn opt(name: &str, desc: &str, required: bool, autocomplete: bool) -> (r: OptionSpec)
    ensures
        option_row(r) == (name@, desc@, required, autocomplete),
{
    OptionSpec {
        name: name.to_owned(),
        description: desc.to_owned(),
        required,
        autocomplete,
    }
}

fn cmd(name: &str, desc: &str, options: Vec<OptionSpec>) -> (r: CommandSpec)
    ensures
        r.name@ == name@,
        r.description@ == desc@,
        r.options == options,
{
    CommandSpec { name: name.to_owned(), description: desc.to_owned(), options }
}

/// The global commands registered at startup: `docs`, `ask`, `context7`,
/// `help`, `ping` (see `command_table`).
pub fn global_commands() -> (r: Vec<CommandSpec>)
    ensures
        r@.map_values(|c: CommandSpec| command_row(c)) == command_table(),
{
    let docs = cmd(
        "docs",
        "Search Rust docs (Reference, By Example, Nomicon, Book)",
        vec![
            opt("query", "What to look up, e.g. ownership or unsafe transmute", true, false),
            opt("source", "Book, Reference, By Example, or Nomicon (default: auto)", false, false),
        ],
    );
    let ask = cmd(
        "ask",
        "Ask in natural language — AI routes to the right docs Skill",
        vec![opt("question", "Your Rust question", true, false)],
    );
    let ctx = cmd(
        "context7",
        "Fresh library docs via Context7 (e.g. tokio, serenity)",
        vec![
            opt("library", "Library name, e.g. tokio or serenity", true, false),
            opt("query", "What to look up", true, false),
        ],
    );
    let help = cmd("help", "Show help for the Rust docs bot", Vec::new());
    let ping = cmd("ping", "Check the bot is alive", Vec::new());
    let r = vec![docs, ask, ctx, help, ping];
    proof {
        assert(r@.map_values(|c: CommandSpec| command_row(c))[0].2 =~= command_table()[0].2);
        assert(r@.map_values(|c: CommandSpec| command_row(c))[1].2 =~= command_table()[1].2);
        assert(r@.map_values(|c: CommandSpec| command_row(c))[2].2 =~= command_table()[2].2);
        assert(r@.map_values(|c: CommandSpec| command_row(c))[3].2 =~= command_table()[3].2);
        assert(r@.map_values(|c: CommandSpec| command_row(c))[4].2 =~= command_table()[4].2);
        assert(r@.map_values(|c: CommandSpec| command_row(c)) =~= command_table());
    }
    r
}

/// The value of a received command option.
pub enum OptionValue {
    Str(String),
    Other,
}

/// A received command option.
pub struct OptionEntry {
    pub name: String,
    pub value: OptionValue,
}

/// The first option named `name`, when its value is a string.
pub open spec fn string_option_spec(opts: Seq<OptionEntry>, name: Seq<char>) -> Option<Seq<char>>
    decreases opts.len(),
{
    if opts.len() == 0 {
        None
    } else if opts[0].name@ == name {
        match opts[0].value {
            OptionValue::Str(s) => Some(s@),
            OptionValue::Other => None,
        }
    } else {
        string_option_spec(opts.drop_first(), name)
    }
}

/// Reads a string option (see `string_option_spec`).
pub fn string_option(options: &[OptionEntry], name: &str) -> (r: Option<String>)
    ensures
        match r {
            Some(s) => string_option_spec(options@, name@) == Some(s@),
            None => string_option_spec(options@, name@) is None,
        },
{
    let n = options.len();
    let mut i: usize = 0;
    proof {
        assert(options@.subrange(0, n as int) =~= options@);
    }
    while i < n
        invariant
            n == options@.len(),
            i <= n,
            string_option_spec(options@, name@) == string_option_spec(
                options@.subrange(i as int, n as int),
                name@,
            ),
        decreases n - i,
    {
        proof {
            assert(options@.subrange(i as int, n as int)[0] == options@[i as int]);
            assert(options@.subrange(i as int, n as int).drop_first() =~= options@.subrange(
                i as int + 1,
                n as int,
            ));
        }
        let o = &options[i];
        let oname = to_chars(o.name.as_str());
        if is_str_chars(oname.as_slice(), name) {
            return match &o.value {
                OptionValue::Str(s) => Some(s.clone()),
                OptionValue::Other => None,
            };
        }
        i = i + 1;
    }
    None
}

} // verus!
