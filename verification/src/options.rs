//! The command line.

use vstd::prelude::*;

use crate::text::{begins, begins_with, chars_of, same, texts};

verus! {

/// How to use the command.
pub const USAGE: &'static str = "\
vyges loom fin — density fill: metal shapes in the gaps, to meet per-layer density rules

USAGE:
  vyges loom fin density-fill <design.odb> --rules FILE [--area 'lx ly ux uy']
  vyges loom fin --describe
  vyges loom fin --help

OPTIONS:
  --rules FILE     JSON fill rules, per layer (required)
  --area 'l b r t' fill this rectangle, in MICRONS (default: the core area)
  --out-odb FILE   write the database here (default: IN PLACE, over the input)
  --out-def FILE   also write the result as DEF (for diffing against a golden)
  --dry-run        report what would be filled, write nothing
  -o FILE          write the report to FILE instead of stdout
  --json           emit JSON (the default)
  --describe       print a machine-readable JSON description of the command

EXIT STATUS:
  0  filled      fill was placed and the database written
  0  vacuous     the run placed nothing -- NOT a completed fill; read the count
  1  refused     the design cannot be filled as asked
  2  error       usage error, unreadable database or rules, no DBU scale, or a failed write
";

/// The copyright line that `--version` prints.
pub const COPYRIGHT: &'static str = "© 2026 Vyges. All Rights Reserved.  https://vyges.com";

/// The options of a run.
#[derive(Debug)]
pub struct Opts {
    /// The design database.
    pub odb: String,
    /// The options that take a value, without their dashes, in the order given.
    pub keys: Vec<(String, String)>,
    pub dry_run: bool,
}

/// What [`Opts`] hold.
#[verifier::ext_equal]
pub struct OptsView {
    pub odb: Seq<char>,
    pub keys: Seq<(Seq<char>, Seq<char>)>,
    pub dry_run: bool,
}

/// The keys and values that a list of pairs holds.
pub open spec fn pairs_of(keys: Seq<(String, String)>) -> Seq<(Seq<char>, Seq<char>)> {
    Seq::new(keys.len(), |i: int| (keys[i].0@, keys[i].1@))
}

impl View for Opts {
    type V = OptsView;

    open spec fn view(&self) -> OptsView {
        OptsView { odb: self.odb@, keys: pairs_of(self.keys@), dry_run: self.dry_run }
    }
}

impl Default for Opts {
    fn default() -> (r: Opts)
        ensures
            r@ == (OptsView { odb: Seq::empty(), keys: Seq::empty(), dry_run: false }),
    {
        Opts { odb: String::new(), keys: Vec::new(), dry_run: false }
    }
}

/// The value of the first pair with this key.
pub open spec fn value_of(keys: Seq<(Seq<char>, Seq<char>)>, key: Seq<char>) -> Option<Seq<char>>
    decreases keys.len(),
{
    if keys.len() == 0 {
        None
    } else if keys[0].0 == key {
        Some(keys[0].1)
    } else {
        value_of(keys.skip(1), key)
    }
}

impl OptsView {
    /// The value given for an option.
    pub open spec fn value(self, key: Seq<char>) -> Option<Seq<char>> {
        value_of(self.keys, key)
    }
}

impl Opts {
    /// The value given for an option: the first one, where there are several.
    pub fn get(&self, k: &str) -> (r: Option<&str>)
        ensures
            match r {
                Some(v) => self@.value(k@) == Some(v@),
                None => self@.value(k@) is None,
            },
    {
        let ghost pairs = pairs_of(self.keys@);
        let mut i: usize = 0;
        assert(pairs.skip(0) =~= pairs);
        while i < self.keys.len()
            invariant
                i <= self.keys@.len(),
                pairs == pairs_of(self.keys@),
                self@.value(k@) == value_of(pairs.skip(i as int), k@),
            decreases self.keys.len() - i,
        {
            assert(pairs.skip(i as int).skip(1) =~= pairs.skip(i + 1));
            assert(pairs.skip(i as int)[0] == pairs[i as int]);
            if same(self.keys[i].0.as_str(), k) {
                return Some(self.keys[i].1.as_str());
            }
            i = i + 1;
        }
        None
    }
}

/// A text without the dashes that it begins with.
pub open spec fn without_dashes(a: Seq<char>) -> Seq<char>
    decreases a.len(),
{
    if a.len() > 0 && a[0] == '-' {
        without_dashes(a.skip(1))
    } else {
        a
    }
}

fn trim_dashes(a: &str) -> (r: String)
    ensures
        r@ == without_dashes(a@),
{
    let ca = chars_of(a);
    let mut i: usize = 0;
    assert(a@.skip(0) =~= a@);
    while i < ca.len() && ca[i] == '-'
        invariant
            ca@ == a@,
            i <= ca@.len(),
            without_dashes(a@) == without_dashes(a@.skip(i as int)),
        decreases ca.len() - i,
    {
        assert(a@.skip(i as int).skip(1) =~= a@.skip(i + 1));
        i = i + 1;
    }
    let r: String = a.substring_char(i, ca.len()).to_owned();
    assert(r@ =~= a@.skip(i as int));
    r
}

/// Reads arguments from left to right, after those read so far gave `keys` and `path`: a switch
/// stands alone, an option takes the argument behind it, and a later path replaces an earlier one.
pub open spec fn read_args(
    args: Seq<Seq<char>>,
    keys: Seq<(Seq<char>, Seq<char>)>,
    path: Option<Seq<char>>,
) -> Result<(Seq<(Seq<char>, Seq<char>)>, Option<Seq<char>>), Seq<char>>
    decreases args.len(),
{
    if args.len() == 0 {
        Ok((keys, path))
    } else if args[0] == "--dry-run"@ || args[0] == "--json"@ {
        read_args(args.skip(1), keys, path)
    } else if begins(args[0], "--"@) || args[0] == "-o"@ {
        if args.len() == 1 {
            Err(args[0] + " needs a value"@)
        } else {
            read_args(args.skip(2), keys.push((without_dashes(args[0]), args[1])), path)
        }
    } else if begins(args[0], "-"@) {
        Err("unknown option `"@ + args[0] + "`"@)
    } else {
        read_args(args.skip(1), keys, Some(args[0]))
    }
}

/// The options that the arguments state.
pub open spec fn options_in(args: Seq<Seq<char>>) -> Result<OptsView, Seq<char>> {
    match read_args(args, Seq::empty(), None) {
        Err(e) => Err(e),
        Ok((keys, None)) => Err("a path to a .odb is required"@),
        Ok((keys, Some(path))) => Ok(
            OptsView { odb: path, keys, dry_run: args.contains("--dry-run"@) },
        ),
    }
}

/// Whether some argument is this one.
fn has_arg(args: &[String], arg: &str) -> (r: bool)
    ensures
        r == texts(args@).contains(arg@),
{
    let mut i: usize = 0;
    while i < args.len()
        invariant
            i <= args@.len(),
            forall|k: int| 0 <= k < i ==> (#[trigger] args@[k])@ != arg@,
        decreases args.len() - i,
    {
        if same(args[i].as_str(), arg) {
            assert(texts(args@)[i as int] == arg@);
            return true;
        }
        i = i + 1;
    }
    assert forall|k: int| 0 <= k < texts(args@).len() implies texts(args@)[k] != arg@ by {
        assert(texts(args@)[k] == args@[k]@);
    }
    false
}

/// Reads the options of a run.
pub fn parse_opts(args: &[String]) -> (r: Result<Opts, String>)
    ensures
        match r {
            Ok(o) => options_in(texts(args@)) == Ok::<OptsView, Seq<char>>(o@),
            Err(e) => options_in(texts(args@)) == Err::<OptsView, Seq<char>>(e@),
        },
{
    let mut o = Opts::default();
    let mut odb: Option<String> = None;
    let mut i: usize = 0;
    let ghost words = texts(args@);
    let ghost mut path: Option<Seq<char>> = None;
    assert(words.skip(0) =~= words);
    while i < args.len()
        invariant
            i <= args@.len(),
            words == texts(args@),
            read_args(words, Seq::empty(), None) == read_args(
                words.skip(i as int),
                pairs_of(o.keys@),
                path,
            ),
            path == match odb {
                Some(p) => Some(p@),
                None => None,
            },
        decreases args.len() - i,
    {
        let a = args[i].as_str();
        let ghost rest = words.skip(i as int);
        assert(rest[0] == a@);
        assert(rest.skip(1) =~= words.skip(i + 1));
        if same(a, "--dry-run") || same(a, "--json") {
        } else if begins_with(a, "--") || same(a, "-o") {
            i = i + 1;
            if i >= args.len() {
                let mut e: String = a.to_owned();
                e.append(" needs a value");
                return Err(e);
            }
            assert(rest[1] == args@[i as int]@);
            assert(rest.skip(2) =~= words.skip(i + 1));
            let ghost before = pairs_of(o.keys@);
            o.keys.push((trim_dashes(a), args[i].clone()));
            assert(pairs_of(o.keys@) =~= before.push((without_dashes(a@), rest[1])));
        } else if begins_with(a, "-") {
            let mut e: String = "unknown option `".to_owned();
            e.append(a);
            e.append("`");
            return Err(e);
        } else {
            odb = Some(a.to_owned());
            proof {
                path = Some(a@);
            }
        }
        i = i + 1;
    }
    o.dry_run = has_arg(args, "--dry-run");
    match odb {
        Some(p) => {
            o.odb = p;
            Ok(o)
        },
        None => Err("a path to a .odb is required".to_owned()),
    }
}

/// What the arguments of the program ask for.
#[derive(Debug)]
pub enum Command {
    /// Say which build this is.
    Version,
    /// Print the description of the command.
    Describe,
    /// Print the usage, as asked.
    Help,
    /// Print the usage, for want of a command.
    NoCommand,
    /// Fill a design; with the arguments that follow the command.
    DensityFill(Vec<String>),
    /// A command that there is not.
    Unknown(String),
}

/// What a [`Command`] holds.
pub enum CommandView {
    Version,
    Describe,
    Help,
    NoCommand,
    DensityFill(Seq<Seq<char>>),
    Unknown(Seq<char>),
}

impl View for Command {
    type V = CommandView;

    open spec fn view(&self) -> CommandView {
        match self {
            Command::Version => CommandView::Version,
            Command::Describe => CommandView::Describe,
            Command::Help => CommandView::Help,
            Command::NoCommand => CommandView::NoCommand,
            Command::DensityFill(args) => CommandView::DensityFill(texts(args@)),
            Command::Unknown(name) => CommandView::Unknown(name@),
        }
    }
}

/// What the arguments of the program ask for: the version, the description and the help wherever
/// they stand among the arguments, and in this order; otherwise the command that comes first.
pub open spec fn command_in(args: Seq<Seq<char>>) -> CommandView {
    if args.contains("--version"@) || args.contains("-V"@) {
        CommandView::Version
    } else if args.contains("--describe"@) {
        CommandView::Describe
    } else if args.len() == 0 {
        CommandView::NoCommand
    } else if args.contains("--help"@) || args.contains("-h"@) {
        CommandView::Help
    } else if args[0] == "density-fill"@ {
        CommandView::DensityFill(args.skip(1))
    } else {
        CommandView::Unknown(args[0])
    }
}

/// Decides what the arguments of the program ask for.
pub fn command(args: &[String]) -> (r: Command)
    ensures
        r@ == command_in(texts(args@)),
{
    if has_arg(args, "--version") || has_arg(args, "-V") {
        return Command::Version;
    }
    if has_arg(args, "--describe") {
        return Command::Describe;
    }
    if args.len() == 0 {
        return Command::NoCommand;
    }
    if has_arg(args, "--help") || has_arg(args, "-h") {
        return Command::Help;
    }
    if !same(args[0].as_str(), "density-fill") {
        return Command::Unknown(args[0].clone());
    }
    let mut rest: Vec<String> = Vec::new();
    let mut i: usize = 1;
    while i < args.len()
        invariant
            1 <= i <= args@.len(),
            texts(rest@) == texts(args@).subrange(1, i as int),
        decreases args.len() - i,
    {
        let ghost before = rest@;
        rest.push(args[i].clone());
        assert(texts(rest@) =~= texts(before).push(args@[i as int]@));
        assert(texts(args@).subrange(1, i + 1) =~= texts(args@).subrange(1, i as int).push(
            args@[i as int]@,
        ));
        i = i + 1;
    }
    assert(texts(rest@) =~= texts(args@).skip(1));
    Command::DensityFill(rest)
}

/// The exit status of a command that is not a run: the usage printed for want of a command is an
/// error, and so is a command that there is not.
pub open spec fn command_exit(command: CommandView) -> Option<u8> {
    match command {
        CommandView::Version | CommandView::Describe | CommandView::Help => Some(0),
        CommandView::NoCommand | CommandView::Unknown(_) => Some(2),
        CommandView::DensityFill(_) => None,
    }
}

impl Command {
    /// The exit status, where no run decides it.
    pub fn exit_status(&self) -> (r: Option<u8>)
        ensures
            r == command_exit(self@),
    {
        match self {
            Command::Version | Command::Describe | Command::Help => Some(0),
            Command::NoCommand | Command::Unknown(_) => Some(2),
            Command::DensityFill(_) => None,
        }
    }
}

/// What reading arguments gives: a path among them that begins with no dash, or the one there was;
/// and options with the arguments behind them, after those there were.
proof fn lemma_read_args(
    args: Seq<Seq<char>>,
    keys: Seq<(Seq<char>, Seq<char>)>,
    path: Option<Seq<char>>,
)
    ensures
        read_args(args, keys, path) matches Ok((k, p)) ==> {
            &&& p == path || (p is Some && args.contains(p->0) && !begins(p->0, "-"@))
            &&& forall|i: int|
                0 <= i < k.len() ==> (i < keys.len() && k[i] == keys[i]) || given(
                    args,
                    #[trigger] k[i],
                )
        },
    decreases args.len(),
{
    if args.len() > 0 {
        let rest = args.skip(1);
        assert(forall|x: Seq<char>| #[trigger] rest.contains(x) ==> args.contains(x)) by {
            assert forall|x: Seq<char>| #[trigger] rest.contains(x) implies args.contains(x) by {
                let i = choose|i: int| 0 <= i < rest.len() && rest[i] == x;
                assert(args[i + 1] == x);
            }
        }
        assert(args.contains(args[0]));
        if args[0] == "--dry-run"@ || args[0] == "--json"@ {
            lemma_read_args(rest, keys, path);
            lemma_given(args, 1);
        } else if begins(args[0], "--"@) || args[0] == "-o"@ {
            if args.len() > 1 {
                let pair = (without_dashes(args[0]), args[1]);
                lemma_read_args(args.skip(2), keys.push(pair), path);
                lemma_given(args, 2);
                assert(takes_value(args, 0, pair));
                assert(given(args, pair));
                assert(args.skip(2) =~= rest.skip(1));
                assert forall|x: Seq<char>| #[trigger] args.skip(2).contains(x) implies args.contains(
                    x,
                ) by {
                    let i = choose|i: int| 0 <= i < args.skip(2).len() && args.skip(2)[i] == x;
                    assert(args[i + 2] == x);
                }
            }
        } else if !begins(args[0], "-"@) {
            lemma_read_args(rest, keys, Some(args[0]));
            lemma_given(args, 1);
        }
    }
}

/// Whether argument `i` is the option of the pair, dashes aside, and the one behind it its value.
pub open spec fn takes_value(args: Seq<Seq<char>>, i: int, pair: (Seq<char>, Seq<char>)) -> bool {
    0 <= i && i + 1 < args.len() && without_dashes(args[i]) == pair.0 && args[i + 1] == pair.1
}

/// Whether some argument is the option of the pair, and the one behind it its value.
pub open spec fn given(args: Seq<Seq<char>>, pair: (Seq<char>, Seq<char>)) -> bool {
    exists|i: int| takes_value(args, i, pair)
}

/// What the last arguments give, all of them do.
proof fn lemma_given(args: Seq<Seq<char>>, n: int)
    requires
        0 <= n <= args.len(),
    ensures
        forall|pair: (Seq<char>, Seq<char>)|
            given(args.skip(n), pair) ==> #[trigger] given(args, pair),
{
    assert forall|pair: (Seq<char>, Seq<char>)| given(args.skip(n), pair) implies #[trigger] given(
        args,
        pair,
    ) by {
        let i = choose|i: int| takes_value(args.skip(n), i, pair);
        assert(takes_value(args, i + n, pair));
    }
}

/// The path of a run is one of its arguments and begins with no dash; each option has for its value
/// the argument behind it; and a dry run is one that was asked for, wherever the word stands.
pub proof fn law_options_are_arguments(args: Seq<Seq<char>>, opts: OptsView)
    requires
        options_in(args) == Ok::<OptsView, Seq<char>>(opts),
    ensures
        args.contains(opts.odb),
        !begins(opts.odb, "-"@),
        forall|i: int| 0 <= i < opts.keys.len() ==> given(args, #[trigger] opts.keys[i]),
        opts.dry_run <==> args.contains("--dry-run"@),
{
    lemma_read_args(args, Seq::empty(), None);
}

/// Asking which build this is does not depend on the rest of the command line.
pub proof fn law_version_comes_first(args: Seq<Seq<char>>)
    requires
        args.contains("--version"@) || args.contains("-V"@),
    ensures
        command_in(args) is Version,
        command_exit(command_in(args)) == Some(0u8),
{
}

} // verus!
