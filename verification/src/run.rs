//! A run of the command, from its arguments to its exit status.
//!
//! A [`Run`] decides what to do next, and whoever drives it does that and hands back how it went.
//! Reading, writing and the database itself are the driver's.

use vstd::prelude::*;

use crate::area::{area_of, area_rect, area_words, words};
use crate::config::LayerView;
use crate::design::{
    first_lacking, lacking_layer, layer_views, plan_design, plan_of, LayerInfo,
    LayerInfoView, Metal, Plan, PlanView,
};
use crate::events::{announced, event_views, events, Event, EventView};
use crate::fill::Fill;
use crate::geometry::Rect;
use crate::options::{options_in, parse_opts, Opts, OptsView, USAGE};
use crate::report::{path_of, report, report_text};
use crate::rules::{parse_rules, rules_text, Rules};
use crate::text::{joined, texts};

verus! {

/// Where a run stands.
#[derive(Debug)]
pub enum Run {
    /// The rules file is to be read.
    ReadingRules { opts: Opts, rules_path: String },
    /// The database is to be opened.
    Opening { opts: Opts, rules_path: String, text: String },
    /// The fill area is to be known.
    AskingArea { opts: Opts, rules: Rules, dbu: i32 },
    /// Existing fill is to be cleared.
    Clearing { opts: Opts, rules: Rules, bounds: Rect },
    /// The design is to be read.
    ReadingDesign { opts: Opts, rules: Rules, bounds: Rect },
    /// The next of the planned fills is to be created.
    Creating { opts: Opts, plan: Plan, next: usize },
    /// The fill is to be announced.
    Announcing { opts: Opts, plan: Plan },
    /// The database is to be written.
    Writing { opts: Opts, plan: Plan },
    /// The result is to be written as DEF.
    WritingDef { opts: Opts, plan: Plan, def: String },
    /// The report is to be delivered.
    Reporting { opts: Opts, plan: Plan },
    /// Nothing is left to do.
    Finished { status: u8, message: Option<String> },
}

/// What a [`Run`] holds.
pub enum RunView {
    ReadingRules { opts: OptsView, rules_path: Seq<char> },
    Opening { opts: OptsView, rules_path: Seq<char>, text: Seq<char> },
    AskingArea { opts: OptsView, rules: Map<Seq<char>, LayerView>, dbu: i32 },
    Clearing { opts: OptsView, rules: Map<Seq<char>, LayerView>, bounds: Rect },
    ReadingDesign { opts: OptsView, rules: Map<Seq<char>, LayerView>, bounds: Rect },
    Creating { opts: OptsView, plan: PlanView, next: nat },
    Announcing { opts: OptsView, plan: PlanView },
    Writing { opts: OptsView, plan: PlanView },
    WritingDef { opts: OptsView, plan: PlanView, def: Seq<char> },
    Reporting { opts: OptsView, plan: PlanView },
    Finished { status: u8, message: Option<Seq<char>> },
}

impl View for Run {
    type V = RunView;

    open spec fn view(&self) -> RunView {
        match self {
            Run::ReadingRules { opts, rules_path } => RunView::ReadingRules {
                opts: opts@,
                rules_path: rules_path@,
            },
            Run::Opening { opts, rules_path, text } => RunView::Opening {
                opts: opts@,
                rules_path: rules_path@,
                text: text@,
            },
            Run::AskingArea { opts, rules, dbu } => RunView::AskingArea {
                opts: opts@,
                rules: rules@,
                dbu: *dbu,
            },
            Run::Clearing { opts, rules, bounds } => RunView::Clearing {
                opts: opts@,
                rules: rules@,
                bounds: *bounds,
            },
            Run::ReadingDesign { opts, rules, bounds } => RunView::ReadingDesign {
                opts: opts@,
                rules: rules@,
                bounds: *bounds,
            },
            Run::Creating { opts, plan, next } => RunView::Creating {
                opts: opts@,
                plan: plan@,
                next: *next as nat,
            },
            Run::Announcing { opts, plan } => RunView::Announcing { opts: opts@, plan: plan@ },
            Run::Writing { opts, plan } => RunView::Writing { opts: opts@, plan: plan@ },
            Run::WritingDef { opts, plan, def } => RunView::WritingDef {
                opts: opts@,
                plan: plan@,
                def: def@,
            },
            Run::Reporting { opts, plan } => RunView::Reporting { opts: opts@, plan: plan@ },
            Run::Finished { status, message } => RunView::Finished {
                status: *status,
                message: path_of(*message),
            },
        }
    }
}

/// What a run asks for.
#[derive(Debug)]
pub enum Action {
    /// Read the file at this path.
    ReadRules(String),
    /// Open the database at this path, and tell its units per micron.
    OpenDatabase(String),
    /// Read the words as numbers, leaving out those that are none.
    ReadNumbers(Vec<String>),
    /// Tell the core area of the design.
    ReadCore,
    /// Clear existing fill.
    ClearFills,
    /// Tell the metal and the layers of the design.
    ReadDesign,
    /// Create this fill on this layer.
    CreateFill(String, Fill),
    /// Announce the events.
    Announce(Vec<Event>),
    /// Write the database to this path.
    WriteDatabase(String),
    /// Write the design as DEF to this path.
    WriteDef(String),
    /// Write the report to this path.
    WriteReport(String, String),
    /// Print the report.
    PrintReport(String),
    /// Exit with this status, after a message where there is one.
    Exit(u8, Option<String>),
}

/// What an [`Action`] holds.
pub enum ActionView {
    ReadRules(Seq<char>),
    OpenDatabase(Seq<char>),
    ReadNumbers(Seq<Seq<char>>),
    ReadCore,
    ClearFills,
    ReadDesign,
    CreateFill(Seq<char>, Fill),
    Announce(Seq<EventView>),
    WriteDatabase(Seq<char>),
    WriteDef(Seq<char>),
    WriteReport(Seq<char>, Seq<char>),
    PrintReport(Seq<char>),
    Exit(u8, Option<Seq<char>>),
}

impl View for Action {
    type V = ActionView;

    open spec fn view(&self) -> ActionView {
        match self {
            Action::ReadRules(p) => ActionView::ReadRules(p@),
            Action::OpenDatabase(p) => ActionView::OpenDatabase(p@),
            Action::ReadNumbers(w) => ActionView::ReadNumbers(texts(w@)),
            Action::ReadCore => ActionView::ReadCore,
            Action::ClearFills => ActionView::ClearFills,
            Action::ReadDesign => ActionView::ReadDesign,
            Action::CreateFill(l, f) => ActionView::CreateFill(l@, *f),
            Action::Announce(e) => ActionView::Announce(event_views(e@)),
            Action::WriteDatabase(p) => ActionView::WriteDatabase(p@),
            Action::WriteDef(p) => ActionView::WriteDef(p@),
            Action::WriteReport(p, t) => ActionView::WriteReport(p@, t@),
            Action::PrintReport(t) => ActionView::PrintReport(t@),
            Action::Exit(s, m) => ActionView::Exit(*s, path_of(*m)),
        }
    }
}

/// How an action went.
#[derive(Debug)]
pub enum Reply {
    /// It failed, for this reason.
    Failed(String),
    /// The text of a file.
    Text(String),
    /// The units per micron of the database.
    Scale(i32),
    /// The bits of binary64 numbers.
    Numbers(Vec<u64>),
    /// The core area.
    Core(Rect),
    /// The metal and the layers of the design.
    Design(Vec<Metal>, Vec<LayerInfo>),
    /// It is done.
    Done,
}

/// What a [`Reply`] holds.
pub enum ReplyView {
    Failed(Seq<char>),
    Text(Seq<char>),
    Scale(i32),
    Numbers(Seq<u64>),
    Core(Rect),
    Design(Seq<Metal>, Seq<LayerInfoView>),
    Done,
}

impl View for Reply {
    type V = ReplyView;

    open spec fn view(&self) -> ReplyView {
        match self {
            Reply::Failed(e) => ReplyView::Failed(e@),
            Reply::Text(t) => ReplyView::Text(t@),
            Reply::Scale(d) => ReplyView::Scale(*d),
            Reply::Numbers(n) => ReplyView::Numbers(n@),
            Reply::Core(r) => ReplyView::Core(*r),
            Reply::Design(m, l) => ReplyView::Design(m@, layer_views(l@)),
            Reply::Done => ReplyView::Done,
        }
    }
}

/// The run is over, with an error status and a message.
pub open spec fn stopped(status: u8, message: Seq<char>) -> RunView {
    RunView::Finished { status, message: Some(message) }
}

fn stop(status: u8, message: String) -> (r: Run)
    ensures
        r@ == stopped(status, message@),
{
    Run::Finished { status, message: Some(message) }
}

/// A message with the usage behind it.
pub open spec fn with_usage(message: Seq<char>) -> Seq<char> {
    message + "\n\n"@ + USAGE@
}

/// How a run starts.
pub open spec fn started(args: Seq<Seq<char>>) -> RunView {
    match options_in(args) {
        Err(e) => stopped(2, with_usage(e)),
        Ok(opts) => match opts.value("rules"@) {
            None => stopped(2, with_usage("`density-fill` needs --rules FILE"@)),
            Some(rules_path) => RunView::ReadingRules { opts, rules_path },
        },
    }
}

/// Where the database is written: in place, unless another path is given.
pub open spec fn out_path(opts: OptsView) -> Seq<char> {
    match opts.value("out-odb"@) {
        Some(p) => p,
        None => opts.odb,
    }
}

/// The report of a run and the end of its line.
pub open spec fn report_line(opts: OptsView, plan: PlanView) -> Seq<char> {
    report_text(
        opts.dry_run,
        plan,
        if opts.dry_run {
            None
        } else {
            Some(out_path(opts))
        },
    ) + "\n"@
}

/// What a run asks for where it stands.
pub open spec fn action_of(run: RunView) -> ActionView {
    match run {
        RunView::ReadingRules { opts, rules_path } => ActionView::ReadRules(rules_path),
        RunView::Opening { opts, rules_path, text } => ActionView::OpenDatabase(opts.odb),
        RunView::AskingArea { opts, rules, dbu } => match opts.value("area"@) {
            Some(a) => ActionView::ReadNumbers(words(a)),
            None => ActionView::ReadCore,
        },
        RunView::Clearing { opts, rules, bounds } => ActionView::ClearFills,
        RunView::ReadingDesign { opts, rules, bounds } => ActionView::ReadDesign,
        RunView::Creating { opts, plan, next } => ActionView::CreateFill(
            plan.planned[next as int].0,
            plan.planned[next as int].1,
        ),
        RunView::Announcing { opts, plan } => ActionView::Announce(
            announced(plan, !opts.dry_run),
        ),
        RunView::Writing { opts, plan } => ActionView::WriteDatabase(out_path(opts)),
        RunView::WritingDef { opts, plan, def } => ActionView::WriteDef(def),
        RunView::Reporting { opts, plan } => match opts.value("o"@) {
            Some(f) => ActionView::WriteReport(f, report_line(opts, plan)),
            None => ActionView::PrintReport(report_line(opts, plan)),
        },
        RunView::Finished { status, message } => ActionView::Exit(status, message),
    }
}

/// Whether a reply is one to what the run asks for.
pub open spec fn answers(run: RunView, reply: ReplyView) -> bool {
    match run {
        RunView::ReadingRules { opts, rules_path } => reply is Text || reply is Failed,
        RunView::Opening { opts, rules_path, text } => reply is Scale || reply is Failed,
        RunView::AskingArea { opts, rules, dbu } => if opts.value("area"@) is Some {
            reply is Numbers
        } else {
            reply is Core
        },
        RunView::ReadingDesign { opts, rules, bounds } => reply is Design,
        RunView::Announcing { opts, plan } => reply is Done,
        RunView::Finished { status, message } => false,
        _ => reply is Done || reply is Failed,
    }
}

/// Where a run stands once the fill area is known.
pub open spec fn within(
    opts: OptsView,
    rules: Map<Seq<char>, LayerView>,
    bounds: Rect,
) -> RunView {
    if bounds.empty() {
        stopped(1, "the fill area is empty; nothing to fill"@)
    } else if opts.dry_run {
        RunView::ReadingDesign { opts, rules, bounds }
    } else {
        RunView::Clearing { opts, rules, bounds }
    }
}

/// Where a run stands once fills up to `next` are created; a dry run creates none.
pub open spec fn creating(opts: OptsView, plan: PlanView, next: nat) -> RunView {
    if opts.dry_run || next >= plan.planned.len() {
        RunView::Announcing { opts, plan }
    } else {
        RunView::Creating { opts, plan, next }
    }
}

/// Where a run stands after a reply.
pub open spec fn next(run: RunView, reply: ReplyView) -> RunView {
    match (run, reply) {
        (RunView::ReadingRules { opts, rules_path }, ReplyView::Text(text)) => RunView::Opening {
            opts,
            rules_path,
            text,
        },
        (RunView::ReadingRules { opts, rules_path }, ReplyView::Failed(e)) => stopped(
            2,
            "cannot read "@ + rules_path + ": "@ + e,
        ),
        (RunView::Opening { opts, rules_path, text }, ReplyView::Scale(dbu)) => if dbu <= 0 {
            stopped(2, "no DBU scale"@)
        } else {
            match rules_text(text, dbu) {
                Err(e) => stopped(2, rules_path + ": "@ + e),
                Ok(rules) => RunView::AskingArea { opts, rules, dbu },
            }
        },
        (RunView::Opening { opts, rules_path, text }, ReplyView::Failed(e)) => stopped(
            2,
            "cannot read "@ + opts.odb + ": "@ + e,
        ),
        (RunView::AskingArea { opts, rules, dbu }, ReplyView::Numbers(n)) => match area_of(n, dbu) {
            Some(bounds) => within(opts, rules, bounds),
            None => stopped(
                2,
                "--area wants 'lx ly ux uy' in microns, got `"@ + opts.value("area"@)->0 + "`"@,
            ),
        },
        (RunView::AskingArea { opts, rules, dbu }, ReplyView::Core(bounds)) => within(
            opts,
            rules,
            bounds,
        ),
        (RunView::Clearing { opts, rules, bounds }, ReplyView::Done) => RunView::ReadingDesign {
            opts,
            rules,
            bounds,
        },
        (RunView::Clearing { opts, rules, bounds }, ReplyView::Failed(e)) => stopped(
            2,
            "cannot clear existing fill: "@ + e,
        ),
        (
            RunView::ReadingDesign { opts, rules, bounds },
            ReplyView::Design(metal, layers),
        ) => match first_lacking(layers, rules) {
            Some(layer) => stopped(
                2,
                "the rules name layer "@ + layer + ", which the technology lacks"@,
            ),
            None => creating(opts, plan_of(bounds.cells(), metal, layers, rules), 0),
        },
        (RunView::Creating { opts, plan, next }, ReplyView::Done) => creating(opts, plan, next + 1),
        (RunView::Creating { opts, plan, next }, ReplyView::Failed(e)) => stopped(
            2,
            "cannot create fill on "@ + plan.planned[next as int].0 + ": "@ + e,
        ),
        (RunView::Announcing { opts, plan }, ReplyView::Done) => if opts.dry_run {
            RunView::Reporting { opts, plan }
        } else {
            RunView::Writing { opts, plan }
        },
        (RunView::Writing { opts, plan }, ReplyView::Done) => match opts.value("out-def"@) {
            Some(def) => RunView::WritingDef { opts, plan, def },
            None => RunView::Reporting { opts, plan },
        },
        (RunView::Writing { opts, plan }, ReplyView::Failed(e)) => stopped(
            2,
            "cannot write "@ + out_path(opts) + ": "@ + e,
        ),
        (RunView::WritingDef { opts, plan, def }, ReplyView::Done) => RunView::Reporting {
            opts,
            plan,
        },
        (RunView::WritingDef { opts, plan, def }, ReplyView::Failed(e)) => stopped(
            2,
            "cannot write "@ + def + ": "@ + e,
        ),
        (RunView::Reporting { opts, plan }, ReplyView::Done) => RunView::Finished {
            status: 0,
            message: None,
        },
        (RunView::Reporting { opts, plan }, ReplyView::Failed(e)) => stopped(
            2,
            "cannot write "@ + (match opts.value("o"@) {
                Some(f) => f,
                None => "the report"@,
            }) + ": "@ + e,
        ),
        _ => run,
    }
}

impl Run {
    /// Starts a run from the arguments of the command.
    pub fn start(args: &[String]) -> (run: Run)
        ensures
            run@ == started(texts(args@)),
            run.sound(),
    {
        let opts = match parse_opts(args) {
            Ok(o) => o,
            Err(e) => {
                return stop(2, joined(e.as_str(), "\n\n", USAGE));
            },
        };
        let rules_path: String = match opts.get("rules") {
            Some(p) => p.to_owned(),
            None => {
                return stop(2, joined("`density-fill` needs --rules FILE", "\n\n", USAGE));
            },
        };
        Run::ReadingRules { opts, rules_path }
    }

    /// Whether the run stands where it can: a fill that is to be created is one of those planned.
    pub open spec fn sound(self) -> bool {
        match self {
            Run::Creating { opts, plan, next } => next < plan.planned.len(),
            _ => true,
        }
    }

    /// What the run asks for.
    pub fn action(&self) -> (a: Action)
        requires
            self.sound(),
        ensures
            a@ == action_of(self@),
    {
        match self {
            Run::ReadingRules { opts, rules_path } => Action::ReadRules(rules_path.clone()),
            Run::Opening { opts, rules_path, text } => Action::OpenDatabase(opts.odb.clone()),
            Run::AskingArea { opts, rules, dbu } => match opts.get("area") {
                Some(a) => Action::ReadNumbers(area_words(a)),
                None => Action::ReadCore,
            },
            Run::Clearing { opts, rules, bounds } => Action::ClearFills,
            Run::ReadingDesign { opts, rules, bounds } => Action::ReadDesign,
            Run::Creating { opts, plan, next } => {
                let i: usize = *next;
                assert(plan@.planned[i as int].0 == plan.planned@[i as int].0@);
                Action::CreateFill(plan.planned[i].0.clone(), plan.planned[i].1)
            },
            Run::Announcing { opts, plan } => Action::Announce(events(plan, !opts.dry_run)),
            Run::Writing { opts, plan } => Action::WriteDatabase(written_to(opts)),
            Run::WritingDef { opts, plan, def } => Action::WriteDef(def.clone()),
            Run::Reporting { opts, plan } => {
                let written: Option<String> = if opts.dry_run {
                    None
                } else {
                    Some(written_to(opts))
                };
                let mut text: String = report(opts.dry_run, plan, &written);
                text.append("\n");
                match opts.get("o") {
                    Some(f) => Action::WriteReport(f.to_owned(), text),
                    None => Action::PrintReport(text),
                }
            },
            Run::Finished { status, message } => {
                let m: Option<String> = match message {
                    Some(m) => Some(m.clone()),
                    None => None,
                };
                Action::Exit(*status, m)
            },
        }
    }

    /// Goes on after a reply to what the run asks for.
    pub fn step(self, reply: Reply) -> (run: Run)
        requires
            self.sound(),
            answers(self@, reply@),
        ensures
            run@ == next(self@, reply@),
            run.sound(),
    {
        match (self, reply) {
            (Run::ReadingRules { opts, rules_path }, Reply::Text(text)) => Run::Opening {
                opts,
                rules_path,
                text,
            },
            (Run::ReadingRules { opts, rules_path }, Reply::Failed(e)) => stop(
                2,
                failure("cannot read ", rules_path.as_str(), e.as_str()),
            ),
            (Run::Opening { opts, rules_path, text }, Reply::Scale(dbu)) => {
                if dbu <= 0 {
                    return stop(2, "no DBU scale".to_owned());
                }
                match parse_rules(text.as_str(), dbu) {
                    Ok(rules) => Run::AskingArea { opts, rules, dbu },
                    Err(e) => stop(2, joined(rules_path.as_str(), ": ", e.as_str())),
                }
            },
            (Run::Opening { opts, rules_path, text }, Reply::Failed(e)) => stop(
                2,
                failure("cannot read ", opts.odb.as_str(), e.as_str()),
            ),
            (Run::AskingArea { opts, rules, dbu }, Reply::Numbers(n)) => match area_rect(&n, dbu) {
                Some(bounds) => fill_within(opts, rules, bounds),
                None => {
                    let given: String = match opts.get("area") {
                        Some(a) => a.to_owned(),
                        None => String::new(),
                    };
                    stop(
                        2,
                        joined(
                            "--area wants 'lx ly ux uy' in microns, got `",
                            given.as_str(),
                            "`",
                        ),
                    )
                },
            },
            (Run::AskingArea { opts, rules, dbu }, Reply::Core(bounds)) => fill_within(
                opts,
                rules,
                bounds,
            ),
            (Run::Clearing { opts, rules, bounds }, Reply::Done) => Run::ReadingDesign {
                opts,
                rules,
                bounds,
            },
            (Run::Clearing { opts, rules, bounds }, Reply::Failed(e)) => {
                let mut m: String = "cannot clear existing fill: ".to_owned();
                m.append(e.as_str());
                stop(2, m)
            },
            (
                Run::ReadingDesign { opts, rules, bounds },
                Reply::Design(metal, layers),
            ) => match lacking_layer(&layers, &rules) {
                Some(layer) => stop(
                    2,
                    joined("the rules name layer ", layer.as_str(), ", which the technology lacks"),
                ),
                None => create_from(opts, plan_design(bounds, &metal, &layers, &rules), 0),
            },
            (Run::Creating { opts, plan, next }, Reply::Done) => create_from(opts, plan, next + 1),
            (Run::Creating { opts, plan, next }, Reply::Failed(e)) => {
                assert(plan@.planned[next as int].0 == plan.planned@[next as int].0@);
                stop(
                    2,
                    failure("cannot create fill on ", plan.planned[next].0.as_str(), e.as_str()),
                )
            },
            (Run::Announcing { opts, plan }, Reply::Done) => {
                if opts.dry_run {
                    Run::Reporting { opts, plan }
                } else {
                    Run::Writing { opts, plan }
                }
            },
            (Run::Writing { opts, plan }, Reply::Done) => {
                let def: Option<String> = match opts.get("out-def") {
                    Some(d) => Some(d.to_owned()),
                    None => None,
                };
                match def {
                    Some(def) => Run::WritingDef { opts, plan, def },
                    None => Run::Reporting { opts, plan },
                }
            },
            (Run::Writing { opts, plan }, Reply::Failed(e)) => stop(
                2,
                failure("cannot write ", written_to(&opts).as_str(), e.as_str()),
            ),
            (Run::WritingDef { opts, plan, def }, Reply::Done) => Run::Reporting { opts, plan },
            (Run::WritingDef { opts, plan, def }, Reply::Failed(e)) => stop(
                2,
                failure("cannot write ", def.as_str(), e.as_str()),
            ),
            (Run::Reporting { opts, plan }, Reply::Done) => Run::Finished {
                status: 0,
                message: None,
            },
            (Run::Reporting { opts, plan }, Reply::Failed(e)) => {
                let to: String = match opts.get("o") {
                    Some(f) => f.to_owned(),
                    None => "the report".to_owned(),
                };
                stop(2, failure("cannot write ", to.as_str(), e.as_str()))
            },
            (run, _) => run,
        }
    }
}

/// What failed, and why.
fn failure(what: &str, on: &str, why: &str) -> (r: String)
    ensures
        r@ == what@ + on@ + ": "@ + why@,
{
    let mut r: String = joined(what, on, ": ");
    r.append(why);
    r
}

/// Where the database is written.
fn written_to(opts: &Opts) -> (r: String)
    ensures
        r@ == out_path(opts@),
{
    match opts.get("out-odb") {
        Some(p) => p.to_owned(),
        None => opts.odb.clone(),
    }
}

/// Goes on once the fill area is known.
fn fill_within(opts: Opts, rules: Rules, bounds: Rect) -> (run: Run)
    ensures
        run@ == within(opts@, rules@, bounds),
        run.sound(),
{
    if bounds.is_empty() {
        stop(1, "the fill area is empty; nothing to fill".to_owned())
    } else if opts.dry_run {
        Run::ReadingDesign { opts, rules, bounds }
    } else {
        Run::Clearing { opts, rules, bounds }
    }
}

/// Goes on once the fills up to `next` are created.
fn create_from(opts: Opts, plan: Plan, next: usize) -> (run: Run)
    ensures
        run@ == creating(opts@, plan@, next as nat),
        run.sound(),
{
    if opts.dry_run || next >= plan.planned.len() {
        Run::Announcing { opts, plan }
    } else {
        Run::Creating { opts, plan, next }
    }
}

} // verus!
