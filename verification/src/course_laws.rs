//! The whole course of a run: what it does, in which order, and what it says where something fails.

use vstd::prelude::*;

use crate::area::{area_of, words};
use crate::config::LayerView;
use crate::design::{first_lacking, is_first_lacking, lacking, plan_of, LayerInfoView, Metal, PlanView};
use crate::design_laws::no_layer;
use crate::events::announced;
use crate::geometry::Rect;
use crate::options::{options_in, OptsView, USAGE};
use crate::report::report_text;
use crate::rules::rules_text;
use crate::run::{action_of, answers, next, started, ActionView, ReplyView, RunView};
use crate::run_laws::{after, answered};

verus! {

/// What a run asked for, one action for each reply.
pub open spec fn actions(run: RunView, replies: Seq<ReplyView>) -> Seq<ActionView>
    decreases replies.len(),
{
    if replies.len() == 0 {
        Seq::empty()
    } else {
        actions(run, replies.drop_last()).push(action_of(after(run, replies.drop_last())))
    }
}

/// Whether a run with these replies asks for these actions, one for each, and then stands there.
#[verifier::opaque]
pub open spec fn runs(
    start: RunView,
    replies: Seq<ReplyView>,
    done: Seq<ActionView>,
    end: RunView,
) -> bool {
    &&& answered(start, replies)
    &&& actions(start, replies) == done
    &&& after(start, replies) == end
}

/// A run goes on by a step.
proof fn lemma_goes_on(
    start: RunView,
    replies: Seq<ReplyView>,
    done: Seq<ActionView>,
    at: RunView,
    reply: ReplyView,
)
    requires
        runs(start, replies, done, at),
        answers(at, reply),
    ensures
        runs(start, replies.push(reply), done.push(action_of(at)), next(at, reply)),
{
    reveal(runs);
    assert(replies.push(reply).drop_last() =~= replies);
}

/// As many times that it went well.
pub open spec fn all_done(n: nat) -> Seq<ReplyView> {
    Seq::new(n, |i: int| ReplyView::Done)
}

/// The creation of each fill of a plan, in its order.
pub open spec fn creations(plan: PlanView) -> Seq<ActionView> {
    Seq::new(
        plan.planned.len(),
        |i: int| ActionView::CreateFill(plan.planned[i].0, plan.planned[i].1),
    )
}

/// A run creates the fills of its plan one after the other.
proof fn lemma_creates(
    start: RunView,
    replies: Seq<ReplyView>,
    done: Seq<ActionView>,
    opts: OptsView,
    plan: PlanView,
    n: nat,
)
    requires
        !opts.dry_run,
        n <= plan.planned.len(),
        runs(
            start,
            replies,
            done,
            if plan.planned.len() == 0 {
                RunView::Announcing { opts, plan }
            } else {
                RunView::Creating { opts, plan, next: 0 }
            },
        ),
    ensures
        runs(
            start,
            replies + all_done(n),
            done + creations(plan).take(n as int),
            if n >= plan.planned.len() {
                RunView::Announcing { opts, plan }
            } else {
                RunView::Creating { opts, plan, next: n }
            },
        ),
    decreases n,
{
    if n == 0 {
        assert(replies + all_done(0) =~= replies);
        assert(done + creations(plan).take(0) =~= done);
    } else {
        let m = (n - 1) as nat;
        lemma_creates(start, replies, done, opts, plan, m);
        let at = RunView::Creating { opts, plan, next: m };
        lemma_goes_on(
            start,
            replies + all_done(m),
            done + creations(plan).take(m as int),
            at,
            ReplyView::Done,
        );
        assert(replies + all_done(n) =~= (replies + all_done(m)).push(ReplyView::Done));
        assert(done + creations(plan).take(n as int) =~= (done + creations(plan).take(
            m as int,
        )).push(action_of(at)));
    }
}

/// Whether the reply tells the fill area: four numbers for the one that the options state, the core
/// where they state none.
pub open spec fn tells_area(opts: OptsView, dbu: i32, reply: ReplyView, bounds: Rect) -> bool {
    match opts.value("area"@) {
        Some(_) => reply matches ReplyView::Numbers(n) && area_of(n, dbu) == Some(bounds),
        None => reply == ReplyView::Core(bounds),
    }
}

/// What a run writes the database to: the path given for it, or the one it was read from.
pub open spec fn destination(opts: OptsView) -> Seq<char> {
    if opts.value("out-odb"@) is Some {
        opts.value("out-odb"@)->0
    } else {
        opts.odb
    }
}

/// The delivery of a report: to the file that the options name, or printed.
pub open spec fn delivery(opts: OptsView, text: Seq<char>) -> ActionView {
    match opts.value("o"@) {
        Some(f) => ActionView::WriteReport(f, text),
        None => ActionView::PrintReport(text),
    }
}

/// The replies that tell a run of its rules, its scale and its area.
pub open spec fn told(text: Seq<char>, dbu: i32, area: ReplyView) -> Seq<ReplyView> {
    seq![ReplyView::Text(text), ReplyView::Scale(dbu), area]
}

/// What a run asks for to know its rules, its scale and its area.
pub open spec fn inquiries(opts: OptsView, rules_path: Seq<char>) -> Seq<ActionView> {
    seq![
        ActionView::ReadRules(rules_path),
        ActionView::OpenDatabase(opts.odb),
        match opts.value("area"@) {
            Some(a) => ActionView::ReadNumbers(words(a)),
            None => ActionView::ReadCore,
        },
    ]
}

/// What brings a run to its area.
proof fn lemma_to_area(
    args: Seq<Seq<char>>,
    opts: OptsView,
    rules_path: Seq<char>,
    text: Seq<char>,
    dbu: i32,
    rules: Map<Seq<char>, LayerView>,
    area: ReplyView,
    bounds: Rect,
)
    requires
        options_in(args) == Ok::<OptsView, Seq<char>>(opts),
        opts.value("rules"@) == Some(rules_path),
        dbu > 0,
        rules_text(text, dbu) == Ok::<Map<Seq<char>, LayerView>, Seq<char>>(rules),
        tells_area(opts, dbu, area, bounds),
        !bounds.empty(),
    ensures
        runs(
            started(args),
            told(text, dbu, area),
            inquiries(opts, rules_path),
            if opts.dry_run {
                RunView::ReadingDesign { opts, rules, bounds }
            } else {
                RunView::Clearing { opts, rules, bounds }
            },
        ),
{
    let start = started(args);
    let r0 = Seq::<ReplyView>::empty();
    let a0 = Seq::<ActionView>::empty();
    let s0 = RunView::ReadingRules { opts, rules_path };
    assert(start == s0);
    assert(runs(start, r0, a0, s0)) by {
        reveal(runs);
    }
    lemma_goes_on(start, r0, a0, s0, ReplyView::Text(text));
    let r1 = r0.push(ReplyView::Text(text));
    let a1 = a0.push(ActionView::ReadRules(rules_path));
    let s1 = RunView::Opening { opts, rules_path, text };
    lemma_goes_on(start, r1, a1, s1, ReplyView::Scale(dbu));
    let r2 = r1.push(ReplyView::Scale(dbu));
    let a2 = a1.push(ActionView::OpenDatabase(opts.odb));
    let s2 = RunView::AskingArea { opts, rules, dbu };
    lemma_goes_on(start, r2, a2, s2, area);
    assert(r2.push(area) =~= told(text, dbu, area));
    assert(a2.push(action_of(s2)) =~= inquiries(opts, rules_path));
}

/// What brings a run to its plan.
proof fn lemma_to_plan(
    args: Seq<Seq<char>>,
    opts: OptsView,
    rules_path: Seq<char>,
    text: Seq<char>,
    dbu: i32,
    rules: Map<Seq<char>, LayerView>,
    area: ReplyView,
    bounds: Rect,
    metal: Seq<Metal>,
    layers: Seq<LayerInfoView>,
)
    requires
        options_in(args) == Ok::<OptsView, Seq<char>>(opts),
        opts.value("rules"@) == Some(rules_path),
        dbu > 0,
        rules_text(text, dbu) == Ok::<Map<Seq<char>, LayerView>, Seq<char>>(rules),
        tells_area(opts, dbu, area, bounds),
        !bounds.empty(),
        forall|name: Seq<char>| #[trigger] rules.dom().contains(name) ==> !no_layer(layers, name),
    ensures
        ({
            let plan = plan_of(bounds.cells(), metal, layers, rules);
            let r = told(text, dbu, area);
            let a = inquiries(opts, rules_path);
            let design = ReplyView::Design(metal, layers);
            &&& opts.dry_run ==> runs(
                started(args),
                r.push(design),
                a.push(ActionView::ReadDesign),
                RunView::Announcing { opts, plan },
            )
            &&& !opts.dry_run ==> runs(
                started(args),
                r.push(ReplyView::Done).push(design),
                a.push(ActionView::ClearFills).push(ActionView::ReadDesign),
                if plan.planned.len() == 0 {
                    RunView::Announcing { opts, plan }
                } else {
                    RunView::Creating { opts, plan, next: 0 }
                },
            )
        }),
{
    let start = started(args);
    lemma_to_area(args, opts, rules_path, text, dbu, rules, area, bounds);
    lemma_none_lacking(layers, rules);
    let r = told(text, dbu, area);
    let a = inquiries(opts, rules_path);
    let design = ReplyView::Design(metal, layers);
    let reading = RunView::ReadingDesign { opts, rules, bounds };
    if opts.dry_run {
        lemma_goes_on(start, r, a, reading, design);
    } else {
        let clearing = RunView::Clearing { opts, rules, bounds };
        lemma_goes_on(start, r, a, clearing, ReplyView::Done);
        lemma_goes_on(
            start,
            r.push(ReplyView::Done),
            a.push(ActionView::ClearFills),
            reading,
            design,
        );
    }
}

/// Where no layer is lacking, none is the first.
proof fn lemma_none_lacking(layers: Seq<LayerInfoView>, rules: Map<Seq<char>, LayerView>)
    requires
        forall|name: Seq<char>| #[trigger] rules.dom().contains(name) ==> !no_layer(layers, name),
    ensures
        first_lacking(layers, rules) is None,
{
    if exists|n: Seq<char>| is_first_lacking(layers, rules, n) {
        let n = choose|n: Seq<char>| is_first_lacking(layers, rules, n);
        assert(lacking(layers, rules, n));
        assert(rules.dom().contains(n));
    }
}

/// A run that nothing fails in does this, in this order, and exits with 0: it reads the rules, opens
/// the database, and asks for the area that the options state or else for the core; it clears the
/// fills, reads the design and creates every fill of the plan, one by one; it announces the plan,
/// writes the database where it belongs, and the DEF where one is asked for; and it delivers the
/// report. A dry run does the same without what changes or writes the design, and says so.
pub proof fn law_course_of_a_run(
    args: Seq<Seq<char>>,
    opts: OptsView,
    rules_path: Seq<char>,
    text: Seq<char>,
    dbu: i32,
    rules: Map<Seq<char>, LayerView>,
    area: ReplyView,
    bounds: Rect,
    metal: Seq<Metal>,
    layers: Seq<LayerInfoView>,
)
    requires
        options_in(args) == Ok::<OptsView, Seq<char>>(opts),
        opts.value("rules"@) == Some(rules_path),
        dbu > 0,
        rules_text(text, dbu) == Ok::<Map<Seq<char>, LayerView>, Seq<char>>(rules),
        tells_area(opts, dbu, area, bounds),
        !bounds.empty(),
        forall|name: Seq<char>| #[trigger] rules.dom().contains(name) ==> !no_layer(layers, name),
    ensures
        ({
            let plan = plan_of(bounds.cells(), metal, layers, rules);
            let design = seq![ReplyView::Design(metal, layers)];
            let asked = inquiries(opts, rules_path);
            let read = seq![ActionView::ReadDesign];
            let end = RunView::Finished { status: 0, message: None };
            if opts.dry_run {
                runs(
                    started(args),
                    told(text, dbu, area) + design + all_done(2),
                    asked + read + seq![
                        ActionView::Announce(announced(plan, false)),
                        delivery(opts, report_text(true, plan, None) + "\n"@),
                    ],
                    end,
                )
            } else {
                let def = match opts.value("out-def"@) {
                    Some(d) => seq![ActionView::WriteDef(d)],
                    None => Seq::empty(),
                };
                runs(
                    started(args),
                    told(text, dbu, area) + all_done(1) + design + all_done(plan.planned.len()) + all_done(
                        3 + def.len(),
                    ),
                    asked + seq![ActionView::ClearFills] + read + creations(plan) + seq![
                        ActionView::Announce(announced(plan, true)),
                        ActionView::WriteDatabase(destination(opts)),
                    ] + def + seq![
                        delivery(
                            opts,
                            report_text(false, plan, Some(destination(opts))) + "\n"@,
                        ),
                    ],
                    end,
                )
            }
        }),
{
    let plan = plan_of(bounds.cells(), metal, layers, rules);
    lemma_to_plan(args, opts, rules_path, text, dbu, rules, area, bounds, metal, layers);
    let start = started(args);
    let r = told(text, dbu, area);
    let a = inquiries(opts, rules_path);
    let design = ReplyView::Design(metal, layers);
    let done = ReplyView::Done;
    if opts.dry_run {
        let (r1, a1) = (r.push(design), a.push(ActionView::ReadDesign));
        let announce = ActionView::Announce(announced(plan, false));
        let deliver = delivery(opts, report_text(true, plan, None) + "\n"@);
        lemma_dry_end(start, r1, a1, opts, plan);
        assert(r1.push(done).push(done) =~= r + seq![design] + all_done(2));
        assert(a1.push(announce).push(deliver) =~= a + seq![ActionView::ReadDesign] + seq![
            announce,
            deliver,
        ]);
    } else {
        let n = plan.planned.len();
        let r1 = r.push(done).push(design);
        let a1 = a.push(ActionView::ClearFills).push(ActionView::ReadDesign);
        lemma_creates(start, r1, a1, opts, plan, n);
        assert(creations(plan).take(n as int) =~= creations(plan));
        let (r2, a2) = (r1 + all_done(n), a1 + creations(plan));
        let def = match opts.value("out-def"@) {
            Some(d) => seq![ActionView::WriteDef(d)],
            None => Seq::empty(),
        };
        lemma_end(start, r2, a2, opts, plan);
        assert(r2 =~= r + all_done(1) + seq![design] + all_done(n));
        assert(a2 =~= a + seq![ActionView::ClearFills] + seq![ActionView::ReadDesign] + creations(
            plan,
        ));
    }
}

/// How a dry run ends.
proof fn lemma_dry_end(
    start: RunView,
    r: Seq<ReplyView>,
    a: Seq<ActionView>,
    opts: OptsView,
    plan: PlanView,
)
    requires
        opts.dry_run,
        runs(start, r, a, RunView::Announcing { opts, plan }),
    ensures
        runs(
            start,
            r.push(ReplyView::Done).push(ReplyView::Done),
            a.push(ActionView::Announce(announced(plan, false))).push(
                delivery(opts, report_text(true, plan, None) + "\n"@),
            ),
            RunView::Finished { status: 0, message: None },
        ),
{
    let done = ReplyView::Done;
    let announcing = RunView::Announcing { opts, plan };
    lemma_goes_on(start, r, a, announcing, done);
    lemma_goes_on(
        start,
        r.push(done),
        a.push(action_of(announcing)),
        RunView::Reporting { opts, plan },
        done,
    );
}

/// How a run ends that is no dry run.
proof fn lemma_end(
    start: RunView,
    r: Seq<ReplyView>,
    a: Seq<ActionView>,
    opts: OptsView,
    plan: PlanView,
)
    requires
        !opts.dry_run,
        runs(start, r, a, RunView::Announcing { opts, plan }),
    ensures
        ({
            let def = match opts.value("out-def"@) {
                Some(d) => seq![ActionView::WriteDef(d)],
                None => Seq::empty(),
            };
            runs(
                start,
                r + all_done(3 + def.len()),
                a + seq![
                    ActionView::Announce(announced(plan, true)),
                    ActionView::WriteDatabase(destination(opts)),
                ] + def + seq![
                    delivery(opts, report_text(false, plan, Some(destination(opts))) + "\n"@),
                ],
                RunView::Finished { status: 0, message: None },
            )
        }),
{
    let done = ReplyView::Done;
    let announcing = RunView::Announcing { opts, plan };
    let writing = RunView::Writing { opts, plan };
    let reporting = RunView::Reporting { opts, plan };
    let announce = ActionView::Announce(announced(plan, true));
    let write = ActionView::WriteDatabase(destination(opts));
    let deliver = delivery(opts, report_text(false, plan, Some(destination(opts))) + "\n"@);
    lemma_goes_on(start, r, a, announcing, done);
    let (r1, a1) = (r.push(done), a.push(announce));
    lemma_goes_on(start, r1, a1, writing, done);
    let (r2, a2) = (r1.push(done), a1.push(write));
    match opts.value("out-def"@) {
        Some(def) => {
            let writing_def = RunView::WritingDef { opts, plan, def };
            lemma_goes_on(start, r2, a2, writing_def, done);
            let (r3, a3) = (r2.push(done), a2.push(ActionView::WriteDef(def)));
            lemma_goes_on(start, r3, a3, reporting, done);
            assert(r3.push(done) =~= r + all_done(4));
            assert(a3.push(deliver) =~= a + seq![announce, write] + seq![ActionView::WriteDef(def)]
                + seq![deliver]);
        },
        None => {
            lemma_goes_on(start, r2, a2, reporting, done);
            assert(r2.push(done) =~= r + all_done(3));
            assert(a2.push(deliver) =~= a + seq![announce, write] + Seq::<ActionView>::empty() + seq![
                deliver,
            ]);
        },
    }
}

/// Whether a run is over with status 2 and this message.
pub open spec fn in_error(run: RunView, message: Seq<char>) -> bool {
    run == (RunView::Finished { status: 2, message: Some(message) })
}

/// What a run says where an action fails: which action it was, on which file or layer, and why.
pub proof fn law_failure_is_told(run: RunView, reason: Seq<char>)
    requires
        answers(run, ReplyView::Failed(reason)),
    ensures
        ({
            let end = next(run, ReplyView::Failed(reason));
            match action_of(run) {
                ActionView::ReadRules(p) => in_error(end, "cannot read "@ + p + ": "@ + reason),
                ActionView::OpenDatabase(p) => in_error(end, "cannot read "@ + p + ": "@ + reason),
                ActionView::ClearFills => in_error(end, "cannot clear existing fill: "@ + reason),
                ActionView::CreateFill(l, _) => in_error(
                    end,
                    "cannot create fill on "@ + l + ": "@ + reason,
                ),
                ActionView::WriteDatabase(p) => in_error(
                    end,
                    "cannot write "@ + p + ": "@ + reason,
                ),
                ActionView::WriteDef(p) => in_error(end, "cannot write "@ + p + ": "@ + reason),
                ActionView::WriteReport(p, _) => in_error(
                    end,
                    "cannot write "@ + p + ": "@ + reason,
                ),
                ActionView::PrintReport(_) => in_error(
                    end,
                    "cannot write "@ + "the report"@ + ": "@ + reason,
                ),
                _ => false,
            }
        }),
{
}

/// What a run refuses: a command line that is none, with the usage; one without rules; a database
/// without a scale; rules that cannot be read at that scale, by the name of their file; an area that
/// is no four numbers; and one that is empty, whether the options state it or it is the core.
pub proof fn law_refusals(
    args: Seq<Seq<char>>,
    opts: OptsView,
    rules_path: Seq<char>,
    text: Seq<char>,
    dbu: i32,
    rules: Map<Seq<char>, LayerView>,
    numbers: Seq<u64>,
    core: Rect,
)
    ensures
        options_in(args) matches Err(e) ==> in_error(started(args), e + "\n\n"@ + USAGE@),
        options_in(args) matches Ok(o) ==> if o.value("rules"@) is None {
            in_error(started(args), "`density-fill` needs --rules FILE"@ + "\n\n"@ + USAGE@)
        } else {
            started(args) == (RunView::ReadingRules { opts: o, rules_path: o.value("rules"@)->0 })
        },
        ({
            let opened = next(
                RunView::Opening { opts, rules_path, text },
                ReplyView::Scale(dbu),
            );
            &&& dbu <= 0 ==> in_error(opened, "no DBU scale"@)
            &&& dbu > 0 && rules_text(text, dbu) is Err ==> in_error(
                opened,
                rules_path + ": "@ + rules_text(text, dbu)->Err_0,
            )
            &&& dbu > 0 && rules_text(text, dbu) is Ok ==> opened == (RunView::AskingArea {
                opts,
                rules: rules_text(text, dbu)->Ok_0,
                dbu,
            })
        }),
        opts.value("area"@) is Some && numbers.len() != 4 ==> in_error(
            next(RunView::AskingArea { opts, rules, dbu }, ReplyView::Numbers(numbers)),
            "--area wants 'lx ly ux uy' in microns, got `"@ + opts.value("area"@)->0 + "`"@,
        ),
        numbers.len() == 4 && area_of(numbers, dbu)->0.empty() ==> next(
            RunView::AskingArea { opts, rules, dbu },
            ReplyView::Numbers(numbers),
        ) == (RunView::Finished {
            status: 1,
            message: Some("the fill area is empty; nothing to fill"@),
        }),
        core.x0 >= core.x1 || core.y0 >= core.y1 ==> next(
            RunView::AskingArea { opts, rules, dbu },
            ReplyView::Core(core),
        ) == (RunView::Finished {
            status: 1,
            message: Some("the fill area is empty; nothing to fill"@),
        }),
{
}

} // verus!
