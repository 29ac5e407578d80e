//! What holds of every run.

use vstd::prelude::*;

use crate::area::area_of;
use crate::config::LayerView;
use crate::design::{is_first_lacking, lacking, LayerInfoView, Metal, PlanView};
use crate::design_laws::law_lacking_layer_is_found;
use crate::fill::Fill;
use crate::geometry::Rect;
use crate::json::{parsed_json, Doc};
use crate::options::{options_in, OptsView};
use crate::rules::{field, rules_text};
use crate::rules_laws::lemma_rules_finite;
use crate::run::{
    action_of, answers, next, started, stopped, within, ActionView, ReplyView, RunView,
};

verus! {

/// Where a run stands after the replies.
pub open spec fn after(run: RunView, replies: Seq<ReplyView>) -> RunView
    decreases replies.len(),
{
    if replies.len() == 0 {
        run
    } else {
        next(after(run, replies.drop_last()), replies.last())
    }
}

/// Whether each reply is one to what the run asked for at that point.
pub open spec fn answered(run: RunView, replies: Seq<ReplyView>) -> bool
    decreases replies.len(),
{
    replies.len() > 0 ==> answered(run, replies.drop_last()) && answers(
        after(run, replies.drop_last()),
        replies.last(),
    )
}

/// The fills in the database after an action that went as the reply says.
pub open spec fn performed(
    fills: Seq<(Seq<char>, Fill)>,
    action: ActionView,
    reply: ReplyView,
) -> Seq<(Seq<char>, Fill)> {
    match (action, reply) {
        (ActionView::ClearFills, ReplyView::Done) => Seq::empty(),
        (ActionView::CreateFill(layer, fill), ReplyView::Done) => fills.push((layer, fill)),
        _ => fills,
    }
}

/// The fills in the database after the replies, where `fills` were there before.
pub open spec fn database(
    run: RunView,
    replies: Seq<ReplyView>,
    fills: Seq<(Seq<char>, Fill)>,
) -> Seq<(Seq<char>, Fill)>
    decreases replies.len(),
{
    if replies.len() == 0 {
        fills
    } else {
        performed(
            database(run, replies.drop_last(), fills),
            action_of(after(run, replies.drop_last())),
            replies.last(),
        )
    }
}

/// The options of a run that is not over.
pub open spec fn opts_of(run: RunView) -> Option<OptsView> {
    match run {
        RunView::ReadingRules { opts, .. } => Some(opts),
        RunView::Opening { opts, .. } => Some(opts),
        RunView::AskingArea { opts, .. } => Some(opts),
        RunView::Clearing { opts, .. } => Some(opts),
        RunView::ReadingDesign { opts, .. } => Some(opts),
        RunView::Creating { opts, .. } => Some(opts),
        RunView::Announcing { opts, .. } => Some(opts),
        RunView::Writing { opts, .. } => Some(opts),
        RunView::WritingDef { opts, .. } => Some(opts),
        RunView::Reporting { opts, .. } => Some(opts),
        RunView::Finished { .. } => None,
    }
}

/// The fills that a run has planned and created.
pub open spec fn created_by(run: RunView) -> Option<Seq<(Seq<char>, Fill)>> {
    match run {
        RunView::ReadingDesign { .. } => Some(Seq::empty()),
        RunView::Creating { plan, next, .. } => Some(plan.planned.take(next as int)),
        RunView::Announcing { plan, .. } => Some(plan.planned),
        RunView::Writing { plan, .. } => Some(plan.planned),
        RunView::WritingDef { plan, .. } => Some(plan.planned),
        RunView::Reporting { plan, .. } => Some(plan.planned),
        _ => None,
    }
}

/// Whether the database stands as the run does: untouched in a dry run and before anything is
/// cleared; after that, with exactly the fills that the run created.
pub open spec fn in_step(
    run: RunView,
    before: Seq<(Seq<char>, Fill)>,
    now: Seq<(Seq<char>, Fill)>,
) -> bool {
    match (opts_of(run), created_by(run)) {
        (Some(opts), Some(created)) => if opts.dry_run {
            now == before
        } else {
            now == created
        },
        (Some(opts), None) => now == before,
        (None, _) => true,
    }
}

/// Whether the run stands where one with its options can.
pub open spec fn possible(run: RunView) -> bool {
    match run {
        RunView::Clearing { opts, .. } => !opts.dry_run,
        RunView::Creating { opts, plan, next } => !opts.dry_run && next < plan.planned.len(),
        RunView::Writing { opts, .. } => !opts.dry_run,
        RunView::WritingDef { opts, .. } => !opts.dry_run,
        _ => true,
    }
}

/// A step keeps the options, and the run possible and in step with the database.
proof fn lemma_step(
    run: RunView,
    reply: ReplyView,
    before: Seq<(Seq<char>, Fill)>,
    now: Seq<(Seq<char>, Fill)>,
)
    requires
        answers(run, reply),
        possible(run),
        in_step(run, before, now),
    ensures
        possible(next(run, reply)),
        in_step(next(run, reply), before, performed(now, action_of(run), reply)),
        opts_of(next(run, reply)) is Some ==> opts_of(next(run, reply)) == opts_of(run),
{
    match run {
        RunView::Creating { opts, plan, next: n } => {
            assert(plan.planned.take(n as int + 1) =~= plan.planned.take(n as int).push(
                plan.planned[n as int],
            ));
            if n + 1 >= plan.planned.len() {
                assert(plan.planned.take(n as int + 1) =~= plan.planned);
            }
        },
        RunView::ReadingDesign { opts, rules, bounds } => {
            if let RunView::Creating { plan, .. } = next(run, reply) {
                assert(plan.planned.take(0) =~= Seq::empty());
            }
            if let RunView::Announcing { plan, .. } = next(run, reply) {
                if !opts.dry_run {
                    assert(plan.planned =~= Seq::empty());
                }
            }
        },
        _ => {},
    }
}

/// A run stays possible and in step with the database, and keeps its options.
proof fn lemma_run(
    args: Seq<Seq<char>>,
    replies: Seq<ReplyView>,
    fills: Seq<(Seq<char>, Fill)>,
)
    requires
        answered(started(args), replies),
    ensures
        possible(after(started(args), replies)),
        in_step(after(started(args), replies), fills, database(started(args), replies, fills)),
        opts_of(after(started(args), replies)) matches Some(o) ==> options_in(args) == Ok::<
            OptsView,
            Seq<char>,
        >(o),
    decreases replies.len(),
{
    if replies.len() > 0 {
        let rest = replies.drop_last();
        lemma_run(args, rest, fills);
        lemma_step(
            after(started(args), rest),
            replies.last(),
            fills,
            database(started(args), rest, fills),
        );
    }
}

/// Whether the action touches the design or writes it.
pub open spec fn changes(action: ActionView) -> bool {
    action is ClearFills || action is CreateFill || action is WriteDatabase || action is WriteDef
}

/// A dry run writes nothing: it never asks to clear, create or write, and leaves the fills of the
/// database as they were.
pub proof fn law_dry_run_writes_nothing(
    args: Seq<Seq<char>>,
    replies: Seq<ReplyView>,
    fills: Seq<(Seq<char>, Fill)>,
)
    requires
        options_in(args) is Ok,
        options_in(args)->Ok_0.dry_run,
        answered(started(args), replies),
    ensures
        !changes(action_of(after(started(args), replies))),
        database(started(args), replies, fills) == fills,
    decreases replies.len(),
{
    lemma_run(args, replies, fills);
    if replies.len() > 0 {
        law_dry_run_writes_nothing(args, replies.drop_last(), fills);
    }
}

/// The run has placed its fill: all that is left is to announce, write or report it.
pub open spec fn placed(run: RunView) -> bool {
    run is Announcing || run is Writing || run is WritingDef || run is Reporting
}

/// Fill is regenerated wholesale, never patched: whatever fills were there before, once a run has
/// placed its own these are the fills of the database, and no others.
pub proof fn law_regenerated_wholesale(
    args: Seq<Seq<char>>,
    replies: Seq<ReplyView>,
    fills: Seq<(Seq<char>, Fill)>,
)
    requires
        answered(started(args), replies),
        placed(after(started(args), replies)),
        !opts_of(after(started(args), replies))->0.dry_run,
    ensures
        created_by(after(started(args), replies)) == Some(
            database(started(args), replies, fills),
        ),
{
    lemma_run(args, replies, fills);
}

/// Running again gives the same fills, not more: what a run leaves does not depend on the fills
/// that it found.
pub proof fn law_rerun_is_idempotent(
    args: Seq<Seq<char>>,
    replies: Seq<ReplyView>,
    fills: Seq<(Seq<char>, Fill)>,
)
    requires
        answered(started(args), replies),
        placed(after(started(args), replies)),
    ensures
        ({
            let once = database(started(args), replies, fills);
            database(started(args), replies, once) == once
        }),
{
    let once = database(started(args), replies, fills);
    lemma_run(args, replies, fills);
    lemma_run(args, replies, once);
}

/// Whether the run asked for the database to be written, and it was.
pub open spec fn wrote(run: RunView, replies: Seq<ReplyView>) -> bool
    decreases replies.len(),
{
    replies.len() > 0 && (wrote(run, replies.drop_last()) || (after(
        run,
        replies.drop_last(),
    ) is Writing && replies.last() is Done))
}

/// A run that reports has written the database first, unless it is a dry run.
pub proof fn law_written_before_reported(args: Seq<Seq<char>>, replies: Seq<ReplyView>)
    requires
        answered(started(args), replies),
        after(started(args), replies) is Reporting || after(started(args), replies) is WritingDef,
        !opts_of(after(started(args), replies))->0.dry_run,
    ensures
        wrote(started(args), replies),
    decreases replies.len(),
{
    if replies.len() > 0 {
        let rest = replies.drop_last();
        let run = after(started(args), rest);
        lemma_run(args, replies, Seq::empty());
        lemma_run(args, rest, Seq::empty());
        if run is WritingDef {
            law_written_before_reported(args, rest);
        }
    }
}

/// The fill area that a run was told of.
pub open spec fn told_area(run: RunView, reply: ReplyView) -> Option<Rect> {
    match (run, reply) {
        (RunView::AskingArea { dbu, .. }, ReplyView::Numbers(n)) => area_of(n, dbu),
        (RunView::AskingArea { .. }, ReplyView::Core(r)) => Some(r),
        _ => None,
    }
}

/// The exit status says how a run ended: 0 that its report was delivered, 1 that the fill area is
/// empty, 2 anything else. There is a message unless it is 0.
pub proof fn law_exit_status(args: Seq<Seq<char>>, replies: Seq<ReplyView>)
    requires
        answered(started(args), replies),
        after(started(args), replies) is Finished,
    ensures
        ({
            let end = after(started(args), replies);
            let last = after(started(args), replies.drop_last());
            let status = end->Finished_status;
            &&& status == 0 <==> replies.len() > 0 && last is Reporting && replies.last() is Done
            &&& status == 1 <==> replies.len() > 0 && (told_area(last, replies.last()) matches Some(
                r,
            ) && r.empty())
            &&& status == 0 || status == 1 || status == 2
            &&& end->Finished_message is None <==> status == 0
        }),
{
}

/// Whatever fails, the run is over with status 2.
pub proof fn law_failure_ends_the_run(run: RunView, reason: Seq<char>)
    requires
        answers(run, ReplyView::Failed(reason)),
    ensures
        next(run, ReplyView::Failed(reason)) matches RunView::Finished { status, message }
            && status == 2 && message is Some,
{
}

/// The rules that a run holds.
pub open spec fn rules_held(run: RunView) -> Option<Map<Seq<char>, LayerView>> {
    match run {
        RunView::AskingArea { rules, .. } => Some(rules),
        RunView::Clearing { rules, .. } => Some(rules),
        RunView::ReadingDesign { rules, .. } => Some(rules),
        _ => None,
    }
}

/// A run holds rules for finitely many layers.
proof fn lemma_rules_held(args: Seq<Seq<char>>, replies: Seq<ReplyView>)
    requires
        answered(started(args), replies),
    ensures
        rules_held(after(started(args), replies)) matches Some(rules) ==> rules.dom().finite(),
    decreases replies.len(),
{
    if replies.len() > 0 {
        let rest = replies.drop_last();
        lemma_rules_held(args, rest);
        if let RunView::Opening { text, .. } = after(started(args), rest) {
            if let ReplyView::Scale(dbu) = replies.last() {
                if let Ok(doc) = parsed_json(text) {
                    if let Some(Doc::Object(entries)) = field(doc, "layers"@) {
                        lemma_rules_finite(entries, dbu);
                    }
                }
            }
        }
    }
}

/// A rule naming a layer that the technology lacks is reported: the run is over with status 2 and a
/// message that names the first such layer, and nothing was created or written.
pub proof fn law_unknown_layer_is_reported(
    args: Seq<Seq<char>>,
    replies: Seq<ReplyView>,
    metal: Seq<Metal>,
    layers: Seq<LayerInfoView>,
    name: Seq<char>,
)
    requires
        answered(started(args), replies),
        after(started(args), replies) is ReadingDesign,
        lacking(layers, after(started(args), replies)->ReadingDesign_rules, name),
    ensures
        ({
            let rules = after(started(args), replies)->ReadingDesign_rules;
            exists|n: Seq<char>| #[trigger]
                is_first_lacking(layers, rules, n) && next(
                    after(started(args), replies),
                    ReplyView::Design(metal, layers),
                ) == stopped(2, "the rules name layer "@ + n + ", which the technology lacks"@)
        }),
        !wrote(started(args), replies),
        forall|i: int|
            0 <= i <= replies.len() ==> !(action_of(
                after(started(args), #[trigger] replies.take(i)),
            ) is CreateFill),
{
    let rules = after(started(args), replies)->ReadingDesign_rules;
    lemma_rules_held(args, replies);
    law_lacking_layer_is_found(layers, rules);
    lemma_nothing_placed(args, replies);
}

/// How far a run has come.
pub open spec fn stage(run: RunView) -> int {
    match run {
        RunView::ReadingRules { .. } => 0,
        RunView::Opening { .. } => 1,
        RunView::AskingArea { .. } => 2,
        RunView::Clearing { .. } => 3,
        RunView::ReadingDesign { .. } => 4,
        RunView::Creating { .. } => 5,
        RunView::Announcing { .. } => 6,
        RunView::Writing { .. } => 7,
        RunView::WritingDef { .. } => 8,
        RunView::Reporting { .. } => 9,
        RunView::Finished { .. } => 10,
    }
}

/// A run that has yet to read the design has created and written nothing.
proof fn lemma_nothing_placed(args: Seq<Seq<char>>, replies: Seq<ReplyView>)
    requires
        answered(started(args), replies),
        stage(after(started(args), replies)) <= 4,
    ensures
        !wrote(started(args), replies),
        forall|i: int|
            0 <= i <= replies.len() ==> !(action_of(
                after(started(args), #[trigger] replies.take(i)),
            ) is CreateFill),
    decreases replies.len(),
{
    assert(replies.take(replies.len() as int) =~= replies);
    if replies.len() > 0 {
        let rest = replies.drop_last();
        lemma_nothing_placed(args, rest);
        assert forall|i: int| 0 <= i <= replies.len() implies !(action_of(
            after(started(args), #[trigger] replies.take(i)),
        ) is CreateFill) by {
            if i < replies.len() {
                assert(replies.take(i) =~= rest.take(i));
            }
        }
    }
}

/// The plan that a run holds.
pub open spec fn plan_held(run: RunView) -> Option<PlanView> {
    match run {
        RunView::Creating { plan, .. } => Some(plan),
        RunView::Announcing { plan, .. } => Some(plan),
        RunView::Writing { plan, .. } => Some(plan),
        RunView::WritingDef { plan, .. } => Some(plan),
        RunView::Reporting { plan, .. } => Some(plan),
        _ => None,
    }
}

/// A run keeps its plan until it is over.
pub proof fn law_plan_is_kept(run: RunView, replies: Seq<ReplyView>)
    requires
        plan_held(run) is Some,
        answered(run, replies),
    ensures
        after(run, replies) is Finished || plan_held(after(run, replies)) == plan_held(run),
    decreases replies.len(),
{
    if replies.len() > 0 {
        law_plan_is_kept(run, replies.drop_last());
    }
}

/// The replies that bring a run to its plan.
pub open spec fn asked(
    text: Seq<char>,
    dbu: i32,
    area: ReplyView,
    cleared: Seq<ReplyView>,
    metal: Seq<Metal>,
    layers: Seq<LayerInfoView>,
) -> Seq<ReplyView> {
    seq![ReplyView::Text(text), ReplyView::Scale(dbu), area] + cleared + seq![
        ReplyView::Design(metal, layers),
    ]
}

/// One reply more.
proof fn lemma_one_more(run: RunView, replies: Seq<ReplyView>, reply: ReplyView)
    ensures
        after(run, replies.push(reply)) == next(after(run, replies), reply),
        answered(run, replies.push(reply)) <==> answered(run, replies) && answers(
            after(run, replies),
            reply,
        ),
{
    assert(replies.push(reply).drop_last() =~= replies);
}

/// Where a run stands when it has been told of the fill area.
proof fn lemma_told(
    args: Seq<Seq<char>>,
    opts: OptsView,
    text: Seq<char>,
    dbu: i32,
    area: ReplyView,
)
    requires
        options_in(args) == Ok::<OptsView, Seq<char>>(opts),
        answered(started(args), seq![ReplyView::Text(text), ReplyView::Scale(dbu), area]),
    ensures
        ({
            let run = after(
                started(args),
                seq![ReplyView::Text(text), ReplyView::Scale(dbu), area],
            );
            let rules = rules_text(text, dbu)->Ok_0;
            let bounds = match area {
                ReplyView::Numbers(n) => area_of(n, dbu)->0,
                ReplyView::Core(r) => r,
                _ => arbitrary(),
            };
            run is Finished || run == within(opts, rules, bounds)
        }),
{
    let none = Seq::<ReplyView>::empty();
    let one = none.push(ReplyView::Text(text));
    let two = one.push(ReplyView::Scale(dbu));
    lemma_one_more(started(args), none, ReplyView::Text(text));
    lemma_one_more(started(args), one, ReplyView::Scale(dbu));
    lemma_one_more(started(args), two, area);
    assert(two.push(area) =~= seq![ReplyView::Text(text), ReplyView::Scale(dbu), area]);
}

/// A dry run tells what the run itself does: on the same rules file, scale, fill area and design, the
/// two hold the same plan, or end with the same message.
pub proof fn law_dry_run_plans_the_same(
    dry: Seq<Seq<char>>,
    args: Seq<Seq<char>>,
    text: Seq<char>,
    dbu: i32,
    area: ReplyView,
    metal: Seq<Metal>,
    layers: Seq<LayerInfoView>,
)
    requires
        options_in(dry) is Ok && options_in(dry)->Ok_0.dry_run,
        options_in(args) is Ok && !options_in(args)->Ok_0.dry_run,
        answered(started(dry), asked(text, dbu, area, seq![], metal, layers)),
        answered(started(args), asked(text, dbu, area, seq![ReplyView::Done], metal, layers)),
    ensures
        ({
            let a = after(started(dry), asked(text, dbu, area, seq![], metal, layers));
            let b = after(
                started(args),
                asked(text, dbu, area, seq![ReplyView::Done], metal, layers),
            );
            &&& plan_held(a) == plan_held(b)
            &&& plan_held(a) is None ==> a == b && a is Finished
        }),
{
    let told = seq![ReplyView::Text(text), ReplyView::Scale(dbu), area];
    let cleared = told.push(ReplyView::Done);
    let design = ReplyView::Design(metal, layers);
    assert(asked(text, dbu, area, seq![], metal, layers) =~= told.push(design));
    assert(asked(text, dbu, area, seq![ReplyView::Done], metal, layers) =~= cleared.push(design));
    lemma_one_more(started(dry), told, design);
    lemma_one_more(started(args), told, ReplyView::Done);
    lemma_one_more(started(args), cleared, design);
    lemma_told(dry, options_in(dry)->Ok_0, text, dbu, area);
    lemma_told(args, options_in(args)->Ok_0, text, dbu, area);
}

} // verus!
