//! What holds of what is shown: plans and summaries tell what there is and what has
//! happened, to people and to programs.
use vstd::prelude::*;

use crate::graph::{
    declares, description, error_message, first_at, kind_cost, lemma_first_at, Cost, KindModel,
    NodeModel, When,
};
use crate::json::JsonModel;
use crate::order::{graph_error, order_error, unique_ids};
use crate::preflight::{holds, stands_at};
use crate::render::{
    active, finish_note, longer_first, outcome_json, padded, plan_entries, plan_entry, plan_page,
    node_json, plan_value, plan_wave, plan_waves, profile_page, profile_rows, ran_at, skip_note,
    start_note, summary_page, summary_value, tally, when_shown,
};
use crate::run::{Run, StateModel};
use crate::scheduler::{law_report_tells_what_happened, report_of, OutcomeModel, ReportModel};
use crate::text::{ascending, decimal, inserted, joined, law_ascending_permutes};
use crate::waves::{law_waves_hold_every_node, shown_in, shows, waves_of};

verus! {

/// Whether an object has a field of this name with this value, and no second one of
/// the name.
pub open spec fn has_field(v: JsonModel, name: Seq<char>, value: JsonModel) -> bool {
    v matches JsonModel::Obj(fields) && exists|k: int|
        {
            &&& 0 <= k < fields.len()
            &&& #[trigger] fields[k] == (name, value)
            &&& forall|j: int| 0 <= j < fields.len() && j != k ==> (#[trigger] fields[j]).0 != name
        }
}

/// Whether a value is the array of these texts.
pub open spec fn lists(v: JsonModel, texts: Seq<Seq<char>>) -> bool {
    v matches JsonModel::Arr(items) && items.len() == texts.len() && forall|k: int|
        0 <= k < items.len() ==> #[trigger] items[k] == JsonModel::Str(texts[k])
}

/// Whether an object tells of an outcome: its id, its state and its time in whole
/// milliseconds.
pub open spec fn tells_outcome(v: JsonModel, o: OutcomeModel) -> bool {
    &&& has_field(v, "id"@, JsonModel::Str(o.id))
    &&& o.state is Done ==> has_field(v, "state"@, JsonModel::Str("done"@))
    &&& o.state is Skipped ==> has_field(v, "state"@, JsonModel::Str("skipped"@))
    &&& o.state is Cancelled ==> has_field(v, "state"@, JsonModel::Str("cancelled"@))
    &&& o.state matches StateModel::Failed(m) ==> has_field(v, "state"@, JsonModel::Str("failed: "@ + m))
    &&& forall|ms: u128|
        ms * 1_000_000 <= o.duration < (ms + 1) * 1_000_000 ==> #[trigger] has_field(v, "ms"@, JsonModel::Num(ms))
}

proof fn lemma_outcome_told(o: OutcomeModel)
    ensures
        tells_outcome(outcome_json(o), o),
{
    reveal_strlit("id");
    reveal_strlit("state");
    reveal_strlit("ms");
    assert("id"@[0] == 'i' && "ms"@[0] == 'm' && "state"@.len() == 5);
    let v = outcome_json(o);
    let f = v->Obj_0;
    assert(f[0].0 == "id"@ && f[1].0 == "state"@ && f[2].0 == "ms"@);
    assert(has_field(v, "id"@, f[0].1));
    assert(has_field(v, "state"@, f[1].1));
    assert(has_field(v, "ms"@, f[2].1));
    assert forall|ms: u128| ms * 1_000_000 <= o.duration < (ms + 1) * 1_000_000 implies #[trigger] has_field(
        v,
        "ms"@,
        JsonModel::Num(ms),
    ) by {
        assert(o.duration / 1_000_000 == ms);
    }
}

/// The summary for programs tells whether the run has failed, how long it took in whole
/// milliseconds, and of every outcome, in the order of the report.
pub proof fn law_summary_tells_programs(report: ReportModel, wall_ms: u128)
    requires
        wall_ms * 1_000_000 <= report.wall < (wall_ms + 1) * 1_000_000,
    ensures
        has_field(summary_value(report), "failed"@, JsonModel::Bool(report.failed)),
        !has_field(summary_value(report), "failed"@, JsonModel::Bool(!report.failed)),
        has_field(summary_value(report), "wall_ms"@, JsonModel::Num(wall_ms)),
        exists|items: Seq<JsonModel>|
            {
                &&& #[trigger] has_field(summary_value(report), "nodes"@, JsonModel::Arr(items))
                &&& items.len() == report.outcomes.len()
                &&& forall|i: int| 0 <= i < items.len() ==> tells_outcome(#[trigger] items[i], report.outcomes[i])
            },
{
    reveal_strlit("failed");
    reveal_strlit("wall_ms");
    reveal_strlit("nodes");
    assert("failed"@.len() == 6 && "wall_ms"@.len() == 7 && "nodes"@.len() == 5);
    let v = summary_value(report);
    let f = v->Obj_0;
    assert(f[0].0 == "failed"@ && f[1].0 == "wall_ms"@ && f[2].0 == "nodes"@);
    assert(report.wall / 1_000_000 == wall_ms);
    assert(has_field(v, "failed"@, f[0].1));
    assert(has_field(v, "wall_ms"@, f[1].1));
    let items = report.outcomes.map_values(|o: OutcomeModel| outcome_json(o));
    assert(f[2].1 == JsonModel::Arr(items));
    assert(has_field(v, "nodes"@, JsonModel::Arr(items)));
    assert forall|i: int| 0 <= i < items.len() implies tells_outcome(#[trigger] items[i], report.outcomes[i]) by {
        lemma_outcome_told(report.outcomes[i]);
    }
}

/// The summary of a run says that it has failed exactly where some node of the run has.
pub proof fn law_summary_of_a_run(run: Run, wall: u128, failed: bool)
    ensures
        has_field(summary_value(report_of(run, wall)), "failed"@, JsonModel::Bool(failed)) <==> (failed <==> exists|i: int|
            0 <= i < run.nodes.len() && (#[trigger] run.state[i] matches Some(s) && s is Failed)),
{
    law_report_tells_what_happened(run, wall);
    let report = report_of(run, wall);
    let ms = (report.wall / 1_000_000) as u128;
    law_summary_tells_programs(report, ms);
    if report.failed {
        let i = choose|i: int| 0 <= i < run.nodes.len() && (#[trigger] report.outcomes[i]).state is Failed;
        assert(run.state[i] matches Some(s) && s is Failed);
    }
    if exists|i: int| 0 <= i < run.nodes.len() && (#[trigger] run.state[i] matches Some(s) && s is Failed) {
        let i = choose|i: int| 0 <= i < run.nodes.len() && (#[trigger] run.state[i] matches Some(s) && s is Failed);
        assert(report.outcomes[i].state is Failed);
    }
    if failed != report.failed {
        assert(failed == !report.failed);
    }
}

/// The tallies of a summary count the outcomes of each kind.
pub proof fn law_tallies_count(outcomes: Seq<OutcomeModel>, kind: spec_fn(StateModel) -> bool)
    ensures
        tally(outcomes, kind) == outcomes.filter(|o: OutcomeModel| kind(o.state)).len(),
    decreases outcomes.len(),
{
    reveal(Seq::filter);
    if outcomes.len() > 0 {
        law_tallies_count(outcomes.drop_last(), kind);
    }
}

/// The last line of a summary for people says whether the run has failed, how long it
/// took, and how many nodes are done, skipped, failed and cancelled; with a profile,
/// the times stand before it.
pub proof fn law_summary_tells_people(report: ReportModel, wall: Seq<char>, spent: Seq<Seq<char>>)
    ensures
        ({
            let done = report.outcomes.filter(|o: OutcomeModel| o.state is Done).len();
            let skipped = report.outcomes.filter(|o: OutcomeModel| o.state is Skipped).len();
            let failed = report.outcomes.filter(|o: OutcomeModel| o.state is Failed).len();
            let cancelled = report.outcomes.filter(|o: OutcomeModel| o.state is Cancelled).len();
            let counts = " in "@ + wall + " — "@ + decimal(done) + " done, "@ + decimal(skipped) + " skipped, "@
                + decimal(failed) + " failed, "@ + decimal(cancelled) + " cancelled\n"@;
            &&& report.failed ==> summary_page(report, false, wall, spent) == "BUILD FAILED"@ + counts
            &&& !report.failed ==> summary_page(report, false, wall, spent) == "build ok"@ + counts
        }),
        summary_page(report, true, wall, spent) == profile_page(report.outcomes, spent) + summary_page(
            report,
            false,
            wall,
            spent,
        ),
{
    let outcomes = report.outcomes;
    let is_done = |s: StateModel| s is Done;
    let is_skipped = |s: StateModel| s is Skipped;
    let is_failed = |s: StateModel| s is Failed;
    let is_cancelled = |s: StateModel| s is Cancelled;
    law_tallies_count(outcomes, is_done);
    law_tallies_count(outcomes, is_skipped);
    law_tallies_count(outcomes, is_failed);
    law_tallies_count(outcomes, is_cancelled);
    assert((|o: OutcomeModel| is_done(o.state)) =~= (|o: OutcomeModel| o.state is Done));
    assert((|o: OutcomeModel| is_skipped(o.state)) =~= (|o: OutcomeModel| o.state is Skipped));
    assert((|o: OutcomeModel| is_failed(o.state)) =~= (|o: OutcomeModel| o.state is Failed));
    assert((|o: OutcomeModel| is_cancelled(o.state)) =~= (|o: OutcomeModel| o.state is Cancelled));
    reveal_strlit(" cancelled");
    reveal_strlit("\n");
    reveal_strlit(" cancelled\n");
    assert(" cancelled"@ + "\n"@ =~= " cancelled\n"@);
    let verdict = if report.failed {
        "BUILD FAILED"@
    } else {
        "build ok"@
    };
    let d = decimal(tally(outcomes, is_done));
    let s = decimal(tally(outcomes, is_skipped));
    let f = decimal(tally(outcomes, is_failed));
    let c = decimal(tally(outcomes, is_cancelled));
    let counts = " in "@ + wall + " — "@ + d + " done, "@ + s + " skipped, "@ + f + " failed, "@ + c + " cancelled\n"@;
    let plain = verdict + " in "@ + wall + " — "@ + d + " done, "@ + s + " skipped, "@ + f + " failed, "@ + c + " cancelled"@
        + "\n"@;
    let none = Seq::<char>::empty();
    lemma_line(none, verdict, " in "@, wall, " — "@, d, " done, "@, s, " skipped, "@, f, " failed, "@, c, " cancelled"@, "\n"@);
    lemma_line(
        profile_page(outcomes, spent),
        verdict,
        " in "@,
        wall,
        " — "@,
        d,
        " done, "@,
        s,
        " skipped, "@,
        f,
        " failed, "@,
        c,
        " cancelled"@,
        "\n"@,
    );
    assert(summary_page(report, false, wall, spent) == none + verdict + " in "@ + wall + " — "@ + d + " done, "@ + s
        + " skipped, "@ + f + " failed, "@ + c + " cancelled"@ + "\n"@);
    assert(none + (verdict + counts) =~= verdict + counts);
}

/// Joining text is associative, for the pieces of a summary line.
proof fn lemma_line(
    p: Seq<char>,
    v: Seq<char>,
    a: Seq<char>,
    b: Seq<char>,
    c: Seq<char>,
    d: Seq<char>,
    e: Seq<char>,
    f: Seq<char>,
    g: Seq<char>,
    h: Seq<char>,
    i: Seq<char>,
    j: Seq<char>,
    k: Seq<char>,
    l: Seq<char>,
)
    ensures
        p + v + a + b + c + d + e + f + g + h + i + j + k + l == p + (v + (a + b + c + d + e + f + g + h + i + j + (k + l))),
{
    assert(p + v + a + b + c + d + e + f + g + h + i + j + k + l =~= p + (v + (a + b + c + d + e + f + g + h + i + j + (k
        + l))));
}

/// A padded text is the text with spaces behind it, as wide as wanted, and never cut.
pub proof fn law_padding_only_adds(s: Seq<char>, width: nat)
    ensures
        padded(s, width).len() == if s.len() >= width {
            s.len()
        } else {
            width
        },
        padded(s, width).take(s.len() as int) == s,
        forall|k: int| s.len() <= k < padded(s, width).len() ==> #[trigger] padded(s, width)[k] == ' ',
{
    assert(padded(s, width).take(s.len() as int) =~= s);
}

proof fn lemma_ran_at(outcomes: Seq<OutcomeModel>, n: int)
    requires
        0 <= n <= outcomes.len(),
    ensures
        forall|i: int| #[trigger]
            ran_at(outcomes, n).contains(i) <==> 0 <= i < n && (outcomes[i].state is Done || outcomes[i].state is Failed),
        ran_at(outcomes, n).no_duplicates(),
    decreases n,
{
    if n > 0 {
        lemma_ran_at(outcomes, n - 1);
        let f = ran_at(outcomes, n - 1);
        let all = ran_at(outcomes, n);
        assert forall|i: int| #[trigger]
            all.contains(i) <==> 0 <= i < n && (outcomes[i].state is Done || outcomes[i].state is Failed) by {
            if all.contains(i) {
                let k = all.index_of(i);
                if k < f.len() {
                    assert(f[k] == i);
                    assert(f.contains(i));
                }
            }
            if 0 <= i < n - 1 && f.contains(i) {
                assert(all[f.index_of(i)] == i);
            }
            if i == n - 1 && all.len() > f.len() {
                assert(all[f.len() as int] == i);
            }
        }
        assert forall|a: int, b: int| 0 <= a < all.len() && 0 <= b < all.len() && a != b implies all[a] != all[b] by {
            if a < f.len() {
                assert(f.contains(f[a]));
            }
            if b < f.len() {
                assert(f.contains(f[b]));
            }
        }
    }
}

/// A profile has one row for every node that ran, and for no other.
pub proof fn law_profile_lists_what_ran(outcomes: Seq<OutcomeModel>)
    ensures
        ({
            let rows = ascending(ran_at(outcomes, outcomes.len() as int), longer_first(outcomes));
            &&& rows.no_duplicates()
            &&& forall|i: int| #[trigger]
                rows.contains(i) <==> 0 <= i < outcomes.len() && (outcomes[i].state is Done || outcomes[i].state is Failed)
        }),
{
    broadcast use vstd::seq_lib::group_to_multiset_ensures;

    let s = ran_at(outcomes, outcomes.len() as int);
    let rows = ascending(s, longer_first(outcomes));
    lemma_ran_at(outcomes, outcomes.len() as int);
    law_ascending_permutes(s, longer_first(outcomes));
    s.lemma_multiset_has_no_duplicates();
    rows.lemma_multiset_has_no_duplicates_conv();
    assert forall|i: int| #[trigger] rows.contains(i) <==> s.contains(i) by {
        assert(rows.contains(i) <==> rows.to_multiset().count(i) > 0);
        assert(s.contains(i) <==> s.to_multiset().count(i) > 0);
    }
}

/// Text stands in whatever is built around it.
proof fn lemma_holds_middle(a: Seq<char>, x: Seq<char>, b: Seq<char>)
    ensures
        holds(a + x + b, x),
{
    let s = a + x + b;
    assert(s.subrange(a.len() as int, a.len() as int + x.len()) =~= x);
    assert(stands_at(s, x, a.len() as int));
}

/// What stands in a part stands in the whole.
proof fn lemma_holds_in(s: Seq<char>, t: Seq<char>, u: Seq<char>)
    requires
        holds(s, t),
        holds(t, u),
    ensures
        holds(s, u),
{
    let i = choose|i: int| stands_at(s, t, i);
    let j = choose|j: int| stands_at(t, u, j);
    assert(s.subrange(i + j, i + j + u.len()) =~= t.subrange(j, j + u.len()));
    assert(stands_at(s, u, i + j));
}

proof fn lemma_row_shown(outcomes: Seq<OutcomeModel>, spent: Seq<Seq<char>>, rows: Seq<int>, n: int, k: int)
    requires
        0 <= k < n <= rows.len(),
    ensures
        holds(
            profile_rows(outcomes, spent, rows, n),
            "  "@ + padded(outcomes[rows[k]].id, 20) + " "@ + spent[rows[k]] + "\n"@,
        ),
    decreases n,
{
    let row = "  "@ + padded(outcomes[rows[k]].id, 20) + " "@ + spent[rows[k]] + "\n"@;
    let front = profile_rows(outcomes, spent, rows, n - 1);
    let all = profile_rows(outcomes, spent, rows, n);
    let none = Seq::<char>::empty();
    if k == n - 1 {
        assert(all =~= front + row + none);
        lemma_holds_middle(front, row, none);
    } else {
        lemma_row_shown(outcomes, spent, rows, n - 1, k);
        let last = "  "@ + padded(outcomes[rows[n - 1]].id, 20) + " "@ + spent[rows[n - 1]] + "\n"@;
        assert(all =~= none + front + last);
        lemma_holds_middle(none, front, last);
        lemma_holds_in(all, front, row);
    }
}

/// A profile shows each node that ran in a row of its own, with the time that it took.
pub proof fn law_profile_shows_times(outcomes: Seq<OutcomeModel>, spent: Seq<Seq<char>>, i: int)
    requires
        0 <= i < outcomes.len(),
        outcomes[i].state is Done || outcomes[i].state is Failed,
    ensures
        holds(profile_page(outcomes, spent), "  "@ + padded(outcomes[i].id, 20) + " "@ + spent[i] + "\n"@),
        holds(profile_page(outcomes, spent), "per-node timings:\n"@),
{
    let rows = ascending(ran_at(outcomes, outcomes.len() as int), longer_first(outcomes));
    law_profile_lists_what_ran(outcomes);
    assert(rows.contains(i));
    let k = rows.index_of(i);
    let n = rows.len() as int;
    lemma_row_shown(outcomes, spent, rows, n, k);
    let body = profile_rows(outcomes, spent, rows, n);
    lemma_holds_middle("per-node timings:\n"@, body, "\n"@);
    lemma_holds_in(profile_page(outcomes, spent), body, "  "@ + padded(outcomes[i].id, 20) + " "@ + spent[i] + "\n"@);
    let none = Seq::<char>::empty();
    lemma_holds_middle(none, "per-node timings:\n"@, body + "\n"@);
    assert(none + "per-node timings:\n"@ + (body + "\n"@) =~= profile_page(outcomes, spent));
}

/// The nodes that run are counted.
pub proof fn law_active_nodes_are_counted(g: Seq<NodeModel>)
    ensures
        active(g) == g.filter(|n: NodeModel| n.when != When::Never).len(),
        active(g) <= g.len(),
    decreases g.len(),
{
    reveal(Seq::filter);
    if g.len() > 0 {
        law_active_nodes_are_counted(g.drop_last());
    }
}

/// A plan for people says how many nodes, waves and jobs there are, and how many nodes
/// will run and how many are skipped. A graph without an order has no plan but the
/// reason.
pub proof fn law_plan_counts(g: Seq<NodeModel>, jobs: nat)
    ensures
        order_error(g) matches Some(e) ==> plan_page(g, jobs) == "invalid graph: "@ + error_message(e) + "\n"@,
        order_error(g) is None ==> {
            let run = g.filter(|n: NodeModel| n.when != When::Never).len();
            let waves = waves_of(g).len();
            exists|body: Seq<char>|
                plan_page(g, jobs) == #[trigger] ("build plan — "@ + decimal(g.len()) + " node(s), "@ + decimal(waves)
                    + " wave(s), jobs="@ + decimal(jobs) + "\n\n"@ + body + "critical path length: "@ + decimal(waves)
                    + " wave(s); "@ + decimal(run) + " node(s) will run, "@ + decimal((g.len() - run) as nat)
                    + " skipped.\n"@)
        },
{
    law_active_nodes_are_counted(g);
    if order_error(g) is None {
        let waves = waves_of(g);
        let body = plan_waves(g, waves, waves.len() as int);
        let run = g.filter(|n: NodeModel| n.when != When::Never).len();
        assert(plan_page(g, jobs) == "build plan — "@ + decimal(g.len()) + " node(s), "@ + decimal(waves.len())
            + " wave(s), jobs="@ + decimal(jobs) + "\n\n"@ + body + "critical path length: "@ + decimal(waves.len())
            + " wave(s); "@ + decimal(run) + " node(s) will run, "@ + decimal((g.len() - run) as nat) + " skipped.\n"@);
    }
}

/// The lines of a plan on a node.
pub open spec fn node_lines(node: NodeModel) -> Seq<char> {
    let head = if node.when == When::Never {
        "  - "@ + node.id + "  [skipped]\n      "@
    } else {
        "  - "@ + node.id + "\n      "@
    };
    if node.after.len() == 0 {
        head + description(node.kind) + "\n"@
    } else {
        head + description(node.kind) + "  (after "@ + joined(node.after, ", "@) + ")\n"@
    }
}

proof fn lemma_entry(g: Seq<NodeModel>, i: int)
    requires
        unique_ids(g),
        0 <= i < g.len(),
    ensures
        plan_entry(g, g[i].id) == node_lines(g[i]),
{
    let node = g[i];
    lemma_first_at(g, node.id);
    assert(declares(g, node.id));
    let k = first_at(g, node.id);
    assert(k == i) by {
        if k != i {
            assert(g[k].id != g[i].id);
        }
    }
    reveal_strlit("  [skipped]");
    reveal_strlit("\n      ");
    reveal_strlit("  [skipped]\n      ");
    reveal_strlit(")");
    reveal_strlit("\n");
    reveal_strlit(")\n");
    assert("  [skipped]"@ + "\n      "@ =~= "  [skipped]\n      "@);
    assert(")"@ + "\n"@ =~= ")\n"@);
    lemma_entry_text(
        "  - "@ + node.id,
        "  [skipped]"@,
        "\n      "@,
        description(node.kind),
        "  (after "@,
        joined(node.after, ", "@),
        ")"@,
        "\n"@,
    );
}

proof fn lemma_entry_text(
    a: Seq<char>,
    s: Seq<char>,
    b: Seq<char>,
    d: Seq<char>,
    e: Seq<char>,
    f: Seq<char>,
    h: Seq<char>,
    n: Seq<char>,
)
    ensures
        a + s + b + d + Seq::<char>::empty() + n == a + (s + b) + d + n,
        a + Seq::<char>::empty() + b + d + Seq::<char>::empty() + n == a + b + d + n,
        a + s + b + d + (e + f + h) + n == a + (s + b) + d + e + f + (h + n),
        a + Seq::<char>::empty() + b + d + (e + f + h) + n == a + b + d + e + f + (h + n),
{
    assert(a + s + b + d + Seq::<char>::empty() + n =~= a + (s + b) + d + n);
    assert(a + Seq::<char>::empty() + b + d + Seq::<char>::empty() + n =~= a + b + d + n);
    assert(a + s + b + d + (e + f + h) + n =~= a + (s + b) + d + e + f + (h + n));
    assert(a + Seq::<char>::empty() + b + d + (e + f + h) + n =~= a + b + d + e + f + (h + n));
}

proof fn lemma_entries_hold(g: Seq<NodeModel>, ids: Seq<Seq<char>>, n: int, k: int)
    requires
        0 <= k < n <= ids.len(),
    ensures
        holds(plan_entries(g, ids, n), plan_entry(g, ids[k])),
    decreases n,
{
    let none = Seq::<char>::empty();
    let front = plan_entries(g, ids, n - 1);
    let last = plan_entry(g, ids[n - 1]);
    let all = plan_entries(g, ids, n);
    if k == n - 1 {
        assert(all =~= front + last + none);
        lemma_holds_middle(front, last, none);
    } else {
        lemma_entries_hold(g, ids, n - 1, k);
        assert(all =~= none + front + last);
        lemma_holds_middle(none, front, last);
        lemma_holds_in(all, front, plan_entry(g, ids[k]));
    }
}

proof fn lemma_waves_hold(g: Seq<NodeModel>, waves: Seq<Seq<Seq<char>>>, n: int, w: int)
    requires
        0 <= w < n <= waves.len(),
    ensures
        holds(plan_waves(g, waves, n), plan_wave(g, w, waves[w])),
    decreases n,
{
    let none = Seq::<char>::empty();
    let front = plan_waves(g, waves, n - 1);
    let last = plan_wave(g, n - 1, waves[n - 1]);
    let all = plan_waves(g, waves, n);
    if w == n - 1 {
        assert(all =~= front + last + none);
        lemma_holds_middle(front, last, none);
    } else {
        lemma_waves_hold(g, waves, n - 1, w);
        assert(all =~= none + front + last);
        lemma_holds_middle(none, front, last);
        lemma_holds_in(all, front, plan_wave(g, w, waves[w]));
    }
}

proof fn lemma_page_holds_wave(g: Seq<NodeModel>, jobs: nat, w: int)
    requires
        order_error(g) is None,
        0 <= w < waves_of(g).len(),
    ensures
        holds(plan_page(g, jobs), plan_wave(g, w, waves_of(g)[w])),
{
    let waves = waves_of(g);
    let n = waves.len() as int;
    lemma_waves_hold(g, waves, n, w);
    let body = plan_waves(g, waves, n);
    let head = "build plan — "@ + decimal(g.len()) + " node(s), "@ + decimal(waves.len()) + " wave(s), jobs="@ + decimal(
        jobs,
    ) + "\n\n"@;
    let count = decimal(waves.len());
    let a = decimal(active(g));
    let b = decimal((g.len() - active(g)) as nat);
    let tail = "critical path length: "@ + count + " wave(s); "@ + a + " node(s) will run, "@ + b + " skipped.\n"@;
    lemma_tail(head + body, "critical path length: "@, count, " wave(s); "@, a, " node(s) will run, "@, b, " skipped.\n"@);
    assert(plan_page(g, jobs) == head + body + tail);
    lemma_holds_middle(head, body, tail);
    lemma_holds_in(plan_page(g, jobs), body, plan_wave(g, w, waves[w]));
}

proof fn lemma_tail(
    p: Seq<char>,
    a: Seq<char>,
    b: Seq<char>,
    c: Seq<char>,
    d: Seq<char>,
    e: Seq<char>,
    f: Seq<char>,
    g: Seq<char>,
)
    ensures
        p + a + b + c + d + e + f + g == p + (a + b + c + d + e + f + g),
{
    assert(p + a + b + c + d + e + f + g =~= p + (a + b + c + d + e + f + g));
}

/// A plan for people shows every node of a valid graph: its id, whether it is skipped,
/// what it does and what it waits for.
pub proof fn law_plan_shows_every_node(g: Seq<NodeModel>, jobs: nat, i: int)
    requires
        graph_error(g) is None,
        0 <= i < g.len(),
    ensures
        holds(plan_page(g, jobs), node_lines(g[i])),
{
    crate::order::law_valid_iff(g);
    assert(order_error(g) is None);
    let w = shown_in(g, i) as int;
    let waves = waves_of(g);
    law_waves_hold_every_node(g, 0, g[i].id);
    assert(w < waves.len());
    law_waves_hold_every_node(g, w, g[i].id);
    assert(shows(g, w, g[i].id, g.len() as int)) by {
        assert(shown_in(g, i) == w && g[i].id == g[i].id);
    }
    let ids = waves[w];
    let k = ids.index_of(g[i].id);
    assert(ids[k] == g[i].id);
    lemma_entry(g, i);
    lemma_entries_hold(g, ids, ids.len() as int, k);
    lemma_page_holds_wave(g, jobs, w);
    let head = "wave "@ + decimal(w as nat) + crate::graph::flag(ids.len() > 1, "  (parallel)"@) + "\n"@;
    let entries = plan_entries(g, ids, ids.len() as int);
    lemma_holds_middle(head, entries, "\n"@);
    lemma_holds_in(plan_wave(g, w, ids), entries, node_lines(g[i]));
    lemma_holds_in(plan_page(g, jobs), plan_wave(g, w, ids), node_lines(g[i]));
}

/// A plan for people has a heading for every wave, which says where several nodes may
/// run together.
pub proof fn law_plan_heads_every_wave(g: Seq<NodeModel>, jobs: nat, w: int)
    requires
        order_error(g) is None,
        0 <= w < waves_of(g).len(),
    ensures
        waves_of(g)[w].len() > 1 ==> holds(plan_page(g, jobs), "wave "@ + decimal(w as nat) + "  (parallel)\n"@),
        waves_of(g)[w].len() <= 1 ==> holds(plan_page(g, jobs), "wave "@ + decimal(w as nat) + "\n"@),
{
    let ids = waves_of(g)[w];
    lemma_page_holds_wave(g, jobs, w);
    reveal_strlit("  (parallel)");
    reveal_strlit("\n");
    reveal_strlit("  (parallel)\n");
    assert("  (parallel)"@ + "\n"@ =~= "  (parallel)\n"@);
    let none = Seq::<char>::empty();
    let entries = plan_entries(g, ids, ids.len() as int);
    let head = if ids.len() > 1 {
        "wave "@ + decimal(w as nat) + "  (parallel)\n"@
    } else {
        "wave "@ + decimal(w as nat) + "\n"@
    };
    lemma_holds_middle(none, head, entries + "\n"@);
    lemma_heading("wave "@ + decimal(w as nat), "  (parallel)"@, "\n"@, entries);
    lemma_holds_in(plan_page(g, jobs), plan_wave(g, w, ids), head);
}

proof fn lemma_heading(a: Seq<char>, p: Seq<char>, n: Seq<char>, e: Seq<char>)
    ensures
        a + p + n + e + n == Seq::<char>::empty() + (a + (p + n)) + (e + n),
        a + Seq::<char>::empty() + n + e + n == Seq::<char>::empty() + (a + n) + (e + n),
{
    assert(a + p + n + e + n =~= Seq::<char>::empty() + (a + (p + n)) + (e + n));
    assert(a + Seq::<char>::empty() + n + e + n =~= Seq::<char>::empty() + (a + n) + (e + n));
}

/// Whether an object tells of a node: its id, what it waits for, what it does, which
/// kind of worker it wants and whether it is skipped. The DI compile alone is bound to
/// the processor.
pub open spec fn tells_node(v: JsonModel, node: NodeModel) -> bool {
    &&& has_field(v, "id"@, JsonModel::Str(node.id))
    &&& exists|after: JsonModel| #[trigger] has_field(v, "after"@, after) && lists(after, node.after)
    &&& has_field(v, "kind"@, JsonModel::Str(description(node.kind)))
    &&& (node.kind matches KindModel::Native(step) && step is DiCompile) ==> has_field(
        v,
        "cost"@,
        JsonModel::Str("CpuBound"@),
    )
    &&& !(node.kind matches KindModel::Native(step) && step is DiCompile) ==> has_field(
        v,
        "cost"@,
        JsonModel::Str("IoBound"@),
    )
    &&& has_field(v, "skipped"@, JsonModel::Bool(node.when == When::Never))
}

proof fn lemma_node_told(node: NodeModel)
    ensures
        tells_node(node_json(node), node),
{
    reveal_strlit("id");
    reveal_strlit("after");
    reveal_strlit("kind");
    reveal_strlit("cost");
    reveal_strlit("skipped");
    assert("id"@.len() == 2 && "after"@.len() == 5 && "skipped"@.len() == 7);
    assert("kind"@[0] == 'k' && "cost"@[0] == 'c' && "kind"@.len() == 4 && "cost"@.len() == 4);
    let v = node_json(node);
    let f = v->Obj_0;
    assert(f[0].0 == "id"@ && f[1].0 == "after"@ && f[2].0 == "kind"@ && f[3].0 == "cost"@ && f[4].0 == "skipped"@);
    assert(has_field(v, "id"@, f[0].1));
    assert(has_field(v, "after"@, f[1].1));
    assert(has_field(v, "kind"@, f[2].1));
    assert(has_field(v, "cost"@, f[3].1));
    assert(has_field(v, "skipped"@, f[4].1));
    assert(lists(f[1].1, node.after));
    assert(kind_cost(node.kind) == Cost::CpuBound <==> (node.kind matches KindModel::Native(step) && step is DiCompile));
}

/// A plan for programs has the number of jobs, every node in declaration order, and
/// the waves of a graph that has an order.
pub proof fn law_plan_tells_programs(g: Seq<NodeModel>, jobs: usize)
    ensures
        has_field(plan_value(g, jobs), "jobs"@, JsonModel::Num(jobs as u128)),
        exists|items: Seq<JsonModel>|
            {
                &&& #[trigger] has_field(plan_value(g, jobs), "nodes"@, JsonModel::Arr(items))
                &&& items.len() == g.len()
                &&& forall|i: int| 0 <= i < items.len() ==> tells_node(#[trigger] items[i], g[i])
            },
        exists|items: Seq<JsonModel>|
            {
                &&& #[trigger] has_field(plan_value(g, jobs), "waves"@, JsonModel::Arr(items))
                &&& order_error(g) is None ==> items.len() == waves_of(g).len() && forall|w: int|
                    0 <= w < items.len() ==> lists(#[trigger] items[w], waves_of(g)[w])
                &&& order_error(g) is Some ==> items.len() == 0
            },
{
    reveal_strlit("jobs");
    reveal_strlit("nodes");
    reveal_strlit("waves");
    assert("jobs"@.len() == 4 && "nodes"@[0] == 'n' && "waves"@[0] == 'w' && "nodes"@.len() == 5);
    let v = plan_value(g, jobs);
    let f = v->Obj_0;
    assert(f[0].0 == "jobs"@ && f[1].0 == "nodes"@ && f[2].0 == "waves"@);
    assert(has_field(v, "jobs"@, f[0].1));
    let nodes = g.map_values(|n: NodeModel| node_json(n));
    assert(f[1].1 == JsonModel::Arr(nodes));
    assert(has_field(v, "nodes"@, JsonModel::Arr(nodes)));
    assert forall|i: int| 0 <= i < nodes.len() implies tells_node(#[trigger] nodes[i], g[i]) by {
        lemma_node_told(g[i]);
    }
    let items = f[2].1->Arr_0;
    assert(f[2].1 == JsonModel::Arr(items));
    assert(has_field(v, "waves"@, JsonModel::Arr(items)));
}

/// A node that has finished gets a line with its id: a done one with its time, a failed
/// one with its time and its message, a cancelled one with neither. A skipped node gets
/// none.
pub proof fn law_finish_lines_tell_the_state(id: Seq<char>, state: StateModel, elapsed: Seq<char>)
    ensures
        state is Done ==> finish_note(id, state, elapsed) == Some("✓  "@ + id + "  done  "@ + elapsed),
        state matches StateModel::Failed(m) ==> finish_note(id, state, elapsed) == Some(
            "✗  "@ + id + "  FAILED  "@ + elapsed + "\n     "@ + m,
        ),
        state is Cancelled ==> finish_note(id, state, elapsed) == Some("-  "@ + id + "  cancelled"@),
        finish_note(id, state, elapsed) is None <==> state is Skipped,
{
}

/// The names of the fields of an object, in order.
pub open spec fn names_of(v: JsonModel) -> Seq<Seq<char>> {
    v->Obj_0.map_values(|f: (Seq<char>, JsonModel)| f.0)
}

/// Objects for programs have exactly these fields, in this order.
pub proof fn law_objects_have_these_fields(
    report: ReportModel,
    g: Seq<NodeModel>,
    jobs: usize,
    o: OutcomeModel,
    node: NodeModel,
)
    ensures
        names_of(summary_value(report)) == seq!["failed"@, "wall_ms"@, "nodes"@],
        names_of(outcome_json(o)) == seq!["id"@, "state"@, "ms"@],
        names_of(plan_value(g, jobs)) == seq!["jobs"@, "nodes"@, "waves"@],
        names_of(node_json(node)) == seq!["id"@, "after"@, "kind"@, "cost"@, "skipped"@],
        forall|i: int|
            0 <= i < report.outcomes.len() ==> summary_value(report)->Obj_0[2].1->Arr_0[i] == outcome_json(
                #[trigger] report.outcomes[i],
            ),
        forall|i: int|
            0 <= i < g.len() ==> plan_value(g, jobs)->Obj_0[1].1->Arr_0[i] == node_json(#[trigger] g[i]),
{
    assert(names_of(summary_value(report)) =~= seq!["failed"@, "wall_ms"@, "nodes"@]);
    assert(names_of(outcome_json(o)) =~= seq!["id"@, "state"@, "ms"@]);
    assert(names_of(plan_value(g, jobs)) =~= seq!["jobs"@, "nodes"@, "waves"@]);
    assert(names_of(node_json(node)) =~= seq!["id"@, "after"@, "kind"@, "cost"@, "skipped"@]);
}

/// A node that starts, or is skipped, gets a line with its id; no line is shown where the
/// output is for programs, and every line is where it is for people.
pub proof fn law_progress_lines(id: Seq<char>, note: Option<Seq<char>>)
    ensures
        start_note(id) == "▶  "@ + id + "  running"@,
        skip_note(id) == "∘  "@ + id + "  skipped"@,
        when_shown(true, note) == note,
        when_shown(false, note) is None,
{
}

/// The rows of a profile, one after the other.
proof fn lemma_rows_joined(outcomes: Seq<OutcomeModel>, spent: Seq<Seq<char>>, rows: Seq<int>, n: int)
    requires
        0 <= n <= rows.len(),
    ensures
        profile_rows(outcomes, spent, rows, n) == joined(
            Seq::new(n as nat, |k: int| "  "@ + padded(outcomes[rows[k]].id, 20) + " "@ + spent[rows[k]] + "\n"@),
            seq![],
        ),
    decreases n,
{
    let none = Seq::<char>::empty();
    let f = |k: int| "  "@ + padded(outcomes[rows[k]].id, 20) + " "@ + spent[rows[k]] + "\n"@;
    let all = Seq::new(n as nat, f);
    if n > 0 {
        lemma_rows_joined(outcomes, spent, rows, n - 1);
        let front = Seq::new((n - 1) as nat, f);
        assert(all.drop_last() =~= front);
        lemma_joined_last(all);
        let so_far = profile_rows(outcomes, spent, rows, n - 1);
        lemma_row_text(so_far, "  "@, padded(outcomes[rows[n - 1]].id, 20), " "@, spent[rows[n - 1]], "\n"@);
    } else {
        assert(joined(all, none) =~= none);
    }
}

proof fn lemma_row_text(u: Seq<char>, a: Seq<char>, b: Seq<char>, c: Seq<char>, d: Seq<char>, e: Seq<char>)
    ensures
        u + a + b + c + d + e == u + (a + b + c + d + e),
{
    assert(u + a + b + c + d + e =~= u + (a + b + c + d + e));
}

/// Joining without a separator puts the last part behind the others.
proof fn lemma_joined_last(parts: Seq<Seq<char>>)
    requires
        parts.len() > 0,
    ensures
        joined(parts, seq![]) == joined(parts.drop_last(), seq![]) + parts.last(),
{
    let none = Seq::<char>::empty();
    if parts.len() == 1 {
        assert(none + parts[0] =~= parts[0]);
    } else {
        let front = joined(parts.drop_last(), none);
        assert(front + none + parts.last() =~= front + parts.last());
    }
}

/// The lines on the times of the outcomes at these places: an id, as wide as twenty
/// characters, and how long the node took.
pub open spec fn timings(outcomes: Seq<OutcomeModel>, spent: Seq<Seq<char>>, rows: Seq<int>) -> Seq<char> {
    joined(rows.map_values(|i: int| "  "@ + padded(outcomes[i].id, 20) + " "@ + spent[i] + "\n"@), seq![])
}

/// A profile is its heading, the rows of the nodes that ran, the longest first, and an
/// empty line. Nodes that took equally long keep the order of the report.
pub proof fn law_profile_is_laid_out(outcomes: Seq<OutcomeModel>, spent: Seq<Seq<char>>)
    ensures
        exists|rows: Seq<int>|
            {
                &&& profile_page(outcomes, spent) == "per-node timings:\n"@ + #[trigger] timings(outcomes, spent, rows)
                    + "\n"@
                &&& rows.no_duplicates()
                &&& forall|i: int| #[trigger]
                    rows.contains(i) <==> 0 <= i < outcomes.len() && (outcomes[i].state is Done
                        || outcomes[i].state is Failed)
                &&& forall|a: int, b: int|
                    0 <= a < b < rows.len() ==> outcomes[#[trigger] rows[a]].duration > outcomes[#[trigger] rows[b]].duration
                        || (outcomes[rows[a]].duration == outcomes[rows[b]].duration && rows[a] < rows[b])
            },
{
    let rows = ascending(ran_at(outcomes, outcomes.len() as int), longer_first(outcomes));
    let n = rows.len() as int;
    law_profile_lists_what_ran(outcomes);
    lemma_rows_joined(outcomes, spent, rows, n);
    let f = |i: int| "  "@ + padded(outcomes[i].id, 20) + " "@ + spent[i] + "\n"@;
    let shown = rows.map_values(f);
    assert(shown =~= Seq::new(
        n as nat,
        |k: int| "  "@ + padded(outcomes[rows[k]].id, 20) + " "@ + spent[rows[k]] + "\n"@,
    ));
    assert forall|a: int, b: int| 0 <= a < b < rows.len() implies outcomes[#[trigger] rows[a]].duration
        > outcomes[#[trigger] rows[b]].duration || (outcomes[rows[a]].duration == outcomes[rows[b]].duration && rows[a]
        < rows[b]) by {
        lemma_rows_stable(outcomes, outcomes.len() as int, a, b);
    }
    assert(profile_page(outcomes, spent) == "per-node timings:\n"@ + timings(outcomes, spent, rows) + "\n"@);
}

/// Inserting a later node behind everything that is no shorter keeps the order of a
/// profile.
proof fn lemma_rows_stable(outcomes: Seq<OutcomeModel>, n: int, a: int, b: int)
    requires
        0 <= n <= outcomes.len(),
        0 <= a < b < ascending(ran_at(outcomes, n), longer_first(outcomes)).len(),
    ensures
        ({
            let rows = ascending(ran_at(outcomes, n), longer_first(outcomes));
            outcomes[rows[a]].duration > outcomes[rows[b]].duration || (outcomes[rows[a]].duration
                == outcomes[rows[b]].duration && rows[a] < rows[b])
        }),
    decreases n,
{
    lemma_rows_sorted(outcomes, n);
}

/// Whether rows are ordered by time, the longest first, and by place where the times are
/// equal.
spec fn profiled(outcomes: Seq<OutcomeModel>, rows: Seq<int>) -> bool {
    forall|a: int, b: int|
        0 <= a < b < rows.len() ==> outcomes[#[trigger] rows[a]].duration > outcomes[#[trigger] rows[b]].duration || (
        outcomes[rows[a]].duration == outcomes[rows[b]].duration && rows[a] < rows[b])
}

proof fn lemma_rows_sorted(outcomes: Seq<OutcomeModel>, n: int)
    requires
        0 <= n <= outcomes.len(),
    ensures
        profiled(outcomes, ascending(ran_at(outcomes, n), longer_first(outcomes))),
        forall|k: int|
            0 <= k < ascending(ran_at(outcomes, n), longer_first(outcomes)).len() ==> 0 <= #[trigger] ascending(
                ran_at(outcomes, n),
                longer_first(outcomes),
            )[k] < n,
    decreases n,
{
    if n > 0 {
        lemma_rows_sorted(outcomes, n - 1);
        let le = longer_first(outcomes);
        let f = ran_at(outcomes, n - 1);
        let s = ran_at(outcomes, n);
        if s.len() > f.len() {
            assert(s.drop_last() =~= f);
            lemma_row_inserted(outcomes, ascending(f, le), n - 1);
        }
    }
}

proof fn lemma_row_inserted(outcomes: Seq<OutcomeModel>, rows: Seq<int>, x: int)
    requires
        profiled(outcomes, rows),
        x >= 0,
        forall|k: int| 0 <= k < rows.len() ==> 0 <= #[trigger] rows[k] < x,
    ensures
        profiled(outcomes, inserted(rows, x, longer_first(outcomes))),
        forall|k: int|
            0 <= k < inserted(rows, x, longer_first(outcomes)).len() ==> 0 <= #[trigger] inserted(
                rows,
                x,
                longer_first(outcomes),
            )[k] <= x,
        forall|k: int|
            0 <= k < inserted(rows, x, longer_first(outcomes)).len() ==> #[trigger] inserted(
                rows,
                x,
                longer_first(outcomes),
            )[k] == x || rows.contains(inserted(rows, x, longer_first(outcomes))[k]),
    decreases rows.len(),
{
    let le = longer_first(outcomes);
    let r = inserted(rows, x, le);
    if rows.len() > 0 {
        let last = rows.len() - 1;
        if le(rows.last(), x) {
            assert forall|a: int, b: int| 0 <= a < b < r.len() implies outcomes[#[trigger] r[a]].duration
                > outcomes[#[trigger] r[b]].duration || (outcomes[r[a]].duration == outcomes[r[b]].duration && r[a] < r[b]) by {
                assert(r[a] == rows[a]);
                if b <= last {
                    assert(r[b] == rows[b]);
                } else {
                    assert(rows[a] < x);
                    assert(outcomes[rows[last]].duration >= outcomes[x].duration);
                    if a < last {
                        assert(outcomes[rows[a]].duration >= outcomes[rows[last]].duration);
                    }
                }
            }
            assert forall|k: int| 0 <= k < r.len() implies 0 <= #[trigger] r[k] <= x && (r[k] == x || rows.contains(r[k])) by {
                if k <= last {
                    assert(r[k] == rows[k]);
                }
            }
        } else {
            let t = rows.drop_last();
            assert forall|a: int, b: int| 0 <= a < b < t.len() implies outcomes[#[trigger] t[a]].duration
                > outcomes[#[trigger] t[b]].duration || (outcomes[t[a]].duration == outcomes[t[b]].duration && t[a] < t[b]) by {
                assert(t[a] == rows[a] && t[b] == rows[b]);
            }
            assert forall|k: int| 0 <= k < t.len() implies 0 <= #[trigger] t[k] < x by {
                assert(t[k] == rows[k]);
            }
            lemma_row_inserted(outcomes, t, x);
            let q = inserted(t, x, le);
            assert forall|a: int, b: int| 0 <= a < b < r.len() implies outcomes[#[trigger] r[a]].duration
                > outcomes[#[trigger] r[b]].duration || (outcomes[r[a]].duration == outcomes[r[b]].duration && r[a] < r[b]) by {
                assert(r[a] == q[a]);
                if b < q.len() {
                    assert(r[b] == q[b]);
                } else {
                    assert(r[b] == rows[last]);
                    if q[a] != x {
                        let m = t.index_of(q[a]);
                        assert(rows[m] == q[a]);
                    }
                }
            }
            assert forall|k: int| 0 <= k < r.len() implies 0 <= #[trigger] r[k] <= x && (r[k] == x || rows.contains(r[k])) by {
                if k < q.len() {
                    assert(r[k] == q[k]);
                    if q[k] != x {
                        let m = t.index_of(q[k]);
                        assert(rows[m] == q[k]);
                    }
                } else {
                    assert(r[k] == rows[last]);
                }
            }
        }
    }
}

/// The text of a wave of a plan: its heading, the lines of its nodes in the order of
/// their ids, and an empty line.
pub open spec fn wave_text(g: Seq<NodeModel>, w: int) -> Seq<char> {
    let ids = waves_of(g)[w];
    let heading = if ids.len() > 1 {
        "wave "@ + decimal(w as nat) + "  (parallel)\n"@
    } else {
        "wave "@ + decimal(w as nat) + "\n"@
    };
    heading + joined(ids.map_values(|id: Seq<char>| node_lines(g[first_at(g, id)])), seq![]) + "\n"@
}

proof fn lemma_entries_joined(g: Seq<NodeModel>, ids: Seq<Seq<char>>, n: int)
    requires
        unique_ids(g),
        0 <= n <= ids.len(),
        forall|k: int| 0 <= k < ids.len() ==> declares(g, #[trigger] ids[k]),
    ensures
        plan_entries(g, ids, n) == joined(
            ids.take(n).map_values(|id: Seq<char>| node_lines(g[first_at(g, id)])),
            seq![],
        ),
    decreases n,
{
    let none = Seq::<char>::empty();
    let f = |id: Seq<char>| node_lines(g[first_at(g, id)]);
    let all = ids.take(n).map_values(f);
    if n > 0 {
        lemma_entries_joined(g, ids, n - 1);
        assert(all.drop_last() =~= ids.take(n - 1).map_values(f));
        lemma_joined_last(all);
        let id = ids[n - 1];
        lemma_first_at(g, id);
        assert(declares(g, id));
        lemma_entry(g, first_at(g, id));
        assert(all.last() == node_lines(g[first_at(g, id)]));
    } else {
        assert(joined(all, none) =~= none);
    }
}

proof fn lemma_waves_joined(g: Seq<NodeModel>, n: int)
    requires
        graph_error(g) is None,
        0 <= n <= waves_of(g).len(),
    ensures
        plan_waves(g, waves_of(g), n) == joined(Seq::new(n as nat, |w: int| wave_text(g, w)), seq![]),
    decreases n,
{
    let none = Seq::<char>::empty();
    let f = |w: int| wave_text(g, w);
    let all = Seq::new(n as nat, f);
    if n > 0 {
        lemma_waves_joined(g, n - 1);
        assert(all.drop_last() =~= Seq::new((n - 1) as nat, f));
        lemma_joined_last(all);
        crate::order::law_valid_iff(g);
        let w = n - 1;
        let ids = waves_of(g)[w];
        assert forall|k: int| 0 <= k < ids.len() implies declares(g, #[trigger] ids[k]) by {
            law_waves_hold_every_node(g, w, ids[k]);
            assert(ids.contains(ids[k]));
        }
        lemma_entries_joined(g, ids, ids.len() as int);
        assert(ids.take(ids.len() as int) =~= ids);
        reveal_strlit("  (parallel)");
        reveal_strlit("\n");
        reveal_strlit("  (parallel)\n");
        assert("  (parallel)"@ + "\n"@ =~= "  (parallel)\n"@);
        let entries = plan_entries(g, ids, ids.len() as int);
        let a = "wave "@ + decimal(w as nat);
        assert(a + none + "\n"@ =~= a + "\n"@);
        assert(a + "  (parallel)"@ + "\n"@ =~= a + "  (parallel)\n"@);
        assert(plan_wave(g, w, ids) == wave_text(g, w));
        assert(all.last() == wave_text(g, w));
    } else {
        assert(joined(all, none) =~= none);
    }
}

/// The plan of a valid graph: the counts, then its waves in order, then what will run.
pub proof fn law_plan_is_laid_out(g: Seq<NodeModel>, jobs: nat)
    requires
        graph_error(g) is None,
    ensures
        ({
            let run = g.filter(|n: NodeModel| n.when != When::Never).len();
            let waves = waves_of(g).len();
            plan_page(g, jobs) == "build plan — "@ + decimal(g.len()) + " node(s), "@ + decimal(waves)
                + " wave(s), jobs="@ + decimal(jobs) + "\n\n"@ + joined(
                Seq::new(waves, |w: int| wave_text(g, w)),
                seq![],
            ) + "critical path length: "@ + decimal(waves) + " wave(s); "@ + decimal(run) + " node(s) will run, "@
                + decimal((g.len() - run) as nat) + " skipped.\n"@
        }),
{
    crate::order::law_valid_iff(g);
    law_active_nodes_are_counted(g);
    lemma_waves_joined(g, waves_of(g).len() as int);
    assert(order_error(g) is None);
}

} // verus!
