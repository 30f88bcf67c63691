//! What is shown to people and to programs: the plan, the progress and the
//! summary of a run.
//!
//! How a duration reads is decided by the caller, who hands the text in.
use vstd::prelude::*;
use vstd::string::StringExecFns;

use crate::config::found;
use crate::graph::{
    declares, description, error_message, flag, kind_cost, node_models, Cost, Graph, Node,
    NodeModel, When,
};
use crate::json::{Json, JsonModel};
use crate::order::{ints, order_error};
use crate::run::StateModel;
use crate::scheduler::{
    outcome_models, NodeOutcome, NodeState, OutcomeModel, ReportModel, RunReport,
};
use crate::text::{
    ascending, chars_of, decimal, join_texts, joined, law_ascending_sorted, lemma_inserted_at,
    option_text, push_decimal, texts,
};
use crate::waves::{law_waves_hold_every_node, wave_texts, waves_of};

verus! {

/// The lines of a plan on one node.
pub open spec fn plan_entry(g: Seq<NodeModel>, id: Seq<char>) -> Seq<char> {
    let node = found(g, id);
    "  - "@ + id + flag(node.when == When::Never, "  [skipped]"@) + "\n      "@ + description(node.kind) + (
    if node.after.len() == 0 {
        seq![]
    } else {
        "  (after "@ + joined(node.after, ", "@) + ")"@
    }) + "\n"@
}

/// The lines of a plan on the first `n` of `ids`.
pub open spec fn plan_entries(g: Seq<NodeModel>, ids: Seq<Seq<char>>, n: int) -> Seq<char>
    decreases n,
{
    if n <= 0 {
        seq![]
    } else {
        plan_entries(g, ids, n - 1) + plan_entry(g, ids[n - 1])
    }
}

/// The lines of a plan on wave `w`.
pub open spec fn plan_wave(g: Seq<NodeModel>, w: int, ids: Seq<Seq<char>>) -> Seq<char> {
    "wave "@ + decimal(w as nat) + flag(ids.len() > 1, "  (parallel)"@) + "\n"@ + plan_entries(
        g,
        ids,
        ids.len() as int,
    ) + "\n"@
}

/// The lines of a plan on its first `n` waves.
pub open spec fn plan_waves(g: Seq<NodeModel>, waves: Seq<Seq<Seq<char>>>, n: int) -> Seq<char>
    decreases n,
{
    if n <= 0 {
        seq![]
    } else {
        plan_waves(g, waves, n - 1) + plan_wave(g, n - 1, waves[n - 1])
    }
}

/// How many nodes run.
pub open spec fn active(g: Seq<NodeModel>) -> nat
    decreases g.len(),
{
    if g.len() == 0 {
        0
    } else {
        active(g.drop_last()) + if g.last().when != When::Never {
            1nat
        } else {
            0nat
        }
    }
}

/// The plan as text.
pub open spec fn plan_page(g: Seq<NodeModel>, jobs: nat) -> Seq<char> {
    match order_error(g) {
        Some(e) => "invalid graph: "@ + error_message(e) + "\n"@,
        None => {
            let waves = waves_of(g);
            "build plan — "@ + decimal(g.len()) + " node(s), "@ + decimal(waves.len()) + " wave(s), jobs="@ + decimal(
                jobs,
            ) + "\n\n"@ + plan_waves(g, waves, waves.len() as int) + "critical path length: "@ + decimal(waves.len())
                + " wave(s); "@ + decimal(active(g)) + " node(s) will run, "@ + decimal((g.len() - active(g)) as nat)
                + " skipped.\n"@
        },
    }
}

fn push_entry(out: &mut String, graph: &Graph, id: &str)
    requires
        declares(graph@, id@),
    ensures
        final(out)@ == old(out)@ + plan_entry(graph@, id@),
{
    let ghost before = out@;
    match graph.get(id) {
        Some(node) => {
            out.append("  - ");
            out.append(id);
            if node.is_skipped() {
                out.append("  [skipped]");
            }
            out.append("\n      ");
            out.append(node.kind.describe().as_str());
            if node.after.len() > 0 {
                out.append("  (after ");
                out.append(join_texts(&node.after, ", ").as_str());
                out.append(")");
            }
            out.append("\n");
            assert(out@ =~= before + plan_entry(graph@, id@));
        },
        None => {},
    }
}

fn push_wave(out: &mut String, graph: &Graph, w: usize, ids: &Vec<String>)
    requires
        forall|k: int| 0 <= k < ids.len() ==> declares(graph@, #[trigger] texts(ids@)[k]),
    ensures
        final(out)@ == old(out)@ + plan_wave(graph@, w as int, texts(ids@)),
{
    let ghost before = out@;
    let ghost all = texts(ids@);
    out.append("wave ");
    push_decimal(out, w as u128);
    if ids.len() > 1 {
        out.append("  (parallel)");
    }
    out.append("\n");
    let ghost head = out@;
    assert(out@ =~= head + plan_entries(graph@, all, 0));
    for i in 0..ids.len()
        invariant
            all == texts(ids@),
            forall|k: int| 0 <= k < ids.len() ==> declares(graph@, #[trigger] all[k]),
            out@ == head + plan_entries(graph@, all, i as int),
    {
        assert(declares(graph@, all[i as int]));
        let ghost so_far = plan_entries(graph@, all, i as int);
        push_entry(out, graph, ids[i].as_str());
        assert(out@ =~= head + (so_far + plan_entry(graph@, all[i as int])));
    }
    out.append("\n");
    assert(out@ =~= before + plan_wave(graph@, w as int, all));
}

fn count_active(nodes: &[Node]) -> (r: usize)
    ensures
        r == active(node_models(nodes@)),
        r <= nodes@.len(),
{
    let ghost g = node_models(nodes@);
    let mut r: usize = 0;
    for i in 0..nodes.len()
        invariant
            g == node_models(nodes@),
            r == active(g.take(i as int)),
            r <= i,
    {
        proof {
            assert(g.take(i + 1).drop_last() =~= g.take(i as int));
            assert(g.take(i + 1).last() == nodes@[i as int]@);
        }
        if !nodes[i].is_skipped() {
            r += 1;
        }
    }
    assert(g.take(nodes@.len() as int) =~= g);
    r
}

/// The plan for people: the nodes by wave, and how many of them run.
pub fn plan_text(graph: &Graph, jobs: usize) -> (r: String)
    ensures
        r@ == plan_page(graph@, jobs as nat),
{
    let ghost g = graph@;
    let waves = match graph.waves() {
        Ok(w) => w,
        Err(e) => {
            let mut out = "invalid graph: ".to_owned();
            out.append(e.message().as_str());
            out.append("\n");
            return out;
        },
    };
    let ghost all = waves_of(g);
    let n = graph.nodes().len();
    let mut out = "build plan — ".to_owned();
    push_decimal(&mut out, n as u128);
    out.append(" node(s), ");
    push_decimal(&mut out, waves.len() as u128);
    out.append(" wave(s), jobs=");
    push_decimal(&mut out, jobs as u128);
    out.append("\n\n");
    let ghost head = out@;
    assert(out@ =~= head + plan_waves(g, all, 0));
    for w in 0..waves.len()
        invariant
            g == graph@,
            all == waves_of(g),
            wave_texts(waves@) == all,
            waves@.len() == all.len(),
            out@ == head + plan_waves(g, all, w as int),
    {
        let ghost ids = texts(waves@[w as int]@);
        proof {
            assert(wave_texts(waves@)[w as int] == ids);
            assert forall|k: int| 0 <= k < ids.len() implies declares(g, #[trigger] ids[k]) by {
                law_waves_hold_every_node(g, w as int, ids[k]);
                assert(all[w as int].contains(ids[k]));
            }
        }
        let ghost so_far = plan_waves(g, all, w as int);
        push_wave(&mut out, graph, w, &waves[w]);
        assert(out@ =~= head + (so_far + plan_wave(g, w as int, ids)));
    }
    let ghost upto = out@;
    let running = count_active(graph.nodes());
    out.append("critical path length: ");
    push_decimal(&mut out, waves.len() as u128);
    out.append(" wave(s); ");
    push_decimal(&mut out, running as u128);
    out.append(" node(s) will run, ");
    push_decimal(&mut out, (n - running) as u128);
    out.append(" skipped.\n");
    assert(out@ =~= plan_page(g, jobs as nat));
    out
}

/// A list of texts as a JSON array.
pub open spec fn json_texts(v: Seq<Seq<char>>) -> JsonModel {
    JsonModel::Arr(v.map_values(|s: Seq<char>| JsonModel::Str(s)))
}

/// The name of a cost.
pub open spec fn cost_name(c: Cost) -> Seq<char> {
    match c {
        Cost::CpuBound => "CpuBound"@,
        Cost::IoBound => "IoBound"@,
    }
}

/// One node of a plan for programs.
pub open spec fn node_json(node: NodeModel) -> JsonModel {
    JsonModel::Obj(
        seq![
            ("id"@, JsonModel::Str(node.id)),
            ("after"@, json_texts(node.after)),
            ("kind"@, JsonModel::Str(description(node.kind))),
            ("cost"@, JsonModel::Str(cost_name(kind_cost(node.kind)))),
            ("skipped"@, JsonModel::Bool(node.when == When::Never)),
        ],
    )
}

/// The plan for programs. A graph without an order has no waves.
pub open spec fn plan_value(g: Seq<NodeModel>, jobs: usize) -> JsonModel {
    let waves = if order_error(g) is None {
        waves_of(g)
    } else {
        seq![]
    };
    JsonModel::Obj(
        seq![
            ("jobs"@, JsonModel::Num(jobs as u128)),
            ("nodes"@, JsonModel::Arr(g.map_values(|n: NodeModel| node_json(n)))),
            ("waves"@, JsonModel::Arr(waves.map_values(|w: Seq<Seq<char>>| json_texts(w)))),
        ],
    )
}

/// The views of a list of values.
pub open spec fn json_models(v: Seq<Json>) -> Seq<JsonModel> {
    v.map_values(|j: Json| j@)
}

/// The views of a list of fields.
pub open spec fn field_models(v: Seq<(String, Json)>) -> Seq<(Seq<char>, JsonModel)> {
    v.map_values(|f: (String, Json)| (f.0@, f.1@))
}

fn array(items: Vec<Json>) -> (r: Json)
    ensures
        r@ == JsonModel::Arr(json_models(items@)),
{
    let ghost m = json_models(items@);
    let r = Json::Arr(items);
    assert(r@->Arr_0 =~= m);
    r
}

fn object(fields: Vec<(String, Json)>) -> (r: Json)
    ensures
        r@ == JsonModel::Obj(field_models(fields@)),
{
    let ghost m = field_models(fields@);
    let r = Json::Obj(fields);
    assert(r@->Obj_0 =~= m);
    r
}

fn text_array(v: &Vec<String>) -> (r: Json)
    ensures
        r@ == json_texts(texts(v@)),
{
    let mut items: Vec<Json> = Vec::new();
    for i in 0..v.len()
        invariant
            items@.len() == i,
            forall|k: int| 0 <= k < i ==> (#[trigger] items@[k])@ == JsonModel::Str(v@[k]@),
    {
        items.push(Json::s(v[i].as_str()));
    }
    assert(json_models(items@) =~= texts(v@).map_values(|s: Seq<char>| JsonModel::Str(s)));
    array(items)
}

fn field(name: &str, value: Json) -> (r: (String, Json))
    ensures
        r.0@ == name@,
        r.1@ == value@,
{
    (name.to_owned(), value)
}

fn node_value(node: &Node) -> (r: Json)
    ensures
        r@ == node_json(node@),
{
    let cost = match node.kind.cost() {
        Cost::CpuBound => "CpuBound",
        Cost::IoBound => "IoBound",
    };
    let fields = vec![
        field("id", Json::s(node.id.as_str())),
        field("after", text_array(&node.after)),
        field("kind", Json::s(node.kind.describe().as_str())),
        field("cost", Json::s(cost)),
        field("skipped", Json::Bool(node.is_skipped())),
    ];
    assert(field_models(fields@) =~= node_json(node@)->Obj_0);
    object(fields)
}

/// The plan for programs.
pub fn plan_json(graph: &Graph, jobs: usize) -> (r: Json)
    ensures
        r@ == plan_value(graph@, jobs),
{
    let ghost g = graph@;
    let nodes = graph.nodes();
    let mut items: Vec<Json> = Vec::new();
    for i in 0..nodes.len()
        invariant
            g == node_models(nodes@),
            items@.len() == i,
            forall|k: int| 0 <= k < i ==> (#[trigger] items@[k])@ == node_json(g[k]),
    {
        assert(g[i as int] == nodes@[i as int]@);
        items.push(node_value(&nodes[i]));
    }
    assert(json_models(items@) =~= g.map_values(|n: NodeModel| node_json(n)));
    let mut waves: Vec<Json> = Vec::new();
    let ghost all = if order_error(g) is None {
        waves_of(g)
    } else {
        seq![]
    };
    match graph.waves() {
        Ok(v) => {
            for w in 0..v.len()
                invariant
                    wave_texts(v@) == all,
                    v@.len() == all.len(),
                    waves@.len() == w,
                    forall|k: int| 0 <= k < w ==> (#[trigger] waves@[k])@ == json_texts(all[k]),
            {
                assert(wave_texts(v@)[w as int] == texts(v@[w as int]@));
                waves.push(text_array(&v[w]));
            }
        },
        Err(_) => {},
    }
    assert(json_models(waves@) =~= all.map_values(|w: Seq<Seq<char>>| json_texts(w)));
    let fields = vec![
        field("jobs", Json::Num(jobs as u128)),
        field("nodes", array(items)),
        field("waves", array(waves)),
    ];
    assert(field_models(fields@) =~= plan_value(g, jobs)->Obj_0);
    object(fields)
}

/// Shows the progress of a run line by line, unless the output is for programs.
pub struct ProgressObserver {
    json: bool,
}

impl View for ProgressObserver {
    type V = bool;

    /// Whether it shows anything.
    closed spec fn view(&self) -> bool {
        !self.json
    }
}

/// The line on a node that has finished; a skipped node has none.
pub open spec fn finish_note(id: Seq<char>, state: StateModel, elapsed: Seq<char>) -> Option<Seq<char>> {
    match state {
        StateModel::Done => Some("✓  "@ + id + "  done  "@ + elapsed),
        StateModel::Failed(message) => Some("✗  "@ + id + "  FAILED  "@ + elapsed + "\n     "@ + message),
        StateModel::Cancelled => Some("-  "@ + id + "  cancelled"@),
        StateModel::Skipped => None,
    }
}

/// The line on a node that starts.
pub open spec fn start_note(id: Seq<char>) -> Seq<char> {
    "▶  "@ + id + "  running"@
}

/// The line on a node that is skipped.
pub open spec fn skip_note(id: Seq<char>) -> Seq<char> {
    "∘  "@ + id + "  skipped"@
}

/// The text where it is to be shown.
pub open spec fn when_shown(shown: bool, s: Option<Seq<char>>) -> Option<Seq<char>> {
    if shown {
        s
    } else {
        None
    }
}

impl ProgressObserver {
    /// An observer that shows nothing where the output is `json`.
    pub fn new(json: bool) -> (r: ProgressObserver)
        ensures
            r@ == !json,
    {
        ProgressObserver { json }
    }

    /// The line on a node that starts.
    pub fn start_line(&self, id: &str) -> (r: Option<String>)
        ensures
            option_text(r) == when_shown(self@, Some("▶  "@ + id@ + "  running"@)),
            option_text(r) == when_shown(self@, Some(start_note(id@))),
    {
        if self.json {
            return None;
        }
        let mut out = "▶  ".to_owned();
        out.append(id);
        out.append("  running");
        Some(out)
    }

    /// The line on a node that is skipped.
    pub fn skip_line(&self, id: &str) -> (r: Option<String>)
        ensures
            option_text(r) == when_shown(self@, Some("∘  "@ + id@ + "  skipped"@)),
            option_text(r) == when_shown(self@, Some(skip_note(id@))),
    {
        if self.json {
            return None;
        }
        let mut out = "∘  ".to_owned();
        out.append(id);
        out.append("  skipped");
        Some(out)
    }

    /// The line on a node that has finished, where `elapsed` says how long it ran.
    pub fn finish_line(&self, id: &str, state: &NodeState, elapsed: &str) -> (r: Option<String>)
        ensures
            option_text(r) == when_shown(self@, finish_note(id@, state@, elapsed@)),
    {
        if self.json {
            return None;
        }
        match state {
            NodeState::Done => {
                let mut out = "✓  ".to_owned();
                out.append(id);
                out.append("  done  ");
                out.append(elapsed);
                Some(out)
            },
            NodeState::Failed(message) => {
                let mut out = "✗  ".to_owned();
                out.append(id);
                out.append("  FAILED  ");
                out.append(elapsed);
                out.append("\n     ");
                out.append(message.as_str());
                Some(out)
            },
            NodeState::Cancelled => {
                let mut out = "-  ".to_owned();
                out.append(id);
                out.append("  cancelled");
                Some(out)
            },
            NodeState::Skipped => None,
        }
    }
}

/// How many outcomes have a state of the given kind.
pub open spec fn tally(outcomes: Seq<OutcomeModel>, kind: spec_fn(StateModel) -> bool) -> nat
    decreases outcomes.len(),
{
    if outcomes.len() == 0 {
        0
    } else {
        tally(outcomes.drop_last(), kind) + if kind(outcomes.last().state) {
            1nat
        } else {
            0nat
        }
    }
}

/// Whether a node ran.
pub open spec fn ran(state: StateModel) -> bool {
    state is Done || state is Failed
}

/// Those among the first `n` outcomes whose node ran.
pub open spec fn ran_at(outcomes: Seq<OutcomeModel>, n: int) -> Seq<int>
    decreases n,
{
    if n <= 0 {
        seq![]
    } else if ran(outcomes[n - 1].state) {
        ran_at(outcomes, n - 1).push(n - 1)
    } else {
        ran_at(outcomes, n - 1)
    }
}

/// The order of a profile: what took longer comes first.
pub open spec fn longer_first(outcomes: Seq<OutcomeModel>) -> spec_fn(int, int) -> bool {
    |a: int, b: int| outcomes[a].duration >= outcomes[b].duration
}

/// `s` with spaces behind it, up to a width.
pub open spec fn padded(s: Seq<char>, width: nat) -> Seq<char> {
    if s.len() >= width {
        s
    } else {
        s + Seq::new((width - s.len()) as nat, |i: int| ' ')
    }
}

/// The first `n` rows of a profile.
pub open spec fn profile_rows(outcomes: Seq<OutcomeModel>, spent: Seq<Seq<char>>, rows: Seq<int>, n: int) -> Seq<char>
    decreases n,
{
    if n <= 0 {
        seq![]
    } else {
        profile_rows(outcomes, spent, rows, n - 1) + "  "@ + padded(outcomes[rows[n - 1]].id, 20) + " "@ + spent[rows[n
            - 1]] + "\n"@
    }
}

/// The time that each node took, the longest first.
pub open spec fn profile_page(outcomes: Seq<OutcomeModel>, spent: Seq<Seq<char>>) -> Seq<char> {
    let rows = ascending(ran_at(outcomes, outcomes.len() as int), longer_first(outcomes));
    "per-node timings:\n"@ + profile_rows(outcomes, spent, rows, rows.len() as int) + "\n"@
}

/// The summary of a run, where `wall` says how long it took and `spent` how long
/// each node did.
pub open spec fn summary_page(report: ReportModel, profile: bool, wall: Seq<char>, spent: Seq<Seq<char>>) -> Seq<char> {
    let outcomes = report.outcomes;
    flag(profile, profile_page(outcomes, spent)) + (if report.failed {
        "BUILD FAILED"@
    } else {
        "build ok"@
    }) + " in "@ + wall + " — "@ + decimal(tally(outcomes, |s: StateModel| s is Done)) + " done, "@ + decimal(
        tally(outcomes, |s: StateModel| s is Skipped),
    ) + " skipped, "@ + decimal(tally(outcomes, |s: StateModel| s is Failed)) + " failed, "@ + decimal(
        tally(outcomes, |s: StateModel| s is Cancelled),
    ) + " cancelled"@ + "\n"@
}

/// Every outcome is counted once in a summary.
pub proof fn law_tallies_add_up(outcomes: Seq<OutcomeModel>)
    ensures
        tally(outcomes, |s: StateModel| s is Done) + tally(outcomes, |s: StateModel| s is Skipped) + tally(
            outcomes,
            |s: StateModel| s is Failed,
        ) + tally(outcomes, |s: StateModel| s is Cancelled) == outcomes.len(),
    decreases outcomes.len(),
{
    if outcomes.len() > 0 {
        law_tallies_add_up(outcomes.drop_last());
    }
}

/// A profile lists what took longer first.
pub proof fn law_profile_longest_first(outcomes: Seq<OutcomeModel>, i: int, j: int)
    requires
        0 <= i < j < ascending(ran_at(outcomes, outcomes.len() as int), longer_first(outcomes)).len(),
    ensures
        ({
            let rows = ascending(ran_at(outcomes, outcomes.len() as int), longer_first(outcomes));
            outcomes[rows[i]].duration >= outcomes[rows[j]].duration
        }),
{
    let le = longer_first(outcomes);
    let s = ran_at(outcomes, outcomes.len() as int);
    assert forall|a: int, b: int| #[trigger] le(a, b) || le(b, a) by {}
    assert forall|a: int, b: int, c: int| #[trigger] le(a, b) && #[trigger] le(b, c) implies le(a, c) by {}
    law_ascending_sorted(s, le);
    let rows = ascending(s, le);
    assert(le(rows[i], rows[j]));
}

/// How many nodes are done, skipped, failed and cancelled.
fn tallies(outcomes: &Vec<NodeOutcome>) -> (r: (usize, usize, usize, usize))
    ensures
        r.0 == tally(outcome_models(outcomes@), |s: StateModel| s is Done),
        r.1 == tally(outcome_models(outcomes@), |s: StateModel| s is Skipped),
        r.2 == tally(outcome_models(outcomes@), |s: StateModel| s is Failed),
        r.3 == tally(outcome_models(outcomes@), |s: StateModel| s is Cancelled),
{
    let ghost all = outcome_models(outcomes@);
    let mut done: usize = 0;
    let mut skipped: usize = 0;
    let mut failed: usize = 0;
    let mut cancelled: usize = 0;
    for i in 0..outcomes.len()
        invariant
            all == outcome_models(outcomes@),
            done == tally(all.take(i as int), |s: StateModel| s is Done),
            skipped == tally(all.take(i as int), |s: StateModel| s is Skipped),
            failed == tally(all.take(i as int), |s: StateModel| s is Failed),
            cancelled == tally(all.take(i as int), |s: StateModel| s is Cancelled),
            done <= i,
            skipped <= i,
            failed <= i,
            cancelled <= i,
    {
        proof {
            assert(all.take(i + 1).drop_last() =~= all.take(i as int));
            assert(all.take(i + 1).last() == outcomes@[i as int]@);
        }
        match &outcomes[i].state {
            NodeState::Done => {
                done += 1;
            },
            NodeState::Skipped => {
                skipped += 1;
            },
            NodeState::Failed(_) => {
                failed += 1;
            },
            NodeState::Cancelled => {
                cancelled += 1;
            },
        }
    }
    assert(all.take(outcomes@.len() as int) =~= all);
    (done, skipped, failed, cancelled)
}

/// The outcomes of nodes that ran, the longest first; equally long ones keep
/// their order.
fn rows_of(outcomes: &Vec<NodeOutcome>) -> (r: Vec<usize>)
    ensures
        ints(r@) == ascending(
            ran_at(outcome_models(outcomes@), outcomes@.len() as int),
            longer_first(outcome_models(outcomes@)),
        ),
        forall|k: int| 0 <= k < r@.len() ==> (#[trigger] r@[k]) < outcomes@.len(),
{
    let ghost all = outcome_models(outcomes@);
    let ghost le = longer_first(all);
    let mut r: Vec<usize> = Vec::new();
    assert(ints(r@) =~= ascending(ran_at(all, 0), le));
    for i in 0..outcomes.len()
        invariant
            all == outcome_models(outcomes@),
            le == longer_first(all),
            ints(r@) == ascending(ran_at(all, i as int), le),
            forall|k: int| 0 <= k < r@.len() ==> (#[trigger] r@[k]) < i,
    {
        assert(all[i as int] == outcomes@[i as int]@);
        let ran = match &outcomes[i].state {
            NodeState::Done => true,
            NodeState::Failed(_) => true,
            _ => false,
        };
        if ran {
            let mut k: usize = r.len();
            while k > 0 && outcomes[r[k - 1]].duration < outcomes[i].duration
                invariant
                    k <= r.len(),
                    i < outcomes.len(),
                    all == outcome_models(outcomes@),
                    le == longer_first(all),
                    forall|j: int| 0 <= j < r@.len() ==> (#[trigger] r@[j]) < i,
                    forall|j: int| k <= j < r.len() ==> !le(#[trigger] ints(r@)[j], i as int),
                decreases k,
            {
                k -= 1;
                assert(all[r@[k as int] as int] == outcomes@[r@[k as int] as int]@);
            }
            let ghost before = ints(r@);
            let ghost upto = ran_at(all, i as int);
            proof {
                if k > 0 {
                    assert(all[r@[k - 1] as int] == outcomes@[r@[k - 1] as int]@);
                    assert(le(before[k - 1], i as int));
                }
                lemma_inserted_at(before, i as int, le, k as int);
                assert(upto.push(i as int).drop_last() =~= upto);
            }
            let ghost old_r = r@;
            r.insert(k, i);
            proof {
                assert(ints(r@) =~= before.insert(k as int, i as int));
                assert forall|j: int| 0 <= j < r@.len() implies (#[trigger] r@[j]) < i + 1 by {
                    if j < k {
                        assert(r@[j] == old_r[j]);
                    } else if j > k {
                        assert(r@[j] == old_r[j - 1]);
                    }
                }
            }
        }
    }
    r
}

fn push_padded(out: &mut String, s: &str, width: usize)
    ensures
        final(out)@ == old(out)@ + padded(s@, width as nat),
{
    let ghost before = out@;
    let n = chars_of(s).len();
    out.append(s);
    let ghost head = out@;
    let mut k: usize = n;
    assert(out@ =~= head + Seq::new(0, |i: int| ' '));
    while k < width
        invariant
            n <= k,
            n <= width ==> k <= width,
            n > width ==> k == n,
            out@ == head + Seq::new((k - n) as nat, |i: int| ' '),
        decreases width - k,
    {
        out.push(' ');
        k += 1;
        assert(out@ =~= head + Seq::new((k - n) as nat, |i: int| ' '));
    }
    assert(out@ =~= before + padded(s@, width as nat));
}

/// The summary for people. `wall` says how long the run took, and `spent` how
/// long each node did; with `profile` it lists the latter, the longest first.
pub fn summary_text(report: &RunReport, profile: bool, wall: &str, spent: &Vec<String>) -> (r: String)
    requires
        spent@.len() == report.outcomes@.len(),
    ensures
        r@ == summary_page(report@, profile, wall@, texts(spent@)),
{
    let mut out = String::new();
    let ghost all = report@.outcomes;
    let ghost times = texts(spent@);
    if profile {
        out.append("per-node timings:\n");
        let rows = rows_of(&report.outcomes);
        let ghost order = ints(rows@);
        let ghost head = out@;
        assert(out@ =~= head + profile_rows(all, times, order, 0));
        for k in 0..rows.len()
            invariant
                spent@.len() == report.outcomes@.len(),
                all == outcome_models(report.outcomes@),
                times == texts(spent@),
                order == ints(rows@),
                forall|j: int| 0 <= j < rows@.len() ==> (#[trigger] rows@[j]) < report.outcomes@.len(),
                out@ == head + profile_rows(all, times, order, k as int),
        {
            let i = rows[k];
            let ghost so_far = profile_rows(all, times, order, k as int);
            assert(all[i as int] == report.outcomes@[i as int]@);
            assert(times[i as int] == spent@[i as int]@);
            out.append("  ");
            push_padded(&mut out, report.outcomes[i].id.as_str(), 20);
            out.append(" ");
            out.append(spent[i].as_str());
            out.append("\n");
            assert(out@ =~= head + (so_far + "  "@ + padded(all[i as int].id, 20) + " "@ + times[i as int] + "\n"@));
        }
        out.append("\n");
    }
    let ghost front = out@;
    assert(front =~= flag(profile, profile_page(all, times)));
    let (done, skipped, failed, cancelled) = tallies(&report.outcomes);
    out.append(
        if report.failed {
            "BUILD FAILED"
        } else {
            "build ok"
        },
    );
    out.append(" in ");
    out.append(wall);
    out.append(" — ");
    push_decimal(&mut out, done as u128);
    out.append(" done, ");
    push_decimal(&mut out, skipped as u128);
    out.append(" skipped, ");
    push_decimal(&mut out, failed as u128);
    out.append(" failed, ");
    push_decimal(&mut out, cancelled as u128);
    out.append(" cancelled");
    out.append("\n");
    out
}

/// A state for programs.
pub open spec fn state_name(state: StateModel) -> Seq<char> {
    match state {
        StateModel::Done => "done"@,
        StateModel::Skipped => "skipped"@,
        StateModel::Cancelled => "cancelled"@,
        StateModel::Failed(message) => "failed: "@ + message,
    }
}

/// One outcome for programs; durations are in whole milliseconds.
pub open spec fn outcome_json(o: OutcomeModel) -> JsonModel {
    JsonModel::Obj(
        seq![
            ("id"@, JsonModel::Str(o.id)),
            ("state"@, JsonModel::Str(state_name(o.state))),
            ("ms"@, JsonModel::Num((o.duration / 1_000_000) as u128)),
        ],
    )
}

/// The summary for programs.
pub open spec fn summary_value(report: ReportModel) -> JsonModel {
    JsonModel::Obj(
        seq![
            ("failed"@, JsonModel::Bool(report.failed)),
            ("wall_ms"@, JsonModel::Num((report.wall / 1_000_000) as u128)),
            ("nodes"@, JsonModel::Arr(report.outcomes.map_values(|o: OutcomeModel| outcome_json(o)))),
        ],
    )
}

fn outcome_value(o: &NodeOutcome) -> (r: Json)
    ensures
        r@ == outcome_json(o@),
{
    let state = match &o.state {
        NodeState::Done => "done".to_owned(),
        NodeState::Skipped => "skipped".to_owned(),
        NodeState::Cancelled => "cancelled".to_owned(),
        NodeState::Failed(message) => {
            let mut out = "failed: ".to_owned();
            out.append(message.as_str());
            out
        },
    };
    let fields = vec![
        field("id", Json::s(o.id.as_str())),
        field("state", Json::s(state.as_str())),
        field("ms", Json::Num(o.duration / 1_000_000)),
    ];
    assert(field_models(fields@) =~= outcome_json(o@)->Obj_0);
    object(fields)
}

/// The summary for programs.
pub fn summary_json(report: &RunReport) -> (r: Json)
    ensures
        r@ == summary_value(report@),
{
    let ghost all = report@.outcomes;
    let mut items: Vec<Json> = Vec::new();
    for i in 0..report.outcomes.len()
        invariant
            all == outcome_models(report.outcomes@),
            items@.len() == i,
            forall|k: int| 0 <= k < i ==> (#[trigger] items@[k])@ == outcome_json(all[k]),
    {
        assert(all[i as int] == report.outcomes@[i as int]@);
        items.push(outcome_value(&report.outcomes[i]));
    }
    assert(json_models(items@) =~= all.map_values(|o: OutcomeModel| outcome_json(o)));
    let fields = vec![
        field("failed", Json::Bool(report.failed)),
        field("wall_ms", Json::Num(report.wall / 1_000_000)),
        field("nodes", array(items)),
    ];
    assert(field_models(fields@) =~= summary_value(report@)->Obj_0);
    object(fields)
}

} // verus!
