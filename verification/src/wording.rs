//! What holds of the sentences and labels that people read: each shows what it is
//! about, and a flag exactly where it is set.
use vstd::prelude::*;

use crate::config::{config_message, ConfigErrorModel};
use crate::graph::{description, error_message, step_label, ErrorModel, KindModel, StepModel};
use crate::preflight::{verdict, warnings};
use crate::preset::{preset_note, Preset};
use crate::session::{session_message, SessionErrorModel};
use crate::text::joined;

verus! {

/// A text that is shown where something is set, and nothing where it is not.
pub open spec fn shown_if(on: bool, s: Seq<char>) -> Seq<char> {
    if on {
        s
    } else {
        Seq::empty()
    }
}

/// The label of a step has its name and the options that are set, and no other.
pub proof fn law_labels_show_what_is_set(step: StepModel)
    ensures
        step is ComposerInstall ==> step_label(step) == "composer-install"@ + shown_if(
            step->ComposerInstall_no_dev,
            " --no-dev"@,
        ) + shown_if(step->hardlink, " hardlink"@),
        step is DiCompile ==> step_label(step) == "di-compile"@ + shown_if(step->fused, " --fused"@),
        step is AutoloadDump ==> step_label(step) == "autoload-dump"@ + shown_if(step->optimize, " -o"@) + shown_if(
            step->AutoloadDump_no_dev,
            " --no-dev"@,
        ),
        step is Package ==> step_label(step) == "package -> "@ + step->output,
{
    let none = Seq::<char>::empty();
    assert("composer-install"@ + none =~= "composer-install"@);
}

/// The label of a static deploy lists its themes, locales and areas, the flags that are
/// set, and its version if it has one.
pub proof fn law_deploy_label_shows_what_is_set(step: StepModel)
    requires
        step is StaticDeploy,
    ensures
        ({
            let scope = "static-deploy themes="@ + joined(step->themes, ","@) + " locales="@ + joined(
                step->locales,
                ","@,
            ) + " areas="@ + joined(step->areas, ","@);
            let flags = shown_if(step->no_parent, " --no-parent"@) + shown_if(step->no_less, " --no-less"@) + shown_if(
                step->no_js_bundle,
                " --no-js-bundle"@,
            ) + shown_if(step->no_html_minify, " --no-html-minify"@) + shown_if(step->symlink, " --symlink=file"@);
            &&& step->deployed_version is None ==> step_label(step) == scope + flags
            &&& step->deployed_version matches Some(v) ==> step_label(step) == scope + flags + " version="@ + v
        }),
{
    let scope = "static-deploy themes="@ + joined(step->themes, ","@) + " locales="@ + joined(step->locales, ","@)
        + " areas="@ + joined(step->areas, ","@);
    let a = shown_if(step->no_parent, " --no-parent"@);
    let b = shown_if(step->no_less, " --no-less"@);
    let c = shown_if(step->no_js_bundle, " --no-js-bundle"@);
    let d = shown_if(step->no_html_minify, " --no-html-minify"@);
    let e = shown_if(step->symlink, " --symlink=file"@);
    let none = Seq::<char>::empty();
    lemma_flags(scope, a, b, c, d, e, none);
    assert(scope + (a + b + c + d + e) + none =~= scope + (a + b + c + d + e));
    if step->deployed_version is Some {
        let v = step->deployed_version->0;
        lemma_flags(scope, a, b, c, d, e, " version="@ + v);
        assert(scope + (a + b + c + d + e) + (" version="@ + v) =~= scope + (a + b + c + d + e) + " version="@ + v);
    }
}

proof fn lemma_flags(
    s: Seq<char>,
    a: Seq<char>,
    b: Seq<char>,
    c: Seq<char>,
    d: Seq<char>,
    e: Seq<char>,
    f: Seq<char>,
)
    ensures
        s + a + b + c + d + e + f == s + (a + b + c + d + e) + f,
{
    assert(s + a + b + c + d + e + f =~= s + (a + b + c + d + e) + f);
}

/// A description says whether the node is a built-in step or a command, and which.
pub proof fn law_descriptions_tell_the_kind(kind: KindModel)
    ensures
        kind matches KindModel::Native(step) ==> description(kind) == "native: "@ + step_label(step),
        kind matches KindModel::Command { run, cwd, env } ==> description(kind) == "command: "@ + run,
{
}

/// An error on a graph names the nodes that it is about.
pub proof fn law_errors_name_their_nodes(e: ErrorModel)
    ensures
        e matches ErrorModel::DuplicateId(id) ==> error_message(e) == "duplicate node id: "@ + id,
        e matches ErrorModel::UnknownNode(id) ==> error_message(e) == "unknown node id: "@ + id,
        e matches ErrorModel::UnknownDep { node, dep } ==> error_message(e) == "node `"@ + node
            + "` depends on unknown node `"@ + dep + "`"@,
        e matches ErrorModel::Cycle(ids) ==> error_message(e) == "dependency cycle among: "@ + joined(ids, ", "@),
{
}

/// An error on settings, or on a session, says what was being done and why it failed.
pub proof fn law_errors_say_where(e: ErrorModel, id: Seq<char>)
    ensures
        config_message(ConfigErrorModel::NewNodeNeedsRun(id)) == "new node `"@ + id
            + "` needs a `run` (only built-in nodes can be field-tuned)"@,
        config_message(ConfigErrorModel::Invalid(e)) == "invalid build graph: "@ + error_message(e),
        session_message(SessionErrorModel::Target(e)) == "resolving --only / node target: "@ + error_message(e),
        session_message(SessionErrorModel::Skip(e)) == "applying --skip: "@ + error_message(e),
        session_message(SessionErrorModel::Invalid(e)) == "invalid build graph: "@ + error_message(e),
{
}

/// Whether `needle` stands between two single or two double quotes somewhere in `s`.
pub open spec fn quotes(s: Seq<char>, needle: Seq<char>) -> bool {
    exists|a: Seq<char>, b: Seq<char>|
        s == #[trigger] (a + seq!['\''] + needle + seq!['\''] + b) || s == a + seq!['"'] + needle + seq!['"'] + b
}

proof fn lemma_quotes(s: Seq<char>, needle: Seq<char>, single: Seq<char>, double: Seq<char>)
    requires
        single == seq!['\''] + needle + seq!['\''],
        double == seq!['"'] + needle + seq!['"'],
    ensures
        quotes(s, needle) <==> crate::preflight::holds(s, single) || crate::preflight::holds(s, double),
{
    if crate::preflight::holds(s, single) {
        let i = choose|i: int| crate::preflight::stands_at(s, single, i);
        let a = s.take(i);
        let b = s.skip(i + single.len());
        assert(s.subrange(i, i + single.len()) == single);
        assert(s =~= a + single + b);
        assert(a + seq!['\''] + needle + seq!['\''] + b =~= a + single + b);
        assert(quotes(s, needle));
    }
    if crate::preflight::holds(s, double) {
        let i = choose|i: int| crate::preflight::stands_at(s, double, i);
        let a = s.take(i);
        let b = s.skip(i + double.len());
        assert(s.subrange(i, i + double.len()) == double);
        assert(s =~= a + double + b);
        assert(a + seq!['"'] + needle + seq!['"'] + b =~= a + double + b);
        let x = a + seq!['\''] + needle + seq!['\''] + b;
        assert(quotes(s, needle));
    }
    if quotes(s, needle) {
        let (a, b) = choose|a: Seq<char>, b: Seq<char>|
            s == #[trigger] (a + seq!['\''] + needle + seq!['\''] + b) || s == a + seq!['"'] + needle + seq!['"'] + b;
        let i = a.len() as int;
        if s == a + seq!['\''] + needle + seq!['\''] + b {
            assert(s.subrange(i, i + single.len()) =~= single);
            assert(crate::preflight::stands_at(s, single, i));
        } else {
            assert(s.subrange(i, i + double.len()) =~= double);
            assert(crate::preflight::stands_at(s, double, i));
        }
    }
}

/// Before a build there is a warning exactly where one is called for: on `scopes` and on
/// `themes`, where the configuration can be read and does not name them in quotes; and
/// on `vendor/`, where it is missing and the run does not install it.
pub proof fn law_warnings_are_called_for(config: Option<Seq<char>>, vendor_present: bool, installs_vendor: bool)
    ensures
        ({
            let no_scopes = config matches Some(text) && !quotes(text, "scopes"@);
            let no_themes = config matches Some(text) && !quotes(text, "themes"@);
            let no_vendor = !vendor_present && !installs_vendor;
            let on_scopes =
                "app/etc/config.php has no `scopes` node — a DB-less static-content deploy needs `bin/magento app:config:dump scopes themes` committed"@;
            let on_themes =
                "app/etc/config.php has no `themes` node — a DB-less static-content deploy needs `bin/magento app:config:dump scopes themes` committed"@;
            let on_vendor =
                "vendor/ is absent and composer-install is not in this run — native di-compile/static-deploy need it; install dependencies first"@;
            let w = warnings(config, vendor_present, installs_vendor);
            &&& no_scopes && no_themes && no_vendor ==> w == seq![on_scopes, on_themes, on_vendor]
            &&& no_scopes && no_themes && !no_vendor ==> w == seq![on_scopes, on_themes]
            &&& no_scopes && !no_themes && no_vendor ==> w == seq![on_scopes, on_vendor]
            &&& no_scopes && !no_themes && !no_vendor ==> w == seq![on_scopes]
            &&& !no_scopes && no_themes && no_vendor ==> w == seq![on_themes, on_vendor]
            &&& !no_scopes && no_themes && !no_vendor ==> w == seq![on_themes]
            &&& !no_scopes && !no_themes && no_vendor ==> w == seq![on_vendor]
            &&& !no_scopes && !no_themes && !no_vendor ==> w.len() == 0
        }),
{
    reveal_strlit("scopes");
    reveal_strlit("themes");
    reveal_strlit("'scopes'");
    reveal_strlit("\"scopes\"");
    reveal_strlit("'themes'");
    reveal_strlit("\"themes\"");
    assert("'scopes'"@ =~= seq!['\''] + "scopes"@ + seq!['\'']);
    assert("\"scopes\""@ =~= seq!['"'] + "scopes"@ + seq!['"']);
    assert("'themes'"@ =~= seq!['\''] + "themes"@ + seq!['\'']);
    assert("\"themes\""@ =~= seq!['"'] + "themes"@ + seq!['"']);
    if config is Some {
        let text = config->0;
        lemma_quotes(text, "scopes"@, "'scopes'"@, "\"scopes\""@);
        lemma_quotes(text, "themes"@, "'themes'"@, "\"themes\""@);
    }
}

/// A root is refused exactly where it is none, and the refusal names it.
pub proof fn law_refusal_names_the_root(
    root: Seq<char>,
    root_found: bool,
    config: Option<Seq<char>>,
    vendor_present: bool,
    installs_vendor: bool,
)
    ensures
        ({
            let v = verdict(root, root_found, config, vendor_present, installs_vendor);
            &&& v is Ok <==> root_found
            &&& v matches Ok(w) ==> w == warnings(config, vendor_present, installs_vendor)
            &&& v matches Err(message) ==> message == "no Magento root found at or above "@ + root
                + " (need app/etc/config.php)"@
        }),
{
}

/// A preset warns exactly where it is asked for and finds nothing to build.
pub proof fn law_preset_warns_of_nothing(preset: Option<Preset>, dirs: Seq<Seq<char>>)
    ensures
        preset_note(preset, dirs) is Some <==> preset is Some && dirs.len() == 0,
        preset_note(preset, dirs) matches Some(note) ==> note
            == "--preset hyva found no Hyvä theme web/tailwind (with package.json) under app/design/frontend or vendor/hyva-themes; skipping the npm build step. Add it in magebuild.toml if your Tailwind lives elsewhere."@,
{
    assert(preset is Some ==> preset == Some(Preset::Hyva));
}

} // verus!
