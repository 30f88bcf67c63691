//! Cheap checks before a build: the root has to be a Magento root, and gaps that
//! a build without a database runs into are worth a warning.
use vstd::prelude::*;
use vstd::string::StringExecFns;

use crate::text::{chars_of, texts};

verus! {

/// Whether `needle` stands somewhere in `s`.
pub open spec fn holds(s: Seq<char>, needle: Seq<char>) -> bool {
    exists|i: int| stands_at(s, needle, i)
}

/// Whether `needle` stands in `s` at place `i`.
pub open spec fn stands_at(s: Seq<char>, needle: Seq<char>, i: int) -> bool {
    0 <= i && i + needle.len() <= s.len() && s.subrange(i, i + needle.len()) == needle
}

fn found_at(s: &Vec<char>, needle: &Vec<char>, i: usize) -> (r: bool)
    requires
        i + needle.len() <= s.len(),
    ensures
        r == stands_at(s@, needle@, i as int),
{
    let ghost here = s@.subrange(i as int, i + needle@.len());
    for k in 0..needle.len()
        invariant
            i + needle.len() <= s.len(),
            here == s@.subrange(i as int, i + needle@.len()),
            forall|m: int| 0 <= m < k ==> here[m] == needle@[m],
    {
        if s[i + k] != needle[k] {
            assert(here[k as int] != needle@[k as int]);
            return false;
        }
    }
    assert(here =~= needle@);
    true
}

fn holds_text(s: &Vec<char>, needle: &str) -> (r: bool)
    ensures
        r == holds(s@, needle@),
{
    let n = chars_of(needle);
    if n.len() > s.len() {
        return false;
    }
    let last = s.len() - n.len();
    let mut i: usize = last;
    while !found_at(s, &n, i)
        invariant
            i <= last,
            last + n.len() == s.len(),
            n@ == needle@,
            forall|k: int| i < k <= last ==> !#[trigger] stands_at(s@, needle@, k),
        decreases i,
    {
        if i == 0 {
            return false;
        }
        i -= 1;
    }
    true
}

/// Whether a configuration has the `scopes` that a deploy without a database needs.
pub open spec fn has_scopes(config: Seq<char>) -> bool {
    holds(config, "'scopes'"@) || holds(config, "\"scopes\""@)
}

/// Whether a configuration has the `themes` that a deploy without a database needs.
pub open spec fn has_themes(config: Seq<char>) -> bool {
    holds(config, "'themes'"@) || holds(config, "\"themes\""@)
}

/// The warning on a configuration without `scopes`.
pub open spec fn scopes_warning() -> Seq<char> {
    "app/etc/config.php has no `scopes` node — a DB-less static-content deploy needs `bin/magento app:config:dump scopes themes` committed"@
}

/// The warning on a configuration without `themes`.
pub open spec fn themes_warning() -> Seq<char> {
    "app/etc/config.php has no `themes` node — a DB-less static-content deploy needs `bin/magento app:config:dump scopes themes` committed"@
}

/// The warning on a missing `vendor/`.
pub open spec fn vendor_warning() -> Seq<char> {
    "vendor/ is absent and composer-install is not in this run — native di-compile/static-deploy need it; install dependencies first"@
}

/// The warning where it is called for.
pub open spec fn warned(on: bool, warning: Seq<char>) -> Seq<Seq<char>> {
    if on {
        seq![warning]
    } else {
        seq![]
    }
}

/// The warnings before a build: on `scopes` and on `themes`, where the configuration
/// can be read and lacks them, and on `vendor/`, where it is missing and the run does
/// not install it.
pub open spec fn warnings(config: Option<Seq<char>>, vendor_present: bool, installs_vendor: bool) -> Seq<Seq<char>> {
    warned(config is Some && !has_scopes(config->0), scopes_warning()) + warned(
        config is Some && !has_themes(config->0),
        themes_warning(),
    ) + warned(!installs_vendor && !vendor_present, vendor_warning())
}

/// The refusal of a root that is none.
pub open spec fn no_root(root: Seq<char>) -> Seq<char> {
    "no Magento root found at or above "@ + root + " (need app/etc/config.php)"@
}

/// What a check of a root says: its warnings, or why it is refused.
pub open spec fn verdict(
    root: Seq<char>,
    root_found: bool,
    config: Option<Seq<char>>,
    vendor_present: bool,
    installs_vendor: bool,
) -> Result<Seq<Seq<char>>, Seq<char>> {
    if root_found {
        Ok(warnings(config, vendor_present, installs_vendor))
    } else {
        Err(no_root(root))
    }
}

/// Checks a root before a build. `root_found` says whether there is a Magento root
/// at or above it, `config` is the text of `app/etc/config.php` if that can be
/// read, and `vendor_present` says whether `vendor/` is a directory.
pub fn check(
    root: &str,
    root_found: bool,
    config: Option<&str>,
    vendor_present: bool,
    installs_vendor: bool,
) -> (r: Result<Vec<String>, String>)
    ensures
        match r {
            Ok(v) => root_found && texts(v@) == warnings(
                match config {
                    Some(text) => Some(text@),
                    None => None,
                },
                vendor_present,
                installs_vendor,
            ),
            Err(message) => !root_found && message@ == no_root(root@),
        },
        ({
            let text = match config {
                Some(text) => Some(text@),
                None => None,
            };
            match r {
                Ok(v) => verdict(root@, root_found, text, vendor_present, installs_vendor) == Ok::<
                    Seq<Seq<char>>,
                    Seq<char>,
                >(texts(v@)),
                Err(message) => verdict(root@, root_found, text, vendor_present, installs_vendor) == Err::<
                    Seq<Seq<char>>,
                    Seq<char>,
                >(message@),
            }
        }),
{
    if !root_found {
        let mut out = "no Magento root found at or above ".to_owned();
        out.append(root);
        out.append(" (need app/etc/config.php)");
        return Err(out);
    }
    let mut found: Vec<String> = Vec::new();
    if let Some(text) = config {
        let cs = chars_of(text);
        if !holds_text(&cs, "'scopes'") && !holds_text(&cs, "\"scopes\"") {
            found.push(
                "app/etc/config.php has no `scopes` node — a DB-less static-content deploy needs `bin/magento app:config:dump scopes themes` committed".to_owned(),
            );
        }
        if !holds_text(&cs, "'themes'") && !holds_text(&cs, "\"themes\"") {
            found.push(
                "app/etc/config.php has no `themes` node — a DB-less static-content deploy needs `bin/magento app:config:dump scopes themes` committed".to_owned(),
            );
        }
    }
    if !installs_vendor && !vendor_present {
        found.push(
            "vendor/ is absent and composer-install is not in this run — native di-compile/static-deploy need it; install dependencies first".to_owned(),
        );
    }
    assert(texts(found@) =~= warnings(
        match config {
            Some(text) => Some(text@),
            None => None,
        },
        vendor_present,
        installs_vendor,
    ));
    Ok(found)
}

} // verus!
