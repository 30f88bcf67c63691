//! What decides the contents of an archive: its compression and the number of jobs
//! do not.
use vstd::prelude::*;

use crate::excludes::{
    excludes, excludes_in, law_matcher_is_its_patterns, matcher_of, parse_excludes, pattern_matches,
    ExcludeMatcher, MatcherModel,
};
use crate::journey::journey;
use crate::path::parent;
use crate::steps::{ascii_lower, compression, extension, package_plan, Compress, PackageModel, PackagePlan};
use crate::text::texts;
use crate::walk::EntryModel;

verus! {

/// The patterns of an excludes file, where there is one.
pub open spec fn patterns_in(text: Option<Seq<char>>) -> Seq<Seq<char>> {
    match text {
        Some(t) => excludes_in(t),
        None => seq![],
    }
}

/// The matcher for the text of an excludes file, where there is one; without one
/// nothing is excluded.
pub fn matcher_for(text: Option<&str>) -> (r: ExcludeMatcher)
    ensures
        r@ == matcher_of(
            patterns_in(
                match text {
                    Some(t) => Some(t@),
                    None => None,
                },
            ),
        ),
{
    let patterns = match text {
        Some(t) => parse_excludes(t),
        None => Vec::new(),
    };
    assert(text is None ==> texts(patterns@) =~= Seq::<Seq<char>>::empty());
    ExcludeMatcher::new(patterns)
}

/// The matcher that a plan asks for, where `files` has the text of each file.
pub open spec fn plan_matcher(plan: PackageModel, files: spec_fn(Seq<char>) -> Seq<char>) -> MatcherModel {
    matcher_of(
        patterns_in(
            match plan.exclude_from {
                Some(path) => Some(files(path)),
                None => None,
            },
        ),
    )
}

/// What a plan has put into its archive, and in which order, when `n` directories of
/// the tree have been listed.
pub open spec fn packed(
    plan: PackageModel,
    files: spec_fn(Seq<char>) -> Seq<char>,
    tree: spec_fn(usize) -> Seq<EntryModel>,
    root: usize,
    n: nat,
) -> Seq<(usize, Seq<char>)> {
    journey(plan_matcher(plan, files), tree, root, n).archived
}

/// The same is packed, in the same order, whatever the compression and however many
/// jobs there are.
pub proof fn law_same_contents(
    a: Seq<char>,
    b: Seq<char>,
    exclude_from: Option<Seq<char>>,
    i: usize,
    j: usize,
    files: spec_fn(Seq<char>) -> Seq<char>,
    tree: spec_fn(usize) -> Seq<EntryModel>,
    root: usize,
    n: nat,
)
    ensures
        packed(package_plan(a, exclude_from, i), files, tree, root, n) == packed(
            package_plan(b, exclude_from, j),
            files,
            tree,
            root,
            n,
        ),
{
}

/// Two plans for archives in one directory differ in the archive and its compression
/// alone; the number of jobs decides the threads alone, and no job works as one.
pub proof fn law_plans_differ_in_compression(
    a: Seq<char>,
    b: Seq<char>,
    exclude_from: Option<Seq<char>>,
    i: usize,
    j: usize,
)
    ensures
        parent(a) == parent(b) ==> package_plan(b, exclude_from, i) == (PackageModel {
            output: b,
            compress: compression(b),
            ..package_plan(a, exclude_from, i)
        }),
        package_plan(a, exclude_from, j) == (PackageModel {
            threads: package_plan(a, exclude_from, j).threads,
            ..package_plan(a, exclude_from, i)
        }),
        package_plan(a, exclude_from, 0) == package_plan(a, exclude_from, 1),
{
}

/// An extension in lowercase.
pub open spec fn lowered(ext: Option<Seq<char>>) -> Option<Seq<char>> {
    match ext {
        Some(e) => Some(e.map_values(|c: char| ascii_lower(c))),
        None => None,
    }
}

/// The extension alone decides the compression, and its case does not matter: `gz`
/// and `tgz` ask for gzip, `zst` and `tzst` for zstd, anything else for none.
pub proof fn law_extension_decides(a: Seq<char>)
    ensures
        compression(a) == Compress::Gzip <==> lowered(extension(a)) == Some("gz"@) || lowered(extension(a)) == Some("tgz"@),
        compression(a) == Compress::Zstd <==> lowered(extension(a)) == Some("zst"@) || lowered(extension(a)) == Some(
            "tzst"@,
        ),
{
    reveal_strlit("gz");
    reveal_strlit("tgz");
    reveal_strlit("zst");
    reveal_strlit("tzst");
    assert("gz"@.len() == 2);
    assert("tgz"@[0] == 't' && "tgz"@.len() == 3);
    assert("zst"@[0] == 'z' && "zst"@.len() == 3);
    assert("tzst"@.len() == 4);
}

/// What is done before the first entry is packed.
#[derive(Debug, PartialEq, Eq)]
pub enum Preparation {
    /// Reading the excludes file.
    ReadExcludes(String),
    /// Making the directory of the archive.
    MakeDirectory(String),
    /// Creating the archive, or cutting it to nothing, for a stream of this kind.
    CreateArchive { output: String, compress: Compress, threads: usize },
}

/// The view of a [`Preparation`].
#[verifier::ext_equal]
pub enum PreparationModel {
    ReadExcludes(Seq<char>),
    MakeDirectory(Seq<char>),
    CreateArchive { output: Seq<char>, compress: Compress, threads: usize },
}

impl View for Preparation {
    type V = PreparationModel;

    open spec fn view(&self) -> PreparationModel {
        match *self {
            Preparation::ReadExcludes(path) => PreparationModel::ReadExcludes(path@),
            Preparation::MakeDirectory(path) => PreparationModel::MakeDirectory(path@),
            Preparation::CreateArchive { output, compress, threads } => PreparationModel::CreateArchive {
                output: output@,
                compress,
                threads,
            },
        }
    }
}

/// The views of a list of preparations.
pub open spec fn preparation_models(v: Seq<Preparation>) -> Seq<PreparationModel> {
    v.map_values(|p: Preparation| p@)
}

/// What a plan asks to be done before the first entry is packed, in this order.
pub open spec fn preparations(plan: PackageModel) -> Seq<PreparationModel> {
    let read = match plan.exclude_from {
        Some(path) => seq![PreparationModel::ReadExcludes(path)],
        None => seq![],
    };
    let make = match plan.directory {
        Some(path) => seq![PreparationModel::MakeDirectory(path)],
        None => seq![],
    };
    (read + make).push(
        PreparationModel::CreateArchive { output: plan.output, compress: plan.compress, threads: plan.threads },
    )
}

/// What is to be done before the first entry is packed. Each of these has to succeed
/// before the next one is done.
pub fn prepare_archive(plan: &PackagePlan) -> (r: Vec<Preparation>)
    ensures
        preparation_models(r@) == preparations(plan@),
{
    let mut r: Vec<Preparation> = Vec::new();
    if let Some(path) = &plan.exclude_from {
        r.push(Preparation::ReadExcludes(path.clone()));
    }
    if let Some(path) = &plan.directory {
        r.push(Preparation::MakeDirectory(path.clone()));
    }
    r.push(
        Preparation::CreateArchive {
            output: plan.output.clone(),
            compress: plan.compress,
            threads: plan.threads,
        },
    );
    assert(preparation_models(r@) =~= preparations(plan@));
    r
}

/// How many of the first `n` preparations are done where `works` says which of them
/// succeed: the first that does not is the last to be tried, and does not count.
pub open spec fn done_before_failure(
    all: Seq<PreparationModel>,
    works: spec_fn(PreparationModel) -> bool,
    n: int,
) -> int
    decreases n,
{
    if n <= 0 {
        0
    } else {
        let before = done_before_failure(all, works, n - 1);
        if before == n - 1 && works(all[n - 1]) {
            n
        } else {
            before
        }
    }
}

proof fn lemma_done_bound(all: Seq<PreparationModel>, works: spec_fn(PreparationModel) -> bool, n: int, k: int)
    requires
        0 <= k < n <= all.len(),
        !works(all[k]),
    ensures
        0 <= done_before_failure(all, works, n) <= k,
    decreases n,
{
    if k < n - 1 {
        lemma_done_bound(all, works, n - 1, k);
    } else {
        lemma_done_range(all, works, n - 1);
    }
}

proof fn lemma_done_range(all: Seq<PreparationModel>, works: spec_fn(PreparationModel) -> bool, n: int)
    requires
        0 <= n,
    ensures
        0 <= done_before_failure(all, works, n) <= n,
    decreases n,
{
    if n > 0 {
        lemma_done_range(all, works, n - 1);
    }
}

/// An excludes file that cannot be read, or a directory that cannot be made, stops
/// packaging before the archive is created: creating it is the last preparation, and
/// it is not reached.
pub proof fn law_failure_leaves_archive_alone(
    plan: PackageModel,
    works: spec_fn(PreparationModel) -> bool,
    k: int,
)
    requires
        0 <= k < preparations(plan).len() - 1,
        !works(preparations(plan)[k]),
    ensures
        forall|i: int|
            0 <= i < preparations(plan).len() ==> (#[trigger] preparations(plan)[i] is CreateArchive <==> i
                == preparations(plan).len() - 1),
        done_before_failure(preparations(plan), works, preparations(plan).len() as int) <= k,
{
    lemma_done_bound(preparations(plan), works, preparations(plan).len() as int, k);
}

/// The excludes file is read first, wherever there is one.
pub proof fn law_excludes_come_first(plan: PackageModel)
    ensures
        plan.exclude_from matches Some(path) ==> preparations(plan)[0] == PreparationModel::ReadExcludes(path)
            && preparations(plan).len() >= 2,
        preparations(plan).last() == (PreparationModel::CreateArchive {
            output: plan.output,
            compress: plan.compress,
            threads: plan.threads,
        }),
{
}

/// The preparations of a plan are exactly those that it calls for: reading its excludes
/// file if it has one, then making its directory if it has one, then creating the
/// archive.
pub proof fn law_preparations_are_called_for(plan: PackageModel)
    ensures
        ({
            let create = PreparationModel::CreateArchive {
                output: plan.output,
                compress: plan.compress,
                threads: plan.threads,
            };
            let p = preparations(plan);
            &&& plan.exclude_from is None && plan.directory is None ==> p == seq![create]
            &&& plan.exclude_from matches Some(file) ==> plan.directory is None ==> p == seq![
                PreparationModel::ReadExcludes(file),
                create,
            ]
            &&& plan.directory matches Some(dir) ==> plan.exclude_from is None ==> p == seq![
                PreparationModel::MakeDirectory(dir),
                create,
            ]
            &&& plan.exclude_from matches Some(file) ==> (plan.directory matches Some(dir) ==> p == seq![
                PreparationModel::ReadExcludes(file),
                PreparationModel::MakeDirectory(dir),
                create,
            ])
        }),
{
}

/// Without an excludes file nothing is excluded; with one, exactly what one of its
/// patterns matches.
pub proof fn law_excludes_file_decides(
    plan: PackageModel,
    files: spec_fn(Seq<char>) -> Seq<char>,
    rel: Seq<char>,
)
    ensures
        plan.exclude_from is None ==> !excludes(plan_matcher(plan, files), rel),
        plan.exclude_from matches Some(path) ==> (excludes(plan_matcher(plan, files), rel) <==> exists|i: int|
            0 <= i < excludes_in(files(path)).len() && pattern_matches(#[trigger] excludes_in(files(path))[i], rel)),
{
    match plan.exclude_from {
        None => {
            law_matcher_is_its_patterns(seq![], rel);
        },
        Some(path) => {
            law_matcher_is_its_patterns(excludes_in(files(path)), rel);
        },
    }
}

} // verus!
