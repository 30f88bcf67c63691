//! Whole walks: what ends up in an archive.
use vstd::prelude::*;

use crate::excludes::MatcherModel;
use crate::walk::{
    below, fate, law_fates_are_met, lemma_with_fate_once, with_fate, EntryModel, Fate,
};

verus! {

/// A walk of a tree, from its start up to some moment.
pub struct Journey {
    /// The directories that are still to be listed; the last one comes next.
    pub pending: Seq<(usize, Seq<char>)>,
    /// The directories that have been listed.
    pub listed: Seq<(usize, Seq<char>)>,
    /// What has been archived.
    pub archived: Seq<(usize, Seq<char>)>,
}

/// The entries of a directory that meet the given fate, where `tree` has the
/// entries of each directory.
pub open spec fn fated(
    m: MatcherModel,
    tree: spec_fn(usize) -> Seq<EntryModel>,
    dir: (usize, Seq<char>),
    f: Fate,
) -> Seq<(usize, Seq<char>)> {
    with_fate(m, dir.1, tree(dir.0), f)
}

/// A walk of which the next directory has been listed.
pub open spec fn stepped(m: MatcherModel, tree: spec_fn(usize) -> Seq<EntryModel>, j: Journey) -> Journey {
    let dir = j.pending.last();
    Journey {
        pending: j.pending.drop_last() + fated(m, tree, dir, Fate::Entered),
        listed: j.listed.push(dir),
        archived: j.archived + fated(m, tree, dir, Fate::Archived),
    }
}

/// A walk from `root` of which `n` directories have been listed, or as many as
/// there are.
pub open spec fn journey(m: MatcherModel, tree: spec_fn(usize) -> Seq<EntryModel>, root: usize, n: nat) -> Journey
    decreases n,
{
    if n == 0 {
        Journey { pending: seq![(root, seq![])], listed: seq![], archived: seq![] }
    } else {
        let j = journey(m, tree, root, (n - 1) as nat);
        if j.pending.len() > 0 {
            stepped(m, tree, j)
        } else {
            j
        }
    }
}

/// Whether a directory is found `depth` levels below the root by entering only
/// directories that are entered.
pub open spec fn reached(
    m: MatcherModel,
    tree: spec_fn(usize) -> Seq<EntryModel>,
    root: usize,
    dir: (usize, Seq<char>),
    depth: nat,
) -> bool
    decreases depth,
{
    if depth == 0 {
        dir == (root, Seq::<char>::empty())
    } else {
        exists|above: (usize, Seq<char>)|
            reached(m, tree, root, above, (depth - 1) as nat) && #[trigger] fated(
                m,
                tree,
                above,
                Fate::Entered,
            ).contains(dir)
    }
}

/// Whether a directory is found below the root, however deep.
pub open spec fn found_below(
    m: MatcherModel,
    tree: spec_fn(usize) -> Seq<EntryModel>,
    root: usize,
    dir: (usize, Seq<char>),
) -> bool {
    exists|depth: nat| reached(m, tree, root, dir, depth)
}

/// What holds at every moment of a walk.
spec fn consistent(m: MatcherModel, tree: spec_fn(usize) -> Seq<EntryModel>, root: usize, j: Journey) -> bool {
    &&& forall|d: (usize, Seq<char>)| #[trigger] j.listed.contains(d) ==> found_below(m, tree, root, d)
    &&& forall|d: (usize, Seq<char>)| #[trigger] j.pending.contains(d) ==> found_below(m, tree, root, d)
    &&& j.listed.contains((root, Seq::<char>::empty())) || j.pending.contains((root, Seq::<char>::empty()))
    &&& forall|d: (usize, Seq<char>), e: (usize, Seq<char>)|
        #![trigger j.listed.contains(d), fated(m, tree, d, Fate::Entered).contains(e)]
        j.listed.contains(d) && fated(m, tree, d, Fate::Entered).contains(e) ==> j.listed.contains(e)
            || j.pending.contains(e)
    &&& forall|d: (usize, Seq<char>), f: (usize, Seq<char>)|
        #![trigger j.listed.contains(d), fated(m, tree, d, Fate::Archived).contains(f)]
        j.listed.contains(d) && fated(m, tree, d, Fate::Archived).contains(f) ==> j.archived.contains(f)
    &&& forall|f: (usize, Seq<char>)| #[trigger]
        j.archived.contains(f) ==> exists|d: (usize, Seq<char>)| #[trigger]
            j.listed.contains(d) && fated(m, tree, d, Fate::Archived).contains(f)
}

proof fn lemma_contains_push<A>(s: Seq<A>, x: A)
    ensures
        forall|y: A| #[trigger] s.push(x).contains(y) <==> s.contains(y) || y == x,
{
    let t = s.push(x);
    assert forall|y: A| #[trigger] t.contains(y) <==> s.contains(y) || y == x by {
        if t.contains(y) {
            let k = t.index_of(y);
            if k < s.len() {
                assert(s[k] == y);
            }
        }
        if s.contains(y) {
            assert(t[s.index_of(y)] == y);
        }
        assert(t[s.len() as int] == x);
    }
}

proof fn lemma_contains_add<A>(s: Seq<A>, t: Seq<A>)
    ensures
        forall|y: A| #[trigger] (s + t).contains(y) <==> s.contains(y) || t.contains(y),
{
    let u = s + t;
    assert forall|y: A| #[trigger] u.contains(y) <==> s.contains(y) || t.contains(y) by {
        if u.contains(y) {
            let k = u.index_of(y);
            if k < s.len() {
                assert(s[k] == y);
            } else {
                assert(t[k - s.len()] == y);
            }
        }
        if s.contains(y) {
            assert(u[s.index_of(y)] == y);
        }
        if t.contains(y) {
            assert(u[s.len() + t.index_of(y)] == y);
        }
    }
}

proof fn lemma_consistent(m: MatcherModel, tree: spec_fn(usize) -> Seq<EntryModel>, root: usize, n: nat)
    ensures
        consistent(m, tree, root, journey(m, tree, root, n)),
    decreases n,
{
    let top = (root, Seq::<char>::empty());
    if n == 0 {
        let j = journey(m, tree, root, 0);
        assert(j.pending[0] == top);
        assert forall|d: (usize, Seq<char>)| #[trigger] j.pending.contains(d) implies found_below(m, tree, root, d) by {
            assert(reached(m, tree, root, top, 0));
        }
    } else {
        lemma_consistent(m, tree, root, (n - 1) as nat);
        let j = journey(m, tree, root, (n - 1) as nat);
        if j.pending.len() > 0 {
            let dir = j.pending.last();
            let front = j.pending.drop_last();
            let entered = fated(m, tree, dir, Fate::Entered);
            let archived = fated(m, tree, dir, Fate::Archived);
            let k = stepped(m, tree, j);
            assert(front.push(dir) =~= j.pending);
            lemma_contains_push(front, dir);
            lemma_contains_push(j.listed, dir);
            lemma_contains_add(front, entered);
            lemma_contains_add(j.archived, archived);
            assert(found_below(m, tree, root, dir)) by {
                assert(j.pending.contains(dir));
            }
            assert forall|d: (usize, Seq<char>)| #[trigger] k.pending.contains(d) implies found_below(m, tree, root, d) by {
                if entered.contains(d) {
                    let depth = choose|depth: nat| reached(m, tree, root, dir, depth);
                    assert(reached(m, tree, root, d, depth + 1));
                } else {
                    assert(j.pending.contains(d));
                }
            }
            assert forall|d: (usize, Seq<char>), e: (usize, Seq<char>)|
                #![trigger k.listed.contains(d), fated(m, tree, d, Fate::Entered).contains(e)]
                k.listed.contains(d) && fated(m, tree, d, Fate::Entered).contains(e) implies k.listed.contains(e)
                || k.pending.contains(e) by {
                if d != dir || j.listed.contains(d) {
                    assert(j.listed.contains(d));
                    assert(j.listed.contains(e) || j.pending.contains(e));
                }
            }
            assert forall|f: (usize, Seq<char>)| #[trigger] k.archived.contains(f) implies exists|
                d: (usize, Seq<char>),
            | #[trigger] k.listed.contains(d) && fated(m, tree, d, Fate::Archived).contains(f) by {
                if archived.contains(f) {
                    assert(k.listed.contains(dir));
                } else {
                    assert(j.archived.contains(f));
                    let d = choose|d: (usize, Seq<char>)| #[trigger]
                        j.listed.contains(d) && fated(m, tree, d, Fate::Archived).contains(f);
                    assert(k.listed.contains(d));
                }
            }
        }
    }
}

proof fn lemma_all_listed(
    m: MatcherModel,
    tree: spec_fn(usize) -> Seq<EntryModel>,
    root: usize,
    j: Journey,
    dir: (usize, Seq<char>),
    depth: nat,
)
    requires
        consistent(m, tree, root, j),
        j.pending.len() == 0,
        reached(m, tree, root, dir, depth),
    ensures
        j.listed.contains(dir),
    decreases depth,
{
    if depth > 0 {
        let above = choose|above: (usize, Seq<char>)|
            reached(m, tree, root, above, (depth - 1) as nat) && #[trigger] fated(
                m,
                tree,
                above,
                Fate::Entered,
            ).contains(dir);
        lemma_all_listed(m, tree, root, j, above, (depth - 1) as nat);
        assert(fated(m, tree, above, Fate::Entered).contains(dir));
    }
}

/// A walk that is over has archived exactly what is to be archived: the entries
/// that are neither excluded nor the archive itself nor unreadable, of every
/// directory that can be reached from the root through directories of that kind.
pub proof fn law_walk_is_complete(
    m: MatcherModel,
    tree: spec_fn(usize) -> Seq<EntryModel>,
    root: usize,
    n: nat,
    f: (usize, Seq<char>),
)
    requires
        journey(m, tree, root, n).pending.len() == 0,
    ensures
        journey(m, tree, root, n).archived.contains(f) <==> exists|d: (usize, Seq<char>)| #[trigger]
            found_below(m, tree, root, d) && fated(m, tree, d, Fate::Archived).contains(f),
{
    lemma_consistent(m, tree, root, n);
    let j = journey(m, tree, root, n);
    if j.archived.contains(f) {
        let d = choose|d: (usize, Seq<char>)| #[trigger]
            j.listed.contains(d) && fated(m, tree, d, Fate::Archived).contains(f);
        assert(found_below(m, tree, root, d));
    }
    if exists|d: (usize, Seq<char>)| #[trigger]
        found_below(m, tree, root, d) && fated(m, tree, d, Fate::Archived).contains(f) {
        let d = choose|d: (usize, Seq<char>)| #[trigger]
            found_below(m, tree, root, d) && fated(m, tree, d, Fate::Archived).contains(f);
        let depth = choose|depth: nat| reached(m, tree, root, d, depth);
        lemma_all_listed(m, tree, root, j, d, depth);
    }
}

/// At every moment of a walk, what has been archived belongs there.
pub proof fn law_walk_is_sound(
    m: MatcherModel,
    tree: spec_fn(usize) -> Seq<EntryModel>,
    root: usize,
    n: nat,
    f: (usize, Seq<char>),
)
    requires
        journey(m, tree, root, n).archived.contains(f),
    ensures
        exists|d: (usize, Seq<char>)| #[trigger]
            found_below(m, tree, root, d) && fated(m, tree, d, Fate::Archived).contains(f),
{
    lemma_consistent(m, tree, root, n);
    let j = journey(m, tree, root, n);
    let d = choose|d: (usize, Seq<char>)| #[trigger]
        j.listed.contains(d) && fated(m, tree, d, Fate::Archived).contains(f);
    assert(found_below(m, tree, root, d));
}

/// Whether no token stands for two entries of the tree, and none of them is the root.
pub open spec fn tokens_distinct(tree: spec_fn(usize) -> Seq<EntryModel>, root: usize) -> bool {
    &&& forall|s: usize, i: int, t: usize, k: int|
        #![trigger tree(s)[i], tree(t)[k]]
        0 <= i < tree(s).len() && 0 <= k < tree(t).len() && tree(s)[i].token == tree(t)[k].token ==> s == t && i == k
    &&& forall|s: usize, i: int| 0 <= i < tree(s).len() ==> (#[trigger] tree(s)[i]).token != root
}

/// Whether no token stands twice in a list of places.
pub open spec fn each_once(s: Seq<(usize, Seq<char>)>) -> bool {
    forall|a: int, b: int| 0 <= a < b < s.len() ==> (#[trigger] s[a]).0 != (#[trigger] s[b]).0
}

/// Whether two lists of places have no token in common.
spec fn apart(s: Seq<(usize, Seq<char>)>, t: Seq<(usize, Seq<char>)>) -> bool {
    forall|a: int, b: int| 0 <= a < s.len() && 0 <= b < t.len() ==> (#[trigger] s[a]).0 != (#[trigger] t[b]).0
}

/// Whether every place of `s` is the root or stands for an entry of a directory in
/// `dirs`.
#[verifier::opaque]
spec fn entries_under(
    tree: spec_fn(usize) -> Seq<EntryModel>,
    dirs: Seq<(usize, Seq<char>)>,
    s: Seq<(usize, Seq<char>)>,
    root: usize,
) -> bool {
    forall|a: int|
        0 <= a < s.len() ==> (#[trigger] s[a]).0 == root || exists|d: int, i: int|
            0 <= d < dirs.len() && 0 <= i < tree(dirs[d].0).len() && (#[trigger] tree(dirs[d].0)[i]).token == s[a].0
}

/// Whether every place of `s` stands for an entry of `dir`.
#[verifier::opaque]
spec fn entries_of_dir(
    tree: spec_fn(usize) -> Seq<EntryModel>,
    dir: (usize, Seq<char>),
    s: Seq<(usize, Seq<char>)>,
) -> bool {
    forall|a: int|
        0 <= a < s.len() ==> exists|i: int|
            0 <= i < tree(dir.0).len() && (#[trigger] tree(dir.0)[i]).token == (#[trigger] s[a]).0
}

/// The places with a fate stand for entries of their directory, each once.
proof fn lemma_fated_once(
    m: MatcherModel,
    tree: spec_fn(usize) -> Seq<EntryModel>,
    root: usize,
    dir: (usize, Seq<char>),
    f: Fate,
)
    requires
        tokens_distinct(tree, root),
    ensures
        each_once(fated(m, tree, dir, f)),
        entries_of_dir(tree, dir, fated(m, tree, dir, f)),
{
    reveal(entries_of_dir);
    let entries = tree(dir.0);
    assert forall|i: int, k: int| 0 <= i < entries.len() && 0 <= k < entries.len() && i != k implies (
    #[trigger] entries[i]).token != (#[trigger] entries[k]).token by {
        assert(tree(dir.0)[i] == entries[i]);
        assert(tree(dir.0)[k] == entries[k]);
    }
    lemma_with_fate_once(m, dir.1, entries, f);
    let s = fated(m, tree, dir, f);
    assert forall|a: int| 0 <= a < s.len() implies exists|i: int|
        0 <= i < tree(dir.0).len() && (#[trigger] tree(dir.0)[i]).token == (#[trigger] s[a]).0 by {
        law_fates_are_met(m, dir.1, entries, f, s[a]);
        assert(s.contains(s[a]));
        let i = choose|i: int|
            0 <= i < entries.len() && fate(m, dir.1, #[trigger] entries[i]) == f && s[a] == (
                entries[i].token,
                below(dir.1, entries[i].name),
            );
        assert(tree(dir.0)[i].token == s[a].0);
    }
}

/// What holds at every moment of a walk whose tokens are distinct.
spec fn once_so_far(tree: spec_fn(usize) -> Seq<EntryModel>, root: usize, j: Journey) -> bool {
    &&& each_once(j.listed)
    &&& each_once(j.pending)
    &&& each_once(j.archived)
    &&& apart(j.listed, j.pending)
    &&& entries_under(tree, j.listed, j.listed, root)
    &&& entries_under(tree, j.listed, j.pending, root)
    &&& entries_under(tree, j.listed, j.archived, root)
}

/// New places of a directory that has not been listed have tokens that are new.
proof fn lemma_new_tokens(
    tree: spec_fn(usize) -> Seq<EntryModel>,
    root: usize,
    dirs: Seq<(usize, Seq<char>)>,
    dir: (usize, Seq<char>),
    known: Seq<(usize, Seq<char>)>,
    new: Seq<(usize, Seq<char>)>,
)
    requires
        tokens_distinct(tree, root),
        entries_under(tree, dirs, known, root),
        forall|d: int| 0 <= d < dirs.len() ==> (#[trigger] dirs[d]).0 != dir.0,
        entries_of_dir(tree, dir, new),
    ensures
        apart(known, new),
{
    reveal(entries_of_dir);
    reveal(entries_under);
    assert forall|a: int, b: int| 0 <= a < known.len() && 0 <= b < new.len() implies (#[trigger] known[a]).0 != (
    #[trigger] new[b]).0 by {
        let i = choose|i: int| 0 <= i < tree(dir.0).len() && (#[trigger] tree(dir.0)[i]).token == new[b].0;
        if known[a].0 == new[b].0 {
            assert(tree(dir.0)[i].token != root);
            let (d, k) = choose|d: int, k: int|
                0 <= d < dirs.len() && 0 <= k < tree(dirs[d].0).len() && (#[trigger] tree(dirs[d].0)[k]).token
                    == known[a].0;
            assert(tree(dirs[d].0)[k].token == tree(dir.0)[i].token);
            assert(dirs[d].0 != dir.0);
        }
    }
}

/// What stands under some directories stands under more of them.
proof fn lemma_under_more(
    tree: spec_fn(usize) -> Seq<EntryModel>,
    dirs: Seq<(usize, Seq<char>)>,
    dir: (usize, Seq<char>),
    s: Seq<(usize, Seq<char>)>,
    root: usize,
)
    requires
        entries_under(tree, dirs, s, root),
    ensures
        entries_under(tree, dirs.push(dir), s, root),
{
    reveal(entries_under);
    let more = dirs.push(dir);
    assert forall|a: int| 0 <= a < s.len() implies (#[trigger] s[a]).0 == root || exists|d: int, i: int|
        0 <= d < more.len() && 0 <= i < tree(more[d].0).len() && (#[trigger] tree(more[d].0)[i]).token == s[a].0 by {
        if s[a].0 != root {
            let (d, i) = choose|d: int, i: int|
                0 <= d < dirs.len() && 0 <= i < tree(dirs[d].0).len() && (#[trigger] tree(dirs[d].0)[i]).token == s[a].0;
            assert(more[d] == dirs[d]);
            assert(tree(more[d].0)[i].token == s[a].0);
        }
    }
}

/// What stands under a directory stands under a list that ends in it.
proof fn lemma_under_last(
    tree: spec_fn(usize) -> Seq<EntryModel>,
    dirs: Seq<(usize, Seq<char>)>,
    dir: (usize, Seq<char>),
    s: Seq<(usize, Seq<char>)>,
    root: usize,
)
    requires
        entries_of_dir(tree, dir, s),
    ensures
        entries_under(tree, dirs.push(dir), s, root),
{
    reveal(entries_of_dir);
    reveal(entries_under);
    let more = dirs.push(dir);
    assert forall|a: int| 0 <= a < s.len() implies (#[trigger] s[a]).0 == root || exists|d: int, i: int|
        0 <= d < more.len() && 0 <= i < tree(more[d].0).len() && (#[trigger] tree(more[d].0)[i]).token == s[a].0 by {
        let i = choose|i: int| 0 <= i < tree(dir.0).len() && (#[trigger] tree(dir.0)[i]).token == s[a].0;
        assert(more[dirs.len() as int] == dir);
        assert(tree(more[dirs.len() as int].0)[i].token == s[a].0);
    }
}

proof fn lemma_under_joined(
    tree: spec_fn(usize) -> Seq<EntryModel>,
    dirs: Seq<(usize, Seq<char>)>,
    s: Seq<(usize, Seq<char>)>,
    t: Seq<(usize, Seq<char>)>,
    root: usize,
)
    requires
        entries_under(tree, dirs, s, root),
        entries_under(tree, dirs, t, root),
    ensures
        entries_under(tree, dirs, s + t, root),
{
    reveal(entries_under);
    let u = s + t;
    assert forall|a: int| 0 <= a < u.len() implies (#[trigger] u[a]).0 == root || exists|d: int, i: int|
        0 <= d < dirs.len() && 0 <= i < tree(dirs[d].0).len() && (#[trigger] tree(dirs[d].0)[i]).token == u[a].0 by {
        if a < s.len() {
            assert(s[a] == u[a]);
        } else {
            assert(t[a - s.len()] == u[a]);
        }
    }
}

/// Two lists that are apart, and in which each token stands once, have each token
/// once together.
proof fn lemma_joined_once(s: Seq<(usize, Seq<char>)>, t: Seq<(usize, Seq<char>)>)
    requires
        each_once(s),
        each_once(t),
        apart(s, t),
    ensures
        each_once(s + t),
{
    let u = s + t;
    assert forall|a: int, b: int| 0 <= a < b < u.len() implies (#[trigger] u[a]).0 != (#[trigger] u[b]).0 by {
        if b < s.len() {
            assert(s[a].0 != s[b].0);
        } else if a >= s.len() {
            assert(t[a - s.len()].0 != t[b - s.len()].0);
        } else {
            assert(s[a].0 != t[b - s.len()].0);
        }
    }
}

/// Moving the last pending place to the listed ones, and queueing new places, keeps
/// each token once.
proof fn lemma_lists_once(
    listed: Seq<(usize, Seq<char>)>,
    pending: Seq<(usize, Seq<char>)>,
    entered: Seq<(usize, Seq<char>)>,
)
    requires
        pending.len() > 0,
        each_once(listed),
        each_once(pending),
        each_once(entered),
        apart(listed, pending),
        apart(listed, entered),
        apart(pending, entered),
    ensures
        each_once(listed.push(pending.last())),
        each_once(pending.drop_last() + entered),
        apart(listed.push(pending.last()), pending.drop_last() + entered),
{
    let last = pending.len() - 1;
    let front = pending.drop_last();
    let l = listed.push(pending.last());
    let p = front + entered;
    assert forall|a: int, b: int| 0 <= a < b < front.len() implies (#[trigger] front[a]).0 != (#[trigger] front[b]).0 by {
        assert(pending[a].0 != pending[b].0);
    }
    assert forall|a: int, b: int| 0 <= a < front.len() && 0 <= b < entered.len() implies (#[trigger] front[a]).0 != (
    #[trigger] entered[b]).0 by {
        assert(pending[a].0 != entered[b].0);
    }
    lemma_joined_once(front, entered);
    assert forall|a: int, b: int| 0 <= a < b < l.len() implies (#[trigger] l[a]).0 != (#[trigger] l[b]).0 by {
        if b < listed.len() {
            assert(listed[a].0 != listed[b].0);
        } else {
            assert(listed[a].0 != pending[last].0);
        }
    }
    assert forall|a: int, b: int| 0 <= a < l.len() && 0 <= b < p.len() implies (#[trigger] l[a]).0 != (
    #[trigger] p[b]).0 by {
        if b < front.len() {
            if a < listed.len() {
                assert(listed[a].0 != pending[b].0);
            } else {
                assert(pending[b].0 != pending[last].0);
            }
        } else if a < listed.len() {
            assert(listed[a].0 != entered[b - front.len()].0);
        } else {
            assert(pending[last].0 != entered[b - front.len()].0);
        }
    }
}

/// A part of what stands under directories stands under them.
proof fn lemma_under_part(
    tree: spec_fn(usize) -> Seq<EntryModel>,
    dirs: Seq<(usize, Seq<char>)>,
    s: Seq<(usize, Seq<char>)>,
    from: int,
    to: int,
    root: usize,
)
    requires
        0 <= from <= to <= s.len(),
        entries_under(tree, dirs, s, root),
    ensures
        entries_under(tree, dirs, s.subrange(from, to), root),
{
    reveal(entries_under);
    let t = s.subrange(from, to);
    assert forall|a: int| 0 <= a < t.len() implies (#[trigger] t[a]).0 == root || exists|d: int, i: int|
        0 <= d < dirs.len() && 0 <= i < tree(dirs[d].0).len() && (#[trigger] tree(dirs[d].0)[i]).token == t[a].0 by {
        assert(s[from + a] == t[a]);
    }
}

/// What is listed, pending and archived after a step stands under what is listed.
proof fn lemma_under_step(
    tree: spec_fn(usize) -> Seq<EntryModel>,
    root: usize,
    j: Journey,
    entered: Seq<(usize, Seq<char>)>,
    archived: Seq<(usize, Seq<char>)>,
)
    requires
        j.pending.len() > 0,
        entries_under(tree, j.listed, j.listed, root),
        entries_under(tree, j.listed, j.pending, root),
        entries_under(tree, j.listed, j.archived, root),
        entries_of_dir(tree, j.pending.last(), entered),
        entries_of_dir(tree, j.pending.last(), archived),
    ensures
        entries_under(tree, j.listed.push(j.pending.last()), j.listed.push(j.pending.last()), root),
        entries_under(tree, j.listed.push(j.pending.last()), j.pending.drop_last() + entered, root),
        entries_under(tree, j.listed.push(j.pending.last()), j.archived + archived, root),
{
    let dir = j.pending.last();
    let n = j.pending.len() as int;
    let front = j.pending.drop_last();
    let more = j.listed.push(dir);
    lemma_under_part(tree, j.listed, j.pending, 0, n - 1, root);
    assert(j.pending.subrange(0, n - 1) =~= front);
    lemma_under_part(tree, j.listed, j.pending, n - 1, n, root);
    lemma_under_joined(tree, j.listed, j.listed, j.pending.subrange(n - 1, n), root);
    assert(j.listed + j.pending.subrange(n - 1, n) =~= more);
    lemma_under_more(tree, j.listed, dir, more, root);
    lemma_under_more(tree, j.listed, dir, front, root);
    lemma_under_last(tree, j.listed, dir, entered, root);
    lemma_under_joined(tree, more, front, entered, root);
    lemma_under_more(tree, j.listed, dir, j.archived, root);
    lemma_under_last(tree, j.listed, dir, archived, root);
    lemma_under_joined(tree, more, j.archived, archived, root);
}

proof fn lemma_once_step(m: MatcherModel, tree: spec_fn(usize) -> Seq<EntryModel>, root: usize, j: Journey)
    requires
        tokens_distinct(tree, root),
        once_so_far(tree, root, j),
        j.pending.len() > 0,
    ensures
        once_so_far(tree, root, stepped(m, tree, j)),
{
    let dir = j.pending.last();
    let entered = fated(m, tree, dir, Fate::Entered);
    let archived = fated(m, tree, dir, Fate::Archived);
    lemma_fated_once(m, tree, root, dir, Fate::Entered);
    lemma_fated_once(m, tree, root, dir, Fate::Archived);
    assert forall|d: int| 0 <= d < j.listed.len() implies (#[trigger] j.listed[d]).0 != dir.0 by {
        assert(j.pending[j.pending.len() - 1].0 != j.listed[d].0);
    }
    lemma_new_tokens(tree, root, j.listed, dir, j.listed, entered);
    lemma_new_tokens(tree, root, j.listed, dir, j.pending, entered);
    lemma_new_tokens(tree, root, j.listed, dir, j.archived, archived);
    lemma_lists_once(j.listed, j.pending, entered);
    lemma_joined_once(j.archived, archived);
    lemma_under_step(tree, root, j, entered, archived);
}

proof fn lemma_once(m: MatcherModel, tree: spec_fn(usize) -> Seq<EntryModel>, root: usize, n: nat)
    requires
        tokens_distinct(tree, root),
    ensures
        once_so_far(tree, root, journey(m, tree, root, n)),
    decreases n,
{
    if n == 0 {
        reveal(entries_under);
    } else {
        lemma_once(m, tree, root, (n - 1) as nat);
        let j = journey(m, tree, root, (n - 1) as nat);
        if j.pending.len() > 0 {
            lemma_once_step(m, tree, root, j);
        }
    }
}

/// Where no token stands for two entries, nothing is archived twice and no directory
/// is listed twice.
pub proof fn law_walk_archives_once(
    m: MatcherModel,
    tree: spec_fn(usize) -> Seq<EntryModel>,
    root: usize,
    n: nat,
)
    requires
        tokens_distinct(tree, root),
    ensures
        journey(m, tree, root, n).archived.no_duplicates(),
        each_once(journey(m, tree, root, n).archived),
        journey(m, tree, root, n).listed.no_duplicates(),
        each_once(journey(m, tree, root, n).listed),
{
    lemma_once(m, tree, root, n);
    let j = journey(m, tree, root, n);
    lemma_once_no_duplicates(j.archived);
    lemma_once_no_duplicates(j.listed);
}

proof fn lemma_once_no_duplicates(s: Seq<(usize, Seq<char>)>)
    requires
        each_once(s),
    ensures
        s.no_duplicates(),
{
    assert forall|a: int, b: int| 0 <= a < s.len() && 0 <= b < s.len() && a != b implies s[a] != s[b] by {
        if a < b {
            assert(s[a].0 != s[b].0);
        } else {
            assert(s[b].0 != s[a].0);
        }
    }
}

} // verus!
