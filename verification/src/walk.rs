//! Walking a tree for an archive: which entries of a directory are archived,
//! which directories are entered, and in which order.
//!
//! Whoever drives the walk lists the directories. Entries and directories carry
//! a token by which the driver finds them again.
use vstd::prelude::*;
use vstd::string::StringExecFns;

use crate::excludes::{excludes, ExcludeMatcher, MatcherModel};
use crate::order::ints;
use crate::path::{portable, portable_text};
use crate::text::{
    ascending, chars_of, is_text_le, law_ascending_permutes, lemma_inserted_at, text_le,
};

verus! {

/// What an entry of a directory is. A link is never followed, so it is no
/// directory.
#[derive(Debug, Clone, Copy, PartialEq, Eq, Structural)]
pub enum EntryKind {
    Directory,
    Other,
    /// Nothing could be learned of it.
    Unreadable,
}

/// An entry of a directory.
#[derive(Debug)]
pub struct Entry {
    pub token: usize,
    pub name: String,
    pub kind: EntryKind,
    /// Whether it is the archive that is being written.
    pub is_output: bool,
}

/// The view of an [`Entry`].
#[verifier::ext_equal]
pub struct EntryModel {
    pub token: usize,
    pub name: Seq<char>,
    pub kind: EntryKind,
    pub is_output: bool,
}

impl View for Entry {
    type V = EntryModel;

    open spec fn view(&self) -> EntryModel {
        EntryModel { token: self.token, name: self.name@, kind: self.kind, is_output: self.is_output }
    }
}

/// The views of a list of entries.
pub open spec fn entries_of(v: Seq<Entry>) -> Seq<EntryModel> {
    v.map_values(|e: Entry| e@)
}

/// A file or directory of the tree, with its path relative to the root.
#[derive(Debug)]
pub struct Place {
    pub token: usize,
    pub rel: String,
}

impl View for Place {
    type V = (usize, Seq<char>);

    open spec fn view(&self) -> (usize, Seq<char>) {
        (self.token, self.rel@)
    }
}

/// The views of a list of places.
pub open spec fn places_of(v: Seq<Place>) -> Seq<(usize, Seq<char>)> {
    v.map_values(|p: Place| p@)
}

/// The path of an entry of the directory `dir`; the root has the empty path.
pub open spec fn below(dir: Seq<char>, name: Seq<char>) -> Seq<char> {
    if dir.len() == 0 {
        name
    } else {
        dir + "/"@ + name
    }
}

/// A path as exclude patterns see it: with `/` in place of `\`.
pub open spec fn slashed(rel: Seq<char>) -> Seq<char> {
    portable_text(rel, '\\')
}

/// What becomes of an entry.
#[derive(Debug, Clone, Copy, PartialEq, Eq, Structural)]
pub enum Fate {
    LeftOut,
    Entered,
    Archived,
}

/// What becomes of an entry: what is unreadable, the archive itself and what is
/// excluded is left out; a directory is entered; anything else is archived.
pub open spec fn fate(m: MatcherModel, dir: Seq<char>, e: EntryModel) -> Fate {
    if e.kind == EntryKind::Unreadable || e.is_output || excludes(m, slashed(below(dir, e.name))) {
        Fate::LeftOut
    } else if e.kind == EntryKind::Directory {
        Fate::Entered
    } else {
        Fate::Archived
    }
}

/// The order of entries: by name.
pub open spec fn by_name(entries: Seq<EntryModel>) -> spec_fn(int, int) -> bool {
    |a: int, b: int| text_le(entries[a].name, entries[b].name)
}

/// The entries in the order in which they are visited.
pub open spec fn visit_order(entries: Seq<EntryModel>) -> Seq<int> {
    ascending(Seq::new(entries.len(), |i: int| i), by_name(entries))
}

/// Those among the first `n` visited entries that meet the given fate.
pub open spec fn met(
    m: MatcherModel,
    dir: Seq<char>,
    entries: Seq<EntryModel>,
    order: Seq<int>,
    f: Fate,
    n: int,
) -> Seq<(usize, Seq<char>)>
    decreases n,
{
    if n <= 0 {
        seq![]
    } else {
        let front = met(m, dir, entries, order, f, n - 1);
        let e = entries[order[n - 1]];
        if fate(m, dir, e) == f {
            front.push((e.token, below(dir, e.name)))
        } else {
            front
        }
    }
}

/// The entries of a directory that meet the given fate, in visiting order.
pub open spec fn with_fate(m: MatcherModel, dir: Seq<char>, entries: Seq<EntryModel>, f: Fate) -> Seq<
    (usize, Seq<char>),
> {
    met(m, dir, entries, visit_order(entries), f, entries.len() as int)
}

fn rel_of(dir: &str, name: &str) -> (r: String)
    ensures
        r@ == below(dir@, name@),
{
    if chars_of(dir).len() == 0 {
        name.to_owned()
    } else {
        let mut out = dir.to_owned();
        out.append("/");
        out.append(name);
        out
    }
}

fn sorted_entries(entries: &Vec<Entry>) -> (r: Vec<usize>)
    ensures
        ints(r@) == visit_order(entries_of(entries@)),
        r@.len() == entries@.len(),
        forall|k: int| 0 <= k < r@.len() ==> (#[trigger] r@[k]) < entries@.len(),
{
    let ghost all = entries_of(entries@);
    let ghost le = by_name(all);
    let ghost every = Seq::new(all.len(), |i: int| i);
    let mut r: Vec<usize> = Vec::new();
    assert(ints(r@) =~= ascending(every.take(0), le));
    for i in 0..entries.len()
        invariant
            all == entries_of(entries@),
            le == by_name(all),
            every == Seq::new(all.len(), |i: int| i),
            r@.len() == i,
            ints(r@) == ascending(every.take(i as int), le),
            forall|k: int| 0 <= k < r@.len() ==> (#[trigger] r@[k]) < i,
    {
        assert(all[i as int] == entries@[i as int]@);
        let mut k: usize = r.len();
        while k > 0 && !is_text_le(entries[r[k - 1]].name.as_str(), entries[i].name.as_str())
            invariant
                k <= r.len(),
                i < entries.len(),
                all == entries_of(entries@),
                all[i as int] == entries@[i as int]@,
                le == by_name(all),
                forall|j: int| 0 <= j < r@.len() ==> (#[trigger] r@[j]) < i,
                forall|j: int| k <= j < r.len() ==> !le(#[trigger] ints(r@)[j], i as int),
            decreases k,
        {
            k -= 1;
            assert(all[r@[k as int] as int] == entries@[r@[k as int] as int]@);
        }
        let ghost before = ints(r@);
        proof {
            if k > 0 {
                assert(all[r@[k - 1] as int] == entries@[r@[k - 1] as int]@);
                assert(le(before[k - 1], i as int));
            }
            lemma_inserted_at(before, i as int, le, k as int);
            assert(every.take(i + 1).drop_last() =~= every.take(i as int));
            assert(every.take(i + 1).last() == i);
        }
        let ghost old_r = r@;
        r.insert(k, i);
        proof {
            assert(ints(r@) =~= before.insert(k as int, i as int));
            assert forall|j: int| 0 <= j < r@.len() implies (#[trigger] r@[j]) < i + 1 by {
                if j < k {
                    assert(r@[j] == old_r[j]);
                } else if j > k {
                    assert(r@[j] == old_r[j - 1]);
                }
            }
        }
    }
    assert(every.take(entries@.len() as int) =~= every);
    r
}

/// A walk in progress: the directories that are still to be listed.
#[derive(Debug)]
pub struct Walk {
    pending: Vec<Place>,
}

impl View for Walk {
    type V = Seq<(usize, Seq<char>)>;

    closed spec fn view(&self) -> Seq<(usize, Seq<char>)> {
        places_of(self.pending@)
    }
}

impl Walk {
    /// A walk that starts at the root.
    pub fn new(root: usize) -> (r: Walk)
        ensures
            r@ == seq![(root, Seq::<char>::empty())],
    {
        let mut pending: Vec<Place> = Vec::new();
        let rel = String::new();
        assert(rel@ =~= seq![]);
        pending.push(Place { token: root, rel });
        let r = Walk { pending };
        assert(r@ =~= seq![(root, Seq::<char>::empty())]);
        r
    }

    /// The directory to list next: the one found last.
    pub fn next_dir(&mut self) -> (r: Option<Place>)
        ensures
            match r {
                Some(p) => old(self)@.len() > 0 && p@ == old(self)@.last() && final(self)@ == old(self)@.drop_last(),
                None => old(self)@.len() == 0 && final(self)@ == old(self)@,
            },
    {
        let ghost before = self@;
        let r = self.pending.pop();
        proof {
            if r is Some {
                assert(self@ =~= before.drop_last());
            } else {
                assert(self@ =~= before);
            }
        }
        r
    }

    /// Takes in the entries of the directory `dir`. The result lists what is to be
    /// archived, by name; directories that are not excluded are listed later.
    pub fn visit(&mut self, dir: &str, entries: &Vec<Entry>, matcher: &ExcludeMatcher) -> (r: Vec<Place>)
        ensures
            places_of(r@) == with_fate(matcher@, dir@, entries_of(entries@), Fate::Archived),
            final(self)@ == old(self)@ + with_fate(matcher@, dir@, entries_of(entries@), Fate::Entered),
    {
        let ghost before = self@;
        let ghost m = matcher@;
        let ghost d = dir@;
        let ghost all = entries_of(entries@);
        let rows = sorted_entries(entries);
        let ghost order = ints(rows@);
        let mut files: Vec<Place> = Vec::new();
        proof {
            assert(places_of(files@) =~= met(m, d, all, order, Fate::Archived, 0));
            assert(self@ =~= before + met(m, d, all, order, Fate::Entered, 0));
        }
        for k in 0..rows.len()
            invariant
                m == matcher@,
                d == dir@,
                all == entries_of(entries@),
                order == ints(rows@),
                rows@.len() == entries@.len(),
                forall|j: int| 0 <= j < rows@.len() ==> (#[trigger] rows@[j]) < entries@.len(),
                places_of(files@) == met(m, d, all, order, Fate::Archived, k as int),
                self@ == before + met(m, d, all, order, Fate::Entered, k as int),
        {
            let e = &entries[rows[k]];
            let ghost files_before = places_of(files@);
            let ghost dirs_before = met(m, d, all, order, Fate::Entered, k as int);
            let ghost pending_before = self@;
            assert(all[order[k as int]] == e@);
            let rel = rel_of(dir, e.name.as_str());
            let left_out = e.kind == EntryKind::Unreadable || e.is_output || matcher.excluded(
                portable(rel.as_str(), '\\').as_str(),
                e.kind == EntryKind::Directory,
            );
            if !left_out {
                let place = Place { token: e.token, rel };
                let ghost p = place@;
                if e.kind == EntryKind::Directory {
                    self.pending.push(place);
                    assert(self@ =~= pending_before.push(p));
                    assert(self@ =~= before + dirs_before.push(p));
                } else {
                    files.push(place);
                    assert(places_of(files@) =~= files_before.push(p));
                }
            }
        }
        files
    }
}

/// Each entry is visited.
pub proof fn lemma_visits_all(entries: Seq<EntryModel>, i: int)
    requires
        0 <= i < entries.len(),
    ensures
        visit_order(entries).contains(i),
        visit_order(entries).len() == entries.len(),
        forall|k: int| 0 <= k < visit_order(entries).len() ==> 0 <= #[trigger] visit_order(entries)[k] < entries.len(),
{
    broadcast use vstd::seq_lib::group_to_multiset_ensures;

    let s = Seq::new(entries.len(), |i: int| i);
    let r = visit_order(entries);
    law_ascending_permutes(s, by_name(entries));
    assert(s[i] == i);
    assert(s.contains(i));
    assert(s.to_multiset().count(i) > 0);
    assert(r.to_multiset().len() == r.len());
    assert(s.to_multiset().len() == s.len());
    assert forall|k: int| 0 <= k < r.len() implies 0 <= #[trigger] r[k] < entries.len() by {
        assert(r.contains(r[k]));
        assert(r.to_multiset().count(r[k]) > 0);
        assert(s.contains(r[k]));
    }
}

proof fn lemma_met(
    m: MatcherModel,
    dir: Seq<char>,
    entries: Seq<EntryModel>,
    order: Seq<int>,
    f: Fate,
    n: int,
    p: (usize, Seq<char>),
)
    requires
        0 <= n <= order.len(),
    ensures
        met(m, dir, entries, order, f, n).contains(p) <==> exists|k: int|
            0 <= k < n && fate(m, dir, entries[#[trigger] order[k]]) == f && p == (
                entries[order[k]].token,
                below(dir, entries[order[k]].name),
            ),
    decreases n,
{
    if n > 0 {
        lemma_met(m, dir, entries, order, f, n - 1, p);
        let front = met(m, dir, entries, order, f, n - 1);
        let all = met(m, dir, entries, order, f, n);
        let e = entries[order[n - 1]];
        if fate(m, dir, e) == f {
            let last = (e.token, below(dir, e.name));
            if all.contains(p) {
                let k = all.index_of(p);
                if k < front.len() {
                    assert(front[k] == p);
                }
            }
            if front.contains(p) {
                assert(all[front.index_of(p)] == p);
            }
            assert(all[front.len() as int] == last);
        }
    }
}

proof fn lemma_order_distinct(entries: Seq<EntryModel>)
    ensures
        visit_order(entries).no_duplicates(),
{
    broadcast use vstd::seq_lib::group_to_multiset_ensures;

    let s = Seq::new(entries.len(), |i: int| i);
    law_ascending_permutes(s, by_name(entries));
    s.lemma_multiset_has_no_duplicates();
    visit_order(entries).lemma_multiset_has_no_duplicates_conv();
}

proof fn lemma_met_once(
    m: MatcherModel,
    dir: Seq<char>,
    entries: Seq<EntryModel>,
    order: Seq<int>,
    f: Fate,
    n: int,
)
    requires
        0 <= n <= order.len(),
        order.no_duplicates(),
        forall|k: int| 0 <= k < order.len() ==> 0 <= #[trigger] order[k] < entries.len(),
        forall|i: int, k: int|
            0 <= i < entries.len() && 0 <= k < entries.len() && i != k ==> (#[trigger] entries[i]).token != (
            #[trigger] entries[k]).token,
    ensures
        forall|a: int, b: int|
            0 <= a < b < met(m, dir, entries, order, f, n).len() ==> (#[trigger] met(m, dir, entries, order, f, n)[a]).0
                != (#[trigger] met(m, dir, entries, order, f, n)[b]).0,
    decreases n,
{
    if n > 0 {
        lemma_met_once(m, dir, entries, order, f, n - 1);
        let front = met(m, dir, entries, order, f, n - 1);
        let all = met(m, dir, entries, order, f, n);
        assert forall|a: int, b: int| 0 <= a < b < all.len() implies (#[trigger] all[a]).0 != (#[trigger] all[b]).0 by {
            assert(all[a] == front[a]);
            if b < front.len() {
                assert(all[b] == front[b]);
            } else {
                lemma_met(m, dir, entries, order, f, n - 1, front[a]);
                assert(front.contains(front[a]));
                let k = choose|k: int|
                    0 <= k < n - 1 && fate(m, dir, entries[#[trigger] order[k]]) == f && front[a] == (
                        entries[order[k]].token,
                        below(dir, entries[order[k]].name),
                    );
                assert(order[k] != order[n - 1]);
                assert(entries[order[k]].token != entries[order[n - 1]].token);
            }
        }
    }
}

/// Where the tokens of a directory differ, no token meets a fate twice.
pub proof fn lemma_with_fate_once(m: MatcherModel, dir: Seq<char>, entries: Seq<EntryModel>, f: Fate)
    requires
        forall|i: int, k: int|
            0 <= i < entries.len() && 0 <= k < entries.len() && i != k ==> (#[trigger] entries[i]).token != (
            #[trigger] entries[k]).token,
    ensures
        forall|a: int, b: int|
            0 <= a < b < with_fate(m, dir, entries, f).len() ==> (#[trigger] with_fate(m, dir, entries, f)[a]).0 != (
            #[trigger] with_fate(m, dir, entries, f)[b]).0,
{
    if entries.len() > 0 {
        lemma_visits_all(entries, 0);
        lemma_order_distinct(entries);
        lemma_met_once(m, dir, entries, visit_order(entries), f, entries.len() as int);
    }
}

/// Nothing of a directory is lost and nothing is made up: what is archived, or
/// entered later, is exactly what has that fate.
pub proof fn law_fates_are_met(
    m: MatcherModel,
    dir: Seq<char>,
    entries: Seq<EntryModel>,
    f: Fate,
    p: (usize, Seq<char>),
)
    ensures
        with_fate(m, dir, entries, f).contains(p) <==> exists|i: int|
            0 <= i < entries.len() && fate(m, dir, #[trigger] entries[i]) == f && p == (
                entries[i].token,
                below(dir, entries[i].name),
            ),
{
    let order = visit_order(entries);
    if entries.len() > 0 {
        lemma_visits_all(entries, 0);
        lemma_met(m, dir, entries, order, f, entries.len() as int, p);
        if exists|i: int|
            0 <= i < entries.len() && fate(m, dir, #[trigger] entries[i]) == f && p == (
                entries[i].token,
                below(dir, entries[i].name),
            ) {
            let i = choose|i: int|
                0 <= i < entries.len() && fate(m, dir, #[trigger] entries[i]) == f && p == (
                    entries[i].token,
                    below(dir, entries[i].name),
                );
            lemma_visits_all(entries, i);
            let k = order.index_of(i);
            assert(entries[order[k]] == entries[i]);
        }
        if with_fate(m, dir, entries, f).contains(p) {
            let k = choose|k: int|
                0 <= k < order.len() && fate(m, dir, entries[#[trigger] order[k]]) == f && p == (
                    entries[order[k]].token,
                    below(dir, entries[order[k]].name),
                );
            assert(fate(m, dir, entries[order[k]]) == f);
        }
    }
}

/// The archive is never packed into itself, and nothing excluded is packed or
/// entered.
pub proof fn law_output_and_excluded_stay_out(m: MatcherModel, dir: Seq<char>, entries: Seq<EntryModel>, i: int)
    requires
        0 <= i < entries.len(),
        entries[i].is_output || excludes(m, slashed(below(dir, entries[i].name))),
        forall|j: int| 0 <= j < entries.len() && j != i ==> (#[trigger] entries[j]).token != entries[i].token,
    ensures
        forall|rel: Seq<char>|
            !(#[trigger] with_fate(m, dir, entries, Fate::Archived).contains((entries[i].token, rel))),
        forall|rel: Seq<char>|
            !(#[trigger] with_fate(m, dir, entries, Fate::Entered).contains((entries[i].token, rel))),
{
    assert forall|rel: Seq<char>| !(#[trigger] with_fate(m, dir, entries, Fate::Archived).contains(
        (entries[i].token, rel),
    )) by {
        law_fates_are_met(m, dir, entries, Fate::Archived, (entries[i].token, rel));
    }
    assert forall|rel: Seq<char>| !(#[trigger] with_fate(m, dir, entries, Fate::Entered).contains(
        (entries[i].token, rel),
    )) by {
        law_fates_are_met(m, dir, entries, Fate::Entered, (entries[i].token, rel));
    }
}

} // verus!
