//! Paths as text whose parts are separated by `/`. Where the machine separates them
//! by another character, [`portable`] brings a path into this form.
use vstd::prelude::*;
use vstd::string::StringExecFns;

use crate::text::{
    ascending, chars_of, is_text_le, join_texts, joined, law_ascending_sorted, law_split_of_joined,
    law_text_le_antisymmetric, law_text_le_total, law_text_le_transitive, lemma_inserted_at,
    lemma_split_pieces, same_text, split, split_text, text_le, texts,
};

verus! {

/// A path with `/` in place of the machine's separator.
pub open spec fn portable_text(path: Seq<char>, separator: char) -> Seq<char> {
    path.map_values(
        |c: char|
            if c == separator {
                '/'
            } else {
                c
            },
    )
}

/// The path with `/` in place of `separator`, by which the machine separates the parts
/// of a path.
pub fn portable(path: &str, separator: char) -> (r: String)
    ensures
        r@ == portable_text(path@, separator),
        separator == '/' ==> r@ == path@,
{
    let cs = chars_of(path);
    let mut r = String::new();
    let ghost want = portable_text(path@, separator);
    for i in 0..cs.len()
        invariant
            cs@ == path@,
            want == portable_text(path@, separator),
            r@ == want.take(i as int),
    {
        r.push(
            if cs[i] == separator {
                '/'
            } else {
                cs[i]
            },
        );
        assert(r@ =~= want.take(i + 1));
    }
    proof {
        assert(want.take(cs@.len() as int) =~= want);
        if separator == '/' {
            assert(want =~= path@);
        }
    }
    r
}

/// One component of a path.
#[derive(Debug, PartialEq, Eq)]
pub enum Part {
    /// The leading `/` of an absolute path.
    Root,
    /// A leading `.`.
    Here,
    /// `..`.
    Up,
    /// Any other name.
    Name(String),
}

/// The view of a [`Part`].
#[verifier::ext_equal]
pub enum PartModel {
    Root,
    Here,
    Up,
    Name(Seq<char>),
}

impl View for Part {
    type V = PartModel;

    open spec fn view(&self) -> PartModel {
        match *self {
            Part::Root => PartModel::Root,
            Part::Here => PartModel::Here,
            Part::Up => PartModel::Up,
            Part::Name(name) => PartModel::Name(name@),
        }
    }
}

/// The views of a list of components.
pub open spec fn part_models(s: Seq<Part>) -> Seq<PartModel> {
    s.map_values(|p: Part| p@)
}

/// Whether the `i`-th piece of a path is a component: empty pieces are not, and
/// `.` only at the very start.
pub open spec fn counts(pieces: Seq<Seq<char>>, i: int) -> bool {
    pieces[i].len() > 0 && (pieces[i] == "."@ ==> i == 0)
}

/// The component that a piece stands for.
pub open spec fn part_of(piece: Seq<char>) -> PartModel {
    if piece == "."@ {
        PartModel::Here
    } else if piece == ".."@ {
        PartModel::Up
    } else {
        PartModel::Name(piece)
    }
}

/// The components among the first `n` pieces.
pub open spec fn parts_among(pieces: Seq<Seq<char>>, n: int) -> Seq<PartModel>
    decreases n,
{
    if n <= 0 {
        seq![]
    } else if counts(pieces, n - 1) {
        parts_among(pieces, n - 1).push(part_of(pieces[n - 1]))
    } else {
        parts_among(pieces, n - 1)
    }
}

/// Whether a path is absolute.
pub open spec fn is_absolute(path: Seq<char>) -> bool {
    path.len() > 0 && path[0] == '/'
}

/// The leading component of an absolute path.
pub open spec fn root_part(path: Seq<char>) -> Seq<PartModel> {
    if is_absolute(path) {
        seq![PartModel::Root]
    } else {
        seq![]
    }
}

/// The components of a path. Paths with the same components are the same path.
pub open spec fn components(path: Seq<char>) -> Seq<PartModel> {
    let pieces = split(path, '/');
    root_part(path) + parts_among(pieces, pieces.len() as int)
}

fn piece_counts(pieces: &Vec<String>, i: usize) -> (r: bool)
    requires
        i < pieces.len(),
    ensures
        r == counts(texts(pieces@), i as int),
{
    let s = pieces[i].as_str();
    proof {
        reveal_strlit("");
        assert(texts(pieces@)[i as int] == s@);
        if s@.len() == 0 {
            assert(s@ =~= ""@);
        }
    }
    !same_text(s, "") && (i == 0 || !same_text(s, "."))
}

fn starts_at_root(path: &str) -> (r: bool)
    ensures
        r == is_absolute(path@),
{
    let cs = chars_of(path);
    cs.len() > 0 && cs[0] == '/'
}

/// The components of `path`.
pub fn components_of(path: &str) -> (r: Vec<Part>)
    ensures
        part_models(r@) == components(path@),
{
    let pieces = split_text(path, '/');
    let ghost all = texts(pieces@);
    let mut r: Vec<Part> = Vec::new();
    let ghost head = root_part(path@);
    if starts_at_root(path) {
        r.push(Part::Root);
    }
    assert(part_models(r@) =~= head + parts_among(all, 0));
    for i in 0..pieces.len()
        invariant
            all == texts(pieces@),
            part_models(r@) == head + parts_among(all, i as int),
    {
        let ghost before = part_models(r@);
        let ghost upto = parts_among(all, i as int);
        if piece_counts(&pieces, i) {
            let piece = pieces[i].as_str();
            assert(all[i as int] == piece@);
            let part = if same_text(piece, ".") {
                Part::Here
            } else if same_text(piece, "..") {
                Part::Up
            } else {
                Part::Name(pieces[i].clone())
            };
            let ghost model = part@;
            r.push(part);
            proof {
                assert(model == part_of(all[i as int]));
                assert(part_models(r@) =~= before.push(model));
                assert(head + upto.push(model) =~= before.push(model));
            }
        }
    }
    r
}

/// How many pieces of a path come before its last component, or -1 where no piece
/// is a component.
pub open spec fn last_counting(pieces: Seq<Seq<char>>, n: int) -> int
    decreases n,
{
    if n <= 0 {
        -1
    } else if counts(pieces, n - 1) {
        n - 1
    } else {
        last_counting(pieces, n - 1)
    }
}

/// The path without its last component; `None` where it has none but perhaps the
/// root.
pub open spec fn parent(path: Seq<char>) -> Option<Seq<char>> {
    let pieces = split(path, '/');
    let k = last_counting(pieces, pieces.len() as int);
    if k < 0 {
        None
    } else if k == 0 {
        Some(seq![])
    } else if k == 1 && is_absolute(path) {
        Some(seq!['/'])
    } else {
        Some(joined(pieces.take(k), seq!['/']))
    }
}

proof fn lemma_last_counting(pieces: Seq<Seq<char>>, n: int)
    requires
        n <= pieces.len(),
    ensures
        -1 <= last_counting(pieces, n) < pieces.len() || n < 0,
        last_counting(pieces, n) >= 0 ==> counts(pieces, last_counting(pieces, n)) && parts_among(pieces, n)
            == parts_among(pieces, last_counting(pieces, n)).push(part_of(pieces[last_counting(pieces, n)])),
        last_counting(pieces, n) < 0 ==> parts_among(pieces, n) == Seq::<PartModel>::empty(),
    decreases n,
{
    if n > 0 && !counts(pieces, n - 1) {
        lemma_last_counting(pieces, n - 1);
    }
}

proof fn lemma_parts_among_prefix(a: Seq<Seq<char>>, b: Seq<Seq<char>>, n: int)
    requires
        n <= a.len(),
        n <= b.len(),
        forall|i: int| 0 <= i < n ==> #[trigger] a[i] == b[i],
    ensures
        parts_among(a, n) == parts_among(b, n),
    decreases n,
{
    if n > 0 {
        assert(a[n - 1] == b[n - 1]);
        lemma_parts_among_prefix(a, b, n - 1);
    }
}

/// How the pieces of a path start.
pub proof fn lemma_split_head(path: Seq<char>)
    ensures
        is_absolute(path) <==> split(path, '/').len() > 1 && split(path, '/')[0].len() == 0,
        path.len() > 0 && !is_absolute(path) ==> split(path, '/')[0].len() > 0 && split(path, '/')[0][0] == path[0],
        path.len() == 0 ==> split(path, '/') == seq![Seq::<char>::empty()],
    decreases path.len(),
{
    if path.len() > 0 {
        let t = path.drop_last();
        lemma_split_head(t);
        lemma_split_pieces(t, '/');
    }
}

/// The parent of a path has the components of the path, without the last one.
/// Only a path without components, and the root alone, have no parent.
pub proof fn law_parent_drops_one(path: Seq<char>)
    ensures
        match parent(path) {
            Some(p) => components(path).len() > 0 && components(path).last() != PartModel::Root && components(p)
                == components(path).drop_last(),
            None => components(path) == root_part(path),
        },
{
    let pieces = split(path, '/');
    let n = pieces.len() as int;
    lemma_split_pieces(path, '/');
    lemma_split_head(path);
    lemma_last_counting(pieces, n);
    let k = last_counting(pieces, n);
    if k < 0 {
        assert(components(path) =~= root_part(path));
    } else {
        let p = parent(path)->0;
        let kept = parts_among(pieces, k);
        assert(components(path).drop_last() =~= root_part(path) + kept);
        let ps = split(p, '/');
        if k == 0 {
            lemma_split_head(p);
            assert(counts(pieces, 0));
            assert(parts_among(ps, 1) =~= Seq::<PartModel>::empty()) by {
                reveal_with_fuel(parts_among, 2);
            }
            assert(components(p) =~= components(path).drop_last());
        } else if k == 1 && is_absolute(path) {
            assert(p =~= seq!['/']);
            assert(p.drop_last() =~= Seq::<char>::empty());
            reveal_with_fuel(split, 2);
            assert(ps =~= seq![Seq::<char>::empty(), Seq::<char>::empty()]);
            assert(parts_among(ps, 2) =~= Seq::<PartModel>::empty()) by {
                reveal_with_fuel(parts_among, 3);
            }
            assert(kept =~= Seq::<PartModel>::empty()) by {
                reveal_with_fuel(parts_among, 2);
            }
            assert(components(p) =~= components(path).drop_last());
        } else {
            let front = pieces.take(k);
            assert forall|i: int| 0 <= i < front.len() implies !(#[trigger] front[i]).contains('/') by {
                assert(front[i] == pieces[i]);
            }
            law_split_of_joined(front, '/');
            lemma_parts_among_prefix(front, pieces, k);
            lemma_split_head(p);
            if k == 1 {
                assert(front[0] == pieces[0]);
                assert(p == pieces[0]);
            } else {
                assert(front[0] == pieces[0]);
            }
            assert(is_absolute(p) == is_absolute(path));
            assert(components(p) =~= components(path).drop_last());
        }
    }
}

/// The path without its last component.
pub fn parent_of(path: &str) -> (r: Option<String>)
    ensures
        match r {
            Some(p) => parent(path@) == Some(p@),
            None => parent(path@) is None,
        },
{
    let mut pieces = split_text(path, '/');
    let ghost all = texts(pieces@);
    let absolute = starts_at_root(path);
    let mut n: usize = pieces.len();
    while n > 0 && !piece_counts(&pieces, n - 1)
        invariant
            n <= pieces.len(),
            all == texts(pieces@),
            last_counting(all, all.len() as int) == last_counting(all, n as int),
        decreases n,
    {
        n -= 1;
    }
    if n == 0 {
        return None;
    }
    let k = n - 1;
    if k == 0 {
        let r = String::new();
        assert(r@ =~= seq![]);
        return Some(r);
    }
    let mut slash = String::new();
    slash.push('/');
    assert(slash@ =~= seq!['/']);
    if k == 1 && absolute {
        return Some(slash);
    }
    pieces.truncate(k);
    proof {
        assert(texts(pieces@) =~= all.take(k as int));
    }
    Some(join_texts(&pieces, slash.as_str()))
}

/// The name that a path ends in; `None` where it ends in the root, `.` or `..`.
pub open spec fn file_name(path: Seq<char>) -> Option<Seq<char>> {
    let c = components(path);
    if c.len() > 0 {
        match c.last() {
            PartModel::Name(name) => Some(name),
            _ => None,
        }
    } else {
        None
    }
}

/// The name that `path` ends in.
pub fn file_name_of(path: &str) -> (r: Option<String>)
    ensures
        match r {
            Some(name) => file_name(path@) == Some(name@),
            None => file_name(path@) is None,
        },
{
    let mut parts = components_of(path);
    let ghost c = components(path@);
    match parts.pop() {
        Some(part) => {
            assert(c.last() == part@);
            match part {
                Part::Name(name) => Some(name),
                _ => None,
            }
        },
        None => None,
    }
}

/// `path` inside `base`, unless `path` is absolute and so stands for itself.
pub open spec fn join(base: Seq<char>, path: Seq<char>) -> Seq<char> {
    if is_absolute(path) {
        path
    } else if base.len() == 0 || base.last() == '/' {
        base + path
    } else {
        base.push('/') + path
    }
}

/// `path` inside `base`.
pub fn join_path(base: &str, path: &str) -> (r: String)
    ensures
        r@ == join(base@, path@),
{
    if starts_at_root(path) {
        return path.to_owned();
    }
    let cs = chars_of(base);
    let mut r = base.to_owned();
    if cs.len() > 0 && cs[cs.len() - 1] != '/' {
        r.push('/');
    }
    r.append(path);
    r
}

/// The rank by which kinds of components are ordered.
pub open spec fn rank(p: PartModel) -> int {
    match p {
        PartModel::Root => 0,
        PartModel::Here => 1,
        PartModel::Up => 2,
        PartModel::Name(_) => 3,
    }
}

/// Order of components: by kind, names by their text.
pub open spec fn part_le(a: PartModel, b: PartModel) -> bool {
    match (a, b) {
        (PartModel::Name(x), PartModel::Name(y)) => text_le(x, y),
        _ => rank(a) <= rank(b),
    }
}

/// Lexicographic order of component lists.
pub open spec fn parts_le(a: Seq<PartModel>, b: Seq<PartModel>) -> bool
    decreases a.len(),
{
    if a.len() == 0 {
        true
    } else if b.len() == 0 {
        false
    } else if a[0] != b[0] {
        part_le(a[0], b[0])
    } else {
        parts_le(a.drop_first(), b.drop_first())
    }
}

/// Order of paths, component by component.
pub open spec fn path_order() -> spec_fn(Seq<char>, Seq<char>) -> bool {
    |a: Seq<char>, b: Seq<char>| parts_le(components(a), components(b))
}

/// The order of component lists is total.
pub proof fn law_parts_le_total(a: Seq<PartModel>, b: Seq<PartModel>)
    ensures
        parts_le(a, b) || parts_le(b, a),
    decreases a.len(),
{
    if a.len() > 0 && b.len() > 0 {
        if a[0] == b[0] {
            law_parts_le_total(a.drop_first(), b.drop_first());
        } else {
            match (a[0], b[0]) {
                (PartModel::Name(x), PartModel::Name(y)) => {
                    law_text_le_total(x, y);
                },
                _ => {},
            }
        }
    }
}

/// The order of component lists is transitive.
pub proof fn law_parts_le_transitive(a: Seq<PartModel>, b: Seq<PartModel>, c: Seq<PartModel>)
    requires
        parts_le(a, b),
        parts_le(b, c),
    ensures
        parts_le(a, c),
    decreases a.len(),
{
    if a.len() > 0 && b.len() > 0 && c.len() > 0 {
        if a[0] == b[0] && b[0] == c[0] {
            law_parts_le_transitive(a.drop_first(), b.drop_first(), c.drop_first());
        } else if a[0] != b[0] && b[0] != c[0] {
            match (a[0], b[0], c[0]) {
                (PartModel::Name(x), PartModel::Name(y), PartModel::Name(z)) => {
                    law_text_le_transitive(x, y, z);
                    if x == z {
                        law_text_le_antisymmetric(x, y);
                    }
                },
                _ => {},
            }
        }
    }
}

/// Sorted paths ascend.
pub proof fn law_sorted_paths_ascend(s: Seq<Seq<char>>)
    ensures
        forall|i: int, j: int|
            0 <= i < j < ascending(s, path_order()).len() ==> parts_le(
                components(#[trigger] ascending(s, path_order())[i]),
                components(#[trigger] ascending(s, path_order())[j]),
            ),
{
    let le = path_order();
    assert forall|a: Seq<char>, b: Seq<char>| #[trigger] le(a, b) || le(b, a) by {
        law_parts_le_total(components(a), components(b));
    }
    assert forall|a: Seq<char>, b: Seq<char>, c: Seq<char>|
        #[trigger] le(a, b) && #[trigger] le(b, c) implies le(a, c) by {
        law_parts_le_transitive(components(a), components(b), components(c));
    }
    law_ascending_sorted(s, le);
    let r = ascending(s, le);
    assert forall|i: int, j: int| 0 <= i < j < r.len() implies parts_le(
        components(#[trigger] r[i]),
        components(#[trigger] r[j]),
    ) by {
        assert(le(r[i], r[j]));
    }
}

fn same_part(a: &Part, b: &Part) -> (r: bool)
    ensures
        r == (a@ == b@),
{
    match (a, b) {
        (Part::Root, Part::Root) => true,
        (Part::Here, Part::Here) => true,
        (Part::Up, Part::Up) => true,
        (Part::Name(x), Part::Name(y)) => same_text(x.as_str(), y.as_str()),
        _ => false,
    }
}

fn is_part_le(a: &Part, b: &Part) -> (r: bool)
    ensures
        r == part_le(a@, b@),
{
    match (a, b) {
        (Part::Name(x), Part::Name(y)) => is_text_le(x.as_str(), y.as_str()),
        (Part::Root, _) => true,
        (_, Part::Root) => false,
        (Part::Here, _) => true,
        (_, Part::Here) => false,
        (Part::Up, _) => true,
        (_, Part::Up) => false,
    }
}

/// Whether path `a` comes no later than path `b`.
pub fn is_path_le(a: &str, b: &str) -> (r: bool)
    ensures
        r == path_order()(a@, b@),
{
    let x = components_of(a);
    let y = components_of(b);
    let ghost p = part_models(x@);
    let ghost q = part_models(y@);
    let mut i: usize = 0;
    proof {
        assert(p.skip(0) =~= p);
        assert(q.skip(0) =~= q);
    }
    while i < x.len() && i < y.len() && same_part(&x[i], &y[i])
        invariant
            i <= x.len(),
            i <= y.len(),
            p == part_models(x@),
            q == part_models(y@),
            parts_le(p, q) == parts_le(p.skip(i as int), q.skip(i as int)),
        decreases x.len() - i,
    {
        proof {
            assert(p.skip(i as int).drop_first() =~= p.skip(i + 1));
            assert(q.skip(i as int).drop_first() =~= q.skip(i + 1));
        }
        i += 1;
    }
    if i >= x.len() {
        true
    } else if i >= y.len() {
        false
    } else {
        proof {
            assert(p.skip(i as int)[0] == x@[i as int]@);
            assert(q.skip(i as int)[0] == y@[i as int]@);
        }
        is_part_le(&x[i], &y[i])
    }
}

/// Whether two texts name the same path.
pub fn same_path(a: &str, b: &str) -> (r: bool)
    ensures
        r == (components(a@) == components(b@)),
{
    let x = components_of(a);
    let y = components_of(b);
    let ghost p = part_models(x@);
    let ghost q = part_models(y@);
    if x.len() != y.len() {
        assert(p.len() != q.len());
        return false;
    }
    for i in 0..x.len()
        invariant
            x.len() == y.len(),
            p == part_models(x@),
            p == components(a@),
            q == part_models(y@),
            q == components(b@),
            forall|j: int| 0 <= j < i ==> p[j] == q[j],
    {
        if !same_part(&x[i], &y[i]) {
            assert(p[i as int] != q[i as int]);
            return false;
        }
    }
    assert(p =~= q);
    true
}

/// The paths of `v` in ascending order.
pub fn sort_paths(v: Vec<String>) -> (r: Vec<String>)
    ensures
        texts(r@) == ascending(texts(v@), path_order()),
{
    let mut r: Vec<String> = Vec::new();
    let ghost all = texts(v@);
    for i in 0..v.len()
        invariant
            all == texts(v@),
            texts(r@) == ascending(all.take(i as int), path_order()),
    {
        let mut k: usize = r.len();
        while k > 0 && !is_path_le(r[k - 1].as_str(), v[i].as_str())
            invariant
                k <= r.len(),
                i < v.len(),
                forall|j: int| k <= j < r.len() ==> !path_order()(#[trigger] texts(r@)[j], v@[i as int]@),
            decreases k,
        {
            k -= 1;
        }
        let ghost before = texts(r@);
        r.insert(k, v[i].clone());
        proof {
            let x = v@[i as int]@;
            lemma_inserted_at(before, x, path_order(), k as int);
            assert(texts(r@) =~= before.insert(k as int, x));
            assert(all.take(i + 1).drop_last() == all.take(i as int));
            assert(all.take(i + 1).last() == x);
        }
    }
    proof {
        assert(all.take(v@.len() as int) == all);
    }
    r
}

/// `s` without the paths that are the same as the one kept before them.
pub open spec fn distinct_neighbours(s: Seq<Seq<char>>) -> Seq<Seq<char>>
    decreases s.len(),
{
    if s.len() == 0 {
        seq![]
    } else {
        let front = distinct_neighbours(s.drop_last());
        if front.len() > 0 && components(front.last()) == components(s.last()) {
            front
        } else {
            front.push(s.last())
        }
    }
}

/// Drops each path that is the same as the one kept before it.
pub fn drop_repeats(v: Vec<String>) -> (r: Vec<String>)
    ensures
        texts(r@) == distinct_neighbours(texts(v@)),
{
    let ghost all = texts(v@);
    let mut r: Vec<String> = Vec::new();
    for i in 0..v.len()
        invariant
            all == texts(v@),
            texts(r@) == distinct_neighbours(all.take(i as int)),
    {
        let ghost before = texts(r@);
        proof {
            assert(all.take(i + 1).drop_last() =~= all.take(i as int));
            assert(all.take(i + 1).last() == v@[i as int]@);
            if r.len() > 0 {
                assert(before.last() == r@[r@.len() - 1]@);
            }
        }
        if r.len() == 0 || !same_path(r[r.len() - 1].as_str(), v[i].as_str()) {
            r.push(v[i].clone());
            assert(texts(r@) =~= before.push(v@[i as int]@));
        }
    }
    assert(all.take(v@.len() as int) =~= all);
    r
}

/// The empty path has no components.
pub proof fn lemma_no_components(path: Seq<char>)
    requires
        path.len() == 0,
    ensures
        components(path) == Seq::<PartModel>::empty(),
{
    lemma_split_head(path);
    let pieces = split(path, '/');
    assert(parts_among(pieces, 1) =~= Seq::<PartModel>::empty()) by {
        reveal_with_fuel(parts_among, 2);
    }
    assert(components(path) =~= Seq::<PartModel>::empty());
}

/// A path of a single name has the empty path as its parent, if any.
pub proof fn lemma_single_has_no_parent(path: Seq<char>)
    requires
        components(path).len() < 2,
    ensures
        parent(path) matches Some(p) ==> p.len() == 0,
{
    law_parent_drops_one(path);
    if parent(path) is Some {
        let pieces = split(path, '/');
        let n = pieces.len() as int;
        lemma_split_head(path);
        lemma_split_pieces(path, '/');
        lemma_last_counting(pieces, n);
        let k = last_counting(pieces, n);
        assert(!is_absolute(path)) by {
            if is_absolute(path) {
                assert(components(path)[0] == PartModel::Root);
            }
        }
        if path.len() > 0 && k > 0 {
            assert(counts(pieces, 0)) by {
                assert(pieces[0].len() > 0);
            }
            lemma_parts_grow(pieces, 1, k);
            assert(parts_among(pieces, 1).len() == 1) by {
                reveal_with_fuel(parts_among, 2);
            }
        }
    }
}

/// More pieces have no fewer components.
pub proof fn lemma_parts_grow(pieces: Seq<Seq<char>>, a: int, b: int)
    requires
        0 <= a <= b,
    ensures
        parts_among(pieces, a).len() <= parts_among(pieces, b).len(),
    decreases b,
{
    if a < b {
        lemma_parts_grow(pieces, a, b - 1);
    }
}

} // verus!
