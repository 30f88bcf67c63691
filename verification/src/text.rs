//! Text as sequences of characters: comparing, ordering, joining and numbering.
//!
//! Every function here is stated over the view of a string, a `Seq<char>`.
use vstd::prelude::*;
use vstd::string::StringExecFns;

verus! {

/// `String::push` appends one character to the end of the string.
pub assume_specification[ String::push ](s: &mut String, ch: char)
    ensures
        final(s)@ == old(s)@.push(ch),
;

/// The views of a list of strings.
pub open spec fn texts(v: Seq<String>) -> Seq<Seq<char>> {
    v.map_values(|s: String| s@)
}

/// The characters of `s`.
pub fn chars_of(s: &str) -> (v: Vec<char>)
    ensures
        v@ == s@,
{
    let mut v: Vec<char> = Vec::new();
    for c in it: s.chars()
        invariant
            v@ == it.seq().take(it.index()),
            it.seq() == s@,
    {
        v.push(c);
    }
    v
}

/// Whether two texts hold the same characters in the same order.
pub fn same_text(a: &str, b: &str) -> (r: bool)
    ensures
        r == (a@ == b@),
{
    let x = chars_of(a);
    let y = chars_of(b);
    if x.len() != y.len() {
        return false;
    }
    for i in 0..x.len()
        invariant
            x.len() == y.len(),
            x@ == a@,
            y@ == b@,
            forall|j: int| 0 <= j < i ==> x@[j] == y@[j],
    {
        if x[i] != y[i] {
            return false;
        }
    }
    assert(x@ =~= y@);
    true
}

/// The string made of the characters of `v`.
pub fn string_of(v: &[char]) -> (s: String)
    ensures
        s@ == v@,
{
    let mut s = String::new();
    for i in 0..v.len()
        invariant
            s@ == v@.take(i as int),
    {
        s.push(v[i]);
    }
    s
}

/// A copy of a list of strings.
pub fn clone_texts(v: &Vec<String>) -> (r: Vec<String>)
    ensures
        texts(r@) == texts(v@),
{
    let mut r: Vec<String> = Vec::new();
    for i in 0..v.len()
        invariant
            texts(r@) == texts(v@).take(i as int),
    {
        let ghost before = texts(r@);
        r.push(v[i].clone());
        proof {
            assert(texts(r@) =~= before.push(v@[i as int]@));
            assert(texts(v@).take(i + 1) =~= texts(v@).take(i as int).push(v@[i as int]@));
        }
    }
    r
}

/// A copy of an optional string.
pub fn clone_text_option(v: &Option<String>) -> (r: Option<String>)
    ensures
        option_text(r) == option_text(*v),
{
    match v {
        Some(s) => Some(s.clone()),
        None => None,
    }
}

/// The view of an optional string.
pub open spec fn option_text(v: Option<String>) -> Option<Seq<char>> {
    match v {
        Some(s) => Some(s@),
        None => None,
    }
}

/// Whether `v` holds the text `s`.
pub fn contains_text(v: &Vec<String>, s: &str) -> (r: bool)
    ensures
        r == texts(v@).contains(s@),
{
    for i in 0..v.len()
        invariant
            forall|j: int| 0 <= j < i ==> texts(v@)[j] != s@,
    {
        if same_text(v[i].as_str(), s) {
            assert(texts(v@)[i as int] == s@);
            return true;
        }
    }
    false
}

/// `parts` with `sep` between neighbours.
pub open spec fn joined(parts: Seq<Seq<char>>, sep: Seq<char>) -> Seq<char>
    decreases parts.len(),
{
    if parts.len() == 0 {
        seq![]
    } else if parts.len() == 1 {
        parts[0]
    } else {
        joined(parts.drop_last(), sep) + sep + parts.last()
    }
}

/// Joins `parts` with `sep`.
pub fn join_texts(parts: &Vec<String>, sep: &str) -> (out: String)
    ensures
        out@ == joined(texts(parts@), sep@),
{
    let mut out = String::new();
    let ghost all = texts(parts@);
    for i in 0..parts.len()
        invariant
            all == texts(parts@),
            out@ == joined(all.take(i as int), sep@),
    {
        proof {
            assert(all.take(i + 1).drop_last() == all.take(i as int));
            assert(all.take(i + 1).last() == parts@[i as int]@);
        }
        if i > 0 {
            out.append(sep);
        }
        out.append(parts[i].as_str());
        proof {
            if i == 0 {
                assert(out@ == parts@[0]@);
                assert(all.take(1)[0] == parts@[0]@);
            }
        }
    }
    proof {
        assert(all.take(parts@.len() as int) == all);
    }
    out
}

/// Lexicographic order by character, which is the order of `String`.
pub open spec fn text_le(a: Seq<char>, b: Seq<char>) -> bool
    decreases a.len(),
{
    if a.len() == 0 {
        true
    } else if b.len() == 0 {
        false
    } else if a[0] != b[0] {
        (a[0] as int) < (b[0] as int)
    } else {
        text_le(a.drop_first(), b.drop_first())
    }
}

/// [`text_le`] as a relation.
pub open spec fn text_order() -> spec_fn(Seq<char>, Seq<char>) -> bool {
    |a: Seq<char>, b: Seq<char>| text_le(a, b)
}

/// The order of text is total.
pub proof fn law_text_le_total(a: Seq<char>, b: Seq<char>)
    ensures
        text_le(a, b) || text_le(b, a),
    decreases a.len(),
{
    if a.len() > 0 && b.len() > 0 && a[0] == b[0] {
        law_text_le_total(a.drop_first(), b.drop_first());
    }
}

/// The order of text is antisymmetric: texts that are each at most the other
/// are equal.
pub proof fn law_text_le_antisymmetric(a: Seq<char>, b: Seq<char>)
    requires
        text_le(a, b),
        text_le(b, a),
    ensures
        a == b,
    decreases a.len(),
{
    if a.len() > 0 && b.len() > 0 {
        if a[0] == b[0] {
            law_text_le_antisymmetric(a.drop_first(), b.drop_first());
            assert(a == seq![a[0]] + a.drop_first());
            assert(b == seq![b[0]] + b.drop_first());
        }
    } else {
        assert(a =~= b);
    }
}

/// The order of text is transitive.
pub proof fn law_text_le_transitive(a: Seq<char>, b: Seq<char>, c: Seq<char>)
    requires
        text_le(a, b),
        text_le(b, c),
    ensures
        text_le(a, c),
    decreases a.len(),
{
    if a.len() > 0 && b.len() > 0 && c.len() > 0 {
        if a[0] == b[0] && b[0] == c[0] {
            law_text_le_transitive(a.drop_first(), b.drop_first(), c.drop_first());
        }
    }
}

/// Whether `a` comes no later than `b`.
pub fn is_text_le(a: &str, b: &str) -> (r: bool)
    ensures
        r == text_le(a@, b@),
{
    let x = chars_of(a);
    let y = chars_of(b);
    let mut i: usize = 0;
    proof {
        assert(x@.skip(0) == x@);
        assert(y@.skip(0) == y@);
    }
    while i < x.len() && i < y.len() && x[i] == y[i]
        invariant
            i <= x.len(),
            i <= y.len(),
            text_le(x@, y@) == text_le(x@.skip(i as int), y@.skip(i as int)),
        decreases x.len() - i,
    {
        proof {
            assert(x@.skip(i as int).drop_first() == x@.skip(i + 1));
            assert(y@.skip(i as int).drop_first() == y@.skip(i + 1));
        }
        i += 1;
    }
    if i >= x.len() {
        true
    } else if i >= y.len() {
        false
    } else {
        proof {
            assert(x@.skip(i as int)[0] == x@[i as int]);
            assert(y@.skip(i as int)[0] == y@[i as int]);
        }
        x[i] < y[i]
    }
}

/// `x` placed into the ascending `s`, behind everything that comes no later.
pub open spec fn inserted<A>(s: Seq<A>, x: A, le: spec_fn(A, A) -> bool) -> Seq<A>
    decreases s.len(),
{
    if s.len() == 0 {
        seq![x]
    } else if le(s.last(), x) {
        s.push(x)
    } else {
        inserted(s.drop_last(), x, le).push(s.last())
    }
}

/// `s` in ascending order; equal items keep the order they have in `s`.
pub open spec fn ascending<A>(s: Seq<A>, le: spec_fn(A, A) -> bool) -> Seq<A>
    decreases s.len(),
{
    if s.len() == 0 {
        seq![]
    } else {
        inserted(ascending(s.drop_last(), le), s.last(), le)
    }
}

/// Where `inserted` puts `x`: at a place `k` such that what follows is later
/// than `x` and the item before it, if any, is not.
pub proof fn lemma_inserted_at<A>(s: Seq<A>, x: A, le: spec_fn(A, A) -> bool, k: int)
    requires
        0 <= k <= s.len(),
        k > 0 ==> le(s[k - 1], x),
        forall|j: int| k <= j < s.len() ==> !le(#[trigger] s[j], x),
    ensures
        inserted(s, x, le) == s.insert(k, x),
    decreases s.len(),
{
    if s.len() == 0 {
        assert(s.insert(k, x) =~= seq![x]);
    } else if k == s.len() {
        assert(s.insert(k, x) =~= s.push(x));
    } else {
        assert(!le(s.last(), x));
        let t = s.drop_last();
        assert forall|j: int| k <= j < t.len() implies !le(#[trigger] t[j], x) by {
            assert(t[j] == s[j]);
        }
        if k > 0 {
            assert(t[k - 1] == s[k - 1]);
        }
        lemma_inserted_at(t, x, le, k);
        assert(s.insert(k, x) =~= t.insert(k, x).push(s.last()));
    }
}

/// Inserting adds one item and loses none.
proof fn lemma_inserted_permutes<A>(s: Seq<A>, x: A, le: spec_fn(A, A) -> bool)
    ensures
        inserted(s, x, le).to_multiset() == s.to_multiset().insert(x),
    decreases s.len(),
{
    broadcast use vstd::seq_lib::group_to_multiset_ensures;

    if s.len() == 0 {
        assert(seq![x] =~= s.push(x));
    } else if !le(s.last(), x) {
        lemma_inserted_permutes(s.drop_last(), x, le);
        assert(s =~= s.drop_last().push(s.last()));
        assert(inserted(s, x, le).to_multiset() =~= s.to_multiset().insert(x));
    }
}

/// Sorting keeps every item, as often as it occurs.
pub proof fn law_ascending_permutes<A>(s: Seq<A>, le: spec_fn(A, A) -> bool)
    ensures
        ascending(s, le).to_multiset() == s.to_multiset(),
    decreases s.len(),
{
    broadcast use vstd::seq_lib::group_to_multiset_ensures;

    if s.len() == 0 {
        assert(s =~= seq![]);
    } else {
        law_ascending_permutes(s.drop_last(), le);
        lemma_inserted_permutes(ascending(s.drop_last(), le), s.last(), le);
        assert(s =~= s.drop_last().push(s.last()));
    }
}

/// Inserting into an ascending list keeps it ascending.
proof fn lemma_inserted_sorted<A>(s: Seq<A>, x: A, le: spec_fn(A, A) -> bool)
    requires
        forall|a: A, b: A| #[trigger] le(a, b) || le(b, a),
        forall|a: A, b: A, c: A| #[trigger] le(a, b) && #[trigger] le(b, c) ==> le(a, c),
        forall|i: int, j: int| 0 <= i < j < s.len() ==> le(#[trigger] s[i], #[trigger] s[j]),
    ensures
        forall|i: int, j: int|
            0 <= i < j < inserted(s, x, le).len() ==> le(
                #[trigger] inserted(s, x, le)[i],
                #[trigger] inserted(s, x, le)[j],
            ),
        forall|i: int|
            0 <= i < inserted(s, x, le).len() ==> (#[trigger] inserted(s, x, le)[i] == x || s.contains(
                inserted(s, x, le)[i],
            )),
    decreases s.len(),
{
    let r = inserted(s, x, le);
    if s.len() == 0 {
    } else if le(s.last(), x) {
        assert forall|i: int, j: int| 0 <= i < j < r.len() implies le(#[trigger] r[i], #[trigger] r[j]) by {
            assert(r[i] == s[i]);
            if j < s.len() {
                assert(r[j] == s[j]);
            } else if i < s.len() - 1 {
                assert(le(s[i], s[s.len() - 1]));
            }
        }
        assert forall|i: int| 0 <= i < r.len() implies (#[trigger] r[i] == x || s.contains(r[i])) by {
            if i < s.len() {
                assert(r[i] == s[i]);
            }
        }
    } else {
        let t = s.drop_last();
        let q = inserted(t, x, le);
        assert forall|i: int, j: int| 0 <= i < j < t.len() implies le(#[trigger] t[i], #[trigger] t[j]) by {
            assert(le(s[i], s[j]));
        }
        lemma_inserted_sorted(t, x, le);
        assert forall|i: int, j: int| 0 <= i < j < r.len() implies le(#[trigger] r[i], #[trigger] r[j]) by {
            assert(r[i] == q[i]);
            if j < q.len() {
                assert(r[j] == q[j]);
            } else if q[i] == x {
                assert(le(x, s.last()) || le(s.last(), x));
            } else {
                let k = t.index_of(q[i]);
                assert(le(s[k], s[s.len() - 1]));
            }
        }
        assert forall|i: int| 0 <= i < r.len() implies (#[trigger] r[i] == x || s.contains(r[i])) by {
            if i < q.len() {
                assert(r[i] == q[i]);
                if q[i] != x {
                    let k = t.index_of(q[i]);
                    assert(s[k] == q[i]);
                }
            } else {
                assert(s[s.len() - 1] == r[i]);
            }
        }
    }
}

/// Sorting by a total and transitive relation leaves no item behind a later one.
pub proof fn law_ascending_sorted<A>(s: Seq<A>, le: spec_fn(A, A) -> bool)
    requires
        forall|a: A, b: A| #[trigger] le(a, b) || le(b, a),
        forall|a: A, b: A, c: A| #[trigger] le(a, b) && #[trigger] le(b, c) ==> le(a, c),
    ensures
        forall|i: int, j: int|
            0 <= i < j < ascending(s, le).len() ==> le(
                #[trigger] ascending(s, le)[i],
                #[trigger] ascending(s, le)[j],
            ),
    decreases s.len(),
{
    if s.len() > 0 {
        law_ascending_sorted(s.drop_last(), le);
        lemma_inserted_sorted(ascending(s.drop_last(), le), s.last(), le);
    }
}

/// Sorted text ascends.
pub proof fn law_sorted_text_ascends(s: Seq<Seq<char>>)
    ensures
        forall|i: int, j: int|
            0 <= i < j < ascending(s, text_order()).len() ==> text_le(
                #[trigger] ascending(s, text_order())[i],
                #[trigger] ascending(s, text_order())[j],
            ),
{
    let le = text_order();
    assert forall|a: Seq<char>, b: Seq<char>| #[trigger] le(a, b) || le(b, a) by {
        law_text_le_total(a, b);
    }
    assert forall|a: Seq<char>, b: Seq<char>, c: Seq<char>|
        #[trigger] le(a, b) && #[trigger] le(b, c) implies le(a, c) by {
        law_text_le_transitive(a, b, c);
    }
    law_ascending_sorted(s, le);
    let r = ascending(s, le);
    assert forall|i: int, j: int| 0 <= i < j < r.len() implies text_le(#[trigger] r[i], #[trigger] r[j]) by {
        assert(le(r[i], r[j]));
    }
}

/// The strings of `v` in ascending order.
pub fn sort_texts(v: Vec<String>) -> (r: Vec<String>)
    ensures
        texts(r@) == ascending(texts(v@), text_order()),
{
    let mut r: Vec<String> = Vec::new();
    let ghost all = texts(v@);
    for i in 0..v.len()
        invariant
            all == texts(v@),
            texts(r@) == ascending(all.take(i as int), text_order()),
    {
        let mut k: usize = r.len();
        while k > 0 && !is_text_le(r[k - 1].as_str(), v[i].as_str())
            invariant
                k <= r.len(),
                i < v.len(),
                forall|j: int| k <= j < r.len() ==> !text_le(#[trigger] texts(r@)[j], v@[i as int]@),
            decreases k,
        {
            k -= 1;
        }
        let ghost before = texts(r@);
        r.insert(k, v[i].clone());
        proof {
            let x = v@[i as int]@;
            lemma_inserted_at(before, x, text_order(), k as int);
            assert(texts(r@) =~= before.insert(k as int, x));
            assert(all.take(i + 1).drop_last() == all.take(i as int));
            assert(all.take(i + 1).last() == x);
        }
    }
    proof {
        assert(all.take(v@.len() as int) == all);
    }
    r
}

/// The character of a decimal digit.
pub open spec fn digit(d: nat) -> char {
    (48 + d) as char
}

/// `n` in decimal, without leading zeros.
pub open spec fn decimal(n: nat) -> Seq<char>
    decreases n,
{
    if n < 10 {
        seq![digit(n)]
    } else {
        decimal(n / 10).push(digit(n % 10))
    }
}

/// Appends `n` in decimal.
pub fn push_decimal(out: &mut String, n: u128)
    ensures
        final(out)@ == old(out)@ + decimal(n as nat),
    decreases n,
{
    if n >= 10 {
        push_decimal(out, n / 10);
    }
    let d: u8 = (n % 10) as u8;
    out.push((48u8 + d) as char);
    proof {
        assert(out@ =~= old(out)@ + decimal(n as nat));
    }
}

/// The pieces of `s` between the occurrences of `sep`; one more than there are
/// occurrences.
pub open spec fn split(s: Seq<char>, sep: char) -> Seq<Seq<char>>
    decreases s.len(),
{
    if s.len() == 0 {
        seq![seq![]]
    } else {
        let p = split(s.drop_last(), sep);
        if s.last() == sep {
            p.push(seq![])
        } else {
            p.drop_last().push(p.last().push(s.last()))
        }
    }
}

/// There is at least one piece, and none holds the separator.
pub proof fn lemma_split_pieces(s: Seq<char>, sep: char)
    ensures
        split(s, sep).len() > 0,
        forall|i: int| 0 <= i < split(s, sep).len() ==> !(#[trigger] split(s, sep)[i]).contains(sep),
    decreases s.len(),
{
    if s.len() > 0 {
        lemma_split_pieces(s.drop_last(), sep);
        let p = split(s.drop_last(), sep);
        assert(!p[p.len() - 1].contains(sep));
        if s.last() != sep {
            let q = p.last().push(s.last());
            assert forall|k: int| 0 <= k < q.len() implies q[k] != sep by {
                if k < p.last().len() {
                    assert(p.last()[k] == q[k]);
                }
            }
        }
    }
}

/// Joining the pieces with the separator gives the text back.
pub proof fn law_split_joins(s: Seq<char>, sep: char)
    ensures
        joined(split(s, sep), seq![sep]) == s,
    decreases s.len(),
{
    if s.len() > 0 {
        let t = s.drop_last();
        let p = split(t, sep);
        law_split_joins(t, sep);
        lemma_split_pieces(t, sep);
        if s.last() == sep {
            assert(split(s, sep).drop_last() =~= p);
            assert(joined(split(s, sep), seq![sep]) =~= t + seq![sep]);
            assert(s =~= t + seq![sep]);
        } else {
            let q = split(s, sep);
            assert(q.drop_last() =~= p.drop_last());
            assert(joined(q, seq![sep]) =~= joined(p, seq![sep]).push(s.last()));
            assert(s =~= t.push(s.last()));
        }
    }
}

/// A text without the separator is a single piece.
pub proof fn lemma_split_single(b: Seq<char>, sep: char)
    requires
        !b.contains(sep),
    ensures
        split(b, sep) == seq![b],
    decreases b.len(),
{
    if b.len() > 0 {
        let t = b.drop_last();
        assert(b[b.len() - 1] != sep);
        assert forall|k: int| 0 <= k < t.len() implies t[k] != sep by {
            assert(t[k] == b[k]);
        }
        lemma_split_single(t, sep);
        assert(t.push(b.last()) =~= b);
        assert(split(b, sep) =~= seq![b]);
    } else {
        assert(b =~= seq![]);
        assert(split(b, sep) =~= seq![b]);
    }
}

proof fn lemma_split_tail(a: Seq<char>, b: Seq<char>, sep: char)
    requires
        !b.contains(sep),
    ensures
        split(a + seq![sep] + b, sep) == split(a, sep).push(b),
    decreases b.len(),
{
    let s = a + seq![sep] + b;
    if b.len() > 0 {
        let t = b.drop_last();
        assert(b[b.len() - 1] != sep);
        assert forall|k: int| 0 <= k < t.len() implies t[k] != sep by {
            assert(t[k] == b[k]);
        }
        lemma_split_tail(a, t, sep);
        assert(s.drop_last() =~= a + seq![sep] + t);
        assert(t.push(b.last()) =~= b);
        assert(split(s, sep) =~= split(a, sep).push(b));
    } else {
        assert(b =~= seq![]);
        assert(s.drop_last() =~= a);
        assert(split(s, sep) =~= split(a, sep).push(b));
    }
}

/// Splitting undoes joining, where no part holds the separator.
pub proof fn law_split_of_joined(parts: Seq<Seq<char>>, sep: char)
    requires
        parts.len() > 0,
        forall|i: int| 0 <= i < parts.len() ==> !(#[trigger] parts[i]).contains(sep),
    ensures
        split(joined(parts, seq![sep]), sep) == parts,
    decreases parts.len(),
{
    if parts.len() == 1 {
        lemma_split_single(parts[0], sep);
        assert(parts =~= seq![parts[0]]);
    } else {
        let t = parts.drop_last();
        assert forall|i: int| 0 <= i < t.len() implies !(#[trigger] t[i]).contains(sep) by {
            assert(t[i] == parts[i]);
        }
        law_split_of_joined(t, sep);
        assert(!parts[parts.len() - 1].contains(sep));
        lemma_split_tail(joined(t, seq![sep]), parts.last(), sep);
        assert(t.push(parts.last()) =~= parts);
    }
}

/// Splits `s` at every `sep`.
pub fn split_text(s: &str, sep: char) -> (r: Vec<String>)
    ensures
        texts(r@) == split(s@, sep),
{
    let cs = chars_of(s);
    let mut done: Vec<String> = Vec::new();
    let mut last = String::new();
    let ghost all = s@;
    for i in 0..cs.len()
        invariant
            cs@ == all,
            texts(done@).push(last@) == split(all.take(i as int), sep),
    {
        let ghost before = texts(done@);
        let ghost piece = last@;
        proof {
            assert(all.take(i + 1).drop_last() =~= all.take(i as int));
            assert(before.push(piece).drop_last() =~= before);
        }
        if cs[i] == sep {
            done.push(last);
            last = String::new();
            assert(texts(done@) =~= before.push(piece));
        } else {
            last.push(cs[i]);
        }
    }
    proof {
        assert(all.take(cs@.len() as int) =~= all);
    }
    let ghost before = texts(done@);
    let ghost piece = last@;
    done.push(last);
    assert(texts(done@) =~= before.push(piece));
    done
}

} // verus!
