//! What holds of text, of maps keyed by it, and of paths.
use vstd::prelude::*;

use crate::path::{
    components, counts, distinct_neighbours, file_name, is_absolute, join, last_counting, parent, part_of,
    parts_among, parts_le, portable_text, PartModel,
};
use crate::steps::{ascii_lower, compression, extension, last_dot, Compress};
use crate::text::{
    ascending, decimal, digit, inserted, joined, lemma_split_pieces, lemma_split_single, split,
    text_le,
};
use crate::textmap::bound;
use crate::visiting::law_split_at_separator;

verus! {

/// Text is ordered by the first character in which it differs.
pub proof fn law_first_difference_orders(a: Seq<char>, b: Seq<char>, k: int)
    requires
        0 <= k < a.len(),
        k < b.len(),
        forall|j: int| 0 <= j < k ==> a[j] == b[j],
        a[k] != b[k],
    ensures
        text_le(a, b) <==> (a[k] as int) < (b[k] as int),
    decreases k,
{
    if k > 0 {
        assert(a[0] == b[0]);
        let x = a.drop_first();
        let y = b.drop_first();
        assert forall|j: int| 0 <= j < k - 1 implies x[j] == y[j] by {
            assert(a[j + 1] == b[j + 1]);
        }
        law_first_difference_orders(x, y, k - 1);
    }
}

/// A text comes before every longer text that starts with it.
pub proof fn law_beginnings_come_first(a: Seq<char>, more: Seq<char>)
    ensures
        text_le(a, a + more),
        more.len() > 0 ==> !text_le(a + more, a),
    decreases a.len(),
{
    if a.len() > 0 {
        assert((a + more).drop_first() =~= a.drop_first() + more);
        law_beginnings_come_first(a.drop_first(), more);
    }
}

/// Joining puts the separator between neighbours and nowhere else: nothing joins to
/// nothing, one part to itself, and two lists to both with one separator between them.
pub proof fn law_joining_separates(s: Seq<Seq<char>>, t: Seq<Seq<char>>, part: Seq<char>, sep: Seq<char>)
    ensures
        joined(seq![], sep).len() == 0,
        joined(seq![part], sep) == part,
        s.len() > 0 && t.len() > 0 ==> joined(s + t, sep) == joined(s, sep) + sep + joined(t, sep),
    decreases t.len(),
{
    if s.len() > 0 && t.len() > 0 {
        let front = t.drop_last();
        assert((s + t).drop_last() =~= s + front);
        assert((s + t).last() == t.last());
        if front.len() == 0 {
            assert(s + front =~= s);
        } else {
            law_joining_separates(s, front, part, sep);
            assert(joined(s + t, sep) =~= joined(s, sep) + sep + joined(t, sep));
        }
    }
}

/// Sorting is stable: items that are as early as each other keep their order.
pub proof fn law_sorting_is_stable<A>(s: Seq<A>, le: spec_fn(A, A) -> bool, y: A)
    requires
        forall|a: A, b: A| #[trigger] le(a, b) || le(b, a),
        forall|a: A, b: A, c: A| #[trigger] le(a, b) && #[trigger] le(b, c) ==> le(a, c),
    ensures
        ascending(s, le).filter(|x: A| le(x, y) && le(y, x)) == s.filter(|x: A| le(x, y) && le(y, x)),
    decreases s.len(),
{
    reveal(Seq::filter);
    if s.len() > 0 {
        law_sorting_is_stable(s.drop_last(), le, y);
        lemma_inserted_behind(ascending(s.drop_last(), le), s.last(), le, y);
    }
}

proof fn lemma_inserted_behind<A>(s: Seq<A>, x: A, le: spec_fn(A, A) -> bool, y: A)
    requires
        forall|a: A, b: A, c: A| #[trigger] le(a, b) && #[trigger] le(b, c) ==> le(a, c),
    ensures
        ({
            let like = |z: A| le(z, y) && le(y, z);
            inserted(s, x, le).filter(like) == if like(x) {
                s.filter(like).push(x)
            } else {
                s.filter(like)
            }
        }),
    decreases s.len(),
{
    reveal(Seq::filter);
    let like = |z: A| le(z, y) && le(y, z);
    let r = inserted(s, x, le);
    if s.len() == 0 {
        assert(r.drop_last() =~= Seq::<A>::empty());
        assert(s.filter(like) =~= Seq::<A>::empty());
        assert(Seq::<A>::empty().filter(like) =~= Seq::<A>::empty());
        assert(r.last() == x);
    } else if le(s.last(), x) {
        assert(r.drop_last() =~= s);
        assert(r.last() == x);
    } else {
        let t = s.drop_last();
        lemma_inserted_behind(t, x, le, y);
        assert(r.drop_last() =~= inserted(t, x, le));
        assert(r.last() == s.last());
        if like(x) {
            assert(!like(s.last())) by {
                if like(s.last()) {
                    assert(le(s.last(), y) && le(y, x));
                }
            }
        }
    }
}

/// The number that a text of digits stands for.
pub open spec fn number_of(s: Seq<char>) -> nat
    decreases s.len(),
{
    if s.len() == 0 {
        0
    } else {
        (10 * number_of(s.drop_last()) + (s.last() as int - 48)) as nat
    }
}

/// A number in decimal is made of digits, stands for the number, and has no leading
/// zero but in zero itself.
pub proof fn law_decimal_is_plain(n: nat)
    ensures
        decimal(n).len() > 0,
        forall|k: int| 0 <= k < decimal(n).len() ==> '0' <= #[trigger] decimal(n)[k] <= '9',
        number_of(decimal(n)) == n,
        n > 0 ==> decimal(n)[0] != '0',
        n == 0 ==> decimal(n).len() == 1,
    decreases n,
{
    reveal_with_fuel(number_of, 2);
    if n >= 10 {
        law_decimal_is_plain(n / 10);
        let d = decimal(n);
        let f = decimal(n / 10);
        assert(d.drop_last() =~= f);
        assert(d.last() == digit(n % 10));
        assert forall|k: int| 0 <= k < d.len() implies '0' <= #[trigger] d[k] <= '9' by {
            if k < f.len() {
                assert(d[k] == f[k]);
            }
        }
        assert(d[0] == f[0]);
    } else {
        assert(decimal(n).drop_last() =~= Seq::<char>::empty());
    }
}

/// Binding a key binds it to the value, and leaves every other key as it was.
pub proof fn law_binding_binds<B>(s: Seq<(Seq<char>, B)>, key: Seq<char>, value: B)
    ensures
        bound(s, key, value).contains((key, value)),
        forall|e: (Seq<char>, B)| e.0 != key ==> (#[trigger] bound(s, key, value).contains(e) <==> s.contains(e)),
    decreases s.len(),
{
    let r = bound(s, key, value);
    if s.len() == 0 {
        assert(r[0] == (key, value));
    } else if s.last().0 == key {
        let t = s.drop_last();
        lemma_pushed_items(t, (key, value));
        lemma_pushed_items(t, s.last());
        assert(t.push(s.last()) =~= s);
    } else if text_le(s.last().0, key) {
        lemma_pushed_items(s, (key, value));
    } else {
        let t = s.drop_last();
        law_binding_binds(t, key, value);
        lemma_pushed_items(bound(t, key, value), s.last());
        lemma_pushed_items(t, s.last());
        assert(t.push(s.last()) =~= s);
    }
}

proof fn lemma_pushed_items<A>(s: Seq<A>, x: A)
    ensures
        forall|y: A| #[trigger] s.push(x).contains(y) <==> s.contains(y) || y == x,
{
    let t = s.push(x);
    assert forall|y: A| #[trigger] t.contains(y) <==> s.contains(y) || y == x by {
        if t.contains(y) {
            let k = t.index_of(y);
            if k < s.len() {
                assert(s[k] == y);
            }
        }
        if s.contains(y) {
            assert(t[s.index_of(y)] == y);
        }
        assert(t[s.len() as int] == x);
    }
}

/// A path in portable form has `/` exactly where it had one or had the separator, and
/// is the same everywhere else.
pub proof fn law_portable_swaps_separators(path: Seq<char>, separator: char, k: int)
    requires
        0 <= k < path.len(),
    ensures
        portable_text(path, separator).len() == path.len(),
        path[k] == separator ==> portable_text(path, separator)[k] == '/',
        path[k] != separator ==> portable_text(path, separator)[k] == path[k],
{
}

/// Joining paths: an absolute path stands for itself; any other stands behind the base,
/// with exactly one separator between them where there is a base.
pub proof fn law_join_puts_inside(base: Seq<char>, path: Seq<char>)
    ensures
        path.len() > 0 && path[0] == '/' ==> join(base, path) == path,
        !(path.len() > 0 && path[0] == '/') ==> {
            &&& base.len() == 0 ==> join(base, path) == path
            &&& base.len() > 0 && base.last() == '/' ==> join(base, path) == base + path
            &&& base.len() > 0 && base.last() != '/' ==> join(base, path) == base + seq!['/'] + path
        },
{
    assert(base.push('/') + path =~= base + seq!['/'] + path);
    if base.len() == 0 {
        assert(base + path =~= path);
    }
}

/// Whether a text is an ordinary name: not empty, without a separator, and neither `.`
/// nor `..`.
pub open spec fn plain_name(name: Seq<char>) -> bool {
    &&& name.len() > 0
    &&& !name.contains('/')
    &&& name != seq!['.']
    &&& name != seq!['.', '.']
}

/// The components of a path that ends in a name are those of what stands before the
/// name, and the name. A path may not be empty before the name, nor does a separator
/// at its end matter.
pub proof fn law_components_grow_by_name(base: Seq<char>, name: Seq<char>)
    requires
        plain_name(name),
        base.len() > 0,
    ensures
        components(base + seq!['/'] + name) == components(base).push(PartModel::Name(name)),
        components(base + seq!['/']) == components(base),
        components(name) == seq![PartModel::Name(name)],
        components(seq!['/'] + name) == seq![PartModel::Root, PartModel::Name(name)],
{
    reveal_strlit(".");
    reveal_strlit("..");
    assert("."@ =~= seq!['.']);
    assert(".."@ =~= seq!['.', '.']);
    let empty = Seq::<char>::empty();
    law_split_at_separator(base, name, '/');
    law_split_at_separator(base, empty, '/');
    lemma_split_single(name, '/');
    let p = split(base, '/');
    let n = p.len() as int;
    lemma_split_pieces(base, '/');
    let x = base + seq!['/'] + name;
    let y = base + seq!['/'] + empty;
    assert(base + seq!['/'] =~= y);
    assert(split(x, '/') =~= p.push(name));
    assert(split(y, '/') =~= p.push(empty));
    lemma_parts_kept(p, name, n);
    lemma_parts_kept(p, empty, n);
    assert(p.push(name)[n] == name);
    assert(p.push(empty)[n] == empty);
    assert(is_absolute(x) == is_absolute(base));
    assert(is_absolute(y) == is_absolute(base));
    assert(components(x) =~= components(base).push(PartModel::Name(name)));
    assert(components(y) =~= components(base));
    assert(!is_absolute(name)) by {
        if name[0] == '/' {
            assert(name.contains('/'));
        }
    }
    reveal_with_fuel(parts_among, 3);
    assert(split(name, '/')[0] == name);
    assert(components(name) =~= seq![PartModel::Name(name)]);
    let z = seq!['/'] + name;
    law_split_at_separator(empty, name, '/');
    assert(empty + seq!['/'] + name =~= z);
    assert(split(z, '/') =~= seq![empty, name]);
    assert(parts_among(split(z, '/'), 2) =~= seq![PartModel::Name(name)]);
    assert(components(z) =~= seq![PartModel::Root, PartModel::Name(name)]);
}

proof fn lemma_parts_kept(p: Seq<Seq<char>>, last: Seq<char>, n: int)
    requires
        0 <= n <= p.len(),
    ensures
        parts_among(p.push(last), n) == parts_among(p, n),
    decreases n,
{
    if n > 0 {
        lemma_parts_kept(p, last, n - 1);
        assert(p.push(last)[n - 1] == p[n - 1]);
    }
}

/// The special components: an absolute path starts at the root; `.` counts at the very
/// start alone; `..` is kept.
pub proof fn law_special_components(base: Seq<char>)
    requires
        base.len() > 0,
    ensures
        components(seq!['/']) == seq![PartModel::Root],
        components(seq!['.']) == seq![PartModel::Here],
        components(seq!['.', '.']) == seq![PartModel::Up],
        components(seq!['/', '.']) == seq![PartModel::Root],
        components(seq!['/', '.', '.']) == seq![PartModel::Root, PartModel::Up],
        components(base + seq!['/', '.']) == components(base),
        components(base + seq!['/', '.', '.']) == components(base).push(PartModel::Up),
        components(base).len() > 0,
        components(base)[0] == PartModel::Root <==> base[0] == '/',
{
    reveal_strlit(".");
    reveal_strlit("..");
    assert("."@ =~= seq!['.']);
    assert(".."@ =~= seq!['.', '.']);
    let empty = Seq::<char>::empty();
    let one = seq!['.'];
    let two = seq!['.', '.'];
    lemma_split_single(one, '/');
    lemma_split_single(two, '/');
    law_split_at_separator(empty, empty, '/');
    law_split_at_separator(base, one, '/');
    law_split_at_separator(base, two, '/');
    let p = split(base, '/');
    let n = p.len() as int;
    lemma_split_pieces(base, '/');
    assert(base + seq!['/', '.'] =~= base + seq!['/'] + one);
    assert(base + seq!['/', '.', '.'] =~= base + seq!['/'] + two);
    assert(split(base + seq!['/'] + one, '/') =~= p.push(one));
    assert(split(base + seq!['/'] + two, '/') =~= p.push(two));
    lemma_parts_kept(p, one, n);
    lemma_parts_kept(p, two, n);
    assert(p.push(one)[n] == one);
    assert(p.push(two)[n] == two);
    assert(components(base + seq!['/', '.']) =~= components(base));
    assert(components(base + seq!['/', '.', '.']) =~= components(base).push(PartModel::Up));
    reveal_with_fuel(parts_among, 3);
    assert(empty + seq!['/'] + empty =~= seq!['/']);
    assert(split(seq!['/'], '/') =~= seq![empty, empty]);
    assert(components(seq!['/']) =~= seq![PartModel::Root]);
    assert(split(one, '/')[0] == one);
    assert(split(two, '/')[0] == two);
    assert(components(one) =~= seq![PartModel::Here]);
    assert(components(two) =~= seq![PartModel::Up]);
    law_split_at_separator(empty, one, '/');
    law_split_at_separator(empty, two, '/');
    assert(empty + seq!['/'] + one =~= seq!['/', '.']);
    assert(empty + seq!['/'] + two =~= seq!['/', '.', '.']);
    assert(split(seq!['/', '.'], '/') =~= seq![empty, one]);
    assert(split(seq!['/', '.', '.'], '/') =~= seq![empty, two]);
    assert(parts_among(seq![empty, one], 2) =~= Seq::<PartModel>::empty());
    assert(parts_among(seq![empty, two], 2) =~= seq![PartModel::Up]);
    assert(components(seq!['/', '.']) =~= seq![PartModel::Root]);
    assert(components(seq!['/', '.', '.']) =~= seq![PartModel::Root, PartModel::Up]);
    lemma_first_component(base);
}

proof fn lemma_first_component(base: Seq<char>)
    requires
        base.len() > 0,
    ensures
        components(base).len() > 0,
        components(base)[0] == PartModel::Root <==> base[0] == '/',
{
    let p = split(base, '/');
    let n = p.len() as int;
    lemma_split_pieces(base, '/');
    lemma_no_root_among(p, n);
    if base[0] != '/' {
        crate::path::lemma_split_head(base);
        assert(counts(p, 0));
        crate::path::lemma_parts_grow(p, 1, n);
        reveal_with_fuel(parts_among, 2);
        assert(components(base) =~= parts_among(p, n));
    }
}

proof fn lemma_no_root_among(p: Seq<Seq<char>>, n: int)
    ensures
        forall|k: int| 0 <= k < parts_among(p, n).len() ==> #[trigger] parts_among(p, n)[k] != PartModel::Root,
    decreases n,
{
    if n > 0 {
        lemma_no_root_among(p, n - 1);
        assert(part_of(p[n - 1]) != PartModel::Root);
    }
}

/// The name that a path ends in, with or without a separator behind it.
pub proof fn law_file_name_is_last(base: Seq<char>, name: Seq<char>)
    requires
        plain_name(name),
        base.len() > 0,
    ensures
        file_name(base + seq!['/'] + name) == Some(name),
        file_name(base + seq!['/'] + name + seq!['/']) == Some(name),
        file_name(name) == Some(name),
        file_name(base + seq!['/', '.', '.']) is None,
        file_name(seq!['/']) is None,
{
    law_components_grow_by_name(base, name);
    law_special_components(base);
    let x = base + seq!['/'] + name;
    law_components_grow_by_name(x, name);
    assert(components(x).last() == PartModel::Name(name));
}

/// The extension of a file is what stands behind the last dot of its name; a name
/// without a dot, or with none but a leading one, has none.
pub proof fn law_extension_is_behind_last_dot(base: Seq<char>, stem: Seq<char>, ext: Seq<char>)
    requires
        base.len() > 0,
        stem.len() > 0,
        !stem.contains('/'),
        !ext.contains('/'),
        !ext.contains('.'),
        stem + seq!['.'] + ext != seq!['.', '.'],
    ensures
        extension(base + seq!['/'] + (stem + seq!['.'] + ext)) == Some(ext),
        extension(stem + seq!['.'] + ext) == Some(ext),
        ext.len() > 0 ==> extension(base + seq!['/'] + ext) is None,
        ext.len() > 0 ==> extension(base + seq!['/'] + (seq!['.'] + ext)) is None,
{
    let name = stem + seq!['.'] + ext;
    assert forall|k: int| 0 <= k < name.len() implies name[k] != '/' by {
        if k < stem.len() {
            assert(name[k] == stem[k]);
        } else if k > stem.len() {
            assert(name[k] == ext[k - stem.len() - 1]);
        }
    }
    assert(name.len() >= 2);
    law_file_name_is_last(base, name);
    lemma_last_dot(stem, ext);
    assert(name.skip(stem.len() as int + 1) =~= ext);
    if ext.len() > 0 {
        assert(ext != seq!['.']) by {
            if ext == seq!['.'] {
                assert(ext[0] == '.');
            }
        }
        assert(ext != seq!['.', '.']) by {
            if ext == seq!['.', '.'] {
                assert(ext[0] == '.');
            }
        }
        law_file_name_is_last(base, ext);
        lemma_no_dot(ext);
        let hidden = seq!['.'] + ext;
        assert forall|k: int| 0 <= k < hidden.len() implies hidden[k] != '/' by {
            if k > 0 {
                assert(hidden[k] == ext[k - 1]);
            }
        }
        assert(hidden != seq!['.', '.']) by {
            if hidden == seq!['.', '.'] {
                assert(hidden[1] == ext[0]);
            }
        }
        assert(hidden.len() >= 2);
        law_file_name_is_last(base, hidden);
        let none = Seq::<char>::empty();
        lemma_last_dot(none, ext);
        assert(none + seq!['.'] + ext =~= hidden);
    }
}

proof fn lemma_no_dot(s: Seq<char>)
    requires
        !s.contains('.'),
    ensures
        last_dot(s) == -1,
    decreases s.len(),
{
    if s.len() > 0 {
        assert(s[s.len() - 1] != '.');
        let t = s.drop_last();
        assert forall|k: int| 0 <= k < t.len() implies t[k] != '.' by {
            assert(t[k] == s[k]);
        }
        lemma_no_dot(t);
    }
}

proof fn lemma_last_dot(stem: Seq<char>, ext: Seq<char>)
    requires
        !ext.contains('.'),
    ensures
        last_dot(stem + seq!['.'] + ext) == stem.len(),
    decreases ext.len(),
{
    let s = stem + seq!['.'] + ext;
    if ext.len() > 0 {
        assert(ext[ext.len() - 1] != '.');
        let t = ext.drop_last();
        assert forall|k: int| 0 <= k < t.len() implies t[k] != '.' by {
            assert(t[k] == ext[k]);
        }
        assert(s.drop_last() =~= stem + seq!['.'] + t);
        lemma_last_dot(stem, t);
    } else {
        assert(s.last() == '.');
    }
}

/// Whether two characters are the same but perhaps for the case of an ASCII letter.
pub open spec fn same_letter(a: char, b: char) -> bool {
    a == b || ('A' <= a <= 'Z' && b as int == a as int + 32)
}

/// Lowercase changes ASCII capital letters to their small letters, and nothing else.
pub proof fn law_lower_is_ascii(c: char)
    ensures
        same_letter(c, ascii_lower(c)),
        !('A' <= ascii_lower(c) <= 'Z'),
{
}

/// An archive whose name ends in `.gz` or `.tgz`, in whatever case, is compressed by
/// gzip; one whose name ends in `.zst` or `.tzst` by zstd; one whose name has another
/// extension, not at all.
pub proof fn law_archive_name_decides(base: Seq<char>, stem: Seq<char>, ext: Seq<char>, small: Seq<char>)
    requires
        base.len() > 0,
        stem.len() > 0,
        !stem.contains('/'),
        !ext.contains('/'),
        !ext.contains('.'),
        ext.len() > 0,
        small.len() == ext.len(),
        forall|k: int| 0 <= k < ext.len() ==> same_letter(#[trigger] ext[k], small[k]) && !('A' <= small[k] <= 'Z'),
    ensures
        ({
            let c = compression(base + seq!['/'] + (stem + seq!['.'] + ext));
            let bare = compression(stem + seq!['.'] + ext);
            let gz = small == seq!['g', 'z'] || small == seq!['t', 'g', 'z'];
            let zst = small == seq!['z', 's', 't'] || small == seq!['t', 'z', 's', 't'];
            &&& c == Compress::Gzip <==> gz
            &&& c == Compress::Zstd <==> zst
            &&& c == Compress::Plain <==> !gz && !zst
            &&& bare == c
            &&& compression(base + seq!['/'] + ext) == Compress::Plain
        }),
{
    let name = stem + seq!['.'] + ext;
    assert(name != seq!['.', '.']) by {
        if name == seq!['.', '.'] {
            assert(name.len() == stem.len() + 1 + ext.len());
        }
    }
    law_extension_is_behind_last_dot(base, stem, ext);
    let low = ext.map_values(|c: char| ascii_lower(c));
    assert(low =~= small) by {
        assert forall|k: int| 0 <= k < ext.len() implies low[k] == small[k] by {
            assert(same_letter(ext[k], small[k]));
        }
    }
    reveal_strlit("gz");
    reveal_strlit("tgz");
    reveal_strlit("zst");
    reveal_strlit("tzst");
    assert("gz"@ =~= seq!['g', 'z']);
    assert("tgz"@ =~= seq!['t', 'g', 'z']);
    assert("zst"@ =~= seq!['z', 's', 't']);
    assert("tzst"@ =~= seq!['t', 'z', 's', 't']);
    if low == "gz"@ || low == "tgz"@ {
        assert(low.last() == 'z');
        if low == "zst"@ || low == "tzst"@ {
            assert(low.last() == 't');
        }
    }
}

/// Paths are ordered by the first component in which they differ: the root comes before
/// `.`, that before `..`, and that before any name; names are ordered by their text.
pub proof fn law_first_component_orders(a: Seq<PartModel>, b: Seq<PartModel>, k: int)
    requires
        0 <= k < a.len(),
        k < b.len(),
        forall|j: int| 0 <= j < k ==> a[j] == b[j],
        a[k] != b[k],
    ensures
        a[k] matches PartModel::Name(x) ==> (b[k] matches PartModel::Name(y) ==> (parts_le(a, b) <==> text_le(x, y))),
        a[k] is Root ==> parts_le(a, b),
        b[k] is Root ==> !parts_le(a, b),
        a[k] is Here && !(b[k] is Root) ==> parts_le(a, b),
        a[k] is Up && b[k] is Name ==> parts_le(a, b),
        a[k] is Name && !(b[k] is Name) ==> !parts_le(a, b),
        a[k] is Up && b[k] is Here ==> !parts_le(a, b),
    decreases k,
{
    if k > 0 {
        assert(a[0] == b[0]);
        let x = a.drop_first();
        let y = b.drop_first();
        assert forall|j: int| 0 <= j < k - 1 implies x[j] == y[j] by {
            assert(a[j + 1] == b[j + 1]);
        }
        law_first_component_orders(x, y, k - 1);
    }
}

/// Paths that each come no later than the other have the same components.
pub proof fn law_path_order_is_antisymmetric(a: Seq<PartModel>, b: Seq<PartModel>)
    requires
        parts_le(a, b),
        parts_le(b, a),
    ensures
        a == b,
    decreases a.len(),
{
    if a.len() > 0 && b.len() > 0 {
        if a[0] == b[0] {
            law_path_order_is_antisymmetric(a.drop_first(), b.drop_first());
            assert(a =~= seq![a[0]] + a.drop_first());
            assert(b =~= seq![b[0]] + b.drop_first());
        } else {
            match (a[0], b[0]) {
                (PartModel::Name(x), PartModel::Name(y)) => {
                    crate::text::law_text_le_antisymmetric(x, y);
                },
                _ => {},
            }
        }
    } else {
        assert(a =~= b);
    }
}

/// A path comes before every path below it.
pub proof fn law_parents_come_first(a: Seq<PartModel>, more: Seq<PartModel>)
    ensures
        parts_le(a, a + more),
        more.len() > 0 ==> !parts_le(a + more, a),
    decreases a.len(),
{
    if a.len() > 0 {
        assert((a + more).drop_first() =~= a.drop_first() + more);
        law_parents_come_first(a.drop_first(), more);
    }
}

/// Whether a list holds the path, perhaps written in another way.
pub open spec fn holds_path(s: Seq<Seq<char>>, path: Seq<char>) -> bool {
    exists|k: int| 0 <= k < s.len() && components(#[trigger] s[k]) == components(path)
}

/// Dropping repeats keeps every path that there was, adds none, and leaves no two
/// neighbours the same.
pub proof fn law_repeats_are_dropped(s: Seq<Seq<char>>)
    ensures
        forall|k: int| 0 <= k < distinct_neighbours(s).len() ==> s.contains(#[trigger] distinct_neighbours(s)[k]),
        forall|i: int| 0 <= i < s.len() ==> holds_path(distinct_neighbours(s), #[trigger] s[i]),
        forall|k: int, m: int|
            0 <= k < distinct_neighbours(s).len() - 1 && m == k + 1 ==> components(
                #[trigger] distinct_neighbours(s)[k],
            ) != components(#[trigger] distinct_neighbours(s)[m]),
{
    lemma_repeats_none_new(s);
    lemma_repeats_none_lost(s);
    lemma_repeats_none_left(s);
}

proof fn lemma_repeats_none_new(s: Seq<Seq<char>>)
    ensures
        forall|k: int| 0 <= k < distinct_neighbours(s).len() ==> s.contains(#[trigger] distinct_neighbours(s)[k]),
    decreases s.len(),
{
    if s.len() > 0 {
        let t = s.drop_last();
        let f = distinct_neighbours(t);
        let r = distinct_neighbours(s);
        lemma_repeats_none_new(t);
        assert(t.push(s.last()) =~= s);
        lemma_pushed_items(t, s.last());
        assert forall|k: int| 0 <= k < r.len() implies s.contains(#[trigger] r[k]) by {
            if k < f.len() {
                assert(r[k] == f[k]);
                assert(t.contains(f[k]));
            }
        }
    }
}

proof fn lemma_repeats_none_lost(s: Seq<Seq<char>>)
    ensures
        forall|i: int| 0 <= i < s.len() ==> holds_path(distinct_neighbours(s), #[trigger] s[i]),
    decreases s.len(),
{
    if s.len() > 0 {
        let t = s.drop_last();
        let f = distinct_neighbours(t);
        let r = distinct_neighbours(s);
        lemma_repeats_none_lost(t);
        assert forall|i: int| 0 <= i < s.len() implies holds_path(r, #[trigger] s[i]) by {
            if i < t.len() {
                assert(holds_path(f, t[i]));
                let k = choose|k: int| 0 <= k < f.len() && components(#[trigger] f[k]) == components(t[i]);
                assert(components(r[k]) == components(s[i]));
            } else {
                assert(components(r[r.len() - 1]) == components(s[i]));
            }
        }
    }
}

proof fn lemma_repeats_none_left(s: Seq<Seq<char>>)
    ensures
        forall|k: int, m: int|
            0 <= k < distinct_neighbours(s).len() - 1 && m == k + 1 ==> components(
                #[trigger] distinct_neighbours(s)[k],
            ) != components(#[trigger] distinct_neighbours(s)[m]),
    decreases s.len(),
{
    if s.len() > 0 {
        let f = distinct_neighbours(s.drop_last());
        let r = distinct_neighbours(s);
        lemma_repeats_none_left(s.drop_last());
        assert forall|k: int, m: int| 0 <= k < r.len() - 1 && m == k + 1 implies components(#[trigger] r[k])
            != components(#[trigger] r[m]) by {
            assert(r[k] == f[k]);
            if m < f.len() {
                assert(r[m] == f[m]);
            } else {
                assert(f[k] == f.last());
            }
        }
    }
}

/// The parent of a path that ends in a name is what stands before the name.
pub proof fn law_parent_stands_before(base: Seq<char>, name: Seq<char>)
    requires
        plain_name(name),
        base.len() > 0,
    ensures
        parent(base + seq!['/'] + name) == Some(base),
        parent(name) == Some(Seq::<char>::empty()),
        parent(seq!['/'] + name) == Some(seq!['/']),
{
    reveal_strlit(".");
    assert("."@ =~= seq!['.']);
    let x = base + seq!['/'] + name;
    let empty = Seq::<char>::empty();
    law_split_at_separator(base, name, '/');
    law_split_at_separator(empty, name, '/');
    lemma_split_single(name, '/');
    lemma_split_pieces(base, '/');
    crate::text::law_split_joins(base, '/');
    let p = split(base, '/');
    let n = p.len() as int;
    assert(split(x, '/') =~= p.push(name));
    assert(p.push(name)[n] == name);
    assert(counts(p.push(name), n));
    assert(last_counting(p.push(name), n + 1) == n);
    assert(p.push(name).take(n) =~= p);
    if n == 1 && is_absolute(x) {
        crate::path::lemma_split_head(base);
        assert(is_absolute(base));
    }
    assert(split(name, '/')[0] == name);
    assert(counts(split(name, '/'), 0));
    let y = seq!['/'] + name;
    assert(empty + seq!['/'] + name =~= y);
    assert(split(y, '/') =~= seq![empty, name]);
    assert(counts(split(y, '/'), 1));
    assert(last_counting(split(y, '/'), 2) == 1);
}

} // verus!
