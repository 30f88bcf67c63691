//! Reading JSON text back: what a printed value stands for.
use vstd::prelude::*;

use crate::json::{
    comma, field_lines, item_lines, law_quoted_reads_back, quoted, read_string, rendered, JsonModel,
};
use crate::text::{decimal, digit};

verus! {

/// Whether a character is white space between JSON tokens.
pub open spec fn is_gap(c: char) -> bool {
    c == ' ' || c == '\n' || c == '\r' || c == '\t'
}

/// `s` without the white space that it starts with.
pub open spec fn skip_gap(s: Seq<char>) -> Seq<char>
    decreases s.len(),
{
    if s.len() > 0 && is_gap(s[0]) {
        skip_gap(s.drop_first())
    } else {
        s
    }
}

/// Whether a character is a decimal digit.
pub open spec fn is_digit(c: char) -> bool {
    '0' <= c <= '9'
}

/// The number that `s` starts with, digit by digit, and what follows it; `acc` is
/// what has been read so far.
pub open spec fn read_number(s: Seq<char>, acc: nat) -> (nat, Seq<char>)
    decreases s.len(),
{
    if s.len() > 0 && is_digit(s[0]) {
        read_number(s.drop_first(), (acc * 10 + (s[0] as int - 48)) as nat)
    } else {
        (acc, s)
    }
}

/// What follows `word`, where `s` starts with that.
pub open spec fn read_word(s: Seq<char>, word: Seq<char>) -> Option<Seq<char>> {
    if s.len() >= word.len() && s.take(word.len() as int) == word {
        Some(s.skip(word.len() as int))
    } else {
        None
    }
}

/// The value that `s` starts with, and what follows it.
pub open spec fn read_value(s: Seq<char>) -> Option<(JsonModel, Seq<char>)>
    decreases s.len(), 1int,
{
    let t = skip_gap(s);
    if t.len() == 0 || t.len() > s.len() {
        None
    } else if let Some(rest) = read_word(t, "null"@) {
        Some((JsonModel::Null, rest))
    } else if let Some(rest) = read_word(t, "true"@) {
        Some((JsonModel::Bool(true), rest))
    } else if let Some(rest) = read_word(t, "false"@) {
        Some((JsonModel::Bool(false), rest))
    } else if t[0] == '"' {
        match read_string(t.skip(1)) {
            Some((text, rest)) => Some((JsonModel::Str(text), rest)),
            None => None,
        }
    } else if is_digit(t[0]) {
        let (n, rest) = read_number(t, 0);
        if n <= u128::MAX {
            Some((JsonModel::Num(n as u128), rest))
        } else {
            None
        }
    } else if t[0] == '[' {
        let u = skip_gap(t.skip(1));
        if u.len() == 0 || u.len() >= s.len() {
            None
        } else if u[0] == ']' {
            Some((JsonModel::Arr(seq![]), u.skip(1)))
        } else {
            match read_items(u) {
                Some((items, rest)) => Some((JsonModel::Arr(items), rest)),
                None => None,
            }
        }
    } else if t[0] == '{' {
        let u = skip_gap(t.skip(1));
        if u.len() == 0 || u.len() >= s.len() {
            None
        } else if u[0] == '}' {
            Some((JsonModel::Obj(seq![]), u.skip(1)))
        } else {
            match read_fields(u) {
                Some((fields, rest)) => Some((JsonModel::Obj(fields), rest)),
                None => None,
            }
        }
    } else {
        None
    }
}

/// The items of an array up to its closing bracket, and what follows that.
pub open spec fn read_items(s: Seq<char>) -> Option<(Seq<JsonModel>, Seq<char>)>
    decreases s.len(), 2int,
{
    match read_value(s) {
        Some((v, r)) => {
            let t = skip_gap(r);
            if t.len() == 0 || t.len() >= s.len() {
                None
            } else if t[0] == ']' {
                Some((seq![v], t.skip(1)))
            } else if t[0] == ',' {
                match read_items(t.skip(1)) {
                    Some((more, rest)) => Some((seq![v] + more, rest)),
                    None => None,
                }
            } else {
                None
            }
        },
        None => None,
    }
}

/// The fields of an object up to its closing brace, and what follows that.
pub open spec fn read_fields(s: Seq<char>) -> Option<(Seq<(Seq<char>, JsonModel)>, Seq<char>)>
    decreases s.len(), 2int,
{
    let q = skip_gap(s);
    if q.len() == 0 || q[0] != '"' {
        None
    } else {
        match read_string(q.skip(1)) {
            Some((key, r)) => {
                let c = skip_gap(r);
                if c.len() == 0 || c.len() >= s.len() || c[0] != ':' {
                    None
                } else {
                    match read_value(c.skip(1)) {
                        Some((v, r)) => {
                            let t = skip_gap(r);
                            if t.len() == 0 || t.len() >= s.len() {
                                None
                            } else if t[0] == '}' {
                                Some((seq![(key, v)], t.skip(1)))
                            } else if t[0] == ',' {
                                match read_fields(t.skip(1)) {
                                    Some((more, rest)) => Some((seq![(key, v)] + more, rest)),
                                    None => None,
                                }
                            } else {
                                None
                            }
                        },
                        None => None,
                    }
                }
            },
            None => None,
        }
    }
}

/// White space in front of a token is skipped.
proof fn lemma_skip_gap(gap: Seq<char>, s: Seq<char>)
    requires
        forall|i: int| 0 <= i < gap.len() ==> is_gap(#[trigger] gap[i]),
        s.len() > 0,
        !is_gap(s[0]),
    ensures
        skip_gap(gap + s) == s,
    decreases gap.len(),
{
    let t = gap + s;
    if gap.len() > 0 {
        assert(t[0] == gap[0]);
        assert(is_gap(gap[0]));
        let g = gap.drop_first();
        assert forall|i: int| 0 <= i < g.len() implies is_gap(#[trigger] g[i]) by {
            assert(g[i] == gap[i + 1]);
        }
        assert(t.drop_first() =~= g + s);
        lemma_skip_gap(g, s);
    } else {
        assert(t =~= s);
    }
}

/// A printed number is read digit by digit.
proof fn lemma_read_decimal(n: nat, tail: Seq<char>)
    ensures
        read_number(decimal(n) + tail, 0) == read_number(tail, n),
        decimal(n).len() > 0,
        is_digit(decimal(n)[0]),
    decreases n,
{
    let s = decimal(n) + tail;
    if n < 10 {
        assert(s[0] == digit(n));
        assert(s.drop_first() =~= tail);
    } else {
        let d = digit(n % 10);
        let more = seq![d] + tail;
        lemma_read_decimal(n / 10, more);
        assert(s =~= decimal(n / 10) + more);
        assert(more.drop_first() =~= tail);
        assert((n / 10) * 10 + n % 10 == n) by (nonlinear_arith);
    }
}

/// Whether text may follow a number without being taken for a part of it.
pub open spec fn ends_number(rest: Seq<char>) -> bool {
    rest.len() == 0 || !is_digit(rest[0])
}

/// Whether `pad` is made of spaces.
pub open spec fn blank_pad(pad: Seq<char>) -> bool {
    forall|i: int| 0 <= i < pad.len() ==> #[trigger] pad[i] == ' '
}

/// The text of the literals that the printer uses.
pub proof fn lemma_literals()
    ensures
        "null"@ =~= seq!['n', 'u', 'l', 'l'],
        "true"@ =~= seq!['t', 'r', 'u', 'e'],
        "false"@ =~= seq!['f', 'a', 'l', 's', 'e'],
        "[]"@ =~= seq!['[', ']'],
        "{}"@ =~= seq!['{', '}'],
        "[\n"@ =~= seq!['[', '\n'],
        "{\n"@ =~= seq!['{', '\n'],
        ": "@ =~= seq![':', ' '],
        "  "@ =~= seq![' ', ' '],
{
    reveal_strlit("null");
    reveal_strlit("true");
    reveal_strlit("false");
    reveal_strlit("[]");
    reveal_strlit("{}");
    reveal_strlit("[\n");
    reveal_strlit("{\n");
    reveal_strlit(": ");
    reveal_strlit("  ");
}

/// The first character of a printed value.
proof fn lemma_first(v: JsonModel, pad: Seq<char>)
    ensures
        rendered(v, pad).len() > 0,
        !is_gap(rendered(v, pad)[0]),
        rendered(v, pad)[0] != ']',
        rendered(v, pad)[0] != '}',
{
    lemma_literals();
    match v {
        JsonModel::Num(n) => {
            lemma_read_decimal(n as nat, seq![]);
        },
        _ => {},
    }
}

/// The lines of the items from place `k` on.
spec fn item_tail(items: Seq<JsonModel>, k: int, pad: Seq<char>) -> Seq<char>
    decreases items.len() - k,
{
    if k < 0 || k >= items.len() {
        seq![]
    } else {
        pad + (rendered(items[k], pad) + (comma(k, items.len()) + (seq!['\n'] + item_tail(items, k + 1, pad))))
    }
}

/// What follows the text of item `k`.
spec fn behind_item(items: Seq<JsonModel>, k: int, pad: Seq<char>) -> Seq<char> {
    comma(k, items.len()) + (seq!['\n'] + item_tail(items, k + 1, pad))
}

/// The text of the items from place `k` on, without the white space in front, and
/// what follows it.
spec fn item_text(items: Seq<JsonModel>, k: int, pad: Seq<char>, close: Seq<char>) -> Seq<char> {
    (rendered(items[k], pad) + behind_item(items, k, pad)) + close
}

/// The lines of the fields from place `k` on.
spec fn field_tail(fields: Seq<(Seq<char>, JsonModel)>, k: int, pad: Seq<char>) -> Seq<char>
    decreases fields.len() - k,
{
    if k < 0 || k >= fields.len() {
        seq![]
    } else {
        pad + (quoted(fields[k].0) + (": "@ + (rendered(fields[k].1, pad) + (comma(k, fields.len()) + (seq!['\n']
            + field_tail(fields, k + 1, pad))))))
    }
}

/// What follows the text of field `k`.
spec fn behind_field(fields: Seq<(Seq<char>, JsonModel)>, k: int, pad: Seq<char>) -> Seq<char> {
    comma(k, fields.len()) + (seq!['\n'] + field_tail(fields, k + 1, pad))
}

/// The text of the fields from place `k` on, without the white space in front, and
/// what follows it.
spec fn field_text(fields: Seq<(Seq<char>, JsonModel)>, k: int, pad: Seq<char>, close: Seq<char>) -> Seq<char> {
    (quoted(fields[k].0) + (": "@ + (rendered(fields[k].1, pad) + behind_field(fields, k, pad)))) + close
}

/// Appending to text that was put together from parts appends to its last part.
proof fn lemma_append_two(a: Seq<char>, b: Seq<char>, close: Seq<char>)
    ensures
        (a + b) + close == a + (b + close),
{
    assert((a + b) + close =~= a + (b + close));
}

proof fn lemma_append_four(a: Seq<char>, b: Seq<char>, c: Seq<char>, d: Seq<char>, close: Seq<char>)
    ensures
        (a + (b + (c + d))) + close == a + (b + (c + (d + close))),
{
    assert((a + (b + (c + d))) + close =~= a + (b + (c + (d + close))));
}

proof fn lemma_next_line(inner: Seq<char>, x: Seq<char>, close: Seq<char>)
    ensures
        ({
            let r = (seq![','] + (seq!['\n'] + (inner + x))) + close;
            &&& r.len() > 0
            &&& r[0] == ','
            &&& r.skip(1) == (seq!['\n'] + inner) + (x + close)
        }),
{
    let r = (seq![','] + (seq!['\n'] + (inner + x))) + close;
    assert(r.skip(1) =~= (seq!['\n'] + inner) + (x + close));
}

proof fn lemma_last_line(close: Seq<char>)
    ensures
        (Seq::<char>::empty() + (seq!['\n'] + Seq::<char>::empty())) + close == seq!['\n'] + close,
{
    assert((Seq::<char>::empty() + (seq!['\n'] + Seq::<char>::empty())) + close =~= seq!['\n'] + close);
}

proof fn lemma_first_line(open: Seq<char>, inner: Seq<char>, x: Seq<char>, pad: Seq<char>, b: char, rest: Seq<char>)
    requires
        open.len() == 2,
        open[1] == '\n',
    ensures
        ({
            let s = (open + (inner + x) + pad + seq![b]) + rest;
            &&& s.len() > 0
            &&& s[0] == open[0]
            &&& s.skip(1) == (seq!['\n'] + inner) + (x + closing(pad, b, rest))
        }),
{
    let s = (open + (inner + x) + pad + seq![b]) + rest;
    assert(s.skip(1) =~= (seq!['\n'] + inner) + (x + closing(pad, b, rest)));
}

proof fn lemma_grow_items(lines: Seq<char>, pad: Seq<char>, v: Seq<char>, c: Seq<char>, tail: Seq<char>)
    ensures
        (lines + pad + v + c + seq!['\n']) + tail == lines + (pad + (v + (c + (seq!['\n'] + tail)))),
{
    assert((lines + pad + v + c + seq!['\n']) + tail =~= lines + (pad + (v + (c + (seq!['\n'] + tail)))));
}

proof fn lemma_item_tail(items: Seq<JsonModel>, k: int, pad: Seq<char>)
    requires
        0 <= k <= items.len(),
    ensures
        item_lines(items, items.len() as int, pad) == item_lines(items, k, pad) + item_tail(items, k, pad),
    decreases items.len() - k,
{
    if k < items.len() {
        lemma_item_tail(items, k + 1, pad);
        lemma_grow_items(
            item_lines(items, k, pad),
            pad,
            rendered(items[k], pad),
            comma(k, items.len()),
            item_tail(items, k + 1, pad),
        );
    } else {
        assert(item_lines(items, k, pad) + Seq::<char>::empty() =~= item_lines(items, k, pad));
    }
}

proof fn lemma_grow_fields(
    lines: Seq<char>,
    pad: Seq<char>,
    q: Seq<char>,
    s: Seq<char>,
    v: Seq<char>,
    c: Seq<char>,
    tail: Seq<char>,
)
    ensures
        (lines + pad + q + s + v + c + seq!['\n']) + tail == lines + (pad + (q + (s + (v + (c + (seq!['\n'] + tail)))))),
{
    lemma_grow_items(lines + pad + q, s, v, c, tail);
    let x = s + (v + (c + (seq!['\n'] + tail)));
    assert((lines + pad + q) + x =~= lines + (pad + (q + x)));
}

proof fn lemma_field_tail(fields: Seq<(Seq<char>, JsonModel)>, k: int, pad: Seq<char>)
    requires
        0 <= k <= fields.len(),
    ensures
        field_lines(fields, fields.len() as int, pad) == field_lines(fields, k, pad) + field_tail(fields, k, pad),
    decreases fields.len() - k,
{
    if k < fields.len() {
        lemma_field_tail(fields, k + 1, pad);
        lemma_grow_fields(
            field_lines(fields, k, pad),
            pad,
            quoted(fields[k].0),
            ": "@,
            rendered(fields[k].1, pad),
            comma(k, fields.len()),
            field_tail(fields, k + 1, pad),
        );
    } else {
        assert(field_lines(fields, k, pad) + Seq::<char>::empty() =~= field_lines(fields, k, pad));
    }
}

proof fn lemma_gap_len(s: Seq<char>)
    ensures
        skip_gap(s).len() <= s.len(),
    decreases s.len(),
{
    if s.len() > 0 && is_gap(s[0]) {
        lemma_gap_len(s.drop_first());
    }
}

proof fn lemma_not_word(s: Seq<char>, word: Seq<char>)
    requires
        s.len() > 0,
        word.len() > 0,
        s[0] != word[0],
    ensures
        read_word(s, word) is None,
{
    if s.len() >= word.len() {
        assert(s.take(word.len() as int)[0] == s[0]);
    }
}

/// White space in front of a value makes no difference.
proof fn lemma_value_after_gap(gap: Seq<char>, s: Seq<char>)
    requires
        forall|i: int| 0 <= i < gap.len() ==> is_gap(#[trigger] gap[i]),
        s.len() > 0,
        !is_gap(s[0]),
    ensures
        read_value(gap + s) == read_value(s),
{
    lemma_skip_gap(gap, s);
    lemma_gap_len(s.skip(1));
}

/// White space in front of the items of an array makes no difference.
proof fn lemma_items_after_gap(gap: Seq<char>, s: Seq<char>)
    requires
        forall|i: int| 0 <= i < gap.len() ==> is_gap(#[trigger] gap[i]),
        s.len() > 0,
        !is_gap(s[0]),
        read_items(s) is Some,
    ensures
        read_items(gap + s) == read_items(s),
{
    lemma_value_after_gap(gap, s);
}

/// White space in front of the fields of an object makes no difference.
proof fn lemma_fields_after_gap(gap: Seq<char>, s: Seq<char>)
    requires
        forall|i: int| 0 <= i < gap.len() ==> is_gap(#[trigger] gap[i]),
        s.len() > 0,
        !is_gap(s[0]),
        read_fields(s) is Some,
    ensures
        read_fields(gap + s) == read_fields(s),
{
    lemma_skip_gap(gap, s);
}

/// What follows the lines of an array or an object.
spec fn closing(pad: Seq<char>, bracket: char, rest: Seq<char>) -> Seq<char> {
    pad + seq![bracket] + rest
}

proof fn lemma_closing(pad: Seq<char>, bracket: char, rest: Seq<char>)
    requires
        blank_pad(pad),
        !is_gap(bracket),
    ensures
        skip_gap(seq!['\n'] + closing(pad, bracket, rest)) == seq![bracket] + rest,
{
    let gap = seq!['\n'] + pad;
    assert(seq!['\n'] + closing(pad, bracket, rest) =~= gap + (seq![bracket] + rest));
    assert forall|i: int| 0 <= i < gap.len() implies is_gap(#[trigger] gap[i]) by {
        if i > 0 {
            assert(gap[i] == pad[i - 1]);
        }
    }
    lemma_skip_gap(gap, seq![bracket] + rest);
}

/// A word or a string or a number is read back.
proof fn lemma_scalar_reads_back(v: JsonModel, pad: Seq<char>, rest: Seq<char>)
    requires
        !(v is Arr),
        !(v is Obj),
        ends_number(rest),
    ensures
        read_value(rendered(v, pad) + rest) == Some((v, rest)),
{
    let s = rendered(v, pad) + rest;
    lemma_literals();
    lemma_first(v, pad);
    assert(s[0] == rendered(v, pad)[0]);
    assert(skip_gap(s) == s);
    match v {
        JsonModel::Null => {
            assert(s.take(4) =~= "null"@);
            assert(s.skip(4) =~= rest);
        },
        JsonModel::Bool(b) => {
            lemma_not_word(s, "null"@);
            if b {
                assert(s.take(4) =~= "true"@);
                assert(s.skip(4) =~= rest);
            } else {
                lemma_not_word(s, "true"@);
                assert(s.take(5) =~= "false"@);
                assert(s.skip(5) =~= rest);
            }
        },
        JsonModel::Str(text) => {
            lemma_not_word(s, "null"@);
            lemma_not_word(s, "true"@);
            lemma_not_word(s, "false"@);
            law_quoted_reads_back(text, rest);
        },
        JsonModel::Num(n) => {
            lemma_read_decimal(n as nat, rest);
            lemma_not_word(s, "null"@);
            lemma_not_word(s, "true"@);
            lemma_not_word(s, "false"@);
        },
        _ => {},
    }
}

/// How a value that starts with a bracket or a brace is read.
proof fn lemma_opening(s: Seq<char>, u: Seq<char>)
    requires
        s.len() > 0,
        s[0] == '[' || s[0] == '{',
        u == skip_gap(s.skip(1)),
        u.len() > 0,
    ensures
        s[0] == '[' && u[0] == ']' ==> read_value(s) == Some((JsonModel::Arr(seq![]), u.skip(1))),
        s[0] == '[' && u[0] != ']' && read_items(u) is Some ==> read_value(s) == Some(
            (JsonModel::Arr((read_items(u)->0).0), (read_items(u)->0).1),
        ),
        s[0] == '{' && u[0] == '}' ==> read_value(s) == Some((JsonModel::Obj(seq![]), u.skip(1))),
        s[0] == '{' && u[0] != '}' && read_fields(u) is Some ==> read_value(s) == Some(
            (JsonModel::Obj((read_fields(u)->0).0), (read_fields(u)->0).1),
        ),
{
    lemma_literals();
    lemma_not_word(s, "null"@);
    lemma_not_word(s, "true"@);
    lemma_not_word(s, "false"@);
    lemma_gap_len(s.skip(1));
    assert(skip_gap(s) == s);
}

/// Line breaks and indentation are white space.
proof fn lemma_line_gap(inner: Seq<char>)
    requires
        blank_pad(inner),
    ensures
        forall|i: int| 0 <= i < (seq!['\n'] + inner).len() ==> is_gap(#[trigger] (seq!['\n'] + inner)[i]),
{
    let gap = seq!['\n'] + inner;
    assert forall|i: int| 0 <= i < gap.len() implies is_gap(#[trigger] gap[i]) by {
        if i > 0 {
            assert(gap[i] == inner[i - 1]);
        }
    }
}

/// A printed value is read back as that value, and ends where its text ends. What
/// follows must not be a digit, which would be taken for a part of a number.
pub proof fn law_printed_reads_back(v: JsonModel, pad: Seq<char>, rest: Seq<char>)
    requires
        blank_pad(pad),
        ends_number(rest),
    ensures
        read_value(rendered(v, pad) + rest) == Some((v, rest)),
    decreases v, 0int,
{
    match v {
        JsonModel::Arr(items) => {
            lemma_array_opens(items, pad, rest);
            if items.len() > 0 {
                lemma_inner_pad(pad);
                lemma_items_read_back(items, 0, pad + "  "@, pad, rest);
                assert(items.skip(0) =~= items);
            }
        },
        JsonModel::Obj(fields) => {
            lemma_object_opens(fields, pad, rest);
            if fields.len() > 0 {
                lemma_inner_pad(pad);
                lemma_fields_read_back(fields, 0, pad + "  "@, pad, rest);
                assert(fields.skip(0) =~= fields);
            }
        },
        _ => {
            lemma_scalar_reads_back(v, pad, rest);
        },
    }
}

proof fn lemma_inner_pad(pad: Seq<char>)
    requires
        blank_pad(pad),
    ensures
        blank_pad(pad + "  "@),
{
    lemma_literals();
}

proof fn lemma_array_opens(items: Seq<JsonModel>, pad: Seq<char>, rest: Seq<char>)
    requires
        blank_pad(pad),
    ensures
        ({
            let s = rendered(JsonModel::Arr(items), pad) + rest;
            let body = item_text(items, 0, pad + "  "@, closing(pad, ']', rest));
            &&& items.len() == 0 ==> read_value(s) == Some((JsonModel::Arr(items), rest))
            &&& items.len() > 0 && read_items(body) is Some ==> read_value(s) == Some(
                (JsonModel::Arr((read_items(body)->0).0), (read_items(body)->0).1),
            )
        }),
{
    lemma_literals();
    let s = rendered(JsonModel::Arr(items), pad) + rest;
    if items.len() == 0 {
        let u = seq![']'] + rest;
        assert(s.skip(1) =~= u);
        assert(skip_gap(u) == u);
        assert(u.skip(1) =~= rest);
        assert(items =~= seq![]);
        lemma_opening(s, u);
    } else {
        let inner = pad + "  "@;
        let body = item_text(items, 0, inner, closing(pad, ']', rest));
        lemma_item_tail(items, 0, inner);
        assert(item_lines(items, 0, inner) + item_tail(items, 0, inner) =~= item_tail(items, 0, inner));
        lemma_first_line("[\n"@, inner, rendered(items[0], inner) + behind_item(items, 0, inner), pad, ']', rest);
        lemma_first(items[0], inner);
        assert(body[0] == rendered(items[0], inner)[0]);
        lemma_inner_pad(pad);
        lemma_line_gap(inner);
        lemma_skip_gap(seq!['\n'] + inner, body);
        lemma_opening(s, body);
    }
}

proof fn lemma_object_opens(fields: Seq<(Seq<char>, JsonModel)>, pad: Seq<char>, rest: Seq<char>)
    requires
        blank_pad(pad),
    ensures
        ({
            let s = rendered(JsonModel::Obj(fields), pad) + rest;
            let body = field_text(fields, 0, pad + "  "@, closing(pad, '}', rest));
            &&& fields.len() == 0 ==> read_value(s) == Some((JsonModel::Obj(fields), rest))
            &&& fields.len() > 0 && read_fields(body) is Some ==> read_value(s) == Some(
                (JsonModel::Obj((read_fields(body)->0).0), (read_fields(body)->0).1),
            )
        }),
{
    lemma_literals();
    let s = rendered(JsonModel::Obj(fields), pad) + rest;
    if fields.len() == 0 {
        let u = seq!['}'] + rest;
        assert(s.skip(1) =~= u);
        assert(skip_gap(u) == u);
        assert(u.skip(1) =~= rest);
        assert(fields =~= seq![]);
        lemma_opening(s, u);
    } else {
        let inner = pad + "  "@;
        let body = field_text(fields, 0, inner, closing(pad, '}', rest));
        lemma_field_tail(fields, 0, inner);
        assert(field_lines(fields, 0, inner) + field_tail(fields, 0, inner) =~= field_tail(fields, 0, inner));
        let x = quoted(fields[0].0) + (": "@ + (rendered(fields[0].1, inner) + behind_field(fields, 0, inner)));
        lemma_first_line("{\n"@, inner, x, pad, '}', rest);
        assert(body[0] == quoted(fields[0].0)[0]);
        lemma_inner_pad(pad);
        lemma_line_gap(inner);
        lemma_skip_gap(seq!['\n'] + inner, body);
        lemma_opening(s, body);
    }
}

/// How the first of several items is read.
proof fn lemma_item_opens(v: JsonModel, inner: Seq<char>, r: Seq<char>)
    requires
        read_value(rendered(v, inner) + r) == Some((v, r)),
    ensures
        ({
            let s = rendered(v, inner) + r;
            let t = skip_gap(r);
            &&& t.len() > 0 && t[0] == ']' ==> read_items(s) == Some((seq![v], t.skip(1)))
            &&& t.len() > 0 && t[0] == ',' && read_items(t.skip(1)) is Some ==> read_items(s) == Some(
                (seq![v] + (read_items(t.skip(1))->0).0, (read_items(t.skip(1))->0).1),
            )
        }),
{
    lemma_first(v, inner);
    lemma_gap_len(r);
}

proof fn lemma_items_read_back(items: Seq<JsonModel>, k: int, inner: Seq<char>, pad: Seq<char>, rest: Seq<char>)
    requires
        0 <= k < items.len(),
        blank_pad(inner),
        blank_pad(pad),
    ensures
        read_items(item_text(items, k, inner, closing(pad, ']', rest))) == Some((items.skip(k), rest)),
    decreases items, items.len() - k,
{
    let close = closing(pad, ']', rest);
    let v = items[k];
    let r = behind_item(items, k, inner) + close;
    lemma_append_two(rendered(v, inner), behind_item(items, k, inner), close);
    if k + 1 < items.len() {
        let body = item_text(items, k + 1, inner, close);
        lemma_next_line(inner, rendered(items[k + 1], inner) + behind_item(items, k + 1, inner), close);
        assert(skip_gap(r) == r);
        law_printed_reads_back(v, inner, r);
        lemma_item_opens(v, inner, r);
        lemma_line_gap(inner);
        lemma_first(items[k + 1], inner);
        assert(body[0] == rendered(items[k + 1], inner)[0]);
        lemma_items_read_back(items, k + 1, inner, pad, rest);
        lemma_items_after_gap(seq!['\n'] + inner, body);
        assert(seq![v] + items.skip(k + 1) =~= items.skip(k));
    } else {
        lemma_last_line(close);
        law_printed_reads_back(v, inner, r);
        lemma_item_opens(v, inner, r);
        lemma_closing(pad, ']', rest);
        assert((seq![']'] + rest).skip(1) =~= rest);
        assert(seq![v] =~= items.skip(k));
    }
}

/// How the first of several fields is read.
proof fn lemma_field_opens(key: Seq<char>, v: JsonModel, inner: Seq<char>, r: Seq<char>)
    requires
        read_value(rendered(v, inner) + r) == Some((v, r)),
    ensures
        ({
            let s = quoted(key) + (": "@ + (rendered(v, inner) + r));
            let t = skip_gap(r);
            &&& t.len() > 0 && t[0] == '}' ==> read_fields(s) == Some((seq![(key, v)], t.skip(1)))
            &&& t.len() > 0 && t[0] == ',' && read_fields(t.skip(1)) is Some ==> read_fields(s) == Some(
                (seq![(key, v)] + (read_fields(t.skip(1))->0).0, (read_fields(t.skip(1))->0).1),
            )
        }),
{
    lemma_literals();
    let value = rendered(v, inner) + r;
    let colon = ": "@ + value;
    let s = quoted(key) + colon;
    law_quoted_reads_back(key, colon);
    assert(s[0] == '"');
    assert(skip_gap(s) == s);
    assert(colon[0] == ':');
    assert(skip_gap(colon) == colon);
    let space = seq![' '];
    assert(colon.skip(1) =~= space + value);
    lemma_first(v, inner);
    assert(value[0] == rendered(v, inner)[0]);
    lemma_value_after_gap(space, value);
    lemma_gap_len(r);
}

proof fn lemma_field_and_more(
    key: Seq<char>,
    v: JsonModel,
    inner: Seq<char>,
    behind: Seq<char>,
    close: Seq<char>,
    gap: Seq<char>,
    body: Seq<char>,
)
    requires
        (behind + close).len() > 0,
        (behind + close)[0] == ',',
        (behind + close).skip(1) == gap + body,
        forall|i: int| 0 <= i < gap.len() ==> is_gap(#[trigger] gap[i]),
        body.len() > 0,
        !is_gap(body[0]),
        read_value(rendered(v, inner) + (behind + close)) == Some((v, behind + close)),
        read_fields(body) is Some,
    ensures
        read_fields((quoted(key) + (": "@ + (rendered(v, inner) + behind))) + close) == Some(
            (seq![(key, v)] + (read_fields(body)->0).0, (read_fields(body)->0).1),
        ),
{
    lemma_append_four(quoted(key), ": "@, rendered(v, inner), behind, close);
    lemma_fields_after_gap(gap, body);
    assert(skip_gap(behind + close) == behind + close);
    lemma_field_opens(key, v, inner, behind + close);
}

proof fn lemma_field_and_end(
    key: Seq<char>,
    v: JsonModel,
    inner: Seq<char>,
    behind: Seq<char>,
    close: Seq<char>,
    rest: Seq<char>,
)
    requires
        skip_gap(behind + close) == seq!['}'] + rest,
        read_value(rendered(v, inner) + (behind + close)) == Some((v, behind + close)),
    ensures
        read_fields((quoted(key) + (": "@ + (rendered(v, inner) + behind))) + close) == Some((seq![(key, v)], rest)),
{
    lemma_append_four(quoted(key), ": "@, rendered(v, inner), behind, close);
    assert((seq!['}'] + rest).skip(1) =~= rest);
    lemma_field_opens(key, v, inner, behind + close);
}

proof fn lemma_fields_read_back(
    fields: Seq<(Seq<char>, JsonModel)>,
    k: int,
    inner: Seq<char>,
    pad: Seq<char>,
    rest: Seq<char>,
)
    requires
        0 <= k < fields.len(),
        blank_pad(inner),
        blank_pad(pad),
    ensures
        read_fields(field_text(fields, k, inner, closing(pad, '}', rest))) == Some((fields.skip(k), rest)),
    decreases fields, fields.len() - k,
{
    let close = closing(pad, '}', rest);
    let (key, v) = fields[k];
    let behind = behind_field(fields, k, inner);
    if k + 1 < fields.len() {
        let body = field_text(fields, k + 1, inner, close);
        let (key2, v2) = fields[k + 1];
        let x = quoted(key2) + (": "@ + (rendered(v2, inner) + behind_field(fields, k + 1, inner)));
        lemma_next_line(inner, x, close);
        law_printed_reads_back(v, inner, behind + close);
        lemma_line_gap(inner);
        assert(body[0] == quoted(key2)[0]);
        lemma_fields_read_back(fields, k + 1, inner, pad, rest);
        lemma_field_and_more(key, v, inner, behind, close, seq!['\n'] + inner, body);
        assert(seq![(key, v)] + fields.skip(k + 1) =~= fields.skip(k));
    } else {
        lemma_last_line(close);
        law_printed_reads_back(v, inner, behind + close);
        lemma_closing(pad, '}', rest);
        lemma_field_and_end(key, v, inner, behind, close, rest);
        assert(seq![(key, v)] =~= fields.skip(k));
    }
}

} // verus!
