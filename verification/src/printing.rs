//! How printed JSON grows: one line per item and per field, and plain characters as
//! they are.
use vstd::prelude::*;

use crate::json::{
    comma, escape_char, escaped, field_lines, item_lines, quoted, rendered, JsonModel,
};
use crate::reading::lemma_literals;
use crate::text::decimal;

verus! {

/// How single values are printed.
pub proof fn law_plain_values(n: u128, s: Seq<char>, pad: Seq<char>)
    ensures
        rendered(JsonModel::Null, pad) == seq!['n', 'u', 'l', 'l'],
        rendered(JsonModel::Bool(true), pad) == seq!['t', 'r', 'u', 'e'],
        rendered(JsonModel::Bool(false), pad) == seq!['f', 'a', 'l', 's', 'e'],
        rendered(JsonModel::Num(n), pad) == decimal(n as nat),
        rendered(JsonModel::Str(s), pad) == seq!['"'] + escaped(s) + seq!['"'],
        rendered(JsonModel::Arr(seq![]), pad) == seq!['[', ']'],
        rendered(JsonModel::Obj(seq![]), pad) == seq!['{', '}'],
{
    lemma_literals();
}

/// Text is escaped piece by piece. Only quotes, backslashes and control characters are
/// changed: the first two get a backslash, line breaks, carriage returns and tabs have
/// a letter of their own, and every other control character has its number in four
/// hexadecimal digits.
pub proof fn law_escapes_are_minimal(a: Seq<char>, b: Seq<char>, c: char)
    ensures
        escaped(a + b) == escaped(a) + escaped(b),
        c != '"' && c != '\\' && c as int >= 32 ==> escaped(seq![c]) == seq![c],
        c == '"' || c == '\\' ==> escaped(seq![c]) == seq!['\\', c],
        escaped(seq!['\n']) == seq!['\\', 'n'],
        escaped(seq!['\r']) == seq!['\\', 'r'],
        escaped(seq!['\t']) == seq!['\\', 't'],
        (c as int) < 32 && c != '\n' && c != '\r' && c != '\t' ==> escaped(seq![c]).len() == 6 && escaped(seq![c]).take(4)
            == seq!['\\', 'u', '0', '0'],
        (c as int) < 10 && c != '\t' ==> escaped(seq![c])[4] == '0' && escaped(seq![c])[5] as int == 48 + c as int,
        c as int >= 16 && (c as int) < 26 ==> escaped(seq![c])[4] == '1' && escaped(seq![c])[5] as int == 32 + c as int,
        c as int == 11 || c as int == 12 || c as int >= 14 && (c as int) < 16 ==> escaped(seq![c])[4] == '0' && escaped(
            seq![c],
        )[5] as int == 87 + c as int,
        c as int >= 26 && (c as int) < 32 ==> escaped(seq![c])[4] == '1' && escaped(seq![c])[5] as int == 71 + c as int,
    decreases b.len(),
{
    if b.len() > 0 {
        law_escapes_are_minimal(a, b.drop_last(), c);
        assert((a + b).drop_last() =~= a + b.drop_last());
        assert((a + b).last() == b.last());
        assert(escaped(a + b) =~= escaped(a) + escaped(b));
    } else {
        assert(a + b =~= a);
        assert(escaped(a + b) =~= escaped(a) + escaped(b));
    }
    lemma_escaped_one(c);
    lemma_escaped_one('\n');
    lemma_escaped_one('\r');
    lemma_escaped_one('\t');
    if (c as int) < 32 && c != '\n' && c != '\r' && c != '\t' {
        assert(escape_char(c).take(4) =~= seq!['\\', 'u', '0', '0']);
    }
}

proof fn lemma_escaped_one(c: char)
    ensures
        escaped(seq![c]) == escape_char(c),
{
    let s = seq![c];
    assert(s.drop_last() =~= Seq::<char>::empty());
    assert(s.last() == c);
    reveal_with_fuel(escaped, 2);
    assert(escaped(s) == escaped(s.drop_last()) + escape_char(s.last()));
    assert(Seq::<char>::empty() + escape_char(c) =~= escape_char(c));
}

proof fn lemma_items_kept(items: Seq<JsonModel>, v: JsonModel, n: int, pad: Seq<char>)
    requires
        0 <= n < items.len(),
    ensures
        item_lines(items.push(v), n, pad) == item_lines(items, n, pad),
    decreases n,
{
    if n > 0 {
        lemma_items_kept(items, v, n - 1, pad);
        assert(items.push(v)[n - 1] == items[n - 1]);
    }
}

proof fn lemma_fields_kept(fields: Seq<(Seq<char>, JsonModel)>, f: (Seq<char>, JsonModel), n: int, pad: Seq<char>)
    requires
        0 <= n < fields.len(),
    ensures
        field_lines(fields.push(f), n, pad) == field_lines(fields, n, pad),
    decreases n,
{
    if n > 0 {
        lemma_fields_kept(fields, f, n - 1, pad);
        assert(fields.push(f)[n - 1] == fields[n - 1]);
    }
}

/// An array of one item has the item on a line of its own, two spaces further in.
/// Another item adds a comma and another line.
pub proof fn law_items_have_lines(items: Seq<JsonModel>, v: JsonModel, pad: Seq<char>, body: Seq<char>)
    ensures
        rendered(JsonModel::Arr(seq![v]), pad) == seq!['[', '\n'] + pad + seq![' ', ' '] + rendered(
            v,
            pad + seq![' ', ' '],
        ) + seq!['\n'] + pad + seq![']'],
        items.len() > 0 && rendered(JsonModel::Arr(items), pad) == body + seq!['\n'] + pad + seq![']'] ==> rendered(
            JsonModel::Arr(items.push(v)),
            pad,
        ) == body + seq![',', '\n'] + pad + seq![' ', ' '] + rendered(v, pad + seq![' ', ' ']) + seq!['\n'] + pad
            + seq![']'],
{
    lemma_literals();
    let inner = pad + "  "@;
    assert(inner =~= pad + seq![' ', ' ']);
    let one = seq![v];
    let text = rendered(v, inner);
    let none = Seq::<char>::empty();
    assert(item_lines(one, 0, inner) =~= none);
    assert(item_lines(one, 1, inner) == none + inner + text + none + seq!['\n']);
    assert(rendered(JsonModel::Arr(one), pad) == "[\n"@ + item_lines(one, 1, inner) + pad + seq![']']);
    assert(seq!['[', '\n'] + (none + inner + text + none + seq!['\n']) + pad + seq![']'] =~= seq!['[', '\n'] + pad + seq![
        ' ',
        ' ',
    ] + text + seq!['\n'] + pad + seq![']']);
    if items.len() > 0 && rendered(JsonModel::Arr(items), pad) == body + seq!['\n'] + pad + seq![']'] {
        let n = items.len() as int;
        let all = items.push(v);
        lemma_items_kept(items, v, n - 1, inner);
        let front = item_lines(items, n - 1, inner);
        let last = rendered(items[n - 1], inner);
        assert(all[n - 1] == items[n - 1]);
        assert(all[n] == v);
        assert(item_lines(items, n, inner) == front + inner + last + none + seq!['\n']);
        assert(item_lines(all, n, inner) == front + inner + last + seq![','] + seq!['\n']);
        assert(item_lines(all, n + 1, inner) == item_lines(all, n, inner) + inner + text + none + seq!['\n']);
        lemma_grown(seq!['[', '\n'], front + inner + last, body, inner + text, pad, seq![']']);
        assert(body + seq![',', '\n'] + (inner + text) + seq!['\n'] + pad + seq![']'] =~= body + seq![',', '\n'] + pad
            + seq![' ', ' '] + text + seq!['\n'] + pad + seq![']']);
        assert("[\n"@ + (front + inner + last + seq![','] + seq!['\n'] + inner + text + none + seq!['\n']) + pad + seq![
            ']',
        ] =~= seq!['[', '\n'] + (front + inner + last + seq![','] + seq!['\n'] + (inner + text) + seq!['\n']) + pad
            + seq![']']);
        assert("[\n"@ + (front + inner + last + none + seq!['\n']) + pad + seq![']'] =~= seq!['[', '\n'] + (front + inner
            + last + seq!['\n']) + pad + seq![']']);
    }
}

/// Where a text ends in the same way, so does what stands before that end; and another
/// line goes in between.
proof fn lemma_grown(
    open: Seq<char>,
    lines: Seq<char>,
    body: Seq<char>,
    line: Seq<char>,
    pad: Seq<char>,
    close: Seq<char>,
)
    ensures
        open + (lines + seq!['\n']) + pad + close == body + seq!['\n'] + pad + close ==> open + (lines + seq![','] + seq![
            '\n',
        ] + line + seq!['\n']) + pad + close == body + seq![',', '\n'] + line + seq!['\n'] + pad + close,
{
    let a = open + (lines + seq!['\n']) + pad + close;
    let b = body + seq!['\n'] + pad + close;
    if a == b {
        let k = (open + lines).len() as int;
        assert(a.len() == k + 1 + pad.len() + close.len());
        assert(b.len() == body.len() + 1 + pad.len() + close.len());
        assert(a.take(k) =~= open + lines);
        assert(b.take(k) =~= body);
        assert(open + lines =~= body);
        assert(open + (lines + seq![','] + seq!['\n'] + line + seq!['\n']) + pad + close =~= (open + lines) + seq![
            ',',
            '\n',
        ] + line + seq!['\n'] + pad + close);
    }
}

/// An object of one field has the field on a line of its own, two spaces further in: its
/// name as a string, a colon, a space and its value. Another field adds a comma and
/// another line.
pub proof fn law_fields_have_lines(
    fields: Seq<(Seq<char>, JsonModel)>,
    f: (Seq<char>, JsonModel),
    pad: Seq<char>,
    body: Seq<char>,
)
    ensures
        ({
            let line = pad + seq![' ', ' ', '"'] + escaped(f.0) + seq!['"', ':', ' '] + rendered(
                f.1,
                pad + seq![' ', ' '],
            ) + seq!['\n'];
            &&& rendered(JsonModel::Obj(seq![f]), pad) == seq!['{', '\n'] + line + pad + seq!['}']
            &&& fields.len() > 0 && rendered(JsonModel::Obj(fields), pad) == body + seq!['\n'] + pad + seq!['}']
                ==> rendered(JsonModel::Obj(fields.push(f)), pad) == body + seq![',', '\n'] + line + pad + seq!['}']
        }),
{
    lemma_literals();
    let inner = pad + "  "@;
    assert(inner =~= pad + seq![' ', ' ']);
    let one = seq![f];
    let none = Seq::<char>::empty();
    let text = inner + quoted(f.0) + ": "@ + rendered(f.1, inner);
    let line = pad + seq![' ', ' ', '"'] + escaped(f.0) + seq!['"', ':', ' '] + rendered(f.1, inner) + seq!['\n'];
    assert(text + seq!['\n'] =~= line);
    assert(field_lines(one, 0, inner) =~= none);
    assert(field_lines(one, 1, inner) == none + inner + quoted(f.0) + ": "@ + rendered(f.1, inner) + none + seq!['\n']);
    assert(none + inner + quoted(f.0) + ": "@ + rendered(f.1, inner) + none + seq!['\n'] =~= text + seq!['\n']);
    assert("{\n"@ =~= seq!['{', '\n']);
    if fields.len() > 0 && rendered(JsonModel::Obj(fields), pad) == body + seq!['\n'] + pad + seq!['}'] {
        let n = fields.len() as int;
        let all = fields.push(f);
        lemma_fields_kept(fields, f, n - 1, inner);
        let g = fields[n - 1];
        let head = field_lines(fields, n - 1, inner) + inner + quoted(g.0) + ": "@ + rendered(g.1, inner);
        assert(all[n - 1] == g);
        assert(all[n] == f);
        assert(field_lines(fields, n, inner) == head + none + seq!['\n']);
        assert(head + none + seq!['\n'] =~= head + seq!['\n']);
        assert(field_lines(all, n, inner) == head + seq![','] + seq!['\n']);
        let upto = field_lines(all, n, inner);
        assert(field_lines(all, n + 1, inner) == upto + inner + quoted(f.0) + ": "@ + rendered(f.1, inner) + none + seq![
            '\n',
        ]);
        lemma_field_text(upto, inner, quoted(f.0), ": "@, rendered(f.1, inner), none);
        lemma_grown(seq!['{', '\n'], head, body, text, pad, seq!['}']);
        assert(body + seq![',', '\n'] + text + seq!['\n'] + pad + seq!['}'] =~= body + seq![',', '\n'] + (text + seq![
            '\n',
        ]) + pad + seq!['}']);
    }
}

proof fn lemma_field_text(u: Seq<char>, a: Seq<char>, b: Seq<char>, c: Seq<char>, d: Seq<char>, none: Seq<char>)
    requires
        none.len() == 0,
    ensures
        u + a + b + c + d + none + seq!['\n'] == u + (a + b + c + d) + seq!['\n'],
{
    assert(u + a + b + c + d + none + seq!['\n'] =~= u + (a + b + c + d) + seq!['\n']);
}

} // verus!
