//! How printed JSON is laid out: nesting only puts more white space behind line
//! breaks.
use vstd::prelude::*;

use crate::json::{
    comma, escape_char, escaped, field_lines, hex_digit, item_lines, quoted, rendered, JsonModel,
};
use crate::reading::lemma_literals;
use crate::text::{decimal, digit};

verus! {

/// `t` with `pad` put behind every line break.
pub open spec fn indented(t: Seq<char>, pad: Seq<char>) -> Seq<char>
    decreases t.len(),
{
    if t.len() == 0 {
        seq![]
    } else if t.last() == '\n' {
        indented(t.drop_last(), pad).push('\n') + pad
    } else {
        indented(t.drop_last(), pad).push(t.last())
    }
}

/// Whether a text has no line break.
pub open spec fn one_line(t: Seq<char>) -> bool {
    forall|i: int| 0 <= i < t.len() ==> #[trigger] t[i] != '\n'
}

/// A text without a line break stays as it is.
proof fn lemma_one_line(t: Seq<char>, pad: Seq<char>)
    requires
        one_line(t),
    ensures
        indented(t, pad) == t,
    decreases t.len(),
{
    if t.len() > 0 {
        let f = t.drop_last();
        assert forall|i: int| 0 <= i < f.len() implies #[trigger] f[i] != '\n' by {
            assert(f[i] == t[i]);
        }
        lemma_one_line(f, pad);
        assert(t[t.len() - 1] != '\n');
        assert(f.push(t.last()) =~= t);
    } else {
        assert(t =~= seq![]);
    }
}

/// Indenting goes part by part.
proof fn lemma_indented_add(a: Seq<char>, b: Seq<char>, pad: Seq<char>)
    ensures
        indented(a + b, pad) == indented(a, pad) + indented(b, pad),
    decreases b.len(),
{
    let t = a + b;
    if b.len() == 0 {
        assert(t =~= a);
        assert(indented(a, pad) + indented(b, pad) =~= indented(a, pad));
    } else {
        let f = b.drop_last();
        lemma_indented_add(a, f, pad);
        assert(t.drop_last() =~= a + f);
        let x = indented(a, pad);
        let y = indented(f, pad);
        if b.last() == '\n' {
            assert((x + y).push('\n') + pad =~= x + (y.push('\n') + pad));
        } else {
            assert((x + y).push(b.last()) =~= x + y.push(b.last()));
        }
    }
}

proof fn lemma_break(pad: Seq<char>)
    ensures
        indented(seq!['\n'], pad) == seq!['\n'] + pad,
{
    let t = seq!['\n'];
    let none = Seq::<char>::empty();
    assert(t.drop_last() =~= none);
    assert(indented(none, pad) == none);
    assert(none.push('\n') =~= t);
}

proof fn lemma_escape_one_line(c: char)
    ensures
        one_line(escape_char(c)),
{
    if (c as int) < 32 {
        assert(hex_digit(c as int / 16) != '\n');
        assert(hex_digit(c as int % 16) != '\n');
    }
}

proof fn lemma_escaped_one_line(s: Seq<char>)
    ensures
        one_line(escaped(s)),
    decreases s.len(),
{
    if s.len() > 0 {
        lemma_escaped_one_line(s.drop_last());
        let a = escaped(s.drop_last());
        let b = escape_char(s.last());
        lemma_escape_one_line(s.last());
        assert forall|i: int| 0 <= i < (a + b).len() implies #[trigger] (a + b)[i] != '\n' by {
            if i < a.len() {
                assert(a[i] != '\n');
            } else {
                assert(b[i - a.len()] != '\n');
            }
        }
    }
}

proof fn lemma_quoted_one_line(s: Seq<char>)
    ensures
        one_line(quoted(s)),
        quoted(s).last() == '"',
{
    lemma_escaped_one_line(s);
    let e = escaped(s);
    let q = quoted(s);
    assert forall|i: int| 0 <= i < q.len() implies #[trigger] q[i] != '\n' by {
        if 1 <= i < q.len() - 1 {
            assert(q[i] == e[i - 1]);
        }
    }
}

proof fn lemma_decimal_one_line(n: nat)
    ensures
        one_line(decimal(n)),
        decimal(n).len() > 0,
        decimal(n).last() != '\n',
        decimal(n)[0] != ' ',
    decreases n,
{
    if n >= 10 {
        lemma_decimal_one_line(n / 10);
        let f = decimal(n / 10);
        let d = decimal(n);
        assert(digit(n % 10) != '\n');
        assert forall|i: int| 0 <= i < d.len() implies #[trigger] d[i] != '\n' by {
            if i < f.len() {
                assert(d[i] == f[i]);
            }
        }
    } else {
        assert(digit(n) != '\n');
        assert(digit(n) != ' ');
    }
}

proof fn lemma_comma_one_line(i: int, n: nat)
    ensures
        one_line(comma(i, n)),
{
}

/// Whether a value is printed on one line: it has no items or fields.
pub open spec fn is_flat(v: JsonModel) -> bool {
    match v {
        JsonModel::Arr(items) => items.len() == 0,
        JsonModel::Obj(fields) => fields.len() == 0,
        _ => true,
    }
}

proof fn lemma_flat(v: JsonModel, pad: Seq<char>)
    requires
        is_flat(v),
    ensures
        one_line(rendered(v, pad)),
        rendered(v, pad) == rendered(v, seq![]),
{
    lemma_literals();
    match v {
        JsonModel::Str(s) => {
            lemma_quoted_one_line(s);
        },
        JsonModel::Num(n) => {
            lemma_decimal_one_line(n as nat);
        },
        _ => {},
    }
}

/// One more line behind indented lines.
proof fn lemma_line_indents(x: Seq<char>, q: Seq<char>, r: Seq<char>, c: Seq<char>, pad: Seq<char>)
    requires
        one_line(q),
        one_line(c),
    ensures
        indented(x + q + r + c + seq!['\n'], pad) == indented(x, pad) + q + indented(r, pad) + c + seq!['\n'] + pad,
{
    lemma_indented_add(x + q + r + c, seq!['\n'], pad);
    lemma_indented_add(x + q + r, c, pad);
    lemma_indented_add(x + q, r, pad);
    lemma_indented_add(x, q, pad);
    lemma_one_line(q, pad);
    lemma_one_line(c, pad);
    lemma_break(pad);
    assert(indented(x, pad) + q + indented(r, pad) + c + (seq!['\n'] + pad) =~= indented(x, pad) + q + indented(r, pad)
        + c + seq!['\n'] + pad);
}

/// The lines between brackets, and the brackets around them.
proof fn lemma_block_indents(
    open: Seq<char>,
    lines: Seq<char>,
    deeper: Seq<char>,
    q: Seq<char>,
    close: char,
    pad: Seq<char>,
)
    requires
        open.len() == 2,
        open[0] != '\n',
        open[1] == '\n',
        close != '\n',
        one_line(q),
        indented(seq!['\n'] + lines, pad) == seq!['\n'] + deeper + pad,
    ensures
        indented(open + lines + q + seq![close], pad) == open + deeper + (pad + q) + seq![close],
{
    let first = seq![open[0]];
    let last = seq![close];
    assert(open + lines + q + last =~= first + (seq!['\n'] + lines) + q + last);
    lemma_indented_add(first + (seq!['\n'] + lines) + q, last, pad);
    lemma_indented_add(first + (seq!['\n'] + lines), q, pad);
    lemma_indented_add(first, seq!['\n'] + lines, pad);
    lemma_one_line(first, pad);
    lemma_one_line(last, pad);
    lemma_one_line(q, pad);
    assert(first + (seq!['\n'] + deeper + pad) + q + last =~= open + deeper + (pad + q) + last);
}

proof fn lemma_deeper(pad: Seq<char>, q: Seq<char>)
    requires
        one_line(q),
    ensures
        one_line(q + "  "@),
        (pad + q) + "  "@ == pad + (q + "  "@),
{
    lemma_literals();
    let t = q + "  "@;
    assert forall|i: int| 0 <= i < t.len() implies #[trigger] t[i] != '\n' by {
        if i < q.len() {
            assert(t[i] == q[i]);
        }
    }
    assert((pad + q) + "  "@ =~= pad + (q + "  "@));
}

/// Printing deeper inside lines that start with `q` puts `pad` behind every line
/// break.
proof fn lemma_indents(v: JsonModel, pad: Seq<char>, q: Seq<char>)
    requires
        one_line(q),
    ensures
        rendered(v, pad + q) == indented(rendered(v, q), pad),
    decreases v, 0int,
{
    if is_flat(v) {
        lemma_flat(v, pad + q);
        lemma_flat(v, q);
        lemma_one_line(rendered(v, q), pad);
    } else {
        lemma_literals();
        lemma_deeper(pad, q);
        let inner = q + "  "@;
        match v {
            JsonModel::Arr(items) => {
                let n = items.len() as int;
                lemma_items_indent(items, n, pad, inner);
                lemma_block_indents(
                    "[\n"@,
                    item_lines(items, n, inner),
                    item_lines(items, n, pad + inner),
                    q,
                    ']',
                    pad,
                );
            },
            JsonModel::Obj(fields) => {
                let n = fields.len() as int;
                lemma_fields_indent(fields, n, pad, inner);
                lemma_block_indents(
                    "{\n"@,
                    field_lines(fields, n, inner),
                    field_lines(fields, n, pad + inner),
                    q,
                    '}',
                    pad,
                );
            },
            _ => {},
        }
    }
}

proof fn lemma_items_indent(items: Seq<JsonModel>, n: int, pad: Seq<char>, q: Seq<char>)
    requires
        0 <= n <= items.len(),
        one_line(q),
    ensures
        indented(seq!['\n'] + item_lines(items, n, q), pad) == seq!['\n'] + item_lines(items, n, pad + q) + pad,
    decreases items, n,
{
    let nl = seq!['\n'];
    if n == 0 {
        lemma_break(pad);
        assert(nl + item_lines(items, 0, q) =~= nl);
        assert(nl + item_lines(items, 0, pad + q) + pad =~= nl + pad);
    } else {
        let v = items[n - 1];
        let c = comma(n - 1, items.len());
        let x = nl + item_lines(items, n - 1, q);
        let y = item_lines(items, n - 1, pad + q);
        lemma_items_indent(items, n - 1, pad, q);
        lemma_indents(v, pad, q);
        lemma_comma_one_line(n - 1, items.len());
        let r = rendered(v, q);
        let d = rendered(v, pad + q);
        lemma_line_indents(x, q, r, c, pad);
        assert(nl + item_lines(items, n, q) =~= x + q + r + c + nl);
        assert((nl + y + pad) + q + d + c + nl + pad =~= nl + (y + (pad + q) + d + c + nl) + pad);
    }
}

proof fn lemma_fields_indent(fields: Seq<(Seq<char>, JsonModel)>, n: int, pad: Seq<char>, q: Seq<char>)
    requires
        0 <= n <= fields.len(),
        one_line(q),
    ensures
        indented(seq!['\n'] + field_lines(fields, n, q), pad) == seq!['\n'] + field_lines(fields, n, pad + q) + pad,
    decreases fields, n,
{
    let nl = seq!['\n'];
    if n == 0 {
        lemma_break(pad);
        assert(nl + field_lines(fields, 0, q) =~= nl);
        assert(nl + field_lines(fields, 0, pad + q) + pad =~= nl + pad);
    } else {
        let (key, v) = fields[n - 1];
        let c = comma(n - 1, fields.len());
        let k = quoted(key);
        let s = ": "@;
        let x = nl + field_lines(fields, n - 1, q);
        let y = field_lines(fields, n - 1, pad + q);
        lemma_fields_indent(fields, n - 1, pad, q);
        lemma_indents(v, pad, q);
        lemma_comma_one_line(n - 1, fields.len());
        lemma_quoted_one_line(key);
        lemma_literals();
        let head = q + k + s;
        assert(one_line(head)) by {
            assert forall|i: int| 0 <= i < head.len() implies #[trigger] head[i] != '\n' by {
                if i < q.len() {
                    assert(head[i] == q[i]);
                } else if i < q.len() + k.len() {
                    assert(head[i] == k[i - q.len()]);
                } else {
                    assert(head[i] == s[i - q.len() - k.len()]);
                }
            }
        }
        let r = rendered(v, q);
        let d = rendered(v, pad + q);
        lemma_line_indents(x, head, r, c, pad);
        lemma_field_line(nl, field_lines(fields, n - 1, q), q, k, s, r, c);
        lemma_deep_field_line(nl, y, pad, q, k, s, d, c);
    }
}

proof fn lemma_field_line(
    nl: Seq<char>,
    x: Seq<char>,
    q: Seq<char>,
    k: Seq<char>,
    s: Seq<char>,
    r: Seq<char>,
    c: Seq<char>,
)
    ensures
        nl + (x + q + k + s + r + c + nl) == (nl + x) + (q + k + s) + r + c + nl,
{
    assert(nl + (x + q + k + s + r + c + nl) =~= (nl + x) + (q + k + s) + r + c + nl);
}

proof fn lemma_deep_field_line(
    nl: Seq<char>,
    y: Seq<char>,
    pad: Seq<char>,
    q: Seq<char>,
    k: Seq<char>,
    s: Seq<char>,
    d: Seq<char>,
    c: Seq<char>,
)
    ensures
        (nl + y + pad) + (q + k + s) + d + c + nl + pad == nl + (y + (pad + q) + k + s + d + c + nl) + pad,
{
    assert((nl + y + pad) + (q + k + s) + d + c + nl + pad =~= nl + (y + (pad + q) + k + s + d + c + nl) + pad);
}

/// A value is printed the same at every depth, but for the indentation behind its
/// line breaks: the text starts with no indentation and ends with no line break, and
/// a value without items or fields is the same text everywhere.
pub proof fn law_depth_only_indents(v: JsonModel, pad: Seq<char>)
    ensures
        rendered(v, pad) == indented(rendered(v, seq![]), pad),
        is_flat(v) ==> rendered(v, pad) == rendered(v, seq![]),
        rendered(v, pad).len() > 0,
        rendered(v, pad)[0] != ' ',
        rendered(v, pad).last() != '\n',
{
    let none = Seq::<char>::empty();
    lemma_indents(v, pad, none);
    assert(pad + none =~= pad);
    lemma_literals();
    match v {
        JsonModel::Str(s) => {
            lemma_quoted_one_line(s);
        },
        JsonModel::Num(n) => {
            lemma_decimal_one_line(n as nat);
        },
        _ => {},
    }
}

} // verus!
