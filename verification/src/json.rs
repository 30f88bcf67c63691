//! A small JSON value and its pretty printer.
//!
//! Strings are escaped as RFC 8259 asks, and nesting is shown by two spaces.
use vstd::prelude::*;
use vstd::string::StringExecFns;

use crate::layout::{indented, is_flat, law_depth_only_indents};
use crate::reading::{law_printed_reads_back, read_value};
use crate::text::{chars_of, decimal, push_decimal};

verus! {

/// A JSON value.
#[derive(Debug)]
pub enum Json {
    Null,
    Bool(bool),
    Num(u128),
    Str(String),
    Arr(Vec<Json>),
    Obj(Vec<(String, Json)>),
}

/// The view of a [`Json`].
#[verifier::ext_equal]
pub enum JsonModel {
    Null,
    Bool(bool),
    Num(u128),
    Str(Seq<char>),
    Arr(Seq<JsonModel>),
    Obj(Seq<(Seq<char>, JsonModel)>),
}

/// The view of a value.
pub open spec fn json_model(v: Json) -> JsonModel
    decreases v,
{
    match v {
        Json::Null => JsonModel::Null,
        Json::Bool(b) => JsonModel::Bool(b),
        Json::Num(n) => JsonModel::Num(n),
        Json::Str(s) => JsonModel::Str(s@),
        Json::Arr(items) => JsonModel::Arr(
            Seq::new(
                items@.len(),
                |i: int|
                    if 0 <= i < items@.len() {
                        json_model(items@[i])
                    } else {
                        JsonModel::Null
                    },
            ),
        ),
        Json::Obj(fields) => JsonModel::Obj(
            Seq::new(
                fields@.len(),
                |i: int|
                    if 0 <= i < fields@.len() {
                        (fields@[i].0@, json_model(fields@[i].1))
                    } else {
                        (seq![], JsonModel::Null)
                    },
            ),
        ),
    }
}

impl View for Json {
    type V = JsonModel;

    open spec fn view(&self) -> JsonModel {
        json_model(*self)
    }
}

/// The character of a hexadecimal digit.
pub open spec fn hex_digit(d: int) -> char {
    if d < 10 {
        (48 + d) as char
    } else {
        (87 + d) as char
    }
}

/// A character as it stands inside a JSON string.
pub open spec fn escape_char(c: char) -> Seq<char> {
    if c == '"' {
        seq!['\\', '"']
    } else if c == '\\' {
        seq!['\\', '\\']
    } else if c == '\n' {
        seq!['\\', 'n']
    } else if c == '\r' {
        seq!['\\', 'r']
    } else if c == '\t' {
        seq!['\\', 't']
    } else if (c as int) < 32 {
        seq!['\\', 'u', '0', '0', hex_digit(c as int / 16), hex_digit(c as int % 16)]
    } else {
        seq![c]
    }
}

/// A text as it stands inside a JSON string.
pub open spec fn escaped(s: Seq<char>) -> Seq<char>
    decreases s.len(),
{
    if s.len() == 0 {
        seq![]
    } else {
        escaped(s.drop_last()) + escape_char(s.last())
    }
}

/// A JSON string.
pub open spec fn quoted(s: Seq<char>) -> Seq<char> {
    seq!['"'] + escaped(s) + seq!['"']
}

/// What a comma behind item `i` of `n` looks like: the last one has none.
pub open spec fn comma(i: int, n: nat) -> Seq<char> {
    if i + 1 < n {
        seq![',']
    } else {
        seq![]
    }
}

/// The lines of the first `n` items of an array.
pub open spec fn item_lines(items: Seq<JsonModel>, n: int, pad: Seq<char>) -> Seq<char>
    decreases items, n,
{
    if n <= 0 || n > items.len() {
        seq![]
    } else {
        item_lines(items, n - 1, pad) + pad + rendered(items[n - 1], pad) + comma(n - 1, items.len()) + seq!['\n']
    }
}

/// The lines of the first `n` fields of an object.
pub open spec fn field_lines(fields: Seq<(Seq<char>, JsonModel)>, n: int, pad: Seq<char>) -> Seq<char>
    decreases fields, n,
{
    if n <= 0 || n > fields.len() {
        seq![]
    } else {
        field_lines(fields, n - 1, pad) + pad + quoted(fields[n - 1].0) + ": "@ + rendered(fields[n - 1].1, pad) + comma(
            n - 1,
            fields.len(),
        ) + seq!['\n']
    }
}

/// A value as JSON text, inside lines that start with `pad`.
pub open spec fn rendered(v: JsonModel, pad: Seq<char>) -> Seq<char>
    decreases v, 0int,
{
    match v {
        JsonModel::Null => "null"@,
        JsonModel::Bool(b) => if b {
            "true"@
        } else {
            "false"@
        },
        JsonModel::Num(n) => decimal(n as nat),
        JsonModel::Str(s) => quoted(s),
        JsonModel::Arr(items) => if items.len() == 0 {
            "[]"@
        } else {
            "[\n"@ + item_lines(items, items.len() as int, pad + "  "@) + pad + seq![']']
        },
        JsonModel::Obj(fields) => if fields.len() == 0 {
            "{}"@
        } else {
            "{\n"@ + field_lines(fields, fields.len() as int, pad + "  "@) + pad + seq!['}']
        },
    }
}

fn push_escaped(out: &mut String, c: char)
    ensures
        final(out)@ == old(out)@ + escape_char(c),
{
    let ghost before = out@;
    if c == '"' {
        out.push('\\');
        out.push('"');
    } else if c == '\\' {
        out.push('\\');
        out.push('\\');
    } else if c == '\n' {
        out.push('\\');
        out.push('n');
    } else if c == '\r' {
        out.push('\\');
        out.push('r');
    } else if c == '\t' {
        out.push('\\');
        out.push('t');
    } else if (c as u32) < 32 {
        let code: u32 = c as u32;
        let low: u8 = (code % 16) as u8;
        out.push('\\');
        out.push('u');
        out.push('0');
        out.push('0');
        out.push((48u8 + (code / 16) as u8) as char);
        out.push(
            if low < 10 {
                (48u8 + low) as char
            } else {
                (87u8 + low) as char
            },
        );
    } else {
        out.push(c);
    }
    assert(out@ =~= before + escape_char(c));
}

/// Appends `s` as a JSON string.
pub fn write_str(out: &mut String, s: &str)
    ensures
        final(out)@ == old(out)@ + quoted(s@),
{
    let ghost before = out@;
    let cs = chars_of(s);
    out.push('"');
    for i in 0..cs.len()
        invariant
            cs@ == s@,
            out@ == before + seq!['"'] + escaped(s@.take(i as int)),
    {
        push_escaped(out, cs[i]);
        proof {
            let t = s@.take(i + 1);
            assert(t.drop_last() =~= s@.take(i as int));
            assert(out@ =~= before + seq!['"'] + escaped(t));
        }
    }
    out.push('"');
    proof {
        assert(s@.take(cs@.len() as int) =~= s@);
        assert(out@ =~= before + quoted(s@));
    }
}

/// So many spaces.
pub open spec fn spaces(n: nat) -> Seq<char> {
    Seq::new(n, |i: int| ' ')
}

/// Appends two spaces per level.
pub fn pad(out: &mut String, indent: usize)
    ensures
        final(out)@ == old(out)@ + spaces(2 * indent as nat),
{
    let ghost before = out@;
    assert(out@ =~= before + spaces(0));
    for i in 0..indent
        invariant
            out@ == before + spaces(2 * i as nat),
    {
        out.append("  ");
        proof {
            reveal_strlit("  ");
            assert(out@ =~= before + spaces(2 * (i + 1) as nat));
        }
    }
}

/// A copy of a value.
fn copy_of(v: &Json) -> (r: Json)
    ensures
        r@ == v@,
    decreases v,
{
    match v {
        Json::Null => Json::Null,
        Json::Bool(b) => Json::Bool(*b),
        Json::Num(n) => Json::Num(*n),
        Json::Str(s) => Json::Str(s.clone()),
        Json::Arr(items) => {
            let mut copies: Vec<Json> = Vec::new();
            for i in 0..items.len()
                invariant
                    *v == Json::Arr(*items),
                    copies@.len() == i,
                    forall|k: int| 0 <= k < i ==> (#[trigger] copies@[k])@ == items@[k]@,
            {
                assert(v@->Arr_0[i as int] == items@[i as int]@);
                copies.push(copy_of(&items[i]));
            }
            let r = Json::Arr(copies);
            assert(r@->Arr_0 =~= v@->Arr_0);
            r
        },
        Json::Obj(fields) => {
            let mut copies: Vec<(String, Json)> = Vec::new();
            for i in 0..fields.len()
                invariant
                    *v == Json::Obj(*fields),
                    copies@.len() == i,
                    forall|k: int|
                        0 <= k < i ==> (#[trigger] copies@[k]).0@ == fields@[k].0@ && copies@[k].1@ == fields@[k].1@,
            {
                assert(v@->Obj_0[i as int].1 == fields@[i as int].1@);
                copies.push((fields[i].0.clone(), copy_of(&fields[i].1)));
            }
            let r = Json::Obj(copies);
            assert(r@->Obj_0 =~= v@->Obj_0);
            r
        },
    }
}

impl Clone for Json {
    fn clone(&self) -> (r: Json)
        ensures
            r@ == self@,
    {
        copy_of(self)
    }
}

impl Json {
    /// A string value.
    pub fn s(v: &str) -> (r: Json)
        ensures
            r@ == JsonModel::Str(v@),
    {
        Json::Str(v.to_owned())
    }

    /// The value with two spaces per level, and a line break at the end. Reading it
    /// gives the value back.
    pub fn to_pretty(&self) -> (r: String)
        ensures
            r@ == rendered(self@, seq![]) + seq!['\n'],
            read_value(r@) == Some((self@, seq!['\n'])),
    {
        let mut out = String::new();
        assert(out@ =~= seq![]);
        assert(spaces(0) =~= seq![]);
        self.write(&mut out, 0);
        out.push('\n');
        proof {
            law_printed_reads_back(self@, seq![], seq!['\n']);
            assert(out@ =~= rendered(self@, seq![]) + seq!['\n']);
        }
        out
    }

    /// Appends the value as it stands `indent` levels deep: its text, with two spaces
    /// per level behind every line break. The text starts with no indentation and
    /// ends with no line break, and a value without items or fields is the same text
    /// at every depth.
    pub fn write(&self, out: &mut String, indent: usize)
        ensures
            final(out)@ == old(out)@ + indented(rendered(self@, seq![]), spaces(2 * indent as nat)),
            final(out)@ == old(out)@ + rendered(self@, spaces(2 * indent as nat)),
            is_flat(self@) ==> final(out)@ == old(out)@ + rendered(self@, seq![]),
            final(out)@.len() > old(out)@.len(),
            final(out)@[old(out)@.len() as int] != ' ',
            final(out)@.last() != '\n',
    {
        let mut margin = String::new();
        pad(&mut margin, indent);
        proof {
            assert(margin@ =~= spaces(2 * indent as nat));
            law_depth_only_indents(self@, margin@);
        }
        self.write_padded(out, &margin);
    }

    /// Appends the value, with `pad` behind every line break.
    #[verifier::rlimit(60)]
    #[verifier::spinoff_prover]
    fn write_padded(&self, out: &mut String, pad: &String)
        ensures
            final(out)@ == old(out)@ + rendered(self@, pad@),
            final(out)@ == old(out)@ + indented(rendered(self@, seq![]), pad@),
        decreases self,
    {
        proof {
            law_depth_only_indents(self@, pad@);
        }
        let ghost before = out@;
        match self {
            Json::Null => out.append("null"),
            Json::Bool(b) => out.append(
                if *b {
                    "true"
                } else {
                    "false"
                },
            ),
            Json::Num(n) => push_decimal(out, *n),
            Json::Str(s) => write_str(out, s.as_str()),
            Json::Arr(items) => {
                if items.len() == 0 {
                    out.append("[]");
                    return;
                }
                let ghost m = self@->Arr_0;
                out.append("[\n");
                let mut inner = pad.clone();
                inner.append("  ");
                let ghost head = out@;
                assert(out@ =~= head + item_lines(m, 0, inner@));
                for i in 0..items.len()
                    invariant
                        *self == Json::Arr(*items),
                        m == self@->Arr_0,
                        m.len() == items@.len(),
                        out@ == head + item_lines(m, i as int, inner@),
                {
                    let ghost lines = item_lines(m, i as int, inner@);
                    let ghost v = items@[i as int]@;
                    assert(m[i as int] == v);
                    out.append(inner.as_str());
                    items[i].write_padded(out, &inner);
                    if i + 1 < items.len() {
                        out.push(',');
                    }
                    out.push('\n');
                    assert(out@ =~= head + (lines + inner@ + rendered(v, inner@) + comma(i as int, m.len()) + seq!['\n']));
                }
                out.append(pad.as_str());
                out.push(']');
                assert(out@ =~= before + rendered(self@, pad@));
            },
            Json::Obj(fields) => {
                if fields.len() == 0 {
                    out.append("{}");
                    return;
                }
                let ghost m = self@->Obj_0;
                out.append("{\n");
                let mut inner = pad.clone();
                inner.append("  ");
                let ghost head = out@;
                assert(out@ =~= head + field_lines(m, 0, inner@));
                for i in 0..fields.len()
                    invariant
                        *self == Json::Obj(*fields),
                        m == self@->Obj_0,
                        m.len() == fields@.len(),
                        out@ == head + field_lines(m, i as int, inner@),
                {
                    let ghost lines = field_lines(m, i as int, inner@);
                    let ghost k = fields@[i as int].0@;
                    let ghost v = fields@[i as int].1@;
                    assert(m[i as int] == (k, v));
                    out.append(inner.as_str());
                    write_str(out, fields[i].0.as_str());
                    out.append(": ");
                    fields[i].1.write_padded(out, &inner);
                    if i + 1 < fields.len() {
                        out.push(',');
                    }
                    out.push('\n');
                    assert(out@ =~= head + (lines + inner@ + quoted(k) + ": "@ + rendered(v, inner@) + comma(
                        i as int,
                        m.len(),
                    ) + seq!['\n']));
                }
                out.append(pad.as_str());
                out.push('}');
                assert(out@ =~= before + rendered(self@, pad@));
            },
        }
    }
}

/// The number that a hexadecimal digit stands for.
pub open spec fn hex_value(c: char) -> Option<int> {
    if '0' <= c <= '9' {
        Some(c as int - 48)
    } else if 'a' <= c <= 'f' {
        Some(c as int - 87)
    } else {
        None
    }
}

/// The character that an escape sequence stands for, and what follows it, where
/// `s` starts behind the backslash.
pub open spec fn read_escape(s: Seq<char>) -> Option<(char, Seq<char>)> {
    if s.len() == 0 {
        None
    } else if s[0] == '"' || s[0] == '\\' {
        Some((s[0], s.skip(1)))
    } else if s[0] == 'n' {
        Some(('\n', s.skip(1)))
    } else if s[0] == 'r' {
        Some(('\r', s.skip(1)))
    } else if s[0] == 't' {
        Some(('\t', s.skip(1)))
    } else if s[0] == 'u' && s.len() >= 5 && s[1] == '0' && s[2] == '0' {
        match (hex_value(s[3]), hex_value(s[4])) {
            (Some(a), Some(b)) => Some(((16 * a + b) as char, s.skip(5))),
            _ => None,
        }
    } else {
        None
    }
}

/// What a JSON string holds, and what follows its closing quote, where `s` starts
/// behind the opening quote. A control character may not stand in a JSON string.
pub open spec fn read_string(s: Seq<char>) -> Option<(Seq<char>, Seq<char>)>
    decreases s.len(),
{
    if s.len() == 0 || (s[0] as int) < 32 {
        None
    } else if s[0] == '"' {
        Some((seq![], s.skip(1)))
    } else if s[0] == '\\' {
        match read_escape(s.skip(1)) {
            Some((c, rest)) => if rest.len() < s.len() {
                match read_string(rest) {
                    Some((more, end)) => Some((seq![c] + more, end)),
                    None => None,
                }
            } else {
                None
            },
            None => None,
        }
    } else {
        match read_string(s.skip(1)) {
            Some((more, end)) => Some((seq![s[0]] + more, end)),
            None => None,
        }
    }
}

proof fn lemma_escaped_first(s: Seq<char>)
    requires
        s.len() > 0,
    ensures
        escaped(s) == escape_char(s[0]) + escaped(s.drop_first()),
    decreases s.len(),
{
    if s.len() == 1 {
        assert(s.drop_last() =~= Seq::<char>::empty());
        assert(s.drop_first() =~= Seq::<char>::empty());
        assert(escaped(s) =~= escape_char(s[0]) + escaped(s.drop_first()));
    } else {
        lemma_escaped_first(s.drop_last());
        assert(s.drop_last().drop_first() =~= s.drop_first().drop_last());
        assert(escaped(s) =~= escape_char(s[0]) + escaped(s.drop_first()));
    }
}

/// Reading a character behind its escape sequence goes on with what follows.
proof fn lemma_read_escaped_char(c: char, rest: Seq<char>)
    ensures
        read_string(escape_char(c) + rest) == match read_string(rest) {
            Some((more, end)) => Some((seq![c] + more, end)),
            None => None,
        },
{
    let s = escape_char(c) + rest;
    if c == '"' || c == '\\' || c == '\n' || c == '\r' || c == '\t' {
        assert(s.skip(1).skip(1) =~= rest);
    } else if (c as int) < 32 {
        let a = c as int / 16;
        let b = c as int % 16;
        assert(s.skip(1).skip(5) =~= rest);
        assert(hex_value(hex_digit(a)) == Some(a));
        assert(hex_value(hex_digit(b)) == Some(b));
        assert((16 * a + b) as char == c);
    } else {
        assert(s.skip(1) =~= rest);
    }
}

/// A JSON string is read back as the text it was made from, and ends where its
/// closing quote stands.
pub proof fn law_quoted_reads_back(s: Seq<char>, rest: Seq<char>)
    ensures
        (quoted(s) + rest)[0] == '"',
        read_string((quoted(s) + rest).skip(1)) == Some((s, rest)),
    decreases s.len(),
{
    let body = escaped(s) + seq!['"'] + rest;
    assert((quoted(s) + rest).skip(1) =~= body);
    if s.len() == 0 {
        assert(body.skip(1) =~= rest);
        assert(s =~= seq![]);
    } else {
        let t = s.drop_first();
        lemma_escaped_first(s);
        let after = escaped(t) + seq!['"'] + rest;
        assert(body =~= escape_char(s[0]) + after);
        law_quoted_reads_back(t, rest);
        assert((quoted(t) + rest).skip(1) =~= after);
        lemma_read_escaped_char(s[0], after);
        assert(seq![s[0]] + t =~= s);
    }
}

} // verus!
