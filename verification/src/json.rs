//! The tree form of the wire format: a structured text value is either a
//! null marker, a boolean, a number literal, a string, an ordered array, or
//! an ordered list of key/value members. The printers render a tree as
//! canonical text — compact, or pretty-printed with two-space indentation —
//! and the parser reads text back into a tree.

use vstd::prelude::*;

use vstd::string::StringExecFns;

use crate::errors::ParseError;
use crate::text::digit_char;
use crate::text::str_to_chars;

verus! {

/// One value of the wire format's tree form. Number literals are carried
/// verbatim, since no field of the document model reads one. Members of an
/// object keep the order in which they were written.
#[derive(Debug)]
pub enum Json {
    Null,
    Bool(bool),
    Num(String),
    Str(String),
    Arr(Vec<Json>),
    Obj(Vec<(String, Json)>),
}

/// The mathematical model of a tree value.
#[verifier::ext_equal]
pub enum JsonModel {
    Null,
    Bool(bool),
    Num(Seq<char>),
    Str(Seq<char>),
    Arr(Seq<JsonModel>),
    Obj(Seq<(Seq<char>, JsonModel)>),
}

/// The model of a tree value: the same tree over character sequences.
pub open spec fn json_model(j: Json) -> JsonModel
    decreases j, 1int,
{
    match j {
        Json::Null => JsonModel::Null,
        Json::Bool(b) => JsonModel::Bool(b),
        Json::Num(s) => JsonModel::Num(s@),
        Json::Str(s) => JsonModel::Str(s@),
        Json::Arr(elems) => JsonModel::Arr(json_model_seq(elems@)),
        Json::Obj(members) => JsonModel::Obj(json_model_members(members@)),
    }
}

pub open spec fn json_model_seq(elems: Seq<Json>) -> Seq<JsonModel>
    decreases elems, 0int,
{
    if elems.len() == 0 {
        Seq::empty()
    } else {
        json_model_seq(elems.drop_last()).push(json_model(elems.last()))
    }
}

pub open spec fn json_model_members(members: Seq<(String, Json)>) -> Seq<(Seq<char>, JsonModel)>
    decreases members, 0int,
{
    if members.len() == 0 {
        Seq::empty()
    } else {
        json_model_members(members.drop_last()).push(
            (members.last().0@, json_model(members.last().1)),
        )
    }
}

/// Indexing facts for the model of an element sequence.
pub proof fn lemma_json_model_seq(elems: Seq<Json>)
    ensures
        json_model_seq(elems).len() == elems.len(),
        forall|i: int|
            0 <= i < elems.len() ==> #[trigger] json_model_seq(elems)[i] == json_model(elems[i]),
    decreases elems.len(),
{
    if elems.len() > 0 {
        lemma_json_model_seq(elems.drop_last());
        assert(forall|i: int|
            0 <= i < elems.len() - 1 ==> elems.drop_last()[i] == #[trigger] elems[i]);
    }
}

/// Indexing facts for the model of a member sequence.
pub proof fn lemma_json_model_members(members: Seq<(String, Json)>)
    ensures
        json_model_members(members).len() == members.len(),
        forall|i: int|
            0 <= i < members.len() ==> #[trigger] json_model_members(members)[i] == (
                members[i].0@,
                json_model(members[i].1),
            ),
    decreases members.len(),
{
    if members.len() > 0 {
        lemma_json_model_members(members.drop_last());
        assert(forall|i: int|
            0 <= i < members.len() - 1 ==> members.drop_last()[i] == #[trigger] members[i]);
    }
}

impl DeepView for Json {
    type V = JsonModel;

    open spec fn deep_view(&self) -> JsonModel {
        json_model(*self)
    }
}

pub open spec fn null_chars() -> Seq<char> {
    seq!['n', 'u', 'l', 'l']
}

pub open spec fn true_chars() -> Seq<char> {
    seq!['t', 'r', 'u', 'e']
}

pub open spec fn false_chars() -> Seq<char> {
    seq!['f', 'a', 'l', 's', 'e']
}

/// The lowercase hexadecimal digit character for a value in `0 ..= 15`.
pub open spec fn hex_char(d: int) -> char {
    if d < 10 {
        digit_char(d)
    } else {
        (('a' as int) + (d - 10)) as char
    }
}

/// How one character is written inside a quoted string: quotes and
/// backslashes take an escape, control characters take their short escape or
/// a four-digit one, and every other character stands for itself.
pub open spec fn escape_char(c: char) -> Seq<char> {
    if c == '"' {
        seq!['\\', '"']
    } else if c == '\\' {
        seq!['\\', '\\']
    } else if c == '\u{8}' {
        seq!['\\', 'b']
    } else if c == '\u{c}' {
        seq!['\\', 'f']
    } else if c == '\n' {
        seq!['\\', 'n']
    } else if c == '\r' {
        seq!['\\', 'r']
    } else if c == '\t' {
        seq!['\\', 't']
    } else if (c as int) < 0x20 {
        seq!['\\', 'u', '0', '0', hex_char(c as int / 16), hex_char(c as int % 16)]
    } else {
        seq![c]
    }
}

pub open spec fn escape_str(s: Seq<char>) -> Seq<char>
    decreases s.len(),
{
    if s.len() == 0 {
        Seq::empty()
    } else {
        escape_str(s.drop_last()) + escape_char(s.last())
    }
}

/// A string as written on the wire: quoted and escaped.
pub open spec fn quoted(s: Seq<char>) -> Seq<char> {
    seq!['"'] + escape_str(s) + seq!['"']
}

/// A run of spaces.
pub open spec fn spaces(n: nat) -> Seq<char>
    decreases n,
{
    if n == 0 {
        Seq::empty()
    } else {
        spaces((n - 1) as nat).push(' ')
    }
}

/// The compact rendering of a value: no whitespace at all.
pub open spec fn sc_val(j: JsonModel) -> Seq<char>
    decreases j, 1int,
{
    match j {
        JsonModel::Null => null_chars(),
        JsonModel::Bool(b) => if b {
            true_chars()
        } else {
            false_chars()
        },
        JsonModel::Num(s) => s,
        JsonModel::Str(s) => quoted(s),
        JsonModel::Arr(elems) => if elems.len() == 0 {
            seq!['[', ']']
        } else {
            seq!['['] + sc_arr_items(elems) + seq![']']
        },
        JsonModel::Obj(members) => if members.len() == 0 {
            seq!['{', '}']
        } else {
            seq!['{'] + sc_obj_members(members) + seq!['}']
        },
    }
}

pub open spec fn sc_arr_items(elems: Seq<JsonModel>) -> Seq<char>
    decreases elems, 0int,
{
    if elems.len() == 0 {
        Seq::empty()
    } else if elems.len() == 1 {
        sc_val(elems[0])
    } else {
        sc_val(elems[0]) + seq![','] + sc_arr_items(elems.drop_first())
    }
}

pub open spec fn sc_obj_members(members: Seq<(Seq<char>, JsonModel)>) -> Seq<char>
    decreases members, 0int,
{
    if members.len() == 0 {
        Seq::empty()
    } else if members.len() == 1 {
        quoted(members[0].0) + seq![':'] + sc_val(members[0].1)
    } else {
        quoted(members[0].0) + seq![':'] + sc_val(members[0].1) + seq![','] + sc_obj_members(
            members.drop_first(),
        )
    }
}

/// The pretty rendering of a value standing at indentation depth `ind`:
/// two-space indentation, one member or element per line, empty containers
/// on one line.
pub open spec fn sp_val(j: JsonModel, ind: nat) -> Seq<char>
    decreases j, 1int,
{
    match j {
        JsonModel::Null => null_chars(),
        JsonModel::Bool(b) => if b {
            true_chars()
        } else {
            false_chars()
        },
        JsonModel::Num(s) => s,
        JsonModel::Str(s) => quoted(s),
        JsonModel::Arr(elems) => if elems.len() == 0 {
            seq!['[', ']']
        } else {
            seq!['[', '\n'] + sp_arr_items(elems, (ind + 2) as nat) + seq!['\n'] + spaces(ind)
                + seq![']']
        },
        JsonModel::Obj(members) => if members.len() == 0 {
            seq!['{', '}']
        } else {
            seq!['{', '\n'] + sp_obj_members(members, (ind + 2) as nat) + seq!['\n'] + spaces(ind)
                + seq!['}']
        },
    }
}

pub open spec fn sp_arr_items(elems: Seq<JsonModel>, ind: nat) -> Seq<char>
    decreases elems, 0int,
{
    if elems.len() == 0 {
        Seq::empty()
    } else if elems.len() == 1 {
        spaces(ind) + sp_val(elems[0], ind)
    } else {
        spaces(ind) + sp_val(elems[0], ind) + seq![',', '\n'] + sp_arr_items(
            elems.drop_first(),
            ind,
        )
    }
}

pub open spec fn sp_obj_members(members: Seq<(Seq<char>, JsonModel)>, ind: nat) -> Seq<char>
    decreases members, 0int,
{
    if members.len() == 0 {
        Seq::empty()
    } else if members.len() == 1 {
        spaces(ind) + quoted(members[0].0) + seq![':', ' '] + sp_val(members[0].1, ind)
    } else {
        spaces(ind) + quoted(members[0].0) + seq![':', ' '] + sp_val(members[0].1, ind)
            + seq![',', '\n'] + sp_obj_members(members.drop_first(), ind)
    }
}

/// The nesting depth of a value: zero for leaves, one more than the deepest
/// child for containers. Pretty-printing indents two spaces per level.
pub open spec fn jdepth(m: JsonModel) -> nat
    decreases m, 1int,
{
    match m {
        JsonModel::Null => 0,
        JsonModel::Bool(_) => 0,
        JsonModel::Num(_) => 0,
        JsonModel::Str(_) => 0,
        JsonModel::Arr(elems) => 1 + jdepth_seq(elems),
        JsonModel::Obj(members) => 1 + jdepth_members(members),
    }
}

pub open spec fn jdepth_seq(elems: Seq<JsonModel>) -> nat
    decreases elems, 0int,
{
    if elems.len() == 0 {
        0
    } else if jdepth(elems[0]) >= jdepth_seq(elems.drop_first()) {
        jdepth(elems[0])
    } else {
        jdepth_seq(elems.drop_first())
    }
}

pub open spec fn jdepth_members(members: Seq<(Seq<char>, JsonModel)>) -> nat
    decreases members, 0int,
{
    if members.len() == 0 {
        0
    } else if jdepth(members[0].1) >= jdepth_members(members.drop_first()) {
        jdepth(members[0].1)
    } else {
        jdepth_members(members.drop_first())
    }
}

/// No element is deeper than its sequence.
pub proof fn lemma_jdepth_seq_bound(elems: Seq<JsonModel>, i: int)
    requires
        0 <= i < elems.len(),
    ensures
        jdepth(elems[i]) <= jdepth_seq(elems),
    decreases elems.len(),
{
    if i > 0 {
        lemma_jdepth_seq_bound(elems.drop_first(), i - 1);
        assert(elems.drop_first()[i - 1] == elems[i]);
    }
}

/// No member value is deeper than its member sequence.
pub proof fn lemma_jdepth_members_bound(members: Seq<(Seq<char>, JsonModel)>, i: int)
    requires
        0 <= i < members.len(),
    ensures
        jdepth(members[i].1) <= jdepth_members(members),
    decreases members.len(),
{
    if i > 0 {
        lemma_jdepth_members_bound(members.drop_first(), i - 1);
        assert(members.drop_first()[i - 1] == members[i]);
    }
}

/// Converts one hexadecimal digit value to its lowercase character.
fn hex_to_char(d: u8) -> (c: char)
    requires
        d <= 15,
    ensures
        c == hex_char(d as int),
{
    if d < 10 {
        crate::text::digit_to_char(d)
    } else {
        (87 + d) as char
    }
}

/// Appends the written form of one string character.
fn push_escaped_char(out: &mut Vec<char>, c: char)
    ensures
        final(out)@ == old(out)@ + escape_char(c),
{
    let ghost pre = out@;
    if c == '"' {
        out.push('\\');
        out.push('"');
    } else if c == '\\' {
        out.push('\\');
        out.push('\\');
    } else if c == '\u{8}' {
        out.push('\\');
        out.push('b');
    } else if c == '\u{c}' {
        out.push('\\');
        out.push('f');
    } else if c == '\n' {
        out.push('\\');
        out.push('n');
    } else if c == '\r' {
        out.push('\\');
        out.push('r');
    } else if c == '\t' {
        out.push('\\');
        out.push('t');
    } else if (c as u32) < 0x20 {
        let v = c as u32;
        out.push('\\');
        out.push('u');
        out.push('0');
        out.push('0');
        out.push(hex_to_char((v / 16) as u8));
        out.push(hex_to_char((v % 16) as u8));
    } else {
        out.push(c);
    }
    proof {
        assert(out@ =~= pre + escape_char(c));
    }
}

/// Appends the quoted, escaped form of a string.
fn push_quoted(out: &mut Vec<char>, s: &str)
    ensures
        final(out)@ == old(out)@ + quoted(s@),
{
    let ghost pre = out@;
    let chars = str_to_chars(s);
    out.push('"');
    let mut i: usize = 0;
    while i < chars.len()
        invariant
            chars@ == s@,
            i <= chars@.len(),
            out@ == pre + seq!['"'] + escape_str(s@.subrange(0, i as int)),
        decreases chars@.len() - i,
    {
        proof {
            assert(s@.subrange(0, i + 1).drop_last() =~= s@.subrange(0, i as int));
            assert(s@.subrange(0, i + 1).last() == s@[i as int]);
        }
        push_escaped_char(out, chars[i]);
        i = i + 1;
    }
    out.push('"');
    proof {
        assert(s@.subrange(0, s@.len() as int) =~= s@);
        assert(out@ =~= pre + quoted(s@));
    }
}

/// Appends a run of spaces.
fn push_spaces(out: &mut Vec<char>, n: usize)
    ensures
        final(out)@ == old(out)@ + spaces(n as nat),
{
    let ghost pre = out@;
    let mut i: usize = 0;
    while i < n
        invariant
            i <= n,
            out@ == pre + spaces(i as nat),
        decreases n - i,
    {
        out.push(' ');
        i = i + 1;
    }
}

/// Appends the characters of a string verbatim.
fn push_str_chars(out: &mut Vec<char>, s: &str)
    ensures
        final(out)@ == old(out)@ + s@,
{
    let mut chars = str_to_chars(s);
    out.append(&mut chars);
}

/// Appends the pretty rendering of a value standing at indentation `ind`.
#[verifier::rlimit(50)]
#[verifier::spinoff_prover]
pub fn print_value(j: &Json, ind: usize, out: &mut Vec<char>)
    requires
        ind + 2 * jdepth(json_model(*j)) <= usize::MAX,
    ensures
        final(out)@ == old(out)@ + sp_val(json_model(*j), ind as nat),
    decreases *j, 1int, 0int,
{
    let ghost pre = out@;
    match j {
        Json::Null => {
            out.push('n');
            out.push('u');
            out.push('l');
            out.push('l');
            proof {
                assert(out@ =~= pre + null_chars());
            }
        },
        Json::Bool(b) => {
            if *b {
                out.push('t');
                out.push('r');
                out.push('u');
                out.push('e');
                proof {
                    assert(out@ =~= pre + true_chars());
                }
            } else {
                out.push('f');
                out.push('a');
                out.push('l');
                out.push('s');
                out.push('e');
                proof {
                    assert(out@ =~= pre + false_chars());
                }
            }
        },
        Json::Num(s) => {
            push_str_chars(out, s.as_str());
        },
        Json::Str(s) => {
            push_quoted(out, s.as_str());
        },
        Json::Arr(elems) => {
            out.push('[');
            if elems.len() == 0 {
                out.push(']');
                proof {
                    assert(out@ =~= pre + seq!['[', ']']);
                }
            } else {
                out.push('\n');
                print_arr_items(elems, 0, ind + 2, out);
                out.push('\n');
                push_spaces(out, ind);
                out.push(']');
                proof {
                    let ghost ms = json_model_seq(elems@);
                    assert(ms.skip(0) =~= ms);
                    lemma_json_model_seq(elems@);
                    assert(out@ =~= pre + (seq!['[', '\n'] + sp_arr_items(
                        ms,
                        (ind + 2) as nat,
                    ) + seq!['\n'] + spaces(ind as nat) + seq![']']));
                }
            }
        },
        Json::Obj(members) => {
            out.push('{');
            if members.len() == 0 {
                out.push('}');
                proof {
                    assert(out@ =~= pre + seq!['{', '}']);
                }
            } else {
                out.push('\n');
                print_obj_members(members, 0, ind + 2, out);
                out.push('\n');
                push_spaces(out, ind);
                out.push('}');
                proof {
                    let ghost ms = json_model_members(members@);
                    assert(ms.skip(0) =~= ms);
                    lemma_json_model_members(members@);
                    assert(out@ =~= pre + (seq!['{', '\n'] + sp_obj_members(
                        ms,
                        (ind + 2) as nat,
                    ) + seq!['\n'] + spaces(ind as nat) + seq!['}']));
                }
            }
        },
    }
}

/// Appends the pretty rendering of the array elements from `from` on,
/// separated by comma and newline.
fn print_arr_items(elems: &Vec<Json>, from: usize, ind: usize, out: &mut Vec<char>)
    requires
        from < elems@.len(),
        ind + 2 * jdepth_seq(json_model_seq(elems@)) <= usize::MAX,
    ensures
        final(out)@ == old(out)@ + sp_arr_items(
            json_model_seq(elems@).skip(from as int),
            ind as nat,
        ),
    decreases *elems, 0int, elems@.len() - from,
{
    let ghost pre = out@;
    let ghost ms = json_model_seq(elems@);
    proof {
        lemma_json_model_seq(elems@);
        lemma_jdepth_seq_bound(ms, from as int);
        assert(ms.skip(from as int)[0] == json_model(elems@[from as int]));
    }
    let n = elems.len();
    push_spaces(out, ind);
    print_value(&elems[from], ind, out);
    if from + 1 < n {
        out.push(',');
        out.push('\n');
        print_arr_items(elems, from + 1, ind, out);
        proof {
            assert(ms.skip(from as int).drop_first() =~= ms.skip(from + 1));
            assert(out@ =~= pre + (spaces(ind as nat) + sp_val(
                json_model(elems@[from as int]),
                ind as nat,
            ) + seq![',', '\n'] + sp_arr_items(ms.skip(from + 1), ind as nat)));
        }
    } else {
        proof {
            assert(ms.skip(from as int).len() == 1);
            assert(out@ =~= pre + (spaces(ind as nat) + sp_val(
                json_model(elems@[from as int]),
                ind as nat,
            )));
        }
    }
}

/// Appends the pretty rendering of the object members from `from` on,
/// separated by comma and newline.
fn print_obj_members(members: &Vec<(String, Json)>, from: usize, ind: usize, out: &mut Vec<char>)
    requires
        from < members@.len(),
        ind + 2 * jdepth_members(json_model_members(members@)) <= usize::MAX,
    ensures
        final(out)@ == old(out)@ + sp_obj_members(
            json_model_members(members@).skip(from as int),
            ind as nat,
        ),
    decreases *members, 0int, members@.len() - from,
{
    let ghost pre = out@;
    let ghost ms = json_model_members(members@);
    proof {
        lemma_json_model_members(members@);
        lemma_jdepth_members_bound(ms, from as int);
        assert(ms.skip(from as int)[0] == ms[from as int]);
    }
    let n = members.len();
    push_spaces(out, ind);
    push_quoted(out, members[from].0.as_str());
    out.push(':');
    out.push(' ');
    print_value(&members[from].1, ind, out);
    if from + 1 < n {
        out.push(',');
        out.push('\n');
        print_obj_members(members, from + 1, ind, out);
        proof {
            assert(ms.skip(from as int).drop_first() =~= ms.skip(from + 1));
            assert(out@ =~= pre + (spaces(ind as nat) + quoted(members@[from as int].0@) + seq![
                ':',
                ' ',
            ] + sp_val(json_model(members@[from as int].1), ind as nat) + seq![',', '\n']
                + sp_obj_members(ms.skip(from + 1), ind as nat)));
        }
    } else {
        proof {
            assert(ms.skip(from as int).len() == 1);
            assert(out@ =~= pre + (spaces(ind as nat) + quoted(members@[from as int].0@) + seq![
                ':',
                ' ',
            ] + sp_val(json_model(members@[from as int].1), ind as nat)));
        }
    }
}

// ---------------------------------------------------------------------------
// The parser: text to tree. The spec functions below define exactly which
// texts are accepted and what tree they denote; the executable parser is
// proved equal to them.
// ---------------------------------------------------------------------------
/// An insignificant whitespace character of the wire format.
pub open spec fn is_ws(c: char) -> bool {
    c == ' ' || c == '\t' || c == '\n' || c == '\r'
}

/// The first position at or after `i` that does not hold whitespace.
pub open spec fn skip_ws(s: Seq<char>, i: int) -> int
    decreases s.len() - i,
{
    if 0 <= i < s.len() && is_ws(s[i]) {
        skip_ws(s, i + 1)
    } else {
        i
    }
}

pub proof fn lemma_skip_ws(s: Seq<char>, i: int)
    requires
        0 <= i <= s.len(),
    ensures
        i <= skip_ws(s, i) <= s.len(),
        skip_ws(s, i) < s.len() ==> !is_ws(s[skip_ws(s, i)]),
    decreases s.len() - i,
{
    if i < s.len() && is_ws(s[i]) {
        lemma_skip_ws(s, i + 1);
    }
}

/// Skipping starts over a run of whitespace that ends at a non-whitespace
/// position (or at the end of the text) lands exactly there.
pub proof fn lemma_skip_ws_run(s: Seq<char>, i: int, j: int)
    requires
        0 <= i <= j <= s.len(),
        forall|k: int| i <= k < j ==> is_ws(#[trigger] s[k]),
        j == s.len() || !is_ws(s[j]),
    ensures
        skip_ws(s, i) == j,
    decreases j - i,
{
    if i < j {
        lemma_skip_ws_run(s, i + 1, j);
    }
}

/// The end of the run of digits starting at `i`.
pub open spec fn digits_end(s: Seq<char>, i: int) -> int
    decreases s.len() - i,
{
    if 0 <= i < s.len() && crate::text::is_digit(s[i]) {
        digits_end(s, i + 1)
    } else {
        i
    }
}

pub proof fn lemma_digits_end(s: Seq<char>, i: int)
    requires
        0 <= i <= s.len(),
    ensures
        i <= digits_end(s, i) <= s.len(),
        forall|t: int| i <= t < digits_end(s, i) ==> crate::text::is_digit(#[trigger] s[t]),
        digits_end(s, i) < s.len() ==> !crate::text::is_digit(s[digits_end(s, i)]),
    decreases s.len() - i,
{
    if i < s.len() && crate::text::is_digit(s[i]) {
        lemma_digits_end(s, i + 1);
    }
}

/// A digit run from `i` that ends at a non-digit position (or at the end of
/// the text) puts the end of the run exactly there.
pub proof fn lemma_digits_end_run(s: Seq<char>, i: int, j: int)
    requires
        0 <= i <= j <= s.len(),
        forall|k: int| i <= k < j ==> crate::text::is_digit(#[trigger] s[k]),
        j == s.len() || !crate::text::is_digit(s[j]),
    ensures
        digits_end(s, i) == j,
    decreases j - i,
{
    if i < j {
        lemma_digits_end_run(s, i + 1, j);
    }
}

/// The position after a number literal starting at `i`, or `None` when no
/// well-formed literal starts there: an optional minus sign, an integer part
/// without superfluous leading zero, an optional fraction, an optional
/// exponent.
pub open spec fn num_end(s: Seq<char>, i: int) -> Option<int> {
    let i1 = if 0 <= i < s.len() && s[i] == '-' {
        i + 1
    } else {
        i
    };
    if !(0 <= i1 < s.len() && crate::text::is_digit(s[i1])) {
        None
    } else {
        let i2 = if s[i1] == '0' {
            i1 + 1
        } else {
            digits_end(s, i1)
        };
        if i2 < s.len() && s[i2] == '.' {
            if i2 + 1 < s.len() && crate::text::is_digit(s[i2 + 1]) {
                num_end_exp(s, digits_end(s, i2 + 1))
            } else {
                None
            }
        } else {
            num_end_exp(s, i2)
        }
    }
}

/// The position after an optional exponent part starting at `i`.
pub open spec fn num_end_exp(s: Seq<char>, i: int) -> Option<int> {
    if 0 <= i < s.len() && (s[i] == 'e' || s[i] == 'E') {
        let i1 = if i + 1 < s.len() && (s[i + 1] == '+' || s[i + 1] == '-') {
            i + 2
        } else {
            i + 1
        };
        if i1 < s.len() && crate::text::is_digit(s[i1]) {
            Some(digits_end(s, i1))
        } else {
            None
        }
    } else {
        Some(i)
    }
}

/// The value of a hexadecimal digit character, or `-1`.
pub open spec fn hex_val(c: char) -> int {
    if '0' <= c && c <= '9' {
        c as int - '0' as int
    } else if 'a' <= c && c <= 'f' {
        10 + c as int - 'a' as int
    } else if 'A' <= c && c <= 'F' {
        10 + c as int - 'A' as int
    } else {
        -1
    }
}

/// The value of the four hexadecimal digits at `i`, or `-1` when they are
/// not four hexadecimal digits.
pub open spec fn hex4_val(s: Seq<char>, i: int) -> int {
    if 0 <= i && i + 4 <= s.len() && hex_val(s[i]) >= 0 && hex_val(s[i + 1]) >= 0 && hex_val(
        s[i + 2],
    ) >= 0 && hex_val(s[i + 3]) >= 0 {
        ((hex_val(s[i]) * 16 + hex_val(s[i + 1])) * 16 + hex_val(s[i + 2])) * 16 + hex_val(
            s[i + 3],
        )
    } else {
        -1
    }
}

/// The character a short escape stands for, or `None` when the character
/// after the backslash is not a short escape.
pub open spec fn short_escape(e: char) -> Option<char> {
    if e == '"' {
        Some('"')
    } else if e == '\\' {
        Some('\\')
    } else if e == '/' {
        Some('/')
    } else if e == 'b' {
        Some('\u{8}')
    } else if e == 'f' {
        Some('\u{c}')
    } else if e == 'n' {
        Some('\n')
    } else if e == 'r' {
        Some('\r')
    } else if e == 't' {
        Some('\t')
    } else {
        None
    }
}

/// Reads the body of a quoted string from position `i` (just after the
/// opening quote) to just after the closing quote, undoing escapes. Raw
/// control characters are rejected; a `\u` escape carrying a high surrogate
/// must be followed by one carrying a low surrogate, and the pair denotes
/// one character.
pub open spec fn parse_str_body(s: Seq<char>, i: int) -> Option<(Seq<char>, int)>
    decreases s.len() - i,
{
    if !(0 <= i < s.len()) {
        None
    } else {
        let c = s[i];
        if c == '"' {
            Some((Seq::empty(), i + 1))
        } else if (c as int) < 0x20 {
            None
        } else if c == '\\' {
            if i + 1 >= s.len() {
                None
            } else {
                let e = s[i + 1];
                if e == 'u' {
                    let hv = hex4_val(s, i + 2);
                    if hv < 0 {
                        None
                    } else if 0xD800 <= hv < 0xDC00 {
                        if i + 12 <= s.len() && s[i + 6] == '\\' && s[i + 7] == 'u' && 0xDC00
                            <= hex4_val(s, i + 8) < 0xE000 {
                            let code = 0x10000 + (hv - 0xD800) * 0x400 + (hex4_val(s, i + 8)
                                - 0xDC00);
                            match parse_str_body(s, i + 12) {
                                Some((rest, j)) => Some((seq![code as char] + rest, j)),
                                None => None,
                            }
                        } else {
                            None
                        }
                    } else if 0xDC00 <= hv < 0xE000 {
                        None
                    } else {
                        match parse_str_body(s, i + 6) {
                            Some((rest, j)) => Some((seq![hv as char] + rest, j)),
                            None => None,
                        }
                    }
                } else {
                    match short_escape(e) {
                        Some(d) => match parse_str_body(s, i + 2) {
                            Some((rest, j)) => Some((seq![d] + rest, j)),
                            None => None,
                        },
                        None => None,
                    }
                }
            }
        } else {
            match parse_str_body(s, i + 1) {
                Some((rest, j)) => Some((seq![c] + rest, j)),
                None => None,
            }
        }
    }
}

/// Reads one value starting at `i`, after skipping whitespace: a keyword, a
/// quoted string, a number literal, an array, or an object. Returns the
/// value and the position just after it.
pub open spec fn parse_value(s: Seq<char>, i: int) -> Option<(JsonModel, int)>
    decreases s.len() - i, 0int,
    via parse_value_dec
{
    if !(0 <= i <= s.len()) {
        None
    } else {
        let j = skip_ws(s, i);
        if !(j < s.len()) {
            None
        } else {
            let c = s[j];
            if c == 'n' {
                if j + 4 <= s.len() && s.subrange(j, j + 4) == null_chars() {
                    Some((JsonModel::Null, j + 4))
                } else {
                    None
                }
            } else if c == 't' {
                if j + 4 <= s.len() && s.subrange(j, j + 4) == true_chars() {
                    Some((JsonModel::Bool(true), j + 4))
                } else {
                    None
                }
            } else if c == 'f' {
                if j + 5 <= s.len() && s.subrange(j, j + 5) == false_chars() {
                    Some((JsonModel::Bool(false), j + 5))
                } else {
                    None
                }
            } else if c == '"' {
                match parse_str_body(s, j + 1) {
                    Some((cs, k)) => Some((JsonModel::Str(cs), k)),
                    None => None,
                }
            } else if c == '[' {
                match parse_arr_items(s, j + 1, true) {
                    Some((elems, k)) => Some((JsonModel::Arr(elems), k)),
                    None => None,
                }
            } else if c == '{' {
                match parse_obj_members(s, j + 1, true) {
                    Some((members, k)) => Some((JsonModel::Obj(members), k)),
                    None => None,
                }
            } else if c == '-' || crate::text::is_digit(c) {
                match num_end(s, j) {
                    Some(k) => Some((JsonModel::Num(s.subrange(j, k)), k)),
                    None => None,
                }
            } else {
                None
            }
        }
    }
}

#[via_fn]
proof fn parse_value_dec(s: Seq<char>, i: int) {
    if 0 <= i <= s.len() {
        lemma_skip_ws(s, i);
    }
}

/// Reads the elements of an array from position `i` (just after `[` or a
/// `,`) to just after the closing `]`. A closing bracket right away is
/// accepted only at the start of the array, never after a comma.
pub open spec fn parse_arr_items(s: Seq<char>, i: int, at_start: bool) -> Option<
    (Seq<JsonModel>, int),
>
    decreases s.len() - i, 1int,
    via parse_arr_items_dec
{
    if !(0 <= i <= s.len()) {
        None
    } else {
        let j = skip_ws(s, i);
        if !(j < s.len()) {
            None
        } else if s[j] == ']' && at_start {
            Some((Seq::empty(), j + 1))
        } else {
            match parse_value(s, j) {
                Some((v, end)) => {
                    if !(end > j) {
                        None
                    } else {
                        let k = skip_ws(s, end);
                        if !(k < s.len()) {
                            None
                        } else if s[k] == ',' {
                            match parse_arr_items(s, k + 1, false) {
                                Some((rest, end2)) => Some((seq![v] + rest, end2)),
                                None => None,
                            }
                        } else if s[k] == ']' {
                            Some((seq![v], k + 1))
                        } else {
                            None
                        }
                    }
                },
                None => None,
            }
        }
    }
}

#[via_fn]
proof fn parse_arr_items_dec(s: Seq<char>, i: int, at_start: bool) {
    assert forall|e: int| 0 <= e <= s.len() implies e <= #[trigger] skip_ws(s, e) <= s.len() by {
        lemma_skip_ws(s, e);
    }
}

/// Reads the members of an object from position `i` (just after `{` or a
/// `,`) to just after the closing `}`. A closing brace right away is
/// accepted only at the start of the object, never after a comma.
pub open spec fn parse_obj_members(s: Seq<char>, i: int, at_start: bool) -> Option<
    (Seq<(Seq<char>, JsonModel)>, int),
>
    decreases s.len() - i, 1int,
    via parse_obj_members_dec
{
    if !(0 <= i <= s.len()) {
        None
    } else {
        let j = skip_ws(s, i);
        if !(j < s.len()) {
            None
        } else if s[j] == '}' && at_start {
            Some((Seq::empty(), j + 1))
        } else if s[j] != '"' {
            None
        } else {
            match parse_str_body(s, j + 1) {
                Some((key, k1)) => {
                    if !(k1 > j + 1) {
                        None
                    } else {
                        let k2 = skip_ws(s, k1);
                        if !(k2 < s.len() && s[k2] == ':') {
                            None
                        } else {
                            match parse_value(s, k2 + 1) {
                                Some((v, end)) => {
                                    if !(end > k2) {
                                        None
                                    } else {
                                        let k3 = skip_ws(s, end);
                                        if !(k3 < s.len()) {
                                            None
                                        } else if s[k3] == ',' {
                                            match parse_obj_members(s, k3 + 1, false) {
                                                Some((rest, end2)) => Some(
                                                    (seq![(key, v)] + rest, end2),
                                                ),
                                                None => None,
                                            }
                                        } else if s[k3] == '}' {
                                            Some((seq![(key, v)], k3 + 1))
                                        } else {
                                            None
                                        }
                                    }
                                },
                                None => None,
                            }
                        }
                    }
                },
                None => None,
            }
        }
    }
}

#[via_fn]
proof fn parse_obj_members_dec(s: Seq<char>, i: int, at_start: bool) {
    assert forall|e: int| 0 <= e <= s.len() implies e <= #[trigger] skip_ws(s, e) <= s.len() by {
        lemma_skip_ws(s, e);
    }
}

/// Reads a whole text as one value: one value, possibly surrounded by
/// whitespace, and nothing else.
pub open spec fn spec_parse_text(s: Seq<char>) -> Option<JsonModel> {
    match parse_value(s, 0) {
        Some((v, end)) => {
            if skip_ws(s, end) == s.len() {
                Some(v)
            } else {
                None
            }
        },
        None => None,
    }
}

/// Finds the first non-whitespace position at or after `i`.
fn ws_end(s: &Vec<char>, i: usize) -> (r: usize)
    requires
        i <= s@.len(),
    ensures
        r as int == skip_ws(s@, i as int),
        i <= r <= s@.len(),
{
    let n = s.len();
    let mut j = i;
    while j < n && (s[j] == ' ' || s[j] == '\t' || s[j] == '\n' || s[j] == '\r')
        invariant
            i <= j <= n,
            n == s@.len(),
            skip_ws(s@, i as int) == skip_ws(s@, j as int),
        decreases n - j,
    {
        j = j + 1;
    }
    j
}

/// Finds the end of the digit run starting at `i`.
pub(crate) fn digits_end_exec(s: &Vec<char>, i: usize) -> (r: usize)
    requires
        i <= s@.len(),
    ensures
        r as int == digits_end(s@, i as int),
        i <= r <= s@.len(),
{
    let n = s.len();
    let mut j = i;
    while j < n && s[j] >= '0' && s[j] <= '9'
        invariant
            i <= j <= n,
            n == s@.len(),
            digits_end(s@, i as int) == digits_end(s@, j as int),
        decreases n - j,
    {
        j = j + 1;
    }
    j
}

/// Finds the end of an optional exponent part starting at `i`.
fn num_end_exp_exec(s: &Vec<char>, i: usize) -> (r: Option<usize>)
    requires
        i <= s@.len(),
    ensures
        match r {
            Some(k) => num_end_exp(s@, i as int) == Some(k as int) && i <= k <= s@.len(),
            None => num_end_exp(s@, i as int) is None,
        },
{
    let n = s.len();
    if i < n && (s[i] == 'e' || s[i] == 'E') {
        let i1 = if i + 1 < n && (s[i + 1] == '+' || s[i + 1] == '-') {
            i + 2
        } else {
            i + 1
        };
        if i1 < n && s[i1] >= '0' && s[i1] <= '9' {
            Some(digits_end_exec(s, i1))
        } else {
            None
        }
    } else {
        Some(i)
    }
}

/// Finds the end of a number literal starting at `i`.
fn num_end_exec(s: &Vec<char>, i: usize) -> (r: Option<usize>)
    requires
        i <= s@.len(),
    ensures
        match r {
            Some(k) => num_end(s@, i as int) == Some(k as int) && i <= k <= s@.len(),
            None => num_end(s@, i as int) is None,
        },
{
    let n = s.len();
    let i1 = if i < n && s[i] == '-' {
        i + 1
    } else {
        i
    };
    if !(i1 < n && s[i1] >= '0' && s[i1] <= '9') {
        return None;
    }
    let i2 = if s[i1] == '0' {
        i1 + 1
    } else {
        digits_end_exec(s, i1)
    };
    if i2 < n && s[i2] == '.' {
        if i2 + 1 < n && s[i2 + 1] >= '0' && s[i2 + 1] <= '9' {
            let d = digits_end_exec(s, i2 + 1);
            num_end_exp_exec(s, d)
        } else {
            None
        }
    } else {
        num_end_exp_exec(s, i2)
    }
}

/// Reads the value of one hexadecimal digit character.
fn hex_digit(c: char) -> (r: Option<u8>)
    ensures
        match r {
            Some(d) => hex_val(c) == d as int && d <= 15,
            None => hex_val(c) < 0,
        },
{
    if c >= '0' && c <= '9' {
        Some((c as u32 - 48) as u8)
    } else if c >= 'a' && c <= 'f' {
        Some((c as u32 - 87) as u8)
    } else if c >= 'A' && c <= 'F' {
        Some((c as u32 - 55) as u8)
    } else {
        None
    }
}

/// Reads the value of the four hexadecimal digits at `i`.
fn hex4(s: &Vec<char>, i: usize) -> (r: Option<u32>)
    requires
        i <= s@.len(),
    ensures
        match r {
            Some(v) => hex4_val(s@, i as int) == v as int && v <= 0xFFFF,
            None => hex4_val(s@, i as int) < 0,
        },
{
    let n = s.len();
    if n - i < 4 {
        return None;
    }
    let d0 = hex_digit(s[i]);
    let d1 = hex_digit(s[i + 1]);
    let d2 = hex_digit(s[i + 2]);
    let d3 = hex_digit(s[i + 3]);
    match (d0, d1, d2, d3) {
        (Some(a), Some(b), Some(c), Some(d)) => Some(
            ((a as u32 * 16 + b as u32) * 16 + c as u32) * 16 + d as u32,
        ),
        _ => None,
    }
}

/// Puts one element at the front of a vector.
fn prepend<T>(v: Vec<T>, x: T) -> (out: Vec<T>)
    ensures
        out@ == seq![x] + v@,
{
    let mut out = v;
    out.insert(0, x);
    proof {
        assert(out@ =~= seq![x] + out@.drop_first());
    }
    out
}

/// Reads the body of a quoted string from just after the opening quote.
#[verifier::rlimit(50)]
#[verifier::spinoff_prover]
fn parse_str_body_exec(s: &Vec<char>, i: usize) -> (r: Option<(Vec<char>, usize)>)
    requires
        i <= s@.len(),
    ensures
        match r {
            Some(p) => parse_str_body(s@, i as int) == Some((p.0@, p.1 as int)) && i < p.1
                <= s@.len(),
            None => parse_str_body(s@, i as int) is None,
        },
    decreases s@.len() - i,
{
    let n = s.len();
    if i >= n {
        return None;
    }
    let c = s[i];
    if c == '"' {
        let v: Vec<char> = Vec::new();
        proof {
            assert(v@ =~= Seq::<char>::empty());
        }
        return Some((v, i + 1));
    }
    if ' ' > c {
        return None;
    }
    if c == '\\' {
        if i + 1 >= n {
            return None;
        }
        let e = s[i + 1];
        if e == 'u' {
            match hex4(s, i + 2) {
                None => None,
                Some(hv) => {
                    if 0xD800 <= hv && hv < 0xDC00 {
                        if n - i >= 12 && s[i + 6] == '\\' && s[i + 7] == 'u' {
                            match hex4(s, i + 8) {
                                Some(lv) if 0xDC00 <= lv && lv < 0xE000 => {
                                    let code: u32 = 0x10000 + (hv - 0xD800) * 0x400 + (lv
                                        - 0xDC00);
                                    if let Some(ch) = crate::text::char_from_u32(code) {
                                        match parse_str_body_exec(s, i + 12) {
                                            Some((rest, j)) => Some((prepend(rest, ch), j)),
                                            None => None,
                                        }
                                    } else {
                                        proof {
                                            assert(false);
                                        }
                                        None
                                    }
                                },
                                _ => None,
                            }
                        } else {
                            None
                        }
                    } else if 0xDC00 <= hv && hv < 0xE000 {
                        None
                    } else {
                        if let Some(ch) = crate::text::char_from_u32(hv) {
                            match parse_str_body_exec(s, i + 6) {
                                Some((rest, j)) => Some((prepend(rest, ch), j)),
                                None => None,
                            }
                        } else {
                            proof {
                                assert(false);
                            }
                            None
                        }
                    }
                },
            }
        } else {
            let d: Option<char> = if e == '"' {
                Some('"')
            } else if e == '\\' {
                Some('\\')
            } else if e == '/' {
                Some('/')
            } else if e == 'b' {
                Some('\u{8}')
            } else if e == 'f' {
                Some('\u{c}')
            } else if e == 'n' {
                Some('\n')
            } else if e == 'r' {
                Some('\r')
            } else if e == 't' {
                Some('\t')
            } else {
                None
            };
            match d {
                Some(dc) => {
                    match parse_str_body_exec(s, i + 2) {
                        Some((rest, j)) => Some((prepend(rest, dc), j)),
                        None => None,
                    }
                },
                None => None,
            }
        }
    } else {
        match parse_str_body_exec(s, i + 1) {
            Some((rest, j)) => Some((prepend(rest, c), j)),
            None => None,
        }
    }
}

/// Reads one value starting at `i`, after skipping whitespace.
fn parse_value_exec(s: &Vec<char>, i: usize) -> (r: Option<(Json, usize)>)
    requires
        i <= s@.len(),
    ensures
        match r {
            Some(p) => parse_value(s@, i as int) == Some((json_model(p.0), p.1 as int)) && p.1
                <= s@.len(),
            None => parse_value(s@, i as int) is None,
        },
    decreases s@.len() - i, 0int,
{
    let n = s.len();
    let j = ws_end(s, i);
    if j >= n {
        return None;
    }
    let c = s[j];
    if c == 'n' {
        if n - j >= 4 && s[j + 1] == 'u' && s[j + 2] == 'l' && s[j + 3] == 'l' {
            proof {
                assert(s@.subrange(j as int, j + 4) =~= null_chars());
            }
            Some((Json::Null, j + 4))
        } else {
            proof {
                assert(j + 4 <= n ==> s@.subrange(j as int, j + 4) != null_chars()) by {
                    if j + 4 <= n {
                        assert(s@.subrange(j as int, j + 4)[1] == s@[j + 1]);
                        assert(s@.subrange(j as int, j + 4)[2] == s@[j + 2]);
                        assert(s@.subrange(j as int, j + 4)[3] == s@[j + 3]);
                    }
                }
            }
            None
        }
    } else if c == 't' {
        if n - j >= 4 && s[j + 1] == 'r' && s[j + 2] == 'u' && s[j + 3] == 'e' {
            proof {
                assert(s@.subrange(j as int, j + 4) =~= true_chars());
            }
            Some((Json::Bool(true), j + 4))
        } else {
            proof {
                assert(j + 4 <= n ==> s@.subrange(j as int, j + 4) != true_chars()) by {
                    if j + 4 <= n {
                        assert(s@.subrange(j as int, j + 4)[1] == s@[j + 1]);
                        assert(s@.subrange(j as int, j + 4)[2] == s@[j + 2]);
                        assert(s@.subrange(j as int, j + 4)[3] == s@[j + 3]);
                    }
                }
            }
            None
        }
    } else if c == 'f' {
        if n - j >= 5 && s[j + 1] == 'a' && s[j + 2] == 'l' && s[j + 3] == 's' && s[j + 4] == 'e' {
            proof {
                assert(s@.subrange(j as int, j + 5) =~= false_chars());
            }
            Some((Json::Bool(false), j + 5))
        } else {
            proof {
                assert(j + 5 <= n ==> s@.subrange(j as int, j + 5) != false_chars()) by {
                    if j + 5 <= n {
                        assert(s@.subrange(j as int, j + 5)[1] == s@[j + 1]);
                        assert(s@.subrange(j as int, j + 5)[2] == s@[j + 2]);
                        assert(s@.subrange(j as int, j + 5)[3] == s@[j + 3]);
                        assert(s@.subrange(j as int, j + 5)[4] == s@[j + 4]);
                    }
                }
            }
            None
        }
    } else if c == '"' {
        match parse_str_body_exec(s, j + 1) {
            Some((cs, k)) => Some((Json::Str(crate::text::chars_to_string(&cs)), k)),
            None => None,
        }
    } else if c == '[' {
        match parse_arr_items_exec(s, j + 1, true) {
            Some((elems, k)) => Some((Json::Arr(elems), k)),
            None => None,
        }
    } else if c == '{' {
        match parse_obj_members_exec(s, j + 1, true) {
            Some((members, k)) => Some((Json::Obj(members), k)),
            None => None,
        }
    } else if c == '-' || (c >= '0' && c <= '9') {
        match num_end_exec(s, j) {
            Some(k) => Some(
                (Json::Num(crate::text::chars_range_to_string(s, j, k)), k),
            ),
            None => None,
        }
    } else {
        None
    }
}

/// Reads the elements of an array from just after `[` or a `,`.
#[verifier::rlimit(50)]
fn parse_arr_items_exec(s: &Vec<char>, i: usize, at_start: bool) -> (r: Option<(Vec<Json>, usize)>)
    requires
        i <= s@.len(),
    ensures
        match r {
            Some(p) => parse_arr_items(s@, i as int, at_start) == Some(
                (json_model_seq(p.0@), p.1 as int),
            ) && p.1 <= s@.len(),
            None => parse_arr_items(s@, i as int, at_start) is None,
        },
    decreases s@.len() - i, 1int,
{
    let n = s.len();
    let j = ws_end(s, i);
    if j >= n {
        return None;
    }
    if s[j] == ']' && at_start {
        let v: Vec<Json> = Vec::new();
        proof {
            assert(json_model_seq(v@) =~= Seq::<JsonModel>::empty());
        }
        return Some((v, j + 1));
    }
    match parse_value_exec(s, j) {
        Some((v, end)) => {
            if end <= j {
                return None;
            }
            let k = ws_end(s, end);
            if k >= n {
                return None;
            }
            if s[k] == ',' {
                match parse_arr_items_exec(s, k + 1, false) {
                    Some((rest, end2)) => {
                        let ghost rest0 = rest@;
                        let out = prepend(rest, v);
                        proof {
                            lemma_json_model_seq(out@);
                            lemma_json_model_seq(rest0);
                            assert(json_model_seq(out@) =~= seq![json_model(v)] + json_model_seq(
                                rest0,
                            ));
                        }
                        Some((out, end2))
                    },
                    None => None,
                }
            } else if s[k] == ']' {
                let mut out: Vec<Json> = Vec::new();
                out.push(v);
                proof {
                    lemma_json_model_seq(out@);
                    assert(json_model_seq(out@) =~= seq![json_model(v)]);
                }
                Some((out, k + 1))
            } else {
                None
            }
        },
        None => None,
    }
}

/// Reads the members of an object from just after `{` or a `,`.
#[verifier::rlimit(50)]
fn parse_obj_members_exec(s: &Vec<char>, i: usize, at_start: bool) -> (r: Option<
    (Vec<(String, Json)>, usize),
>)
    requires
        i <= s@.len(),
    ensures
        match r {
            Some(p) => parse_obj_members(s@, i as int, at_start) == Some(
                (json_model_members(p.0@), p.1 as int),
            ) && p.1 <= s@.len(),
            None => parse_obj_members(s@, i as int, at_start) is None,
        },
    decreases s@.len() - i, 1int,
{
    let n = s.len();
    let j = ws_end(s, i);
    if j >= n {
        return None;
    }
    if s[j] == '}' && at_start {
        let v: Vec<(String, Json)> = Vec::new();
        proof {
            assert(json_model_members(v@) =~= Seq::<(Seq<char>, JsonModel)>::empty());
        }
        return Some((v, j + 1));
    }
    if s[j] != '"' {
        return None;
    }
    match parse_str_body_exec(s, j + 1) {
        Some((key_chars, k1)) => {
            if k1 <= j + 1 {
                return None;
            }
            let key = crate::text::chars_to_string(&key_chars);
            let k2 = ws_end(s, k1);
            if !(k2 < n && s[k2] == ':') {
                return None;
            }
            match parse_value_exec(s, k2 + 1) {
                Some((v, end)) => {
                    if end <= k2 {
                        return None;
                    }
                    let k3 = ws_end(s, end);
                    if k3 >= n {
                        return None;
                    }
                    if s[k3] == ',' {
                        match parse_obj_members_exec(s, k3 + 1, false) {
                            Some((rest, end2)) => {
                                let ghost rest0 = rest@;
                                let out = prepend(rest, (key, v));
                                proof {
                                    lemma_json_model_members(out@);
                                    lemma_json_model_members(rest0);
                                    assert(forall|t: int|
                                        1 <= t < out@.len() ==> #[trigger] out@[t] == rest0[t
                                            - 1]);
                                    assert(out@[0] == (key, v));
                                    assert(json_model_members(out@) =~~= seq![
                                        (key_chars@, json_model(v)),
                                    ] + json_model_members(rest0));
                                }
                                Some((out, end2))
                            },
                            None => None,
                        }
                    } else if s[k3] == '}' {
                        let mut out: Vec<(String, Json)> = Vec::new();
                        out.push((key, v));
                        proof {
                            lemma_json_model_members(out@);
                            assert(out@[0] == (key, v));
                            assert(json_model_members(out@) =~~= seq![
                                (key_chars@, json_model(v)),
                            ]);
                        }
                        Some((out, k3 + 1))
                    } else {
                        None
                    }
                },
                None => None,
            }
        },
        None => None,
    }
}

/// Reads a whole text as one tree value. Succeeds exactly on the texts the
/// grammar accepts; any other text is rejected with a structural error.
pub fn parse_text(s: &str) -> (r: Result<Json, ParseError>)
    ensures
        match r {
            Ok(j) => spec_parse_text(s@) == Some(json_model(j)),
            Err(e) => spec_parse_text(s@) is None && e is StructuralError,
        },
{
    let chars = str_to_chars(s);
    match parse_value_exec(&chars, 0) {
        Some((v, end)) => {
            let k = ws_end(&chars, end);
            if k == chars.len() {
                Ok(v)
            } else {
                Err(
                    ParseError::StructuralError {
                        message: String::from_str("unexpected text after the document"),
                    },
                )
            }
        },
        None => Err(
            ParseError::StructuralError {
                message: String::from_str("malformed document text"),
            },
        ),
    }
}

/// Appends the compact rendering of a value.
#[verifier::rlimit(50)]
#[verifier::spinoff_prover]
pub fn print_compact_value(j: &Json, out: &mut Vec<char>)
    ensures
        final(out)@ == old(out)@ + sc_val(json_model(*j)),
    decreases *j, 1int, 0int,
{
    let ghost pre = out@;
    match j {
        Json::Null => {
            out.push('n');
            out.push('u');
            out.push('l');
            out.push('l');
            proof {
                assert(out@ =~= pre + null_chars());
            }
        },
        Json::Bool(b) => {
            if *b {
                out.push('t');
                out.push('r');
                out.push('u');
                out.push('e');
                proof {
                    assert(out@ =~= pre + true_chars());
                }
            } else {
                out.push('f');
                out.push('a');
                out.push('l');
                out.push('s');
                out.push('e');
                proof {
                    assert(out@ =~= pre + false_chars());
                }
            }
        },
        Json::Num(s) => {
            push_str_chars(out, s.as_str());
        },
        Json::Str(s) => {
            push_quoted(out, s.as_str());
        },
        Json::Arr(elems) => {
            out.push('[');
            if elems.len() == 0 {
                out.push(']');
                proof {
                    assert(out@ =~= pre + seq!['[', ']']);
                }
            } else {
                print_compact_arr_items(elems, 0, out);
                out.push(']');
                proof {
                    let ghost ms = json_model_seq(elems@);
                    assert(ms.skip(0) =~= ms);
                    lemma_json_model_seq(elems@);
                    assert(out@ =~= pre + (seq!['['] + sc_arr_items(ms) + seq![']']));
                }
            }
        },
        Json::Obj(members) => {
            out.push('{');
            if members.len() == 0 {
                out.push('}');
                proof {
                    assert(out@ =~= pre + seq!['{', '}']);
                }
            } else {
                print_compact_obj_members(members, 0, out);
                out.push('}');
                proof {
                    let ghost ms = json_model_members(members@);
                    assert(ms.skip(0) =~= ms);
                    lemma_json_model_members(members@);
                    assert(out@ =~= pre + (seq!['{'] + sc_obj_members(ms) + seq!['}']));
                }
            }
        },
    }
}

/// Appends the compact rendering of the array elements from `from` on.
fn print_compact_arr_items(elems: &Vec<Json>, from: usize, out: &mut Vec<char>)
    requires
        from < elems@.len(),
    ensures
        final(out)@ == old(out)@ + sc_arr_items(json_model_seq(elems@).skip(from as int)),
    decreases *elems, 0int, elems@.len() - from,
{
    let ghost pre = out@;
    let ghost ms = json_model_seq(elems@);
    proof {
        lemma_json_model_seq(elems@);
        assert(ms.skip(from as int)[0] == json_model(elems@[from as int]));
    }
    let n = elems.len();
    print_compact_value(&elems[from], out);
    if from + 1 < n {
        out.push(',');
        print_compact_arr_items(elems, from + 1, out);
        proof {
            assert(ms.skip(from as int).drop_first() =~= ms.skip(from + 1));
            assert(out@ =~= pre + (sc_val(json_model(elems@[from as int])) + seq![',']
                + sc_arr_items(ms.skip(from + 1))));
        }
    } else {
        proof {
            assert(ms.skip(from as int).len() == 1);
            assert(out@ =~= pre + sc_val(json_model(elems@[from as int])));
        }
    }
}

/// Appends the compact rendering of the object members from `from` on.
fn print_compact_obj_members(members: &Vec<(String, Json)>, from: usize, out: &mut Vec<char>)
    requires
        from < members@.len(),
    ensures
        final(out)@ == old(out)@ + sc_obj_members(json_model_members(members@).skip(from as int)),
    decreases *members, 0int, members@.len() - from,
{
    let ghost pre = out@;
    let ghost ms = json_model_members(members@);
    proof {
        lemma_json_model_members(members@);
        assert(ms.skip(from as int)[0] == ms[from as int]);
    }
    let n = members.len();
    push_quoted(out, members[from].0.as_str());
    out.push(':');
    print_compact_value(&members[from].1, out);
    if from + 1 < n {
        out.push(',');
        print_compact_obj_members(members, from + 1, out);
        proof {
            assert(ms.skip(from as int).drop_first() =~= ms.skip(from + 1));
            assert(out@ =~= pre + (quoted(members@[from as int].0@) + seq![':'] + sc_val(
                json_model(members@[from as int].1),
            ) + seq![','] + sc_obj_members(ms.skip(from + 1))));
        }
    } else {
        proof {
            assert(ms.skip(from as int).len() == 1);
            assert(out@ =~= pre + (quoted(members@[from as int].0@) + seq![':'] + sc_val(
                json_model(members@[from as int].1),
            )));
        }
    }
}

// ---------------------------------------------------------------------------
// The round trip of the text layer: parsing printed text gives the printed
// tree back. Number literals are carried verbatim and excluded; no document
// field holds one.
// ---------------------------------------------------------------------------
/// A tree without number literals.
pub open spec fn num_free(j: JsonModel) -> bool
    decreases j, 1int,
{
    match j {
        JsonModel::Null => true,
        JsonModel::Bool(_) => true,
        JsonModel::Num(_) => false,
        JsonModel::Str(_) => true,
        JsonModel::Arr(elems) => num_free_seq(elems),
        JsonModel::Obj(members) => num_free_members(members),
    }
}

pub open spec fn num_free_seq(elems: Seq<JsonModel>) -> bool
    decreases elems, 0int,
{
    if elems.len() == 0 {
        true
    } else {
        num_free(elems[0]) && num_free_seq(elems.drop_first())
    }
}

pub open spec fn num_free_members(members: Seq<(Seq<char>, JsonModel)>) -> bool
    decreases members, 0int,
{
    if members.len() == 0 {
        true
    } else {
        num_free(members[0].1) && num_free_members(members.drop_first())
    }
}

/// Membership facts for number-free sequences.
pub proof fn lemma_num_free_seq(elems: Seq<JsonModel>)
    ensures
        num_free_seq(elems) == (forall|i: int|
            0 <= i < elems.len() ==> num_free(#[trigger] elems[i])),
    decreases elems.len(),
{
    if elems.len() > 0 {
        lemma_num_free_seq(elems.drop_first());
        assert(forall|i: int|
            0 <= i < elems.len() - 1 ==> #[trigger] elems.drop_first()[i] == elems[i + 1]);
        if forall|i: int| 0 <= i < elems.len() ==> num_free(#[trigger] elems[i]) {
            assert(forall|i: int|
                0 <= i < elems.drop_first().len() ==> num_free(
                    #[trigger] elems.drop_first()[i],
                ));
        }
        if num_free_seq(elems) {
            assert forall|i: int| 0 <= i < elems.len() implies num_free(
                #[trigger] elems[i],
            ) by {
                if i > 0 {
                    assert(num_free(elems.drop_first()[i - 1]));
                }
            }
        }
    }
}

pub proof fn lemma_num_free_members(members: Seq<(Seq<char>, JsonModel)>)
    ensures
        num_free_members(members) == (forall|i: int|
            0 <= i < members.len() ==> num_free((#[trigger] members[i]).1)),
    decreases members.len(),
{
    if members.len() > 0 {
        lemma_num_free_members(members.drop_first());
        assert(forall|i: int|
            0 <= i < members.len() - 1 ==> #[trigger] members.drop_first()[i] == members[i
                + 1]);
        if forall|i: int| 0 <= i < members.len() ==> num_free((#[trigger] members[i]).1) {
            assert(forall|i: int|
                0 <= i < members.drop_first().len() ==> num_free(
                    (#[trigger] members.drop_first()[i]).1,
                ));
        }
        if num_free_members(members) {
            assert forall|i: int| 0 <= i < members.len() implies num_free(
                (#[trigger] members[i]).1,
            ) by {
                if i > 0 {
                    assert(num_free(members.drop_first()[i - 1].1));
                }
            }
        }
    }
}

/// The printed form of a value is never empty and starts with a character
/// that is not whitespace and not a closing delimiter or separator.
proof fn lemma_sp_val_first(j: JsonModel, ind: nat)
    requires
        num_free(j),
    ensures
        sp_val(j, ind).len() > 0,
        !is_ws(sp_val(j, ind)[0]),
        sp_val(j, ind)[0] != ']',
        sp_val(j, ind)[0] != '}',
        sp_val(j, ind)[0] != ',',
        sp_val(j, ind)[0] != ':',
{
    match j {
        JsonModel::Null => {
            assert(sp_val(j, ind)[0] == 'n');
        },
        JsonModel::Bool(b) => {
            if b {
                assert(sp_val(j, ind)[0] == 't');
            } else {
                assert(sp_val(j, ind)[0] == 'f');
            }
        },
        JsonModel::Num(_) => {},
        JsonModel::Str(s) => {
            assert(sp_val(j, ind)[0] == '"');
        },
        JsonModel::Arr(elems) => {
            assert(sp_val(j, ind)[0] == '[');
        },
        JsonModel::Obj(members) => {
            assert(sp_val(j, ind)[0] == '{');
        },
    }
}

/// Escaping distributes over concatenation.
proof fn lemma_escape_str_append(a: Seq<char>, b: Seq<char>)
    ensures
        escape_str(a + b) == escape_str(a) + escape_str(b),
    decreases b.len(),
{
    if b.len() == 0 {
        assert(a + b =~= a);
        assert(escape_str(a) + escape_str(b) =~= escape_str(a));
    } else {
        lemma_escape_str_append(a, b.drop_last());
        assert((a + b).drop_last() =~= a + b.drop_last());
        assert((a + b).last() == b.last());
        assert(escape_str(a) + escape_str(b.drop_last()) + escape_char(b.last()) =~= escape_str(
            a,
        ) + (escape_str(b.drop_last()) + escape_char(b.last())));
    }
}

/// Escaping a single character is its escape.
proof fn lemma_escape_str_one(c: char)
    ensures
        escape_str(seq![c]) == escape_char(c),
{
    assert(seq![c].drop_last() =~= Seq::<char>::empty());
    assert(seq![c].last() == c);
    assert(escape_str(Seq::<char>::empty()) =~= Seq::<char>::empty());
    assert(Seq::<char>::empty() + escape_char(c) =~= escape_char(c));
}

/// Escaping from the front: the head char's escape, then the rest.
proof fn lemma_escape_str_first(t: Seq<char>)
    requires
        t.len() > 0,
    ensures
        escape_str(t) == escape_char(t[0]) + escape_str(t.drop_first()),
{
    assert(t =~= seq![t[0]] + t.drop_first());
    lemma_escape_str_append(seq![t[0]], t.drop_first());
    lemma_escape_str_one(t[0]);
}

/// Every character's code point is non-negative.
proof fn lemma_char_nonneg(c: char)
    ensures
        c as int >= 0,
{
}

/// The value of a hexadecimal digit character built from a digit value.
proof fn lemma_hex_char_val(d: int)
    requires
        0 <= d < 16,
    ensures
        hex_val(hex_char(d)) == d,
{
}

/// Reading a printed string body back gives the string itself: the escapes
/// undo exactly, and the closing quote ends the body.
#[verifier::rlimit(50)]
#[verifier::spinoff_prover]
proof fn lemma_parse_print_str_body(t: Seq<char>, s: Seq<char>, i: int)
    requires
        0 <= i,
        i + escape_str(t).len() + 1 <= s.len(),
        s.subrange(i, i + escape_str(t).len() + 1) == escape_str(t) + seq!['"'],
    ensures
        parse_str_body(s, i) == Some((t, i + escape_str(t).len() + 1)),
    decreases t.len(),
{
    let e = escape_str(t);
    if t.len() == 0 {
        assert(s[i] == (e + seq!['"'])[0]);
        assert(s[i] == '"');
    } else {
        let c = t[0];
        let rest = t.drop_first();
        lemma_escape_str_first(t);
        let ec = escape_char(c);
        let er = escape_str(rest);
        assert(e =~= ec + er);
        assert(forall|k: int|
            0 <= k < e.len() + 1 ==> #[trigger] s[i + k] == (e + seq!['"'])[k]);
        let i2 = i + ec.len();
        assert(e + seq!['"'] =~= ec + (er + seq!['"']));
        assert forall|k: int| 0 <= k < er.len() + 1 implies #[trigger] s[i2 + k] == (er + seq![
            '"',
        ])[k] by {
            assert(s[i + (k + ec.len())] == (e + seq!['"'])[k + ec.len()]);
            assert((ec + (er + seq!['"']))[ec.len() + k] == (er + seq!['"'])[k]);
        }
        assert(s.subrange(i2, i2 + er.len() + 1) =~= er + seq!['"']) by {
            assert(forall|k: int|
                0 <= k < er.len() + 1 ==> #[trigger] s.subrange(i2, i2 + er.len() + 1)[k] == s[
                    i2 + k]);
        }
        lemma_parse_print_str_body(rest, s, i2);
        assert(seq![c] + rest =~= t);
        assert forall|k: int| 0 <= k < ec.len() implies #[trigger] s[i + k] == ec[k] by {
            assert(s[i + k] == (e + seq!['"'])[k]);
            assert((e + seq!['"'])[k] == e[k]);
            assert((ec + er)[k] == ec[k]);
        }
        assert(s[i] == ec[0]) by {
            assert(s[i + 0] == ec[0]);
        }
        if c == '"' || c == '\\' {
            assert(s[i] == '\\' && s[i + 1] == c);
        } else if c == '\u{8}' {
            assert(s[i] == '\\' && s[i + 1] == 'b');
        } else if c == '\u{c}' {
            assert(s[i] == '\\' && s[i + 1] == 'f');
        } else if c == '\n' {
            assert(s[i] == '\\' && s[i + 1] == 'n');
        } else if c == '\r' {
            assert(s[i] == '\\' && s[i + 1] == 'r');
        } else if c == '\t' {
            assert(s[i] == '\\' && s[i + 1] == 't');
        } else if (c as int) < 0x20 {
            assert(s[i] == '\\' && s[i + 1] == 'u' && s[i + 2] == '0' && s[i + 3] == '0' && s[i
                + 4] == hex_char(c as int / 16) && s[i + 5] == hex_char(c as int % 16));
            lemma_char_nonneg(c);
            assert(0 <= (c as int) && (c as int) < 0x20);
            lemma_hex_char_val(c as int / 16);
            lemma_hex_char_val(c as int % 16);
            assert(hex4_val(s, i + 2) == ((0 * 16 + 0) * 16 + (c as int) / 16) * 16 + (
            c as int) % 16);
            assert(((0 * 16 + 0) * 16 + (c as int) / 16) * 16 + (c as int) % 16 == c as int);
            assert((c as int) as char == c);
        } else {
            assert(s[i] == c);
            assert(!(c == '"') && !((c as int) < 0x20) && !(c == '\\'));
        }
    }
}

/// A run of spaces is spaces.
proof fn lemma_spaces(n: nat)
    ensures
        spaces(n).len() == n,
        forall|k: int| 0 <= k < n ==> spaces(n)[k] == ' ',
    decreases n,
{
    if n > 0 {
        lemma_spaces((n - 1) as nat);
    }
}

/// The closing tail of a printed non-empty array: newline, the items,
/// newline, closing indentation, bracket.
pub open spec fn arr_tail(elems: Seq<JsonModel>, ind2: nat, indc: nat) -> Seq<char> {
    seq!['\n'] + sp_arr_items(elems, ind2) + seq!['\n'] + spaces(indc) + seq![']']
}

/// The closing tail of a printed non-empty object.
pub open spec fn obj_tail(members: Seq<(Seq<char>, JsonModel)>, ind2: nat, indc: nat) -> Seq<
    char,
> {
    seq!['\n'] + sp_obj_members(members, ind2) + seq!['\n'] + spaces(indc) + seq!['}']
}

/// Reading printed text back gives the printed value: whitespace may stand
/// before the value, and reading ends exactly after it.
#[verifier::rlimit(100)]
#[verifier::spinoff_prover]
proof fn lemma_parse_print_val(j: JsonModel, ind: nat, s: Seq<char>, i: int, v0: int)
    requires
        num_free(j),
        0 <= i <= v0,
        v0 + sp_val(j, ind).len() <= s.len(),
        forall|k: int| i <= k < v0 ==> is_ws(#[trigger] s[k]),
        s.subrange(v0, v0 + sp_val(j, ind).len()) == sp_val(j, ind),
    ensures
        parse_value(s, i) == Some((j, v0 + sp_val(j, ind).len())),
    decreases j, 0int,
{
    let sp = sp_val(j, ind);
    let l = sp.len() as int;
    lemma_sp_val_first(j, ind);
    assert(forall|k: int| 0 <= k < l ==> #[trigger] s[v0 + k] == sp[k]) by {
        assert(forall|k: int|
            0 <= k < l ==> s.subrange(v0, v0 + l)[k] == #[trigger] s[v0 + k]);
    }
    assert(s[v0] == sp[0]) by {
        assert(s[v0 + 0] == sp[0]);
    }
    lemma_skip_ws_run(s, i, v0);
    match j {
        JsonModel::Null => {
            assert(s.subrange(v0, v0 + 4) == null_chars());
            assert(parse_value(s, i) == Some((j, v0 + l)));
        },
        JsonModel::Bool(b) => {
            if b {
                assert(s.subrange(v0, v0 + 4) == true_chars());
                assert(s[v0] == 't');
                assert(parse_value(s, i) == Some((j, v0 + l)));
            } else {
                assert(s.subrange(v0, v0 + 5) == false_chars());
                assert(s[v0] == 'f');
                assert(s[v0] != 'n' && s[v0] != 't');
                assert(parse_value(s, i) == Some((j, v0 + l)));
            }
        },
        JsonModel::Num(_) => {},
        JsonModel::Str(t) => {
            let e = escape_str(t);
            assert(sp =~= seq!['"'] + (e + seq!['"']));
            assert(s.subrange(v0 + 1, v0 + 1 + e.len() + 1) =~= e + seq!['"']) by {
                assert(forall|k: int|
                    0 <= k < e.len() + 1 ==> #[trigger] s.subrange(
                        v0 + 1,
                        v0 + 1 + e.len() + 1,
                    )[k] == s[v0 + (k + 1)]);
                assert(forall|k: int|
                    0 <= k < e.len() + 1 ==> (seq!['"'] + (e + seq!['"']))[k + 1] == (e + seq![
                        '"',
                    ])[k]);
            }
            lemma_parse_print_str_body(t, s, v0 + 1);
            assert(parse_value(s, i) == Some((j, v0 + l)));
        },
        JsonModel::Arr(elems) => {
            assert(s[v0] == '[');
            if elems.len() == 0 {
                assert(s[v0 + 1] == ']');
                assert(skip_ws(s, v0 + 1) == v0 + 1);
                assert(elems =~= Seq::<JsonModel>::empty());
                assert(parse_value(s, i) == Some((j, v0 + l)));
            } else {
                let tail = arr_tail(elems, (ind + 2) as nat, ind);
                assert(sp =~= seq!['['] + tail);
                assert(s.subrange(v0 + 1, v0 + 1 + tail.len()) =~= tail) by {
                    assert(forall|k: int|
                        0 <= k < tail.len() ==> #[trigger] s.subrange(
                            v0 + 1,
                            v0 + 1 + tail.len(),
                        )[k] == s[v0 + (k + 1)]);
                    assert(forall|k: int|
                        0 <= k < tail.len() ==> (seq!['['] + tail)[k + 1] == tail[k]);
                }
                lemma_parse_print_items(elems, (ind + 2) as nat, ind, s, v0 + 1, true);
                assert(parse_value(s, i) == Some((j, v0 + l)));
            }
        },
        JsonModel::Obj(members) => {
            assert(s[v0] == '{');
            if members.len() == 0 {
                assert(s[v0 + 1] == '}');
                assert(skip_ws(s, v0 + 1) == v0 + 1);
                assert(members =~= Seq::<(Seq<char>, JsonModel)>::empty());
                assert(parse_value(s, i) == Some((j, v0 + l)));
            } else {
                let tail = obj_tail(members, (ind + 2) as nat, ind);
                assert(sp =~= seq!['{'] + tail);
                assert(s.subrange(v0 + 1, v0 + 1 + tail.len()) =~= tail) by {
                    assert(forall|k: int|
                        0 <= k < tail.len() ==> #[trigger] s.subrange(
                            v0 + 1,
                            v0 + 1 + tail.len(),
                        )[k] == s[v0 + (k + 1)]);
                    assert(forall|k: int|
                        0 <= k < tail.len() ==> (seq!['{'] + tail)[k + 1] == tail[k]);
                }
                lemma_parse_print_members(members, (ind + 2) as nat, ind, s, v0 + 1, true);
                assert(parse_value(s, i) == Some((j, v0 + l)));
            }
        },
    }
    assert(parse_value(s, i) matches Some(p) && p.0 =~~= j && p.1 == v0 + l);
}

/// Reading the printed items of a non-empty array consumes them and the
/// closing bracket exactly.
#[verifier::rlimit(100)]
#[verifier::spinoff_prover]
proof fn lemma_parse_print_items(
    elems: Seq<JsonModel>,
    ind2: nat,
    indc: nat,
    s: Seq<char>,
    i: int,
    at_start: bool,
)
    requires
        elems.len() >= 1,
        num_free_seq(elems),
        0 <= i,
        i + arr_tail(elems, ind2, indc).len() <= s.len(),
        s.subrange(i, i + arr_tail(elems, ind2, indc).len()) == arr_tail(elems, ind2, indc),
    ensures
        parse_arr_items(s, i, at_start) == Some(
            (elems, i + arr_tail(elems, ind2, indc).len()),
        ),
    decreases elems, 1int,
{
    let e0 = elems[0];
    let rest = elems.drop_first();
    let tail = arr_tail(elems, ind2, indc);
    let l = tail.len() as int;
    let it = sp_arr_items(elems, ind2);
    let sp0 = sp_val(e0, ind2);
    let l0 = sp0.len() as int;
    lemma_spaces(ind2);
    lemma_spaces(indc);
    lemma_num_free_seq(elems);
    lemma_sp_val_first(e0, ind2);
    assert(forall|k: int| 0 <= k < l ==> #[trigger] s[i + k] == tail[k]) by {
        assert(forall|k: int| 0 <= k < l ==> s.subrange(i, i + l)[k] == #[trigger] s[i + k]);
    }
    let v0 = i + 1 + ind2;
    // the text up to the first element: a newline and the item indentation
    assert(s[i + 0] == tail[0]);
    assert(tail[0] == '\n');
    if elems.len() == 1 {
        assert(it =~= spaces(ind2) + sp0);
    } else {
        assert(it =~= spaces(ind2) + sp0 + seq![',', '\n'] + sp_arr_items(rest, ind2));
    }
    assert(forall|k: int| 0 <= k < ind2 ==> #[trigger] tail[1 + k] == ' ') by {
        assert(forall|k: int| 0 <= k < it.len() ==> #[trigger] tail[1 + k] == it[k]);
        assert(forall|k: int| 0 <= k < ind2 ==> #[trigger] it[k] == spaces(ind2)[k]);
    }
    assert(forall|k: int| 0 <= k < l0 ==> tail[1 + ind2 + k] == sp0[k]) by {
        assert(forall|k: int| 0 <= k < it.len() ==> tail[1 + k] == it[k]);
        assert(forall|k: int| 0 <= k < l0 ==> it[ind2 + k] == sp0[k]);
    }
    assert(forall|k: int| i <= k < v0 ==> is_ws(#[trigger] s[k])) by {
        assert(forall|k: int| i < k < v0 ==> s[k] == tail[1 + (k - i - 1)]);
    }
    assert(s.subrange(v0, v0 + l0) =~= sp0) by {
        assert(forall|k: int|
            0 <= k < l0 ==> #[trigger] s.subrange(v0, v0 + l0)[k] == s[v0 + k]);
        assert(forall|k: int| 0 <= k < l0 ==> #[trigger] s[i + (1 + ind2 + k)] == tail[1 + ind2 + k]);
    }
    lemma_skip_ws_run(s, i, v0);
    assert(s[v0] == sp0[0]) by {
        assert(s[i + (1 + ind2 + 0)] == tail[1 + ind2 as int + 0]);
    }
    lemma_parse_print_val(e0, ind2, s, v0, v0);
    let end = v0 + l0;
    if elems.len() == 1 {
        // after the only element: newline, closing indentation, bracket
        let close = end + 1 + indc;
        assert(close + 1 == i + l);
        assert(forall|k: int| end <= k < close ==> is_ws(#[trigger] s[k])) by {
            assert(s[i + (1 + ind2 + l0)] == tail[1 + ind2 + l0]);
            assert(tail[1 + it.len() as int] == '\n');
            assert(1 + ind2 + l0 == 1 + it.len());
            assert(forall|k: int|
                0 <= k < indc ==> tail[1 + it.len() + 1 + k] == spaces(indc)[k]);
            assert(forall|k: int|
                end < k < close ==> s[k] == tail[1 + it.len() + 1 + (k - end - 1)]);
        }
        assert(s[close] == ']') by {
            assert(s[i + (l - 1)] == tail[l - 1]);
            assert(tail[l - 1] == ']');
        }
        lemma_skip_ws_run(s, end, close);
        assert(elems =~= seq![e0]);
    } else {
        // after the element: a comma, then the rest in the same shape
        assert(s[end] == ',') by {
            assert(s[i + (1 + ind2 + l0)] == tail[1 + ind2 + l0]);
            assert(tail[1 + (ind2 + l0)] == it[ind2 + l0]);
            assert(it[ind2 + l0] == ',');
        }
        assert(skip_ws(s, end) == end);
        let tail2 = arr_tail(rest, ind2, indc);
        assert(tail =~= seq!['\n'] + (spaces(ind2) + sp0 + seq![',']) + tail2) by {
            assert(sp_arr_items(rest, ind2).len() == tail2.len() - 3 - indc);
        }
        assert(end + 1 + tail2.len() == i + l);
        assert(s.subrange(end + 1, end + 1 + tail2.len()) =~= tail2) by {
            assert(forall|k: int|
                0 <= k < tail2.len() ==> #[trigger] s.subrange(end + 1, end + 1 + tail2.len())[k]
                    == s[i + (2 + ind2 + l0 + k)]);
            assert(forall|k: int|
                0 <= k < tail2.len() ==> (seq!['\n'] + (spaces(ind2) + sp0 + seq![','])
                    + tail2)[2 + ind2 + l0 + k] == tail2[k]);
        }
        assert(num_free_seq(rest));
        lemma_parse_print_items(rest, ind2, indc, s, end + 1, false);
        assert(seq![e0] + rest =~= elems);
    }
}

/// Reading the printed members of a non-empty object consumes them and the
/// closing brace exactly.
#[verifier::rlimit(100)]
#[verifier::spinoff_prover]
proof fn lemma_parse_print_members(
    members: Seq<(Seq<char>, JsonModel)>,
    ind2: nat,
    indc: nat,
    s: Seq<char>,
    i: int,
    at_start: bool,
)
    requires
        members.len() >= 1,
        num_free_members(members),
        0 <= i,
        i + obj_tail(members, ind2, indc).len() <= s.len(),
        s.subrange(i, i + obj_tail(members, ind2, indc).len()) == obj_tail(members, ind2, indc),
    ensures
        parse_obj_members(s, i, at_start) == Some(
            (members, i + obj_tail(members, ind2, indc).len()),
        ),
    decreases members, 1int,
{
    let m0 = members[0];
    let key = m0.0;
    let v = m0.1;
    let rest = members.drop_first();
    let tail = obj_tail(members, ind2, indc);
    let l = tail.len() as int;
    let it = sp_obj_members(members, ind2);
    let q = quoted(key);
    let lq = q.len() as int;
    let sp0 = sp_val(v, ind2);
    let l0 = sp0.len() as int;
    lemma_spaces(ind2);
    lemma_spaces(indc);
    lemma_num_free_members(members);
    lemma_sp_val_first(v, ind2);
    assert(forall|k: int| 0 <= k < l ==> #[trigger] s[i + k] == tail[k]) by {
        assert(forall|k: int| 0 <= k < l ==> s.subrange(i, i + l)[k] == #[trigger] s[i + k]);
    }
    let k0 = i + 1 + ind2;
    assert(s[i + 0] == tail[0]);
    assert(tail[0] == '\n');
    if members.len() == 1 {
        assert(it =~= spaces(ind2) + q + seq![':', ' '] + sp0);
    } else {
        assert(it =~= spaces(ind2) + q + seq![':', ' '] + sp0 + seq![',', '\n']
            + sp_obj_members(rest, ind2));
    }
    assert(forall|k: int| 0 <= k < it.len() ==> tail[1 + k] == it[k]);
    assert(forall|k: int| 0 <= k < ind2 ==> #[trigger] tail[1 + k] == ' ') by {
        assert(forall|k: int| 0 <= k < ind2 ==> #[trigger] it[k] == spaces(ind2)[k]);
    }
    assert(forall|k: int| 0 <= k < lq ==> tail[1 + ind2 + k] == q[k]) by {
        assert(forall|k: int| 0 <= k < lq ==> it[ind2 + k] == q[k]);
    }
    assert(tail[1 + ind2 + lq] == ':' && tail[1 + ind2 + lq + 1] == ' ') by {
        assert(it[ind2 + lq] == ':' && it[ind2 + lq + 1] == ' ');
    }
    assert(forall|k: int| 0 <= k < l0 ==> tail[1 + ind2 + lq + 2 + k] == sp0[k]) by {
        assert(forall|k: int| 0 <= k < l0 ==> it[ind2 + lq + 2 + k] == sp0[k]);
    }
    assert(forall|k: int| i <= k < k0 ==> is_ws(#[trigger] s[k])) by {
        assert(forall|k: int| i < k < k0 ==> s[k] == tail[1 + (k - i - 1)]);
    }
    assert(s[k0] == '"') by {
        assert(s[i + (1 + ind2)] == tail[1 + ind2 as int]);
        assert(q[0] == '"');
    }
    lemma_skip_ws_run(s, i, k0);
    assert(s[k0] != '}');
    // the key string
    let e = escape_str(key);
    assert(q =~= seq!['"'] + (e + seq!['"']));
    assert(s.subrange(k0 + 1, k0 + 1 + e.len() + 1) =~= e + seq!['"']) by {
        assert(forall|k: int|
            0 <= k < e.len() + 1 ==> #[trigger] s.subrange(k0 + 1, k0 + 1 + e.len() + 1)[k] == s[
                i + (1 + ind2 + 1 + k)]);
        assert(forall|k: int|
            0 <= k < e.len() + 1 ==> (seq!['"'] + (e + seq!['"']))[1 + k] == (e + seq!['"'])[k]);
    }
    lemma_parse_print_str_body(key, s, k0 + 1);
    let k1 = k0 + lq;
    assert(k1 == k0 + 1 + e.len() + 1);
    assert(k1 > k0 + 1);
    // the colon and the space
    assert(s[k1] == ':') by {
        assert(s[i + (1 + ind2 + lq)] == tail[1 + ind2 + lq]);
    }
    assert(skip_ws(s, k1) == k1);
    assert(s[k1 + 1] == ' ') by {
        assert(s[i + (1 + ind2 + lq + 1)] == tail[1 + ind2 + lq + 1]);
    }
    // the member value
    let v0 = k1 + 2;
    assert(s.subrange(v0, v0 + l0) =~= sp0) by {
        assert(forall|k: int|
            0 <= k < l0 ==> #[trigger] s.subrange(v0, v0 + l0)[k] == s[i + (1 + ind2 + lq + 2
                + k)]);
    }
    assert(forall|k: int| k1 + 1 <= k < v0 ==> is_ws(#[trigger] s[k]));
    lemma_parse_print_val(v, ind2, s, k1 + 1, v0);
    let end = v0 + l0;
    if members.len() == 1 {
        let close = end + 1 + indc;
        assert(close + 1 == i + l);
        assert(forall|k: int| end <= k < close ==> is_ws(#[trigger] s[k])) by {
            assert(s[i + (1 + it.len())] == tail[1 + it.len() as int]);
            assert(tail[1 + it.len() as int] == '\n');
            assert(1 + ind2 + lq + 2 + l0 == 1 + it.len());
            assert(forall|k: int|
                0 <= k < indc ==> tail[1 + it.len() + 1 + k] == spaces(indc)[k]);
            assert(forall|k: int|
                end < k < close ==> s[k] == tail[1 + it.len() + 1 + (k - end - 1)]);
        }
        assert(s[close] == '}') by {
            assert(s[i + (l - 1)] == tail[l - 1]);
            assert(tail[l - 1] == '}');
        }
        lemma_skip_ws_run(s, end, close);
        assert(members =~= seq![(key, v)]);
    } else {
        assert(s[end] == ',') by {
            assert(s[i + (1 + ind2 + lq + 2 + l0)] == tail[1 + ind2 + lq + 2 + l0]);
            assert(it[ind2 + lq + 2 + l0] == ',');
        }
        assert(skip_ws(s, end) == end);
        let tail2 = obj_tail(rest, ind2, indc);
        assert(tail =~= seq!['\n'] + (spaces(ind2) + q + seq![':', ' '] + sp0 + seq![','])
            + tail2) by {
            assert(sp_obj_members(rest, ind2).len() == tail2.len() - 3 - indc);
        }
        assert(end + 1 + tail2.len() == i + l);
        assert(s.subrange(end + 1, end + 1 + tail2.len()) =~= tail2) by {
            assert(forall|k: int|
                0 <= k < tail2.len() ==> #[trigger] s.subrange(end + 1, end + 1 + tail2.len())[k]
                    == s[i + (2 + ind2 + lq + 2 + l0 + k)]);
            assert(forall|k: int|
                0 <= k < tail2.len() ==> (seq!['\n'] + (spaces(ind2) + q + seq![':', ' '] + sp0
                    + seq![',']) + tail2)[2 + ind2 + lq + 2 + l0 + k] == tail2[k]);
        }
        assert(num_free_members(rest));
        lemma_parse_print_members(rest, ind2, indc, s, end + 1, false);
        assert(seq![(key, v)] + rest =~= members);
    }
}

/// The round trip of the text layer: the pretty-printed text of a value
/// without number literals parses back to exactly that value.
pub proof fn lemma_parse_print_text(j: JsonModel)
    requires
        num_free(j),
    ensures
        spec_parse_text(sp_val(j, 0)) == Some(j),
{
    let s = sp_val(j, 0);
    assert(s.subrange(0, s.len() as int) =~= s);
    lemma_parse_print_val(j, 0, s, 0, 0);
    lemma_skip_ws(s, s.len() as int);
}

/// Renders a value as compact text.
pub fn to_compact_string(j: &Json) -> (r: String)
    ensures
        r@ == sc_val(json_model(*j)),
{
    let mut out: Vec<char> = Vec::new();
    print_compact_value(j, &mut out);
    proof {
        assert(out@ =~= sc_val(json_model(*j)));
    }
    crate::text::chars_to_string(&out)
}

/// Renders a value as pretty-printed text.
pub fn to_pretty_string(j: &Json) -> (r: String)
    requires
        2 * jdepth(json_model(*j)) <= usize::MAX,
    ensures
        r@ == sp_val(json_model(*j), 0),
{
    let mut out: Vec<char> = Vec::new();
    print_value(j, 0, &mut out);
    proof {
        assert(out@ =~= sp_val(json_model(*j), 0));
    }
    crate::text::chars_to_string(&out)
}

} // verus!
