//! The delimited-pair codec for environment entries: an ordered pair of name
//! and value carried on the wire as a single `NAME=VALUE` string with exactly
//! one separator.

use vstd::prelude::*;

use vstd::string::StringExecFns;

use crate::errors::ParseError;
use crate::text::chars_range_to_string;
use crate::text::str_to_chars;

verus! {

/// An environment variable entry: an ordered pair of name and value.
#[derive(Debug)]
pub struct EnvVar {
    pub var_name: String,
    pub var_value: String,
}

/// The mathematical model of an entry: the two character sequences.
pub struct EnvVarModel {
    pub name: Seq<char>,
    pub value: Seq<char>,
}

impl DeepView for EnvVar {
    type V = EnvVarModel;

    open spec fn deep_view(&self) -> EnvVarModel {
        EnvVarModel { name: self.var_name@, value: self.var_value@ }
    }
}

/// The expectation string reported when a wire string is not a valid entry.
pub open spec fn spec_env_expected() -> Seq<char> {
    "invalid format for `Env` entry; should be: `VARNAME=VARVALUE`"@
}

/// How many separator characters a string contains.
pub open spec fn count_eq(s: Seq<char>) -> int
    decreases s.len(),
{
    if s.len() == 0 {
        0
    } else {
        count_eq(s.drop_last()) + if s.last() == '=' {
            1int
        } else {
            0int
        }
    }
}

/// The index of the first separator, or `-1` when there is none.
pub open spec fn first_eq(s: Seq<char>) -> int
    decreases s.len(),
{
    if s.len() == 0 {
        -1
    } else if s[0] == '=' {
        0
    } else if first_eq(s.drop_first()) < 0 {
        -1
    } else {
        first_eq(s.drop_first()) + 1
    }
}

/// The wire encoding of an entry: name, separator, value.
pub open spec fn spec_env_encode(name: Seq<char>, value: Seq<char>) -> Seq<char> {
    name + seq!['='] + value
}

/// The wire decoding of an entry: defined exactly when the string contains a
/// single separator, and then splits at it.
pub open spec fn spec_env_decode(s: Seq<char>) -> Option<EnvVarModel> {
    if count_eq(s) == 1 {
        Some(
            EnvVarModel {
                name: s.subrange(0, first_eq(s)),
                value: s.subrange(first_eq(s) + 1, s.len() as int),
            },
        )
    } else {
        None
    }
}

impl EnvVar {
    /// Encodes the entry as its wire string `NAME=VALUE`.
    pub fn encode(&self) -> (r: String)
        ensures
            r@ == spec_env_encode(self.var_name@, self.var_value@),
    {
        proof {
            reveal_strlit("=");
            assert("="@ =~= seq!['=']);
        }
        let r = self.var_name.clone().concat("=").concat(self.var_value.as_str());
        r
    }

    /// Decodes a wire string into an entry. Succeeds exactly when the string
    /// contains a single `=`; any other string is rejected with a codec error
    /// that carries the offending string and the expected format.
    pub fn decode(s: &str) -> (r: Result<EnvVar, ParseError>)
        ensures
            match r {
                Ok(e) => spec_env_decode(s@) == Some(e.deep_view()),
                Err(e) => {
                    &&& spec_env_decode(s@) is None
                    &&& e matches ParseError::CodecError { offending, expected }
                    &&& offending@ == s@
                    &&& expected@ == spec_env_expected()
                },
            },
    {
        let chars = str_to_chars(s);
        let n = chars.len();
        let mut count: usize = 0;
        let mut first: usize = 0;
        let mut i: usize = 0;
        while i < n
            invariant
                n == chars@.len(),
                chars@ == s@,
                i <= n,
                count <= i,
                count as int == count_eq(s@.subrange(0, i as int)),
                count > 0 ==> first < i && s@[first as int] == '=' && first as int == first_eq(
                    s@.subrange(0, i as int),
                ),
                count == 0 ==> first_eq(s@.subrange(0, i as int)) == -1,
            decreases n - i,
        {
            proof {
                lemma_count_eq_push(s@.subrange(0, i as int), s@[i as int]);
                lemma_first_eq_push(s@.subrange(0, i as int), s@[i as int]);
                assert(s@.subrange(0, i + 1) =~= s@.subrange(0, i as int).push(s@[i as int]));
            }
            if chars[i] == '=' {
                if count == 0 {
                    first = i;
                }
                count = count + 1;
            }
            i = i + 1;
        }
        proof {
            assert(s@.subrange(0, n as int) =~= s@);
        }
        if count == 1 {
            let name = chars_range_to_string(&chars, 0, first);
            let value = chars_range_to_string(&chars, first + 1, n);
            proof {
                assert(name@ =~= s@.subrange(0, first as int));
                assert(value@ =~= s@.subrange(first + 1, s@.len() as int));
            }
            Ok(EnvVar { var_name: name, var_value: value })
        } else {
            Err(
                ParseError::CodecError {
                    offending: String::from_str(s),
                    expected: String::from_str(
                        "invalid format for `Env` entry; should be: `VARNAME=VARVALUE`",
                    ),
                },
            )
        }
    }
}

impl EnvVar {
    /// Encodes the entry as its wire value: one string.
    pub fn to_json(&self) -> (r: crate::json::Json)
        ensures
            crate::json::json_model(r) == crate::json::JsonModel::Str(
                spec_env_encode(self.var_name@, self.var_value@),
            ),
    {
        crate::json::Json::Str(self.encode())
    }

    /// Decodes a wire value into an entry: the value must be a string and
    /// must hold a single separator.
    pub fn from_json(j: &crate::json::Json) -> (r: Result<EnvVar, ParseError>)
        ensures
            match r {
                Ok(e) => {
                    &&& crate::json::json_model(*j) matches crate::json::JsonModel::Str(s)
                    &&& spec_env_decode(s) == Some(e.deep_view())
                },
                Err(e) => match crate::json::json_model(*j) {
                    crate::json::JsonModel::Str(s) => spec_env_decode(s) is None
                        && e is CodecError,
                    _ => e is SchemaError,
                },
            },
    {
        match j {
            crate::json::Json::Str(s) => EnvVar::decode(s.as_str()),
            _ => Err(
                ParseError::SchemaError {
                    message: String::from_str("expected a string for an `Env` entry"),
                },
            ),
        }
    }

    /// Renders the entry as compact wire text: a quoted string.
    pub fn to_json_string(&self) -> (r: String)
        ensures
            r@ == crate::json::quoted(spec_env_encode(self.var_name@, self.var_value@)),
    {
        let j = self.to_json();
        crate::json::to_compact_string(&j)
    }

    /// Reads an entry from wire text.
    pub fn from_json_str(s: &str) -> (r: Result<EnvVar, ParseError>)
        ensures
            match r {
                Ok(e) => {
                    &&& crate::json::spec_parse_text(s@) matches Some(
                        crate::json::JsonModel::Str(w),
                    )
                    &&& spec_env_decode(w) == Some(e.deep_view())
                },
                Err(e) => match crate::json::spec_parse_text(s@) {
                    Some(crate::json::JsonModel::Str(w)) => spec_env_decode(w) is None
                        && e is CodecError,
                    Some(_) => e is SchemaError,
                    None => e is StructuralError,
                },
            },
    {
        match crate::json::parse_text(s) {
            Ok(j) => EnvVar::from_json(&j),
            Err(e) => Err(e),
        }
    }
}

proof fn lemma_count_eq_push(s: Seq<char>, c: char)
    ensures
        count_eq(s.push(c)) == count_eq(s) + if c == '=' {
            1int
        } else {
            0int
        },
{
    assert(s.push(c).drop_last() =~= s);
    assert(s.push(c).last() == c);
}

proof fn lemma_first_eq_push(s: Seq<char>, c: char)
    ensures
        count_eq(s) > 0 ==> first_eq(s.push(c)) == first_eq(s),
        count_eq(s) == 0 && c == '=' ==> first_eq(s.push(c)) == s.len(),
        count_eq(s) == 0 && c != '=' ==> first_eq(s.push(c)) == -1,
        count_eq(s) == 0 <==> first_eq(s) == -1,
        count_eq(s) > 0 ==> 0 <= first_eq(s) < s.len() && s[first_eq(s)] == '=',
        count_eq(s) >= 0,
    decreases s.len(),
{
    if s.len() == 0 {
        assert(s.push(c).drop_first() =~= Seq::<char>::empty());
        lemma_count_first_base();
    } else {
        lemma_first_eq_push(s.drop_first(), c);
        lemma_count_eq_first(s);
        lemma_count_eq_first(s.push(c));
        assert(s.push(c).drop_first() =~= s.drop_first().push(c));
        assert(s.push(c)[0] == s[0]);
    }
}

proof fn lemma_count_first_base()
    ensures
        count_eq(Seq::<char>::empty()) == 0,
        first_eq(Seq::<char>::empty()) == -1,
{
}

/// Counting from the front: the count splits on the first character.
proof fn lemma_count_eq_first(s: Seq<char>)
    requires
        s.len() > 0,
    ensures
        count_eq(s) == count_eq(s.drop_first()) + if s[0] == '=' {
            1int
        } else {
            0int
        },
    decreases s.len(),
{
    if s.len() == 1 {
        assert(s.drop_last() =~= Seq::<char>::empty());
        assert(s.drop_first() =~= Seq::<char>::empty());
    } else {
        lemma_count_eq_first(s.drop_last());
        assert(s.drop_last().drop_first() =~= s.drop_first().drop_last());
        assert(s.drop_last()[0] == s[0]);
        assert(s.drop_first().last() == s.last());
    }
}

/// A separator-carrying string has a positive count.
proof fn lemma_count_eq_pos(s: Seq<char>)
    requires
        s.contains('='),
    ensures
        count_eq(s) >= 1,
    decreases s.len(),
{
    let i = choose|i: int| 0 <= i < s.len() && s[i] == '=';
    if i < s.len() - 1 {
        assert(s.drop_last()[i] == '=');
        assert(s.drop_last().contains('='));
        lemma_count_eq_pos(s.drop_last());
        lemma_first_eq_push(s.drop_last(), s.last());
    } else {
        lemma_first_eq_push(s.drop_last(), s.last());
    }
}

/// No separator stands before the first one.
proof fn lemma_first_eq_min(s: Seq<char>)
    requires
        count_eq(s) > 0,
    ensures
        0 <= first_eq(s) < s.len(),
        s[first_eq(s)] == '=',
        forall|i: int| 0 <= i < first_eq(s) ==> s[i] != '=',
    decreases s.len(),
{
    lemma_first_eq_push(s.drop_last(), s.last());
    if s.len() > 0 && s[0] != '=' {
        assert(count_eq(s.drop_first()) > 0) by {
            lemma_count_eq_first(s);
        }
        lemma_first_eq_min(s.drop_first());
        assert forall|i: int| 0 <= i < first_eq(s) implies s[i] != '=' by {
            if i >= 1 {
                assert(s.drop_first()[i - 1] == s[i]);
                assert(s.drop_first()[i - 1] != '=');
            }
        }
    }
}

/// What a successful decode hands back: a name and a value that are both
/// free of the separator.
pub proof fn lemma_env_decode_parts(s: Seq<char>)
    ensures
        spec_env_decode(s) matches Some(m) ==> !m.name.contains('=') && !m.value.contains('='),
{
    if count_eq(s) == 1 {
        let k = first_eq(s);
        lemma_first_eq_min(s);
        let m = spec_env_decode(s)->Some_0;
        assert(!m.name.contains('=')) by {
            if m.name.contains('=') {
                let i = choose|i: int| 0 <= i < m.name.len() && m.name[i] == '=';
                assert(s[i] == '=');
            }
        }
        assert(!m.value.contains('=')) by {
            if m.value.contains('=') {
                lemma_count_eq_pos(m.value);
                let head = s.subrange(0, k + 1);
                assert(s =~= head + m.value);
                lemma_count_eq_append(head, m.value);
                assert(head.drop_last() =~= s.subrange(0, k));
                assert(head.last() == s[k]);
                assert(count_eq(head) == count_eq(s.subrange(0, k)) + 1);
                assert(count_eq(s.subrange(0, k)) >= 0) by {
                    lemma_first_eq_push(s.subrange(0, k).drop_last(), '=');
                    lemma_count_nonneg(s.subrange(0, k));
                }
            }
        }
    }
}

proof fn lemma_count_nonneg(s: Seq<char>)
    ensures
        count_eq(s) >= 0,
    decreases s.len(),
{
    if s.len() > 0 {
        lemma_count_nonneg(s.drop_last());
    }
}

/// An entry whose name and value are both free of the separator character
/// round-trips exactly through encode and decode.
pub proof fn lemma_env_round_trip(name: Seq<char>, value: Seq<char>)
    requires
        !name.contains('='),
        !value.contains('='),
    ensures
        spec_env_decode(spec_env_encode(name, value)) == Some(
            EnvVarModel { name: name, value: value },
        ),
{
    let w = spec_env_encode(name, value);
    lemma_count_eq_no_sep(name);
    lemma_count_eq_no_sep(value);
    lemma_count_eq_append(name + seq!['='], value);
    lemma_count_eq_append(name, seq!['=']);
    assert((name + seq!['=']).drop_last() =~= name);
    assert(count_eq(w) == 1);
    lemma_first_eq_prefix(name, seq!['='] + value);
    assert(name + (seq!['='] + value) =~= w);
    assert((seq!['='] + value)[0] == '=');
    assert(first_eq(w) == name.len());
    assert(w.subrange(0, name.len() as int) =~= name);
    assert(w.subrange(name.len() as int + 1, w.len() as int) =~= value);
}

/// A string without the separator counts zero separators.
proof fn lemma_count_eq_no_sep(s: Seq<char>)
    requires
        !s.contains('='),
    ensures
        count_eq(s) == 0,
    decreases s.len(),
{
    if s.len() > 0 {
        assert(!s.drop_last().contains('=')) by {
            if s.drop_last().contains('=') {
                let i = choose|i: int| 0 <= i < s.drop_last().len() && s.drop_last()[i] == '=';
                assert(s[i] == '=');
            }
        }
        lemma_count_eq_no_sep(s.drop_last());
        assert(s.contains(s.last())) by {
            assert(s[s.len() - 1] == s.last());
        }
    }
}

/// The separator count of a concatenation is the sum of the parts' counts.
proof fn lemma_count_eq_append(s: Seq<char>, t: Seq<char>)
    ensures
        count_eq(s + t) == count_eq(s) + count_eq(t),
    decreases t.len(),
{
    if t.len() == 0 {
        assert(s + t =~= s);
    } else {
        lemma_count_eq_append(s, t.drop_last());
        assert((s + t).drop_last() =~= s + t.drop_last());
        assert((s + t).last() == t.last());
    }
}

/// The first separator of `s + t` sits at `s.len()` plus the offset of the
/// first separator of `t`, when `s` itself has none.
proof fn lemma_first_eq_prefix(s: Seq<char>, t: Seq<char>)
    requires
        !s.contains('='),
        t.len() > 0,
        t[0] == '=',
    ensures
        first_eq(s + t) == s.len(),
    decreases s.len(),
{
    if s.len() == 0 {
        assert(s + t =~= t);
    } else {
        assert(!s.drop_first().contains('=')) by {
            if s.drop_first().contains('=') {
                let i = choose|i: int|
                    0 <= i < s.drop_first().len() && s.drop_first()[i] == '=';
                assert(s[i + 1] == '=');
            }
        }
        lemma_first_eq_prefix(s.drop_first(), t);
        assert((s + t).drop_first() =~= s.drop_first() + t);
        assert((s + t)[0] == s[0]);
        assert(s.contains(s[0]));
    }
}

} // verus!
