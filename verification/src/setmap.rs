//! The set-as-map codec: a set of typed tokens carried on the wire as an
//! object whose keys are the tokens' string forms and whose values are inert
//! empty objects. The codec is written once, over a token trait that
//! supplies the string grammar; exposed ports and volumes instantiate it.

use vstd::prelude::*;

use crate::errors::ParseError;
use crate::json::Json;
use crate::json::JsonModel;
use crate::json::json_model;
use crate::json::json_model_members;
use crate::json::lemma_json_model_members;

verus! {

/// A token of a set-as-map collection: it renders to its key string and is
/// parsed back from one, and parsing a rendered key gives the token back.
pub trait SetMapToken: DeepView + Sized {
    /// A valid token value.
    spec fn wf_model(m: Self::V) -> bool;

    /// The canonical key string of a token value.
    spec fn spec_key(m: Self::V) -> Seq<char>;

    /// The token value a key string parses to.
    spec fn spec_parse(key: Seq<char>) -> Option<Self::V>;

    /// Parsing never invents an invalid token.
    proof fn parse_wf(key: Seq<char>)
        ensures
            match Self::spec_parse(key) {
                Some(m) => Self::wf_model(m),
                None => true,
            },
    ;

    /// Parsing the canonical key of a valid token gives the token back.
    proof fn key_round_trip(m: Self::V)
        requires
            Self::wf_model(m),
        ensures
            Self::spec_parse(Self::spec_key(m)) == Some(m),
    ;

    /// Renders the canonical key string.
    fn render_key(&self) -> (r: String)
        requires
            Self::wf_model((*self).deep_view()),
        ensures
            r@ == Self::spec_key((*self).deep_view()),
    ;

    /// Parses a key string; a malformed key is rejected with a codec error.
    fn parse_key(key: &str) -> (r: Result<Self, ParseError>)
        ensures
            match r {
                Ok(t) => Self::spec_parse(key@) == Some(t.deep_view()),
                Err(e) => Self::spec_parse(key@) is None && e is CodecError,
            },
    ;

    /// Decides equality of token values.
    fn same(&self, other: &Self) -> (r: bool)
        ensures
            r == ((*self).deep_view() == (*other).deep_view()),
    ;
}

/// The wire object of a token sequence: each token's key mapped to an empty
/// object marker, in sequence order.
pub open spec fn spec_set_map_obj<T: SetMapToken>(models: Seq<T::V>) -> JsonModel {
    JsonModel::Obj(
        Seq::new(models.len(), |i: int| (T::spec_key(models[i]), JsonModel::Obj(Seq::empty()))),
    )
}

/// The token values of the keys of a member sequence, in order and with
/// duplicates kept, or `None` when any key is malformed.
pub open spec fn spec_parse_keys<T: SetMapToken>(members: Seq<(Seq<char>, JsonModel)>) -> Option<
    Seq<T::V>,
>
    decreases members.len(),
{
    if members.len() == 0 {
        Some(Seq::empty())
    } else {
        match spec_parse_keys::<T>(members.drop_last()) {
            Some(prefix) => match T::spec_parse(members.last().0) {
                Some(m) => Some(prefix.push(m)),
                None => None,
            },
            None => None,
        }
    }
}

/// Collapses duplicates, keeping each value at its first occurrence.
pub open spec fn dedup_first<A>(s: Seq<A>) -> Seq<A>
    decreases s.len(),
{
    if s.len() == 0 {
        Seq::empty()
    } else if s.drop_last().contains(s.last()) {
        dedup_first(s.drop_last())
    } else {
        dedup_first(s.drop_last()).push(s.last())
    }
}

/// Membership across removing the last element.
proof fn lemma_contains_split<A>(s: Seq<A>, x: A)
    requires
        s.len() > 0,
    ensures
        s.contains(x) == (s.drop_last().contains(x) || s.last() == x),
{
    if s.contains(x) {
        let i = choose|i: int| 0 <= i < s.len() && s[i] == x;
        if i < s.len() - 1 {
            assert(s.drop_last()[i] == x);
        }
    }
    if s.drop_last().contains(x) {
        let i = choose|i: int| 0 <= i < s.drop_last().len() && s.drop_last()[i] == x;
        assert(s[i] == x);
    }
    if s.last() == x {
        assert(s[s.len() - 1] == x);
    }
}

/// Collapsing keeps membership.
pub proof fn lemma_dedup_contains<A>(s: Seq<A>, x: A)
    ensures
        dedup_first(s).contains(x) == s.contains(x),
    decreases s.len(),
{
    if s.len() > 0 {
        lemma_dedup_contains(s.drop_last(), x);
        lemma_contains_split(s, x);
        let dp = dedup_first(s.drop_last());
        if !s.drop_last().contains(s.last()) {
            lemma_contains_split(dp.push(s.last()), x);
            assert(dp.push(s.last()).drop_last() =~= dp);
            assert(dp.push(s.last()).last() == s.last());
        }
    }
}

/// Collapsing leaves no duplicates.
pub proof fn lemma_dedup_distinct<A>(s: Seq<A>)
    ensures
        forall|i: int, j: int|
            0 <= i < j < dedup_first(s).len() ==> dedup_first(s)[i] != dedup_first(s)[j],
    decreases s.len(),
{
    if s.len() > 0 {
        lemma_dedup_distinct(s.drop_last());
        let dp = dedup_first(s.drop_last());
        if !s.drop_last().contains(s.last()) {
            let d = dp.push(s.last());
            assert forall|i: int, j: int| 0 <= i < j < d.len() implies d[i] != d[j] by {
                if j < d.len() - 1 {
                    assert(d[i] == dp[i] && d[j] == dp[j]);
                } else {
                    assert(d[j] == s.last());
                    assert(d[i] == dp[i]);
                    if dp[i] == s.last() {
                        assert(dp.contains(s.last()));
                        lemma_dedup_contains(s.drop_last(), s.last());
                    }
                }
            }
        }
    }
}

/// A sequence without duplicates collapses to itself.
pub proof fn lemma_dedup_first_distinct<A>(s: Seq<A>)
    requires
        forall|i: int, j: int| 0 <= i < j < s.len() ==> s[i] != s[j],
    ensures
        dedup_first(s) == s,
    decreases s.len(),
{
    if s.len() > 0 {
        assert(!s.drop_last().contains(s.last())) by {
            if s.drop_last().contains(s.last()) {
                let i = choose|i: int| 0 <= i < s.len() - 1 && s.drop_last()[i] == s.last();
                assert(s[i] == s[s.len() - 1]);
            }
        }
        lemma_dedup_first_distinct(s.drop_last());
        assert(dedup_first(s) =~= s);
    }
}

/// The token set a wire value decodes to: `None` unless the value is an
/// object whose every key parses, and then the parsed tokens with duplicates
/// collapsed to their first occurrence. The member values are ignored.
pub open spec fn spec_set_map_decode<T: SetMapToken>(m: JsonModel) -> Option<Seq<T::V>> {
    match m {
        JsonModel::Obj(members) => match spec_parse_keys::<T>(members) {
            Some(models) => Some(dedup_first(models)),
            None => None,
        },
        _ => None,
    }
}

/// Encodes a token sequence as its wire object.
pub fn set_map_encode<T: SetMapToken>(items: &Vec<T>) -> (r: Json)
    requires
        forall|i: int| 0 <= i < items@.len() ==> T::wf_model(#[trigger] items@[i].deep_view()),
    ensures
        json_model(r) == spec_set_map_obj::<T>(items.deep_view()),
{
    let ghost models = items.deep_view();
    let mut members: Vec<(String, Json)> = Vec::new();
    let mut i: usize = 0;
    while i < items.len()
        invariant
            i <= items@.len(),
            models == items.deep_view(),
            models.len() == items@.len(),
            forall|k: int| 0 <= k < items@.len() ==> T::wf_model(#[trigger] items@[k].deep_view()),
            forall|k: int| 0 <= k < items@.len() ==> models[k] == #[trigger] items@[k].deep_view(),
            members@.len() == i,
            forall|k: int|
                0 <= k < i ==> #[trigger] members@[k].0@ == T::spec_key(models[k])
                    && json_model(members@[k].1) == JsonModel::Obj(Seq::empty()),
        decreases items@.len() - i,
    {
        let key = items[i].render_key();
        let empty: Vec<(String, Json)> = Vec::new();
        members.push((key, Json::Obj(empty)));
        i = i + 1;
    }
    let r = Json::Obj(members);
    proof {
        lemma_json_model_members(members@);
        assert(json_model_members(members@) =~~= Seq::new(
            models.len(),
            |i: int| (T::spec_key(models[i]), JsonModel::Obj(Seq::empty())),
        ));
    }
    r
}

/// Decodes a wire value into its token set. A value that is not an object
/// is rejected with a schema error; a malformed key is rejected with that
/// key's codec error; duplicate tokens collapse silently.
#[verifier::rlimit(50)]
#[verifier::spinoff_prover]
pub fn set_map_decode<T: SetMapToken>(j: &Json, what: &str) -> (r: Result<Vec<T>, ParseError>)
    ensures
        match r {
            Ok(items) => {
                &&& spec_set_map_decode::<T>(json_model(*j)) == Some(items.deep_view())
                &&& forall|i: int|
                    0 <= i < items@.len() ==> T::wf_model(#[trigger] items@[i].deep_view())
                &&& forall|i: int, k: int|
                    0 <= i < k < items@.len() ==> items@[i].deep_view() != items@[k].deep_view()
            },
            Err(e) => spec_set_map_decode::<T>(json_model(*j)) is None && (match json_model(
                *j,
            ) {
                JsonModel::Obj(_) => e is CodecError,
                _ => e is SchemaError,
            }),
        },
{
    match j {
        Json::Obj(members) => {
            let ghost ms = json_model_members(members@);
            proof {
                lemma_json_model_members(members@);
            }
            let mut out: Vec<T> = Vec::new();
            let ghost raw: Seq<T::V> = Seq::empty();
            let mut i: usize = 0;
            while i < members.len()
                invariant
                    i <= members@.len(),
                    ms == json_model_members(members@),
                    json_model(*j) == JsonModel::Obj(ms),
                    ms.len() == members@.len(),
                    forall|k: int|
                        0 <= k < members@.len() ==> #[trigger] ms[k] == (
                            members@[k].0@,
                            json_model(members@[k].1),
                        ),
                    spec_parse_keys::<T>(ms.take(i as int)) == Some(raw),
                    out.deep_view() == dedup_first(raw),
                    forall|k: int| 0 <= k < raw.len() ==> T::wf_model(#[trigger] raw[k]),
                    forall|k: int|
                        0 <= k < out@.len() ==> T::wf_model(#[trigger] out@[k].deep_view()),
                decreases members@.len() - i,
            {
                proof {
                    assert(ms.take(i + 1).drop_last() =~= ms.take(i as int));
                    assert(ms.take(i + 1).last() == ms[i as int]);
                }
                match T::parse_key(members[i].0.as_str()) {
                    Ok(t) => {
                        proof {
                            T::parse_wf(members@[i as int].0@);
                        }
                        let ghost m = t.deep_view();
                        let mut found = false;
                        let mut k: usize = 0;
                        while k < out.len()
                            invariant
                                m == t.deep_view(),
                                k <= out@.len(),
                                out.deep_view().len() == out@.len(),
                                forall|q: int|
                                    0 <= q < out@.len() ==> #[trigger] out.deep_view()[q]
                                        == out@[q].deep_view(),
                                found == exists|q: int|
                                    0 <= q < k && #[trigger] out@[q].deep_view() == m,
                            decreases out@.len() - k,
                        {
                            let eq = out[k].same(&t);
                            if eq {
                                found = true;
                                proof {
                                    assert(out@[k as int].deep_view() == m);
                                }
                            }
                            k = k + 1;
                        }
                        proof {
                            lemma_dedup_contains(raw, m);
                            assert(found == raw.contains(m)) by {
                                if found {
                                    let q = choose|q: int|
                                        0 <= q < out@.len() && #[trigger] out@[q].deep_view()
                                            == m;
                                    assert(dedup_first(raw)[q] == m);
                                    assert(dedup_first(raw).contains(m));
                                } else {
                                    if raw.contains(m) {
                                        assert(dedup_first(raw).contains(m));
                                        let q = choose|q: int|
                                            0 <= q < dedup_first(raw).len() && dedup_first(
                                                raw,
                                            )[q] == m;
                                        assert(out@[q].deep_view() == m);
                                    }
                                }
                            }
                            assert(raw.push(m).drop_last() =~= raw);
                        }
                        if !found {
                            out.push(t);
                            proof {
                                assert(out.deep_view() =~= dedup_first(raw).push(m));
                            }
                        }
                        proof {
                            raw = raw.push(m);
                        }
                    },
                    Err(e) => {
                        proof {
                            assert(spec_parse_keys::<T>(ms.take(i + 1)) is None);
                            lemma_parse_keys_extend_none::<T>(ms, i + 1);
                            assert(ms.take(ms.len() as int) =~= ms);
                        }
                        return Err(e);
                    },
                }
                i = i + 1;
            }
            proof {
                assert(ms.take(ms.len() as int) =~= ms);
                lemma_dedup_distinct(raw);
                assert forall|a: int, b: int|
                    0 <= a < b < out@.len() implies #[trigger] out@[a].deep_view()
                    != #[trigger] out@[b].deep_view() by {
                    assert(out.deep_view()[a] == out@[a].deep_view());
                    assert(out.deep_view()[b] == out@[b].deep_view());
                    assert(dedup_first(raw)[a] != dedup_first(raw)[b]);
                }
            }
            Ok(out)
        },
        _ => {
            let mut msg = String::from_str("expected an object for ");
            msg.append(what);
            Err(ParseError::SchemaError { message: msg })
        },
    }
}

/// Once a key has failed, every longer prefix fails too.
proof fn lemma_parse_keys_extend_none<T: SetMapToken>(ms: Seq<(Seq<char>, JsonModel)>, i: int)
    requires
        0 <= i <= ms.len(),
        spec_parse_keys::<T>(ms.take(i)) is None,
    ensures
        spec_parse_keys::<T>(ms.take(ms.len() as int)) is None,
    decreases ms.len() - i,
{
    if i < ms.len() {
        assert(ms.take(i + 1).drop_last() =~= ms.take(i));
        lemma_parse_keys_extend_none::<T>(ms, i + 1);
    }
}

/// The round trip of the codec: a sequence of valid, pairwise distinct
/// tokens decodes from its own wire object exactly, order preserved.
pub proof fn lemma_set_map_round_trip<T: SetMapToken>(models: Seq<T::V>)
    requires
        forall|i: int| 0 <= i < models.len() ==> T::wf_model(#[trigger] models[i]),
        forall|i: int, j: int| 0 <= i < j < models.len() ==> models[i] != models[j],
    ensures
        spec_set_map_decode::<T>(spec_set_map_obj::<T>(models)) == Some(models),
{
    let members = Seq::new(
        models.len(),
        |i: int| (T::spec_key(models[i]), JsonModel::Obj(Seq::<(Seq<char>, JsonModel)>::empty())),
    );
    lemma_parse_keys_of_keys::<T>(models, members);
    lemma_dedup_first_distinct(models);
}

/// Parsing back the rendered keys gives the token sequence itself.
proof fn lemma_parse_keys_of_keys<T: SetMapToken>(
    models: Seq<T::V>,
    members: Seq<(Seq<char>, JsonModel)>,
)
    requires
        forall|i: int| 0 <= i < models.len() ==> T::wf_model(#[trigger] models[i]),
        members.len() == models.len(),
        forall|i: int|
            0 <= i < members.len() ==> (#[trigger] members[i]).0 == T::spec_key(models[i]),
    ensures
        spec_parse_keys::<T>(members) == Some(models),
    decreases members.len(),
{
    if members.len() == 0 {
        assert(spec_parse_keys::<T>(members) == Some(Seq::<T::V>::empty()));
        assert(models =~= Seq::<T::V>::empty());
    } else {
        assert(forall|i: int|
            0 <= i < members.len() - 1 ==> #[trigger] members.drop_last()[i] == members[i]);
        lemma_parse_keys_of_keys::<T>(models.drop_last(), members.drop_last());
        T::key_round_trip(models.last());
        assert(members.last().0 == T::spec_key(models.last()));
        assert(models.drop_last().push(models.last()) =~= models);
    }
}

} // verus!
