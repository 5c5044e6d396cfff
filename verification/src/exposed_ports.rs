//! The port tokens of the exposed-ports collection and their key grammar: a
//! key is either `<integer>` or `<integer>/<protocol>` with protocol `tcp` or
//! `udp`, and the integer must be a positive number. An unrecognized
//! protocol suffix is rejected outright — deliberately, rather than being
//! dropped in silence — so no malformed key ever vanishes from a document.

use vstd::prelude::*;
use vstd::string::StringExecFns;

use crate::errors::ParseError;
use crate::text::all_digits;
use crate::text::chars_to_string;
use crate::text::dec_chars_to_u64;
use crate::text::dec_str;
use crate::text::dec_val;
use crate::text::is_digit;
use crate::text::lemma_dec_str_val;
use crate::text::str_to_chars;
use crate::text::u64_to_dec_chars;

verus! {

/// The transport protocol tag of a port token.
#[derive(Clone, Copy, Debug, PartialEq, Eq, Structural)]
pub enum PortProtocol {
    TCP,
    UDP,
}

/// One exposed-port token: a positive port number and an optional protocol.
#[derive(Clone, Copy, Debug, PartialEq, Eq, Structural)]
pub struct Port {
    pub number: u64,
    pub protocol: Option<PortProtocol>,
}

impl DeepView for Port {
    type V = Port;

    open spec fn deep_view(&self) -> Port {
        *self
    }
}

/// A valid token carries a positive port number.
pub open spec fn port_wf(p: Port) -> bool {
    p.number >= 1
}

/// The index of the first `/`, or `-1` when there is none.
pub open spec fn first_slash(s: Seq<char>) -> int
    decreases s.len(),
{
    if s.len() == 0 {
        -1
    } else if s[0] == '/' {
        0
    } else if first_slash(s.drop_first()) < 0 {
        -1
    } else {
        first_slash(s.drop_first()) + 1
    }
}

/// The integer component of a key: everything before the first `/`, or the
/// whole key when there is no `/`.
pub open spec fn port_key_int_part(s: Seq<char>) -> Seq<char> {
    if first_slash(s) < 0 {
        s
    } else {
        s.subrange(0, first_slash(s))
    }
}

/// The protocol component of a key: everything after the first `/`.
pub open spec fn port_key_proto_part(s: Seq<char>) -> Seq<char> {
    s.subrange(first_slash(s) + 1, s.len() as int)
}

/// A valid integer component: a non-empty digit string whose value is
/// positive and fits the port number type.
pub open spec fn port_num_ok(t: Seq<char>) -> bool {
    t.len() >= 1 && all_digits(t) && 1 <= dec_val(t) <= u64::MAX
}

pub open spec fn tcp_chars() -> Seq<char> {
    seq!['t', 'c', 'p']
}

pub open spec fn udp_chars() -> Seq<char> {
    seq!['u', 'd', 'p']
}

/// The protocol named by a key's protocol component, when recognized.
pub open spec fn spec_proto_decode(t: Seq<char>) -> Option<PortProtocol> {
    if t == tcp_chars() {
        Some(PortProtocol::TCP)
    } else if t == udp_chars() {
        Some(PortProtocol::UDP)
    } else {
        None
    }
}

/// The token a key decodes to, or `None` when the key is malformed.
pub open spec fn spec_port_key_decode(s: Seq<char>) -> Option<Port> {
    if !port_num_ok(port_key_int_part(s)) {
        None
    } else if first_slash(s) < 0 {
        Some(Port { number: dec_val(port_key_int_part(s)) as u64, protocol: None })
    } else if spec_proto_decode(port_key_proto_part(s)) is Some {
        Some(
            Port {
                number: dec_val(port_key_int_part(s)) as u64,
                protocol: spec_proto_decode(port_key_proto_part(s)),
            },
        )
    } else {
        None
    }
}

/// The canonical key of a token: minimal decimal digits, then the protocol
/// suffix when one is present.
pub open spec fn spec_port_key_encode(p: Port) -> Seq<char> {
    match p.protocol {
        None => dec_str(p.number as int),
        Some(PortProtocol::TCP) => dec_str(p.number as int) + seq!['/'] + tcp_chars(),
        Some(PortProtocol::UDP) => dec_str(p.number as int) + seq!['/'] + udp_chars(),
    }
}

pub open spec fn spec_port_num_expected() -> Seq<char> {
    "a positive port number"@
}

pub open spec fn spec_port_proto_expected() -> Seq<char> {
    "a protocol of `tcp` or `udp`"@
}

impl Port {
    /// Encodes the token as its canonical key string.
    pub fn encode(&self) -> (r: String)
        ensures
            r@ == spec_port_key_encode(*self),
    {
        let mut v = u64_to_dec_chars(self.number);
        match self.protocol {
            None => {},
            Some(PortProtocol::TCP) => {
                v.push('/');
                v.push('t');
                v.push('c');
                v.push('p');
                proof {
                    assert(v@ =~= dec_str(self.number as int) + seq!['/'] + tcp_chars());
                }
            },
            Some(PortProtocol::UDP) => {
                v.push('/');
                v.push('u');
                v.push('d');
                v.push('p');
                proof {
                    assert(v@ =~= dec_str(self.number as int) + seq!['/'] + udp_chars());
                }
            },
        }
        chars_to_string(&v)
    }

    /// Decodes a key string into a token. A malformed integer component is
    /// rejected with a codec error carrying that component; an unrecognized
    /// protocol suffix is rejected with a codec error carrying that suffix.
    pub fn decode(s: &str) -> (r: Result<Port, ParseError>)
        ensures
            match r {
                Ok(p) => spec_port_key_decode(s@) == Some(p),
                Err(e) => {
                    &&& spec_port_key_decode(s@) is None
                    &&& e matches ParseError::CodecError { offending, expected }
                    &&& if port_num_ok(port_key_int_part(s@)) {
                        offending@ == port_key_proto_part(s@) && expected@
                            == spec_port_proto_expected()
                    } else {
                        offending@ == port_key_int_part(s@) && expected@
                            == spec_port_num_expected()
                    }
                },
            },
    {
        let chars = str_to_chars(s);
        let n = chars.len();
        // find the first slash
        let mut slash: usize = n;
        let mut i: usize = 0;
        while i < n
            invariant
                n == chars@.len(),
                chars@ == s@,
                i <= n,
                slash <= n,
                slash == n ==> first_slash(s@.subrange(0, i as int)) == -1,
                slash < n ==> slash < i && s@[slash as int] == '/' && slash as int == first_slash(
                    s@.subrange(0, i as int),
                ),
            decreases n - i,
        {
            proof {
                lemma_first_slash_push(s@.subrange(0, i as int), s@[i as int]);
                assert(s@.subrange(0, i + 1) =~= s@.subrange(0, i as int).push(s@[i as int]));
            }
            if chars[i] == '/' {
                if slash == n {
                    slash = i;
                }
            }
            i = i + 1;
        }
        proof {
            assert(s@.subrange(0, n as int) =~= s@);
            if slash < n {
                assert(first_slash(s@) == slash as int);
            } else {
                assert(first_slash(s@) == -1);
            }
        }
        let int_end: usize = if slash < n {
            slash
        } else {
            n
        };
        proof {
            assert(s@.subrange(0, int_end as int) =~= port_key_int_part(s@));
        }
        // validate the integer component
        let mut ok = int_end > 0;
        let mut j: usize = 0;
        while j < int_end
            invariant
                n == chars@.len(),
                chars@ == s@,
                int_end <= n,
                j <= int_end,
                ok == (int_end > 0 && forall|k: int| 0 <= k < j ==> is_digit(s@[k])),
            decreases int_end - j,
        {
            let c = chars[j];
            if !(c >= '0' && c <= '9') {
                ok = false;
            }
            j = j + 1;
        }
        let mut number: u64 = 0;
        if ok {
            proof {
                assert(all_digits(s@.subrange(0, int_end as int))) by {
                    assert(forall|k: int|
                        0 <= k < int_end ==> s@.subrange(0, int_end as int)[k] == s@[k]);
                }
            }
            match dec_chars_to_u64(&chars, 0, int_end) {
                Some(x) => {
                    if x == 0 {
                        ok = false;
                    } else {
                        number = x;
                    }
                },
                None => {
                    ok = false;
                },
            }
        }
        if !ok {
            proof {
                assert(!port_num_ok(port_key_int_part(s@))) by {
                    let t = port_key_int_part(s@);
                    if int_end > 0 && exists|k: int| 0 <= k < int_end && !is_digit(s@[k]) {
                        let k = choose|k: int| 0 <= k < int_end && !is_digit(s@[k]);
                        assert(t[k] == s@[k]);
                    }
                }
            }
            return Err(
                ParseError::CodecError {
                    offending: crate::text::chars_range_to_string(&chars, 0, int_end),
                    expected: String::from_str("a positive port number"),
                },
            );
        }
        if slash == n {
            proof {
                let t = port_key_int_part(s@);
                assert(t.len() >= 1);
                assert(all_digits(t));
                assert(1 <= dec_val(t) <= u64::MAX);
                assert(number as int == dec_val(t));
            }
            return Ok(Port { number, protocol: None });
        }
        // validate the protocol component
        let plen = n - slash - 1;
        proof {
            assert(port_key_proto_part(s@) =~= s@.subrange(slash + 1, n as int));
        }
        if plen == 3 {
            let c0 = chars[slash + 1];
            let c1 = chars[slash + 2];
            let c2 = chars[slash + 3];
            proof {
                assert(port_key_proto_part(s@)[0] == s@[slash + 1]);
                assert(port_key_proto_part(s@)[1] == s@[slash + 2]);
                assert(port_key_proto_part(s@)[2] == s@[slash + 3]);
            }
            if c0 == 't' && c1 == 'c' && c2 == 'p' {
                proof {
                    assert(port_key_proto_part(s@) =~= tcp_chars());
                }
                return Ok(Port { number, protocol: Some(PortProtocol::TCP) });
            }
            if c0 == 'u' && c1 == 'd' && c2 == 'p' {
                proof {
                    assert(port_key_proto_part(s@) =~= udp_chars());
                }
                return Ok(Port { number, protocol: Some(PortProtocol::UDP) });
            }
        }
        proof {
            assert(port_key_proto_part(s@) != tcp_chars() && port_key_proto_part(s@)
                != udp_chars()) by {
                let t = port_key_proto_part(s@);
                if t.len() == 3 {
                    assert(t[0] == s@[slash + 1]);
                    assert(t[1] == s@[slash + 2]);
                    assert(t[2] == s@[slash + 3]);
                }
            }
        }
        Err(
            ParseError::CodecError {
                offending: crate::text::chars_range_to_string(&chars, slash + 1, n),
                expected: String::from_str("a protocol of `tcp` or `udp`"),
            },
        )
    }
}

proof fn lemma_first_slash_push(s: Seq<char>, c: char)
    ensures
        first_slash(s) >= 0 ==> first_slash(s.push(c)) == first_slash(s),
        first_slash(s) < 0 && c == '/' ==> first_slash(s.push(c)) == s.len(),
        first_slash(s) < 0 && c != '/' ==> first_slash(s.push(c)) < 0,
        first_slash(s) >= 0 ==> first_slash(s) < s.len() && s[first_slash(s)] == '/',
    decreases s.len(),
{
    if s.len() == 0 {
        assert(s.push(c).drop_first() =~= Seq::<char>::empty());
        assert(s.push(c)[0] == c);
        assert(first_slash(Seq::<char>::empty()) == -1);
    } else {
        lemma_first_slash_push(s.drop_first(), c);
        assert(s.push(c).drop_first() =~= s.drop_first().push(c));
        assert(s.push(c)[0] == s[0]);
    }
}

/// No character of a digit string is a slash, so the first slash of a key
/// built from digits sits exactly at the end of the digits.
proof fn lemma_first_slash_prefix(s: Seq<char>, t: Seq<char>)
    requires
        all_digits(s),
        t.len() > 0,
        t[0] == '/',
    ensures
        first_slash(s + t) == s.len(),
    decreases s.len(),
{
    if s.len() == 0 {
        assert(s + t =~= t);
    } else {
        assert(all_digits(s.drop_first())) by {
            assert(forall|k: int|
                0 <= k < s.drop_first().len() ==> s.drop_first()[k] == s[k + 1]);
        }
        lemma_first_slash_prefix(s.drop_first(), t);
        assert((s + t).drop_first() =~= s.drop_first() + t);
        assert((s + t)[0] == s[0]);
        assert(is_digit(s[0]));
    }
}

proof fn lemma_first_slash_none(s: Seq<char>)
    requires
        all_digits(s),
    ensures
        first_slash(s) < 0,
    decreases s.len(),
{
    if s.len() > 0 {
        assert(all_digits(s.drop_first())) by {
            assert(forall|k: int|
                0 <= k < s.drop_first().len() ==> s.drop_first()[k] == s[k + 1]);
        }
        lemma_first_slash_none(s.drop_first());
        assert(is_digit(s[0]));
    }
}

impl crate::setmap::SetMapToken for Port {
    open spec fn wf_model(m: Port) -> bool {
        port_wf(m)
    }

    open spec fn spec_key(m: Port) -> Seq<char> {
        spec_port_key_encode(m)
    }

    open spec fn spec_parse(key: Seq<char>) -> Option<Port> {
        spec_port_key_decode(key)
    }

    proof fn parse_wf(key: Seq<char>) {
        if port_num_ok(port_key_int_part(key)) {
            crate::text::lemma_dec_val_nonneg(port_key_int_part(key));
        }
    }

    proof fn key_round_trip(m: Port) {
        lemma_port_key_round_trip(m);
    }

    fn render_key(&self) -> (r: String) {
        self.encode()
    }

    fn parse_key(key: &str) -> (r: Result<Port, ParseError>) {
        Port::decode(key)
    }

    fn same(&self, other: &Self) -> (r: bool) {
        self.number == other.number && (match (self.protocol, other.protocol) {
            (None, None) => true,
            (Some(PortProtocol::TCP), Some(PortProtocol::TCP)) => true,
            (Some(PortProtocol::UDP), Some(PortProtocol::UDP)) => true,
            _ => false,
        })
    }
}

/// The exposed-ports collection: a set of port tokens, kept in insertion
/// order. The encoder emits keys in this stored order, deterministically.
#[derive(Debug)]
pub struct ExposedPorts {
    pub ports: Vec<Port>,
}

impl DeepView for ExposedPorts {
    type V = Seq<Port>;

    open spec fn deep_view(&self) -> Seq<Port> {
        self.ports.deep_view()
    }
}

/// A well-formed collection: every token valid, no token twice.
pub open spec fn exposed_ports_wf(ep: ExposedPorts) -> bool {
    &&& forall|i: int| 0 <= i < ep.ports@.len() ==> port_wf(#[trigger] ep.ports@[i])
    &&& forall|i: int, j: int| 0 <= i < j < ep.ports@.len() ==> ep.ports@[i] != ep.ports@[j]
}

impl ExposedPorts {
    /// Encodes the collection as its wire object: each token's key mapped to
    /// an empty object.
    pub fn to_json(&self) -> (r: crate::json::Json)
        requires
            exposed_ports_wf(*self),
        ensures
            crate::json::json_model(r) == crate::setmap::spec_set_map_obj::<Port>(
                self.deep_view(),
            ),
    {
        proof {
            assert(forall|i: int|
                0 <= i < self.ports@.len() ==> #[trigger] self.ports@[i].deep_view()
                    == self.ports@[i]);
        }
        crate::setmap::set_map_encode(&self.ports)
    }

    /// Decodes a wire value into the collection: every key must parse as a
    /// port token, the attached values are ignored, and duplicate tokens
    /// collapse to their first occurrence.
    pub fn from_json(j: &crate::json::Json) -> (r: Result<ExposedPorts, ParseError>)
        ensures
            match r {
                Ok(ep) => crate::setmap::spec_set_map_decode::<Port>(crate::json::json_model(*j))
                    == Some(ep.deep_view()) && exposed_ports_wf(ep),
                Err(e) => crate::setmap::spec_set_map_decode::<Port>(crate::json::json_model(*j))
                    is None && (match crate::json::json_model(*j) {
                    crate::json::JsonModel::Obj(_) => e is CodecError,
                    _ => e is SchemaError,
                }),
            },
    {
        match crate::setmap::set_map_decode::<Port>(j, "exposedPorts") {
            Ok(ports) => {
                proof {
                    assert forall|i: int| 0 <= i < ports@.len() implies port_wf(
                        #[trigger] ports@[i],
                    ) by {
                        assert(ports@[i].deep_view() == ports@[i]);
                    }
                    assert forall|i: int, k: int| 0 <= i < k < ports@.len() implies ports@[i]
                        != ports@[k] by {
                        assert(ports@[i].deep_view() == ports@[i]);
                        assert(ports@[k].deep_view() == ports@[k]);
                    }
                }
                Ok(ExposedPorts { ports })
            },
            Err(e) => Err(e),
        }
    }

    /// Renders the collection as compact wire text.
    pub fn to_json_string(&self) -> (r: String)
        requires
            exposed_ports_wf(*self),
        ensures
            r@ == crate::json::sc_val(
                crate::setmap::spec_set_map_obj::<Port>(self.deep_view()),
            ),
    {
        let j = self.to_json();
        crate::json::to_compact_string(&j)
    }

    /// Reads the collection from wire text.
    pub fn from_json_str(s: &str) -> (r: Result<ExposedPorts, ParseError>)
        ensures
            match r {
                Ok(ep) => {
                    &&& crate::json::spec_parse_text(s@) matches Some(m)
                    &&& crate::setmap::spec_set_map_decode::<Port>(m) == Some(ep.deep_view())
                    &&& exposed_ports_wf(ep)
                },
                Err(e) => match crate::json::spec_parse_text(s@) {
                    Some(m) => crate::setmap::spec_set_map_decode::<Port>(m) is None && (
                    e is CodecError || e is SchemaError),
                    None => e is StructuralError,
                },
            },
    {
        match crate::json::parse_text(s) {
            Ok(j) => ExposedPorts::from_json(&j),
            Err(e) => Err(e),
        }
    }
}

/// Every valid token round-trips exactly through encode and decode.
pub proof fn lemma_port_key_round_trip(p: Port)
    requires
        port_wf(p),
    ensures
        spec_port_key_decode(spec_port_key_encode(p)) == Some(p),
{
    lemma_dec_str_val(p.number as int);
    let d = dec_str(p.number as int);
    match p.protocol {
        None => {
            lemma_first_slash_none(d);
            assert(port_key_int_part(d) == d);
        },
        Some(proto) => {
            let tail = if proto is TCP {
                seq!['/'] + tcp_chars()
            } else {
                seq!['/'] + udp_chars()
            };
            let w = spec_port_key_encode(p);
            assert(w =~= d + tail);
            lemma_first_slash_prefix(d, tail);
            assert(first_slash(w) == d.len());
            assert(port_key_int_part(w) =~= d);
            assert(port_key_proto_part(w) =~= tail.drop_first());
            if proto is TCP {
                assert(tail.drop_first() =~= tcp_chars());
            } else {
                assert(tail.drop_first() =~= udp_chars());
            }
            assert(tcp_chars() != udp_chars()) by {
                assert(tcp_chars()[0] == 't' && udp_chars()[0] == 'u');
            }
        },
    }
}

} // verus!
