//! The document model: the typed form of the configuration manifest, with
//! its closed platform enumerations, the nested runtime configuration, the
//! build history, and the entry points that read a document from wire text
//! and write it back as canonical pretty-printed text.

use vstd::prelude::*;
use vstd::string::StringExecFns;

use crate::env_var::EnvVar;
use crate::env_var::EnvVarModel;
use crate::env_var::spec_env_encode;
use crate::errors::ParseError;
use crate::exposed_ports::ExposedPorts;
use crate::exposed_ports::Port;
use crate::exposed_ports::exposed_ports_wf;
use crate::exposed_ports::port_wf;
use crate::json::Json;
use crate::json::JsonModel;
use crate::json::json_model;
use crate::json::json_model_members;
use crate::json::json_model_seq;
use crate::json::lemma_json_model_members;
use crate::json::lemma_json_model_seq;
use crate::setmap::spec_set_map_obj;
use crate::timestamp::Timestamp;
use crate::timestamp::spec_ts_encode;
use crate::timestamp::ts_wf;
use crate::volumes::Volumes;
use crate::volumes::volumes_wf;

verus! {

/// The closed set of target processor architectures. The wire spelling of
/// each member is fixed by `arch_chars`; one member's spelling starts with a
/// digit, so the table is explicit rather than derived from the names.
#[derive(Clone, Copy, Debug, PartialEq, Eq, Structural)]
pub enum Architecture {
    _386,
    Amd64,
    Arm,
    Arm64,
    Mips,
    Mips64,
    Mips64le,
    Mipsle,
    Ppc64,
    Ppc64le,
    S390x,
    Wasm,
}

/// The closed set of target operating systems.
#[derive(Clone, Copy, Debug, PartialEq, Eq, Structural)]
pub enum OS {
    Aix,
    Android,
    Darwin,
    Dragonfly,
    Freebsd,
    Illumos,
    Js,
    Linux,
    Netbsd,
    Openbsd,
    Plan9,
    Solaris,
    Windows,
}

/// The closed set of root filesystem kinds; exactly one is recognized.
#[derive(Clone, Copy, Debug, PartialEq, Eq, Structural)]
pub enum RootFSType {
    Layers,
}

/// The root filesystem record: its kind and the ordered layer digests.
#[derive(Debug)]
pub struct RootFS {
    pub _type: RootFSType,
    pub diff_ids: Vec<String>,
}

/// The optional runtime configuration record.
#[derive(Debug)]
pub struct Config {
    pub user: Option<String>,
    pub exposed_ports: Option<ExposedPorts>,
    pub env: Option<Vec<EnvVar>>,
    pub entrypoint: Option<Vec<String>>,
    pub cmd: Option<Vec<String>>,
    pub volumes: Option<Volumes>,
    pub working_dir: Option<String>,
    pub labels: Option<Vec<(String, String)>>,
    pub stop_signal: Option<String>,
}

/// One build history entry; the order of entries is significant.
#[derive(Debug)]
pub struct History {
    pub created: Option<Timestamp>,
    pub author: Option<String>,
    pub created_by: Option<String>,
    pub comment: Option<String>,
    pub empty_layer: Option<bool>,
}

/// The complete configuration document.
#[derive(Debug)]
pub struct ImageConfig {
    pub architecture: Architecture,
    pub os: OS,
    pub rootfs: RootFS,
    pub created: Option<Timestamp>,
    pub author: Option<String>,
    pub config: Option<Config>,
    pub history: Option<Vec<History>>,
}

// --- mathematical models -------------------------------------------------
pub struct RootFSModel {
    pub rootfs_type: RootFSType,
    pub diff_ids: Seq<Seq<char>>,
}

pub struct ConfigModel {
    pub user: Option<Seq<char>>,
    pub exposed_ports: Option<Seq<Port>>,
    pub env: Option<Seq<EnvVarModel>>,
    pub entrypoint: Option<Seq<Seq<char>>>,
    pub cmd: Option<Seq<Seq<char>>>,
    pub volumes: Option<Seq<Seq<char>>>,
    pub working_dir: Option<Seq<char>>,
    pub labels: Option<Seq<(Seq<char>, Seq<char>)>>,
    pub stop_signal: Option<Seq<char>>,
}

pub struct HistoryModel {
    pub created: Option<Timestamp>,
    pub author: Option<Seq<char>>,
    pub created_by: Option<Seq<char>>,
    pub comment: Option<Seq<char>>,
    pub empty_layer: Option<bool>,
}

pub struct ImageConfigModel {
    pub architecture: Architecture,
    pub os: OS,
    pub rootfs: RootFSModel,
    pub created: Option<Timestamp>,
    pub author: Option<Seq<char>>,
    pub config: Option<ConfigModel>,
    pub history: Option<Seq<HistoryModel>>,
}

impl DeepView for Architecture {
    type V = Architecture;

    open spec fn deep_view(&self) -> Architecture {
        *self
    }
}

impl DeepView for OS {
    type V = OS;

    open spec fn deep_view(&self) -> OS {
        *self
    }
}

impl DeepView for RootFSType {
    type V = RootFSType;

    open spec fn deep_view(&self) -> RootFSType {
        *self
    }
}

impl DeepView for Timestamp {
    type V = Timestamp;

    open spec fn deep_view(&self) -> Timestamp {
        *self
    }
}

impl DeepView for RootFS {
    type V = RootFSModel;

    open spec fn deep_view(&self) -> RootFSModel {
        RootFSModel { rootfs_type: self._type, diff_ids: self.diff_ids.deep_view() }
    }
}

impl DeepView for Config {
    type V = ConfigModel;

    open spec fn deep_view(&self) -> ConfigModel {
        ConfigModel {
            user: self.user.deep_view(),
            exposed_ports: self.exposed_ports.deep_view(),
            env: self.env.deep_view(),
            entrypoint: self.entrypoint.deep_view(),
            cmd: self.cmd.deep_view(),
            volumes: self.volumes.deep_view(),
            working_dir: self.working_dir.deep_view(),
            labels: self.labels.deep_view(),
            stop_signal: self.stop_signal.deep_view(),
        }
    }
}

impl DeepView for History {
    type V = HistoryModel;

    open spec fn deep_view(&self) -> HistoryModel {
        HistoryModel {
            created: self.created.deep_view(),
            author: self.author.deep_view(),
            created_by: self.created_by.deep_view(),
            comment: self.comment.deep_view(),
            empty_layer: self.empty_layer,
        }
    }
}

impl DeepView for ImageConfig {
    type V = ImageConfigModel;

    open spec fn deep_view(&self) -> ImageConfigModel {
        ImageConfigModel {
            architecture: self.architecture,
            os: self.os,
            rootfs: self.rootfs.deep_view(),
            created: self.created.deep_view(),
            author: self.author.deep_view(),
            config: self.config.deep_view(),
            history: self.history.deep_view(),
        }
    }
}

// --- well-formedness ------------------------------------------------------
/// A valid exposed-ports value: every token valid, none twice.
pub open spec fn ports_model_wf(s: Seq<Port>) -> bool {
    &&& forall|i: int| 0 <= i < s.len() ==> port_wf(#[trigger] s[i])
    &&& forall|i: int, j: int| 0 <= i < j < s.len() ==> s[i] != s[j]
}

/// A valid volumes value: no path twice.
pub open spec fn volumes_model_wf(s: Seq<Seq<char>>) -> bool {
    forall|i: int, j: int| 0 <= i < j < s.len() ==> s[i] != s[j]
}

/// An environment entry that the codec can carry: neither side holds the
/// separator, so the entry survives the wire round trip.
pub open spec fn env_model_wf(e: EnvVarModel) -> bool {
    !e.name.contains('=') && !e.value.contains('=')
}

/// Valid labels: no key twice.
pub open spec fn labels_model_wf(s: Seq<(Seq<char>, Seq<char>)>) -> bool {
    forall|i: int, j: int| 0 <= i < j < s.len() ==> s[i].0 != s[j].0
}

pub open spec fn config_model_wf(c: ConfigModel) -> bool {
    &&& (c.exposed_ports matches Some(s) ==> ports_model_wf(s))
    &&& (c.env matches Some(es) ==> forall|i: int|
        0 <= i < es.len() ==> env_model_wf(#[trigger] es[i]))
    &&& (c.volumes matches Some(vs) ==> volumes_model_wf(vs))
    &&& (c.labels matches Some(ls) ==> labels_model_wf(ls))
}

pub open spec fn history_model_wf(h: HistoryModel) -> bool {
    h.created matches Some(t) ==> ts_wf(t)
}

/// A valid document: its timestamps are real instants and its collections
/// carry no duplicates.
pub open spec fn doc_wf(m: ImageConfigModel) -> bool {
    &&& (m.created matches Some(t) ==> ts_wf(t))
    &&& (m.config matches Some(c) ==> config_model_wf(c))
    &&& (m.history matches Some(hs) ==> forall|i: int|
        0 <= i < hs.len() ==> history_model_wf(#[trigger] hs[i]))
}

// --- the wire spellings of the closed enumerations ------------------------
pub open spec fn arch_chars(a: Architecture) -> Seq<char> {
    match a {
        Architecture::_386 => "386"@,
        Architecture::Amd64 => "amd64"@,
        Architecture::Arm => "arm"@,
        Architecture::Arm64 => "arm64"@,
        Architecture::Mips => "mips"@,
        Architecture::Mips64 => "mips64"@,
        Architecture::Mips64le => "mips64le"@,
        Architecture::Mipsle => "mipsle"@,
        Architecture::Ppc64 => "ppc64"@,
        Architecture::Ppc64le => "ppc64le"@,
        Architecture::S390x => "s390x"@,
        Architecture::Wasm => "wasm"@,
    }
}

pub open spec fn os_chars(o: OS) -> Seq<char> {
    match o {
        OS::Aix => "aix"@,
        OS::Android => "android"@,
        OS::Darwin => "darwin"@,
        OS::Dragonfly => "dragonfly"@,
        OS::Freebsd => "freebsd"@,
        OS::Illumos => "illumos"@,
        OS::Js => "js"@,
        OS::Linux => "linux"@,
        OS::Netbsd => "netbsd"@,
        OS::Openbsd => "openbsd"@,
        OS::Plan9 => "plan9"@,
        OS::Solaris => "solaris"@,
        OS::Windows => "windows"@,
    }
}

pub open spec fn rootfs_type_chars(t: RootFSType) -> Seq<char> {
    "layers"@
}

/// Writes the wire spelling of an architecture.
pub fn arch_str(a: &Architecture) -> (r: &'static str)
    ensures
        r@ == arch_chars(*a),
{
    match a {
        Architecture::_386 => "386",
        Architecture::Amd64 => "amd64",
        Architecture::Arm => "arm",
        Architecture::Arm64 => "arm64",
        Architecture::Mips => "mips",
        Architecture::Mips64 => "mips64",
        Architecture::Mips64le => "mips64le",
        Architecture::Mipsle => "mipsle",
        Architecture::Ppc64 => "ppc64",
        Architecture::Ppc64le => "ppc64le",
        Architecture::S390x => "s390x",
        Architecture::Wasm => "wasm",
    }
}

/// Writes the wire spelling of an operating system.
pub fn os_str(o: &OS) -> (r: &'static str)
    ensures
        r@ == os_chars(*o),
{
    match o {
        OS::Aix => "aix",
        OS::Android => "android",
        OS::Darwin => "darwin",
        OS::Dragonfly => "dragonfly",
        OS::Freebsd => "freebsd",
        OS::Illumos => "illumos",
        OS::Js => "js",
        OS::Linux => "linux",
        OS::Netbsd => "netbsd",
        OS::Openbsd => "openbsd",
        OS::Plan9 => "plan9",
        OS::Solaris => "solaris",
        OS::Windows => "windows",
    }
}

// --- serialization: model to wire tree ------------------------------------
pub open spec fn opt_str_json(o: Option<Seq<char>>) -> JsonModel {
    match o {
        None => JsonModel::Null,
        Some(s) => JsonModel::Str(s),
    }
}

pub open spec fn str_arr_json(ss: Seq<Seq<char>>) -> JsonModel {
    JsonModel::Arr(Seq::new(ss.len(), |i: int| JsonModel::Str(ss[i])))
}

pub open spec fn env_arr_json(es: Seq<EnvVarModel>) -> JsonModel {
    JsonModel::Arr(
        Seq::new(es.len(), |i: int| JsonModel::Str(spec_env_encode(es[i].name, es[i].value))),
    )
}

pub open spec fn labels_json(ls: Seq<(Seq<char>, Seq<char>)>) -> JsonModel {
    JsonModel::Obj(Seq::new(ls.len(), |i: int| (ls[i].0, JsonModel::Str(ls[i].1))))
}

pub open spec fn ts_json(o: Option<Timestamp>) -> JsonModel {
    match o {
        None => JsonModel::Null,
        Some(t) => JsonModel::Str(spec_ts_encode(t)),
    }
}

pub open spec fn rootfs_json(r: RootFSModel) -> JsonModel {
    JsonModel::Obj(
        seq![
            ("type"@, JsonModel::Str(rootfs_type_chars(r.rootfs_type))),
            ("diff_ids"@, str_arr_json(r.diff_ids)),
        ],
    )
}

pub open spec fn config_json(c: ConfigModel) -> JsonModel {
    JsonModel::Obj(
        seq![
            ("User"@, opt_str_json(c.user)),
            (
                "ExposedPorts"@,
                match c.exposed_ports {
                    None => JsonModel::Null,
                    Some(ps) => spec_set_map_obj::<Port>(ps),
                },
            ),
            (
                "Env"@,
                match c.env {
                    None => JsonModel::Null,
                    Some(es) => env_arr_json(es),
                },
            ),
            (
                "Entrypoint"@,
                match c.entrypoint {
                    None => JsonModel::Null,
                    Some(ss) => str_arr_json(ss),
                },
            ),
            (
                "Cmd"@,
                match c.cmd {
                    None => JsonModel::Null,
                    Some(ss) => str_arr_json(ss),
                },
            ),
            (
                "Volumes"@,
                match c.volumes {
                    None => JsonModel::Null,
                    Some(vs) => spec_set_map_obj::<String>(vs),
                },
            ),
            ("WorkingDir"@, opt_str_json(c.working_dir)),
            (
                "Labels"@,
                match c.labels {
                    None => JsonModel::Null,
                    Some(ls) => labels_json(ls),
                },
            ),
            ("StopSignal"@, opt_str_json(c.stop_signal)),
        ],
    )
}

pub open spec fn history_json(h: HistoryModel) -> JsonModel {
    JsonModel::Obj(
        seq![
            ("created"@, ts_json(h.created)),
            ("author"@, opt_str_json(h.author)),
            ("created_by"@, opt_str_json(h.created_by)),
            ("comment"@, opt_str_json(h.comment)),
            (
                "empty_layer"@,
                match h.empty_layer {
                    None => JsonModel::Null,
                    Some(b) => JsonModel::Bool(b),
                },
            ),
        ],
    )
}

pub open spec fn histories_json(hs: Seq<HistoryModel>) -> JsonModel {
    JsonModel::Arr(Seq::new(hs.len(), |i: int| history_json(hs[i])))
}

/// The wire tree of a document: every field present, in declaration order,
/// absent optional fields written as the null marker.
pub open spec fn spec_doc_json(m: ImageConfigModel) -> JsonModel {
    JsonModel::Obj(
        seq![
            ("architecture"@, JsonModel::Str(arch_chars(m.architecture))),
            ("os"@, JsonModel::Str(os_chars(m.os))),
            ("rootfs"@, rootfs_json(m.rootfs)),
            ("created"@, ts_json(m.created)),
            ("author"@, opt_str_json(m.author)),
            (
                "config"@,
                match m.config {
                    None => JsonModel::Null,
                    Some(c) => config_json(c),
                },
            ),
            (
                "history"@,
                match m.history {
                    None => JsonModel::Null,
                    Some(hs) => histories_json(hs),
                },
            ),
        ],
    )
}

// --- parsing: wire tree to model -------------------------------------------
/// The two ways a well-formed tree can still fail to be a document: a
/// schema violation, or field content that fails a specialized codec.
pub enum DocErrKind {
    Schema,
    Codec,
}

/// The value of the first member carrying `key`, if any. Later members with
/// the same key are ignored.
pub open spec fn obj_get(members: Seq<(Seq<char>, JsonModel)>, key: Seq<char>) -> Option<
    JsonModel,
>
    decreases members.len(),
{
    if members.len() == 0 {
        None
    } else if members[0].0 == key {
        Some(members[0].1)
    } else {
        obj_get(members.drop_first(), key)
    }
}

/// The architecture a wire spelling names, if any.
pub open spec fn arch_of_chars(s: Seq<char>) -> Option<Architecture> {
    if s == "386"@ {
        Some(Architecture::_386)
    } else if s == "amd64"@ {
        Some(Architecture::Amd64)
    } else if s == "arm"@ {
        Some(Architecture::Arm)
    } else if s == "arm64"@ {
        Some(Architecture::Arm64)
    } else if s == "mips"@ {
        Some(Architecture::Mips)
    } else if s == "mips64"@ {
        Some(Architecture::Mips64)
    } else if s == "mips64le"@ {
        Some(Architecture::Mips64le)
    } else if s == "mipsle"@ {
        Some(Architecture::Mipsle)
    } else if s == "ppc64"@ {
        Some(Architecture::Ppc64)
    } else if s == "ppc64le"@ {
        Some(Architecture::Ppc64le)
    } else if s == "s390x"@ {
        Some(Architecture::S390x)
    } else if s == "wasm"@ {
        Some(Architecture::Wasm)
    } else {
        None
    }
}

/// The operating system a wire spelling names, if any.
pub open spec fn os_of_chars(s: Seq<char>) -> Option<OS> {
    if s == "aix"@ {
        Some(OS::Aix)
    } else if s == "android"@ {
        Some(OS::Android)
    } else if s == "darwin"@ {
        Some(OS::Darwin)
    } else if s == "dragonfly"@ {
        Some(OS::Dragonfly)
    } else if s == "freebsd"@ {
        Some(OS::Freebsd)
    } else if s == "illumos"@ {
        Some(OS::Illumos)
    } else if s == "js"@ {
        Some(OS::Js)
    } else if s == "linux"@ {
        Some(OS::Linux)
    } else if s == "netbsd"@ {
        Some(OS::Netbsd)
    } else if s == "openbsd"@ {
        Some(OS::Openbsd)
    } else if s == "plan9"@ {
        Some(OS::Plan9)
    } else if s == "solaris"@ {
        Some(OS::Solaris)
    } else if s == "windows"@ {
        Some(OS::Windows)
    } else {
        None
    }
}

/// An optional text field: absent and null both mean absent.
pub open spec fn dec_opt_str(v: Option<JsonModel>) -> Result<Option<Seq<char>>, DocErrKind> {
    match v {
        None => Ok(None),
        Some(JsonModel::Null) => Ok(None),
        Some(JsonModel::Str(s)) => Ok(Some(s)),
        Some(_) => Err(DocErrKind::Schema),
    }
}

/// An optional timestamp field.
pub open spec fn dec_opt_ts(v: Option<JsonModel>) -> Result<Option<Timestamp>, DocErrKind> {
    match v {
        None => Ok(None),
        Some(JsonModel::Null) => Ok(None),
        Some(JsonModel::Str(s)) => match crate::timestamp::spec_ts_decode(s) {
            Some(t) => Ok(Some(t)),
            None => Err(DocErrKind::Codec),
        },
        Some(_) => Err(DocErrKind::Schema),
    }
}

/// An optional boolean field.
pub open spec fn dec_opt_bool(v: Option<JsonModel>) -> Result<Option<bool>, DocErrKind> {
    match v {
        None => Ok(None),
        Some(JsonModel::Null) => Ok(None),
        Some(JsonModel::Bool(b)) => Ok(Some(b)),
        Some(_) => Err(DocErrKind::Schema),
    }
}

/// The texts of an array whose elements must all be strings.
pub open spec fn dec_str_seq(elems: Seq<JsonModel>) -> Result<Seq<Seq<char>>, DocErrKind>
    decreases elems.len(),
{
    if elems.len() == 0 {
        Ok(Seq::empty())
    } else {
        match dec_str_seq(elems.drop_last()) {
            Ok(prefix) => match elems.last() {
                JsonModel::Str(s) => Ok(prefix.push(s)),
                _ => Err(DocErrKind::Schema),
            },
            Err(k) => Err(k),
        }
    }
}

/// The entries of an environment array: every element a string of the
/// `NAME=VALUE` form.
pub open spec fn dec_env_seq(elems: Seq<JsonModel>) -> Result<Seq<EnvVarModel>, DocErrKind>
    decreases elems.len(),
{
    if elems.len() == 0 {
        Ok(Seq::empty())
    } else {
        match dec_env_seq(elems.drop_last()) {
            Ok(prefix) => match elems.last() {
                JsonModel::Str(s) => match crate::env_var::spec_env_decode(s) {
                    Some(e) => Ok(prefix.push(e)),
                    None => Err(DocErrKind::Codec),
                },
                _ => Err(DocErrKind::Schema),
            },
            Err(k) => Err(k),
        }
    }
}

/// Whether some pair carries the key.
pub open spec fn has_key(s: Seq<(Seq<char>, Seq<char>)>, k: Seq<char>) -> bool {
    exists|i: int| 0 <= i < s.len() && (#[trigger] s[i]).0 == k
}

/// Collapses pairs with equal keys, keeping each key's first occurrence.
pub open spec fn dedup_keys(s: Seq<(Seq<char>, Seq<char>)>) -> Seq<(Seq<char>, Seq<char>)>
    decreases s.len(),
{
    if s.len() == 0 {
        Seq::empty()
    } else if has_key(s.drop_last(), s.last().0) {
        dedup_keys(s.drop_last())
    } else {
        dedup_keys(s.drop_last()).push(s.last())
    }
}

/// The label pairs of an object whose values must all be strings, with
/// duplicate keys collapsed to their first occurrence.
pub open spec fn dec_label_pairs(members: Seq<(Seq<char>, JsonModel)>) -> Result<
    Seq<(Seq<char>, Seq<char>)>,
    DocErrKind,
>
    decreases members.len(),
{
    if members.len() == 0 {
        Ok(Seq::empty())
    } else {
        match dec_label_pairs(members.drop_last()) {
            Ok(prefix) => match members.last().1 {
                JsonModel::Str(v) => Ok(prefix.push((members.last().0, v))),
                _ => Err(DocErrKind::Schema),
            },
            Err(k) => Err(k),
        }
    }
}

pub open spec fn dec_labels(v: JsonModel) -> Result<Seq<(Seq<char>, Seq<char>)>, DocErrKind> {
    match v {
        JsonModel::Obj(lms) => match dec_label_pairs(lms) {
            Ok(pairs) => Ok(dedup_keys(pairs)),
            Err(k) => Err(k),
        },
        _ => Err(DocErrKind::Schema),
    }
}

/// An exposed-ports value: must be an object; a key that fails the port
/// grammar is a codec failure.
pub open spec fn dec_ports(v: JsonModel) -> Result<Seq<Port>, DocErrKind> {
    match v {
        JsonModel::Obj(_) => match crate::setmap::spec_set_map_decode::<Port>(v) {
            Some(s) => Ok(s),
            None => Err(DocErrKind::Codec),
        },
        _ => Err(DocErrKind::Schema),
    }
}

/// A volumes value: must be an object; every key is a path taken verbatim.
pub open spec fn dec_vols(v: JsonModel) -> Result<Seq<Seq<char>>, DocErrKind> {
    match v {
        JsonModel::Obj(_) => match crate::setmap::spec_set_map_decode::<String>(v) {
            Some(s) => Ok(s),
            None => Err(DocErrKind::Codec),
        },
        _ => Err(DocErrKind::Schema),
    }
}

/// The root filesystem record: both fields required, the kind must be the
/// single recognized literal, the digests must be strings.
pub open spec fn dec_rootfs(v: JsonModel) -> Result<RootFSModel, DocErrKind> {
    match v {
        JsonModel::Obj(rms) => match obj_get(rms, "type"@) {
            Some(JsonModel::Str(s)) => if s == "layers"@ {
                match obj_get(rms, "diff_ids"@) {
                    Some(JsonModel::Arr(es)) => match dec_str_seq(es) {
                        Ok(ids) => Ok(RootFSModel { rootfs_type: RootFSType::Layers, diff_ids: ids }),
                        Err(k) => Err(k),
                    },
                    Some(_) => Err(DocErrKind::Schema),
                    None => Err(DocErrKind::Schema),
                }
            } else {
                Err(DocErrKind::Schema)
            },
            Some(_) => Err(DocErrKind::Schema),
            None => Err(DocErrKind::Schema),
        },
        _ => Err(DocErrKind::Schema),
    }
}

/// The runtime configuration record, fields read in declared order.
pub open spec fn dec_config(v: JsonModel) -> Result<ConfigModel, DocErrKind> {
    match v {
        JsonModel::Obj(cms) => match dec_opt_str(obj_get(cms, "User"@)) {
            Ok(user) => {
                let ep = match obj_get(cms, "ExposedPorts"@) {
                    None => Ok(None),
                    Some(JsonModel::Null) => Ok(None),
                    Some(pv) => match dec_ports(pv) {
                        Ok(ps) => Ok(Some(ps)),
                        Err(k) => Err(k),
                    },
                };
                match ep {
                    Ok(exposed_ports) => {
                        let env = match obj_get(cms, "Env"@) {
                            None => Ok(None),
                            Some(JsonModel::Null) => Ok(None),
                            Some(JsonModel::Arr(es)) => match dec_env_seq(es) {
                                Ok(xs) => Ok(Some(xs)),
                                Err(k) => Err(k),
                            },
                            Some(_) => Err(DocErrKind::Schema),
                        };
                        match env {
                            Ok(env) => {
                                let entry = match obj_get(cms, "Entrypoint"@) {
                                    None => Ok(None),
                                    Some(JsonModel::Null) => Ok(None),
                                    Some(JsonModel::Arr(es)) => match dec_str_seq(es) {
                                        Ok(xs) => Ok(Some(xs)),
                                        Err(k) => Err(k),
                                    },
                                    Some(_) => Err(DocErrKind::Schema),
                                };
                                match entry {
                                    Ok(entrypoint) => {
                                        let cmd = match obj_get(cms, "Cmd"@) {
                                            None => Ok(None),
                                            Some(JsonModel::Null) => Ok(None),
                                            Some(JsonModel::Arr(es)) => match dec_str_seq(es) {
                                                Ok(xs) => Ok(Some(xs)),
                                                Err(k) => Err(k),
                                            },
                                            Some(_) => Err(DocErrKind::Schema),
                                        };
                                        match cmd {
                                            Ok(cmd) => {
                                                let vols = match obj_get(cms, "Volumes"@) {
                                                    None => Ok(None),
                                                    Some(JsonModel::Null) => Ok(None),
                                                    Some(vv) => match dec_vols(vv) {
                                                        Ok(vs) => Ok(Some(vs)),
                                                        Err(k) => Err(k),
                                                    },
                                                };
                                                match vols {
                                                    Ok(volumes) => match dec_opt_str(
                                                        obj_get(cms, "WorkingDir"@),
                                                    ) {
                                                        Ok(working_dir) => {
                                                            let labels = match obj_get(
                                                                cms,
                                                                "Labels"@,
                                                            ) {
                                                                None => Ok(None),
                                                                Some(JsonModel::Null) => Ok(None),
                                                                Some(lv) => match dec_labels(lv) {
                                                                    Ok(ls) => Ok(Some(ls)),
                                                                    Err(k) => Err(k),
                                                                },
                                                            };
                                                            match labels {
                                                                Ok(labels) => match dec_opt_str(
                                                                    obj_get(cms, "StopSignal"@),
                                                                ) {
                                                                    Ok(stop_signal) => Ok(
                                                                        ConfigModel {
                                                                            user,
                                                                            exposed_ports,
                                                                            env,
                                                                            entrypoint,
                                                                            cmd,
                                                                            volumes,
                                                                            working_dir,
                                                                            labels,
                                                                            stop_signal,
                                                                        },
                                                                    ),
                                                                    Err(k) => Err(k),
                                                                },
                                                                Err(k) => Err(k),
                                                            }
                                                        },
                                                        Err(k) => Err(k),
                                                    },
                                                    Err(k) => Err(k),
                                                }
                                            },
                                            Err(k) => Err(k),
                                        }
                                    },
                                    Err(k) => Err(k),
                                }
                            },
                            Err(k) => Err(k),
                        }
                    },
                    Err(k) => Err(k),
                }
            },
            Err(k) => Err(k),
        },
        _ => Err(DocErrKind::Schema),
    }
}

/// One history entry, fields read in declared order.
pub open spec fn dec_history(v: JsonModel) -> Result<HistoryModel, DocErrKind> {
    match v {
        JsonModel::Obj(hms) => match dec_opt_ts(obj_get(hms, "created"@)) {
            Ok(created) => match dec_opt_str(obj_get(hms, "author"@)) {
                Ok(author) => match dec_opt_str(obj_get(hms, "created_by"@)) {
                    Ok(created_by) => match dec_opt_str(obj_get(hms, "comment"@)) {
                        Ok(comment) => match dec_opt_bool(obj_get(hms, "empty_layer"@)) {
                            Ok(empty_layer) => Ok(
                                HistoryModel { created, author, created_by, comment, empty_layer },
                            ),
                            Err(k) => Err(k),
                        },
                        Err(k) => Err(k),
                    },
                    Err(k) => Err(k),
                },
                Err(k) => Err(k),
            },
            Err(k) => Err(k),
        },
        _ => Err(DocErrKind::Schema),
    }
}

/// The history array, entries read in order.
pub open spec fn dec_histories(elems: Seq<JsonModel>) -> Result<Seq<HistoryModel>, DocErrKind>
    decreases elems.len(),
{
    if elems.len() == 0 {
        Ok(Seq::empty())
    } else {
        match dec_histories(elems.drop_last()) {
            Ok(prefix) => match dec_history(elems.last()) {
                Ok(h) => Ok(prefix.push(h)),
                Err(k) => Err(k),
            },
            Err(k) => Err(k),
        }
    }
}

/// The document a wire tree denotes, or the kind of failure: the tree must
/// be an object; the three required fields must be present and valid; each
/// optional field may be absent or null; unknown keys are ignored.
pub open spec fn spec_doc_of_json(m: JsonModel) -> Result<ImageConfigModel, DocErrKind> {
    match m {
        JsonModel::Obj(ms) => {
            let arch = match obj_get(ms, "architecture"@) {
                Some(JsonModel::Str(s)) => match arch_of_chars(s) {
                    Some(a) => Ok(a),
                    None => Err(DocErrKind::Schema),
                },
                Some(_) => Err(DocErrKind::Schema),
                None => Err(DocErrKind::Schema),
            };
            match arch {
                Ok(architecture) => {
                    let osr = match obj_get(ms, "os"@) {
                        Some(JsonModel::Str(s)) => match os_of_chars(s) {
                            Some(o) => Ok(o),
                            None => Err(DocErrKind::Schema),
                        },
                        Some(_) => Err(DocErrKind::Schema),
                        None => Err(DocErrKind::Schema),
                    };
                    match osr {
                        Ok(os) => {
                            let rf = match obj_get(ms, "rootfs"@) {
                                Some(v) => dec_rootfs(v),
                                None => Err(DocErrKind::Schema),
                            };
                            match rf {
                                Ok(rootfs) => match dec_opt_ts(obj_get(ms, "created"@)) {
                                    Ok(created) => match dec_opt_str(obj_get(ms, "author"@)) {
                                        Ok(author) => {
                                            let cfg = match obj_get(ms, "config"@) {
                                                None => Ok(None),
                                                Some(JsonModel::Null) => Ok(None),
                                                Some(cv) => match dec_config(cv) {
                                                    Ok(c) => Ok(Some(c)),
                                                    Err(k) => Err(k),
                                                },
                                            };
                                            match cfg {
                                                Ok(config) => {
                                                    let hist = match obj_get(ms, "history"@) {
                                                        None => Ok(None),
                                                        Some(JsonModel::Null) => Ok(None),
                                                        Some(JsonModel::Arr(es)) => match
                                                            dec_histories(es) {
                                                            Ok(hs) => Ok(Some(hs)),
                                                            Err(k) => Err(k),
                                                        },
                                                        Some(_) => Err(DocErrKind::Schema),
                                                    };
                                                    match hist {
                                                        Ok(history) => Ok(
                                                            ImageConfigModel {
                                                                architecture,
                                                                os,
                                                                rootfs,
                                                                created,
                                                                author,
                                                                config,
                                                                history,
                                                            },
                                                        ),
                                                        Err(k) => Err(k),
                                                    }
                                                },
                                                Err(k) => Err(k),
                                            }
                                        },
                                        Err(k) => Err(k),
                                    },
                                    Err(k) => Err(k),
                                },
                                Err(k) => Err(k),
                            }
                        },
                        Err(k) => Err(k),
                    }
                },
                Err(k) => Err(k),
            }
        },
        _ => Err(DocErrKind::Schema),
    }
}

// --- lemmas about the decode specifications --------------------------------
/// Whether a pair sequence carries a key splits on the last pair.
proof fn lemma_has_key_split(s: Seq<(Seq<char>, Seq<char>)>, k: Seq<char>)
    requires
        s.len() > 0,
    ensures
        has_key(s, k) == (has_key(s.drop_last(), k) || s.last().0 == k),
{
    if has_key(s, k) {
        let i = choose|i: int| 0 <= i < s.len() && (#[trigger] s[i]).0 == k;
        if i < s.len() - 1 {
            assert(s.drop_last()[i].0 == k);
        }
    }
    if has_key(s.drop_last(), k) {
        let i = choose|i: int| 0 <= i < s.drop_last().len() && (#[trigger] s.drop_last()[i]).0
            == k;
        assert(s[i].0 == k);
    }
    if s.last().0 == k {
        assert(s[s.len() - 1].0 == k);
    }
}

/// Collapsing by key keeps which keys are present.
proof fn lemma_dedup_keys_has_key(s: Seq<(Seq<char>, Seq<char>)>, k: Seq<char>)
    ensures
        has_key(dedup_keys(s), k) == has_key(s, k),
    decreases s.len(),
{
    if s.len() > 0 {
        lemma_dedup_keys_has_key(s.drop_last(), k);
        lemma_has_key_split(s, k);
        let dp = dedup_keys(s.drop_last());
        if !has_key(s.drop_last(), s.last().0) {
            lemma_has_key_split(dp.push(s.last()), k);
            assert(dp.push(s.last()).drop_last() =~= dp);
            assert(dp.push(s.last()).last() == s.last());
        }
    }
}

/// Collapsing by key leaves every key once.
proof fn lemma_dedup_keys_distinct(s: Seq<(Seq<char>, Seq<char>)>)
    ensures
        labels_model_wf(dedup_keys(s)),
    decreases s.len(),
{
    if s.len() > 0 {
        lemma_dedup_keys_distinct(s.drop_last());
        let dp = dedup_keys(s.drop_last());
        if !has_key(s.drop_last(), s.last().0) {
            let d = dp.push(s.last());
            assert forall|i: int, j: int| 0 <= i < j < d.len() implies d[i].0 != d[j].0 by {
                if j < d.len() - 1 {
                    assert(d[i] == dp[i] && d[j] == dp[j]);
                } else {
                    assert(d[j] == s.last());
                    assert(d[i] == dp[i]);
                    if dp[i].0 == s.last().0 {
                        assert(has_key(dp, s.last().0));
                        lemma_dedup_keys_has_key(s.drop_last(), s.last().0);
                    }
                }
            }
        }
    }
}

/// A pair sequence with pairwise distinct keys collapses to itself.
pub proof fn lemma_dedup_keys_id(s: Seq<(Seq<char>, Seq<char>)>)
    requires
        labels_model_wf(s),
    ensures
        dedup_keys(s) == s,
    decreases s.len(),
{
    if s.len() > 0 {
        assert(!has_key(s.drop_last(), s.last().0)) by {
            if has_key(s.drop_last(), s.last().0) {
                let i = choose|i: int|
                    0 <= i < s.drop_last().len() && (#[trigger] s.drop_last()[i]).0
                        == s.last().0;
                assert(s[i].0 == s[s.len() - 1].0);
            }
        }
        assert(forall|i: int, j: int|
            0 <= i < j < s.len() - 1 ==> (#[trigger] s.drop_last()[i]).0 != (#[trigger] s.drop_last()[j]).0);
        lemma_dedup_keys_id(s.drop_last());
        assert(dedup_keys(s) =~= s);
    }
}

/// Once a prefix of the elements has failed, the whole sequence fails the
/// same way.
proof fn lemma_dec_str_seq_extend(ms: Seq<JsonModel>, i: int)
    requires
        0 <= i <= ms.len(),
        dec_str_seq(ms.take(i)) is Err,
    ensures
        dec_str_seq(ms.take(ms.len() as int)) == dec_str_seq(ms.take(i)),
    decreases ms.len() - i,
{
    if i < ms.len() {
        assert(ms.take(i + 1).drop_last() =~= ms.take(i));
        lemma_dec_str_seq_extend(ms, i + 1);
    }
}

proof fn lemma_dec_env_seq_extend(ms: Seq<JsonModel>, i: int)
    requires
        0 <= i <= ms.len(),
        dec_env_seq(ms.take(i)) is Err,
    ensures
        dec_env_seq(ms.take(ms.len() as int)) == dec_env_seq(ms.take(i)),
    decreases ms.len() - i,
{
    if i < ms.len() {
        assert(ms.take(i + 1).drop_last() =~= ms.take(i));
        lemma_dec_env_seq_extend(ms, i + 1);
    }
}

proof fn lemma_dec_label_pairs_extend(ms: Seq<(Seq<char>, JsonModel)>, i: int)
    requires
        0 <= i <= ms.len(),
        dec_label_pairs(ms.take(i)) is Err,
    ensures
        dec_label_pairs(ms.take(ms.len() as int)) == dec_label_pairs(ms.take(i)),
    decreases ms.len() - i,
{
    if i < ms.len() {
        assert(ms.take(i + 1).drop_last() =~= ms.take(i));
        lemma_dec_label_pairs_extend(ms, i + 1);
    }
}

proof fn lemma_dec_histories_extend(ms: Seq<JsonModel>, i: int)
    requires
        0 <= i <= ms.len(),
        dec_histories(ms.take(i)) is Err,
    ensures
        dec_histories(ms.take(ms.len() as int)) == dec_histories(ms.take(i)),
    decreases ms.len() - i,
{
    if i < ms.len() {
        assert(ms.take(i + 1).drop_last() =~= ms.take(i));
        lemma_dec_histories_extend(ms, i + 1);
    }
}

// --- the round trip of the document codecs ---------------------------------
/// Looking a key up finds the first member that carries it.
proof fn lemma_obj_get_at(ms: Seq<(Seq<char>, JsonModel)>, i: int, key: Seq<char>)
    requires
        0 <= i < ms.len(),
        forall|k: int| 0 <= k < i ==> (#[trigger] ms[k]).0 != key,
        ms[i].0 == key,
    ensures
        obj_get(ms, key) == Some(ms[i].1),
    decreases i,
{
    if i > 0 {
        assert(forall|k: int|
            0 <= k < i - 1 ==> (#[trigger] ms.drop_first()[k]) == ms[k + 1]);
        lemma_obj_get_at(ms.drop_first(), i - 1, key);
    }
}

/// An array of plain strings reads back as those strings.
proof fn lemma_dec_str_seq_of(ss: Seq<Seq<char>>)
    ensures
        dec_str_seq(Seq::new(ss.len(), |i: int| JsonModel::Str(ss[i]))) == Ok::<_, DocErrKind>(
            ss,
        ),
    decreases ss.len(),
{
    let es = Seq::new(ss.len(), |i: int| JsonModel::Str(ss[i]));
    if ss.len() == 0 {
        assert(ss =~= Seq::<Seq<char>>::empty());
    } else {
        lemma_dec_str_seq_of(ss.drop_last());
        assert(es.drop_last() =~= Seq::new(
            ss.drop_last().len(),
            |i: int| JsonModel::Str(ss.drop_last()[i]),
        ));
        assert(es.last() == JsonModel::Str(ss.last()));
        assert(ss.drop_last().push(ss.last()) =~= ss);
    }
}

/// An array of encoded entries reads back as those entries.
proof fn lemma_dec_env_seq_of(es: Seq<EnvVarModel>)
    requires
        forall|i: int| 0 <= i < es.len() ==> env_model_wf(#[trigger] es[i]),
    ensures
        dec_env_seq(
            Seq::new(
                es.len(),
                |i: int| JsonModel::Str(spec_env_encode(es[i].name, es[i].value)),
            ),
        ) == Ok::<_, DocErrKind>(es),
    decreases es.len(),
{
    let js = Seq::new(
        es.len(),
        |i: int| JsonModel::Str(spec_env_encode(es[i].name, es[i].value)),
    );
    if es.len() == 0 {
        assert(es =~= Seq::<EnvVarModel>::empty());
    } else {
        lemma_dec_env_seq_of(es.drop_last());
        assert(js.drop_last() =~= Seq::new(
            es.drop_last().len(),
            |i: int| JsonModel::Str(
                spec_env_encode(es.drop_last()[i].name, es.drop_last()[i].value),
            ),
        ));
        let last = es.last();
        crate::env_var::lemma_env_round_trip(last.name, last.value);
        assert(crate::env_var::spec_env_decode(spec_env_encode(last.name, last.value)) == Some(
            EnvVarModel { name: last.name, value: last.value },
        ));
        assert(EnvVarModel { name: last.name, value: last.value } == last);
        assert(es.drop_last().push(es.last()) =~= es);
    }
}

/// A labels object with string values reads back as its pairs.
proof fn lemma_dec_label_pairs_of(ls: Seq<(Seq<char>, Seq<char>)>)
    ensures
        dec_label_pairs(Seq::new(ls.len(), |i: int| (ls[i].0, JsonModel::Str(ls[i].1)))) == Ok::<
            _,
            DocErrKind,
        >(ls),
    decreases ls.len(),
{
    let ms = Seq::new(ls.len(), |i: int| (ls[i].0, JsonModel::Str(ls[i].1)));
    if ls.len() == 0 {
        assert(ls =~= Seq::<(Seq<char>, Seq<char>)>::empty());
    } else {
        lemma_dec_label_pairs_of(ls.drop_last());
        assert(ms.drop_last() =~= Seq::new(
            ls.drop_last().len(),
            |i: int| (ls.drop_last()[i].0, JsonModel::Str(ls.drop_last()[i].1)),
        ));
        assert((ls.last().0, ls.last().1) == ls.last());
        assert(ls.drop_last().push(ls.last()) =~= ls);
    }
}

/// Reading back the wire spelling of an architecture gives the member.
proof fn lemma_arch_round(a: Architecture)
    ensures
        arch_of_chars(arch_chars(a)) == Some(a),
{
    reveal_strlit("386");
    reveal_strlit("amd64");
    reveal_strlit("arm");
    reveal_strlit("arm64");
    reveal_strlit("mips");
    reveal_strlit("mips64");
    reveal_strlit("mips64le");
    reveal_strlit("mipsle");
    reveal_strlit("ppc64");
    reveal_strlit("ppc64le");
    reveal_strlit("s390x");
    reveal_strlit("wasm");
    assert("386"@.len() == 3 && "amd64"@.len() == 5 && "arm"@.len() == 3 && "arm64"@.len() == 5
        && "mips"@.len() == 4 && "mips64"@.len() == 6 && "mips64le"@.len() == 8
        && "mipsle"@.len() == 6 && "ppc64"@.len() == 5 && "ppc64le"@.len() == 7
        && "s390x"@.len() == 5 && "wasm"@.len() == 4);
    assert("386"@[0] == '3' && "arm"@[0] == 'a');
    assert("mips"@[0] == 'm' && "wasm"@[0] == 'w');
    assert("amd64"@[0] == 'a' && "arm64"@[0] == 'a' && "ppc64"@[0] == 'p' && "s390x"@[0]
        == 's');
    assert("amd64"@[1] == 'm' && "arm64"@[1] == 'r');
    assert("mips64"@[4] == '6' && "mipsle"@[4] == 'l');
}

/// Reading back the wire spelling of an operating system gives the member.
proof fn lemma_os_round(o: OS)
    ensures
        os_of_chars(os_chars(o)) == Some(o),
{
    reveal_strlit("aix");
    reveal_strlit("android");
    reveal_strlit("darwin");
    reveal_strlit("dragonfly");
    reveal_strlit("freebsd");
    reveal_strlit("illumos");
    reveal_strlit("js");
    reveal_strlit("linux");
    reveal_strlit("netbsd");
    reveal_strlit("openbsd");
    reveal_strlit("plan9");
    reveal_strlit("solaris");
    reveal_strlit("windows");
    assert("aix"@.len() == 3 && "android"@.len() == 7 && "darwin"@.len() == 6
        && "dragonfly"@.len() == 9 && "freebsd"@.len() == 7 && "illumos"@.len() == 7
        && "js"@.len() == 2 && "linux"@.len() == 5 && "netbsd"@.len() == 6
        && "openbsd"@.len() == 7 && "plan9"@.len() == 5 && "solaris"@.len() == 7
        && "windows"@.len() == 7);
    assert("android"@[0] == 'a' && "freebsd"@[0] == 'f' && "illumos"@[0] == 'i' && "openbsd"@[0]
        == 'o' && "solaris"@[0] == 's' && "windows"@[0] == 'w');
    assert("darwin"@[0] == 'd' && "netbsd"@[0] == 'n');
    assert("linux"@[0] == 'l' && "plan9"@[0] == 'p');
}

/// The root filesystem record round-trips through its wire object.
proof fn lemma_rootfs_round(r: RootFSModel)
    ensures
        dec_rootfs(rootfs_json(r)) == Ok::<_, DocErrKind>(r),
{
    reveal_strlit("type");
    reveal_strlit("diff_ids");
    reveal_strlit("layers");
    assert("type"@.len() == 4 && "diff_ids"@.len() == 8);
    let ms = (match rootfs_json(r) {
        JsonModel::Obj(x) => x,
        _ => Seq::empty(),
    });
    lemma_obj_get_at(ms, 0, "type"@);
    lemma_obj_get_at(ms, 1, "diff_ids"@);
    lemma_dec_str_seq_of(r.diff_ids);
    assert(RootFSModel { rootfs_type: RootFSType::Layers, diff_ids: r.diff_ids } == r);
}

/// A history entry round-trips through its wire object.
proof fn lemma_history_round(h: HistoryModel)
    requires
        history_model_wf(h),
    ensures
        dec_history(history_json(h)) == Ok::<_, DocErrKind>(h),
{
    reveal_strlit("created");
    reveal_strlit("author");
    reveal_strlit("created_by");
    reveal_strlit("comment");
    reveal_strlit("empty_layer");
    assert("created"@.len() == 7 && "author"@.len() == 6 && "created_by"@.len() == 10
        && "comment"@.len() == 7 && "empty_layer"@.len() == 11);
    assert("created"@[1] == 'r' && "comment"@[1] == 'o');
    let ms = (match history_json(h) {
        JsonModel::Obj(x) => x,
        _ => Seq::empty(),
    });
    lemma_obj_get_at(ms, 0, "created"@);
    lemma_obj_get_at(ms, 1, "author"@);
    lemma_obj_get_at(ms, 2, "created_by"@);
    lemma_obj_get_at(ms, 3, "comment"@);
    lemma_obj_get_at(ms, 4, "empty_layer"@);
    match h.created {
        Some(t) => {
            crate::timestamp::lemma_ts_round_trip(t);
        },
        None => {},
    }
    assert(dec_history(history_json(h)) == Ok::<_, DocErrKind>(
        HistoryModel {
            created: h.created,
            author: h.author,
            created_by: h.created_by,
            comment: h.comment,
            empty_layer: h.empty_layer,
        },
    ));
    assert(HistoryModel {
        created: h.created,
        author: h.author,
        created_by: h.created_by,
        comment: h.comment,
        empty_layer: h.empty_layer,
    } == h);
}

/// The history array round-trips entry by entry.
proof fn lemma_dec_histories_of(hs: Seq<HistoryModel>)
    requires
        forall|i: int| 0 <= i < hs.len() ==> history_model_wf(#[trigger] hs[i]),
    ensures
        dec_histories(Seq::new(hs.len(), |i: int| history_json(hs[i]))) == Ok::<_, DocErrKind>(
            hs,
        ),
    decreases hs.len(),
{
    let js = Seq::new(hs.len(), |i: int| history_json(hs[i]));
    if hs.len() == 0 {
        assert(hs =~= Seq::<HistoryModel>::empty());
    } else {
        lemma_dec_histories_of(hs.drop_last());
        assert(js.drop_last() =~= Seq::new(
            hs.drop_last().len(),
            |i: int| history_json(hs.drop_last()[i]),
        ));
        lemma_history_round(hs.last());
        assert(hs.drop_last().push(hs.last()) =~= hs);
    }
}

/// The runtime configuration record round-trips through its wire object.
#[verifier::rlimit(50)]
#[verifier::spinoff_prover]
proof fn lemma_config_round(c: ConfigModel)
    requires
        config_model_wf(c),
    ensures
        dec_config(config_json(c)) == Ok::<_, DocErrKind>(c),
{
    reveal_strlit("User");
    reveal_strlit("ExposedPorts");
    reveal_strlit("Env");
    reveal_strlit("Entrypoint");
    reveal_strlit("Cmd");
    reveal_strlit("Volumes");
    reveal_strlit("WorkingDir");
    reveal_strlit("Labels");
    reveal_strlit("StopSignal");
    assert("User"@.len() == 4 && "ExposedPorts"@.len() == 12 && "Env"@.len() == 3
        && "Entrypoint"@.len() == 10 && "Cmd"@.len() == 3 && "Volumes"@.len() == 7
        && "WorkingDir"@.len() == 10 && "Labels"@.len() == 6 && "StopSignal"@.len() == 10);
    assert("Env"@[0] == 'E' && "Cmd"@[0] == 'C');
    assert("Entrypoint"@[0] == 'E' && "WorkingDir"@[0] == 'W' && "StopSignal"@[0] == 'S');
    let ms = (match config_json(c) {
        JsonModel::Obj(x) => x,
        _ => Seq::empty(),
    });
    lemma_obj_get_at(ms, 0, "User"@);
    lemma_obj_get_at(ms, 1, "ExposedPorts"@);
    lemma_obj_get_at(ms, 2, "Env"@);
    lemma_obj_get_at(ms, 3, "Entrypoint"@);
    lemma_obj_get_at(ms, 4, "Cmd"@);
    lemma_obj_get_at(ms, 5, "Volumes"@);
    lemma_obj_get_at(ms, 6, "WorkingDir"@);
    lemma_obj_get_at(ms, 7, "Labels"@);
    lemma_obj_get_at(ms, 8, "StopSignal"@);
    match c.exposed_ports {
        Some(ps) => {
            crate::setmap::lemma_set_map_round_trip::<Port>(ps);
        },
        None => {},
    }
    match c.env {
        Some(es) => {
            lemma_dec_env_seq_of(es);
        },
        None => {},
    }
    match c.entrypoint {
        Some(ss) => {
            lemma_dec_str_seq_of(ss);
        },
        None => {},
    }
    match c.cmd {
        Some(ss) => {
            lemma_dec_str_seq_of(ss);
        },
        None => {},
    }
    match c.volumes {
        Some(vs) => {
            crate::setmap::lemma_set_map_round_trip::<String>(vs);
        },
        None => {},
    }
    match c.labels {
        Some(ls) => {
            lemma_dec_label_pairs_of(ls);
            lemma_dedup_keys_id(ls);
        },
        None => {},
    }
    assert(dec_config(config_json(c)) == Ok::<_, DocErrKind>(
        ConfigModel {
            user: c.user,
            exposed_ports: c.exposed_ports,
            env: c.env,
            entrypoint: c.entrypoint,
            cmd: c.cmd,
            volumes: c.volumes,
            working_dir: c.working_dir,
            labels: c.labels,
            stop_signal: c.stop_signal,
        },
    ));
    assert(ConfigModel {
        user: c.user,
        exposed_ports: c.exposed_ports,
        env: c.env,
        entrypoint: c.entrypoint,
        cmd: c.cmd,
        volumes: c.volumes,
        working_dir: c.working_dir,
        labels: c.labels,
        stop_signal: c.stop_signal,
    } == c);
}

/// The round trip of the document codecs: reading back the wire tree of any
/// well-formed document gives a field-wise equal document.
#[verifier::rlimit(50)]
#[verifier::spinoff_prover]
pub proof fn lemma_doc_tree_round_trip(m: ImageConfigModel)
    requires
        doc_wf(m),
    ensures
        spec_doc_of_json(spec_doc_json(m)) == Ok::<_, DocErrKind>(m),
{
    reveal_strlit("architecture");
    reveal_strlit("os");
    reveal_strlit("rootfs");
    reveal_strlit("created");
    reveal_strlit("author");
    reveal_strlit("config");
    reveal_strlit("history");
    assert("architecture"@.len() == 12 && "os"@.len() == 2 && "rootfs"@.len() == 6
        && "created"@.len() == 7 && "author"@.len() == 6 && "config"@.len() == 6
        && "history"@.len() == 7);
    assert("rootfs"@[0] == 'r' && "author"@[0] == 'a' && "config"@[0] == 'c');
    assert("created"@[0] == 'c' && "history"@[0] == 'h');
    let ms = (match spec_doc_json(m) {
        JsonModel::Obj(x) => x,
        _ => Seq::empty(),
    });
    lemma_obj_get_at(ms, 0, "architecture"@);
    lemma_obj_get_at(ms, 1, "os"@);
    lemma_obj_get_at(ms, 2, "rootfs"@);
    lemma_obj_get_at(ms, 3, "created"@);
    lemma_obj_get_at(ms, 4, "author"@);
    lemma_obj_get_at(ms, 5, "config"@);
    lemma_obj_get_at(ms, 6, "history"@);
    lemma_arch_round(m.architecture);
    lemma_os_round(m.os);
    lemma_rootfs_round(m.rootfs);
    match m.created {
        Some(t) => {
            crate::timestamp::lemma_ts_round_trip(t);
        },
        None => {},
    }
    match m.config {
        Some(c) => {
            lemma_config_round(c);
        },
        None => {},
    }
    match m.history {
        Some(hs) => {
            lemma_dec_histories_of(hs);
        },
        None => {},
    }
    assert(spec_doc_of_json(spec_doc_json(m)) == Ok::<_, DocErrKind>(
        ImageConfigModel {
            architecture: m.architecture,
            os: m.os,
            rootfs: m.rootfs,
            created: m.created,
            author: m.author,
            config: m.config,
            history: m.history,
        },
    ));
    assert(ImageConfigModel {
        architecture: m.architecture,
        os: m.os,
        rootfs: m.rootfs,
        created: m.created,
        author: m.author,
        config: m.config,
        history: m.history,
    } == m);
}

/// No field of a document's wire tree is a number literal.
proof fn lemma_doc_json_num_free(m: ImageConfigModel)
    ensures
        crate::json::num_free(spec_doc_json(m)),
{
    let members = (match spec_doc_json(m) {
        JsonModel::Obj(x) => x,
        _ => Seq::empty(),
    });
    assert forall|i: int| 0 <= i < members.len() implies crate::json::num_free(
        (#[trigger] members[i]).1,
    ) by {
        if i == 2 {
            lemma_rootfs_num_free(m.rootfs);
        } else if i == 5 {
            match m.config {
                None => {},
                Some(c) => {
                    lemma_config_num_free(c);
                },
            }
        } else if i == 6 {
            match m.history {
                None => {},
                Some(hs) => {
                    lemma_histories_num_free(hs);
                },
            }
        }
    }
    crate::json::lemma_num_free_members(members);
}

proof fn lemma_str_arr_num_free(ss: Seq<Seq<char>>)
    ensures
        crate::json::num_free(str_arr_json(ss)),
{
    let elems = (match str_arr_json(ss) {
        JsonModel::Arr(es) => es,
        _ => Seq::empty(),
    });
    assert(forall|i: int|
        0 <= i < elems.len() ==> crate::json::num_free(#[trigger] elems[i]));
    crate::json::lemma_num_free_seq(elems);
}

proof fn lemma_rootfs_num_free(r: RootFSModel)
    ensures
        crate::json::num_free(rootfs_json(r)),
{
    let members = (match rootfs_json(r) {
        JsonModel::Obj(x) => x,
        _ => Seq::empty(),
    });
    assert forall|i: int| 0 <= i < members.len() implies crate::json::num_free(
        (#[trigger] members[i]).1,
    ) by {
        if i == 1 {
            lemma_str_arr_num_free(r.diff_ids);
        }
    }
    crate::json::lemma_num_free_members(members);
}

proof fn lemma_set_map_num_free_ports(ps: Seq<Port>)
    ensures
        crate::json::num_free(spec_set_map_obj::<Port>(ps)),
{
    let members = (match spec_set_map_obj::<Port>(ps) {
        JsonModel::Obj(x) => x,
        _ => Seq::empty(),
    });
    assert forall|i: int| 0 <= i < members.len() implies crate::json::num_free(
        (#[trigger] members[i]).1,
    ) by {
        crate::json::lemma_num_free_members(Seq::empty());
    }
    crate::json::lemma_num_free_members(members);
}

proof fn lemma_set_map_num_free_vols(vs: Seq<Seq<char>>)
    ensures
        crate::json::num_free(spec_set_map_obj::<String>(vs)),
{
    let members = (match spec_set_map_obj::<String>(vs) {
        JsonModel::Obj(x) => x,
        _ => Seq::empty(),
    });
    assert forall|i: int| 0 <= i < members.len() implies crate::json::num_free(
        (#[trigger] members[i]).1,
    ) by {
        crate::json::lemma_num_free_members(Seq::empty());
    }
    crate::json::lemma_num_free_members(members);
}

proof fn lemma_config_num_free(c: ConfigModel)
    ensures
        crate::json::num_free(config_json(c)),
{
    let members = (match config_json(c) {
        JsonModel::Obj(x) => x,
        _ => Seq::empty(),
    });
    assert forall|i: int| 0 <= i < members.len() implies crate::json::num_free(
        (#[trigger] members[i]).1,
    ) by {
        if i == 1 {
            match c.exposed_ports {
                None => {},
                Some(ps) => {
                    lemma_set_map_num_free_ports(ps);
                },
            }
        } else if i == 2 {
            match c.env {
                None => {},
                Some(es) => {
                    let elems = (match env_arr_json(es) {
                        JsonModel::Arr(xs) => xs,
                        _ => Seq::empty(),
                    });
                    assert(forall|k: int|
                        0 <= k < elems.len() ==> crate::json::num_free(#[trigger] elems[k]));
                    crate::json::lemma_num_free_seq(elems);
                },
            }
        } else if i == 3 {
            match c.entrypoint {
                None => {},
                Some(ss) => {
                    lemma_str_arr_num_free(ss);
                },
            }
        } else if i == 4 {
            match c.cmd {
                None => {},
                Some(ss) => {
                    lemma_str_arr_num_free(ss);
                },
            }
        } else if i == 5 {
            match c.volumes {
                None => {},
                Some(vs) => {
                    lemma_set_map_num_free_vols(vs);
                },
            }
        } else if i == 7 {
            match c.labels {
                None => {},
                Some(ls) => {
                    let lm = (match labels_json(ls) {
                        JsonModel::Obj(xs) => xs,
                        _ => Seq::empty(),
                    });
                    assert(forall|k: int|
                        0 <= k < lm.len() ==> crate::json::num_free((#[trigger] lm[k]).1));
                    crate::json::lemma_num_free_members(lm);
                },
            }
        }
    }
    crate::json::lemma_num_free_members(members);
}

proof fn lemma_histories_num_free(hs: Seq<HistoryModel>)
    ensures
        crate::json::num_free(histories_json(hs)),
{
    let elems = (match histories_json(hs) {
        JsonModel::Arr(es) => es,
        _ => Seq::empty(),
    });
    assert forall|i: int| 0 <= i < elems.len() implies crate::json::num_free(
        #[trigger] elems[i],
    ) by {
        let hm = (match history_json(hs[i]) {
            JsonModel::Obj(xs) => xs,
            _ => Seq::empty(),
        });
        assert(forall|k: int|
            0 <= k < hm.len() ==> crate::json::num_free((#[trigger] hm[k]).1));
        crate::json::lemma_num_free_members(hm);
    }
    crate::json::lemma_num_free_seq(elems);
}

/// The full round trip of the document: for every well-formed document,
/// parsing its canonical serialized text succeeds and gives a field-wise
/// equal document — the instants of its timestamps equal, its collections
/// equal member for member.
pub proof fn lemma_serialize_parse_round_trip(m: ImageConfigModel)
    requires
        doc_wf(m),
    ensures
        crate::json::spec_parse_text(crate::json::sp_val(spec_doc_json(m), 0)) == Some(
            spec_doc_json(m),
        ),
        spec_doc_of_json(spec_doc_json(m)) == Ok::<_, DocErrKind>(m),
{
    lemma_doc_json_num_free(m);
    crate::json::lemma_parse_print_text(spec_doc_json(m));
    lemma_doc_tree_round_trip(m);
}

// --- the executable parser -------------------------------------------------
/// Whether an error value has the kind the decode specification assigns.
pub open spec fn err_matches(e: ParseError, k: DocErrKind) -> bool {
    match k {
        DocErrKind::Schema => e is SchemaError,
        DocErrKind::Codec => e is CodecError,
    }
}

/// The model of an optional wire value.
pub open spec fn jm_opt(v: Option<&Json>) -> Option<JsonModel> {
    match v {
        None => None,
        Some(j) => Some(json_model(*j)),
    }
}

/// Finds the first member carrying the key.
fn obj_get_exec<'a>(members: &'a Vec<(String, Json)>, key: &str) -> (r: Option<&'a Json>)
    ensures
        match r {
            Some(v) => obj_get(json_model_members(members@), key@) == Some(json_model(*v)),
            None => obj_get(json_model_members(members@), key@) is None,
        },
{
    let ghost ms = json_model_members(members@);
    proof {
        lemma_json_model_members(members@);
        assert(ms.skip(0) =~= ms);
    }
    let mut i: usize = 0;
    while i < members.len()
        invariant
            i <= members@.len(),
            ms == json_model_members(members@),
            ms.len() == members@.len(),
            forall|k: int|
                0 <= k < members@.len() ==> #[trigger] ms[k] == (
                    members@[k].0@,
                    json_model(members@[k].1),
                ),
            obj_get(ms, key@) == obj_get(ms.skip(i as int), key@),
        decreases members@.len() - i,
    {
        proof {
            assert(ms.skip(i as int)[0] == ms[i as int]);
            assert(ms.skip(i as int).drop_first() =~= ms.skip(i + 1));
        }
        if crate::text::str_eq(members[i].0.as_str(), key) {
            return Some(&members[i].1);
        }
        i = i + 1;
    }
    proof {
        assert(ms.skip(members@.len() as int).len() == 0);
    }
    None
}

/// Builds a schema error naming what was expected.
fn schema_err(what: &str) -> (e: ParseError)
    ensures
        e is SchemaError,
{
    let mut msg = String::from_str("unexpected shape for ");
    msg.append(what);
    ParseError::SchemaError { message: msg }
}

/// Reads an optional text field.
fn dec_opt_str_exec(v: Option<&Json>, what: &str) -> (r: Result<Option<String>, ParseError>)
    ensures
        match r {
            Ok(o) => dec_opt_str(jm_opt(v)) == Ok::<_, DocErrKind>(o.deep_view()),
            Err(e) => dec_opt_str(jm_opt(v)) matches Err(k) && err_matches(e, k),
        },
{
    match v {
        None => Ok(None),
        Some(Json::Null) => Ok(None),
        Some(Json::Str(s)) => Ok(Some(s.clone())),
        Some(_) => Err(schema_err(what)),
    }
}

/// Reads an optional timestamp field.
fn dec_opt_ts_exec(v: Option<&Json>, what: &str) -> (r: Result<Option<Timestamp>, ParseError>)
    ensures
        match r {
            Ok(o) => dec_opt_ts(jm_opt(v)) == Ok::<_, DocErrKind>(o) && (o matches Some(t)
                ==> ts_wf(t)),
            Err(e) => dec_opt_ts(jm_opt(v)) matches Err(k) && err_matches(e, k),
        },
{
    match v {
        None => Ok(None),
        Some(Json::Null) => Ok(None),
        Some(Json::Str(s)) => match Timestamp::decode(s.as_str()) {
            Ok(t) => Ok(Some(t)),
            Err(e) => Err(e),
        },
        Some(_) => Err(schema_err(what)),
    }
}

/// Reads an optional boolean field.
fn dec_opt_bool_exec(v: Option<&Json>, what: &str) -> (r: Result<Option<bool>, ParseError>)
    ensures
        match r {
            Ok(o) => dec_opt_bool(jm_opt(v)) == Ok::<_, DocErrKind>(o),
            Err(e) => dec_opt_bool(jm_opt(v)) matches Err(k) && err_matches(e, k),
        },
{
    match v {
        None => Ok(None),
        Some(Json::Null) => Ok(None),
        Some(Json::Bool(b)) => Ok(Some(*b)),
        Some(_) => Err(schema_err(what)),
    }
}

/// Reads an array of strings.
fn dec_str_arr_exec(es: &Vec<Json>, what: &str) -> (r: Result<Vec<String>, ParseError>)
    ensures
        match r {
            Ok(v) => dec_str_seq(json_model_seq(es@)) == Ok::<_, DocErrKind>(v.deep_view()),
            Err(e) => dec_str_seq(json_model_seq(es@)) matches Err(k) && err_matches(e, k),
        },
{
    let ghost ms = json_model_seq(es@);
    proof {
        lemma_json_model_seq(es@);
        assert(ms.take(0) =~= Seq::<JsonModel>::empty());
    }
    let mut out: Vec<String> = Vec::new();
    proof {
        assert(out.deep_view() =~= Seq::<Seq<char>>::empty());
    }
    let mut i: usize = 0;
    while i < es.len()
        invariant
            i <= es@.len(),
            ms == json_model_seq(es@),
            ms.len() == es@.len(),
            forall|k: int| 0 <= k < es@.len() ==> #[trigger] ms[k] == json_model(es@[k]),
            dec_str_seq(ms.take(i as int)) == Ok::<_, DocErrKind>(out.deep_view()),
        decreases es@.len() - i,
    {
        proof {
            assert(ms.take(i + 1).drop_last() =~= ms.take(i as int));
            assert(ms.take(i + 1).last() == ms[i as int]);
        }
        match &es[i] {
            Json::Str(s) => {
                let ghost pre = out.deep_view();
                out.push(s.clone());
                proof {
                    assert(out.deep_view() =~= pre.push(s@));
                }
            },
            _ => {
                proof {
                    lemma_dec_str_seq_extend(ms, i + 1);
                    assert(ms.take(ms.len() as int) =~= ms);
                }
                return Err(schema_err(what));
            },
        }
        i = i + 1;
    }
    proof {
        assert(ms.take(ms.len() as int) =~= ms);
    }
    Ok(out)
}

/// Reads an array of environment entries.
fn dec_env_arr_exec(es: &Vec<Json>) -> (r: Result<Vec<EnvVar>, ParseError>)
    ensures
        match r {
            Ok(v) => dec_env_seq(json_model_seq(es@)) == Ok::<_, DocErrKind>(v.deep_view())
                && forall|i: int|
                0 <= i < v@.len() ==> env_model_wf(#[trigger] v@[i].deep_view()),
            Err(e) => dec_env_seq(json_model_seq(es@)) matches Err(k) && err_matches(e, k),
        },
{
    let ghost ms = json_model_seq(es@);
    proof {
        lemma_json_model_seq(es@);
        assert(ms.take(0) =~= Seq::<JsonModel>::empty());
    }
    let mut out: Vec<EnvVar> = Vec::new();
    proof {
        assert(out.deep_view() =~= Seq::<crate::env_var::EnvVarModel>::empty());
    }
    let mut i: usize = 0;
    while i < es.len()
        invariant
            i <= es@.len(),
            ms == json_model_seq(es@),
            ms.len() == es@.len(),
            forall|k: int| 0 <= k < es@.len() ==> #[trigger] ms[k] == json_model(es@[k]),
            dec_env_seq(ms.take(i as int)) == Ok::<_, DocErrKind>(out.deep_view()),
            forall|k: int| 0 <= k < out@.len() ==> env_model_wf(#[trigger] out@[k].deep_view()),
        decreases es@.len() - i,
    {
        proof {
            assert(ms.take(i + 1).drop_last() =~= ms.take(i as int));
            assert(ms.take(i + 1).last() == ms[i as int]);
        }
        match &es[i] {
            Json::Str(s) => {
                match EnvVar::decode(s.as_str()) {
                    Ok(e) => {
                        let ghost pre = out.deep_view();
                        proof {
                            crate::env_var::lemma_env_decode_parts(s@);
                        }
                        out.push(e);
                        proof {
                            assert(out.deep_view() =~= pre.push(out@[out@.len() - 1].deep_view()));
                        }
                    },
                    Err(e) => {
                        proof {
                            lemma_dec_env_seq_extend(ms, i + 1);
                            assert(ms.take(ms.len() as int) =~= ms);
                        }
                        return Err(e);
                    },
                }
            },
            _ => {
                proof {
                    lemma_dec_env_seq_extend(ms, i + 1);
                    assert(ms.take(ms.len() as int) =~= ms);
                }
                return Err(schema_err("an `Env` entry"));
            },
        }
        i = i + 1;
    }
    proof {
        assert(ms.take(ms.len() as int) =~= ms);
    }
    Ok(out)
}

/// Reads the labels object: string values, duplicate keys collapsed to the
/// first occurrence.
#[verifier::rlimit(50)]
#[verifier::spinoff_prover]
fn dec_labels_exec(j: &Json) -> (r: Result<Vec<(String, String)>, ParseError>)
    ensures
        match r {
            Ok(v) => dec_labels(json_model(*j)) == Ok::<_, DocErrKind>(v.deep_view())
                && labels_model_wf(v.deep_view()),
            Err(e) => dec_labels(json_model(*j)) matches Err(k) && err_matches(e, k),
        },
{
    match j {
        Json::Obj(lms) => {
            let ghost ms = json_model_members(lms@);
            proof {
                lemma_json_model_members(lms@);
                assert(ms.take(0) =~= Seq::<(Seq<char>, JsonModel)>::empty());
            }
            // first pass: check every value is a string and collect the pairs
            let mut pairs: Vec<(String, String)> = Vec::new();
            proof {
                assert(pairs.deep_view() =~= Seq::<(Seq<char>, Seq<char>)>::empty());
            }
            let mut i: usize = 0;
            while i < lms.len()
                invariant
                    i <= lms@.len(),
                    ms == json_model_members(lms@),
                    json_model(*j) == JsonModel::Obj(ms),
                    ms.len() == lms@.len(),
                    forall|k: int|
                        0 <= k < lms@.len() ==> #[trigger] ms[k] == (
                            lms@[k].0@,
                            json_model(lms@[k].1),
                        ),
                    dec_label_pairs(ms.take(i as int)) == Ok::<_, DocErrKind>(pairs.deep_view()),
                decreases lms@.len() - i,
            {
                proof {
                    assert(ms.take(i + 1).drop_last() =~= ms.take(i as int));
                    assert(ms.take(i + 1).last() == ms[i as int]);
                }
                match &lms[i].1 {
                    Json::Str(val) => {
                        let ghost pre = pairs.deep_view();
                        pairs.push((lms[i].0.clone(), val.clone()));
                        proof {
                            assert(pairs.deep_view() =~= pre.push((lms@[i as int].0@, val@)));
                        }
                    },
                    _ => {
                        proof {
                            lemma_dec_label_pairs_extend(ms, i + 1);
                            assert(ms.take(ms.len() as int) =~= ms);
                        }
                        return Err(schema_err("a label value"));
                    },
                }
                i = i + 1;
            }
            proof {
                assert(ms.take(ms.len() as int) =~= ms);
            }
            // second pass: collapse duplicate keys, first occurrence kept
            let ghost pv = pairs.deep_view();
            let mut out: Vec<(String, String)> = Vec::new();
            proof {
                assert(pv.take(0) =~= Seq::<(Seq<char>, Seq<char>)>::empty());
                assert(out.deep_view() =~= Seq::<(Seq<char>, Seq<char>)>::empty());
            }
            let mut i2: usize = 0;
            while i2 < pairs.len()
                invariant
                    i2 <= pairs@.len(),
                    pv == pairs.deep_view(),
                    pv.len() == pairs@.len(),
                    forall|k: int|
                        0 <= k < pairs@.len() ==> #[trigger] pv[k] == (
                            pairs@[k].0@,
                            pairs@[k].1@,
                        ),
                    out.deep_view() == dedup_keys(pv.take(i2 as int)),
                    forall|k: int|
                        0 <= k < out@.len() ==> #[trigger] out.deep_view()[k] == (
                            out@[k].0@,
                            out@[k].1@,
                        ),
                decreases pairs@.len() - i2,
            {
                proof {
                    assert(pv.take(i2 + 1).drop_last() =~= pv.take(i2 as int));
                    assert(pv.take(i2 + 1).last() == pv[i2 as int]);
                }
                let ghost key = pv[i2 as int].0;
                let mut found = false;
                let mut k: usize = 0;
                while k < out.len()
                    invariant
                        key == pv[i2 as int].0,
                        i2 < pairs@.len(),
                        pv.len() == pairs@.len(),
                        forall|q: int|
                            0 <= q < pairs@.len() ==> #[trigger] pv[q] == (
                                pairs@[q].0@,
                                pairs@[q].1@,
                            ),
                        k <= out@.len(),
                        out.deep_view().len() == out@.len(),
                        forall|q: int|
                            0 <= q < out@.len() ==> #[trigger] out.deep_view()[q] == (
                                out@[q].0@,
                                out@[q].1@,
                            ),
                        found == exists|q: int|
                            0 <= q < k && (#[trigger] out@[q]).0@ == key,
                    decreases out@.len() - k,
                {
                    let eq = crate::text::str_eq(out[k].0.as_str(), pairs[i2].0.as_str());
                    if eq {
                        found = true;
                        proof {
                            assert(out@[k as int].0@ == key);
                        }
                    }
                    k = k + 1;
                }
                proof {
                    lemma_dedup_keys_has_key(pv.take(i2 as int), key);
                    assert(found == has_key(pv.take(i2 as int), key)) by {
                        if found {
                            let q = choose|q: int|
                                0 <= q < out@.len() && (#[trigger] out@[q]).0@ == key;
                            assert(out.deep_view()[q].0 == key);
                            assert(has_key(dedup_keys(pv.take(i2 as int)), key)) by {
                                assert(dedup_keys(pv.take(i2 as int))[q].0 == key);
                            }
                        } else {
                            if has_key(pv.take(i2 as int), key) {
                                let q = choose|q: int|
                                    0 <= q < dedup_keys(pv.take(i2 as int)).len() && (
                                    #[trigger] dedup_keys(pv.take(i2 as int))[q]).0 == key;
                                assert(out.deep_view()[q].0 == key);
                                assert(out@[q].0@ == key);
                            }
                        }
                    }
                }
                if !found {
                    let ghost pre = out.deep_view();
                    out.push((pairs[i2].0.clone(), pairs[i2].1.clone()));
                    proof {
                        assert(out.deep_view() =~= pre.push(pv[i2 as int]));
                    }
                }
                i2 = i2 + 1;
            }
            proof {
                assert(pv.take(pv.len() as int) =~= pv);
                lemma_dedup_keys_distinct(pv);
                assert(labels_model_wf(out.deep_view()));
            }
            Ok(out)
        },
        _ => Err(schema_err("labels")),
    }
}

/// Reads the root filesystem record.
fn dec_rootfs_exec(j: &Json) -> (r: Result<RootFS, ParseError>)
    ensures
        match r {
            Ok(rf) => dec_rootfs(json_model(*j)) == Ok::<_, DocErrKind>(rf.deep_view()),
            Err(e) => dec_rootfs(json_model(*j)) matches Err(k) && err_matches(e, k),
        },
{
    match j {
        Json::Obj(rms) => {
            match obj_get_exec(rms, "type") {
                Some(Json::Str(s)) => {
                    if crate::text::str_eq(s.as_str(), "layers") {
                        match obj_get_exec(rms, "diff_ids") {
                            Some(Json::Arr(es)) => match dec_str_arr_exec(es, "a layer digest") {
                                Ok(ids) => Ok(RootFS { _type: RootFSType::Layers, diff_ids: ids }),
                                Err(e) => Err(e),
                            },
                            Some(_) => Err(schema_err("`rootfs.diff_ids`")),
                            None => Err(schema_err("`rootfs`: missing `diff_ids`")),
                        }
                    } else {
                        Err(schema_err("`rootfs.type`: not the recognized kind"))
                    }
                },
                Some(_) => Err(schema_err("`rootfs.type`")),
                None => Err(schema_err("`rootfs`: missing `type`")),
            }
        },
        _ => Err(schema_err("`rootfs`")),
    }
}

/// Reads the runtime configuration record.
#[verifier::rlimit(50)]
#[verifier::spinoff_prover]
fn dec_config_exec(j: &Json) -> (r: Result<Config, ParseError>)
    ensures
        match r {
            Ok(c) => dec_config(json_model(*j)) == Ok::<_, DocErrKind>(c.deep_view())
                && config_model_wf(c.deep_view()),
            Err(e) => dec_config(json_model(*j)) matches Err(k) && err_matches(e, k),
        },
{
    match j {
        Json::Obj(cms) => {
            let user = match dec_opt_str_exec(obj_get_exec(cms, "User"), "`User`") {
                Ok(o) => o,
                Err(e) => {
                    return Err(e);
                },
            };
            let exposed_ports = match obj_get_exec(cms, "ExposedPorts") {
                None => None,
                Some(Json::Null) => None,
                Some(pv) => match ExposedPorts::from_json(pv) {
                    Ok(ep) => Some(ep),
                    Err(e) => {
                        return Err(e);
                    },
                },
            };
            let env = match obj_get_exec(cms, "Env") {
                None => None,
                Some(Json::Null) => None,
                Some(Json::Arr(es)) => match dec_env_arr_exec(es) {
                    Ok(xs) => Some(xs),
                    Err(e) => {
                        return Err(e);
                    },
                },
                Some(_) => {
                    return Err(schema_err("`Env`"));
                },
            };
            let entrypoint = match obj_get_exec(cms, "Entrypoint") {
                None => None,
                Some(Json::Null) => None,
                Some(Json::Arr(es)) => match dec_str_arr_exec(es, "an `Entrypoint` element") {
                    Ok(xs) => Some(xs),
                    Err(e) => {
                        return Err(e);
                    },
                },
                Some(_) => {
                    return Err(schema_err("`Entrypoint`"));
                },
            };
            let cmd = match obj_get_exec(cms, "Cmd") {
                None => None,
                Some(Json::Null) => None,
                Some(Json::Arr(es)) => match dec_str_arr_exec(es, "a `Cmd` element") {
                    Ok(xs) => Some(xs),
                    Err(e) => {
                        return Err(e);
                    },
                },
                Some(_) => {
                    return Err(schema_err("`Cmd`"));
                },
            };
            let volumes = match obj_get_exec(cms, "Volumes") {
                None => None,
                Some(Json::Null) => None,
                Some(vv) => match Volumes::from_json(vv) {
                    Ok(vs) => Some(vs),
                    Err(e) => {
                        return Err(e);
                    },
                },
            };
            let working_dir = match dec_opt_str_exec(obj_get_exec(cms, "WorkingDir"), "`WorkingDir`") {
                Ok(o) => o,
                Err(e) => {
                    return Err(e);
                },
            };
            let labels = match obj_get_exec(cms, "Labels") {
                None => None,
                Some(Json::Null) => None,
                Some(lv) => match dec_labels_exec(lv) {
                    Ok(ls) => Some(ls),
                    Err(e) => {
                        return Err(e);
                    },
                },
            };
            let stop_signal = match dec_opt_str_exec(obj_get_exec(cms, "StopSignal"), "`StopSignal`") {
                Ok(o) => o,
                Err(e) => {
                    return Err(e);
                },
            };
            let c = Config {
                user,
                exposed_ports,
                env,
                entrypoint,
                cmd,
                volumes,
                working_dir,
                labels,
                stop_signal,
            };
            proof {
                match &c.exposed_ports {
                    Some(ep) => {
                        assert forall|i: int| 0 <= i < ep.deep_view().len() implies port_wf(
                            #[trigger] ep.deep_view()[i],
                        ) by {
                            assert(ep.deep_view()[i] == ep.ports@[i].deep_view());
                        }
                        assert forall|i: int, q: int|
                            0 <= i < q < ep.deep_view().len() implies ep.deep_view()[i]
                            != ep.deep_view()[q] by {
                            assert(ep.deep_view()[i] == ep.ports@[i].deep_view());
                            assert(ep.deep_view()[q] == ep.ports@[q].deep_view());
                        }
                    },
                    None => {},
                }
                match &c.env {
                    Some(es) => {
                        assert(forall|i: int|
                            0 <= i < es.deep_view().len() ==> #[trigger] es.deep_view()[i]
                                == es@[i].deep_view());
                    },
                    None => {},
                }
                match &c.volumes {
                    Some(vs) => {
                        assert forall|i: int, q: int|
                            0 <= i < q < vs.deep_view().len() implies vs.deep_view()[i]
                            != vs.deep_view()[q] by {
                            assert(vs.deep_view()[i] == vs.0@[i].deep_view());
                            assert(vs.deep_view()[q] == vs.0@[q].deep_view());
                        }
                    },
                    None => {},
                }
            }
            Ok(c)
        },
        _ => Err(schema_err("`config`")),
    }
}

/// Reads one history entry.
fn dec_history_exec(j: &Json) -> (r: Result<History, ParseError>)
    ensures
        match r {
            Ok(h) => dec_history(json_model(*j)) == Ok::<_, DocErrKind>(h.deep_view())
                && history_model_wf(h.deep_view()),
            Err(e) => dec_history(json_model(*j)) matches Err(k) && err_matches(e, k),
        },
{
    match j {
        Json::Obj(hms) => {
            let created = match dec_opt_ts_exec(obj_get_exec(hms, "created"), "`created`") {
                Ok(o) => o,
                Err(e) => {
                    return Err(e);
                },
            };
            let author = match dec_opt_str_exec(obj_get_exec(hms, "author"), "`author`") {
                Ok(o) => o,
                Err(e) => {
                    return Err(e);
                },
            };
            let created_by = match dec_opt_str_exec(obj_get_exec(hms, "created_by"), "`created_by`") {
                Ok(o) => o,
                Err(e) => {
                    return Err(e);
                },
            };
            let comment = match dec_opt_str_exec(obj_get_exec(hms, "comment"), "`comment`") {
                Ok(o) => o,
                Err(e) => {
                    return Err(e);
                },
            };
            let empty_layer = match dec_opt_bool_exec(obj_get_exec(hms, "empty_layer"), "`empty_layer`") {
                Ok(o) => o,
                Err(e) => {
                    return Err(e);
                },
            };
            Ok(History { created, author, created_by, comment, empty_layer })
        },
        _ => Err(schema_err("a history entry")),
    }
}

/// Reads the history array.
fn dec_histories_exec(es: &Vec<Json>) -> (r: Result<Vec<History>, ParseError>)
    ensures
        match r {
            Ok(v) => dec_histories(json_model_seq(es@)) == Ok::<_, DocErrKind>(v.deep_view())
                && forall|i: int|
                0 <= i < v@.len() ==> history_model_wf(#[trigger] v@[i].deep_view()),
            Err(e) => dec_histories(json_model_seq(es@)) matches Err(k) && err_matches(e, k),
        },
{
    let ghost ms = json_model_seq(es@);
    proof {
        lemma_json_model_seq(es@);
        assert(ms.take(0) =~= Seq::<JsonModel>::empty());
    }
    let mut out: Vec<History> = Vec::new();
    proof {
        assert(out.deep_view() =~= Seq::<HistoryModel>::empty());
    }
    let mut i: usize = 0;
    while i < es.len()
        invariant
            i <= es@.len(),
            ms == json_model_seq(es@),
            ms.len() == es@.len(),
            forall|k: int| 0 <= k < es@.len() ==> #[trigger] ms[k] == json_model(es@[k]),
            dec_histories(ms.take(i as int)) == Ok::<_, DocErrKind>(out.deep_view()),
            forall|k: int|
                0 <= k < out@.len() ==> history_model_wf(#[trigger] out@[k].deep_view()),
        decreases es@.len() - i,
    {
        proof {
            assert(ms.take(i + 1).drop_last() =~= ms.take(i as int));
            assert(ms.take(i + 1).last() == ms[i as int]);
        }
        match dec_history_exec(&es[i]) {
            Ok(h) => {
                let ghost pre = out.deep_view();
                out.push(h);
                proof {
                    assert(out.deep_view() =~= pre.push(out@[out@.len() - 1].deep_view()));
                }
            },
            Err(e) => {
                proof {
                    lemma_dec_histories_extend(ms, i + 1);
                    assert(ms.take(ms.len() as int) =~= ms);
                }
                return Err(e);
            },
        }
        i = i + 1;
    }
    proof {
        assert(ms.take(ms.len() as int) =~= ms);
    }
    Ok(out)
}

/// Reads an architecture spelling.
fn dec_arch_exec(s: &str) -> (r: Option<Architecture>)
    ensures
        r == arch_of_chars(s@),
{
    if crate::text::str_eq(s, "386") {
        Some(Architecture::_386)
    } else if crate::text::str_eq(s, "amd64") {
        Some(Architecture::Amd64)
    } else if crate::text::str_eq(s, "arm") {
        Some(Architecture::Arm)
    } else if crate::text::str_eq(s, "arm64") {
        Some(Architecture::Arm64)
    } else if crate::text::str_eq(s, "mips") {
        Some(Architecture::Mips)
    } else if crate::text::str_eq(s, "mips64") {
        Some(Architecture::Mips64)
    } else if crate::text::str_eq(s, "mips64le") {
        Some(Architecture::Mips64le)
    } else if crate::text::str_eq(s, "mipsle") {
        Some(Architecture::Mipsle)
    } else if crate::text::str_eq(s, "ppc64") {
        Some(Architecture::Ppc64)
    } else if crate::text::str_eq(s, "ppc64le") {
        Some(Architecture::Ppc64le)
    } else if crate::text::str_eq(s, "s390x") {
        Some(Architecture::S390x)
    } else if crate::text::str_eq(s, "wasm") {
        Some(Architecture::Wasm)
    } else {
        None
    }
}

/// Reads an operating system spelling.
fn dec_os_exec(s: &str) -> (r: Option<OS>)
    ensures
        r == os_of_chars(s@),
{
    if crate::text::str_eq(s, "aix") {
        Some(OS::Aix)
    } else if crate::text::str_eq(s, "android") {
        Some(OS::Android)
    } else if crate::text::str_eq(s, "darwin") {
        Some(OS::Darwin)
    } else if crate::text::str_eq(s, "dragonfly") {
        Some(OS::Dragonfly)
    } else if crate::text::str_eq(s, "freebsd") {
        Some(OS::Freebsd)
    } else if crate::text::str_eq(s, "illumos") {
        Some(OS::Illumos)
    } else if crate::text::str_eq(s, "js") {
        Some(OS::Js)
    } else if crate::text::str_eq(s, "linux") {
        Some(OS::Linux)
    } else if crate::text::str_eq(s, "netbsd") {
        Some(OS::Netbsd)
    } else if crate::text::str_eq(s, "openbsd") {
        Some(OS::Openbsd)
    } else if crate::text::str_eq(s, "plan9") {
        Some(OS::Plan9)
    } else if crate::text::str_eq(s, "solaris") {
        Some(OS::Solaris)
    } else if crate::text::str_eq(s, "windows") {
        Some(OS::Windows)
    } else {
        None
    }
}

/// Reads a whole document from its wire tree.
#[verifier::rlimit(50)]
#[verifier::spinoff_prover]
pub fn doc_of_json(j: &Json) -> (r: Result<ImageConfig, ParseError>)
    ensures
        match r {
            Ok(c) => spec_doc_of_json(json_model(*j)) == Ok::<_, DocErrKind>(c.deep_view())
                && doc_wf(c.deep_view()),
            Err(e) => spec_doc_of_json(json_model(*j)) matches Err(k) && err_matches(e, k),
        },
{
    match j {
        Json::Obj(ms) => {
            let architecture = match obj_get_exec(ms, "architecture") {
                Some(Json::Str(s)) => match dec_arch_exec(s.as_str()) {
                    Some(a) => a,
                    None => {
                        return Err(schema_err("`architecture`: not a member of the closed set"));
                    },
                },
                Some(_) => {
                    return Err(schema_err("`architecture`"));
                },
                None => {
                    return Err(schema_err("missing required field `architecture`"));
                },
            };
            let os = match obj_get_exec(ms, "os") {
                Some(Json::Str(s)) => match dec_os_exec(s.as_str()) {
                    Some(o) => o,
                    None => {
                        return Err(schema_err("`os`: not a member of the closed set"));
                    },
                },
                Some(_) => {
                    return Err(schema_err("`os`"));
                },
                None => {
                    return Err(schema_err("missing required field `os`"));
                },
            };
            let rootfs = match obj_get_exec(ms, "rootfs") {
                Some(v) => match dec_rootfs_exec(v) {
                    Ok(rf) => rf,
                    Err(e) => {
                        return Err(e);
                    },
                },
                None => {
                    return Err(schema_err("missing required field `rootfs`"));
                },
            };
            let created = match dec_opt_ts_exec(obj_get_exec(ms, "created"), "`created`") {
                Ok(o) => o,
                Err(e) => {
                    return Err(e);
                },
            };
            let author = match dec_opt_str_exec(obj_get_exec(ms, "author"), "`author`") {
                Ok(o) => o,
                Err(e) => {
                    return Err(e);
                },
            };
            let config = match obj_get_exec(ms, "config") {
                None => None,
                Some(Json::Null) => None,
                Some(cv) => match dec_config_exec(cv) {
                    Ok(c) => Some(c),
                    Err(e) => {
                        return Err(e);
                    },
                },
            };
            let history = match obj_get_exec(ms, "history") {
                None => None,
                Some(Json::Null) => None,
                Some(Json::Arr(es)) => match dec_histories_exec(es) {
                    Ok(hs) => Some(hs),
                    Err(e) => {
                        return Err(e);
                    },
                },
                Some(_) => {
                    return Err(schema_err("`history`"));
                },
            };
            let c = ImageConfig { architecture, os, rootfs, created, author, config, history };
            proof {
                match &c.history {
                    Some(hs) => {
                        assert(forall|i: int|
                            0 <= i < hs.deep_view().len() ==> #[trigger] hs.deep_view()[i]
                                == hs@[i].deep_view());
                    },
                    None => {},
                }
            }
            Ok(c)
        },
        _ => Err(schema_err("the document: expected an object")),
    }
}

/// Reads a document from wire text: a structural failure if the text is not
/// well-formed at all, a schema failure if the document shape is wrong, a
/// codec failure if a field's content fails its grammar — and the document
/// exactly when the text conforms.
pub fn parse_image_config(raw: &str) -> (r: Result<ImageConfig, ParseError>)
    ensures
        match r {
            Ok(c) => {
                &&& crate::json::spec_parse_text(raw@) matches Some(m)
                &&& spec_doc_of_json(m) == Ok::<_, DocErrKind>(c.deep_view())
                &&& doc_wf(c.deep_view())
            },
            Err(e) => match crate::json::spec_parse_text(raw@) {
                None => e is StructuralError,
                Some(m) => spec_doc_of_json(m) matches Err(k) && err_matches(e, k),
            },
        },
{
    match crate::json::parse_text(raw) {
        Ok(j) => doc_of_json(&j),
        Err(e) => Err(e),
    }
}

// --- executable serialization ---------------------------------------------
/// Writes an optional text field: the string, or the null marker.
fn opt_str_to_json(o: &Option<String>) -> (r: Json)
    ensures
        json_model(r) == opt_str_json(o.deep_view()),
{
    match o {
        None => Json::Null,
        Some(s) => Json::Str(s.clone()),
    }
}

/// Writes an array of strings.
fn str_arr_to_json(v: &Vec<String>) -> (r: Json)
    ensures
        json_model(r) == str_arr_json(v.deep_view()),
{
    let mut elems: Vec<Json> = Vec::new();
    let mut i: usize = 0;
    while i < v.len()
        invariant
            i <= v@.len(),
            elems@.len() == i,
            forall|k: int|
                0 <= k < i ==> json_model(#[trigger] elems@[k]) == JsonModel::Str(v@[k]@),
        decreases v@.len() - i,
    {
        elems.push(Json::Str(v[i].clone()));
        i = i + 1;
    }
    let r = Json::Arr(elems);
    proof {
        lemma_json_model_seq(elems@);
        assert(forall|k: int| 0 <= k < v@.len() ==> #[trigger] v.deep_view()[k] == v@[k]@);
        assert(json_model_seq(elems@) =~~= Seq::new(
            v.deep_view().len(),
            |i: int| JsonModel::Str(v.deep_view()[i]),
        ));
    }
    r
}

/// Writes an array of environment entries, each as its wire string.
fn env_arr_to_json(v: &Vec<EnvVar>) -> (r: Json)
    ensures
        json_model(r) == env_arr_json(v.deep_view()),
{
    let mut elems: Vec<Json> = Vec::new();
    let mut i: usize = 0;
    while i < v.len()
        invariant
            i <= v@.len(),
            elems@.len() == i,
            forall|k: int|
                0 <= k < i ==> json_model(#[trigger] elems@[k]) == JsonModel::Str(
                    spec_env_encode(v@[k].var_name@, v@[k].var_value@),
                ),
        decreases v@.len() - i,
    {
        elems.push(v[i].to_json());
        i = i + 1;
    }
    let r = Json::Arr(elems);
    proof {
        lemma_json_model_seq(elems@);
        assert(forall|k: int|
            0 <= k < v@.len() ==> #[trigger] v.deep_view()[k] == v@[k].deep_view());
        assert(json_model_seq(elems@) =~~= Seq::new(
            v.deep_view().len(),
            |i: int| JsonModel::Str(
                spec_env_encode(v.deep_view()[i].name, v.deep_view()[i].value),
            ),
        ));
    }
    r
}

/// Writes the labels as an object of text values, in stored order.
fn labels_to_json(v: &Vec<(String, String)>) -> (r: Json)
    ensures
        json_model(r) == labels_json(v.deep_view()),
{
    let mut members: Vec<(String, Json)> = Vec::new();
    let mut i: usize = 0;
    while i < v.len()
        invariant
            i <= v@.len(),
            members@.len() == i,
            forall|k: int|
                0 <= k < i ==> (#[trigger] members@[k]).0@ == v@[k].0@ && json_model(
                    members@[k].1,
                ) == JsonModel::Str(v@[k].1@),
        decreases v@.len() - i,
    {
        members.push((v[i].0.clone(), Json::Str(v[i].1.clone())));
        i = i + 1;
    }
    let r = Json::Obj(members);
    proof {
        lemma_json_model_members(members@);
        assert(forall|k: int|
            0 <= k < v@.len() ==> #[trigger] v.deep_view()[k] == (v@[k].0@, v@[k].1@));
        assert(json_model_members(members@) =~~= Seq::new(
            v.deep_view().len(),
            |i: int| (v.deep_view()[i].0, JsonModel::Str(v.deep_view()[i].1)),
        ));
    }
    r
}

/// Writes an optional timestamp: the canonical encoding, or null.
fn ts_to_json(o: &Option<Timestamp>) -> (r: Json)
    requires
        o matches Some(t) ==> ts_wf(*t),
    ensures
        json_model(r) == ts_json(o.deep_view()),
{
    match o {
        None => Json::Null,
        Some(t) => Json::Str(t.encode()),
    }
}

/// Writes the root filesystem record.
fn rootfs_to_json(r: &RootFS) -> (j: Json)
    ensures
        json_model(j) == rootfs_json(r.deep_view()),
{
    let mut members: Vec<(String, Json)> = Vec::new();
    members.push((String::from_str("type"), Json::Str(String::from_str("layers"))));
    members.push((String::from_str("diff_ids"), str_arr_to_json(&r.diff_ids)));
    let j = Json::Obj(members);
    proof {
        lemma_json_model_members(members@);
        assert(json_model_members(members@) =~~= seq![
            ("type"@, JsonModel::Str(rootfs_type_chars(r._type))),
            ("diff_ids"@, str_arr_json(r.diff_ids.deep_view())),
        ]);
    }
    j
}

/// Writes the runtime configuration record, keys in declared order.
fn config_to_json(c: &Config) -> (j: Json)
    requires
        config_model_wf(c.deep_view()),
    ensures
        json_model(j) == config_json(c.deep_view()),
{
    let mut members: Vec<(String, Json)> = Vec::new();
    members.push((String::from_str("User"), opt_str_to_json(&c.user)));
    let ep_json = match &c.exposed_ports {
        None => Json::Null,
        Some(ep) => {
            proof {
                assert forall|i: int| 0 <= i < ep.ports@.len() implies port_wf(
                    #[trigger] ep.ports@[i],
                ) by {
                    assert(ep.deep_view()[i] == ep.ports@[i].deep_view());
                }
                assert forall|i: int, k: int| 0 <= i < k < ep.ports@.len() implies ep.ports@[i]
                    != ep.ports@[k] by {
                    assert(ep.deep_view()[i] == ep.ports@[i].deep_view());
                    assert(ep.deep_view()[k] == ep.ports@[k].deep_view());
                }
            }
            ep.to_json()
        },
    };
    members.push((String::from_str("ExposedPorts"), ep_json));
    let env_json = match &c.env {
        None => Json::Null,
        Some(es) => env_arr_to_json(es),
    };
    members.push((String::from_str("Env"), env_json));
    let entry_json = match &c.entrypoint {
        None => Json::Null,
        Some(ss) => str_arr_to_json(ss),
    };
    members.push((String::from_str("Entrypoint"), entry_json));
    let cmd_json = match &c.cmd {
        None => Json::Null,
        Some(ss) => str_arr_to_json(ss),
    };
    members.push((String::from_str("Cmd"), cmd_json));
    let vol_json = match &c.volumes {
        None => Json::Null,
        Some(vs) => vs.to_json(),
    };
    members.push((String::from_str("Volumes"), vol_json));
    members.push((String::from_str("WorkingDir"), opt_str_to_json(&c.working_dir)));
    let labels_j = match &c.labels {
        None => Json::Null,
        Some(ls) => labels_to_json(ls),
    };
    members.push((String::from_str("Labels"), labels_j));
    members.push((String::from_str("StopSignal"), opt_str_to_json(&c.stop_signal)));
    let j = Json::Obj(members);
    proof {
        lemma_json_model_members(members@);
        assert(json_model_members(members@) =~~= (match config_json(c.deep_view()) {
            JsonModel::Obj(ms) => ms,
            _ => Seq::empty(),
        }));
    }
    j
}

/// Writes one history entry, keys in declared order.
fn history_to_json(h: &History) -> (j: Json)
    requires
        history_model_wf(h.deep_view()),
    ensures
        json_model(j) == history_json(h.deep_view()),
{
    let mut members: Vec<(String, Json)> = Vec::new();
    members.push((String::from_str("created"), ts_to_json(&h.created)));
    members.push((String::from_str("author"), opt_str_to_json(&h.author)));
    members.push((String::from_str("created_by"), opt_str_to_json(&h.created_by)));
    members.push((String::from_str("comment"), opt_str_to_json(&h.comment)));
    let el = match h.empty_layer {
        None => Json::Null,
        Some(b) => Json::Bool(b),
    };
    members.push((String::from_str("empty_layer"), el));
    let j = Json::Obj(members);
    proof {
        lemma_json_model_members(members@);
        assert(json_model_members(members@) =~~= (match history_json(h.deep_view()) {
            JsonModel::Obj(ms) => ms,
            _ => Seq::empty(),
        }));
    }
    j
}

/// Writes the history array.
fn histories_to_json(v: &Vec<History>) -> (r: Json)
    requires
        forall|i: int| 0 <= i < v@.len() ==> history_model_wf(#[trigger] v@[i].deep_view()),
    ensures
        json_model(r) == histories_json(v.deep_view()),
{
    let mut elems: Vec<Json> = Vec::new();
    let mut i: usize = 0;
    while i < v.len()
        invariant
            i <= v@.len(),
            elems@.len() == i,
            forall|k: int| 0 <= k < v@.len() ==> history_model_wf(#[trigger] v@[k].deep_view()),
            forall|k: int|
                0 <= k < i ==> json_model(#[trigger] elems@[k]) == history_json(
                    v@[k].deep_view(),
                ),
        decreases v@.len() - i,
    {
        elems.push(history_to_json(&v[i]));
        i = i + 1;
    }
    let r = Json::Arr(elems);
    proof {
        lemma_json_model_seq(elems@);
        assert(forall|k: int|
            0 <= k < v@.len() ==> #[trigger] v.deep_view()[k] == v@[k].deep_view());
        assert(json_model_seq(elems@) =~~= Seq::new(
            v.deep_view().len(),
            |i: int| history_json(v.deep_view()[i]),
        ));
    }
    r
}

/// Writes the whole document as its wire tree.
pub fn doc_to_json(c: &ImageConfig) -> (j: Json)
    requires
        doc_wf(c.deep_view()),
    ensures
        json_model(j) == spec_doc_json(c.deep_view()),
{
    let mut members: Vec<(String, Json)> = Vec::new();
    members.push(
        (String::from_str("architecture"), Json::Str(String::from_str(arch_str(&c.architecture)))),
    );
    members.push((String::from_str("os"), Json::Str(String::from_str(os_str(&c.os)))));
    members.push((String::from_str("rootfs"), rootfs_to_json(&c.rootfs)));
    members.push((String::from_str("created"), ts_to_json(&c.created)));
    members.push((String::from_str("author"), opt_str_to_json(&c.author)));
    let cfg = match &c.config {
        None => Json::Null,
        Some(cc) => config_to_json(cc),
    };
    members.push((String::from_str("config"), cfg));
    let hist = match &c.history {
        None => Json::Null,
        Some(hs) => {
            proof {
                assert forall|i: int| 0 <= i < hs@.len() implies history_model_wf(
                    #[trigger] hs@[i].deep_view(),
                ) by {
                    assert(hs.deep_view()[i] == hs@[i].deep_view());
                }
            }
            histories_to_json(hs)
        },
    };
    members.push((String::from_str("history"), hist));
    let j = Json::Obj(members);
    proof {
        lemma_json_model_members(members@);
        assert(json_model_members(members@) =~~= (match spec_doc_json(c.deep_view()) {
            JsonModel::Obj(ms) => ms,
            _ => Seq::empty(),
        }));
    }
    j
}

/// A bound on every element bounds the sequence depth.
proof fn lemma_jdepth_seq_le(elems: Seq<JsonModel>, b: nat)
    requires
        forall|i: int| 0 <= i < elems.len() ==> crate::json::jdepth(#[trigger] elems[i]) <= b,
    ensures
        crate::json::jdepth_seq(elems) <= b,
    decreases elems.len(),
{
    if elems.len() > 0 {
        assert(forall|i: int|
            0 <= i < elems.len() - 1 ==> #[trigger] elems.drop_first()[i] == elems[i + 1]);
        lemma_jdepth_seq_le(elems.drop_first(), b);
    }
}

/// A bound on every member value bounds the member-sequence depth.
proof fn lemma_jdepth_members_le(members: Seq<(Seq<char>, JsonModel)>, b: nat)
    requires
        forall|i: int|
            0 <= i < members.len() ==> crate::json::jdepth((#[trigger] members[i]).1) <= b,
    ensures
        crate::json::jdepth_members(members) <= b,
    decreases members.len(),
{
    if members.len() > 0 {
        assert(forall|i: int|
            0 <= i < members.len() - 1 ==> #[trigger] members.drop_first()[i] == members[i + 1]);
        lemma_jdepth_members_le(members.drop_first(), b);
    }
}

/// The document tree never nests more than four levels deep.
proof fn lemma_doc_json_depth(m: ImageConfigModel)
    ensures
        crate::json::jdepth(spec_doc_json(m)) <= 4,
{
    let members = (match spec_doc_json(m) {
        JsonModel::Obj(ms) => ms,
        _ => Seq::empty(),
    });
    assert forall|i: int| 0 <= i < members.len() implies crate::json::jdepth(
        (#[trigger] members[i]).1,
    ) <= 3 by {
        let v = members[i].1;
        if i == 2 {
            lemma_rootfs_depth(m.rootfs);
        } else if i == 5 {
            match m.config {
                None => {},
                Some(c) => {
                    lemma_config_depth(c);
                },
            }
        } else if i == 6 {
            match m.history {
                None => {},
                Some(hs) => {
                    lemma_histories_depth(hs);
                },
            }
        }
    }
    lemma_jdepth_members_le(members, 3);
}

proof fn lemma_str_arr_depth(ss: Seq<Seq<char>>)
    ensures
        crate::json::jdepth(str_arr_json(ss)) <= 1,
{
    let elems = (match str_arr_json(ss) {
        JsonModel::Arr(es) => es,
        _ => Seq::empty(),
    });
    assert(forall|i: int|
        0 <= i < elems.len() ==> crate::json::jdepth(#[trigger] elems[i]) <= 0);
    lemma_jdepth_seq_le(elems, 0);
}

proof fn lemma_rootfs_depth(r: RootFSModel)
    ensures
        crate::json::jdepth(rootfs_json(r)) <= 2,
{
    let members = (match rootfs_json(r) {
        JsonModel::Obj(ms) => ms,
        _ => Seq::empty(),
    });
    assert forall|i: int| 0 <= i < members.len() implies crate::json::jdepth(
        (#[trigger] members[i]).1,
    ) <= 1 by {
        if i == 1 {
            lemma_str_arr_depth(r.diff_ids);
        }
    }
    lemma_jdepth_members_le(members, 1);
}

proof fn lemma_set_map_obj_depth_ports(ps: Seq<Port>)
    ensures
        crate::json::jdepth(spec_set_map_obj::<Port>(ps)) <= 2,
{
    let members = (match spec_set_map_obj::<Port>(ps) {
        JsonModel::Obj(ms) => ms,
        _ => Seq::empty(),
    });
    assert forall|i: int| 0 <= i < members.len() implies crate::json::jdepth(
        (#[trigger] members[i]).1,
    ) <= 1 by {
        lemma_jdepth_members_le(Seq::empty(), 0);
    }
    lemma_jdepth_members_le(members, 1);
}

proof fn lemma_set_map_obj_depth_vols(vs: Seq<Seq<char>>)
    ensures
        crate::json::jdepth(spec_set_map_obj::<String>(vs)) <= 2,
{
    let members = (match spec_set_map_obj::<String>(vs) {
        JsonModel::Obj(ms) => ms,
        _ => Seq::empty(),
    });
    assert forall|i: int| 0 <= i < members.len() implies crate::json::jdepth(
        (#[trigger] members[i]).1,
    ) <= 1 by {
        lemma_jdepth_members_le(Seq::empty(), 0);
    }
    lemma_jdepth_members_le(members, 1);
}

proof fn lemma_config_depth(c: ConfigModel)
    ensures
        crate::json::jdepth(config_json(c)) <= 3,
{
    let members = (match config_json(c) {
        JsonModel::Obj(ms) => ms,
        _ => Seq::empty(),
    });
    assert forall|i: int| 0 <= i < members.len() implies crate::json::jdepth(
        (#[trigger] members[i]).1,
    ) <= 2 by {
        if i == 1 {
            match c.exposed_ports {
                None => {},
                Some(ps) => {
                    lemma_set_map_obj_depth_ports(ps);
                },
            }
        } else if i == 2 {
            match c.env {
                None => {},
                Some(es) => {
                    let elems = (match env_arr_json(es) {
                        JsonModel::Arr(xs) => xs,
                        _ => Seq::empty(),
                    });
                    assert(forall|k: int|
                        0 <= k < elems.len() ==> crate::json::jdepth(#[trigger] elems[k]) <= 0);
                    lemma_jdepth_seq_le(elems, 0);
                },
            }
        } else if i == 3 {
            match c.entrypoint {
                None => {},
                Some(ss) => {
                    lemma_str_arr_depth(ss);
                },
            }
        } else if i == 4 {
            match c.cmd {
                None => {},
                Some(ss) => {
                    lemma_str_arr_depth(ss);
                },
            }
        } else if i == 5 {
            match c.volumes {
                None => {},
                Some(vs) => {
                    lemma_set_map_obj_depth_vols(vs);
                },
            }
        } else if i == 7 {
            match c.labels {
                None => {},
                Some(ls) => {
                    let lm = (match labels_json(ls) {
                        JsonModel::Obj(xs) => xs,
                        _ => Seq::empty(),
                    });
                    assert(forall|k: int|
                        0 <= k < lm.len() ==> crate::json::jdepth((#[trigger] lm[k]).1) <= 0);
                    lemma_jdepth_members_le(lm, 0);
                },
            }
        }
    }
    lemma_jdepth_members_le(members, 2);
}

proof fn lemma_histories_depth(hs: Seq<HistoryModel>)
    ensures
        crate::json::jdepth(histories_json(hs)) <= 2,
{
    let elems = (match histories_json(hs) {
        JsonModel::Arr(es) => es,
        _ => Seq::empty(),
    });
    assert forall|i: int| 0 <= i < elems.len() implies crate::json::jdepth(
        #[trigger] elems[i],
    ) <= 1 by {
        let hm = (match history_json(hs[i]) {
            JsonModel::Obj(xs) => xs,
            _ => Seq::empty(),
        });
        assert(forall|k: int|
            0 <= k < hm.len() ==> crate::json::jdepth((#[trigger] hm[k]).1) <= 0);
        lemma_jdepth_members_le(hm, 0);
    }
    lemma_jdepth_seq_le(elems, 1);
}

/// Writes a document as canonical pretty-printed wire text: two-space
/// indentation, keys in declared order, absent optional fields written as
/// explicit null markers. Serialization is total on well-formed documents.
pub fn serialize_image_config(c: &ImageConfig) -> (r: String)
    requires
        doc_wf(c.deep_view()),
    ensures
        r@ == crate::json::sp_val(spec_doc_json(c.deep_view()), 0),
{
    let j = doc_to_json(c);
    proof {
        lemma_doc_json_depth(c.deep_view());
    }
    crate::json::to_pretty_string(&j)
}

} // verus!
