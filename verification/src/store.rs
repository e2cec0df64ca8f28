//! The project store's rules: which relative paths are acceptable, what a
//! new POU, edge or device starts as, how folder requests are answered,
//! how listings are ordered, and how legacy inline CONFIGURATION blocks
//! migrate into a project-level task list. Reading and writing the files
//! is left to the caller, which hands in what it found on disk.
use vstd::prelude::*;

use crate::chars::{
    find_chars, find_from, lemma_find_from_bounds, lower_chars, lower_seq, parse_i32,
    parse_i32_chars, parse_u32, parse_u32_chars, rfind_char, rfind_chars, split_chars, split_on,
    starts_with, starts_with_chars, sub_chars, trim, trim_chars, trim_end_char,
    trim_end_char_chars, trim_start, trim_start_chars, trim_start_matches,
    trim_start_matches_chars, until_either, until_either_chars,
};
use crate::text::{
    chars_of, contains_string, lemma_seq_lt_transitive, lemma_views_push, seq_lt, str_lt, string_of,
    views,
};
use crate::types::{
    default_canopen_heartbeat_timeout_ms, default_canopen_poll_ms, default_opcua_poll_ms,
    CanopenConfig, Edge, EthercatBringup, EthercatConfig, EthercatDcSync, ModbusConfig,
    ModbusTcpParams, ModbusTransport, OpcuaAuth, OpcuaConfig, ProgramInstance, ProjectManifest,
    Protocol, ProtocolConfig, Task, Tasks,
};

verus! {

#[verifier::external_type_specification]
#[verifier::external_body]
pub struct ExIoError(std::io::Error);

#[verifier::external_type_specification]
#[verifier::external_body]
pub struct ExTomlDeError(toml::de::Error);

#[verifier::external_type_specification]
#[verifier::external_body]
pub struct ExTomlSerError(toml::ser::Error);

/// Why a store operation failed.
#[derive(Debug)]
pub enum StoreError {
    Io(std::io::Error),
    TomlDe(toml::de::Error),
    TomlSer(toml::ser::Error),
    /// No project at the given root.
    NotFound(String),
    AlreadyExists(String),
    /// A relative path with an empty or dot-prefixed segment, a backslash
    /// or a colon.
    InvalidName(String),
    FolderExists(String),
    FolderNotFound(String),
    FolderNotEmpty(String),
    AppNotFound(String),
    DeviceNotFound(String),
    EdgeNotFound(String),
}

/// One POU source file.
#[derive(Debug, Clone)]
pub struct Application {
    /// Path relative to `applications/`, without the `.st` extension.
    pub name: String,
    pub kind: ApplicationKind,
    pub source: String,
}

#[derive(Debug, Clone, Copy, PartialEq, Eq, Structural)]
pub enum ApplicationKind {
    Program,
    FunctionBlock,
}

/// A project directory and its manifest.
pub struct ProjectStore {
    root: String,
    manifest: ProjectManifest,
}

impl ProjectStore {
    pub closed spec fn root_path(&self) -> Seq<char> {
        self.root@
    }

    pub closed spec fn project_name(&self) -> Seq<char> {
        self.manifest.name@
    }

    /// A store for the project at `root` whose manifest has been read.
    pub fn from_manifest(root: String, manifest: ProjectManifest) -> (s: Self)
        ensures
            s.root_path() == root@,
            s.project_name() == manifest.name@,
    {
        ProjectStore { root, manifest }
    }

    pub fn root(&self) -> (r: &str)
        ensures
            r@ == self.root_path(),
    {
        self.root.as_str()
    }

    pub fn name(&self) -> (r: &str)
        ensures
            r@ == self.project_name(),
    {
        self.manifest.name.as_str()
    }
}

// ----- Relative paths -----

/// A path segment may not be empty, start with `.`, or hold `\` or `:`.
pub open spec fn segment_ok(seg: Seq<char>) -> bool {
    &&& seg.len() > 0
    &&& seg[0] != '.'
    &&& !seg.contains('\\')
    &&& !seg.contains(':')
}

/// A non-empty `/`-separated path whose every segment is acceptable.
pub open spec fn valid_path(s: Seq<char>) -> bool {
    &&& s.len() > 0
    &&& forall|i: int| 0 <= i < split_on(s, '/').len() ==> segment_ok(#[trigger] split_on(s, '/')[i])
}

fn segment_is_ok(seg: &Vec<char>) -> (r: bool)
    ensures
        r == segment_ok(seg@),
{
    if seg.len() == 0 || seg[0] == '.' {
        return false;
    }
    let mut i: usize = 0;
    while i < seg.len()
        invariant
            i <= seg.len(),
            forall|j: int| 0 <= j < i ==> seg@[j] != '\\' && seg@[j] != ':',
        decreases seg.len() - i,
    {
        if seg[i] == '\\' || seg[i] == ':' {
            assert(seg@[i as int] == '\\' ==> seg@.contains('\\'));
            assert(seg@[i as int] == ':' ==> seg@.contains(':'));
            return false;
        }
        i = i + 1;
    }
    true
}

/// Accepts forward-slash separated relative paths such as
/// `pid_loops/temperature_pid`; refuses empty segments, dot-prefixed
/// segments (no hidden files, no `..`), backslashes and colons.
pub fn validate_path(name: &str) -> (r: Result<(), StoreError>)
    ensures
        match r {
            Ok(()) => valid_path(name@),
            Err(StoreError::InvalidName(n)) => !valid_path(name@) && n@ == name@,
            Err(_) => false,
        },
{
    let v = chars_of(name);
    if v.len() == 0 {
        return Err(StoreError::InvalidName(name.to_string()));
    }
    let segs = split_chars(&v, '/');
    let ghost sv = segs@.map_values(|p: Vec<char>| p@);
    let mut i: usize = 0;
    while i < segs.len()
        invariant
            i <= segs.len(),
            sv == segs@.map_values(|p: Vec<char>| p@),
            sv == split_on(name@, '/'),
            forall|j: int| 0 <= j < i ==> segment_ok(#[trigger] sv[j]),
        decreases segs.len() - i,
    {
        if !segment_is_ok(&segs[i]) {
            assert(!segment_ok(sv[i as int]));
            return Err(StoreError::InvalidName(name.to_string()));
        }
        i = i + 1;
    }
    Ok(())
}

/// The last `/`-separated segment: the IEC identifier of a POU.
pub open spec fn leaf_segment_of(s: Seq<char>) -> Seq<char> {
    split_on(s, '/').last()
}

pub fn leaf_segment(path: &str) -> (r: String)
    ensures
        r@ == leaf_segment_of(path@),
{
    let v = chars_of(path);
    let segs = split_chars(&v, '/');
    proof {
        crate::chars::lemma_split_on_nonempty(path@, '/');
        assert(segs@.map_values(|p: Vec<char>| p@)[segs.len() - 1] == segs@[segs.len() - 1]@);
    }
    string_of(&segs[segs.len() - 1])
}

// ----- POU sources -----

/// Some line, after its leading whitespace, starts with `p`.
pub open spec fn some_line_starts(src: Seq<char>, p: Seq<char>) -> bool {
    exists|i: int|
        0 <= i < split_on(src, '\n').len() && starts_with(
            trim_start(#[trigger] split_on(src, '\n')[i]),
            p,
        )
}

/// A source with a `PROGRAM ` line is a program; otherwise one with a
/// `FUNCTION_BLOCK` line is a function block; anything else counts as a
/// program.
pub open spec fn kind_of_source(src: Seq<char>) -> ApplicationKind {
    if some_line_starts(src, "PROGRAM "@) {
        ApplicationKind::Program
    } else if some_line_starts(src, "FUNCTION_BLOCK"@) {
        ApplicationKind::FunctionBlock
    } else {
        ApplicationKind::Program
    }
}

fn any_line_starts(lines: &Vec<Vec<char>>, p: &Vec<char>) -> (r: bool)
    ensures
        r == exists|i: int|
            0 <= i < lines@.len() && starts_with(trim_start(#[trigger] lines@[i]@), p@),
{
    let mut i: usize = 0;
    while i < lines.len()
        invariant
            i <= lines.len(),
            forall|j: int| 0 <= j < i ==> !starts_with(trim_start(#[trigger] lines@[j]@), p@),
        decreases lines.len() - i,
    {
        let t = trim_start_chars(&lines[i]);
        if starts_with_chars(&t, p) {
            return true;
        }
        i = i + 1;
    }
    false
}

/// Classifies a POU source for the project tree.
pub fn detect_kind(source: &str) -> (k: ApplicationKind)
    ensures
        k == kind_of_source(source@),
{
    let v = chars_of(source);
    let lines = split_chars(&v, '\n');
    let ghost lv = lines@.map_values(|p: Vec<char>| p@);
    assert(lv == split_on(source@, '\n'));
    let prog = chars_of("PROGRAM ");
    let fb = chars_of("FUNCTION_BLOCK");
    let has_program = any_line_starts(&lines, &prog);
    assert(has_program == some_line_starts(source@, "PROGRAM "@)) by {
        if has_program {
            let i = choose|i: int| 0 <= i < lines@.len() && starts_with(trim_start(#[trigger] lines@[i]@), prog@);
            assert(lv[i] == lines@[i]@);
        }
        if some_line_starts(source@, "PROGRAM "@) {
            let i = choose|i: int| 0 <= i < lv.len() && starts_with(trim_start(#[trigger] lv[i]), "PROGRAM "@);
            assert(lv[i] == lines@[i]@);
        }
    }
    if has_program {
        return ApplicationKind::Program;
    }
    let has_fb = any_line_starts(&lines, &fb);
    assert(has_fb == some_line_starts(source@, "FUNCTION_BLOCK"@)) by {
        if has_fb {
            let i = choose|i: int| 0 <= i < lines@.len() && starts_with(trim_start(#[trigger] lines@[i]@), fb@);
            assert(lv[i] == lines@[i]@);
        }
        if some_line_starts(source@, "FUNCTION_BLOCK"@) {
            let i = choose|i: int| 0 <= i < lv.len() && starts_with(trim_start(#[trigger] lv[i]), "FUNCTION_BLOCK"@);
            assert(lv[i] == lines@[i]@);
        }
    }
    if has_fb {
        return ApplicationKind::FunctionBlock;
    }
    ApplicationKind::Program
}

/// The source a new POU named `name` starts with. Scheduling lives in the
/// project's task list, so templates hold no CONFIGURATION.
pub open spec fn template_text(name: Seq<char>, kind: ApplicationKind) -> Seq<char> {
    match kind {
        ApplicationKind::Program => "PROGRAM "@ + name
            + "\n    VAR\n    END_VAR\n\n    (* Add your program logic here. Bind this PROGRAM to a task\n       in the Tasks pane to actually run it. *)\n\nEND_PROGRAM\n"@,
        ApplicationKind::FunctionBlock => "FUNCTION_BLOCK "@ + name
            + "\n    VAR_INPUT\n    END_VAR\n    VAR_OUTPUT\n    END_VAR\n    VAR\n    END_VAR\n\n    (* Add your FB logic here *)\n\nEND_FUNCTION_BLOCK\n"@,
    }
}

pub fn template_for(name: &str, kind: ApplicationKind) -> (s: String)
    ensures
        s@ == template_text(name@, kind),
{
    match kind {
        ApplicationKind::Program => {
            let mut s = String::from_str("PROGRAM ");
            s.append(name);
            s.append(
                "\n    VAR\n    END_VAR\n\n    (* Add your program logic here. Bind this PROGRAM to a task\n       in the Tasks pane to actually run it. *)\n\nEND_PROGRAM\n",
            );
            s
        },
        ApplicationKind::FunctionBlock => {
            let mut s = String::from_str("FUNCTION_BLOCK ");
            s.append(name);
            s.append(
                "\n    VAR_INPUT\n    END_VAR\n    VAR_OUTPUT\n    END_VAR\n    VAR\n    END_VAR\n\n    (* Add your FB logic here *)\n\nEND_FUNCTION_BLOCK\n",
            );
            s
        },
    }
}

/// The application a new POU file holds.
pub fn new_application(name: &str, kind: ApplicationKind) -> (a: Application)
    ensures
        a.name@ == name@,
        a.kind == kind,
        a.source@ == template_text(leaf_segment_of(name@), kind),
{
    let leaf = leaf_segment(name);
    Application { name: name.to_string(), kind, source: template_for(leaf.as_str(), kind) }
}

// ----- Devices -----

/// The EtherCAT interface name a new device starts with on operating
/// system `os` (as `std::env::consts::OS` names it).
pub open spec fn default_nic_for(os: Seq<char>) -> Seq<char> {
    if os == "macos"@ {
        "en0"@
    } else if os == "windows"@ {
        "Ethernet"@
    } else {
        "eth0"@
    }
}

pub fn default_ethercat_nic(os: &str) -> (r: &'static str)
    ensures
        r@ == default_nic_for(os@),
{
    let v = os.to_string();
    if v == String::from_str("macos") {
        "en0"
    } else if v == String::from_str("windows") {
        "Ethernet"
    } else {
        "eth0"
    }
}

/// What a new device of the given protocol is configured with: a local
/// endpoint and no channels.
pub open spec fn is_default_config(c: ProtocolConfig, protocol: Protocol, os: Seq<char>) -> bool {
    match (protocol, c) {
        (Protocol::Modbus, ProtocolConfig::Modbus(m)) => {
            &&& m.transport matches ModbusTransport::Tcp(t) && t.host@ == "127.0.0.1"@ && t.port
                == 502
            &&& m.slave_id == 1
            &&& m.poll_interval_ms == 100
            &&& m.timeout_ms is None
            &&& m.reconnect_backoff_ms is None
            &&& m.channels@.len() == 0
        },
        (Protocol::Ethercat, ProtocolConfig::Ethercat(e)) => {
            &&& e.nic@ == default_nic_for(os)
            &&& e.bringup is Auto
            &&& e.cycle_us == 1000
            &&& e.dc_sync == EthercatDcSync::Off
            &&& e.dc_static_sync_iterations == 0
            &&& e.slaves@.len() == 0
            &&& e.channels@.len() == 0
            &&& e.gear@.len() == 0
        },
        (Protocol::Opcua, ProtocolConfig::Opcua(o)) => {
            &&& o.endpoint_url@ == "opc.tcp://127.0.0.1:4840"@
            &&& o.auth is Anonymous
            &&& o.poll_interval_ms == 500
            &&& o.channels@.len() == 0
        },
        (Protocol::Canopen, ProtocolConfig::Canopen(c)) => {
            &&& c.interface@ == "can0"@
            &&& c.node_id == 1
            &&& c.bitrate is None
            &&& c.poll_interval_ms == 100
            &&& c.heartbeat_timeout_ms == 3000
            &&& c.start_on_connect
            &&& c.channels@.len() == 0
        },
        _ => false,
    }
}

pub fn default_config_for(protocol: Protocol, os: &str) -> (c: ProtocolConfig)
    ensures
        is_default_config(c, protocol, os@),
{
    match protocol {
        Protocol::Modbus => ProtocolConfig::Modbus(
            ModbusConfig {
                transport: ModbusTransport::Tcp(
                    ModbusTcpParams { host: String::from_str("127.0.0.1"), port: 502 },
                ),
                slave_id: 1,
                poll_interval_ms: 100,
                timeout_ms: None,
                reconnect_backoff_ms: None,
                channels: Vec::new(),
            },
        ),
        Protocol::Ethercat => ProtocolConfig::Ethercat(
            EthercatConfig {
                nic: String::from_str(default_ethercat_nic(os)),
                bringup: EthercatBringup::default(),
                cycle_us: 1_000,
                dc_sync: EthercatDcSync::default(),
                dc_static_sync_iterations: 0,
                slaves: Vec::new(),
                channels: Vec::new(),
                gear: Vec::new(),
            },
        ),
        Protocol::Opcua => ProtocolConfig::Opcua(
            OpcuaConfig {
                endpoint_url: String::from_str("opc.tcp://127.0.0.1:4840"),
                auth: OpcuaAuth::default(),
                poll_interval_ms: default_opcua_poll_ms(),
                channels: Vec::new(),
            },
        ),
        Protocol::Canopen => ProtocolConfig::Canopen(
            CanopenConfig {
                interface: String::from_str("can0"),
                node_id: 1,
                bitrate: None,
                poll_interval_ms: default_canopen_poll_ms(),
                heartbeat_timeout_ms: default_canopen_heartbeat_timeout_ms(),
                start_on_connect: true,
                channels: Vec::new(),
            },
        ),
    }
}


// ----- Folders, edges, devices -----

impl ProjectStore {
    fn create_folder(&self, path: &str, exists: bool) -> (r: Result<(), StoreError>)
        ensures
            match r {
                Ok(()) => valid_path(path@) && !exists,
                Err(StoreError::InvalidName(n)) => !valid_path(path@) && n@ == path@,
                Err(StoreError::FolderExists(n)) => valid_path(path@) && exists && n@ == path@,
                Err(_) => false,
            },
    {
        match validate_path(path) {
            Ok(()) => {},
            Err(e) => {
                return Err(e);
            },
        }
        if exists {
            return Err(StoreError::FolderExists(path.to_string()));
        }
        Ok(())
    }

    /// Whether a folder `path` may be created under `applications/`, given
    /// whether it already exists there.
    pub fn create_application_folder(&self, path: &str, exists: bool) -> (r: Result<(), StoreError>)
        ensures
            match r {
                Ok(()) => valid_path(path@) && !exists,
                Err(StoreError::InvalidName(n)) => !valid_path(path@) && n@ == path@,
                Err(StoreError::FolderExists(n)) => valid_path(path@) && exists && n@ == path@,
                Err(_) => false,
            },
    {
        self.create_folder(path, exists)
    }

    /// As `create_application_folder`, under `devices/`.
    pub fn create_device_folder(&self, path: &str, exists: bool) -> (r: Result<(), StoreError>)
        ensures
            match r {
                Ok(()) => valid_path(path@) && !exists,
                Err(StoreError::InvalidName(n)) => !valid_path(path@) && n@ == path@,
                Err(StoreError::FolderExists(n)) => valid_path(path@) && exists && n@ == path@,
                Err(_) => false,
            },
    {
        self.create_folder(path, exists)
    }

    /// As `create_application_folder`, under `edges/`.
    pub fn create_edge_folder(&self, path: &str, exists: bool) -> (r: Result<(), StoreError>)
        ensures
            match r {
                Ok(()) => valid_path(path@) && !exists,
                Err(StoreError::InvalidName(n)) => !valid_path(path@) && n@ == path@,
                Err(StoreError::FolderExists(n)) => valid_path(path@) && exists && n@ == path@,
                Err(_) => false,
            },
    {
        self.create_folder(path, exists)
    }

    /// Only an existing, empty folder may be removed, so that no single
    /// request wipes a subtree.
    fn delete_folder(&self, path: &str, exists: bool, is_empty: bool) -> (r: Result<(), StoreError>)
        ensures
            match r {
                Ok(()) => valid_path(path@) && exists && is_empty,
                Err(StoreError::InvalidName(n)) => !valid_path(path@) && n@ == path@,
                Err(StoreError::FolderNotFound(n)) => valid_path(path@) && !exists && n@ == path@,
                Err(StoreError::FolderNotEmpty(n)) => valid_path(path@) && exists && !is_empty && n@
                    == path@,
                Err(_) => false,
            },
    {
        match validate_path(path) {
            Ok(()) => {},
            Err(e) => {
                return Err(e);
            },
        }
        if !exists {
            return Err(StoreError::FolderNotFound(path.to_string()));
        }
        if !is_empty {
            return Err(StoreError::FolderNotEmpty(path.to_string()));
        }
        Ok(())
    }

    /// Whether folder `path` under `applications/` may be removed, given
    /// whether it exists and whether it is empty.
    pub fn delete_application_folder(&self, path: &str, exists: bool, is_empty: bool) -> (r: Result<
        (),
        StoreError,
    >)
        ensures
            match r {
                Ok(()) => valid_path(path@) && exists && is_empty,
                Err(StoreError::InvalidName(n)) => !valid_path(path@) && n@ == path@,
                Err(StoreError::FolderNotFound(n)) => valid_path(path@) && !exists && n@ == path@,
                Err(StoreError::FolderNotEmpty(n)) => valid_path(path@) && exists && !is_empty && n@
                    == path@,
                Err(_) => false,
            },
    {
        self.delete_folder(path, exists, is_empty)
    }

    /// As `delete_application_folder`, under `devices/`.
    pub fn delete_device_folder(&self, path: &str, exists: bool, is_empty: bool) -> (r: Result<
        (),
        StoreError,
    >)
        ensures
            match r {
                Ok(()) => valid_path(path@) && exists && is_empty,
                Err(StoreError::InvalidName(n)) => !valid_path(path@) && n@ == path@,
                Err(StoreError::FolderNotFound(n)) => valid_path(path@) && !exists && n@ == path@,
                Err(StoreError::FolderNotEmpty(n)) => valid_path(path@) && exists && !is_empty && n@
                    == path@,
                Err(_) => false,
            },
    {
        self.delete_folder(path, exists, is_empty)
    }

    /// As `delete_application_folder`, under `edges/`.
    pub fn delete_edge_folder(&self, path: &str, exists: bool, is_empty: bool) -> (r: Result<
        (),
        StoreError,
    >)
        ensures
            match r {
                Ok(()) => valid_path(path@) && exists && is_empty,
                Err(StoreError::InvalidName(n)) => !valid_path(path@) && n@ == path@,
                Err(StoreError::FolderNotFound(n)) => valid_path(path@) && !exists && n@ == path@,
                Err(StoreError::FolderNotEmpty(n)) => valid_path(path@) && exists && !is_empty && n@
                    == path@,
                Err(_) => false,
            },
    {
        self.delete_folder(path, exists, is_empty)
    }

    /// The edge a new deploy target `name` starts as, unless the name is
    /// invalid or an edge file of that name exists.
    pub fn create_edge(&self, name: &str, host: &str, exists: bool) -> (r: Result<Edge, StoreError>)
        ensures
            match r {
                Ok(e) => {
                    &&& valid_path(name@) && !exists
                    &&& e.name@ == name@ && e.host@ == host@
                    &&& e.ssh_port == 22 && e.ssh_user@.len() == 0
                    &&& e.install_dir@ == "/opt/ia2"@
                    &&& e.runtime_port == 13001 && e.notes@.len() == 0
                },
                Err(StoreError::InvalidName(n)) => !valid_path(name@) && n@ == name@,
                Err(StoreError::AlreadyExists(n)) => valid_path(name@) && exists && n@ == name@,
                Err(_) => false,
            },
    {
        match validate_path(name) {
            Ok(()) => {},
            Err(e) => {
                return Err(e);
            },
        }
        if exists {
            return Err(StoreError::AlreadyExists(name.to_string()));
        }
        Ok(
            Edge {
                name: name.to_string(),
                host: host.to_string(),
                ssh_port: 22,
                ssh_user: String::new(),
                install_dir: String::from_str("/opt/ia2"),
                runtime_port: 13001,
                notes: String::new(),
            },
        )
    }

    /// The device a new device file `name` starts as: the protocol's
    /// default configuration.
    pub fn create_device(&self, name: &str, protocol: Protocol, exists: bool, os: &str) -> (r:
        Result<crate::types::Device, StoreError>)
        ensures
            match r {
                Ok(d) => valid_path(name@) && !exists && d.name@ == name@ && is_default_config(
                    d.config,
                    protocol,
                    os@,
                ),
                Err(StoreError::InvalidName(n)) => !valid_path(name@) && n@ == name@,
                Err(StoreError::AlreadyExists(n)) => valid_path(name@) && exists && n@ == name@,
                Err(_) => false,
            },
    {
        match validate_path(name) {
            Ok(()) => {},
            Err(e) => {
                return Err(e);
            },
        }
        if exists {
            return Err(StoreError::AlreadyExists(name.to_string()));
        }
        Ok(crate::types::Device { name: name.to_string(), config: default_config_for(protocol, os) })
    }

    /// The application a new POU file `name` holds, unless the name is
    /// invalid or the file exists.
    pub fn create_application(&self, name: &str, kind: ApplicationKind, exists: bool) -> (r: Result<
        Application,
        StoreError,
    >)
        ensures
            match r {
                Ok(a) => valid_path(name@) && !exists && a.name@ == name@ && a.kind == kind
                    && a.source@ == template_text(leaf_segment_of(name@), kind),
                Err(StoreError::InvalidName(n)) => !valid_path(name@) && n@ == name@,
                Err(StoreError::AlreadyExists(n)) => valid_path(name@) && exists && n@ == name@,
                Err(_) => false,
            },
    {
        match validate_path(name) {
            Ok(()) => {},
            Err(e) => {
                return Err(e);
            },
        }
        if exists {
            return Err(StoreError::AlreadyExists(name.to_string()));
        }
        Ok(new_application(name, kind))
    }
}

/// An edge as stored in its file: the folder part of its name is implied
/// by the file's location, so only the leaf is written.
pub fn edge_on_disk(edge: &Edge) -> (r: Edge)
    ensures
        r.name@ == leaf_segment_of(edge.name@),
        r.host@ == edge.host@,
        r.ssh_port == edge.ssh_port,
        r.ssh_user@ == edge.ssh_user@,
        r.install_dir@ == edge.install_dir@,
        r.runtime_port == edge.runtime_port,
        r.notes@ == edge.notes@,
{
    Edge {
        name: leaf_segment(edge.name.as_str()),
        host: edge.host.clone(),
        ssh_port: edge.ssh_port,
        ssh_user: edge.ssh_user.clone(),
        install_dir: edge.install_dir.clone(),
        runtime_port: edge.runtime_port,
        notes: edge.notes.clone(),
    }
}

// ----- Listings -----

/// `s` with `a` inserted after every element whose key is not greater
/// than `a`'s: one step of a stable insertion sort.
pub open spec fn insert_by_key<A>(s: Seq<A>, a: A, key: spec_fn(A) -> Seq<char>) -> Seq<A>
    decreases s.len(),
{
    if s.len() == 0 {
        seq![a]
    } else if seq_lt(key(a), key(s[0])) {
        seq![a] + s
    } else {
        seq![s[0]] + insert_by_key(s.drop_first(), a, key)
    }
}

/// `s` stably sorted by `key`.
pub open spec fn sort_by_key<A>(s: Seq<A>, key: spec_fn(A) -> Seq<char>) -> Seq<A>
    decreases s.len(),
{
    if s.len() == 0 {
        s
    } else {
        insert_by_key(sort_by_key(s.drop_last(), key), s.last(), key)
    }
}

pub open spec fn sorted_by_key<A>(s: Seq<A>, key: spec_fn(A) -> Seq<char>) -> bool {
    forall|i: int, j: int| #![trigger s[i], s[j]] 0 <= i < j < s.len() ==> !seq_lt(key(s[j]), key(s[i]))
}

pub open spec fn text_key() -> spec_fn(Seq<char>) -> Seq<char> {
    |x: Seq<char>| x
}

/// An application by its name, kind and source text.
pub open spec fn app_view(a: Application) -> (Seq<char>, ApplicationKind, Seq<char>) {
    (a.name@, a.kind, a.source@)
}

pub open spec fn app_views(s: Seq<Application>) -> Seq<(Seq<char>, ApplicationKind, Seq<char>)> {
    s.map_values(|a: Application| app_view(a))
}

pub open spec fn name_key() -> spec_fn((Seq<char>, ApplicationKind, Seq<char>)) -> Seq<char> {
    |a: (Seq<char>, ApplicationKind, Seq<char>)| a.0
}

fn insert_folder(v: &mut Vec<String>, x: String)
    ensures
        views(final(v)@) == insert_by_key(views(old(v)@), x@, text_key()),
{
    let ghost old_views = views(v@);
    let mut i: usize = 0;
    assert(old_views.skip(0) =~= old_views);
    assert(old_views.take(0) + insert_by_key(old_views, x@, text_key()) =~= insert_by_key(
        old_views,
        x@,
        text_key(),
    ));
    while i < v.len()
        invariant
            i <= v.len(),
            v@ == old(v)@,
            old_views == views(v@),
            insert_by_key(old_views, x@, text_key()) == old_views.take(i as int) + insert_by_key(
                old_views.skip(i as int),
                x@,
                text_key(),
            ),
        decreases v.len() - i,
    {
        let ghost rest = old_views.skip(i as int);
        assert(rest[0] == v@[i as int]@);
        if str_lt(x.as_str(), v[i].as_str()) {
            v.insert(i, x);
            proof {
                assert(views(v@) =~= old_views.take(i as int) + (seq![x@] + rest));
            }
            return;
        }
        assert(rest.drop_first() =~= old_views.skip(i + 1));
        assert(old_views.take(i as int) + (seq![rest[0]] + insert_by_key(
            rest.drop_first(),
            x@,
            text_key(),
        )) =~= old_views.take(i + 1) + insert_by_key(old_views.skip(i + 1), x@, text_key()));
        i = i + 1;
    }
    v.push(x);
    proof {
        assert(old_views.skip(i as int) =~= Seq::<Seq<char>>::empty());
        assert(views(v@) =~= old_views.take(i as int) + seq![x@]);
    }
}

fn insert_app(v: &mut Vec<Application>, a: Application)
    ensures
        app_views(final(v)@) == insert_by_key(app_views(old(v)@), app_view(a), name_key()),
{
    let ghost old_views = app_views(v@);
    let ghost av = app_view(a);
    let mut i: usize = 0;
    assert(old_views.skip(0) =~= old_views);
    assert(old_views.take(0) + insert_by_key(old_views, av, name_key()) =~= insert_by_key(
        old_views,
        av,
        name_key(),
    ));
    while i < v.len()
        invariant
            i <= v.len(),
            v@ == old(v)@,
            old_views == app_views(v@),
            av == app_view(a),
            insert_by_key(old_views, av, name_key()) == old_views.take(i as int) + insert_by_key(
                old_views.skip(i as int),
                av,
                name_key(),
            ),
        decreases v.len() - i,
    {
        let ghost rest = old_views.skip(i as int);
        assert(rest[0] == app_view(v@[i as int]));
        if str_lt(a.name.as_str(), v[i].name.as_str()) {
            v.insert(i, a);
            proof {
                assert(app_views(v@) =~= old_views.take(i as int) + (seq![av] + rest));
            }
            return;
        }
        assert(rest.drop_first() =~= old_views.skip(i + 1));
        assert(old_views.take(i as int) + (seq![rest[0]] + insert_by_key(
            rest.drop_first(),
            av,
            name_key(),
        )) =~= old_views.take(i + 1) + insert_by_key(old_views.skip(i + 1), av, name_key()));
        i = i + 1;
    }
    v.push(a);
    proof {
        assert(old_views.skip(i as int) =~= Seq::<(Seq<char>, ApplicationKind, Seq<char>)>::empty());
        assert(app_views(v@) =~= old_views.take(i as int) + seq![av]);
    }
}

impl ProjectStore {
    /// The folders found under one of the project's directories (as
    /// `/`-separated relative paths), in ascending order.
    pub fn list_folders(&self, found: Vec<String>) -> (r: Vec<String>)
        ensures
            views(r@) == sort_by_key(views(found@), text_key()),
    {
        let mut out: Vec<String> = Vec::new();
        let mut i: usize = 0;
        assert(views(out@) =~= sort_by_key(views(found@).take(0), text_key()));
        while i < found.len()
            invariant
                i <= found.len(),
                views(out@) == sort_by_key(views(found@).take(i as int), text_key()),
            decreases found.len() - i,
        {
            assert(views(found@).take(i + 1).drop_last() =~= views(found@).take(i as int));
            assert(views(found@).take(i + 1).last() == found@[i as int]@);
            insert_folder(&mut out, found[i].clone());
            i = i + 1;
        }
        assert(views(found@).take(found.len() as int) =~= views(found@));
        out
    }

    /// The POU files found under `applications/` (path without extension,
    /// contents), classified and ordered by name.
    pub fn list_applications(&self, files: Vec<(String, String)>) -> (r: Vec<Application>)
        ensures
            app_views(r@) == sort_by_key(
                files@.map_values(
                    |f: (String, String)| (f.0@, kind_of_source(f.1@), f.1@),
                ),
                name_key(),
            ),
    {
        let ghost found = files@.map_values(
            |f: (String, String)| (f.0@, kind_of_source(f.1@), f.1@),
        );
        let mut out: Vec<Application> = Vec::new();
        let mut i: usize = 0;
        assert(app_views(out@) =~= sort_by_key(found.take(0), name_key()));
        while i < files.len()
            invariant
                i <= files.len(),
                found == files@.map_values(
                    |f: (String, String)| (f.0@, kind_of_source(f.1@), f.1@),
                ),
                app_views(out@) == sort_by_key(found.take(i as int), name_key()),
            decreases files.len() - i,
        {
            assert(found.take(i + 1).drop_last() =~= found.take(i as int));
            let (rel, source) = &files[i];
            let app = Application {
                kind: detect_kind(source.as_str()),
                name: rel.clone(),
                source: source.clone(),
            };
            assert(app_view(app) == found[i as int]);
            assert(found.take(i + 1).last() == found[i as int]);
            insert_app(&mut out, app);
            i = i + 1;
        }
        assert(found.take(files.len() as int) =~= found);
        out
    }
}


/// Where `insert_by_key` puts the new element.
pub open spec fn insert_pos<A>(s: Seq<A>, a: A, key: spec_fn(A) -> Seq<char>) -> int
    decreases s.len(),
{
    if s.len() == 0 {
        0
    } else if seq_lt(key(a), key(s[0])) {
        0
    } else {
        1 + insert_pos(s.drop_first(), a, key)
    }
}

proof fn lemma_insert_by_key<A>(s: Seq<A>, a: A, key: spec_fn(A) -> Seq<char>)
    ensures
        0 <= insert_pos(s, a, key) <= s.len(),
        insert_by_key(s, a, key) == s.insert(insert_pos(s, a, key), a),
        forall|q: int| 0 <= q < insert_pos(s, a, key) ==> !seq_lt(key(a), key(#[trigger] s[q])),
        insert_pos(s, a, key) < s.len() ==> seq_lt(key(a), key(s[insert_pos(s, a, key)])),
    decreases s.len(),
{
    if s.len() > 0 && !seq_lt(key(a), key(s[0])) {
        let t = s.drop_first();
        lemma_insert_by_key(t, a, key);
        let p = insert_pos(t, a, key);
        assert(seq![s[0]] + t.insert(p, a) =~= s.insert(p + 1, a));
        assert forall|q: int| 0 <= q < p + 1 implies !seq_lt(key(a), key(#[trigger] s[q])) by {
            if q > 0 {
                assert(s[q] == t[q - 1]);
            }
        }
    } else if s.len() > 0 {
        assert(seq![a] + s =~= s.insert(0, a));
    } else {
        assert(seq![a] =~= s.insert(0, a));
    }
}

proof fn lemma_insert_sorted<A>(s: Seq<A>, a: A, key: spec_fn(A) -> Seq<char>)
    requires
        sorted_by_key(s, key),
    ensures
        sorted_by_key(insert_by_key(s, a, key), key),
        insert_by_key(s, a, key).to_multiset() == s.to_multiset().insert(a),
{
    lemma_insert_by_key(s, a, key);
    let p = insert_pos(s, a, key);
    let r = s.insert(p, a);
    assert forall|i: int, j: int| 0 <= i < j < r.len() implies !seq_lt(key(r[j]), key(r[i])) by {
        if j < p {
            assert(r[i] == s[i] && r[j] == s[j]);
            assert(!seq_lt(key(s[j]), key(s[i])));
        } else if j == p {
            assert(r[i] == s[i] && r[j] == a);
            assert(!seq_lt(key(a), key(s[i])));
        } else if i < p {
            assert(r[i] == s[i] && r[j] == s[j - 1]);
            assert(!seq_lt(key(s[j - 1]), key(s[i])));
        } else if i == p {
            assert(r[i] == a && r[j] == s[j - 1]);
            if seq_lt(key(s[j - 1]), key(a)) {
                lemma_seq_lt_transitive(key(s[j - 1]), key(a), key(s[p]));
                if p == j - 1 {
                    crate::text::lemma_seq_lt_irreflexive(key(s[p]));
                } else {
                    assert(!seq_lt(key(s[j - 1]), key(s[p])));
                }
            }
        } else {
            assert(r[i] == s[i - 1] && r[j] == s[j - 1]);
            assert(!seq_lt(key(s[j - 1]), key(s[i - 1])));
        }
    }
    vstd::seq_lib::to_multiset_insert(s, p, a);
}

/// Sorting by key gives a permutation of the input in ascending key order.
pub proof fn sort_by_key_is_sorted_permutation<A>(s: Seq<A>, key: spec_fn(A) -> Seq<char>)
    ensures
        sorted_by_key(sort_by_key(s, key), key),
        sort_by_key(s, key).to_multiset() == s.to_multiset(),
    decreases s.len(),
{
    if s.len() > 0 {
        sort_by_key_is_sorted_permutation(s.drop_last(), key);
        lemma_insert_sorted(sort_by_key(s.drop_last(), key), s.last(), key);
        assert(s.drop_last().push(s.last()) =~= s);
        vstd::seq_lib::to_multiset_build(s.drop_last(), s.last());
    }
}


/// Folders come back strictly ascending: a walk finds each folder once,
/// and the listing orders them without ties.
pub proof fn folders_strictly_ascending(found: Seq<Seq<char>>)
    requires
        found.no_duplicates(),
    ensures
        forall|i: int, j: int|
            0 <= i < j < sort_by_key(found, text_key()).len() ==> crate::text::seq_lt(
                #[trigger] sort_by_key(found, text_key())[i],
                #[trigger] sort_by_key(found, text_key())[j],
            ),
{
    let r = sort_by_key(found, text_key());
    sort_by_key_is_sorted_permutation(found, text_key());
    found.lemma_multiset_has_no_duplicates();
    r.lemma_multiset_has_no_duplicates_conv();
    assert forall|i: int, j: int| 0 <= i < j < r.len() implies crate::text::seq_lt(
        #[trigger] r[i],
        #[trigger] r[j],
    ) by {
        assert(!crate::text::seq_lt(text_key()(r[j]), text_key()(r[i])));
        assert(r[i] != r[j]);
        crate::text::lemma_seq_lt_total(r[i], r[j]);
    }
}


// ----- Legacy inline CONFIGURATION blocks -----

/// `Char::is_alphabetic`: whether a character has the Unicode `Alphabetic`
/// property.
pub uninterp spec fn alphabetic(c: char) -> bool;

/// Calls `char::is_alphabetic`; its result is named `alphabetic`.
#[verifier::external_body]
fn is_alphabetic(c: char) -> (r: bool)
    ensures
        r == alphabetic(c),
{
    c.is_alphabetic()
}

/// The text before the first `(` and the text between it and the last
/// `)`, when the last `)` does not come before the first `(`.
pub open spec fn split_paren(s: Seq<char>) -> Option<(Seq<char>, Seq<char>)> {
    match find_from(s, seq!['('], 0) {
        None => None,
        Some(open) => match rfind_char(s, ')') {
            None => None,
            Some(close) => if close < open {
                None
            } else {
                Some((s.take(open), s.subrange(open + 1, close)))
            },
        },
    }
}

pub fn split_paren_chars(s: &Vec<char>) -> (r: Option<(Vec<char>, Vec<char>)>)
    ensures
        match r {
            Some((a, b)) => split_paren(s@) == Some((a@, b@)),
            None => split_paren(s@) is None,
        },
{
    let open_pat: Vec<char> = vec!['('];
    assert(open_pat@ =~= seq!['(']);
    let open = match find_chars(s, &open_pat, 0) {
        Some(o) => o,
        None => {
            return None;
        },
    };
    proof {
        lemma_find_from_bounds(s@, seq!['('], 0);
    }
    let close = match rfind_chars(s, ')') {
        Some(c) => c,
        None => {
            return None;
        },
    };
    if close < open {
        return None;
    }
    proof {
        crate::chars::lemma_rfind_char(s@, ')');
        assert(s@.subrange(open as int, open + 1)[0] == s@[open as int]);
    }
    let a = sub_chars(s, 0, open);
    let b = sub_chars(s, open + 1, close);
    assert(a@ =~= s@.take(open as int));
    Some((a, b))
}

/// The text assigned to `key` in an argument list such as
/// `INTERVAL := T#100ms, PRIORITY := 1`: what follows the `:=` after the
/// first (case-insensitive) occurrence of `key`, up to `,` or `)`, trimmed.
pub open spec fn assigned_value(args: Seq<char>, key: Seq<char>) -> Option<Seq<char>> {
    match find_from(lower_seq(args), key, 0) {
        None => None,
        Some(idx) => {
            let after = args.skip(idx);
            match find_from(after, ":="@, 0) {
                None => None,
                Some(a) => Some(trim(until_either(trim_start(after.skip(a + 2)), ',', ')'))),
            }
        },
    }
}

fn assigned_value_chars(args: &Vec<char>, key: &Vec<char>) -> (r: Option<Vec<char>>)
    ensures
        match r {
            Some(v) => assigned_value(args@, key@) == Some(v@),
            None => assigned_value(args@, key@) is None,
        },
{
    let lower = lower_chars(args);
    let idx = match find_chars(&lower, key, 0) {
        Some(i) => i,
        None => {
            return None;
        },
    };
    proof {
        lemma_find_from_bounds(lower@, key@, 0);
    }
    let after = sub_chars(args, idx, args.len());
    assert(after@ =~= args@.skip(idx as int));
    let assign_pat = chars_of(":=");
    let a = match find_chars(&after, &assign_pat, 0) {
        Some(a) => a,
        None => {
            return None;
        },
    };
    proof {
        lemma_find_from_bounds(after@, assign_pat@, 0);
        reveal_strlit(":=");
    }
    let rest = sub_chars(&after, a + 2, after.len());
    assert(rest@ =~= after@.skip(a + 2));
    let t = trim_start_chars(&rest);
    let piece = until_either_chars(&t, ',', ')');
    Some(trim_chars(&piece))
}

/// A duration literal without its `T#` / `LTIME#` prefix.
pub open spec fn strip_time_prefix(v: Seq<char>) -> Seq<char> {
    trim_start_matches(
        trim_start_matches(
            trim_start_matches(trim_start_matches(trim_start_matches(v, seq!['T']), seq!['t']), "LTIME"@),
            "ltime"@,
        ),
        seq!['#'],
    )
}

fn strip_time_prefix_chars(v: &Vec<char>) -> (r: Vec<char>)
    ensures
        r@ == strip_time_prefix(v@),
{
    let big_t: Vec<char> = vec!['T'];
    let small_t: Vec<char> = vec!['t'];
    let hash: Vec<char> = vec!['#'];
    assert(big_t@ =~= seq!['T'] && small_t@ =~= seq!['t'] && hash@ =~= seq!['#']);
    let a = trim_start_matches_chars(v, &big_t);
    let b = trim_start_matches_chars(&a, &small_t);
    let c = trim_start_matches_chars(&b, &chars_of("LTIME"));
    let d = trim_start_matches_chars(&c, &chars_of("ltime"));
    trim_start_matches_chars(&d, &hash)
}

/// Number of leading alphabetic characters.
pub open spec fn alpha_run(s: Seq<char>) -> int
    decreases s.len(),
{
    if s.len() > 0 && alphabetic(s[0]) {
        1 + alpha_run(s.drop_first())
    } else {
        0
    }
}

pub proof fn lemma_alpha_run(s: Seq<char>)
    ensures
        0 <= alpha_run(s) <= s.len(),
        s.len() > 0 && alphabetic(s[0]) ==> alpha_run(s) >= 1,
    decreases s.len(),
{
    if s.len() > 0 && alphabetic(s[0]) {
        lemma_alpha_run(s.drop_first());
    }
}

/// Milliseconds per unit: `ms`, `s`, `m`, `h`; 0 for anything else.
pub open spec fn unit_factor(u: Seq<char>) -> u32 {
    if u == "ms"@ {
        1
    } else if u == "s"@ {
        1000
    } else if u == "m"@ {
        60_000
    } else if u == "h"@ {
        3_600_000
    } else {
        0
    }
}

fn unit_factor_chars(u: &Vec<char>) -> (r: u32)
    ensures
        r == unit_factor(u@),
{
    let s = string_of(u);
    if s == String::from_str("ms") {
        1
    } else if s == String::from_str("s") {
        1000
    } else if s == String::from_str("m") {
        60_000
    } else if s == String::from_str("h") {
        3_600_000
    } else {
        0
    }
}

pub open spec fn sat_u32(x: int) -> u32 {
    if x > u32::MAX {
        u32::MAX
    } else {
        x as u32
    }
}

/// Scans a duration such as `1m30s` or `1_500ms`: digits (underscores
/// ignored) accumulate a number, each run of letters is its unit, and
/// `number * unit` is added to the total, saturating; other characters
/// are skipped. A unit without a number, or a number too large for
/// `u32`, makes the whole duration unreadable; so does a zero total.
pub open spec fn time_scan(s: Seq<char>, total: u32, num: Seq<char>) -> Option<u32>
    decreases s.len(),
{
    if s.len() == 0 {
        if total > 0 {
            Some(total)
        } else {
            None
        }
    } else if crate::chars::is_digit(s[0]) {
        time_scan(s.drop_first(), total, num.push(s[0]))
    } else if s[0] == '_' {
        time_scan(s.drop_first(), total, num)
    } else if alphabetic(s[0]) {
        let k = alpha_run(s);
        proof {
            lemma_alpha_run(s);
        }
        match parse_u32(num) {
            None => None,
            Some(n) => time_scan(
                s.skip(k),
                sat_u32(total + sat_u32(n * unit_factor(lower_seq(s.take(k))))),
                Seq::empty(),
            ),
        }
    } else {
        time_scan(s.drop_first(), total, num)
    }
}

/// Milliseconds of a duration body such as `100ms` or `1m30s`.
pub fn parse_time_to_ms(spec: &Vec<char>) -> (r: Option<u32>)
    ensures
        r == time_scan(spec@, 0, Seq::empty()),
{
    let mut total: u32 = 0;
    let mut num: Vec<char> = Vec::new();
    let mut i: usize = 0;
    assert(spec@.skip(0) =~= spec@);
    while i < spec.len()
        invariant
            i <= spec.len(),
            time_scan(spec@, 0, Seq::empty()) == time_scan(spec@.skip(i as int), total, num@),
        decreases spec.len() - i,
    {
        let ghost rest = spec@.skip(i as int);
        let c = spec[i];
        assert(rest[0] == c);
        if '0' <= c && c <= '9' {
            num.push(c);
            assert(rest.drop_first() =~= spec@.skip(i + 1));
            i = i + 1;
        } else if c == '_' {
            assert(rest.drop_first() =~= spec@.skip(i + 1));
            i = i + 1;
        } else if is_alphabetic(c) {
            let mut j: usize = i + 1;
            proof {
                lemma_alpha_run(rest);
            }
            assert(alpha_run(rest) == 1 + alpha_run(spec@.skip(i + 1))) by {
                assert(rest.drop_first() =~= spec@.skip(i + 1));
            }
            while j < spec.len() && is_alphabetic(spec[j])
                invariant
                    i < j <= spec.len(),
                    rest == spec@.skip(i as int),
                    alpha_run(rest) == (j - i) + alpha_run(spec@.skip(j as int)),
                decreases spec.len() - j,
            {
                assert(spec@.skip(j as int)[0] == spec@[j as int]);
                assert(spec@.skip(j as int).drop_first() =~= spec@.skip(j + 1));
                j = j + 1;
            }
            assert(alpha_run(spec@.skip(j as int)) == 0) by {
                if j < spec.len() {
                    assert(spec@.skip(j as int)[0] == spec@[j as int]);
                }
            }
            let run = sub_chars(spec, i, j);
            assert(run@ =~= rest.take(alpha_run(rest)));
            let unit = lower_chars(&run);
            let n = match parse_u32_chars(&num) {
                Some(n) => n,
                None => {
                    return None;
                },
            };
            let factor = unit_factor_chars(&unit);
            let prod: u32 = match n.checked_mul(factor) {
                Some(p) => p,
                None => u32::MAX,
            };
            let sum: u32 = match total.checked_add(prod) {
                Some(t) => t,
                None => u32::MAX,
            };
            total = sum;
            num = Vec::new();
            assert(rest.skip(alpha_run(rest)) =~= spec@.skip(j as int));
            i = j;
        } else {
            assert(rest.drop_first() =~= spec@.skip(i + 1));
            i = i + 1;
        }
    }
    assert(spec@.skip(i as int) =~= Seq::<char>::empty());
    if total > 0 {
        Some(total)
    } else {
        None
    }
}

/// `INTERVAL := T#<duration>` in milliseconds.
pub open spec fn interval_of(args: Seq<char>) -> Option<u32> {
    match assigned_value(args, "interval"@) {
        Some(v) => time_scan(strip_time_prefix(v), 0, Seq::empty()),
        None => None,
    }
}

pub fn parse_interval_ms(args: &Vec<char>) -> (r: Option<u32>)
    ensures
        r == interval_of(args@),
{
    match assigned_value_chars(args, &chars_of("interval")) {
        Some(v) => {
            let stripped = strip_time_prefix_chars(&v);
            parse_time_to_ms(&stripped)
        },
        None => None,
    }
}

/// `PRIORITY := <integer>`.
pub open spec fn priority_of(args: Seq<char>) -> Option<i32> {
    match assigned_value(args, "priority"@) {
        Some(v) => parse_i32(v),
        None => None,
    }
}

pub fn parse_priority(args: &Vec<char>) -> (r: Option<i32>)
    ensures
        r == priority_of(args@),
{
    match assigned_value_chars(args, &chars_of("priority")) {
        Some(v) => parse_i32_chars(&v),
        None => None,
    }
}


/// A task as (name, interval in ms, priority).
pub open spec fn task_view(t: Task) -> (Seq<char>, u32, i32) {
    (t.name@, t.interval_ms, t.priority)
}

pub open spec fn task_views(s: Seq<Task>) -> Seq<(Seq<char>, u32, i32)> {
    s.map_values(|t: Task| task_view(t))
}

/// A program binding as (instance, program, task).
pub open spec fn program_view(p: ProgramInstance) -> (Seq<char>, Seq<char>, Seq<char>) {
    (p.instance@, p.program@, p.task@)
}

pub open spec fn program_views(s: Seq<ProgramInstance>) -> Seq<(Seq<char>, Seq<char>, Seq<char>)> {
    s.map_values(|p: ProgramInstance| program_view(p))
}

/// `TASK <name>(INTERVAL := T#<spec>, PRIORITY := <num>);` (read in lower
/// case): the task it declares. A missing or unreadable interval defaults
/// to 100 ms and a missing priority to 1.
pub open spec fn line_task(raw: Seq<char>) -> Option<(Seq<char>, u32, i32)> {
    let l = lower_seq(trim(raw));
    if starts_with(l, "task "@) {
        match split_paren(l.skip("task "@.len() as int)) {
            Some((name, args)) => Some(
                (
                    trim(name),
                    match interval_of(args) {
                        Some(v) => v,
                        None => 100,
                    },
                    match priority_of(args) {
                        Some(p) => p,
                        None => 1,
                    },
                ),
            ),
            None => None,
        }
    } else {
        None
    }
}

/// `PROGRAM <instance> WITH <task> : <program>;` (read in lower case): the
/// binding it declares.
pub open spec fn line_program(raw: Seq<char>) -> Option<(Seq<char>, Seq<char>, Seq<char>)> {
    let l = lower_seq(trim(raw));
    if starts_with(l, "program "@) {
        let rest = l.skip("program "@.len() as int);
        match find_from(rest, " with "@, 0) {
            None => None,
            Some(w) => {
                let after = rest.skip(w + " with "@.len());
                match find_from(after, seq![':'], 0) {
                    None => None,
                    Some(c) => Some(
                        (
                            trim(rest.take(w)),
                            trim(trim_end_char(trim(after.skip(c + 1)), ';')),
                            trim(after.take(c)),
                        ),
                    ),
                }
            },
        }
    } else {
        None
    }
}

pub open spec fn block_tasks(lines: Seq<Seq<char>>) -> Seq<(Seq<char>, u32, i32)>
    decreases lines.len(),
{
    if lines.len() == 0 {
        Seq::empty()
    } else {
        block_tasks(lines.drop_last()) + match line_task(lines.last()) {
            Some(t) => seq![t],
            None => Seq::empty(),
        }
    }
}

pub open spec fn block_programs(lines: Seq<Seq<char>>) -> Seq<(Seq<char>, Seq<char>, Seq<char>)>
    decreases lines.len(),
{
    if lines.len() == 0 {
        Seq::empty()
    } else {
        block_programs(lines.drop_last()) + match line_program(lines.last()) {
            Some(p) => seq![p],
            None => Seq::empty(),
        }
    }
}

/// The tasks and program bindings one CONFIGURATION block declares.
pub open spec fn config_of(block: Seq<char>) -> (
    Seq<(Seq<char>, u32, i32)>,
    Seq<(Seq<char>, Seq<char>, Seq<char>)>,
) {
    (block_tasks(split_on(block, '\n')), block_programs(split_on(block, '\n')))
}

/// Tasks and program bindings lifted from one inline CONFIGURATION block.
pub struct InlineConfig {
    pub tasks: Vec<Task>,
    pub programs: Vec<ProgramInstance>,
}

pub open spec fn inline_view(c: InlineConfig) -> (
    Seq<(Seq<char>, u32, i32)>,
    Seq<(Seq<char>, Seq<char>, Seq<char>)>,
) {
    (task_views(c.tasks@), program_views(c.programs@))
}

fn parse_line(raw: &Vec<char>, tasks: &mut Vec<Task>, programs: &mut Vec<ProgramInstance>)
    ensures
        task_views(final(tasks)@) == task_views(old(tasks)@) + match line_task(raw@) {
            Some(t) => seq![t],
            None => Seq::empty(),
        },
        program_views(final(programs)@) == program_views(old(programs)@) + match line_program(
            raw@,
        ) {
            Some(p) => seq![p],
            None => Seq::empty(),
        },
{
    let ghost t0 = task_views(tasks@);
    let ghost p0 = program_views(programs@);
    assert(t0 + Seq::<(Seq<char>, u32, i32)>::empty() =~= t0);
    assert(p0 + Seq::<(Seq<char>, Seq<char>, Seq<char>)>::empty() =~= p0);
    let line = trim_chars(raw);
    let lower = lower_chars(&line);
    let task_kw = chars_of("task ");
    let prog_kw = chars_of("program ");
    if starts_with_chars(&lower, &task_kw) {
        assert(!starts_with(lower@, "program "@)) by {
            reveal_strlit("task ");
            reveal_strlit("program ");
            if starts_with(lower@, "program "@) {
                assert(lower@[0] == "program "@[0]);
                assert(lower@[0] == "task "@[0]);
            }
        }
        let rest = sub_chars(&lower, task_kw.len(), lower.len());
        assert(rest@ =~= lower@.skip("task "@.len() as int));
        match split_paren_chars(&rest) {
            Some((name, args)) => {
                let interval_ms = match parse_interval_ms(&args) {
                    Some(v) => v,
                    None => 100,
                };
                let priority = match parse_priority(&args) {
                    Some(p) => p,
                    None => 1,
                };
                let nm = trim_chars(&name);
                let t = Task { name: string_of(&nm), interval_ms, priority };
                tasks.push(t);
                assert(task_views(tasks@) =~= t0 + seq![task_view(t)]);
            },
            None => {},
        }
    } else if starts_with_chars(&lower, &prog_kw) {
        let rest = sub_chars(&lower, prog_kw.len(), lower.len());
        assert(rest@ =~= lower@.skip("program "@.len() as int));
        let with_kw = chars_of(" with ");
        match find_chars(&rest, &with_kw, 0) {
            Some(w) => {
                proof {
                    lemma_find_from_bounds(rest@, with_kw@, 0);
                }
                let after = sub_chars(&rest, w + with_kw.len(), rest.len());
                assert(after@ =~= rest@.skip(w + " with "@.len()));
                let colon: Vec<char> = vec![':'];
                assert(colon@ =~= seq![':']);
                match find_chars(&after, &colon, 0) {
                    Some(c) => {
                        proof {
                            lemma_find_from_bounds(after@, colon@, 0);
                        }
                        let inst = trim_chars(&sub_chars(&rest, 0, w));
                        assert(rest@.subrange(0, w as int) =~= rest@.take(w as int));
                        let task = trim_chars(&sub_chars(&after, 0, c));
                        assert(after@.subrange(0, c as int) =~= after@.take(c as int));
                        let tail = sub_chars(&after, c + 1, after.len());
                        assert(tail@ =~= after@.skip(c + 1));
                        let prog = trim_chars(&trim_end_char_chars(&trim_chars(&tail), ';'));
                        let p = ProgramInstance {
                            instance: string_of(&inst),
                            program: string_of(&prog),
                            task: string_of(&task),
                        };
                        programs.push(p);
                        assert(program_views(programs@) =~= p0 + seq![program_view(p)]);
                    },
                    None => {},
                }
            },
            None => {},
        }
    }
}

/// Reads the TASK and PROGRAM declarations of one CONFIGURATION block.
pub fn parse_configuration_block(block: &Vec<char>) -> (r: InlineConfig)
    ensures
        inline_view(r) == config_of(block@),
{
    let lines = split_chars(block, '\n');
    let ghost lv = lines@.map_values(|p: Vec<char>| p@);
    let mut tasks: Vec<Task> = Vec::new();
    let mut programs: Vec<ProgramInstance> = Vec::new();
    let mut i: usize = 0;
    assert(task_views(tasks@) =~= block_tasks(lv.take(0)));
    assert(program_views(programs@) =~= block_programs(lv.take(0)));
    while i < lines.len()
        invariant
            i <= lines.len(),
            lv == lines@.map_values(|p: Vec<char>| p@),
            lv == split_on(block@, '\n'),
            task_views(tasks@) == block_tasks(lv.take(i as int)),
            program_views(programs@) == block_programs(lv.take(i as int)),
        decreases lines.len() - i,
    {
        assert(lv.take(i + 1).drop_last() =~= lv.take(i as int));
        assert(lv.take(i + 1).last() == lines@[i as int]@);
        parse_line(&lines[i], &mut tasks, &mut programs);
        i = i + 1;
    }
    assert(lv.take(lines.len() as int) =~= lv);
    InlineConfig { tasks, programs }
}

/// The blocks `CONFIGURATION ... END_CONFIGURATION` (case-insensitive)
/// from position `cursor` on, each read with `config_of`.
pub open spec fn extract_configs(src: Seq<char>, cursor: int) -> Seq<
    (Seq<(Seq<char>, u32, i32)>, Seq<(Seq<char>, Seq<char>, Seq<char>)>),
>
    decreases src.len() + 1 - cursor,
{
    let lower = lower_seq(src);
    match find_from(lower, "configuration "@, cursor) {
        None => Seq::empty(),
        Some(abs) => match find_from(lower, "end_configuration"@, abs) {
            None => Seq::empty(),
            Some(e) => {
                let ae = e + "end_configuration"@.len();
                proof {
                    lemma_find_from_bounds(lower, "configuration "@, cursor);
                    lemma_find_from_bounds(lower, "end_configuration"@, abs);
                    reveal_strlit("end_configuration");
                }
                seq![config_of(src.subrange(abs, ae))] + extract_configs(src, ae)
            },
        },
    }
}

/// Every inline CONFIGURATION block of a POU source, in order.
pub fn extract_inline_configuration(source: &str) -> (r: Vec<InlineConfig>)
    ensures
        r@.map_values(|c: InlineConfig| inline_view(c)) == extract_configs(source@, 0),
{
    let src = chars_of(source);
    let lower = lower_chars(&src);
    let open_kw = chars_of("configuration ");
    let close_kw = chars_of("end_configuration");
    proof {
        reveal_strlit("end_configuration");
    }
    let mut out: Vec<InlineConfig> = Vec::new();
    let mut cursor: usize = 0;
    assert(out@.map_values(|c: InlineConfig| inline_view(c)) + extract_configs(source@, 0)
        =~= extract_configs(source@, 0));
    loop
        invariant_except_break
            src@ == source@,
            lower@ == lower_seq(source@),
            open_kw@ == "configuration "@,
            close_kw@ == "end_configuration"@,
            close_kw@.len() == 17,
            cursor <= src.len(),
            extract_configs(source@, 0) == out@.map_values(|c: InlineConfig| inline_view(c))
                + extract_configs(source@, cursor as int),
        ensures
            out@.map_values(|c: InlineConfig| inline_view(c)) == extract_configs(source@, 0),
        decreases src.len() + 1 - cursor,
    {
        let ghost before = out@.map_values(|c: InlineConfig| inline_view(c));
        let abs = match find_chars(&lower, &open_kw, cursor) {
            Some(a) => a,
            None => {
                assert(extract_configs(source@, cursor as int) =~= Seq::empty());
                assert(before + Seq::empty() =~= before);
                break;
            },
        };
        proof {
            lemma_find_from_bounds(lower@, open_kw@, cursor as int);
        }
        let e = match find_chars(&lower, &close_kw, abs) {
            Some(e) => e,
            None => {
                assert(extract_configs(source@, cursor as int) =~= Seq::empty());
                assert(before + Seq::empty() =~= before);
                break;
            },
        };
        proof {
            lemma_find_from_bounds(lower@, close_kw@, abs as int);
        }
        let ae = e + close_kw.len();
        let block = sub_chars(&src, abs, ae);
        let cfg = parse_configuration_block(&block);
        out.push(cfg);
        assert(out@.map_values(|c: InlineConfig| inline_view(c)) =~= before.push(inline_view(cfg)));
        assert(extract_configs(source@, cursor as int) == seq![config_of(source@.subrange(abs as int, ae as int))]
            + extract_configs(source@, ae as int));
        assert(before.push(inline_view(cfg)) + extract_configs(source@, ae as int) =~= before
            + extract_configs(source@, cursor as int));
        cursor = ae;
    }
    out
}

/// The source with every CONFIGURATION block from `cursor` on removed,
/// together with the newline right after it; an unterminated block is
/// kept.
pub open spec fn strip_configs(src: Seq<char>, cursor: int) -> Seq<char>
    decreases src.len() + 1 - cursor,
{
    let lower = lower_seq(src);
    match find_from(lower, "configuration "@, cursor) {
        None => src.subrange(cursor, src.len() as int),
        Some(abs) => src.subrange(cursor, abs) + match find_from(lower, "end_configuration"@, abs) {
            None => src.subrange(abs, src.len() as int),
            Some(e) => {
                let ae = e + "end_configuration"@.len();
                let next = if ae < src.len() && src[ae] == '\n' {
                    ae + 1
                } else {
                    ae
                };
                proof {
                    lemma_find_from_bounds(lower, "configuration "@, cursor);
                    lemma_find_from_bounds(lower, "end_configuration"@, abs);
                    reveal_strlit("end_configuration");
                }
                strip_configs(src, next)
            },
        },
    }
}

/// Removes every inline CONFIGURATION block (and the newline after it)
/// from a POU source, leaving the rest as it was.
pub fn strip_inline_configuration(source: &str) -> (r: String)
    ensures
        r@ == strip_configs(source@, 0),
{
    let src = chars_of(source);
    let lower = lower_chars(&src);
    let open_kw = chars_of("configuration ");
    let close_kw = chars_of("end_configuration");
    proof {
        reveal_strlit("end_configuration");
    }
    let mut out: Vec<char> = Vec::new();
    let mut cursor: usize = 0;
    assert(out@ + strip_configs(source@, 0) =~= strip_configs(source@, 0));
    loop
        invariant_except_break
            src@ == source@,
            lower@ == lower_seq(source@),
            open_kw@ == "configuration "@,
            close_kw@ == "end_configuration"@,
            close_kw@.len() == 17,
            cursor <= src.len(),
            strip_configs(source@, 0) == out@ + strip_configs(source@, cursor as int),
        ensures
            out@ == strip_configs(source@, 0),
        decreases src.len() + 1 - cursor,
    {
        let abs = match find_chars(&lower, &open_kw, cursor) {
            Some(a) => a,
            None => {
                let tail = sub_chars(&src, cursor, src.len());
                let ghost o = out@;
                out.append(&mut tail.clone());
                assert(out@ =~= o + tail@);
                assert(strip_configs(source@, cursor as int) == tail@);
                break;
            },
        };
        proof {
            lemma_find_from_bounds(lower@, open_kw@, cursor as int);
        }
        let ghost o = out@;
        let head = sub_chars(&src, cursor, abs);
        out.append(&mut head.clone());
        assert(out@ =~= o + head@);
        let e = match find_chars(&lower, &close_kw, abs) {
            Some(e) => e,
            None => {
                let ghost o2 = out@;
                let tail = sub_chars(&src, abs, src.len());
                out.append(&mut tail.clone());
                assert(out@ =~= o2 + tail@);
                assert(out@ =~= o + strip_configs(source@, cursor as int));
                break;
            },
        };
        proof {
            lemma_find_from_bounds(lower@, close_kw@, abs as int);
        }
        let ae = e + close_kw.len();
        let next = if ae < src.len() && src[ae] == '\n' {
            ae + 1
        } else {
            ae
        };
        assert(out@ + strip_configs(source@, next as int) =~= o + strip_configs(source@, cursor as int));
        cursor = next;
    }
    string_of(&out)
}


// ----- Migration to a project-level task list -----

/// Outcome of `ProjectStore::migrate_tasks`.
#[derive(Debug, Clone)]
pub enum MigrationReport {
    /// The task list already exists; nothing to do.
    Skipped,
    /// Inline CONFIGURATION blocks were lifted into the task list and
    /// removed from the POUs named in `pous_modified`.
    Migrated { tasks_count: usize, programs_count: usize, pous_modified: Vec<String> },
}

/// What a migration writes: the rewritten POU sources (name, new source),
/// in order, then the task list.
pub struct TaskMigration {
    pub report: MigrationReport,
    pub rewrites: Vec<(String, String)>,
    pub tasks: Option<Tasks>,
}

/// The inline configurations of every application, in order.
pub open spec fn app_configs(apps: Seq<Application>) -> Seq<
    (Seq<(Seq<char>, u32, i32)>, Seq<(Seq<char>, Seq<char>, Seq<char>)>),
>
    decreases apps.len(),
{
    if apps.len() == 0 {
        Seq::empty()
    } else {
        app_configs(apps.drop_last()) + extract_configs(apps.last().source@, 0)
    }
}

pub open spec fn flat_tasks(
    cfgs: Seq<(Seq<(Seq<char>, u32, i32)>, Seq<(Seq<char>, Seq<char>, Seq<char>)>)>,
) -> Seq<(Seq<char>, u32, i32)>
    decreases cfgs.len(),
{
    if cfgs.len() == 0 {
        Seq::empty()
    } else {
        flat_tasks(cfgs.drop_last()) + cfgs.last().0
    }
}

pub open spec fn flat_programs(
    cfgs: Seq<(Seq<(Seq<char>, u32, i32)>, Seq<(Seq<char>, Seq<char>, Seq<char>)>)>,
) -> Seq<(Seq<char>, Seq<char>, Seq<char>)>
    decreases cfgs.len(),
{
    if cfgs.len() == 0 {
        Seq::empty()
    } else {
        flat_programs(cfgs.drop_last()) + cfgs.last().1
    }
}

/// The tasks with the first of each name kept.
pub open spec fn dedup_tasks(ts: Seq<(Seq<char>, u32, i32)>) -> Seq<(Seq<char>, u32, i32)>
    decreases ts.len(),
{
    if ts.len() == 0 {
        Seq::empty()
    } else {
        let d = dedup_tasks(ts.drop_last());
        if d.map_values(|t: (Seq<char>, u32, i32)| t.0).contains(ts.last().0) {
            d
        } else {
            d.push(ts.last())
        }
    }
}

/// The program bindings with the first of each instance name kept.
pub open spec fn dedup_programs(ps: Seq<(Seq<char>, Seq<char>, Seq<char>)>) -> Seq<
    (Seq<char>, Seq<char>, Seq<char>),
>
    decreases ps.len(),
{
    if ps.len() == 0 {
        Seq::empty()
    } else {
        let d = dedup_programs(ps.drop_last());
        if d.map_values(|p: (Seq<char>, Seq<char>, Seq<char>)| p.0).contains(ps.last().0) {
            d
        } else {
            d.push(ps.last())
        }
    }
}

/// The migrated task list: the declared tasks, first of each name, or a
/// single 100 ms `plc_task` when none was declared.
pub open spec fn migrated_tasks(apps: Seq<Application>) -> Seq<(Seq<char>, u32, i32)> {
    let t = dedup_tasks(flat_tasks(app_configs(apps)));
    if t.len() == 0 {
        seq![("plc_task"@, 100u32, 1i32)]
    } else {
        t
    }
}

pub open spec fn migrated_programs(apps: Seq<Application>) -> Seq<(Seq<char>, Seq<char>, Seq<char>)> {
    dedup_programs(flat_programs(app_configs(apps)))
}

/// The POUs that held inline configuration: (name, source without it).
pub open spec fn rewrites_of(apps: Seq<Application>) -> Seq<(Seq<char>, Seq<char>)>
    decreases apps.len(),
{
    if apps.len() == 0 {
        Seq::empty()
    } else {
        rewrites_of(apps.drop_last()) + if extract_configs(apps.last().source@, 0).len() > 0 {
            seq![(apps.last().name@, strip_configs(apps.last().source@, 0))]
        } else {
            Seq::<(Seq<char>, Seq<char>)>::empty()
        }
    }
}

fn copy_task(t: &Task) -> (r: Task)
    ensures
        task_view(r) == task_view(*t),
{
    Task { name: t.name.clone(), interval_ms: t.interval_ms, priority: t.priority }
}

fn copy_program(p: &ProgramInstance) -> (r: ProgramInstance)
    ensures
        program_view(r) == program_view(*p),
{
    ProgramInstance { instance: p.instance.clone(), program: p.program.clone(), task: p.task.clone() }
}

impl ProjectStore {
    /// Lifts the inline CONFIGURATION blocks of `apps` into a task list,
    /// unless the project already has one (`tasks_exist`). Tasks are
    /// merged first-of-each-name, bindings first-of-each-instance, in the
    /// order of `apps` and of the blocks in each.
    pub fn migrate_tasks(&self, tasks_exist: bool, apps: &Vec<Application>) -> (r: TaskMigration)
        ensures
            tasks_exist ==> r.report is Skipped && r.rewrites@.len() == 0 && r.tasks is None,
            !tasks_exist ==> {
                &&& r.rewrites@.map_values(|w: (String, String)| (w.0@, w.1@)) == rewrites_of(
                    apps@,
                )
                &&& r.tasks matches Some(t) && task_views(t.tasks@) == migrated_tasks(apps@)
                    && program_views(t.programs@) == migrated_programs(apps@)
                &&& r.report matches MigrationReport::Migrated {
                    tasks_count,
                    programs_count,
                    pous_modified,
                } && tasks_count == migrated_tasks(apps@).len() && programs_count
                    == migrated_programs(apps@).len() && views(pous_modified@)
                    == rewrites_of(apps@).map_values(|w: (Seq<char>, Seq<char>)| w.0)
            },
    {
        if tasks_exist {
            return TaskMigration { report: MigrationReport::Skipped, rewrites: Vec::new(), tasks: None };
        }
        let ghost av = apps@;
        let mut rewrites: Vec<(String, String)> = Vec::new();
        let mut names: Vec<String> = Vec::new();
        let mut all_tasks: Vec<Task> = Vec::new();
        let mut all_programs: Vec<ProgramInstance> = Vec::new();
        let mut i: usize = 0;
        assert(rewrites@.map_values(|w: (String, String)| (w.0@, w.1@)) =~= rewrites_of(av.take(0)));
        assert(task_views(all_tasks@) =~= flat_tasks(app_configs(av.take(0))));
        assert(program_views(all_programs@) =~= flat_programs(app_configs(av.take(0))));
        while i < apps.len()
            invariant
                av == apps@,
                i <= apps.len(),
                rewrites@.map_values(|w: (String, String)| (w.0@, w.1@)) == rewrites_of(
                    av.take(i as int),
                ),
                views(names@) == rewrites_of(av.take(i as int)).map_values(
                    |w: (Seq<char>, Seq<char>)| w.0,
                ),
                task_views(all_tasks@) == flat_tasks(app_configs(av.take(i as int))),
                program_views(all_programs@) == flat_programs(app_configs(av.take(i as int))),
            decreases apps.len() - i,
        {
            let app = &apps[i];
            assert(av.take(i + 1).drop_last() =~= av.take(i as int));
            assert(av.take(i + 1).last() == app);
            let cfgs = extract_inline_configuration(app.source.as_str());
            let ghost cv = cfgs@.map_values(|c: InlineConfig| inline_view(c));
            let ghost rw0 = rewrites@.map_values(|w: (String, String)| (w.0@, w.1@));
            let ghost nm0 = views(names@);
            if cfgs.len() > 0 {
                let stripped = strip_inline_configuration(app.source.as_str());
                rewrites.push((app.name.clone(), stripped));
                proof {
                    lemma_views_push(names@, app.name);
                }
                names.push(app.name.clone());
                assert(rewrites@.map_values(|w: (String, String)| (w.0@, w.1@)) =~= rw0.push(
                    (app.name@, strip_configs(app.source@, 0)),
                ));
            } else {
                assert(rewrites@.map_values(|w: (String, String)| (w.0@, w.1@)) =~= rw0 + Seq::<
                    (Seq<char>, Seq<char>),
                >::empty());
            }
            assert(views(names@) =~= rewrites_of(av.take(i + 1)).map_values(
                |w: (Seq<char>, Seq<char>)| w.0,
            ));
            let ghost ft0 = task_views(all_tasks@);
            let ghost fp0 = program_views(all_programs@);
            let mut j: usize = 0;
            assert(ft0 + flat_tasks(cv.take(0)) =~= ft0);
            assert(fp0 + flat_programs(cv.take(0)) =~= fp0);
            while j < cfgs.len()
                invariant
                    j <= cfgs.len(),
                    cv == cfgs@.map_values(|c: InlineConfig| inline_view(c)),
                    task_views(all_tasks@) == ft0 + flat_tasks(cv.take(j as int)),
                    program_views(all_programs@) == fp0 + flat_programs(cv.take(j as int)),
                decreases cfgs.len() - j,
            {
                let cfg = &cfgs[j];
                assert(cv.take(j + 1).drop_last() =~= cv.take(j as int));
                assert(cv.take(j + 1).last() == inline_view(*cfg));
                let ghost t1 = task_views(all_tasks@);
                let mut k: usize = 0;
                assert(task_views(cfg.tasks@).take(0) =~= Seq::<(Seq<char>, u32, i32)>::empty());
                assert(t1 + task_views(cfg.tasks@).take(0) =~= t1);
                while k < cfg.tasks.len()
                    invariant
                        k <= cfg.tasks.len(),
                        task_views(all_tasks@) == t1 + task_views(cfg.tasks@).take(k as int),
                    decreases cfg.tasks.len() - k,
                {
                    let ghost before = task_views(all_tasks@);
                    let t = copy_task(&cfg.tasks[k]);
                    all_tasks.push(t);
                    assert(task_views(all_tasks@) =~= before.push(task_view(t)));
                    assert(task_views(cfg.tasks@)[k as int] == task_view(t));
                    assert(task_views(cfg.tasks@).take(k + 1) =~= task_views(cfg.tasks@).take(
                        k as int,
                    ).push(task_view(t)));
                    assert(task_views(all_tasks@) =~= t1 + task_views(cfg.tasks@).take(k + 1));
                    k = k + 1;
                }
                assert(task_views(cfg.tasks@).take(cfg.tasks.len() as int) =~= task_views(cfg.tasks@));
                let ghost p1 = program_views(all_programs@);
                let mut k: usize = 0;
                assert(p1 + program_views(cfg.programs@).take(0) =~= p1);
                while k < cfg.programs.len()
                    invariant
                        k <= cfg.programs.len(),
                        program_views(all_programs@) == p1 + program_views(cfg.programs@).take(
                            k as int,
                        ),
                    decreases cfg.programs.len() - k,
                {
                    let ghost before = program_views(all_programs@);
                    let p = copy_program(&cfg.programs[k]);
                    all_programs.push(p);
                    assert(program_views(all_programs@) =~= before.push(program_view(p)));
                    assert(program_views(cfg.programs@)[k as int] == program_view(p));
                    assert(program_views(cfg.programs@).take(k + 1) =~= program_views(
                        cfg.programs@,
                    ).take(k as int).push(program_view(p)));
                    assert(program_views(all_programs@) =~= p1 + program_views(cfg.programs@).take(
                        k + 1,
                    ));
                    k = k + 1;
                }
                assert(program_views(cfg.programs@).take(cfg.programs.len() as int) =~= program_views(
                    cfg.programs@,
                ));
                assert(ft0 + flat_tasks(cv.take(j + 1)) =~= t1 + task_views(cfg.tasks@));
                assert(fp0 + flat_programs(cv.take(j + 1)) =~= p1 + program_views(cfg.programs@));
                j = j + 1;
            }
            assert(cv.take(cfgs.len() as int) =~= cv);
            proof {
                lemma_flat_tasks_concat(app_configs(av.take(i as int)), cv);
                lemma_flat_programs_concat(app_configs(av.take(i as int)), cv);
            }
            i = i + 1;
        }
        assert(av.take(apps.len() as int) =~= av);
        // First of each task name, first of each instance name.
        let ghost ft = task_views(all_tasks@);
        let mut tasks: Vec<Task> = Vec::new();
        let mut seen: Vec<String> = Vec::new();
        let mut i: usize = 0;
        assert(task_views(tasks@) =~= dedup_tasks(ft.take(0)));
        while i < all_tasks.len()
            invariant
                i <= all_tasks.len(),
                ft == task_views(all_tasks@),
                task_views(tasks@) == dedup_tasks(ft.take(i as int)),
                views(seen@) == dedup_tasks(ft.take(i as int)).map_values(
                    |t: (Seq<char>, u32, i32)| t.0,
                ),
            decreases all_tasks.len() - i,
        {
            assert(ft.take(i + 1).drop_last() =~= ft.take(i as int));
            assert(ft.take(i + 1).last() == task_view(all_tasks@[i as int]));
            let t = &all_tasks[i];
            if !contains_string(&seen, &t.name) {
                proof {
                    lemma_views_push(seen@, t.name);
                }
                seen.push(t.name.clone());
                tasks.push(copy_task(t));
                assert(task_views(tasks@) =~= dedup_tasks(ft.take(i as int)).push(task_view(*t)));
            }
            assert(views(seen@) =~= dedup_tasks(ft.take(i + 1)).map_values(
                |t: (Seq<char>, u32, i32)| t.0,
            ));
            i = i + 1;
        }
        assert(ft.take(all_tasks.len() as int) =~= ft);
        let ghost fp = program_views(all_programs@);
        let mut programs: Vec<ProgramInstance> = Vec::new();
        let mut seen: Vec<String> = Vec::new();
        let mut i: usize = 0;
        assert(program_views(programs@) =~= dedup_programs(fp.take(0)));
        while i < all_programs.len()
            invariant
                i <= all_programs.len(),
                fp == program_views(all_programs@),
                program_views(programs@) == dedup_programs(fp.take(i as int)),
                views(seen@) == dedup_programs(fp.take(i as int)).map_values(
                    |p: (Seq<char>, Seq<char>, Seq<char>)| p.0,
                ),
            decreases all_programs.len() - i,
        {
            assert(fp.take(i + 1).drop_last() =~= fp.take(i as int));
            assert(fp.take(i + 1).last() == program_view(all_programs@[i as int]));
            let p = &all_programs[i];
            if !contains_string(&seen, &p.instance) {
                proof {
                    lemma_views_push(seen@, p.instance);
                }
                seen.push(p.instance.clone());
                programs.push(copy_program(p));
                assert(program_views(programs@) =~= dedup_programs(fp.take(i as int)).push(
                    program_view(*p),
                ));
            }
            assert(views(seen@) =~= dedup_programs(fp.take(i + 1)).map_values(
                |p: (Seq<char>, Seq<char>, Seq<char>)| p.0,
            ));
            i = i + 1;
        }
        assert(fp.take(all_programs.len() as int) =~= fp);
        if tasks.len() == 0 {
            tasks.push(Task { name: String::from_str("plc_task"), interval_ms: 100, priority: 1 });
            assert(task_views(tasks@) =~= seq![("plc_task"@, 100u32, 1i32)]);
        }
        let tasks_count = tasks.len();
        let programs_count = programs.len();
        TaskMigration {
            report: MigrationReport::Migrated { tasks_count, programs_count, pous_modified: names },
            rewrites,
            tasks: Some(Tasks { tasks, programs }),
        }
    }
}

proof fn lemma_flat_tasks_concat(
    a: Seq<(Seq<(Seq<char>, u32, i32)>, Seq<(Seq<char>, Seq<char>, Seq<char>)>)>,
    b: Seq<(Seq<(Seq<char>, u32, i32)>, Seq<(Seq<char>, Seq<char>, Seq<char>)>)>,
)
    ensures
        flat_tasks(a + b) == flat_tasks(a) + flat_tasks(b),
    decreases b.len(),
{
    if b.len() == 0 {
        assert(a + b =~= a);
        assert(flat_tasks(a) + flat_tasks(b) =~= flat_tasks(a));
    } else {
        assert((a + b).drop_last() =~= a + b.drop_last());
        lemma_flat_tasks_concat(a, b.drop_last());
        assert(flat_tasks(a + b) =~= flat_tasks(a) + flat_tasks(b));
    }
}

proof fn lemma_flat_programs_concat(
    a: Seq<(Seq<(Seq<char>, u32, i32)>, Seq<(Seq<char>, Seq<char>, Seq<char>)>)>,
    b: Seq<(Seq<(Seq<char>, u32, i32)>, Seq<(Seq<char>, Seq<char>, Seq<char>)>)>,
)
    ensures
        flat_programs(a + b) == flat_programs(a) + flat_programs(b),
    decreases b.len(),
{
    if b.len() == 0 {
        assert(a + b =~= a);
        assert(flat_programs(a) + flat_programs(b) =~= flat_programs(a));
    } else {
        assert((a + b).drop_last() =~= a + b.drop_last());
        lemma_flat_programs_concat(a, b.drop_last());
        assert(flat_programs(a + b) =~= flat_programs(a) + flat_programs(b));
    }
}


// ----- New projects -----

impl ProjectStore {
    /// A new project named `name` at `root`, refused when the name is not
    /// a valid path or when `root` already holds a manifest (`exists`).
    pub fn create(root: String, name: &str, exists: bool) -> (r: Result<ProjectStore, StoreError>)
        ensures
            !valid_path(name@) ==> (r matches Err(StoreError::InvalidName(n)) && n@ == name@),
            valid_path(name@) && exists ==> (r matches Err(StoreError::AlreadyExists(p)) && p@
                == root@),
            valid_path(name@) && !exists ==> (r matches Ok(s) && s.root_path() == root@
                && s.project_name() == name@),
    {
        match validate_path(name) {
            Err(e) => {
                return Err(e);
            },
            Ok(()) => {},
        }
        if exists {
            return Err(StoreError::AlreadyExists(root));
        }
        let manifest = ProjectManifest { name: name.to_string(), version: crate::types::default_version() };
        Ok(ProjectStore { root, manifest })
    }
}

/// The task list a new project starts with: `main_inst` of `main` on a
/// 100 ms task `plc_task` of priority 1.
pub fn seed_tasks() -> (t: Tasks)
    ensures
        task_views(t.tasks@) == seq![("plc_task"@, 100u32, 1i32)],
        program_views(t.programs@) == seq![("main_inst"@, "main"@, "plc_task"@)],
{
    let tasks = vec![Task { name: String::from_str("plc_task"), interval_ms: 100, priority: 1 }];
    let programs = vec![
        ProgramInstance {
            instance: String::from_str("main_inst"),
            program: String::from_str("main"),
            task: String::from_str("plc_task"),
        },
    ];
    assert(task_views(tasks@) =~= seq![("plc_task"@, 100u32, 1i32)]);
    assert(program_views(programs@) =~= seq![("main_inst"@, "main"@, "plc_task"@)]);
    Tasks { tasks, programs }
}

// ----- Walking the project directories -----

/// Whether a directory entry is skipped: its name starts with a dot.
pub open spec fn is_hidden(name: Seq<char>) -> bool {
    name.len() > 0 && name[0] == '.'
}

pub fn is_hidden_entry(name: &str) -> (r: bool)
    ensures
        r == is_hidden(name@),
{
    let v = chars_of(name);
    v.len() > 0 && v[0] == '.'
}

/// The relative path of an entry found under `prefix`.
pub open spec fn child_path_of(prefix: Seq<char>, name: Seq<char>) -> Seq<char> {
    if prefix.len() == 0 {
        name
    } else {
        prefix + seq!['/'] + name
    }
}

pub fn child_path(prefix: &str, name: &str) -> (r: String)
    ensures
        r@ == child_path_of(prefix@, name@),
{
    if prefix.is_empty() {
        name.to_string()
    } else {
        let mut r = prefix.to_string();
        r.append("/");
        r.append(name);
        proof {
            reveal_strlit("/");
        }
        r
    }
}

/// The stem of a file name whose extension is `ext`: the part before its
/// last dot, when that dot is not the name's first character and what
/// follows it is `ext`.
pub open spec fn stem_with_ext(name: Seq<char>, ext: Seq<char>) -> Option<Seq<char>> {
    match rfind_char(name, '.') {
        Some(p) => if p > 0 && name.skip(p + 1) == ext {
            Some(name.take(p))
        } else {
            None
        },
        None => None,
    }
}

pub fn file_stem_with_ext(name: &str, ext: &str) -> (r: Option<String>)
    ensures
        match r {
            Some(s) => stem_with_ext(name@, ext@) == Some(s@),
            None => stem_with_ext(name@, ext@) is None,
        },
{
    let v = chars_of(name);
    match rfind_chars(&v, '.') {
        Some(p) => {
            proof {
                crate::chars::lemma_rfind_char(v@, '.');
            }
            if p == 0 {
                return None;
            }
            let after = sub_chars(&v, p + 1, v.len());
            let e = chars_of(ext);
            assert(v@.subrange(p + 1, v.len() as int) =~= v@.skip(p + 1));
            if after.len() == e.len() && starts_with_chars(&after, &e) {
                assert(after@ =~= e@);
                let stem = sub_chars(&v, 0, p);
                assert(v@.subrange(0, p as int) =~= v@.take(p as int));
                Some(string_of(&stem))
            } else {
                proof {
                    if after@ == e@ {
                        assert(after@.take(e@.len() as int) =~= after@);
                    }
                }
                None
            }
        },
        None => None,
    }
}

// ----- Device and edge listings -----

pub open spec fn device_key() -> spec_fn((Seq<char>, ProtocolConfig)) -> Seq<char> {
    |d: (Seq<char>, ProtocolConfig)| d.0
}

pub open spec fn device_views(s: Seq<crate::types::Device>) -> Seq<(Seq<char>, ProtocolConfig)> {
    s.map_values(|d: crate::types::Device| (d.name@, d.config))
}

fn insert_device(v: &mut Vec<crate::types::Device>, a: crate::types::Device)
    ensures
        device_views(final(v)@) == insert_by_key(device_views(old(v)@), (a.name@, a.config), device_key()),
{
    let ghost old_views = device_views(v@);
    let ghost av = (a.name@, a.config);
    let mut i: usize = 0;
    assert(old_views.skip(0) =~= old_views);
    assert(old_views.take(0) + insert_by_key(old_views, av, device_key()) =~= insert_by_key(
        old_views,
        av,
        device_key(),
    ));
    while i < v.len()
        invariant
            i <= v.len(),
            v@ == old(v)@,
            old_views == device_views(v@),
            av == (a.name@, a.config),
            insert_by_key(old_views, av, device_key()) == old_views.take(i as int) + insert_by_key(
                old_views.skip(i as int),
                av,
                device_key(),
            ),
        decreases v.len() - i,
    {
        let ghost rest = old_views.skip(i as int);
        assert(rest[0] == (v@[i as int].name@, v@[i as int].config));
        if str_lt(a.name.as_str(), v[i].name.as_str()) {
            v.insert(i, a);
            proof {
                assert(device_views(v@) =~= old_views.take(i as int) + (seq![av] + rest));
            }
            return;
        }
        assert(rest.drop_first() =~= old_views.skip(i + 1));
        assert(old_views.take(i as int) + (seq![rest[0]] + insert_by_key(
            rest.drop_first(),
            av,
            device_key(),
        )) =~= old_views.take(i + 1) + insert_by_key(old_views.skip(i + 1), av, device_key()));
        i = i + 1;
    }
    v.push(a);
    proof {
        assert(old_views.skip(i as int) =~= Seq::<(Seq<char>, ProtocolConfig)>::empty());
        assert(device_views(v@) =~= old_views.take(i as int) + seq![av]);
    }
}

pub open spec fn found_views(s: Seq<(String, crate::types::Device)>) -> Seq<(Seq<char>, ProtocolConfig)> {
    s.map_values(|f: (String, crate::types::Device)| (f.0@, f.1.config))
}

impl ProjectStore {
    /// The devices found under `devices/`, each named by its file's path
    /// there (the name inside the file gives way), ordered by that name.
    pub fn list_devices(&self, found: Vec<(String, crate::types::Device)>) -> (r: Vec<crate::types::Device>)
        ensures
            device_views(r@) == sort_by_key(found_views(found@), device_key()),
    {
        let ghost all = found_views(found@);
        let mut found = found;
        let mut out: Vec<crate::types::Device> = Vec::new();
        let mut i: usize = 0;
        let n = found.len();
        assert(device_views(out@) =~= sort_by_key(all.take(0), device_key()));
        while found.len() > 0
            invariant
                i + found@.len() == n,
                n == all.len(),
                found_views(found@) == all.skip(
                    i as int,
                ),
                device_views(out@) == sort_by_key(all.take(i as int), device_key()),
            decreases found@.len(),
        {
            let ghost rest = found_views(found@);
            let ghost old_found = found@;
            let (rel, d) = found.remove(0);
            assert(rest[0] == all[i as int]);
            assert(found@ =~= old_found.drop_first());
            assert forall|j: int| 0 <= j < found@.len() implies #[trigger] found_views(found@)[j] == all.skip(i + 1)[j] by {
                assert(found@[j] == old_found[j + 1]);
                assert(rest[j + 1] == all.skip(i as int)[j + 1]);
            }
            assert(found_views(found@) =~= all.skip(
                i + 1,
            ));
            assert(all.take(i + 1).drop_last() =~= all.take(i as int));
            assert(all.take(i + 1).last() == all[i as int]);
            let dev = crate::types::Device { name: rel, config: d.config };
            insert_device(&mut out, dev);
            i = i + 1;
        }
        assert(all.take(n as int) =~= all);
        out
    }
}

/// An edge's settings other than its name.
pub type EdgeRest = (String, u16, String, String, u16, String);

pub open spec fn edge_rest(e: Edge) -> EdgeRest {
    (e.host, e.ssh_port, e.ssh_user, e.install_dir, e.runtime_port, e.notes)
}

pub open spec fn edge_key() -> spec_fn((Seq<char>, EdgeRest)) -> Seq<char> {
    |d: (Seq<char>, EdgeRest)| d.0
}

pub open spec fn edge_views(s: Seq<Edge>) -> Seq<(Seq<char>, EdgeRest)> {
    s.map_values(|d: Edge| (d.name@, edge_rest(d)))
}

fn insert_edge(v: &mut Vec<Edge>, a: Edge)
    ensures
        edge_views(final(v)@) == insert_by_key(edge_views(old(v)@), (a.name@, edge_rest(a)), edge_key()),
{
    let ghost old_views = edge_views(v@);
    let ghost av = (a.name@, edge_rest(a));
    let mut i: usize = 0;
    assert(old_views.skip(0) =~= old_views);
    assert(old_views.take(0) + insert_by_key(old_views, av, edge_key()) =~= insert_by_key(
        old_views,
        av,
        edge_key(),
    ));
    while i < v.len()
        invariant
            i <= v.len(),
            v@ == old(v)@,
            old_views == edge_views(v@),
            av == (a.name@, edge_rest(a)),
            insert_by_key(old_views, av, edge_key()) == old_views.take(i as int) + insert_by_key(
                old_views.skip(i as int),
                av,
                edge_key(),
            ),
        decreases v.len() - i,
    {
        let ghost rest = old_views.skip(i as int);
        assert(rest[0] == (v@[i as int].name@, edge_rest(v@[i as int])));
        if str_lt(a.name.as_str(), v[i].name.as_str()) {
            v.insert(i, a);
            proof {
                assert(edge_views(v@) =~= old_views.take(i as int) + (seq![av] + rest));
            }
            return;
        }
        assert(rest.drop_first() =~= old_views.skip(i + 1));
        assert(old_views.take(i as int) + (seq![rest[0]] + insert_by_key(
            rest.drop_first(),
            av,
            edge_key(),
        )) =~= old_views.take(i + 1) + insert_by_key(old_views.skip(i + 1), av, edge_key()));
        i = i + 1;
    }
    v.push(a);
    proof {
        assert(old_views.skip(i as int) =~= Seq::<(Seq<char>, EdgeRest)>::empty());
        assert(edge_views(v@) =~= old_views.take(i as int) + seq![av]);
    }
}

pub open spec fn found_edge_views(s: Seq<(String, Edge)>) -> Seq<(Seq<char>, EdgeRest)> {
    s.map_values(|f: (String, Edge)| (f.0@, edge_rest(f.1)))
}

impl ProjectStore {
    /// The edges found under `edges/`, each named by its file's path
    /// there (the name inside the file gives way), ordered by that name.
    pub fn list_edges(&self, found: Vec<(String, Edge)>) -> (r: Vec<Edge>)
        ensures
            edge_views(r@) == sort_by_key(found_edge_views(found@), edge_key()),
    {
        let ghost all = found_edge_views(found@);
        let mut found = found;
        let mut out: Vec<Edge> = Vec::new();
        let mut i: usize = 0;
        let n = found.len();
        assert(edge_views(out@) =~= sort_by_key(all.take(0), edge_key()));
        while found.len() > 0
            invariant
                i + found@.len() == n,
                n == all.len(),
                found_edge_views(found@) == all.skip(
                    i as int,
                ),
                edge_views(out@) == sort_by_key(all.take(i as int), edge_key()),
            decreases found@.len(),
        {
            let ghost rest = found_edge_views(found@);
            let ghost old_found = found@;
            let (rel, d) = found.remove(0);
            assert(rest[0] == all[i as int]);
            assert(found@ =~= old_found.drop_first());
            assert forall|j: int| 0 <= j < found@.len() implies #[trigger] found_edge_views(found@)[j] == all.skip(i + 1)[j] by {
                assert(found@[j] == old_found[j + 1]);
                assert(rest[j + 1] == all.skip(i as int)[j + 1]);
            }
            assert(found_edge_views(found@) =~= all.skip(
                i + 1,
            ));
            assert(all.take(i + 1).drop_last() =~= all.take(i as int));
            assert(all.take(i + 1).last() == all[i as int]);
            let edge = Edge { name: rel, ..d };
            insert_edge(&mut out, edge);
            i = i + 1;
        }
        assert(all.take(n as int) =~= all);
        out
    }
}

} // verus!
