//! The project's on-disk data model: manifest, POU descriptors, devices
//! and their protocol configurations, the IO map, deploy targets, task
//! schedule and northbound publishing settings.
//!
//! Floating-point settings (failsafe values) are carried as their IEEE-754
//! bit patterns so that every value here is a plain integer or string.
use vstd::prelude::*;

verus! {
/// Contents of `project.toml`.
#[derive(Debug, Clone)]
pub struct ProjectManifest {
    pub name: String,
    pub version: String,
}

/// Manifest version written when none is given.
pub fn default_version() -> (r: String)
    ensures
        r@ == "0.1"@,
{
    String::from_str("0.1")
}

#[derive(Debug, Clone, Copy, PartialEq, Eq, Structural)]
pub enum PouType {
    Program,
    FunctionBlock,
    Function,
}

/// Source language of a POU file; the graphical ones transpile to ST.
#[derive(Debug, Clone, Copy, PartialEq, Eq, Structural)]
pub enum PouLanguage {
    St,
    Ld,
    Fbd,
    Sfc,
}

/// One POU declaration found in a source file.
#[derive(Debug, Clone)]
pub struct PouDecl {
    pub name: String,
    pub type_: PouType,
    pub language: PouLanguage,
}

/// A POU file (project-relative path without extension) and its declarations.
#[derive(Debug, Clone)]
pub struct PouFile {
    pub path: String,
    pub declarations: Vec<PouDecl>,
}

/// A POU file with its raw source.
#[derive(Debug, Clone)]
pub struct Pou {
    pub path: String,
    pub source: String,
    pub declarations: Vec<PouDecl>,
}

/// A POU file as read from disk, before its declarations are parsed.
#[derive(Debug, Clone)]
pub struct PouFileSource {
    pub path: String,
    pub source: String,
    pub language: PouLanguage,
}

/// The project tree with raw POU sources.
#[derive(Debug, Clone)]
pub struct ProjectTreeSkeleton {
    pub name: String,
    pub path: String,
    pub pous: Vec<PouFileSource>,
    pub pou_folders: Vec<String>,
    pub devices: Vec<Device>,
    pub device_folders: Vec<String>,
    pub edges: Vec<Edge>,
    pub edge_folders: Vec<String>,
    pub iomap: IoMap,
    pub tasks: Tasks,
}

#[derive(Debug, Clone, Copy, PartialEq, Eq, Structural)]
pub enum Protocol {
    Modbus,
    Ethercat,
    Opcua,
    Canopen,
}

/// A device's protocol together with its protocol-specific settings.
#[derive(Debug, Clone)]
pub enum ProtocolConfig {
    Modbus(ModbusConfig),
    Ethercat(EthercatConfig),
    Opcua(OpcuaConfig),
    Canopen(CanopenConfig),
}

/// Modbus device: TCP or RTU transport plus its channels.
#[derive(Debug, Clone)]
pub struct ModbusConfig {
    pub transport: ModbusTransport,
    pub slave_id: u8,
    /// Polling interval in milliseconds.
    pub poll_interval_ms: u32,
    /// Per-request timeout; `None` leaves the adapter default.
    pub timeout_ms: Option<u32>,
    /// Initial reconnect backoff; `None` leaves the adapter default.
    pub reconnect_backoff_ms: Option<u32>,
    pub channels: Vec<ModbusChannel>,
}

impl ModbusConfig {
    /// A config saved before serial transports existed, with the TCP host
    /// and port at the top level: the same device over TCP.
    pub fn from_legacy_tcp(
        host: String,
        port: u16,
        slave_id: u8,
        poll_interval_ms: u32,
        timeout_ms: Option<u32>,
        reconnect_backoff_ms: Option<u32>,
        channels: Vec<ModbusChannel>,
    ) -> (c: ModbusConfig)
        ensures
            c.transport == ModbusTransport::Tcp(ModbusTcpParams { host, port }),
            c.slave_id == slave_id,
            c.poll_interval_ms == poll_interval_ms,
            c.timeout_ms == timeout_ms,
            c.reconnect_backoff_ms == reconnect_backoff_ms,
            c.channels == channels,
    {
        ModbusConfig {
            transport: ModbusTransport::Tcp(ModbusTcpParams { host, port }),
            slave_id,
            poll_interval_ms,
            timeout_ms,
            reconnect_backoff_ms,
            channels,
        }
    }
}

/// Modbus poll interval used when none is configured.
pub fn default_poll_interval_ms() -> (r: u32)
    ensures
        r == 100,
{
    100
}

/// Modbus over TCP or over a serial line.
#[derive(Debug, Clone)]
pub enum ModbusTransport {
    Tcp(ModbusTcpParams),
    Rtu(ModbusRtuParams),
}

#[derive(Debug, Clone)]
pub struct ModbusTcpParams {
    pub host: String,
    pub port: u16,
}

/// Serial-line settings of a Modbus RTU port.
#[derive(Debug, Clone)]
pub struct ModbusRtuParams {
    pub serial_device: String,
    pub baud_rate: u32,
    pub data_bits: ModbusDataBits,
    pub stop_bits: ModbusStopBits,
    pub parity: ModbusParity,
    /// Kernel RS485 direction control; `None` opens the port in plain serial mode.
    pub rs485: Option<ModbusRs485>,
}

/// Linux RS485 direction-control settings.
#[derive(Debug, Clone)]
pub struct ModbusRs485 {
    pub rts_on_send: bool,
    pub rx_during_tx: bool,
    pub delay_rts_before_send_ms: u32,
    pub delay_rts_after_send_ms: u32,
}

#[derive(Debug, Clone, Copy, PartialEq, Eq, Structural)]
pub enum ModbusParity {
    NoParity,
    Even,
    Odd,
}

impl Default for ModbusParity {
    fn default() -> (r: Self)
        ensures
            r == ModbusParity::NoParity,
    {
        ModbusParity::NoParity
    }
}

#[derive(Debug, Clone, Copy, PartialEq, Eq, Structural)]
pub enum ModbusDataBits {
    Five,
    Six,
    Seven,
    Eight,
}

impl Default for ModbusDataBits {
    fn default() -> (r: Self)
        ensures
            r == ModbusDataBits::Eight,
    {
        ModbusDataBits::Eight
    }
}

#[derive(Debug, Clone, Copy, PartialEq, Eq, Structural)]
pub enum ModbusStopBits {
    One,
    Two,
}

impl Default for ModbusStopBits {
    fn default() -> (r: Self)
        ensures
            r == ModbusStopBits::One,
    {
        ModbusStopBits::One
    }
}

/// One Modbus point an IO mapping can bind.
#[derive(Debug, Clone)]
pub struct ModbusChannel {
    pub name: String,
    pub kind: ModbusChannelKind,
    pub address: u16,
    pub data_type: ModbusDataType,
    pub word_order: ModbusWordOrder,
}

/// Register interpretation; 32-bit types span two registers.
#[derive(Debug, Clone, Copy, PartialEq, Eq, Structural)]
pub enum ModbusDataType {
    U16,
    I16,
    U32,
    I32,
    F32,
}

impl Default for ModbusDataType {
    fn default() -> (r: Self)
        ensures
            r == ModbusDataType::U16,
    {
        ModbusDataType::U16
    }
}

impl ModbusDataType {
    /// How many 16-bit registers this type occupies.
    pub fn register_len(self) -> (n: u16)
        ensures
            n == (match self {
                ModbusDataType::U16 | ModbusDataType::I16 => 1u16,
                _ => 2u16,
            }),
    {
        match self {
            ModbusDataType::U16 | ModbusDataType::I16 => 1,
            ModbusDataType::U32 | ModbusDataType::I32 | ModbusDataType::F32 => 2,
        }
    }
}

/// Which register of a 32-bit value holds the high word.
#[derive(Debug, Clone, Copy, PartialEq, Eq, Structural)]
pub enum ModbusWordOrder {
    HiLo,
    LoHi,
}

impl Default for ModbusWordOrder {
    fn default() -> (r: Self)
        ensures
            r == ModbusWordOrder::HiLo,
    {
        ModbusWordOrder::HiLo
    }
}

#[derive(Debug, Clone, Copy, PartialEq, Eq, Structural)]
pub enum ModbusChannelKind {
    Coil,
    DiscreteInput,
    HoldingRegister,
    InputRegister,
}

/// Distributed-clock mode of an EtherCAT bus.
#[derive(Debug, Clone, Copy, PartialEq, Eq, Structural)]
pub enum EthercatDcSync {
    Off,
    Sync0,
}

impl Default for EthercatDcSync {
    fn default() -> (r: Self)
        ensures
            r == EthercatDcSync::Off,
    {
        EthercatDcSync::Off
    }
}

/// How an EtherCAT bus is brought to OP and its process image discovered.
#[derive(Debug, Clone)]
pub enum EthercatBringup {
    /// Read the runtime CoE PDO-assignment objects.
    Auto,
    /// Build the process image from the device's ESI file.
    EsiModular { esi_path: String },
}

impl Default for EthercatBringup {
    fn default() -> (r: Self)
        ensures
            r is Auto,
    {
        EthercatBringup::Auto
    }
}

/// EtherCAT device: network interface, bus topology, PDO channels and gear axes.
#[derive(Debug, Clone)]
pub struct EthercatConfig {
    pub nic: String,
    pub bringup: EthercatBringup,
    /// SYNC0 cycle time in microseconds.
    pub cycle_us: u32,
    pub dc_sync: EthercatDcSync,
    pub dc_static_sync_iterations: u32,
    pub slaves: Vec<EthercatSlave>,
    pub channels: Vec<EthercatChannel>,
    /// In-cycle electronic gear axes.
    pub gear: Vec<EthercatGear>,
}

/// EtherCAT cycle time used when none is configured (1 ms).
pub fn default_cycle_us() -> (r: u32)
    ensures
        r == 1_000,
{
    1_000
}

/// One in-cycle gear axis and the names of the channels that reach its parameters and feedback.
#[derive(Debug, Clone)]
pub struct EthercatGear {
    pub slave_index: u16,
    pub target_pos_offset: u16,
    pub actual_pos_offset: u16,
    pub status_word_offset: u16,
    pub master: GearMaster,
    pub engage_channel: String,
    pub ratio_apply_channel: String,
    pub ratio_ack_channel: String,
    pub ratio_num_channel: String,
    pub ratio_den_channel: String,
    pub ratio_step_channel: String,
    pub phase_channel: String,
    pub master_vel_channel: String,
    pub max_travel_channel: String,
    pub engaged_channel: String,
    pub trip_channel: String,
}

/// Master position source of a gear axis.
#[derive(Debug, Clone, Copy, PartialEq, Eq, Structural)]
pub enum GearMaster {
    Virtual,
    Axis { slave_index: u16, actual_pos_offset: u16 },
}

/// Default name of a gear axis's `engage` channel.
pub fn default_gear_engage_channel() -> (r: String)
    ensures
        r@ == "gear_engage"@,
{
    String::from_str("gear_engage")
}

/// Default name of a gear axis's `ratio_apply` channel.
pub fn default_gear_ratio_apply_channel() -> (r: String)
    ensures
        r@ == "gear_ratio_apply"@,
{
    String::from_str("gear_ratio_apply")
}

/// Default name of a gear axis's `ratio_ack` channel.
pub fn default_gear_ratio_ack_channel() -> (r: String)
    ensures
        r@ == "gear_ratio_ack"@,
{
    String::from_str("gear_ratio_ack")
}

/// Default name of a gear axis's `ratio_num` channel.
pub fn default_gear_ratio_num_channel() -> (r: String)
    ensures
        r@ == "ratio_num"@,
{
    String::from_str("ratio_num")
}

/// Default name of a gear axis's `ratio_den` channel.
pub fn default_gear_ratio_den_channel() -> (r: String)
    ensures
        r@ == "ratio_den"@,
{
    String::from_str("ratio_den")
}

/// Default name of a gear axis's `ratio_step` channel.
pub fn default_gear_ratio_step_channel() -> (r: String)
    ensures
        r@ == "ratio_step"@,
{
    String::from_str("ratio_step")
}

/// Default name of a gear axis's `phase` channel.
pub fn default_gear_phase_channel() -> (r: String)
    ensures
        r@ == "phase_ofs"@,
{
    String::from_str("phase_ofs")
}

/// Default name of a gear axis's `master_vel` channel.
pub fn default_gear_master_vel_channel() -> (r: String)
    ensures
        r@ == "master_vel"@,
{
    String::from_str("master_vel")
}

/// Default name of a gear axis's `max_travel` channel.
pub fn default_gear_max_travel_channel() -> (r: String)
    ensures
        r@ == "gear_max_travel"@,
{
    String::from_str("gear_max_travel")
}

/// Default name of a gear axis's `engaged` channel.
pub fn default_gear_engaged_channel() -> (r: String)
    ensures
        r@ == "gear_engaged"@,
{
    String::from_str("gear_engaged")
}

/// Default name of a gear axis's `trip` channel.
pub fn default_gear_trip_channel() -> (r: String)
    ensures
        r@ == "gear_trip"@,
{
    String::from_str("gear_trip")
}

/// One SubDevice expected on the ring.
#[derive(Debug, Clone)]
pub struct EthercatSlave {
    pub index: u16,
    pub name: String,
    pub vendor_id: u32,
    pub product_id: u32,
    pub dc_sync: Option<EthercatDcSync>,
    pub init_sdo: Vec<EthercatSdoInit>,
}

/// One CoE SDO write applied in PRE-OP at connect.
#[derive(Debug, Clone)]
pub struct EthercatSdoInit {
    pub index: u16,
    pub sub_index: u8,
    pub value: i64,
    pub bits: u8,
}

/// One PDO entry an IO mapping can bind.
#[derive(Debug, Clone)]
pub struct EthercatChannel {
    pub name: String,
    pub slave_index: u16,
    pub direction: EthercatPdoDirection,
    pub pdo_index: u16,
    pub sub_index: u8,
    pub bit_length: u8,
    pub data_type: EthercatDataType,
    pub pdi_byte_offset: u16,
    pub pdi_bit_offset: u8,
}

/// PDO direction seen from the MainDevice: TxPDO is read, RxPDO is written.
#[derive(Debug, Clone, Copy, PartialEq, Eq, Structural)]
pub enum EthercatPdoDirection {
    TxPdo,
    RxPdo,
}

#[derive(Debug, Clone, Copy, PartialEq, Eq, Structural)]
pub enum EthercatDataType {
    Bool,
    U8,
    I8,
    U16,
    I16,
    U32,
    I32,
    Real,
}

/// OPC UA client device.
#[derive(Debug, Clone)]
pub struct OpcuaConfig {
    pub endpoint_url: String,
    pub auth: OpcuaAuth,
    pub poll_interval_ms: u32,
    pub channels: Vec<OpcuaChannel>,
}

/// OPC UA poll period used when none is configured.
pub fn default_opcua_poll_ms() -> (r: u32)
    ensures
        r == 500,
{
    500
}

/// OPC UA session authentication.
#[derive(Debug, Clone)]
pub enum OpcuaAuth {
    Anonymous,
    UserPassword { username: String, password: String },
}

impl Default for OpcuaAuth {
    fn default() -> (r: Self)
        ensures
            r is Anonymous,
    {
        OpcuaAuth::Anonymous
    }
}

/// One OPC UA tag.
#[derive(Debug, Clone)]
pub struct OpcuaChannel {
    pub name: String,
    pub node_id: String,
    pub data_type: OpcuaDataType,
    pub access: OpcuaAccess,
    /// IEEE-754 bits of the value written on shutdown or trip; `None` leaves the tag untouched.
    pub failsafe_bits: Option<u64>,
}

#[derive(Debug, Clone, Copy, PartialEq, Eq, Structural)]
pub enum OpcuaAccess {
    Read,
    Write,
}

impl Default for OpcuaAccess {
    fn default() -> (r: Self)
        ensures
            r == OpcuaAccess::Read,
    {
        OpcuaAccess::Read
    }
}

#[derive(Debug, Clone, Copy, PartialEq, Eq, Structural)]
pub enum OpcuaDataType {
    Bool,
    I16,
    U16,
    I32,
    U32,
    F32,
    F64,
}

/// CANopen device (one remote node).
#[derive(Debug, Clone)]
pub struct CanopenConfig {
    pub interface: String,
    pub node_id: u8,
    pub bitrate: Option<u32>,
    pub poll_interval_ms: u32,
    pub heartbeat_timeout_ms: u32,
    pub start_on_connect: bool,
    pub channels: Vec<CanopenChannel>,
}

/// CANopen SDO poll period used when none is configured.
pub fn default_canopen_poll_ms() -> (r: u32)
    ensures
        r == 100,
{
    100
}

/// CANopen heartbeat timeout used when none is configured.
pub fn default_canopen_heartbeat_timeout_ms() -> (r: u32)
    ensures
        r == 3000,
{
    3000
}

/// One object-dictionary entry.
#[derive(Debug, Clone)]
pub struct CanopenChannel {
    pub name: String,
    pub index: u16,
    pub sub_index: u8,
    pub data_type: CanopenDataType,
    pub access: CanopenAccess,
    pub transport: CanopenTransport,
    /// IEEE-754 bits of the failsafe value; `None` leaves the object untouched.
    pub failsafe_bits: Option<u64>,
}

#[derive(Debug, Clone, Copy, PartialEq, Eq, Structural)]
pub enum CanopenAccess {
    Read,
    Write,
}

impl Default for CanopenAccess {
    fn default() -> (r: Self)
        ensures
            r == CanopenAccess::Read,
    {
        CanopenAccess::Read
    }
}

/// How a CANopen channel's value moves on the wire.
#[derive(Debug, Clone, Copy, PartialEq, Eq, Structural)]
pub enum CanopenTransport {
    Sdo,
    Tpdo { slot: u8, byte_offset: u8 },
    Rpdo { slot: u8, byte_offset: u8 },
}

impl Default for CanopenTransport {
    fn default() -> (r: Self)
        ensures
            r == CanopenTransport::Sdo,
    {
        CanopenTransport::Sdo
    }
}

#[derive(Debug, Clone, Copy, PartialEq, Eq, Structural)]
pub enum CanopenDataType {
    Bool,
    I8,
    U8,
    I16,
    U16,
    I32,
    U32,
    F32,
}

/// A configured fieldbus device.
#[derive(Debug, Clone)]
pub struct Device {
    pub name: String,
    pub config: ProtocolConfig,
}

/// Input: bus to variable. Output: variable to bus.
#[derive(Debug, Clone, Copy, PartialEq, Eq, Structural)]
pub enum Direction {
    Input,
    Output,
}

/// One variable bound to one device channel.
#[derive(Debug, Clone)]
pub struct Mapping {
    pub application: String,
    pub variable: String,
    pub direction: Direction,
    pub device: String,
    pub channel: String,
}

/// Contents of `iomap.toml`.
#[derive(Debug, Clone)]
pub struct IoMap {
    pub mappings: Vec<Mapping>,
}

impl Default for IoMap {
    fn default() -> (r: Self)
        ensures
            r.mappings@.len() == 0,
    {
        IoMap { mappings: Vec::new() }
    }
}

/// A Linux box the compiled program is deployed to.
#[derive(Debug, Clone)]
pub struct Edge {
    pub name: String,
    pub host: String,
    pub ssh_port: u16,
    pub ssh_user: String,
    pub install_dir: String,
    pub runtime_port: u16,
    pub notes: String,
}

/// SSH port of an edge when none is configured.
pub fn default_ssh_port() -> (r: u16)
    ensures
        r == 22,
{
    22
}

/// Install directory of an edge when none is configured.
pub fn default_install_dir() -> (r: String)
    ensures
        r@ == "/opt/ia2"@,
{
    String::from_str("/opt/ia2")
}

/// Local monitor port of an edge runtime when none is configured.
pub fn default_runtime_port() -> (r: u16)
    ensures
        r == 13001,
{
    13001
}

/// One periodic scheduling task.
#[derive(Debug, Clone)]
pub struct Task {
    pub name: String,
    /// Period in milliseconds.
    pub interval_ms: u32,
    /// IEC priority; lower runs first.
    pub priority: i32,
}

/// One `PROGRAM <instance> WITH <task> : <program>;` binding.
#[derive(Debug, Clone)]
pub struct ProgramInstance {
    pub instance: String,
    pub program: String,
    pub task: String,
}

/// Contents of `tasks.toml`.
#[derive(Debug, Clone)]
pub struct Tasks {
    pub tasks: Vec<Task>,
    pub programs: Vec<ProgramInstance>,
}

impl Default for Tasks {
    fn default() -> (r: Self)
        ensures
            r.tasks@.len() == 0,
            r.programs@.len() == 0,
    {
        Tasks { tasks: Vec::new(), programs: Vec::new() }
    }
}

/// Contents of `northbound.toml`.
#[derive(Debug, Clone)]
pub struct NorthboundConfig {
    pub mqtt: Option<MqttNorthbound>,
}

/// MQTT publishing of live data to the plant platform.
#[derive(Debug, Clone)]
pub struct MqttNorthbound {
    pub enabled: bool,
    pub broker_host: String,
    pub broker_port: u16,
    pub client_id: String,
    pub username: String,
    pub password: String,
    pub topic_prefix: String,
    pub publish_interval_ms: u32,
    pub qos: u8,
    pub allow_write: bool,
}

/// Default of the boolean settings that are on unless turned off.
pub fn default_true() -> (r: bool)
    ensures
        r == true,
{
    true
}

/// MQTT broker port used when none is configured.
pub fn default_mqtt_port() -> (r: u16)
    ensures
        r == 1883,
{
    1883
}

/// Northbound publish period used when none is configured.
pub fn default_publish_ms() -> (r: u32)
    ensures
        r == 1000,
{
    1000
}

/// Snapshot of the whole project for the IDE tree.
#[derive(Debug, Clone)]
pub struct ProjectTree {
    pub name: String,
    pub path: String,
    pub pous: Vec<PouFile>,
    pub pou_folders: Vec<String>,
    pub devices: Vec<Device>,
    pub device_folders: Vec<String>,
    pub iomap: IoMap,
    pub edges: Vec<Edge>,
    pub edge_folders: Vec<String>,
    pub tasks: Tasks,
}

/// One entry of the project list.
#[derive(Debug, Clone)]
pub struct ProjectListing {
    pub name: String,
    pub path: String,
    pub is_last_opened: bool,
}

impl ProtocolConfig {
    /// The protocol this configuration is for.
    pub fn protocol(&self) -> (p: Protocol)
        ensures
            p == spec_protocol(*self),
    {
        match self {
            ProtocolConfig::Modbus(_) => Protocol::Modbus,
            ProtocolConfig::Ethercat(_) => Protocol::Ethercat,
            ProtocolConfig::Opcua(_) => Protocol::Opcua,
            ProtocolConfig::Canopen(_) => Protocol::Canopen,
        }
    }

    /// The names of the device's channels, in configuration order.
    pub fn channel_names(&self) -> (names: Vec<String>)
        ensures
            names@.map_values(|s: String| s@) == spec_channel_names(*self),
    {
        let mut names: Vec<String> = Vec::new();
        match self {
            ProtocolConfig::Modbus(c) => {
                let mut i: usize = 0;
                while i < c.channels.len()
                    invariant
                        i <= c.channels.len(),
                        names@.len() == i,
                        forall|j: int| 0 <= j < i ==> #[trigger] names@[j]@ == c.channels@[j].name@,
                    decreases c.channels.len() - i,
                {
                    names.push(c.channels[i].name.clone());
                    assert(names@[i as int]@ == c.channels@[i as int].name@);
                    i = i + 1;
                }
                assert(names@.map_values(|s: String| s@) =~= spec_channel_names(*self));
            },
            ProtocolConfig::Ethercat(c) => {
                let mut i: usize = 0;
                while i < c.channels.len()
                    invariant
                        i <= c.channels.len(),
                        names@.len() == i,
                        forall|j: int| 0 <= j < i ==> #[trigger] names@[j]@ == c.channels@[j].name@,
                    decreases c.channels.len() - i,
                {
                    names.push(c.channels[i].name.clone());
                    assert(names@[i as int]@ == c.channels@[i as int].name@);
                    i = i + 1;
                }
                assert(names@.map_values(|s: String| s@) =~= spec_channel_names(*self));
            },
            ProtocolConfig::Opcua(c) => {
                let mut i: usize = 0;
                while i < c.channels.len()
                    invariant
                        i <= c.channels.len(),
                        names@.len() == i,
                        forall|j: int| 0 <= j < i ==> #[trigger] names@[j]@ == c.channels@[j].name@,
                    decreases c.channels.len() - i,
                {
                    names.push(c.channels[i].name.clone());
                    assert(names@[i as int]@ == c.channels@[i as int].name@);
                    i = i + 1;
                }
                assert(names@.map_values(|s: String| s@) =~= spec_channel_names(*self));
            },
            ProtocolConfig::Canopen(c) => {
                let mut i: usize = 0;
                while i < c.channels.len()
                    invariant
                        i <= c.channels.len(),
                        names@.len() == i,
                        forall|j: int| 0 <= j < i ==> #[trigger] names@[j]@ == c.channels@[j].name@,
                    decreases c.channels.len() - i,
                {
                    names.push(c.channels[i].name.clone());
                    assert(names@[i as int]@ == c.channels@[i as int].name@);
                    i = i + 1;
                }
                assert(names@.map_values(|s: String| s@) =~= spec_channel_names(*self));
            },
        }
        names
    }
}

pub open spec fn spec_protocol(c: ProtocolConfig) -> Protocol {
    match c {
        ProtocolConfig::Modbus(_) => Protocol::Modbus,
        ProtocolConfig::Ethercat(_) => Protocol::Ethercat,
        ProtocolConfig::Opcua(_) => Protocol::Opcua,
        ProtocolConfig::Canopen(_) => Protocol::Canopen,
    }
}

pub open spec fn spec_channel_names(c: ProtocolConfig) -> Seq<Seq<char>> {
    match c {
        ProtocolConfig::Modbus(m) => m.channels@.map_values(|ch: ModbusChannel| ch.name@),
        ProtocolConfig::Ethercat(m) => m.channels@.map_values(|ch: EthercatChannel| ch.name@),
        ProtocolConfig::Opcua(m) => m.channels@.map_values(|ch: OpcuaChannel| ch.name@),
        ProtocolConfig::Canopen(m) => m.channels@.map_values(|ch: CanopenChannel| ch.name@),
    }
}

} // verus!
