pub mod text;
pub mod chars;
pub mod errors;
pub mod ld;
pub mod ld_transpile;
pub mod fbd;
pub mod fbd_order;
pub mod fbd_transpile;
pub mod sfc;
pub mod types;
pub mod gear_channels;
pub mod iomap_check;
pub mod store;
pub mod problem_docs;
pub mod bridge;
pub mod runtime;
pub mod retain;
pub mod hmi;
pub mod hmi_ops;
pub mod scan;
pub mod cli;
pub mod northbound;
pub mod host;
pub mod devices;
pub mod logs;
pub mod opcua;
pub mod forces;
pub mod governance;
