//! Enumeration of a host's network hardware ports: parsing of the port
//! registry and of the service order listing, enrichment of each port with
//! its address and link speed, ordering and filtering.

pub mod error;
pub mod port;
pub mod port_list;
pub mod registry;
pub mod service_order;
pub mod text;

pub use error::{decode_output, PortError, MAX_RANK};
pub use port::HardwarePort;
pub use port_list::{sort_by_service_order, HardwarePortList};
pub use registry::{get_hw_ports, PortEntry};
pub use service_order::{get_service_order, ServiceOrder};
