//! Builds the flattened device tree blob that describes an aarch64 guest to its kernel.
pub mod bytes;
pub mod writer;
pub mod fdt;
pub mod laws;

pub use fdt::{
    create_clock_node, create_cpu_nodes, create_devices_node, create_fdt, create_gic_node,
    create_memory_node, create_psci_node, create_rtc_node, create_serial_node, create_timer_node,
    create_virtio_node, create_chosen_node, check_fdt_write, DeviceInfoForFDT, DeviceType, GicDevice, MmioDeviceInfo,
    FDT_MAX_SIZE, DRAM_MEM_START,
};
pub use bytes::{generate_prop32, generate_prop64, to_be32, to_be64};
pub use writer::{
    allocate_fdt, append_begin_node, append_end_node, append_property, append_property_cstring,
    append_property_null, append_property_string, append_property_u32, append_property_u64,
    finish_fdt, Error, FdtWriter,
};
