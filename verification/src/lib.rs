//! Boot-time memory management for a small ARM64 firmware: the map of
//! physical memory that the firmware hands to the loaded program, and the
//! identity-mapped translation tables it runs under.

pub mod align;
pub mod bytes;
pub mod cmo;
pub mod console;
pub mod cstring;
pub mod efi;
pub mod fwcfg;
pub mod idmap;
pub mod initrd;
pub mod latch;
pub mod mapper;
pub mod paging;
pub mod pecoff;
pub mod pl031;
pub mod psci;
pub mod rng;
