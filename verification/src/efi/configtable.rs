//! Configuration tables: tables that the firmware hands to the loaded
//! program by identifier.

use vstd::prelude::*;
use crate::efi::guid::Guid;

verus! {

/// One configuration table: its identifier and the address where it lies.
#[derive(Clone, Copy, Debug)]
pub struct ConfigurationTable {
    pub vendor_guid: Guid,
    pub vendor_table: usize,
}

} // verus!
