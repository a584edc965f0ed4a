//! Host-side access to ARM debug hardware.
//!
//! The library drives the ARM Debug Interface of a Cortex-M target through
//! a probe: the debug port and the access ports behind it
//! ([`communication_interface`], [`dp`], [`ap`]), the engine that turns
//! accesses to the memory of the target into transfers to a memory access
//! port ([`memory`]), the control of a core through its debug registers
//! ([`cortex`], [`m4`]), the identification of the chip from its ROM table
//! ([`romtable`]), a programmer for the flash of the nRF51 and nRF52
//! ([`flash_writer`]), and the payloads of the CMSIS-DAP commands for the
//! serial wire output ([`swo`]).
//!
//! Every operation is stated over a ghost history: of the transfers that
//! the probe has made, or of the accesses that were made to the memory of
//! the target. [`target`] holds a model of the target side of a memory
//! access port, and what the engine provably achieves against it.

pub mod ap;
pub mod bits;
pub mod communication_interface;
pub mod cortex;
pub mod dp;
pub mod endian;
pub mod error;
pub mod flash_writer;
pub mod m4;
pub mod memory;
pub mod romtable;
pub mod swo;
pub mod target;
