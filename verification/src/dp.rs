//! The registers of the debug port.

use crate::bits::{bit, field, get_bit, get_field, set_bit, set_field, with_bit, with_field};
use crate::communication_interface::Register;
use vstd::prelude::*;

verus! {

/// The architecture version that a debug port reports in DPIDR.
#[derive(Debug, Clone, Copy, PartialEq, Eq, Structural)]
pub enum DebugPortVersion {
    DPv0,
    DPv1,
    DPv2,
    Unsupported(u8),
}

impl DebugPortVersion {
    /// The position of the version in the order of versions: the three known
    /// ones first, then the unknown ones by their number.
    pub open spec fn rank(self) -> int {
        match self {
            DebugPortVersion::DPv0 => 0,
            DebugPortVersion::DPv1 => 1,
            DebugPortVersion::DPv2 => 2,
            DebugPortVersion::Unsupported(n) => 3 + n as int,
        }
    }

    /// The version that the version field of DPIDR stands for.
    pub open spec fn of_field(value: u8) -> DebugPortVersion {
        if value == 0 {
            DebugPortVersion::DPv0
        } else if value == 1 {
            DebugPortVersion::DPv1
        } else if value == 2 {
            DebugPortVersion::DPv2
        } else {
            DebugPortVersion::Unsupported(value)
        }
    }

    /// Whether `self` comes after `other` in the order of versions.
    pub fn is_newer_than(&self, other: &DebugPortVersion) -> (newer: bool)
        ensures
            newer == (self.rank() > other.rank()),
    {
        let mine: u16 = match self {
            DebugPortVersion::DPv0 => 0,
            DebugPortVersion::DPv1 => 1,
            DebugPortVersion::DPv2 => 2,
            DebugPortVersion::Unsupported(n) => 3 + *n as u16,
        };
        let theirs: u16 = match other {
            DebugPortVersion::DPv0 => 0,
            DebugPortVersion::DPv1 => 1,
            DebugPortVersion::DPv2 => 2,
            DebugPortVersion::Unsupported(n) => 3 + *n as u16,
        };
        mine > theirs
    }
}

impl From<u8> for DebugPortVersion {
    fn from(value: u8) -> (version: Self) {
        match value {
            0 => DebugPortVersion::DPv0,
            1 => DebugPortVersion::DPv1,
            2 => DebugPortVersion::DPv2,
            value => DebugPortVersion::Unsupported(value),
        }
    }
}

impl vstd::std_specs::convert::FromSpecImpl<u8> for DebugPortVersion {
    open spec fn obeys_from_spec() -> bool {
        true
    }

    open spec fn from_spec(value: u8) -> Self {
        DebugPortVersion::of_field(value)
    }
}

/// The register bank that a debug port register lives in.
#[derive(Debug, Clone, Copy, PartialEq, Eq, Structural)]
pub enum DPBankSel {
    /// The register is reachable whatever bank is selected.
    DontCare,
    /// The register is reachable only while this bank is selected.
    Bank(u8),
}

/// A register of the debug port.
pub trait DPRegister: Register {
    spec fn spec_min_version() -> DebugPortVersion;

    /// The oldest debug port version that has the register.
    fn min_version() -> (version: DebugPortVersion)
        ensures
            version == Self::spec_min_version(),
    ;

    spec fn spec_dp_bank() -> DPBankSel;

    /// The bank that must be selected to reach the register.
    fn dp_bank() -> (bank: DPBankSel)
        ensures
            bank == Self::spec_dp_bank(),
    ;
}

/// ABORT: written to clear the sticky error flags.
#[derive(Debug, Clone, Copy, PartialEq, Eq, Structural)]
pub struct Abort(pub u32);

impl Abort {
    pub fn set_orunerrclr(&mut self, on: bool)
        ensures
            final(self).0 == with_bit(old(self).0, 4, on),
    {
        self.0 = set_bit(self.0, 4, on);
    }

    pub fn set_wderrclr(&mut self, on: bool)
        ensures
            final(self).0 == with_bit(old(self).0, 3, on),
    {
        self.0 = set_bit(self.0, 3, on);
    }

    pub fn set_stkerrclr(&mut self, on: bool)
        ensures
            final(self).0 == with_bit(old(self).0, 2, on),
    {
        self.0 = set_bit(self.0, 2, on);
    }

    pub fn set_stkcmpclr(&mut self, on: bool)
        ensures
            final(self).0 == with_bit(old(self).0, 1, on),
    {
        self.0 = set_bit(self.0, 1, on);
    }

    pub fn set_dapabort(&mut self, on: bool)
        ensures
            final(self).0 == with_bit(old(self).0, 0, on),
    {
        self.0 = set_bit(self.0, 0, on);
    }

    /// The value that clears all four sticky flags.
    pub open spec fn clear_all() -> u32 {
        with_bit(with_bit(with_bit(with_bit(0, 4, true), 3, true), 2, true), 1, true)
    }

    /// The register that clears all four sticky flags.
    pub fn clearing_all() -> (abort: Abort)
        ensures
            abort.0 == Self::clear_all(),
    {
        let mut abort = Abort(0);
        abort.set_orunerrclr(true);
        abort.set_wderrclr(true);
        abort.set_stkerrclr(true);
        abort.set_stkcmpclr(true);
        abort
    }

    /// The value that clears exactly the sticky flags that `ctrl` shows:
    /// overrun, write data error, sticky error and sticky compare.
    pub open spec fn clear_flags_of(ctrl: Ctrl) -> u32 {
        with_bit(
            with_bit(
                with_bit(with_bit(0, 4, ctrl.spec_sticky_orun()), 3, ctrl.spec_w_data_err()),
                2,
                ctrl.spec_sticky_err(),
            ),
            1,
            ctrl.spec_sticky_cmp(),
        )
    }

    /// The register that clears exactly the sticky flags that `ctrl` shows.
    pub fn clearing(ctrl: Ctrl) -> (abort: Abort)
        ensures
            abort.0 == Self::clear_flags_of(ctrl),
    {
        let mut abort = Abort(0);
        abort.set_orunerrclr(ctrl.sticky_orun());
        abort.set_wderrclr(ctrl.w_data_err());
        abort.set_stkerrclr(ctrl.sticky_err());
        abort.set_stkcmpclr(ctrl.sticky_cmp());
        abort
    }
}

impl Register for Abort {
    open spec fn spec_address() -> u8 {
        0x0
    }

    fn address() -> (address: u8) {
        0x0
    }

    open spec fn spec_name() -> &'static str {
        "ABORT"
    }

    fn name() -> (name: &'static str) {
        "ABORT"
    }

    open spec fn spec_bits(self) -> u32 {
        self.0
    }

    open spec fn spec_from_bits(value: u32) -> Self {
        Abort(value)
    }

    fn bits(&self) -> (value: u32) {
        self.0
    }

    fn from_bits(value: u32) -> (register: Self) {
        Abort(value)
    }
}

impl DPRegister for Abort {
    open spec fn spec_min_version() -> DebugPortVersion {
        DebugPortVersion::DPv1
    }

    fn min_version() -> (version: DebugPortVersion) {
        DebugPortVersion::DPv1
    }

    open spec fn spec_dp_bank() -> DPBankSel {
        DPBankSel::DontCare
    }

    fn dp_bank() -> (bank: DPBankSel) {
        DPBankSel::DontCare
    }
}

/// CTRL/STAT: power-up requests and acknowledgements, and the sticky flags.
#[derive(Debug, Clone, Copy, PartialEq, Eq, Structural)]
pub struct Ctrl(pub u32);

impl Ctrl {
    pub open spec fn spec_csyspwrupack(&self) -> bool {
        bit(self.0, 31)
    }

    #[verifier::when_used_as_spec(spec_csyspwrupack)]
    pub fn csyspwrupack(&self) -> (on: bool)
        ensures
            on == self.spec_csyspwrupack(),
    {
        get_bit(self.0, 31)
    }

    pub open spec fn spec_cdbgpwrupack(&self) -> bool {
        bit(self.0, 29)
    }

    #[verifier::when_used_as_spec(spec_cdbgpwrupack)]
    pub fn cdbgpwrupack(&self) -> (on: bool)
        ensures
            on == self.spec_cdbgpwrupack(),
    {
        get_bit(self.0, 29)
    }

    pub fn set_csyspwrupreq(&mut self, on: bool)
        ensures
            final(self).0 == with_bit(old(self).0, 30, on),
    {
        self.0 = set_bit(self.0, 30, on);
    }

    pub fn set_cdbgpwrupreq(&mut self, on: bool)
        ensures
            final(self).0 == with_bit(old(self).0, 28, on),
    {
        self.0 = set_bit(self.0, 28, on);
    }

    pub open spec fn spec_w_data_err(&self) -> bool {
        bit(self.0, 7)
    }

    #[verifier::when_used_as_spec(spec_w_data_err)]
    pub fn w_data_err(&self) -> (on: bool)
        ensures
            on == self.spec_w_data_err(),
    {
        get_bit(self.0, 7)
    }

    pub open spec fn spec_sticky_err(&self) -> bool {
        bit(self.0, 5)
    }

    #[verifier::when_used_as_spec(spec_sticky_err)]
    pub fn sticky_err(&self) -> (on: bool)
        ensures
            on == self.spec_sticky_err(),
    {
        get_bit(self.0, 5)
    }

    pub open spec fn spec_sticky_cmp(&self) -> bool {
        bit(self.0, 4)
    }

    #[verifier::when_used_as_spec(spec_sticky_cmp)]
    pub fn sticky_cmp(&self) -> (on: bool)
        ensures
            on == self.spec_sticky_cmp(),
    {
        get_bit(self.0, 4)
    }

    pub open spec fn spec_sticky_orun(&self) -> bool {
        bit(self.0, 1)
    }

    #[verifier::when_used_as_spec(spec_sticky_orun)]
    pub fn sticky_orun(&self) -> (on: bool)
        ensures
            on == self.spec_sticky_orun(),
    {
        get_bit(self.0, 1)
    }

    /// The value that requests system and debug power.
    pub open spec fn power_up_request() -> u32 {
        with_bit(with_bit(0, 30, true), 28, true)
    }

    /// Whether both power-up requests are acknowledged.
    pub open spec fn powered_up(self) -> bool {
        self.spec_csyspwrupack() && self.spec_cdbgpwrupack()
    }
}

impl Register for Ctrl {
    open spec fn spec_address() -> u8 {
        0x4
    }

    fn address() -> (address: u8) {
        0x4
    }

    open spec fn spec_name() -> &'static str {
        "CTRL/STAT"
    }

    fn name() -> (name: &'static str) {
        "CTRL/STAT"
    }

    open spec fn spec_bits(self) -> u32 {
        self.0
    }

    open spec fn spec_from_bits(value: u32) -> Self {
        Ctrl(value)
    }

    fn bits(&self) -> (value: u32) {
        self.0
    }

    fn from_bits(value: u32) -> (register: Self) {
        Ctrl(value)
    }
}

impl DPRegister for Ctrl {
    open spec fn spec_min_version() -> DebugPortVersion {
        DebugPortVersion::DPv1
    }

    fn min_version() -> (version: DebugPortVersion) {
        DebugPortVersion::DPv1
    }

    open spec fn spec_dp_bank() -> DPBankSel {
        DPBankSel::Bank(0)
    }

    fn dp_bank() -> (bank: DPBankSel) {
        DPBankSel::Bank(0)
    }
}

/// SELECT: chooses the access port, its register bank, and the bank of the
/// debug port itself.
#[derive(Debug, Clone, Copy, PartialEq, Eq, Structural)]
pub struct Select(pub u32);

impl Select {
    pub open spec fn spec_ap_sel(&self) -> u8 {
        field(self.0, 24, 8) as u8
    }

    #[verifier::when_used_as_spec(spec_ap_sel)]
    pub fn ap_sel(&self) -> (value: u8)
        ensures
            value == self.spec_ap_sel(),
    {
        #[verifier::truncate]
        (get_field(self.0, 24, 8) as u8)
    }

    pub open spec fn spec_ap_bank_sel(&self) -> u8 {
        field(self.0, 4, 4) as u8
    }

    #[verifier::when_used_as_spec(spec_ap_bank_sel)]
    pub fn ap_bank_sel(&self) -> (value: u8)
        ensures
            value == self.spec_ap_bank_sel(),
    {
        #[verifier::truncate]
        (get_field(self.0, 4, 4) as u8)
    }

    pub open spec fn spec_dp_bank_sel(&self) -> u8 {
        field(self.0, 0, 4) as u8
    }

    #[verifier::when_used_as_spec(spec_dp_bank_sel)]
    pub fn dp_bank_sel(&self) -> (value: u8)
        ensures
            value == self.spec_dp_bank_sel(),
    {
        #[verifier::truncate]
        (get_field(self.0, 0, 4) as u8)
    }

    pub fn set_ap_sel(&mut self, value: u8)
        ensures
            final(self).0 == with_field(old(self).0, 24, 8, value as u32),
    {
        self.0 = set_field(self.0, 24, 8, value as u32);
    }

    pub fn set_ap_bank_sel(&mut self, value: u8)
        ensures
            final(self).0 == with_field(old(self).0, 4, 4, value as u32),
    {
        self.0 = set_field(self.0, 4, 4, value as u32);
    }

    pub fn set_dp_bank_sel(&mut self, value: u8)
        ensures
            final(self).0 == with_field(old(self).0, 0, 4, value as u32),
    {
        self.0 = set_field(self.0, 0, 4, value as u32);
    }

    /// The register value that selects the given access port and banks.
    pub open spec fn selecting(ap_sel: u8, ap_bank_sel: u8, dp_bank_sel: u8) -> u32 {
        with_field(
            with_field(with_field(0, 24, 8, ap_sel as u32), 4, 4, ap_bank_sel as u32),
            0,
            4,
            dp_bank_sel as u32,
        )
    }
}

impl Register for Select {
    open spec fn spec_address() -> u8 {
        0x8
    }

    fn address() -> (address: u8) {
        0x8
    }

    open spec fn spec_name() -> &'static str {
        "SELECT"
    }

    fn name() -> (name: &'static str) {
        "SELECT"
    }

    open spec fn spec_bits(self) -> u32 {
        self.0
    }

    open spec fn spec_from_bits(value: u32) -> Self {
        Select(value)
    }

    fn bits(&self) -> (value: u32) {
        self.0
    }

    fn from_bits(value: u32) -> (register: Self) {
        Select(value)
    }
}

impl DPRegister for Select {
    open spec fn spec_min_version() -> DebugPortVersion {
        DebugPortVersion::DPv1
    }

    fn min_version() -> (version: DebugPortVersion) {
        DebugPortVersion::DPv1
    }

    open spec fn spec_dp_bank() -> DPBankSel {
        DPBankSel::DontCare
    }

    fn dp_bank() -> (bank: DPBankSel) {
        DPBankSel::DontCare
    }
}

/// DPIDR: identifies the debug port.
#[derive(Debug, Clone, Copy, PartialEq, Eq, Structural)]
pub struct DPIDR(pub u32);

impl DPIDR {
    pub open spec fn spec_version(&self) -> u8 {
        field(self.0, 12, 4) as u8
    }

    #[verifier::when_used_as_spec(spec_version)]
    pub fn version(&self) -> (value: u8)
        ensures
            value == self.spec_version(),
    {
        #[verifier::truncate]
        (get_field(self.0, 12, 4) as u8)
    }
}

impl Register for DPIDR {
    open spec fn spec_address() -> u8 {
        0x0
    }

    fn address() -> (address: u8) {
        0x0
    }

    open spec fn spec_name() -> &'static str {
        "DPIDR"
    }

    fn name() -> (name: &'static str) {
        "DPIDR"
    }

    open spec fn spec_bits(self) -> u32 {
        self.0
    }

    open spec fn spec_from_bits(value: u32) -> Self {
        DPIDR(value)
    }

    fn bits(&self) -> (value: u32) {
        self.0
    }

    fn from_bits(value: u32) -> (register: Self) {
        DPIDR(value)
    }
}

impl DPRegister for DPIDR {
    open spec fn spec_min_version() -> DebugPortVersion {
        DebugPortVersion::DPv1
    }

    fn min_version() -> (version: DebugPortVersion) {
        DebugPortVersion::DPv1
    }

    open spec fn spec_dp_bank() -> DPBankSel {
        DPBankSel::DontCare
    }

    fn dp_bank() -> (bank: DPBankSel) {
        DPBankSel::DontCare
    }
}

} // verus!
