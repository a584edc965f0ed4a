//! Control of a Cortex-M core through its debug registers: halting,
//! running, stepping and resetting it, moving its registers, and setting
//! hardware breakpoints.

use crate::bits::{
    bit, field, get_bit, get_field, set_bit, set_field, with_bit, with_field,
};
use crate::cortex::{
    all_succeeded, failed_polls, gave_up, idle_polls, lemma_all_succeeded_add, lemma_chain,
    lemma_chain_gave_up, lemma_gave_up_later, lemma_one_succeeded, lemma_since_add, lemma_stretch,
    since, stopped_at, stretch, waited, Architecture, CoreInformation, CoreRegister,
    CoreRegisterAddress, CoreStatus, CortexState, Dfsr, HaltReason, RegisterFile, PC, XPSR,
};
use crate::error::{Error, Operation};
use crate::memory::{MemoryAccess, MemoryInterface};
use vstd::prelude::*;

verus! {

/// Debug Halting Control and Status Register: halts, steps and releases the
/// core, and shows what state it is in.
#[derive(Debug, Clone, Copy, PartialEq, Eq, Structural)]
pub struct Dhcsr(pub u32);

impl Dhcsr {
    pub open spec fn spec_s_reset_st(&self) -> bool {
        bit(self.0, 25)
    }

    #[verifier::when_used_as_spec(spec_s_reset_st)]
    pub fn s_reset_st(&self) -> (on: bool)
        ensures
            on == self.spec_s_reset_st(),
    {
        get_bit(self.0, 25)
    }

    pub open spec fn spec_s_retire_st(&self) -> bool {
        bit(self.0, 24)
    }

    #[verifier::when_used_as_spec(spec_s_retire_st)]
    pub fn s_retire_st(&self) -> (on: bool)
        ensures
            on == self.spec_s_retire_st(),
    {
        get_bit(self.0, 24)
    }

    pub open spec fn spec_s_lockup(&self) -> bool {
        bit(self.0, 19)
    }

    #[verifier::when_used_as_spec(spec_s_lockup)]
    pub fn s_lockup(&self) -> (on: bool)
        ensures
            on == self.spec_s_lockup(),
    {
        get_bit(self.0, 19)
    }

    pub open spec fn spec_s_sleep(&self) -> bool {
        bit(self.0, 18)
    }

    #[verifier::when_used_as_spec(spec_s_sleep)]
    pub fn s_sleep(&self) -> (on: bool)
        ensures
            on == self.spec_s_sleep(),
    {
        get_bit(self.0, 18)
    }

    pub open spec fn spec_s_halt(&self) -> bool {
        bit(self.0, 17)
    }

    #[verifier::when_used_as_spec(spec_s_halt)]
    pub fn s_halt(&self) -> (on: bool)
        ensures
            on == self.spec_s_halt(),
    {
        get_bit(self.0, 17)
    }

    pub open spec fn spec_s_regrdy(&self) -> bool {
        bit(self.0, 16)
    }

    #[verifier::when_used_as_spec(spec_s_regrdy)]
    pub fn s_regrdy(&self) -> (on: bool)
        ensures
            on == self.spec_s_regrdy(),
    {
        get_bit(self.0, 16)
    }

    pub open spec fn spec_c_snapstall(&self) -> bool {
        bit(self.0, 5)
    }

    #[verifier::when_used_as_spec(spec_c_snapstall)]
    pub fn c_snapstall(&self) -> (on: bool)
        ensures
            on == self.spec_c_snapstall(),
    {
        get_bit(self.0, 5)
    }

    pub fn set_c_snapstall(&mut self, on: bool)
        ensures
            final(self).0 == with_bit(old(self).0, 5, on),
    {
        self.0 = set_bit(self.0, 5, on);
    }

    pub open spec fn spec_c_maskints(&self) -> bool {
        bit(self.0, 3)
    }

    #[verifier::when_used_as_spec(spec_c_maskints)]
    pub fn c_maskints(&self) -> (on: bool)
        ensures
            on == self.spec_c_maskints(),
    {
        get_bit(self.0, 3)
    }

    pub fn set_c_maskints(&mut self, on: bool)
        ensures
            final(self).0 == with_bit(old(self).0, 3, on),
    {
        self.0 = set_bit(self.0, 3, on);
    }

    pub open spec fn spec_c_step(&self) -> bool {
        bit(self.0, 2)
    }

    #[verifier::when_used_as_spec(spec_c_step)]
    pub fn c_step(&self) -> (on: bool)
        ensures
            on == self.spec_c_step(),
    {
        get_bit(self.0, 2)
    }

    pub fn set_c_step(&mut self, on: bool)
        ensures
            final(self).0 == with_bit(old(self).0, 2, on),
    {
        self.0 = set_bit(self.0, 2, on);
    }

    pub open spec fn spec_c_halt(&self) -> bool {
        bit(self.0, 1)
    }

    #[verifier::when_used_as_spec(spec_c_halt)]
    pub fn c_halt(&self) -> (on: bool)
        ensures
            on == self.spec_c_halt(),
    {
        get_bit(self.0, 1)
    }

    pub fn set_c_halt(&mut self, on: bool)
        ensures
            final(self).0 == with_bit(old(self).0, 1, on),
    {
        self.0 = set_bit(self.0, 1, on);
    }

    pub open spec fn spec_c_debugen(&self) -> bool {
        bit(self.0, 0)
    }

    #[verifier::when_used_as_spec(spec_c_debugen)]
    pub fn c_debugen(&self) -> (on: bool)
        ensures
            on == self.spec_c_debugen(),
    {
        get_bit(self.0, 0)
    }

    pub fn set_c_debugen(&mut self, on: bool)
        ensures
            final(self).0 == with_bit(old(self).0, 0, on),
    {
        self.0 = set_bit(self.0, 0, on);
    }

}

impl CoreRegister for Dhcsr {
    open spec fn spec_address() -> u32 {
        0xE000_EDF0
    }

    fn address() -> (address: u32) {
        0xE000_EDF0
    }

    open spec fn spec_name() -> &'static str {
        "DHCSR"
    }

    fn name() -> (name: &'static str) {
        "DHCSR"
    }
}

impl From<u32> for Dhcsr {
    fn from(value: u32) -> (register: Self) {
        Dhcsr(value)
    }
}

impl vstd::std_specs::convert::FromSpecImpl<u32> for Dhcsr {
    open spec fn obeys_from_spec() -> bool {
        true
    }

    open spec fn from_spec(value: u32) -> Self {
        Dhcsr(value)
    }
}

impl From<Dhcsr> for u32 {
    fn from(value: Dhcsr) -> (bits: u32) {
        value.0
    }
}

impl vstd::std_specs::convert::FromSpecImpl<Dhcsr> for u32 {
    open spec fn obeys_from_spec() -> bool {
        true
    }

    open spec fn from_spec(value: Dhcsr) -> Self {
        value.0
    }
}

/// Debug Core Register Selector Register: starts the transfer of one core
/// register to or from DCRDR.
#[derive(Debug, Clone, Copy, PartialEq, Eq, Structural)]
pub struct Dcrsr(pub u32);

impl Dcrsr {
    pub fn set_regwnr(&mut self, on: bool)
        ensures
            final(self).0 == with_bit(old(self).0, 16, on),
    {
        self.0 = set_bit(self.0, 16, on);
    }

    pub fn set_regsel(&mut self, value: u32)
        ensures
            final(self).0 == with_field(old(self).0, 0, 7, value),
    {
        self.0 = set_field(self.0, 0, 7, value);
    }

}

impl CoreRegister for Dcrsr {
    open spec fn spec_address() -> u32 {
        0xE000_EDF4
    }

    fn address() -> (address: u32) {
        0xE000_EDF4
    }

    open spec fn spec_name() -> &'static str {
        "DCRSR"
    }

    fn name() -> (name: &'static str) {
        "DCRSR"
    }
}

impl From<u32> for Dcrsr {
    fn from(value: u32) -> (register: Self) {
        Dcrsr(value)
    }
}

impl vstd::std_specs::convert::FromSpecImpl<u32> for Dcrsr {
    open spec fn obeys_from_spec() -> bool {
        true
    }

    open spec fn from_spec(value: u32) -> Self {
        Dcrsr(value)
    }
}

impl From<Dcrsr> for u32 {
    fn from(value: Dcrsr) -> (bits: u32) {
        value.0
    }
}

impl vstd::std_specs::convert::FromSpecImpl<Dcrsr> for u32 {
    open spec fn obeys_from_spec() -> bool {
        true
    }

    open spec fn from_spec(value: Dcrsr) -> Self {
        value.0
    }
}

/// Debug Core Register Data Register: the value of the core register in
/// transfer.
#[derive(Debug, Clone, Copy, PartialEq, Eq, Structural)]
pub struct Dcrdr(pub u32);

impl CoreRegister for Dcrdr {
    open spec fn spec_address() -> u32 {
        0xE000_EDF8
    }

    fn address() -> (address: u32) {
        0xE000_EDF8
    }

    open spec fn spec_name() -> &'static str {
        "DCRDR"
    }

    fn name() -> (name: &'static str) {
        "DCRDR"
    }
}

impl From<u32> for Dcrdr {
    fn from(value: u32) -> (register: Self) {
        Dcrdr(value)
    }
}

impl vstd::std_specs::convert::FromSpecImpl<u32> for Dcrdr {
    open spec fn obeys_from_spec() -> bool {
        true
    }

    open spec fn from_spec(value: u32) -> Self {
        Dcrdr(value)
    }
}

impl From<Dcrdr> for u32 {
    fn from(value: Dcrdr) -> (bits: u32) {
        value.0
    }
}

impl vstd::std_specs::convert::FromSpecImpl<Dcrdr> for u32 {
    open spec fn obeys_from_spec() -> bool {
        true
    }

    open spec fn from_spec(value: Dcrdr) -> Self {
        value.0
    }
}

/// Application Interrupt and Reset Control Register: requests a reset.
#[derive(Debug, Clone, Copy, PartialEq, Eq, Structural)]
pub struct Aircr(pub u32);

impl Aircr {
    pub open spec fn spec_endianness(&self) -> bool {
        bit(self.0, 15)
    }

    #[verifier::when_used_as_spec(spec_endianness)]
    pub fn endianness(&self) -> (on: bool)
        ensures
            on == self.spec_endianness(),
    {
        get_bit(self.0, 15)
    }

    pub fn set_endianness(&mut self, on: bool)
        ensures
            final(self).0 == with_bit(old(self).0, 15, on),
    {
        self.0 = set_bit(self.0, 15, on);
    }

    pub open spec fn spec_prigroup(&self) -> u32 {
        field(self.0, 8, 3)
    }

    #[verifier::when_used_as_spec(spec_prigroup)]
    pub fn prigroup(&self) -> (value: u32)
        ensures
            value == self.spec_prigroup(),
    {
        get_field(self.0, 8, 3)
    }

    pub fn set_prigroup(&mut self, value: u32)
        ensures
            final(self).0 == with_field(old(self).0, 8, 3, value),
    {
        self.0 = set_field(self.0, 8, 3, value);
    }

    pub open spec fn spec_sysresetreq(&self) -> bool {
        bit(self.0, 2)
    }

    #[verifier::when_used_as_spec(spec_sysresetreq)]
    pub fn sysresetreq(&self) -> (on: bool)
        ensures
            on == self.spec_sysresetreq(),
    {
        get_bit(self.0, 2)
    }

    pub fn set_sysresetreq(&mut self, on: bool)
        ensures
            final(self).0 == with_bit(old(self).0, 2, on),
    {
        self.0 = set_bit(self.0, 2, on);
    }

    pub open spec fn spec_vectclractive(&self) -> bool {
        bit(self.0, 1)
    }

    #[verifier::when_used_as_spec(spec_vectclractive)]
    pub fn vectclractive(&self) -> (on: bool)
        ensures
            on == self.spec_vectclractive(),
    {
        get_bit(self.0, 1)
    }

    pub fn set_vectclractive(&mut self, on: bool)
        ensures
            final(self).0 == with_bit(old(self).0, 1, on),
    {
        self.0 = set_bit(self.0, 1, on);
    }

    pub open spec fn spec_vectreset(&self) -> bool {
        bit(self.0, 0)
    }

    #[verifier::when_used_as_spec(spec_vectreset)]
    pub fn vectreset(&self) -> (on: bool)
        ensures
            on == self.spec_vectreset(),
    {
        get_bit(self.0, 0)
    }

    pub fn set_vectreset(&mut self, on: bool)
        ensures
            final(self).0 == with_bit(old(self).0, 0, on),
    {
        self.0 = set_bit(self.0, 0, on);
    }

}

impl CoreRegister for Aircr {
    open spec fn spec_address() -> u32 {
        0xE000_ED0C
    }

    fn address() -> (address: u32) {
        0xE000_ED0C
    }

    open spec fn spec_name() -> &'static str {
        "AIRCR"
    }

    fn name() -> (name: &'static str) {
        "AIRCR"
    }
}

impl From<u32> for Aircr {
    fn from(value: u32) -> (register: Self) {
        Aircr(value)
    }
}

impl vstd::std_specs::convert::FromSpecImpl<u32> for Aircr {
    open spec fn obeys_from_spec() -> bool {
        true
    }

    open spec fn from_spec(value: u32) -> Self {
        Aircr(value)
    }
}

impl From<Aircr> for u32 {
    fn from(value: Aircr) -> (bits: u32) {
        value.0
    }
}

impl vstd::std_specs::convert::FromSpecImpl<Aircr> for u32 {
    open spec fn obeys_from_spec() -> bool {
        true
    }

    open spec fn from_spec(value: Aircr) -> Self {
        value.0
    }
}

/// Debug Exception and Monitor Control Register: the vector catch bits.
#[derive(Debug, Clone, Copy, PartialEq, Eq, Structural)]
pub struct Demcr(pub u32);

impl Demcr {
    pub open spec fn spec_trcena(&self) -> bool {
        bit(self.0, 24)
    }

    #[verifier::when_used_as_spec(spec_trcena)]
    pub fn trcena(&self) -> (on: bool)
        ensures
            on == self.spec_trcena(),
    {
        get_bit(self.0, 24)
    }

    pub fn set_trcena(&mut self, on: bool)
        ensures
            final(self).0 == with_bit(old(self).0, 24, on),
    {
        self.0 = set_bit(self.0, 24, on);
    }

    pub open spec fn spec_mon_req(&self) -> bool {
        bit(self.0, 19)
    }

    #[verifier::when_used_as_spec(spec_mon_req)]
    pub fn mon_req(&self) -> (on: bool)
        ensures
            on == self.spec_mon_req(),
    {
        get_bit(self.0, 19)
    }

    pub fn set_mon_req(&mut self, on: bool)
        ensures
            final(self).0 == with_bit(old(self).0, 19, on),
    {
        self.0 = set_bit(self.0, 19, on);
    }

    pub open spec fn spec_mon_step(&self) -> bool {
        bit(self.0, 18)
    }

    #[verifier::when_used_as_spec(spec_mon_step)]
    pub fn mon_step(&self) -> (on: bool)
        ensures
            on == self.spec_mon_step(),
    {
        get_bit(self.0, 18)
    }

    pub fn set_mon_step(&mut self, on: bool)
        ensures
            final(self).0 == with_bit(old(self).0, 18, on),
    {
        self.0 = set_bit(self.0, 18, on);
    }

    pub open spec fn spec_mon_pend(&self) -> bool {
        bit(self.0, 17)
    }

    #[verifier::when_used_as_spec(spec_mon_pend)]
    pub fn mon_pend(&self) -> (on: bool)
        ensures
            on == self.spec_mon_pend(),
    {
        get_bit(self.0, 17)
    }

    pub fn set_mon_pend(&mut self, on: bool)
        ensures
            final(self).0 == with_bit(old(self).0, 17, on),
    {
        self.0 = set_bit(self.0, 17, on);
    }

    pub open spec fn spec_mon_en(&self) -> bool {
        bit(self.0, 16)
    }

    #[verifier::when_used_as_spec(spec_mon_en)]
    pub fn mon_en(&self) -> (on: bool)
        ensures
            on == self.spec_mon_en(),
    {
        get_bit(self.0, 16)
    }

    pub fn set_mon_en(&mut self, on: bool)
        ensures
            final(self).0 == with_bit(old(self).0, 16, on),
    {
        self.0 = set_bit(self.0, 16, on);
    }

    pub open spec fn spec_vc_harderr(&self) -> bool {
        bit(self.0, 10)
    }

    #[verifier::when_used_as_spec(spec_vc_harderr)]
    pub fn vc_harderr(&self) -> (on: bool)
        ensures
            on == self.spec_vc_harderr(),
    {
        get_bit(self.0, 10)
    }

    pub fn set_vc_harderr(&mut self, on: bool)
        ensures
            final(self).0 == with_bit(old(self).0, 10, on),
    {
        self.0 = set_bit(self.0, 10, on);
    }

    pub open spec fn spec_vc_interr(&self) -> bool {
        bit(self.0, 9)
    }

    #[verifier::when_used_as_spec(spec_vc_interr)]
    pub fn vc_interr(&self) -> (on: bool)
        ensures
            on == self.spec_vc_interr(),
    {
        get_bit(self.0, 9)
    }

    pub fn set_vc_interr(&mut self, on: bool)
        ensures
            final(self).0 == with_bit(old(self).0, 9, on),
    {
        self.0 = set_bit(self.0, 9, on);
    }

    pub open spec fn spec_vc_buserr(&self) -> bool {
        bit(self.0, 8)
    }

    #[verifier::when_used_as_spec(spec_vc_buserr)]
    pub fn vc_buserr(&self) -> (on: bool)
        ensures
            on == self.spec_vc_buserr(),
    {
        get_bit(self.0, 8)
    }

    pub fn set_vc_buserr(&mut self, on: bool)
        ensures
            final(self).0 == with_bit(old(self).0, 8, on),
    {
        self.0 = set_bit(self.0, 8, on);
    }

    pub open spec fn spec_vc_staterr(&self) -> bool {
        bit(self.0, 7)
    }

    #[verifier::when_used_as_spec(spec_vc_staterr)]
    pub fn vc_staterr(&self) -> (on: bool)
        ensures
            on == self.spec_vc_staterr(),
    {
        get_bit(self.0, 7)
    }

    pub fn set_vc_staterr(&mut self, on: bool)
        ensures
            final(self).0 == with_bit(old(self).0, 7, on),
    {
        self.0 = set_bit(self.0, 7, on);
    }

    pub open spec fn spec_vc_chkerr(&self) -> bool {
        bit(self.0, 6)
    }

    #[verifier::when_used_as_spec(spec_vc_chkerr)]
    pub fn vc_chkerr(&self) -> (on: bool)
        ensures
            on == self.spec_vc_chkerr(),
    {
        get_bit(self.0, 6)
    }

    pub fn set_vc_chkerr(&mut self, on: bool)
        ensures
            final(self).0 == with_bit(old(self).0, 6, on),
    {
        self.0 = set_bit(self.0, 6, on);
    }

    pub open spec fn spec_vc_nocperr(&self) -> bool {
        bit(self.0, 5)
    }

    #[verifier::when_used_as_spec(spec_vc_nocperr)]
    pub fn vc_nocperr(&self) -> (on: bool)
        ensures
            on == self.spec_vc_nocperr(),
    {
        get_bit(self.0, 5)
    }

    pub fn set_vc_nocperr(&mut self, on: bool)
        ensures
            final(self).0 == with_bit(old(self).0, 5, on),
    {
        self.0 = set_bit(self.0, 5, on);
    }

    pub open spec fn spec_vc_mmerr(&self) -> bool {
        bit(self.0, 4)
    }

    #[verifier::when_used_as_spec(spec_vc_mmerr)]
    pub fn vc_mmerr(&self) -> (on: bool)
        ensures
            on == self.spec_vc_mmerr(),
    {
        get_bit(self.0, 4)
    }

    pub fn set_vc_mmerr(&mut self, on: bool)
        ensures
            final(self).0 == with_bit(old(self).0, 4, on),
    {
        self.0 = set_bit(self.0, 4, on);
    }

    pub open spec fn spec_vc_corereset(&self) -> bool {
        bit(self.0, 0)
    }

    #[verifier::when_used_as_spec(spec_vc_corereset)]
    pub fn vc_corereset(&self) -> (on: bool)
        ensures
            on == self.spec_vc_corereset(),
    {
        get_bit(self.0, 0)
    }

    pub fn set_vc_corereset(&mut self, on: bool)
        ensures
            final(self).0 == with_bit(old(self).0, 0, on),
    {
        self.0 = set_bit(self.0, 0, on);
    }

}

impl CoreRegister for Demcr {
    open spec fn spec_address() -> u32 {
        0xE000_EDFC
    }

    fn address() -> (address: u32) {
        0xE000_EDFC
    }

    open spec fn spec_name() -> &'static str {
        "DEMCR"
    }

    fn name() -> (name: &'static str) {
        "DEMCR"
    }
}

impl From<u32> for Demcr {
    fn from(value: u32) -> (register: Self) {
        Demcr(value)
    }
}

impl vstd::std_specs::convert::FromSpecImpl<u32> for Demcr {
    open spec fn obeys_from_spec() -> bool {
        true
    }

    open spec fn from_spec(value: u32) -> Self {
        Demcr(value)
    }
}

impl From<Demcr> for u32 {
    fn from(value: Demcr) -> (bits: u32) {
        value.0
    }
}

impl vstd::std_specs::convert::FromSpecImpl<Demcr> for u32 {
    open spec fn obeys_from_spec() -> bool {
        true
    }

    open spec fn from_spec(value: Demcr) -> Self {
        value.0
    }
}

/// FP_CTRL: describes and enables the flash patch and breakpoint unit.
#[derive(Debug, Clone, Copy, PartialEq, Eq, Structural)]
pub struct FpCtrl(pub u32);

impl FpCtrl {
    pub open spec fn spec_rev(&self) -> u32 {
        field(self.0, 28, 4)
    }

    #[verifier::when_used_as_spec(spec_rev)]
    pub fn rev(&self) -> (value: u32)
        ensures
            value == self.spec_rev(),
    {
        get_field(self.0, 28, 4)
    }

    pub open spec fn spec_num_code_1(&self) -> u32 {
        field(self.0, 12, 3)
    }

    #[verifier::when_used_as_spec(spec_num_code_1)]
    pub fn num_code_1(&self) -> (value: u32)
        ensures
            value == self.spec_num_code_1(),
    {
        get_field(self.0, 12, 3)
    }

    pub open spec fn spec_num_lit(&self) -> u32 {
        field(self.0, 8, 4)
    }

    #[verifier::when_used_as_spec(spec_num_lit)]
    pub fn num_lit(&self) -> (value: u32)
        ensures
            value == self.spec_num_lit(),
    {
        get_field(self.0, 8, 4)
    }

    pub open spec fn spec_num_code_0(&self) -> u32 {
        field(self.0, 4, 4)
    }

    #[verifier::when_used_as_spec(spec_num_code_0)]
    pub fn num_code_0(&self) -> (value: u32)
        ensures
            value == self.spec_num_code_0(),
    {
        get_field(self.0, 4, 4)
    }

    pub fn set_key(&mut self, on: bool)
        ensures
            final(self).0 == with_bit(old(self).0, 1, on),
    {
        self.0 = set_bit(self.0, 1, on);
    }

    pub open spec fn spec_enable(&self) -> bool {
        bit(self.0, 0)
    }

    #[verifier::when_used_as_spec(spec_enable)]
    pub fn enable(&self) -> (on: bool)
        ensures
            on == self.spec_enable(),
    {
        get_bit(self.0, 0)
    }

    pub fn set_enable(&mut self, on: bool)
        ensures
            final(self).0 == with_bit(old(self).0, 0, on),
    {
        self.0 = set_bit(self.0, 0, on);
    }

}

impl CoreRegister for FpCtrl {
    open spec fn spec_address() -> u32 {
        0xE000_2000
    }

    fn address() -> (address: u32) {
        0xE000_2000
    }

    open spec fn spec_name() -> &'static str {
        "FP_CTRL"
    }

    fn name() -> (name: &'static str) {
        "FP_CTRL"
    }
}

impl From<u32> for FpCtrl {
    fn from(value: u32) -> (register: Self) {
        FpCtrl(value)
    }
}

impl vstd::std_specs::convert::FromSpecImpl<u32> for FpCtrl {
    open spec fn obeys_from_spec() -> bool {
        true
    }

    open spec fn from_spec(value: u32) -> Self {
        FpCtrl(value)
    }
}

impl From<FpCtrl> for u32 {
    fn from(value: FpCtrl) -> (bits: u32) {
        value.0
    }
}

impl vstd::std_specs::convert::FromSpecImpl<FpCtrl> for u32 {
    open spec fn obeys_from_spec() -> bool {
        true
    }

    open spec fn from_spec(value: FpCtrl) -> Self {
        value.0
    }
}

/// A comparator of a breakpoint unit of the first revision.
#[derive(Debug, Clone, Copy, PartialEq, Eq, Structural)]
pub struct FpRev1CompX(pub u32);

impl FpRev1CompX {
    pub open spec fn spec_replace(&self) -> u32 {
        field(self.0, 30, 2)
    }

    #[verifier::when_used_as_spec(spec_replace)]
    pub fn replace(&self) -> (value: u32)
        ensures
            value == self.spec_replace(),
    {
        get_field(self.0, 30, 2)
    }

    pub fn set_replace(&mut self, value: u32)
        ensures
            final(self).0 == with_field(old(self).0, 30, 2, value),
    {
        self.0 = set_field(self.0, 30, 2, value);
    }

    pub open spec fn spec_comp(&self) -> u32 {
        field(self.0, 2, 27)
    }

    #[verifier::when_used_as_spec(spec_comp)]
    pub fn comp(&self) -> (value: u32)
        ensures
            value == self.spec_comp(),
    {
        get_field(self.0, 2, 27)
    }

    pub fn set_comp(&mut self, value: u32)
        ensures
            final(self).0 == with_field(old(self).0, 2, 27, value),
    {
        self.0 = set_field(self.0, 2, 27, value);
    }

    pub open spec fn spec_enable(&self) -> bool {
        bit(self.0, 0)
    }

    #[verifier::when_used_as_spec(spec_enable)]
    pub fn enable(&self) -> (on: bool)
        ensures
            on == self.spec_enable(),
    {
        get_bit(self.0, 0)
    }

    pub fn set_enable(&mut self, on: bool)
        ensures
            final(self).0 == with_bit(old(self).0, 0, on),
    {
        self.0 = set_bit(self.0, 0, on);
    }

}

impl CoreRegister for FpRev1CompX {
    open spec fn spec_address() -> u32 {
        0xE000_2008
    }

    fn address() -> (address: u32) {
        0xE000_2008
    }

    open spec fn spec_name() -> &'static str {
        "FP_COMP"
    }

    fn name() -> (name: &'static str) {
        "FP_COMP"
    }
}

impl From<u32> for FpRev1CompX {
    fn from(value: u32) -> (register: Self) {
        FpRev1CompX(value)
    }
}

impl vstd::std_specs::convert::FromSpecImpl<u32> for FpRev1CompX {
    open spec fn obeys_from_spec() -> bool {
        true
    }

    open spec fn from_spec(value: u32) -> Self {
        FpRev1CompX(value)
    }
}

impl From<FpRev1CompX> for u32 {
    fn from(value: FpRev1CompX) -> (bits: u32) {
        value.0
    }
}

impl vstd::std_specs::convert::FromSpecImpl<FpRev1CompX> for u32 {
    open spec fn obeys_from_spec() -> bool {
        true
    }

    open spec fn from_spec(value: FpRev1CompX) -> Self {
        value.0
    }
}

/// A comparator of a breakpoint unit of the second revision.
#[derive(Debug, Clone, Copy, PartialEq, Eq, Structural)]
pub struct FpRev2CompX(pub u32);

impl FpRev2CompX {
    pub open spec fn spec_bpaddr(&self) -> u32 {
        field(self.0, 1, 31)
    }

    #[verifier::when_used_as_spec(spec_bpaddr)]
    pub fn bpaddr(&self) -> (value: u32)
        ensures
            value == self.spec_bpaddr(),
    {
        get_field(self.0, 1, 31)
    }

    pub fn set_bpaddr(&mut self, value: u32)
        ensures
            final(self).0 == with_field(old(self).0, 1, 31, value),
    {
        self.0 = set_field(self.0, 1, 31, value);
    }

    pub open spec fn spec_enable(&self) -> bool {
        bit(self.0, 0)
    }

    #[verifier::when_used_as_spec(spec_enable)]
    pub fn enable(&self) -> (on: bool)
        ensures
            on == self.spec_enable(),
    {
        get_bit(self.0, 0)
    }

    pub fn set_enable(&mut self, on: bool)
        ensures
            final(self).0 == with_bit(old(self).0, 0, on),
    {
        self.0 = set_bit(self.0, 0, on);
    }

}

impl CoreRegister for FpRev2CompX {
    open spec fn spec_address() -> u32 {
        0xE000_2008
    }

    fn address() -> (address: u32) {
        0xE000_2008
    }

    open spec fn spec_name() -> &'static str {
        "FP_COMP"
    }

    fn name() -> (name: &'static str) {
        "FP_COMP"
    }
}

impl From<u32> for FpRev2CompX {
    fn from(value: u32) -> (register: Self) {
        FpRev2CompX(value)
    }
}

impl vstd::std_specs::convert::FromSpecImpl<u32> for FpRev2CompX {
    open spec fn obeys_from_spec() -> bool {
        true
    }

    open spec fn from_spec(value: u32) -> Self {
        FpRev2CompX(value)
    }
}

impl From<FpRev2CompX> for u32 {
    fn from(value: FpRev2CompX) -> (bits: u32) {
        value.0
    }
}

impl vstd::std_specs::convert::FromSpecImpl<FpRev2CompX> for u32 {
    open spec fn obeys_from_spec() -> bool {
        true
    }

    open spec fn from_spec(value: FpRev2CompX) -> Self {
        value.0
    }
}

/// The selector of the main stack pointer.
pub const MSP: u8 = 0b000_1001;

/// The selector of the process stack pointer.
pub const PSP: u8 = 0b000_1010;

impl Dhcsr {
    /// The register with the debug key in its upper half: the core ignores
    /// a write to the lower half that does not carry the key 0xA05F.
    pub open spec fn with_key(self) -> Dhcsr {
        Dhcsr(self.0 & !(0xffffu32 << 16) | (0xa05fu32 << 16))
    }

    /// Puts the debug key into the upper half of the register, which
    /// enables a write to its lower half.
    pub fn enable_write(&mut self)
        ensures
            *final(self) == old(self).with_key(),
    {
        self.0 = self.0 & !(0xffffu32 << 16);
        self.0 = self.0 | (0xa05fu32 << 16);
    }

    /// The value that halts the core, or keeps it halted.
    pub open spec fn halting() -> Dhcsr {
        Dhcsr(with_bit(with_bit(0, 1, true), 0, true)).with_key()
    }

    /// The value that lets the core run with debugging enabled.
    pub open spec fn running() -> Dhcsr {
        Dhcsr(with_bit(with_bit(0, 1, false), 0, true)).with_key()
    }

    /// The value that lets the core execute one instruction with interrupts
    /// masked.
    pub open spec fn stepping() -> Dhcsr {
        Dhcsr(
            with_bit(with_bit(with_bit(with_bit(0, 2, true), 1, false), 0, true), 3, true),
        ).with_key()
    }

    /// The value that enables debugging and nothing else.
    pub open spec fn enabling() -> Dhcsr {
        Dhcsr(with_bit(0, 0, true)).with_key()
    }
}

impl Dcrsr {
    /// The value that starts the transfer of the core register `register`,
    /// to the core if `write` and from it otherwise.
    pub open spec fn spec_selecting(register: CoreRegisterAddress, write: bool) -> Dcrsr {
        Dcrsr(with_field(with_bit(0, 16, write), 0, 7, register.0 as u32))
    }

    #[verifier::when_used_as_spec(spec_selecting)]
    pub fn selecting(register: CoreRegisterAddress, write: bool) -> (value: Dcrsr)
        ensures
            value == Self::spec_selecting(register, write),
    {
        let mut value = Dcrsr(0);
        value.set_regwnr(write);
        value.set_regsel(register.0 as u32);
        value
    }
}

impl Aircr {
    pub open spec fn spec_get_vectkeystat(&self) -> u32 {
        field(self.0, 16, 16)
    }

    #[verifier::when_used_as_spec(spec_get_vectkeystat)]
    pub fn get_vectkeystat(&self) -> (value: u32)
        ensures
            value == self.spec_get_vectkeystat(),
    {
        get_field(self.0, 16, 16)
    }

    pub fn set_vectkey(&mut self, value: u32)
        ensures
            final(self).0 == with_field(old(self).0, 16, 16, value),
    {
        self.0 = set_field(self.0, 16, 16, value);
    }

    /// Puts the key 0x05FA into the upper half of the register, without
    /// which the core ignores a write to it.
    pub fn vectkey(&mut self)
        ensures
            final(self).0 == with_field(old(self).0, 16, 16, 0x05FA),
    {
        self.set_vectkey(0x05FA);
    }

    pub open spec fn spec_vectkeystat(&self) -> bool {
        self.spec_get_vectkeystat() == 0xFA05
    }

    /// Whether the upper half of the register reads as 0xFA05, as it does
    /// on a core that has the register.
    #[verifier::when_used_as_spec(spec_vectkeystat)]
    pub fn vectkeystat(&self) -> (present: bool)
        ensures
            present == self.spec_vectkeystat(),
    {
        self.get_vectkeystat() == 0xFA05
    }

    /// The value that requests a reset of the system.
    pub open spec fn reset_request() -> Aircr {
        Aircr(with_bit(with_field(0, 16, 16, 0x05FA), 2, true))
    }
}

impl FpCtrl {
    pub open spec fn spec_num_code(&self) -> u32 {
        (self.spec_num_code_1() << 4) | self.spec_num_code_0()
    }

    /// The number of instruction comparators of the unit.
    #[verifier::when_used_as_spec(spec_num_code)]
    pub fn num_code(&self) -> (units: u32)
        ensures
            units == self.spec_num_code(),
    {
        (self.num_code_1() << 4) | self.num_code_0()
    }

    /// The value that switches the unit on or off.
    pub open spec fn enabling(state: bool) -> FpCtrl {
        FpCtrl(with_bit(with_bit(0, 1, true), 0, state))
    }
}

impl FpRev1CompX {
    /// The register value that the first revision of the unit takes for a
    /// breakpoint at `address`: the address bits 28 to 2 in the comparator
    /// field, the half word to match in the replace field, and the enable
    /// bit.
    pub open spec fn spec_breakpoint_configuration(address: u32) -> FpRev1CompX {
        let replace: u32 = if address & 0x3 == 0 {
            0b01
        } else {
            0b10
        };
        FpRev1CompX(
            with_bit(
                with_field(
                    with_field(0, 30, 2, replace),
                    2,
                    27,
                    (address & 0x1f_ff_ff_fc) >> 2,
                ),
                0,
                true,
            ),
        )
    }

    /// Get the register configuration which enables a hardware breakpoint
    /// at the given address. For a word-aligned address in the lowest 512
    /// MiB the comparator field holds the address shifted right by two and
    /// the replace field selects the lower half word.
    #[verifier::when_used_as_spec(spec_breakpoint_configuration)]
    pub fn breakpoint_configuration(address: u32) -> (register: FpRev1CompX)
        ensures
            register == Self::spec_breakpoint_configuration(address),
            register.spec_enable(),
            address % 4 == 0 && address <= 0x1FFF_FFFC ==> register.spec_comp() == address >> 2
                && register.spec_replace() == 0b01,
    {
        let mut reg = FpRev1CompX(0);
        let comp_val: u32 = (address & 0x1f_ff_ff_fc) >> 2;
        // the replace value decides if the upper or lower half
        // word is matched for the break point
        let replace_val: u32 = if (address & 0x3) == 0 {
            0b01  // lower half word
        } else {
            0b10  // upper half word
        };
        reg.set_replace(replace_val);
        reg.set_comp(comp_val);
        reg.set_enable(true);
        proof {
            lemma_rev1_encoding(address);
        }
        reg
    }
}

/// Breakpoint address encoding: the first revision of the breakpoint unit
/// holds a word-aligned address of the lowest 512 MiB as the address
/// shifted right by two in its comparator field, with the replace field
/// selecting the lower half word and the enable bit set.
pub proof fn lemma_rev1_encoding(address: u32)
    ensures
        FpRev1CompX::spec_breakpoint_configuration(address).spec_enable(),
        address % 4 == 0 && address <= 0x1FFF_FFFC ==> {
            &&& FpRev1CompX::spec_breakpoint_configuration(address).spec_comp() == address >> 2
            &&& FpRev1CompX::spec_breakpoint_configuration(address).spec_replace() == 0b01
        },
{
    let low = address & 0x3;
    let replace: u32 = if low == 0 {
        0b01
    } else {
        0b10
    };
    let comp = (address & 0x1f_ff_ff_fc) >> 2;
    let value = with_bit(with_field(with_field(0, 30, 2, replace), 2, 27, comp), 0, true);
    assert(bit(value, 0)) by (bit_vector)
        requires
            value == with_bit(with_field(with_field(0, 30, 2, replace), 2, 27, comp), 0, true),
    ;
    if address % 4 == 0 && address <= 0x1FFF_FFFC {
        assert(low == 0 && comp == address >> 2) by (bit_vector)
            requires
                address % 4 == 0,
                address <= 0x1FFF_FFFC,
                low == address & 0x3,
                comp == (address & 0x1f_ff_ff_fc) >> 2,
        ;
        assert(field(value, 2, 27) == comp && field(value, 30, 2) == 1) by (bit_vector)
            requires
                value == with_bit(with_field(with_field(0, 30, 2, 1), 2, 27, comp), 0, true),
                comp == address >> 2,
                address <= 0x1FFF_FFFC,
        ;
    }
}

impl FpRev2CompX {
    /// The register value that the second revision of the unit takes for a
    /// breakpoint at `address`: the address without its lowest bit, and the
    /// enable bit.
    pub open spec fn spec_breakpoint_configuration(address: u32) -> FpRev2CompX {
        FpRev2CompX(with_bit(with_field(0, 1, 31, address >> 1), 0, true))
    }

    /// Get the register configuration which enables a hardware breakpoint
    /// at the given address.
    #[verifier::when_used_as_spec(spec_breakpoint_configuration)]
    pub fn breakpoint_configuration(address: u32) -> (register: FpRev2CompX)
        ensures
            register == Self::spec_breakpoint_configuration(address),
    {
        let mut reg = FpRev2CompX(0);
        reg.set_bpaddr(address >> 1);
        reg.set_enable(true);
        reg
    }
}

/// The status that a look at the core shows, given the status `previous`
/// that it was thought to have. A sleeping core is sleeping whatever else
/// shows. A halted core is halted for the reason that DFSR gives; but where
/// it was halted before and DFSR gives no reason, because the reason was
/// cleared when it was first seen, the earlier status stands. Any other
/// core is running.
pub open spec fn spec_observed_status(previous: CoreStatus, dhcsr: Dhcsr, dfsr: Dfsr) -> CoreStatus {
    if dhcsr.spec_s_sleep() {
        CoreStatus::Sleeping
    } else if dhcsr.spec_s_halt() {
        if previous.spec_is_halted() && dfsr.spec_halt_reason() == HaltReason::Unknown {
            previous
        } else {
            CoreStatus::Halted(dfsr.spec_halt_reason())
        }
    } else {
        CoreStatus::Running
    }
}

#[verifier::when_used_as_spec(spec_observed_status)]
pub fn observed_status(previous: CoreStatus, dhcsr: Dhcsr, dfsr: Dfsr) -> (status: CoreStatus)
    ensures
        status == spec_observed_status(previous, dhcsr, dfsr),
        status is Halted ==> dhcsr.spec_s_halt(),
        status is Running ==> !dhcsr.spec_s_halt() && !dhcsr.spec_s_sleep(),
{
    if dhcsr.s_sleep() {
        CoreStatus::Sleeping
    } else if dhcsr.s_halt() {
        let reason = dfsr.halt_reason();
        if previous.is_halted() && reason == HaltReason::Unknown {
            previous
        } else {
            CoreStatus::Halted(reason)
        }
    } else {
        CoreStatus::Running
    }
}

/// The value that a comparator of the breakpoint unit described by `ctrl`
/// takes for a breakpoint at `address`. The first revision of the unit
/// reaches the lowest 512 MiB only; a unit of a revision after the second
/// is not supported.
pub open spec fn spec_breakpoint_value(ctrl: FpCtrl, address: u32) -> Result<u32, Error> {
    if ctrl.spec_rev() == 0 {
        if address > 0x1FFF_FFFF {
            Err(Error::UnsupportedBreakpointAddress { address })
        } else {
            Ok(FpRev1CompX::spec_breakpoint_configuration(address).0)
        }
    } else if ctrl.spec_rev() == 1 {
        Ok(FpRev2CompX::spec_breakpoint_configuration(address).0)
    } else {
        Err(Error::UnsupportedFpb { revision: ctrl.spec_rev() })
    }
}

#[verifier::when_used_as_spec(spec_breakpoint_value)]
pub fn breakpoint_value(ctrl: FpCtrl, address: u32) -> (r: Result<u32, Error>)
    ensures
        r == spec_breakpoint_value(ctrl, address),
{
    if ctrl.rev() == 0 {
        if address > 0x1FFF_FFFF {
            Err(Error::UnsupportedBreakpointAddress { address })
        } else {
            Ok(FpRev1CompX::breakpoint_configuration(address).0)
        }
    } else if ctrl.rev() == 1 {
        Ok(FpRev2CompX::breakpoint_configuration(address).0)
    } else {
        Err(Error::UnsupportedFpb { revision: ctrl.rev() })
    }
}

/// The address of the comparator register of breakpoint unit `index`, if
/// there is an address for it.
pub open spec fn spec_comparator_address(index: usize) -> Option<u32> {
    if index <= 0x7FF_F7FD {
        Some((0xE000_2008 + 4 * index) as u32)
    } else {
        None
    }
}

#[verifier::when_used_as_spec(spec_comparator_address)]
pub fn comparator_address(index: usize) -> (address: Option<u32>)
    ensures
        address == spec_comparator_address(index),
{
    if index <= 0x7FF_F7FD {
        Some((0xE000_2008u64 + 4 * (index as u64)) as u32)
    } else {
        None
    }
}

/// Whether `segment` is a look at the status of a core that was thought to
/// have the status `previous`, and shows `status`: DHCSR is read and, if it
/// shows a halted core that does not sleep, DFSR is read and its flags are
/// cleared.
pub open spec fn looked(segment: Seq<MemoryAccess>, previous: CoreStatus, status: CoreStatus) -> bool {
    let dhcsr = Dhcsr(segment[0].word());
    &&& segment.len() >= 1
    &&& if !dhcsr.spec_s_sleep() && dhcsr.spec_s_halt() {
        &&& segment == seq![
            MemoryAccess::word_read(0xE000_EDF0, dhcsr.0),
            MemoryAccess::word_read(0xE000_ED30, segment[1].word()),
            MemoryAccess::word_write(0xE000_ED30, 0b11111),
        ]
        &&& status == spec_observed_status(previous, dhcsr, Dfsr(segment[1].word()))
    } else {
        &&& segment == seq![MemoryAccess::word_read(0xE000_EDF0, dhcsr.0)]
        &&& status == spec_observed_status(previous, dhcsr, Dfsr(0))
    }
}

/// Whether `segment` is a wait for the core to halt that saw it halt,
/// followed by a look at its status that shows `status`.
pub open spec fn halted_wait(
    segment: Seq<MemoryAccess>,
    previous: CoreStatus,
    status: CoreStatus,
) -> bool {
    exists|k: int|
        {
            &&& 0 < k <= segment.len()
            &&& #[trigger] waited(segment.subrange(0, k), 0xE000_EDF0, 17)
            &&& looked(segment.subrange(k, segment.len() as int), previous, status)
        }
}

/// Whether `segment` is the transfer of the core register `register` from
/// the core, with `value` as its value: DCRSR is written with the
/// selector, DHCSR is polled until the transfer is ready, and DCRDR is
/// read.
pub open spec fn register_read(
    segment: Seq<MemoryAccess>,
    register: CoreRegisterAddress,
    value: u32,
) -> bool {
    &&& segment.len() >= 3
    &&& segment[0] == MemoryAccess::word_write(
        0xE000_EDF4,
        Dcrsr::spec_selecting(register, false).0,
    )
    &&& waited(segment.subrange(1, segment.len() - 1), 0xE000_EDF0, 16)
    &&& segment.last() == MemoryAccess::word_read(0xE000_EDF8, value)
}

/// Whether `segment` is the transfer of `value` to the core register
/// `register`: DCRDR is written with the value, DCRSR with the selector,
/// and DHCSR is polled until the transfer is ready.
pub open spec fn register_written(
    segment: Seq<MemoryAccess>,
    register: CoreRegisterAddress,
    value: u32,
) -> bool {
    &&& segment.len() >= 3
    &&& segment[0] == MemoryAccess::word_write(0xE000_EDF8, value)
    &&& segment[1] == MemoryAccess::word_write(
        0xE000_EDF4,
        Dcrsr::spec_selecting(register, true).0,
    )
    &&& waited(segment.subrange(2, segment.len() as int), 0xE000_EDF0, 16)
}

/// Whether `segment` is a request to the core by a write of `request` to
/// DHCSR, a wait for it to halt that showed `status`, and a read of the
/// program counter that delivered `pc`.
pub open spec fn halted_after(
    segment: Seq<MemoryAccess>,
    request: Dhcsr,
    previous: CoreStatus,
    status: CoreStatus,
    pc: u32,
) -> bool {
    exists|k: int|
        {
            &&& 1 <= k <= segment.len()
            &&& segment[0] == MemoryAccess::word_write(0xE000_EDF0, request.0)
            &&& #[trigger] halted_wait(segment.subrange(1, k), previous, status)
            &&& register_read(
                segment.subrange(k, segment.len() as int),
                CoreRegisterAddress(15),
                pc,
            )
        }
}

/// Whether `segment` is a reset of the system that was caught on the reset
/// vector: DHCSR is read, and written to enable debugging where it was not
/// enabled; DEMCR is read, and written with the reset vector catch where it
/// was not set; AIRCR is written with the reset request; the core is waited
/// for until it halts, which shows `status`; the program status register is
/// read, and written back with the Thumb bit where that was clear; DEMCR is
/// written with the value that was read from it; and the program counter is
/// read, which delivers `pc`.
pub open spec fn reset_halted(segment: Seq<MemoryAccess>, status: CoreStatus, pc: u32) -> bool {
    let dhcsr = Dhcsr(segment[0].word());
    let a: int = if dhcsr.spec_c_debugen() {
        1
    } else {
        2
    };
    let demcr = Demcr(segment[a].word());
    let b: int = if demcr.spec_vc_corereset() {
        a + 1
    } else {
        a + 2
    };
    exists|c: int, d: int, e: int|
        #![trigger stretch(segment, c, d), stretch(segment, d, e)]
        {
            &&& b < c <= d <= e < segment.len()
            &&& segment[0] == MemoryAccess::word_read(0xE000_EDF0, dhcsr.0)
            &&& !dhcsr.spec_c_debugen() ==> segment[1] == MemoryAccess::word_write(
                0xE000_EDF0,
                Dhcsr::enabling().0,
            )
            &&& segment[a] == MemoryAccess::word_read(0xE000_EDFC, demcr.0)
            &&& !demcr.spec_vc_corereset() ==> segment[a + 1] == MemoryAccess::word_write(
                0xE000_EDFC,
                with_bit(demcr.0, 0, true),
            )
            &&& segment[b] == MemoryAccess::word_write(0xE000_ED0C, Aircr::reset_request().0)
            &&& halted_wait(stretch(segment, b + 1, c), CoreStatus::Unknown, status)
            &&& register_read(
                stretch(segment, c, d),
                CoreRegisterAddress(16),
                segment[d - 1].word(),
            )
            &&& if bit(segment[d - 1].word(), 24) {
                e == d
            } else {
                register_written(
                    stretch(segment, d, e),
                    CoreRegisterAddress(16),
                    with_bit(segment[d - 1].word(), 24, true),
                )
            }
            &&& segment[e] == MemoryAccess::word_write(0xE000_EDFC, demcr.0)
            &&& register_read(
                stretch(segment, e + 1, segment.len() as int),
                CoreRegisterAddress(15),
                pc,
            )
        }
}

/// The write of the word `value` to `address` that failed with `error`.
pub open spec fn failed_write(address: u32, value: u32, error: Error) -> MemoryAccess {
    MemoryAccess::of_words_written(address, seq![value], Err(error))
}

/// Whether `segment` is a look at the status of the core that gave up with
/// `error`: the read of DHCSR failed; or it showed a halted core that does
/// not sleep, and the read of DFSR failed, or the write that clears its
/// flags.
pub open spec fn looked_gave_up(segment: Seq<MemoryAccess>, error: Error) -> bool {
    let dhcsr = Dhcsr(segment[0].word());
    ||| segment == seq![MemoryAccess::of_word_read(0xE000_EDF0, Err(error))]
    ||| {
        &&& !dhcsr.spec_s_sleep() && dhcsr.spec_s_halt()
        &&& segment == seq![
            MemoryAccess::word_read(0xE000_EDF0, dhcsr.0),
            MemoryAccess::of_word_read(0xE000_ED30, Err(error)),
        ]
    }
    ||| {
        &&& !dhcsr.spec_s_sleep() && dhcsr.spec_s_halt()
        &&& segment.len() == 3
        &&& segment == seq![
            MemoryAccess::word_read(0xE000_EDF0, dhcsr.0),
            MemoryAccess::word_read(0xE000_ED30, segment[1].word()),
            failed_write(0xE000_ED30, 0b11111, error),
        ]
    }
}

/// Whether `segment` is a first look at a core that gave up with `error`:
/// as a look at its status does, or in the write that clears the flags of
/// DFSR for a core that is not halted.
pub open spec fn first_look_gave_up(segment: Seq<MemoryAccess>, error: Error) -> bool {
    let dhcsr = Dhcsr(segment[0].word());
    ||| looked_gave_up(segment, error)
    ||| {
        &&& !(!dhcsr.spec_s_sleep() && dhcsr.spec_s_halt())
        &&& segment == seq![
            MemoryAccess::word_read(0xE000_EDF0, dhcsr.0),
            failed_write(0xE000_ED30, 0b11111, error),
        ]
    }
}

/// Whether `segment` is a wait for the core to halt, for `operation`, that
/// gave up with `error`: in the wait itself, after 100 reads of DHCSR that
/// did not show the core halted or in a read that failed; or after the wait
/// in the look at the status.
pub open spec fn halted_wait_gave_up(
    segment: Seq<MemoryAccess>,
    operation: Operation,
    error: Error,
) -> bool {
    ||| failed_polls(segment, 0xE000_EDF0, 17, Error::Timeout { operation }, error)
    ||| exists|k: int|
        {
            &&& 0 < k <= segment.len()
            &&& #[trigger] waited(segment.subrange(0, k), 0xE000_EDF0, 17)
            &&& looked_gave_up(segment.subrange(k, segment.len() as int), error)
        }
}

/// Whether `segment` is a transfer of the core register `register` from
/// the core that gave up with `error`: in the write of the selector to
/// DCRSR, in the wait for the transfer, or in the read of DCRDR.
pub open spec fn register_read_gave_up(
    segment: Seq<MemoryAccess>,
    register: CoreRegisterAddress,
    error: Error,
) -> bool {
    let selector = Dcrsr::spec_selecting(register, false).0;
    ||| segment == seq![failed_write(0xE000_EDF4, selector, error)]
    ||| {
        &&& segment.len() >= 2
        &&& segment[0] == MemoryAccess::word_write(0xE000_EDF4, selector)
        &&& failed_polls(
            segment.subrange(1, segment.len() as int),
            0xE000_EDF0,
            16,
            Error::Timeout { operation: Operation::CoreRegisterTransfer },
            error,
        )
    }
    ||| {
        &&& segment.len() >= 3
        &&& segment[0] == MemoryAccess::word_write(0xE000_EDF4, selector)
        &&& waited(segment.subrange(1, segment.len() - 1), 0xE000_EDF0, 16)
        &&& segment.last() == MemoryAccess::of_word_read(0xE000_EDF8, Err(error))
    }
}

/// Whether `segment` is a transfer of `value` to the core register
/// `register` that gave up with `error`: in the write of the value to
/// DCRDR, in the write of the selector to DCRSR, or in the wait for the
/// transfer.
pub open spec fn register_written_gave_up(
    segment: Seq<MemoryAccess>,
    register: CoreRegisterAddress,
    value: u32,
    error: Error,
) -> bool {
    let selector = Dcrsr::spec_selecting(register, true).0;
    ||| segment == seq![failed_write(0xE000_EDF8, value, error)]
    ||| segment == seq![
        MemoryAccess::word_write(0xE000_EDF8, value),
        failed_write(0xE000_EDF4, selector, error),
    ]
    ||| {
        &&& segment.len() >= 3
        &&& segment[0] == MemoryAccess::word_write(0xE000_EDF8, value)
        &&& segment[1] == MemoryAccess::word_write(0xE000_EDF4, selector)
        &&& failed_polls(
            segment.subrange(2, segment.len() as int),
            0xE000_EDF0,
            16,
            Error::Timeout { operation: Operation::CoreRegisterTransfer },
            error,
        )
    }
}

/// Whether `segment` is a request to the core by a write of `request` to
/// DHCSR, for `operation`, that gave up with `error`, and left the status
/// `status` behind for a core that was thought to have the status
/// `previous`: in the write of the request or in the wait for the core to
/// halt, which leave the status as it was; or, after a wait that showed
/// `status`, in the read of the program counter.
pub open spec fn halted_after_gave_up(
    segment: Seq<MemoryAccess>,
    request: Dhcsr,
    operation: Operation,
    previous: CoreStatus,
    status: CoreStatus,
    error: Error,
) -> bool {
    ||| segment == seq![failed_write(0xE000_EDF0, request.0, error)] && status == previous
    ||| {
        &&& segment.len() >= 1
        &&& segment[0] == MemoryAccess::word_write(0xE000_EDF0, request.0)
        &&& halted_wait_gave_up(segment.subrange(1, segment.len() as int), operation, error)
        &&& status == previous
    }
    ||| exists|k: int|
        {
            &&& 1 <= k <= segment.len()
            &&& segment[0] == MemoryAccess::word_write(0xE000_EDF0, request.0)
            &&& #[trigger] halted_wait(segment.subrange(1, k), previous, status)
            &&& register_read_gave_up(
                segment.subrange(k, segment.len() as int),
                CoreRegisterAddress(15),
                error,
            )
        }
}

/// Whether `segment` begins as a reset that is caught on the reset vector
/// does, up to the request for the reset: DHCSR is read, and written to
/// enable debugging where it was not enabled; DEMCR is read, and written
/// with the reset vector catch where it was not set.
pub open spec fn reset_armed(segment: Seq<MemoryAccess>) -> bool {
    let dhcsr = Dhcsr(segment[0].word());
    let a: int = if dhcsr.spec_c_debugen() {
        1
    } else {
        2
    };
    let demcr = Demcr(segment[a].word());
    let b: int = if demcr.spec_vc_corereset() {
        a + 1
    } else {
        a + 2
    };
    &&& segment.len() >= b
    &&& segment[0] == MemoryAccess::word_read(0xE000_EDF0, dhcsr.0)
    &&& !dhcsr.spec_c_debugen() ==> segment[1] == MemoryAccess::word_write(
        0xE000_EDF0,
        Dhcsr::enabling().0,
    )
    &&& segment[a] == MemoryAccess::word_read(0xE000_EDFC, demcr.0)
    &&& !demcr.spec_vc_corereset() ==> segment[a + 1] == MemoryAccess::word_write(
        0xE000_EDFC,
        with_bit(demcr.0, 0, true),
    )
}

/// The position in a reset's accesses of the request for the reset.
pub open spec fn request_position(segment: Seq<MemoryAccess>) -> int {
    let a: int = if Dhcsr(segment[0].word()).spec_c_debugen() {
        1
    } else {
        2
    };
    if Demcr(segment[a].word()).spec_vc_corereset() {
        a + 1
    } else {
        a + 2
    }
}

/// What a reset's accesses found in DEMCR.
pub open spec fn caught_demcr(segment: Seq<MemoryAccess>) -> Demcr {
    if Dhcsr(segment[0].word()).spec_c_debugen() {
        Demcr(segment[1].word())
    } else {
        Demcr(segment[2].word())
    }
}

/// Whether the accesses of `segment` from position `c` on are what follows
/// the halt of a core after a reset, and gave up with `error`. The program
/// status register is read up to position `d`; it is written back with the
/// Thumb bit, where that was clear, up to position `e`; DEMCR is written
/// with `demcr`; and the program counter is read. The first of these that
/// fails is the end of the segment.
pub open spec fn reset_finish_gave_up(
    segment: Seq<MemoryAccess>,
    c: int,
    d: int,
    e: int,
    demcr: Demcr,
    error: Error,
) -> bool {
    let n = segment.len() as int;
    let xpsr = segment[d - 1].word();
    ||| {
        &&& d == c
        &&& e == c
        &&& register_read_gave_up(stretch(segment, c, n), CoreRegisterAddress(16), error)
    }
    ||| {
        &&& c < d
        &&& register_read(stretch(segment, c, d), CoreRegisterAddress(16), xpsr)
        &&& {
            ||| {
                &&& e == d
                &&& !bit(xpsr, 24)
                &&& register_written_gave_up(
                    stretch(segment, d, n),
                    CoreRegisterAddress(16),
                    with_bit(xpsr, 24, true),
                    error,
                )
            }
            ||| {
                &&& if bit(xpsr, 24) {
                    e == d
                } else {
                    register_written(
                        stretch(segment, d, e),
                        CoreRegisterAddress(16),
                        with_bit(xpsr, 24, true),
                    )
                }
                &&& e < n
                &&& {
                    ||| n == e + 1 && segment[e] == failed_write(0xE000_EDFC, demcr.0, error)
                    ||| {
                        &&& segment[e] == MemoryAccess::word_write(0xE000_EDFC, demcr.0)
                        &&& register_read_gave_up(
                            stretch(segment, e + 1, n),
                            CoreRegisterAddress(15),
                            error,
                        )
                    }
                }
            }
        }
    }
}

/// Whether `segment` is a reset of the system, to be caught on the reset
/// vector, that gave up with `error` and left the status `status` behind
/// for a core that was thought to have the status `previous`.
///
/// Up to the request for the reset the status stays as it was: the read of
/// DHCSR may fail, the write that enables debugging, the read of DEMCR, the
/// write that sets the reset vector catch, or the request itself. After the
/// request the status is unknown, and stays so if the wait for the core to
/// halt gives up. After a wait that showed `status`, the rest gives up as
/// `reset_finish_gave_up` describes.
pub open spec fn reset_gave_up(
    segment: Seq<MemoryAccess>,
    previous: CoreStatus,
    status: CoreStatus,
    error: Error,
) -> bool {
    let n = segment.len() as int;
    let dhcsr = Dhcsr(segment[0].word());
    let a: int = if dhcsr.spec_c_debugen() {
        1
    } else {
        2
    };
    let demcr = Demcr(segment[a].word());
    let b: int = if demcr.spec_vc_corereset() {
        a + 1
    } else {
        a + 2
    };
    let begun = {
        &&& segment[0] == MemoryAccess::word_read(0xE000_EDF0, dhcsr.0)
        &&& !dhcsr.spec_c_debugen() ==> segment[1] == MemoryAccess::word_write(
            0xE000_EDF0,
            Dhcsr::enabling().0,
        )
    };
    ||| {
        &&& status == previous
        &&& {
            ||| segment == seq![MemoryAccess::of_word_read(0xE000_EDF0, Err(error))]
            ||| {
                &&& !dhcsr.spec_c_debugen()
                &&& segment == seq![
                    MemoryAccess::word_read(0xE000_EDF0, dhcsr.0),
                    failed_write(0xE000_EDF0, Dhcsr::enabling().0, error),
                ]
            }
            ||| {
                &&& n == a + 1
                &&& begun
                &&& segment[a] == MemoryAccess::of_word_read(0xE000_EDFC, Err(error))
            }
            ||| {
                &&& n == a + 2
                &&& begun
                &&& !demcr.spec_vc_corereset()
                &&& segment[a] == MemoryAccess::word_read(0xE000_EDFC, demcr.0)
                &&& segment[a + 1] == failed_write(
                    0xE000_EDFC,
                    with_bit(demcr.0, 0, true),
                    error,
                )
            }
            ||| {
                &&& n == b + 1
                &&& reset_armed(segment)
                &&& segment[b] == failed_write(0xE000_ED0C, Aircr::reset_request().0, error)
            }
        }
    }
    ||| {
        &&& n > b
        &&& reset_armed(segment)
        &&& segment[b] == MemoryAccess::word_write(0xE000_ED0C, Aircr::reset_request().0)
        &&& {
            ||| {
                &&& status == CoreStatus::Unknown
                &&& halted_wait_gave_up(
                    stretch(segment, b + 1, n),
                    Operation::ResetAndHalt,
                    error,
                )
            }
            ||| exists|c: int, d: int, e: int|
                #![trigger stretch(segment, c, d), stretch(segment, d, e)]
                {
                    &&& b < c <= d <= e <= n
                    &&& halted_wait(stretch(segment, b + 1, c), CoreStatus::Unknown, status)
                    &&& reset_finish_gave_up(segment, c, d, e, demcr, error)
                }
        }
    }
}

/// A Cortex-M core, reached through the memory of the target.
pub struct M4<M: MemoryInterface> {
    memory: M,
    state: CortexState,
}

impl<M: MemoryInterface> M4<M> {
    /// The memory that the core is reached through.
    pub closed spec fn memory(&self) -> M {
        self.memory
    }

    /// What is remembered about the core.
    pub closed spec fn state(&self) -> CortexState {
        self.state
    }

    /// Every access to memory made so far, oldest first.
    pub open spec fn log(&self) -> Seq<MemoryAccess> {
        self.memory().accesses()
    }

    /// Gives the memory and the state back.
    pub fn release(self) -> (parts: (M, CortexState))
        ensures
            parts.0 == self.memory(),
            parts.1 == self.state(),
    {
        (self.memory, self.state)
    }

    /// Takes control of the core behind `memory`. For a state that is not
    /// initialized yet, the status of the core is looked up, the sticky
    /// flags of DFSR are cleared, and the state is marked as initialized. On
    /// failure the error comes back together with the core as far as it
    /// got.
    pub fn new(memory: M, state: CortexState) -> (r: Result<Self, (Error, Self)>)
        ensures
            state.initialized ==> (r matches Ok(core) && core.memory() == memory && core.state()
                == state),
            !state.initialized ==> match r {
                Ok(core) => {
                    let segment = since(core.log(), memory.accesses());
                    let dhcsr = Dhcsr(segment[0].word());
                    let halted = !dhcsr.spec_s_sleep() && dhcsr.spec_s_halt();
                    &&& memory.accesses().is_prefix_of(core.log())
                    &&& segment == if halted {
                        seq![
                            MemoryAccess::word_read(0xE000_EDF0, dhcsr.0),
                            MemoryAccess::word_read(0xE000_ED30, segment[1].word()),
                            MemoryAccess::word_write(0xE000_ED30, 0b11111),
                        ]
                    } else {
                        seq![
                            MemoryAccess::word_read(0xE000_EDF0, dhcsr.0),
                            MemoryAccess::word_write(0xE000_ED30, 0b11111),
                        ]
                    }
                    &&& core.state() == (CortexState {
                        initialized: true,
                        current_state: spec_observed_status(
                            CoreStatus::Unknown,
                            dhcsr,
                            Dfsr(segment[1].word()),
                        ),
                        ..state
                    })
                },
                Err((e, core)) => {
                    &&& stopped_at(memory.accesses(), core.log(), e)
                    &&& first_look_gave_up(since(core.log(), memory.accesses()), e)
                    &&& core.state() == state
                },
            },
    {
        let mut core = Self { memory, state };
        let ghost start = core.memory.accesses();
        if !core.state.initialized() {
            // determine current state
            let dhcsr = match core.memory.read_word_32(Dhcsr::address()) {
                Ok(value) => Dhcsr(value),
                Err(e) => {
                    proof {
                        assert(core.memory.accesses().drop_last() =~= start);
                        assert(since(core.memory.accesses(), start) =~= seq![
                            MemoryAccess::of_word_read(0xE000_EDF0, Err(e)),
                        ]);
                    }
                    return Err((e, core));
                },
            };
            let ghost log1 = core.memory.accesses();
            let dfsr = if !dhcsr.s_sleep() && dhcsr.s_halt() {
                match core.memory.read_word_32(Dfsr::address()) {
                    Ok(value) => Dfsr(value),
                    Err(e) => {
                        proof {
                            assert(core.memory.accesses().drop_last() =~= log1);
                            assert(log1.drop_last() =~= start);
                            assert(since(core.memory.accesses(), start) =~= seq![
                                MemoryAccess::word_read(0xE000_EDF0, dhcsr.0),
                                MemoryAccess::of_word_read(0xE000_ED30, Err(e)),
                            ]);
                        }
                        return Err((e, core));
                    },
                }
            } else {
                Dfsr(0)
            };
            let core_state = observed_status(CoreStatus::Unknown, dhcsr, dfsr);
            let ghost log2 = core.memory.accesses();
            // Clear DFSR register. The bits in the register are sticky,
            // so we clear them here to ensure that that none are set.
            match core.memory.write_word_32(Dfsr::address(), Dfsr::clear_all().0) {
                Ok(()) => {},
                Err(e) => {
                    proof {
                        assert(core.memory.accesses().drop_last() =~= log2);
                        let segment = since(core.memory.accesses(), start);
                        if !dhcsr.spec_s_sleep() && dhcsr.spec_s_halt() {
                            assert(segment =~= seq![
                                MemoryAccess::word_read(0xE000_EDF0, dhcsr.0),
                                MemoryAccess::word_read(0xE000_ED30, dfsr.0),
                                failed_write(0xE000_ED30, 0b11111, e),
                            ]);
                        } else {
                            assert(segment =~= seq![
                                MemoryAccess::word_read(0xE000_EDF0, dhcsr.0),
                                failed_write(0xE000_ED30, 0b11111, e),
                            ]);
                        }
                    }
                    return Err((e, core));
                },
            }
            proof {
                let segment = since(core.memory.accesses(), start);
                if !dhcsr.spec_s_sleep() && dhcsr.spec_s_halt() {
                    assert(segment =~= seq![
                        MemoryAccess::word_read(0xE000_EDF0, dhcsr.0),
                        MemoryAccess::word_read(0xE000_ED30, dfsr.0),
                        MemoryAccess::word_write(0xE000_ED30, 0b11111),
                    ]);
                } else {
                    assert(segment =~= seq![
                        MemoryAccess::word_read(0xE000_EDF0, dhcsr.0),
                        MemoryAccess::word_write(0xE000_ED30, 0b11111),
                    ]);
                }
            }
            core.state.current_state = core_state;
            core.state.initialize();
        }
        Ok(core)
    }

    /// Polls DHCSR until bit `index` shows, at most 100 times.
    fn poll(&mut self, index: u32, operation: Operation) -> (r: Result<(), Error>)
        requires
            index < 32,
        ensures
            final(self).state() == old(self).state(),
            old(self).log().is_prefix_of(final(self).log()),
            r is Ok ==> waited(since(final(self).log(), old(self).log()), 0xE000_EDF0, index),
            r matches Err(e) ==> failed_polls(
                since(final(self).log(), old(self).log()),
                0xE000_EDF0,
                index,
                Error::Timeout { operation },
                e,
            ) && all_succeeded(since(final(self).log(), old(self).log()).drop_last(), 0),
    {
        let ghost start = self.memory.accesses();
        let mut i: usize = 0;
        while i < 100
            invariant
                i <= 100,
                index < 32,
                self.state() == old(self).state(),
                start == old(self).log(),
                start.is_prefix_of(self.log()),
                self.log().len() == start.len() + i,
                idle_polls(since(self.log(), start), 0xE000_EDF0, index),
                all_succeeded(since(self.log(), start), 0),
            decreases 100 - i,
        {
            let ghost before = self.memory.accesses();
            let read = self.memory.read_word_32(Dhcsr::address());
            proof {
                let polls = since(self.memory.accesses(), start);
                assert(polls.drop_last() =~= since(before, start));
                assert(polls.last() == MemoryAccess::of_word_read(0xE000_EDF0, read));
            }
            match read {
                Ok(value) => {
                    if get_bit(value, index) {
                        proof {
                            let polls = since(self.memory.accesses(), start);
                            assert forall|j: int| 0 <= j < polls.len() implies (
                            #[trigger] polls[j]).failure() is None by {
                                if j < polls.len() - 1 {
                                    assert(polls[j] == polls.drop_last()[j]);
                                }
                            }
                        }
                        return Ok(());
                    }
                    proof {
                        let polls = since(self.memory.accesses(), start);
                        assert forall|j: int| 0 <= j < polls.len() implies (
                        #[trigger] polls[j]).reads_word(0xE000_EDF0) && !bit(
                            polls[j].word(),
                            index,
                        ) && polls[j].failure() is None by {
                            if j < polls.len() - 1 {
                                assert(polls[j] == polls.drop_last()[j]);
                            }
                        }
                    }
                },
                Err(e) => {
                    return Err(e);
                },
            }
            i += 1;
        }
        Err(Error::Timeout { operation })
    }

    /// Waits until the transfer of a core register is complete: polls
    /// DHCSR until S_REGRDY shows, at most 100 times.
    pub fn wait_for_core_register_transfer(&mut self) -> (r: Result<(), Error>)
        ensures
            final(self).state() == old(self).state(),
            old(self).log().is_prefix_of(final(self).log()),
            r is Ok ==> waited(since(final(self).log(), old(self).log()), 0xE000_EDF0, 16),
            r matches Err(e) ==> failed_polls(
                since(final(self).log(), old(self).log()),
                0xE000_EDF0,
                16,
                Error::Timeout { operation: Operation::CoreRegisterTransfer },
                e,
            ),
    {
        self.poll(16, Operation::CoreRegisterTransfer)
    }

    /// Reads DHCSR and tells whether the core is halted.
    pub fn core_halted(&mut self) -> (r: Result<bool, Error>)
        ensures
            final(self).state() == old(self).state(),
            match r {
                Ok(halted) => {
                    &&& final(self).log() == old(self).log().push(
                        MemoryAccess::word_read(0xE000_EDF0, final(self).log().last().word()),
                    )
                    &&& halted == Dhcsr(final(self).log().last().word()).spec_s_halt()
                },
                Err(e) => final(self).log() == old(self).log().push(
                    MemoryAccess::of_word_read(0xE000_EDF0, Err(e)),
                ),
            },
    {
        match self.memory.read_word_32(Dhcsr::address()) {
            Ok(value) => Ok(Dhcsr(value).s_halt()),
            Err(e) => Err(e),
        }
    }

    /// Looks at the core and brings the remembered status up to date.
    pub fn status(&mut self) -> (r: Result<CoreStatus, Error>)
        ensures
            old(self).log().is_prefix_of(final(self).log()),
            match r {
                Ok(status) => {
                    &&& looked(
                        since(final(self).log(), old(self).log()),
                        old(self).state().current_state,
                        status,
                    )
                    &&& all_succeeded(since(final(self).log(), old(self).log()), 0)
                    &&& final(self).state() == (CortexState {
                        current_state: status,
                        ..old(self).state()
                    })
                },
                Err(e) => {
                    &&& stopped_at(old(self).log(), final(self).log(), e)
                    &&& looked_gave_up(since(final(self).log(), old(self).log()), e)
                    &&& final(self).state() == old(self).state()
                },
            },
    {
        let ghost start = self.memory.accesses();
        let dhcsr = match self.memory.read_word_32(Dhcsr::address()) {
            Ok(value) => Dhcsr(value),
            Err(e) => {
                proof {
                    assert(self.memory.accesses().drop_last() =~= start);
                    assert(since(self.memory.accesses(), start) =~= seq![
                        MemoryAccess::of_word_read(0xE000_EDF0, Err(e)),
                    ]);
                }
                return Err(e);
            },
        };
        let ghost log1 = self.memory.accesses();
        let dfsr = if !dhcsr.s_sleep() && dhcsr.s_halt() {
            let dfsr = match self.memory.read_word_32(Dfsr::address()) {
                Ok(value) => Dfsr(value),
                Err(e) => {
                    proof {
                        assert(self.memory.accesses().drop_last() =~= log1);
                        assert(log1.drop_last() =~= start);
                        assert(since(self.memory.accesses(), start) =~= seq![
                            MemoryAccess::word_read(0xE000_EDF0, dhcsr.0),
                            MemoryAccess::of_word_read(0xE000_ED30, Err(e)),
                        ]);
                    }
                    return Err(e);
                },
            };
            let ghost log2 = self.memory.accesses();
            // Clear bits from Dfsr register
            match self.memory.write_word_32(Dfsr::address(), Dfsr::clear_all().0) {
                Ok(()) => {},
                Err(e) => {
                    proof {
                        assert(self.memory.accesses().drop_last() =~= log2);
                        assert(since(self.memory.accesses(), start) =~= seq![
                            MemoryAccess::word_read(0xE000_EDF0, dhcsr.0),
                            MemoryAccess::word_read(0xE000_ED30, dfsr.0),
                            failed_write(0xE000_ED30, 0b11111, e),
                        ]);
                    }
                    return Err(e);
                },
            }
            proof {
                assert(since(self.memory.accesses(), start) =~= seq![
                    MemoryAccess::word_read(0xE000_EDF0, dhcsr.0),
                    MemoryAccess::word_read(0xE000_ED30, dfsr.0),
                    MemoryAccess::word_write(0xE000_ED30, 0b11111),
                ]);
            }
            dfsr
        } else {
            proof {
                assert(since(self.memory.accesses(), start) =~= seq![
                    MemoryAccess::word_read(0xE000_EDF0, dhcsr.0),
                ]);
            }
            Dfsr(0)
        };
        let status = observed_status(self.state.current_state, dhcsr, dfsr);
        self.state.current_state = status;
        Ok(status)
    }

    /// Waits until the core is halted, and then brings the remembered
    /// status up to date.
    #[verifier::rlimit(50)]
    fn wait_for_core_halted(&mut self, operation: Operation) -> (r: Result<(), Error>)
        requires
            operation != Operation::CoreRegisterTransfer,
        ensures
            old(self).log().is_prefix_of(final(self).log()),
            match r {
                Ok(_) => {
                    &&& halted_wait(
                        since(final(self).log(), old(self).log()),
                        old(self).state().current_state,
                        final(self).state().current_state,
                    )
                    &&& all_succeeded(since(final(self).log(), old(self).log()), 0)
                    &&& final(self).state() == (CortexState {
                        current_state: final(self).state().current_state,
                        ..old(self).state()
                    })
                },
                Err(e) => {
                    &&& gave_up(since(final(self).log(), old(self).log()), e)
                    &&& halted_wait_gave_up(since(final(self).log(), old(self).log()), operation, e)
                    &&& final(self).state() == old(self).state()
                },
            },
    {
        let ghost start = self.memory.accesses();
        match self.poll(17, operation) {
            Ok(()) => {},
            Err(e) => {
                proof {
                    let polls = since(self.memory.accesses(), start);
                    if polls.len() == 100 && idle_polls(polls, 0xE000_EDF0, 17) && e == (
                    Error::Timeout { operation }) {
                        assert(polls.subrange(polls.len() - 100, polls.len() as int) =~= polls);
                        assert forall|j: int| 0 <= j < polls.len() implies (
                        #[trigger] polls[j]).failure() is None by {}
                    }
                }
                return Err(e);
            },
        }
        let ghost mid = self.memory.accesses();
        // update halted state
        match self.status() {
            Ok(_) => {},
            Err(e) => {
                proof {
                    let later = since(self.memory.accesses(), mid);
                    assert(later.drop_last() =~= since(self.memory.accesses().drop_last(), mid));
                    assert forall|j: int| 0 <= j < later.drop_last().len() implies (
                    #[trigger] later.drop_last()[j]).failure() is None by {
                        assert(later.drop_last()[j] == self.memory.accesses().drop_last()[mid.len()
                            + j]);
                    }
                    lemma_since_add(start, mid, self.memory.accesses());
                    lemma_gave_up_later(since(mid, start), later, e);
                    let segment = since(self.memory.accesses(), start);
                    let k = mid.len() - start.len();
                    assert(segment.subrange(0, k) =~= since(mid, start));
                    assert(segment.subrange(k, segment.len() as int) =~= later);
                }
                return Err(e);
            },
        }
        proof {
            let log = self.memory.accesses();
            let segment = since(log, start);
            let k = mid.len() - start.len();
            lemma_since_add(start, mid, log);
            lemma_all_succeeded_add(since(mid, start), since(log, mid));
            assert(segment.subrange(0, k) =~= since(mid, start));
            assert(segment.subrange(k, segment.len() as int) =~= since(log, mid));
        }
        Ok(())
    }

    /// Reads the core register `addr`: selects it in DCRSR, waits for the
    /// transfer, and reads its value from DCRDR.
    pub fn read_core_reg(&mut self, addr: CoreRegisterAddress) -> (r: Result<u32, Error>)
        ensures
            final(self).state() == old(self).state(),
            old(self).log().is_prefix_of(final(self).log()),
            match r {
                Ok(value) => register_read(since(final(self).log(), old(self).log()), addr, value)
                    && all_succeeded(since(final(self).log(), old(self).log()), 0),
                Err(e) => gave_up(since(final(self).log(), old(self).log()), e)
                    && register_read_gave_up(since(final(self).log(), old(self).log()), addr, e),
            },
    {
        let ghost start = self.memory.accesses();
        // Write the DCRSR value to select the register we want to read.
        let dcrsr_val = Dcrsr::selecting(addr, false);
        match self.memory.write_word_32(Dcrsr::address(), dcrsr_val.0) {
            Ok(()) => {},
            Err(e) => {
                proof {
                    let segment = since(self.memory.accesses(), start);
                    assert(segment.drop_last() =~= Seq::<MemoryAccess>::empty());
                    assert(segment =~= seq![failed_write(0xE000_EDF4, dcrsr_val.0, e)]);
                }
                return Err(e);
            },
        }
        let ghost log1 = self.memory.accesses();
        proof {
            assert(since(log1, start) =~= seq![
                MemoryAccess::word_write(0xE000_EDF4, dcrsr_val.0),
            ]);
            lemma_one_succeeded(MemoryAccess::word_write(0xE000_EDF4, dcrsr_val.0));
        }
        match self.poll(16, Operation::CoreRegisterTransfer) {
            Ok(()) => {},
            Err(e) => {
                proof {
                    let polls = since(self.memory.accesses(), log1);
                    lemma_poll_gave_up(polls, Operation::CoreRegisterTransfer, e);
                    lemma_since_add(start, log1, self.memory.accesses());
                    lemma_gave_up_later(since(log1, start), polls, e);
                    let segment = since(self.memory.accesses(), start);
                    assert(segment.subrange(1, segment.len() as int) =~= polls);
                    assert(segment[0] == since(log1, start)[0]);
                }
                return Err(e);
            },
        }
        let ghost log2 = self.memory.accesses();
        proof {
            lemma_since_add(start, log1, log2);
            lemma_all_succeeded_add(since(log1, start), since(log2, log1));
        }
        let read = self.memory.read_word_32(Dcrdr::address());
        proof {
            let log = self.memory.accesses();
            let segment = since(log, start);
            assert(segment.drop_last() =~= since(log2, start));
            assert(segment.last() == MemoryAccess::of_word_read(0xE000_EDF8, read));
            assert(segment.subrange(1, segment.len() - 1) =~= since(log2, log1));
            assert(segment[0] == since(log1, start)[0]);
            if read is Ok {
                lemma_one_succeeded(segment.last());
                assert(segment =~= segment.drop_last() + seq![segment.last()]);
                lemma_all_succeeded_add(segment.drop_last(), seq![segment.last()]);
            }
        }
        read
    }

    /// Writes `value` to the core register `addr`: puts the value into
    /// DCRDR, selects the register in DCRSR, and waits for the transfer.
    pub fn write_core_reg(&mut self, addr: CoreRegisterAddress, value: u32) -> (r: Result<
        (),
        Error,
    >)
        ensures
            final(self).state() == old(self).state(),
            old(self).log().is_prefix_of(final(self).log()),
            match r {
                Ok(_) => register_written(
                    since(final(self).log(), old(self).log()),
                    addr,
                    value,
                ) && all_succeeded(since(final(self).log(), old(self).log()), 0),
                Err(e) => gave_up(since(final(self).log(), old(self).log()), e)
                    && register_written_gave_up(
                    since(final(self).log(), old(self).log()),
                    addr,
                    value,
                    e,
                ),
            },
    {
        let ghost start = self.memory.accesses();
        match self.memory.write_word_32(Dcrdr::address(), value) {
            Ok(()) => {},
            Err(e) => {
                proof {
                    let segment = since(self.memory.accesses(), start);
                    assert(segment.drop_last() =~= Seq::<MemoryAccess>::empty());
                    assert(segment =~= seq![failed_write(0xE000_EDF8, value, e)]);
                }
                return Err(e);
            },
        }
        let ghost log1 = self.memory.accesses();
        // write the DCRSR value to select the register we want to write.
        let dcrsr_val = Dcrsr::selecting(addr, true);
        match self.memory.write_word_32(Dcrsr::address(), dcrsr_val.0) {
            Ok(()) => {},
            Err(e) => {
                proof {
                    let segment = since(self.memory.accesses(), start);
                    assert(segment.drop_last() =~= seq![
                        MemoryAccess::word_write(0xE000_EDF8, value),
                    ]);
                    assert(segment =~= seq![
                        MemoryAccess::word_write(0xE000_EDF8, value),
                        failed_write(0xE000_EDF4, dcrsr_val.0, e),
                    ]);
                }
                return Err(e);
            },
        }
        let ghost log2 = self.memory.accesses();
        proof {
            assert(since(log2, start) =~= seq![
                MemoryAccess::word_write(0xE000_EDF8, value),
                MemoryAccess::word_write(0xE000_EDF4, dcrsr_val.0),
            ]);
            assert(all_succeeded(since(log2, start), 0));
        }
        match self.poll(16, Operation::CoreRegisterTransfer) {
            Ok(()) => {},
            Err(e) => {
                proof {
                    let polls = since(self.memory.accesses(), log2);
                    lemma_poll_gave_up(polls, Operation::CoreRegisterTransfer, e);
                    lemma_since_add(start, log2, self.memory.accesses());
                    lemma_gave_up_later(since(log2, start), polls, e);
                    let segment = since(self.memory.accesses(), start);
                    assert(segment.subrange(2, segment.len() as int) =~= polls);
                    assert(segment[0] == since(log2, start)[0]);
                    assert(segment[1] == since(log2, start)[1]);
                }
                return Err(e);
            },
        }
        proof {
            let log = self.memory.accesses();
            let segment = since(log, start);
            lemma_since_add(start, log2, log);
            lemma_all_succeeded_add(since(log2, start), since(log, log2));
            assert(segment.subrange(2, segment.len() as int) =~= since(log, log2));
            assert(segment[0] == since(log2, start)[0]);
            assert(segment[1] == since(log2, start)[1]);
        }
        Ok(())
    }

    /// Writes `request` to DHCSR, waits for the core to halt, and reads
    /// the program counter.
    #[verifier::rlimit(50)]
    fn request_halt(&mut self, request: Dhcsr, operation: Operation) -> (r: Result<
        CoreInformation,
        Error,
    >)
        requires
            operation != Operation::CoreRegisterTransfer,
        ensures
            old(self).log().is_prefix_of(final(self).log()),
            final(self).state() == (CortexState {
                current_state: final(self).state().current_state,
                ..old(self).state()
            }),
            match r {
                Ok(information) => halted_after(
                    since(final(self).log(), old(self).log()),
                    request,
                    old(self).state().current_state,
                    final(self).state().current_state,
                    information.pc,
                ),
                Err(e) => gave_up(since(final(self).log(), old(self).log()), e)
                    && halted_after_gave_up(
                    since(final(self).log(), old(self).log()),
                    request,
                    operation,
                    old(self).state().current_state,
                    final(self).state().current_state,
                    e,
                ),
            },
    {
        let ghost start = self.memory.accesses();
        let ghost previous = self.state.current_state;
        match self.memory.write_word_32(Dhcsr::address(), request.0) {
            Ok(()) => {},
            Err(e) => {
                proof {
                    let segment = since(self.memory.accesses(), start);
                    assert(segment.drop_last() =~= Seq::<MemoryAccess>::empty());
                    assert(segment =~= seq![failed_write(0xE000_EDF0, request.0, e)]);
                }
                return Err(e);
            },
        }
        let ghost log1 = self.memory.accesses();
        proof {
            assert(since(log1, start) =~= seq![MemoryAccess::word_write(0xE000_EDF0, request.0)]);
            lemma_one_succeeded(MemoryAccess::word_write(0xE000_EDF0, request.0));
        }
        match self.wait_for_core_halted(operation) {
            Ok(()) => {},
            Err(e) => {
                proof {
                    lemma_since_add(start, log1, self.memory.accesses());
                    lemma_gave_up_later(
                        since(log1, start),
                        since(self.memory.accesses(), log1),
                        e,
                    );
                    let segment = since(self.memory.accesses(), start);
                    assert(segment.subrange(1, segment.len() as int) =~= since(
                        self.memory.accesses(),
                        log1,
                    ));
                    assert(segment[0] == since(log1, start)[0]);
                }
                return Err(e);
            },
        }
        let ghost log2 = self.memory.accesses();
        proof {
            lemma_since_add(start, log1, log2);
            lemma_all_succeeded_add(since(log1, start), since(log2, log1));
        }
        // try to read the program counter
        let pc_value = match self.read_core_reg(CoreRegisterAddress(PC)) {
            Ok(value) => value,
            Err(e) => {
                proof {
                    lemma_since_add(start, log2, self.memory.accesses());
                    lemma_gave_up_later(
                        since(log2, start),
                        since(self.memory.accesses(), log2),
                        e,
                    );
                    let log = self.memory.accesses();
                    let segment = since(log, start);
                    let k = log2.len() - start.len();
                    lemma_stretch(start, log1, log2, log);
                    lemma_stretch(start, log2, log, log);
                    lemma_stretch(start, start, log1, log);
                    assert(segment[0] == segment.subrange(0, 1)[0]);
                    assert(segment.subrange(1, k) == since(log2, log1));
                    assert(segment.subrange(k, segment.len() as int) == since(log, log2));
                    assert(halted_wait(segment.subrange(1, k), previous, self.state.current_state));
                }
                return Err(e);
            },
        };
        proof {
            let log = self.memory.accesses();
            let segment = since(log, start);
            let k = log2.len() - start.len();
            lemma_stretch(start, log1, log2, log);
            lemma_stretch(start, log2, log, log);
            lemma_stretch(start, start, log1, log);
            assert(segment[0] == segment.subrange(0, 1)[0]);
            assert(segment.subrange(1, k) == since(log2, log1));
            assert(segment.subrange(k, segment.len() as int) == since(log, log2));
            assert(halted_wait(segment.subrange(1, k), previous, self.state.current_state));
        }
        Ok(CoreInformation { pc: pc_value })
    }

    /// Halts the core and reads the program counter.
    pub fn halt(&mut self) -> (r: Result<CoreInformation, Error>)
        ensures
            old(self).log().is_prefix_of(final(self).log()),
            final(self).state() == (CortexState {
                current_state: final(self).state().current_state,
                ..old(self).state()
            }),
            match r {
                Ok(information) => halted_after(
                    since(final(self).log(), old(self).log()),
                    Dhcsr::halting(),
                    old(self).state().current_state,
                    final(self).state().current_state,
                    information.pc,
                ),
                Err(e) => gave_up(since(final(self).log(), old(self).log()), e)
                    && halted_after_gave_up(
                    since(final(self).log(), old(self).log()),
                    Dhcsr::halting(),
                    Operation::Halt,
                    old(self).state().current_state,
                    final(self).state().current_state,
                    e,
                ),
            },
    {
        let mut value = Dhcsr(0);
        value.set_c_halt(true);
        value.set_c_debugen(true);
        value.enable_write();
        self.request_halt(value, Operation::Halt)
    }

    /// Lets the core run. The core is taken to be running from then on;
    /// the next look at its status tells.
    pub fn run(&mut self) -> (r: Result<(), Error>)
        ensures
            final(self).log() == old(self).log().push(
                MemoryAccess::of_words_written(0xE000_EDF0, seq![Dhcsr::running().0], r),
            ),
            final(self).state() == if r is Ok {
                CortexState { current_state: CoreStatus::Running, ..old(self).state() }
            } else {
                old(self).state()
            },
    {
        let mut value = Dhcsr(0);
        value.set_c_halt(false);
        value.set_c_debugen(true);
        value.enable_write();
        match self.memory.write_word_32(Dhcsr::address(), value.0) {
            Ok(()) => {
                // The core is taken to be running from here on.
                self.state.current_state = CoreStatus::Running;
                Ok(())
            },
            Err(e) => Err(e),
        }
    }

    /// Lets the core execute one instruction with interrupts masked, waits
    /// for it to halt again, and reads the program counter.
    pub fn step(&mut self) -> (r: Result<CoreInformation, Error>)
        ensures
            old(self).log().is_prefix_of(final(self).log()),
            final(self).state() == (CortexState {
                current_state: final(self).state().current_state,
                ..old(self).state()
            }),
            match r {
                Ok(information) => halted_after(
                    since(final(self).log(), old(self).log()),
                    Dhcsr::stepping(),
                    old(self).state().current_state,
                    final(self).state().current_state,
                    information.pc,
                ),
                Err(e) => gave_up(since(final(self).log(), old(self).log()), e)
                    && halted_after_gave_up(
                    since(final(self).log(), old(self).log()),
                    Dhcsr::stepping(),
                    Operation::Step,
                    old(self).state().current_state,
                    final(self).state().current_state,
                    e,
                ),
            },
    {
        let mut value = Dhcsr(0);
        // Leave halted state.
        // Step one instruction.
        value.set_c_step(true);
        value.set_c_halt(false);
        value.set_c_debugen(true);
        value.set_c_maskints(true);
        value.enable_write();
        self.request_halt(value, Operation::Step)
    }

    /// Requests a reset of the system. What the core does after it is not
    /// known until the next look at its status.
    pub fn reset(&mut self) -> (r: Result<(), Error>)
        ensures
            final(self).log() == old(self).log().push(
                MemoryAccess::of_words_written(0xE000_ED0C, seq![Aircr::reset_request().0], r),
            ),
            final(self).state() == if r is Ok {
                CortexState { current_state: CoreStatus::Unknown, ..old(self).state() }
            } else {
                old(self).state()
            },
    {
        // Set THE AIRCR.SYSRESETREQ control bit to 1 to request a reset. (ARM V6 ARM, B1.5.16)
        let mut value = Aircr(0);
        value.vectkey();
        value.set_sysresetreq(true);
        match self.memory.write_word_32(Aircr::address(), value.0) {
            Ok(()) => {
                self.state.current_state = CoreStatus::Unknown;
                Ok(())
            },
            Err(e) => Err(e),
        }
    }

    /// Reads the word at `address`.
    fn load(&mut self, address: u32) -> (r: Result<u32, Error>)
        ensures
            final(self).state() == old(self).state(),
            old(self).log().is_prefix_of(final(self).log()),
            match r {
                Ok(value) => since(final(self).log(), old(self).log()) == seq![
                    MemoryAccess::word_read(address, value),
                ] && all_succeeded(since(final(self).log(), old(self).log()), 0),
                Err(e) => gave_up(since(final(self).log(), old(self).log()), e) && since(
                    final(self).log(),
                    old(self).log(),
                ) == seq![MemoryAccess::of_word_read(address, Err(e))],
            },
    {
        let ghost start = self.memory.accesses();
        let r = self.memory.read_word_32(address);
        proof {
            let segment = since(self.memory.accesses(), start);
            assert(segment =~= seq![MemoryAccess::of_word_read(address, r)]);
            assert(segment.drop_last() =~= Seq::<MemoryAccess>::empty());
        }
        r
    }

    /// Writes the word `value` to `address`.
    fn store(&mut self, address: u32, value: u32) -> (r: Result<(), Error>)
        ensures
            final(self).state() == old(self).state(),
            old(self).log().is_prefix_of(final(self).log()),
            match r {
                Ok(_) => since(final(self).log(), old(self).log()) == seq![
                    MemoryAccess::word_write(address, value),
                ] && all_succeeded(since(final(self).log(), old(self).log()), 0),
                Err(e) => gave_up(since(final(self).log(), old(self).log()), e) && since(
                    final(self).log(),
                    old(self).log(),
                ) == seq![failed_write(address, value, e)],
            },
    {
        let ghost start = self.memory.accesses();
        let r = self.memory.write_word_32(address, value);
        proof {
            let segment = since(self.memory.accesses(), start);
            assert(segment =~= seq![MemoryAccess::of_words_written(address, seq![value], r)]);
            assert(segment.drop_last() =~= Seq::<MemoryAccess>::empty());
        }
        r
    }

    /// Begins a reset that is to be caught on the reset vector: enables
    /// debugging and the reset vector catch where they are not enabled, and
    /// requests the reset. Returns what DEMCR held before.
    #[verifier::rlimit(50)]
    fn arm_reset(&mut self) -> (r: Result<Demcr, Error>)
        ensures
            old(self).log().is_prefix_of(final(self).log()),
            ({
                let segment = since(final(self).log(), old(self).log());
                match r {
                    Ok(demcr) => {
                        &&& reset_armed(segment)
                        &&& segment.len() == request_position(segment) + 1
                        &&& segment.last() == MemoryAccess::word_write(
                            0xE000_ED0C,
                            Aircr::reset_request().0,
                        )
                        &&& demcr == caught_demcr(segment)
                        &&& all_succeeded(segment, 0)
                        &&& final(self).state() == (CortexState {
                            current_state: CoreStatus::Unknown,
                            ..old(self).state()
                        })
                    },
                    Err(e) => {
                        &&& gave_up(segment, e)
                        &&& segment.len() <= request_position(segment) + 1
                        &&& reset_gave_up(
                            segment,
                            old(self).state().current_state,
                            old(self).state().current_state,
                            e,
                        )
                        &&& final(self).state() == old(self).state()
                    },
                }
            }),
    {
        let ghost start = self.memory.accesses();
        let ghost n = start.len() as int;
        proof {
            assert(since(start, start) =~= Seq::<MemoryAccess>::empty());
        }
        // Ensure debug mode is enabled
        let dhcsr_val = match self.load(Dhcsr::address()) {
            Ok(value) => Dhcsr(value),
            Err(e) => {
                return Err(e);
            },
        };
        let ghost log1 = self.memory.accesses();
        if !dhcsr_val.c_debugen() {
            let mut dhcsr = Dhcsr(0);
            dhcsr.set_c_debugen(true);
            dhcsr.enable_write();
            match self.store(Dhcsr::address(), dhcsr.0) {
                Ok(()) => {},
                Err(e) => {
                    proof {
                        lemma_chain_gave_up(start, log1, self.memory.accesses(), e);
                        assert(since(self.memory.accesses(), start) =~= since(log1, start) + since(
                            self.memory.accesses(),
                            log1,
                        ));
                        assert(since(self.memory.accesses(), start) =~= seq![
                            MemoryAccess::word_read(0xE000_EDF0, dhcsr_val.0),
                            failed_write(0xE000_EDF0, Dhcsr::enabling().0, e),
                        ]);
                    }
                    return Err(e);
                },
            }
            proof {
                lemma_chain(start, log1, self.memory.accesses());
                assert(since(self.memory.accesses(), log1).len() == 1);
            }
        }
        let ghost log2 = self.memory.accesses();
        let ghost a = log2.len() - n;
        let ghost p2 = since(log2, start);
        proof {
            assert(since(log1, start).len() == 1);
            assert(a == if dhcsr_val.spec_c_debugen() { 1int } else { 2int });
            assert(p2 =~= since(log1, start) + since(log2, log1));
            assert(p2[0] == MemoryAccess::word_read(0xE000_EDF0, dhcsr_val.0));
            assert(!dhcsr_val.spec_c_debugen() ==> p2[1] == MemoryAccess::word_write(
                0xE000_EDF0,
                Dhcsr::enabling().0,
            ));
        }

        // Set the vc_corereset bit in the DEMCR register.
        // This will halt the core after reset.
        let demcr_val = match self.load(Demcr::address()) {
            Ok(value) => Demcr(value),
            Err(e) => {
                proof {
                    lemma_chain_gave_up(start, log2, self.memory.accesses(), e);
                    let segment = since(self.memory.accesses(), start);
                    assert(segment =~= p2 + since(self.memory.accesses(), log2));
                    assert(segment[0] == p2[0]);
                    assert(segment[a] == MemoryAccess::of_word_read(0xE000_EDFC, Err(e)));
                    if !dhcsr_val.spec_c_debugen() {
                        assert(segment[1] == p2[1]);
                    }
                }
                return Err(e);
            },
        };
        let ghost log3 = self.memory.accesses();
        let ghost p3 = since(log3, start);
        proof {
            lemma_chain(start, log2, log3);
            assert(p3 =~= p2 + since(log3, log2));
            assert(p3 =~= p2.push(MemoryAccess::word_read(0xE000_EDFC, demcr_val.0)));
        }
        if !demcr_val.vc_corereset() {
            let mut demcr_enabled = demcr_val;
            demcr_enabled.set_vc_corereset(true);
            match self.store(Demcr::address(), demcr_enabled.0) {
                Ok(()) => {},
                Err(e) => {
                    proof {
                        lemma_chain_gave_up(start, log3, self.memory.accesses(), e);
                        let segment = since(self.memory.accesses(), start);
                        assert(segment =~= p3 + since(self.memory.accesses(), log3));
                        assert(segment[0] == p2[0]);
                        assert(segment[a] == p3[a]);
                        assert(segment[a + 1] == failed_write(
                            0xE000_EDFC,
                            with_bit(demcr_val.0, 0, true),
                            e,
                        ));
                        if !dhcsr_val.spec_c_debugen() {
                            assert(segment[1] == p2[1]);
                        }
                    }
                    return Err(e);
                },
            }
            proof {
                lemma_chain(start, log3, self.memory.accesses());
                assert(since(self.memory.accesses(), log3).len() == 1);
            }
        }
        let ghost log4 = self.memory.accesses();
        let ghost b = log4.len() - n;
        let ghost p4 = since(log4, start);
        proof {
            assert(since(log3, log2).len() == 1);
            assert(b == if demcr_val.spec_vc_corereset() { a + 1 } else { a + 2 });
            assert(p4 =~= p3 + since(log4, log3));
            assert(p4[0] == p2[0]);
            assert(p4[a] == p3[a]);
            if !dhcsr_val.spec_c_debugen() {
                assert(p4[1] == p2[1]);
            }
            assert(reset_armed(p4));
        }

        match self.reset() {
            Ok(()) => {},
            Err(e) => {
                proof {
                    let log = self.memory.accesses();
                    assert(since(log, log4).drop_last() =~= Seq::<MemoryAccess>::empty());
                    lemma_chain_gave_up(start, log4, log, e);
                    let segment = since(log, start);
                    assert(segment =~= p4.push(
                        failed_write(0xE000_ED0C, Aircr::reset_request().0, e),
                    ));
                    lemma_reset_armed(p4, segment);
                }
                return Err(e);
            },
        }
        proof {
            let log5 = self.memory.accesses();
            assert(since(log5, log4) =~= seq![
                MemoryAccess::word_write(0xE000_ED0C, Aircr::reset_request().0),
            ]);
            lemma_chain(start, log4, log5);
            let p5 = since(log5, start);
            assert(p5 =~= p4.push(
                MemoryAccess::word_write(0xE000_ED0C, Aircr::reset_request().0),
            ));
            lemma_reset_armed(p4, p5);
        }
        Ok(demcr_val)
    }

    /// Resets the system and halts the core on the reset vector: enables
    /// debugging and the reset vector catch where they are not enabled,
    /// requests the reset, waits for the core to halt, sets the Thumb bit of
    /// the program status register where the reset left it clear, restores
    /// DEMCR, and reads the program counter.
    #[verifier::rlimit(100)]
    pub fn reset_and_halt(&mut self) -> (r: Result<CoreInformation, Error>)
        ensures
            old(self).log().is_prefix_of(final(self).log()),
            final(self).state() == (CortexState {
                current_state: final(self).state().current_state,
                ..old(self).state()
            }),
            match r {
                Ok(information) => reset_halted(
                    since(final(self).log(), old(self).log()),
                    final(self).state().current_state,
                    information.pc,
                ),
                Err(e) => gave_up(since(final(self).log(), old(self).log()), e) && reset_gave_up(
                    since(final(self).log(), old(self).log()),
                    old(self).state().current_state,
                    final(self).state().current_state,
                    e,
                ),
            },
    {
        let ghost start = self.memory.accesses();
        let ghost previous = self.state.current_state;
        let ghost none = Seq::<MemoryAccess>::empty();
        let demcr_val = match self.arm_reset() {
            Ok(value) => value,
            Err(e) => {
                return Err(e);
            },
        };
        let ghost log5 = self.memory.accesses();
        let ghost armed = since(log5, start);
        match self.wait_for_core_halted(Operation::ResetAndHalt) {
            Ok(()) => {},
            Err(e) => {
                proof {
                    let log = self.memory.accesses();
                    lemma_chain_gave_up(start, log5, log, e);
                    lemma_since_add(start, log5, log);
                    lemma_reset_wait_gave_up(armed, since(log, log5), previous, e);
                }
                return Err(e);
            },
        }
        let ghost log6 = self.memory.accesses();
        let ghost wait = since(log6, log5);
        let ghost status = self.state.current_state;
        proof {
            lemma_chain(start, log5, log6);
            lemma_since_add(start, log5, log6);
        }
        let xpsr_value = match self.read_core_reg(CoreRegisterAddress(XPSR)) {
            Ok(value) => value,
            Err(e) => {
                proof {
                    let log = self.memory.accesses();
                    lemma_chain_gave_up(start, log6, log, e);
                    lemma_since_add(start, log6, log);
                    let rest = since(log, log6);
                    assert(since(log, start) =~= armed + wait + none + none + rest);
                    lemma_reset_finish_gave_up(
                        armed,
                        wait,
                        none,
                        none,
                        rest,
                        demcr_val,
                        previous,
                        status,
                        e,
                    );
                }
                return Err(e);
            },
        };
        let ghost log7 = self.memory.accesses();
        let ghost read = since(log7, log6);
        proof {
            lemma_chain(start, log6, log7);
            lemma_since_add(start, log6, log7);
            assert(read.last().word() == xpsr_value);
        }
        if !get_bit(xpsr_value, 24) {
            match self.write_core_reg(CoreRegisterAddress(XPSR), set_bit(xpsr_value, 24, true)) {
                Ok(()) => {},
                Err(e) => {
                    proof {
                        let log = self.memory.accesses();
                        lemma_chain_gave_up(start, log7, log, e);
                        lemma_since_add(start, log7, log);
                        let rest = since(log, log7);
                        assert(since(log, start) =~= armed + wait + read + none + rest);
                        lemma_reset_finish_gave_up(
                            armed,
                            wait,
                            read,
                            none,
                            rest,
                            demcr_val,
                            previous,
                            status,
                            e,
                        );
                    }
                    return Err(e);
                },
            }
            proof {
                lemma_chain(start, log7, self.memory.accesses());
            }
        }
        let ghost log8 = self.memory.accesses();
        let ghost written = since(log8, log7);
        proof {
            lemma_since_add(start, log7, log8);
            assert(written =~= since(log8, log7));
            if bit(xpsr_value, 24) {
                assert(written =~= none);
            }
        }
        match self.store(Demcr::address(), demcr_val.0) {
            Ok(()) => {},
            Err(e) => {
                proof {
                    let log = self.memory.accesses();
                    lemma_chain_gave_up(start, log8, log, e);
                    lemma_since_add(start, log8, log);
                    let rest = since(log, log8);
                    assert(since(log, start) =~= armed + wait + read + written + rest);
                    lemma_reset_finish_gave_up(
                        armed,
                        wait,
                        read,
                        written,
                        rest,
                        demcr_val,
                        previous,
                        status,
                        e,
                    );
                }
                return Err(e);
            },
        }
        let ghost log9 = self.memory.accesses();
        proof {
            lemma_chain(start, log8, log9);
            lemma_since_add(start, log8, log9);
        }
        // try to read the program counter
        let pc = self.read_core_reg(CoreRegisterAddress(PC));
        proof {
            let log = self.memory.accesses();
            lemma_since_add(log8, log9, log);
            lemma_since_add(start, log8, log);
            let rest = since(log, log8);
            assert(rest =~= since(log9, log8) + since(log, log9));
            assert(rest[0] == MemoryAccess::word_write(0xE000_EDFC, demcr_val.0));
            assert(rest.subrange(1, rest.len() as int) =~= since(log, log9));
            assert(since(log, start) =~= armed + wait + read + written + rest);
            match pc {
                Ok(value) => {
                    lemma_reset_halted(armed, wait, read, written, rest, demcr_val, status, value);
                },
                Err(e) => {
                    lemma_chain_gave_up(start, log9, log, e);
                    lemma_reset_finish_gave_up(
                        armed,
                        wait,
                        read,
                        written,
                        rest,
                        demcr_val,
                        previous,
                        status,
                        e,
                    );
                },
            }
        }
        match pc {
            Ok(value) => Ok(CoreInformation { pc: value }),
            Err(e) => Err(e),
        }
    }

    /// Reads FP_CTRL and returns the number of instruction comparators of
    /// the breakpoint unit, which is remembered together with the revision
    /// of the unit. A unit of a revision after the second is not supported.
    pub fn get_available_breakpoint_units(&mut self) -> (r: Result<u32, Error>)
        ensures
            ({
                let ctrl = FpCtrl(final(self).log().last().word());
                match r {
                    Ok(units) => {
                        &&& final(self).log() == old(self).log().push(
                            MemoryAccess::word_read(0xE000_2000, ctrl.0),
                        )
                        &&& ctrl.spec_rev() <= 1
                        &&& units == ctrl.spec_num_code()
                        &&& final(self).state() == (CortexState {
                            fpb_revision: ctrl.spec_rev(),
                            fpb_num_code: units,
                            ..old(self).state()
                        })
                    },
                    Err(e) => {
                        &&& final(self).state() == old(self).state()
                        &&& {
                            ||| final(self).log() == old(self).log().push(
                                MemoryAccess::of_word_read(0xE000_2000, Err(e)),
                            )
                            ||| {
                                &&& final(self).log() == old(self).log().push(
                                    MemoryAccess::word_read(0xE000_2000, ctrl.0),
                                )
                                &&& ctrl.spec_rev() > 1
                                &&& e == (Error::UnsupportedFpb { revision: ctrl.spec_rev() })
                            }
                        }
                    },
                }
            }),
    {
        let raw_val = match self.memory.read_word_32(FpCtrl::address()) {
            Ok(value) => value,
            Err(e) => {
                return Err(e);
            },
        };
        let reg = FpCtrl(raw_val);
        if reg.rev() == 0 || reg.rev() == 1 {
            let units = reg.num_code();
            self.state.fpb_revision = reg.rev();
            self.state.fpb_num_code = units;
            Ok(units)
        } else {
            Err(Error::UnsupportedFpb { revision: reg.rev() })
        }
    }

    /// Switches the breakpoint unit on or off, and remembers that it was
    /// set up.
    pub fn enable_breakpoints(&mut self, state: bool) -> (r: Result<(), Error>)
        ensures
            final(self).log() == old(self).log().push(
                MemoryAccess::of_words_written(0xE000_2000, seq![FpCtrl::enabling(state).0], r),
            ),
            final(self).state() == if r is Ok {
                CortexState { hw_breakpoints_enabled: true, ..old(self).state() }
            } else {
                old(self).state()
            },
    {
        let mut val = FpCtrl(0);
        val.set_key(true);
        val.set_enable(state);
        match self.memory.write_word_32(FpCtrl::address(), val.0) {
            Ok(()) => {
                self.state.hw_breakpoints_enabled = true;
                Ok(())
            },
            Err(e) => Err(e),
        }
    }

    /// Sets breakpoint unit `bp_unit_index` to the address `addr`, in the
    /// encoding of the revision that FP_CTRL shows.
    pub fn set_breakpoint(&mut self, bp_unit_index: usize, addr: u32) -> (r: Result<(), Error>)
        ensures
            final(self).state() == old(self).state(),
            old(self).log().is_prefix_of(final(self).log()),
            ({
                let segment = since(final(self).log(), old(self).log());
                let ctrl = FpCtrl(segment[0].word());
                let value = spec_breakpoint_value(ctrl, addr);
                let comparator = spec_comparator_address(bp_unit_index);
                match r {
                    Ok(_) => {
                        &&& value is Ok
                        &&& comparator is Some
                        &&& segment == seq![
                            MemoryAccess::word_read(0xE000_2000, ctrl.0),
                            MemoryAccess::word_write(comparator->Some_0, value->Ok_0),
                        ]
                    },
                    Err(e) => {
                        ||| segment == seq![MemoryAccess::of_word_read(0xE000_2000, Err(e))]
                        ||| {
                            &&& value is Ok
                            &&& comparator is Some
                            &&& segment == seq![
                                MemoryAccess::word_read(0xE000_2000, ctrl.0),
                                failed_write(comparator->Some_0, value->Ok_0, e),
                            ]
                        }
                        ||| {
                            &&& segment == seq![MemoryAccess::word_read(0xE000_2000, ctrl.0)]
                            &&& match value {
                                Err(refusal) => e == refusal,
                                Ok(_) => comparator is None && e == Error::OutOfBounds,
                            }
                        }
                    },
                }
            }),
    {
        let ghost start = self.memory.accesses();
        let raw_val = match self.memory.read_word_32(FpCtrl::address()) {
            Ok(value) => value,
            Err(e) => {
                proof {
                    assert(since(self.memory.accesses(), start) =~= seq![
                        MemoryAccess::of_word_read(0xE000_2000, Err(e)),
                    ]);
                }
                return Err(e);
            },
        };
        let ctrl_reg = FpCtrl(raw_val);
        let ghost log1 = self.memory.accesses();
        proof {
            assert(since(log1, start) =~= seq![MemoryAccess::word_read(0xE000_2000, raw_val)]);
        }
        let val = match breakpoint_value(ctrl_reg, addr) {
            Ok(value) => value,
            Err(e) => {
                return Err(e);
            },
        };
        // Both revisions keep their comparators at the same addresses.
        let reg_addr = match comparator_address(bp_unit_index) {
            Some(address) => address,
            None => {
                return Err(Error::OutOfBounds);
            },
        };
        match self.memory.write_word_32(reg_addr, val) {
            Ok(()) => {},
            Err(e) => {
                proof {
                    assert(since(self.memory.accesses(), start) =~= seq![
                        MemoryAccess::word_read(0xE000_2000, raw_val),
                        failed_write(reg_addr, val, e),
                    ]);
                }
                return Err(e);
            },
        }
        proof {
            assert(since(self.memory.accesses(), start) =~= seq![
                MemoryAccess::word_read(0xE000_2000, raw_val),
                MemoryAccess::word_write(reg_addr, val),
            ]);
        }
        Ok(())
    }

    /// The selectors of the registers that every debugger needs.
    pub fn registers(&self) -> (file: RegisterFile)
        ensures
            file == (RegisterFile {
                program_counter: CoreRegisterAddress(15),
                stack_pointer: CoreRegisterAddress(13),
                return_address: CoreRegisterAddress(14),
                status: CoreRegisterAddress(16),
            }),
    {
        RegisterFile {
            program_counter: CoreRegisterAddress(15),
            stack_pointer: CoreRegisterAddress(13),
            return_address: CoreRegisterAddress(14),
            status: CoreRegisterAddress(16),
        }
    }

    /// Clears breakpoint unit `bp_unit_index`.
    pub fn clear_breakpoint(&mut self, bp_unit_index: usize) -> (r: Result<(), Error>)
        ensures
            final(self).state() == old(self).state(),
            match spec_comparator_address(bp_unit_index) {
                Some(comparator) => final(self).log() == old(self).log().push(
                    MemoryAccess::of_words_written(comparator, seq![0u32], r),
                ),
                None => final(self).log() == old(self).log() && r == Err::<(), Error>(
                    Error::OutOfBounds,
                ),
            },
    {
        let reg_addr = match comparator_address(bp_unit_index) {
            Some(address) => address,
            None => {
                return Err(Error::OutOfBounds);
            },
        };
        self.memory.write_word_32(reg_addr, 0)
    }

    /// Whether the breakpoint unit was set up.
    pub fn hw_breakpoints_enabled(&self) -> (enabled: bool)
        ensures
            enabled == self.state().hw_breakpoints_enabled,
    {
        self.state.hw_breakpoints_enabled
    }

    /// The architecture of the core.
    pub fn architecture(&self) -> (architecture: Architecture)
        ensures
            architecture == Architecture::Arm,
    {
        Architecture::Arm
    }
}

/// A segment that begins with the accesses up to the request for a reset
/// begins as a reset does.
proof fn lemma_reset_armed(armed: Seq<MemoryAccess>, segment: Seq<MemoryAccess>)
    requires
        reset_armed(armed),
        armed.is_prefix_of(segment),
    ensures
        reset_armed(segment),
{
    assert(forall|i: int| 0 <= i < armed.len() ==> segment[i] == armed[i]);
}

/// Whether `armed` are the accesses of a reset up to and with the request
/// for it, which found `demcr` in DEMCR.
pub open spec fn reset_requested(armed: Seq<MemoryAccess>, demcr: Demcr) -> bool {
    &&& reset_armed(armed)
    &&& armed.len() == request_position(armed) + 1
    &&& armed.last() == MemoryAccess::word_write(0xE000_ED0C, Aircr::reset_request().0)
    &&& demcr == caught_demcr(armed)
}

/// A reset whose wait for the core to halt gave up gave up as a whole, with
/// the status unknown.
proof fn lemma_reset_wait_gave_up(
    armed: Seq<MemoryAccess>,
    rest: Seq<MemoryAccess>,
    previous: CoreStatus,
    error: Error,
)
    requires
        reset_requested(armed, caught_demcr(armed)),
        halted_wait_gave_up(rest, Operation::ResetAndHalt, error),
    ensures
        reset_gave_up(armed + rest, previous, CoreStatus::Unknown, error),
{
    let segment = armed + rest;
    let b = request_position(armed);
    assert(armed.is_prefix_of(segment)) by {
        assert(armed =~= segment.subrange(0, armed.len() as int));
    }
    lemma_reset_armed(armed, segment);
    assert(segment[0] == armed[0]);
    assert(segment[1] == armed[1]);
    assert(segment[2] == armed[2]);
    assert(segment[b] == armed[b]);
    assert(stretch(segment, b + 1, segment.len() as int) =~= rest);
}

/// Whether the accesses `read`, `written` and `rest`, which follow the halt
/// of a core after a reset, gave up with `error`: `read` is the transfer of
/// the program status register, `written` the transfer that sets its Thumb
/// bit where that was clear, and `rest` begins with the write of `demcr` to
/// DEMCR. The first of these that fails is in `rest`, and nothing comes
/// before it that was not reached.
pub open spec fn finish_gave_up_in(
    read: Seq<MemoryAccess>,
    written: Seq<MemoryAccess>,
    rest: Seq<MemoryAccess>,
    demcr: Demcr,
    error: Error,
) -> bool {
    let xpsr = read.last().word();
    ||| {
        &&& read.len() == 0
        &&& written.len() == 0
        &&& register_read_gave_up(rest, CoreRegisterAddress(16), error)
    }
    ||| {
        &&& register_read(read, CoreRegisterAddress(16), xpsr)
        &&& {
            ||| {
                &&& written.len() == 0
                &&& !bit(xpsr, 24)
                &&& register_written_gave_up(
                    rest,
                    CoreRegisterAddress(16),
                    with_bit(xpsr, 24, true),
                    error,
                )
            }
            ||| {
                &&& if bit(xpsr, 24) {
                    written.len() == 0
                } else {
                    register_written(written, CoreRegisterAddress(16), with_bit(xpsr, 24, true))
                }
                &&& rest.len() >= 1
                &&& {
                    ||| rest == seq![failed_write(0xE000_EDFC, demcr.0, error)]
                    ||| {
                        &&& rest[0] == MemoryAccess::word_write(0xE000_EDFC, demcr.0)
                        &&& register_read_gave_up(
                            rest.subrange(1, rest.len() as int),
                            CoreRegisterAddress(15),
                            error,
                        )
                    }
                }
            }
        }
    }
}

/// A reset that gave up after the core had halted gave up as a whole.
#[verifier::rlimit(50)]
proof fn lemma_reset_finish_gave_up(
    armed: Seq<MemoryAccess>,
    wait: Seq<MemoryAccess>,
    read: Seq<MemoryAccess>,
    written: Seq<MemoryAccess>,
    rest: Seq<MemoryAccess>,
    demcr: Demcr,
    previous: CoreStatus,
    status: CoreStatus,
    error: Error,
)
    requires
        reset_requested(armed, demcr),
        halted_wait(wait, CoreStatus::Unknown, status),
        finish_gave_up_in(read, written, rest, demcr, error),
    ensures
        reset_gave_up(armed + wait + read + written + rest, previous, status, error),
{
    let segment = armed + wait + read + written + rest;
    let n = segment.len() as int;
    let b = request_position(armed);
    let c = (armed.len() + wait.len()) as int;
    let d = c + read.len();
    let e = d + written.len();
    assert(armed.is_prefix_of(segment)) by {
        assert(armed =~= segment.subrange(0, armed.len() as int));
    }
    lemma_reset_armed(armed, segment);
    assert(segment[0] == armed[0]);
    assert(segment[1] == armed[1]);
    assert(segment[2] == armed[2]);
    assert(segment[b] == armed[b]);
    assert(stretch(segment, b + 1, c) =~= wait);
    assert(stretch(segment, c, d) =~= read);
    assert(stretch(segment, d, e) =~= written);
    assert(stretch(segment, e, n) =~= rest);
    assert(stretch(segment, c, n) =~= read + written + rest);
    assert(stretch(segment, d, n) =~= written + rest);
    if read.len() == 0 {
        assert(read + written + rest =~= rest);
        assert(reset_finish_gave_up(segment, c, c, c, demcr, error));
        assert(halted_wait(stretch(segment, b + 1, c), CoreStatus::Unknown, status));
    } else {
        assert(segment[d - 1] == read.last());
        if written.len() == 0 {
            assert(written + rest =~= rest);
        }
        if rest.len() >= 1 {
            assert(segment[e] == rest[0]);
            assert(stretch(segment, e + 1, n) =~= rest.subrange(1, rest.len() as int));
        }
        assert(reset_finish_gave_up(segment, c, d, e, demcr, error));
    }
}

/// A reset all of whose parts succeeded is a reset that was caught on the
/// reset vector.
#[verifier::rlimit(50)]
proof fn lemma_reset_halted(
    armed: Seq<MemoryAccess>,
    wait: Seq<MemoryAccess>,
    read: Seq<MemoryAccess>,
    written: Seq<MemoryAccess>,
    rest: Seq<MemoryAccess>,
    demcr: Demcr,
    status: CoreStatus,
    pc: u32,
)
    requires
        reset_requested(armed, demcr),
        halted_wait(wait, CoreStatus::Unknown, status),
        register_read(read, CoreRegisterAddress(16), read.last().word()),
        if bit(read.last().word(), 24) {
            written.len() == 0
        } else {
            register_written(
                written,
                CoreRegisterAddress(16),
                with_bit(read.last().word(), 24, true),
            )
        },
        rest.len() >= 1,
        rest[0] == MemoryAccess::word_write(0xE000_EDFC, demcr.0),
        register_read(rest.subrange(1, rest.len() as int), CoreRegisterAddress(15), pc),
    ensures
        reset_halted(armed + wait + read + written + rest, status, pc),
{
    let segment = armed + wait + read + written + rest;
    let n = segment.len() as int;
    let b = request_position(armed);
    let c = (armed.len() + wait.len()) as int;
    let d = c + read.len();
    let e = d + written.len();
    assert(armed.is_prefix_of(segment)) by {
        assert(armed =~= segment.subrange(0, armed.len() as int));
    }
    lemma_reset_armed(armed, segment);
    assert(segment[0] == armed[0]);
    assert(segment[1] == armed[1]);
    assert(segment[2] == armed[2]);
    assert(segment[b] == armed[b]);
    assert(stretch(segment, b + 1, c) =~= wait);
    assert(stretch(segment, c, d) =~= read);
    assert(stretch(segment, d, e) =~= written);
    assert(segment[d - 1] == read.last());
    assert(segment[e] == rest[0]);
    assert(stretch(segment, e + 1, n) =~= rest.subrange(1, rest.len() as int));
}

/// A wait that failed gave up: with the error of its last read, or with a
/// time-out after 100 idle reads.
proof fn lemma_poll_gave_up(polls: Seq<MemoryAccess>, operation: Operation, error: Error)
    requires
        failed_polls(
            polls,
            0xE000_EDF0,
            operation.awaited_bit(),
            Error::Timeout { operation },
            error,
        ),
        all_succeeded(polls.drop_last(), 0),
    ensures
        gave_up(polls, error),
{
    if polls.len() == 100 && idle_polls(polls, 0xE000_EDF0, operation.awaited_bit()) && error == (
    Error::Timeout { operation }) {
        assert(polls.subrange(polls.len() - 100, polls.len() as int) =~= polls);
        assert forall|j: int| 0 <= j < polls.len() implies (#[trigger] polls[j]).failure()
            is None by {}
    }
}

impl<M: MemoryInterface> MemoryInterface for M4<M> {
    open spec fn accesses(&self) -> Seq<MemoryAccess> {
        self.memory().accesses()
    }

    fn read_word_32(&mut self, address: u32) -> (r: Result<u32, Error>)
        ensures
            final(self).state() == old(self).state(),
    {
        self.memory.read_word_32(address)
    }

    fn read_word_16(&mut self, address: u32) -> (r: Result<u16, Error>)
        ensures
            final(self).state() == old(self).state(),
    {
        self.memory.read_word_16(address)
    }

    fn read_word_8(&mut self, address: u32) -> (r: Result<u8, Error>)
        ensures
            final(self).state() == old(self).state(),
    {
        self.memory.read_word_8(address)
    }

    fn read_32(&mut self, address: u32, data: &mut [u32]) -> (r: Result<(), Error>)
        ensures
            final(self).state() == old(self).state(),
    {
        self.memory.read_32(address, data)
    }

    fn read_8(&mut self, address: u32, data: &mut [u8]) -> (r: Result<(), Error>)
        ensures
            final(self).state() == old(self).state(),
    {
        self.memory.read_8(address, data)
    }

    fn write_word_32(&mut self, address: u32, data: u32) -> (r: Result<(), Error>)
        ensures
            final(self).state() == old(self).state(),
    {
        self.memory.write_word_32(address, data)
    }

    fn write_word_16(&mut self, address: u32, data: u16) -> (r: Result<(), Error>)
        ensures
            final(self).state() == old(self).state(),
    {
        self.memory.write_word_16(address, data)
    }

    fn write_word_8(&mut self, address: u32, data: u8) -> (r: Result<(), Error>)
        ensures
            final(self).state() == old(self).state(),
    {
        self.memory.write_word_8(address, data)
    }

    fn write_32(&mut self, address: u32, data: &[u32]) -> (r: Result<(), Error>)
        ensures
            final(self).state() == old(self).state(),
    {
        self.memory.write_32(address, data)
    }

    fn write_8(&mut self, address: u32, data: &[u8]) -> (r: Result<(), Error>)
        ensures
            final(self).state() == old(self).state(),
    {
        self.memory.write_8(address, data)
    }
}

} // verus!
