//! Access ports and their registers.

use crate::bits::{bit, field, get_bit, get_field, set_field, with_bit, with_field};
use crate::communication_interface::Register;
use vstd::prelude::*;

verus! {

/// Something that names one access port of the target.
pub trait AccessPort: Sized + Copy {
    spec fn spec_port_number(&self) -> u8;

    /// The zero-based number by which the debug port selects the access port.
    fn port_number(&self) -> (port: u8)
        ensures
            port == self.spec_port_number(),
    ;
}

/// An access port of a class that is not known yet, or does not matter.
#[derive(Debug, Clone, Copy, PartialEq, Eq, Structural)]
pub struct GenericAP {
    pub port_number: u8,
}

impl GenericAP {
    /// The access port with the given number.
    pub fn new(port_number: u8) -> (ap: Self)
        ensures
            ap.spec_port_number() == port_number,
    {
        GenericAP { port_number }
    }
}

impl AccessPort for GenericAP {
    open spec fn spec_port_number(&self) -> u8 {
        self.port_number
    }

    fn port_number(&self) -> (port: u8) {
        self.port_number
    }
}

/// An access port that gives access to the memory of the target.
#[derive(Debug, Clone, Copy, PartialEq, Eq, Structural)]
pub struct MemoryAP {
    pub port_number: u8,
}

impl MemoryAP {
    /// The memory access port with the given number.
    pub fn new(port_number: u8) -> (ap: Self)
        ensures
            ap.spec_port_number() == port_number,
    {
        MemoryAP { port_number }
    }
}

impl AccessPort for MemoryAP {
    open spec fn spec_port_number(&self) -> u8 {
        self.port_number
    }

    fn port_number(&self) -> (port: u8) {
        self.port_number
    }
}

impl From<GenericAP> for MemoryAP {
    fn from(other: GenericAP) -> (ap: Self) {
        MemoryAP { port_number: other.port_number }
    }
}

impl vstd::std_specs::convert::FromSpecImpl<GenericAP> for MemoryAP {
    open spec fn obeys_from_spec() -> bool {
        true
    }

    open spec fn from_spec(other: GenericAP) -> Self {
        MemoryAP { port_number: other.port_number }
    }
}

impl From<MemoryAP> for GenericAP {
    fn from(other: MemoryAP) -> (ap: Self) {
        GenericAP { port_number: other.port_number }
    }
}

impl vstd::std_specs::convert::FromSpecImpl<MemoryAP> for GenericAP {
    open spec fn obeys_from_spec() -> bool {
        true
    }

    open spec fn from_spec(other: MemoryAP) -> Self {
        GenericAP { port_number: other.port_number }
    }
}

/// A register of access ports of kind `AP`.
pub trait APRegister<AP: AccessPort>: Register {
    spec fn spec_ap_bank_sel() -> u8;

    /// The register bank that must be selected to reach the register: the
    /// high four bits of its address.
    fn ap_bank_sel() -> (bank: u8)
        ensures
            bank == Self::spec_ap_bank_sel(),
    ;
}

/// The class of an access port, from bits 16 to 13 of IDR.
#[derive(Debug, Clone, Copy, PartialEq, Eq, Structural)]
pub enum APClass {
    Undefined,
    COMAP,
    MEMAP,
}

impl APClass {
    /// The class that the class field of IDR stands for.
    pub open spec fn of_field(value: u32) -> APClass {
        if value == 0b0001 {
            APClass::COMAP
        } else if value == 0b1000 {
            APClass::MEMAP
        } else {
            APClass::Undefined
        }
    }
}

/// The width of one transfer through a memory access port, as CSW encodes it.
#[derive(Debug, Clone, Copy, PartialEq, Eq, Structural)]
pub enum DataSize {
    U8,
    U16,
    U32,
    U64,
    U128,
    U256,
}

impl DataSize {
    /// The size field of CSW that stands for the width.
    pub open spec fn spec_code(&self) -> u32 {
        match *self {
            DataSize::U8 => 0b000,
            DataSize::U16 => 0b001,
            DataSize::U32 => 0b010,
            DataSize::U64 => 0b011,
            DataSize::U128 => 0b100,
            DataSize::U256 => 0b101,
        }
    }

    #[verifier::when_used_as_spec(spec_code)]
    pub fn code(&self) -> (value: u32)
        ensures
            value == self.spec_code(),
    {
        match self {
            DataSize::U8 => 0b000,
            DataSize::U16 => 0b001,
            DataSize::U32 => 0b010,
            DataSize::U64 => 0b011,
            DataSize::U128 => 0b100,
            DataSize::U256 => 0b101,
        }
    }
}

/// How TAR moves after each transfer through DRW.
#[derive(Debug, Clone, Copy, PartialEq, Eq, Structural)]
pub enum AddressIncrement {
    Off,
    Single,
    Packed,
}

/// The layout of the BASE register.
#[derive(Debug, Clone, Copy, PartialEq, Eq, Structural)]
pub enum BaseaddrFormat {
    Legacy,
    ADIv5,
}

/// IDR: identifies an access port. It reads as zero where there is none.
#[derive(Debug, Clone, Copy, PartialEq, Eq, Structural)]
pub struct IDR(pub u32);

impl IDR {
    pub open spec fn spec_class(&self) -> APClass {
        APClass::of_field(field(self.0, 13, 4))
    }

    #[verifier::when_used_as_spec(spec_class)]
    pub fn class(&self) -> (class: APClass)
        ensures
            class == self.spec_class(),
    {
        let value: u32 = get_field(self.0, 13, 4);
        if value == 0b0001 {
            APClass::COMAP
        } else if value == 0b1000 {
            APClass::MEMAP
        } else {
            APClass::Undefined
        }
    }
}

impl Default for IDR {
    fn default() -> (register: Self)
        ensures
            register == IDR(0),
    {
        IDR(0)
    }
}

impl Register for IDR {
    open spec fn spec_address() -> u8 {
        0xFC
    }

    fn address() -> (address: u8) {
        0xFC
    }

    open spec fn spec_name() -> &'static str {
        "IDR"
    }

    fn name() -> (name: &'static str) {
        "IDR"
    }

    open spec fn spec_bits(self) -> u32 {
        self.0
    }

    open spec fn spec_from_bits(value: u32) -> Self {
        IDR(value)
    }

    fn bits(&self) -> (value: u32) {
        self.0
    }

    fn from_bits(value: u32) -> (register: Self) {
        IDR(value)
    }
}

impl APRegister<GenericAP> for IDR {
    open spec fn spec_ap_bank_sel() -> u8 {
        0xF
    }

    fn ap_bank_sel() -> (bank: u8) {
        0xF
    }
}

/// BASE: the low word of the debug base address.
#[derive(Debug, Clone, Copy, PartialEq, Eq, Structural)]
pub struct BASE(pub u32);

impl BASE {
    /// The address bits 31 to 12, in place.
    pub open spec fn spec_baseaddr(&self) -> u32 {
        field(self.0, 12, 20)
    }

    #[verifier::when_used_as_spec(spec_baseaddr)]
    pub fn baseaddr(&self) -> (value: u32)
        ensures
            value == self.spec_baseaddr(),
    {
        get_field(self.0, 12, 20)
    }

    pub open spec fn spec_format(&self) -> BaseaddrFormat {
        if bit(self.0, 1) {
            BaseaddrFormat::ADIv5
        } else {
            BaseaddrFormat::Legacy
        }
    }

    #[verifier::when_used_as_spec(spec_format)]
    pub fn format(&self) -> (format: BaseaddrFormat)
        ensures
            format == self.spec_format(),
    {
        if get_bit(self.0, 1) {
            BaseaddrFormat::ADIv5
        } else {
            BaseaddrFormat::Legacy
        }
    }

    pub open spec fn spec_present(&self) -> bool {
        bit(self.0, 0)
    }

    #[verifier::when_used_as_spec(spec_present)]
    pub fn present(&self) -> (on: bool)
        ensures
            on == self.spec_present(),
    {
        get_bit(self.0, 0)
    }
}

impl Default for BASE {
    fn default() -> (register: Self)
        ensures
            register == BASE(0),
    {
        BASE(0)
    }
}

impl Register for BASE {
    open spec fn spec_address() -> u8 {
        0xF8
    }

    fn address() -> (address: u8) {
        0xF8
    }

    open spec fn spec_name() -> &'static str {
        "BASE"
    }

    fn name() -> (name: &'static str) {
        "BASE"
    }

    open spec fn spec_bits(self) -> u32 {
        self.0
    }

    open spec fn spec_from_bits(value: u32) -> Self {
        BASE(value)
    }

    fn bits(&self) -> (value: u32) {
        self.0
    }

    fn from_bits(value: u32) -> (register: Self) {
        BASE(value)
    }
}

impl APRegister<MemoryAP> for BASE {
    open spec fn spec_ap_bank_sel() -> u8 {
        0xF
    }

    fn ap_bank_sel() -> (bank: u8) {
        0xF
    }
}

/// BASE2: the high word of the debug base address.
#[derive(Debug, Clone, Copy, PartialEq, Eq, Structural)]
pub struct BASE2(pub u32);

impl Default for BASE2 {
    fn default() -> (register: Self)
        ensures
            register == BASE2(0),
    {
        BASE2(0)
    }
}

impl Register for BASE2 {
    open spec fn spec_address() -> u8 {
        0xF0
    }

    fn address() -> (address: u8) {
        0xF0
    }

    open spec fn spec_name() -> &'static str {
        "BASE2"
    }

    fn name() -> (name: &'static str) {
        "BASE2"
    }

    open spec fn spec_bits(self) -> u32 {
        self.0
    }

    open spec fn spec_from_bits(value: u32) -> Self {
        BASE2(value)
    }

    fn bits(&self) -> (value: u32) {
        self.0
    }

    fn from_bits(value: u32) -> (register: Self) {
        BASE2(value)
    }
}

impl APRegister<MemoryAP> for BASE2 {
    open spec fn spec_ap_bank_sel() -> u8 {
        0xF
    }

    fn ap_bank_sel() -> (bank: u8) {
        0xF
    }
}

/// CSW: the width and address increment of memory transfers, and the
/// attributes that the access port puts on the bus.
#[derive(Debug, Clone, Copy, PartialEq, Eq, Structural)]
pub struct CSW(pub u32);

impl CSW {
    /// The bits that every memory transfer of this library sets besides the
    /// width: software access enabled (bit 31), the debugger as bus master
    /// (bit 29), privileged data access (bits 25 and 24), and an address
    /// increment of one transfer width (bits 5 and 4).
    pub open spec fn transfer_attributes() -> u32 {
        0xA300_0010
    }

    /// The value that sets up transfers of the given width.
    pub open spec fn spec_for_transfers(size: DataSize) -> CSW {
        CSW(with_field(Self::transfer_attributes(), 0, 3, size.spec_code()))
    }

    #[verifier::when_used_as_spec(spec_for_transfers)]
    pub fn for_transfers(size: DataSize) -> (csw: CSW)
        ensures
            csw == Self::spec_for_transfers(size),
    {
        CSW(set_field(0xA300_0010, 0, 3, size.code()))
    }

    /// The raw size field.
    pub open spec fn spec_size(&self) -> u32 {
        field(self.0, 0, 3)
    }

    #[verifier::when_used_as_spec(spec_size)]
    pub fn size(&self) -> (value: u32)
        ensures
            value == self.spec_size(),
    {
        get_field(self.0, 0, 3)
    }

    pub fn set_size(&mut self, size: DataSize)
        ensures
            final(self).0 == with_field(old(self).0, 0, 3, size.spec_code()),
    {
        self.0 = set_field(self.0, 0, 3, size.code());
    }
}

impl Default for CSW {
    fn default() -> (register: Self)
        ensures
            register == CSW(0),
    {
        CSW(0)
    }
}

impl Register for CSW {
    open spec fn spec_address() -> u8 {
        0x00
    }

    fn address() -> (address: u8) {
        0x00
    }

    open spec fn spec_name() -> &'static str {
        "CSW"
    }

    fn name() -> (name: &'static str) {
        "CSW"
    }

    open spec fn spec_bits(self) -> u32 {
        self.0
    }

    open spec fn spec_from_bits(value: u32) -> Self {
        CSW(value)
    }

    fn bits(&self) -> (value: u32) {
        self.0
    }

    fn from_bits(value: u32) -> (register: Self) {
        CSW(value)
    }
}

impl APRegister<MemoryAP> for CSW {
    open spec fn spec_ap_bank_sel() -> u8 {
        0x0
    }

    fn ap_bank_sel() -> (bank: u8) {
        0x0
    }
}

/// TAR: the address of the next transfer through DRW.
#[derive(Debug, Clone, Copy, PartialEq, Eq, Structural)]
pub struct TAR(pub u32);

impl Default for TAR {
    fn default() -> (register: Self)
        ensures
            register == TAR(0),
    {
        TAR(0)
    }
}

impl Register for TAR {
    open spec fn spec_address() -> u8 {
        0x04
    }

    fn address() -> (address: u8) {
        0x04
    }

    open spec fn spec_name() -> &'static str {
        "TAR"
    }

    fn name() -> (name: &'static str) {
        "TAR"
    }

    open spec fn spec_bits(self) -> u32 {
        self.0
    }

    open spec fn spec_from_bits(value: u32) -> Self {
        TAR(value)
    }

    fn bits(&self) -> (value: u32) {
        self.0
    }

    fn from_bits(value: u32) -> (register: Self) {
        TAR(value)
    }
}

impl APRegister<MemoryAP> for TAR {
    open spec fn spec_ap_bank_sel() -> u8 {
        0x0
    }

    fn ap_bank_sel() -> (bank: u8) {
        0x0
    }
}

/// DRW: the window onto the memory at the address in TAR.
#[derive(Debug, Clone, Copy, PartialEq, Eq, Structural)]
pub struct DRW(pub u32);

impl Default for DRW {
    fn default() -> (register: Self)
        ensures
            register == DRW(0),
    {
        DRW(0)
    }
}

impl Register for DRW {
    open spec fn spec_address() -> u8 {
        0x0C
    }

    fn address() -> (address: u8) {
        0x0C
    }

    open spec fn spec_name() -> &'static str {
        "DRW"
    }

    fn name() -> (name: &'static str) {
        "DRW"
    }

    open spec fn spec_bits(self) -> u32 {
        self.0
    }

    open spec fn spec_from_bits(value: u32) -> Self {
        DRW(value)
    }

    fn bits(&self) -> (value: u32) {
        self.0
    }

    fn from_bits(value: u32) -> (register: Self) {
        DRW(value)
    }
}

impl APRegister<MemoryAP> for DRW {
    open spec fn spec_ap_bank_sel() -> u8 {
        0x0
    }

    fn ap_bank_sel() -> (bank: u8) {
        0x0
    }
}

} // verus!
