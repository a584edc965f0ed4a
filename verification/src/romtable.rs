//! Identifying the chip from the ROM table that its debug base address
//! points to.

use crate::ap::{AccessPort, DataSize, GenericAP, MemoryAP, BASE};
use crate::bits::{bit, field, get_bit, get_field};
use crate::communication_interface::{
    broke_off, walked, ApInformation, ArmCommunicationInterface, DAPAccess,
    PortRegisters, Selection, Transfer,
};
use crate::dp::DebugPortVersion;
use crate::error::Error;
use crate::memory::{
    breaks_off, flushed, lemma_breaks_off_later, transfer_fault,
    ADIMemoryInterface, EngineView, MemoryInterface,
};
use vstd::prelude::*;

verus! {

/// A JEP106 manufacturer code: the continuation code `cc`, which counts the
/// bank, and the identification code `id` within the bank.
#[derive(Debug, Clone, Copy, PartialEq, Eq, Structural)]
pub struct JEP106Code {
    pub id: u8,
    pub cc: u8,
}

/// The name that the `jep106` crate has for a manufacturer code, if it has
/// one.
pub uninterp spec fn manufacturer_name(cc: u8, id: u8) -> Option<Seq<char>>;

/// Looks a manufacturer code up in the table of the `jep106` crate, with
/// `JEP106Code::new` and `get`. The result is the table's entry for the
/// code, which is named and not described here.
#[verifier::external_body]
fn lookup_manufacturer(cc: u8, id: u8) -> (name: Option<&'static str>)
    ensures
        match name {
            Some(text) => manufacturer_name(cc, id) == Some(text@),
            None => manufacturer_name(cc, id) is None,
        },
{
    jep106::JEP106Code::new(cc, id).get()
}

impl JEP106Code {
    /// The code with the continuation code `cc` and the identification code
    /// `id`.
    pub fn new(cc: u8, id: u8) -> (code: Self)
        ensures
            code == (JEP106Code { id, cc }),
    {
        JEP106Code { id, cc }
    }

    /// The name of the manufacturer, if the code is known.
    pub fn get(&self) -> (name: Option<&'static str>)
        ensures
            match name {
                Some(text) => manufacturer_name(self.cc, self.id) == Some(text@),
                None => manufacturer_name(self.cc, self.id) is None,
            },
    {
        lookup_manufacturer(self.cc, self.id)
    }
}

/// The digit of `value`, which is less than 16, in lower-case hexadecimal.
pub open spec fn spec_hex_digit(value: u32) -> Seq<char> {
    if value == 0 {
        "0"@
    } else if value == 1 {
        "1"@
    } else if value == 2 {
        "2"@
    } else if value == 3 {
        "3"@
    } else if value == 4 {
        "4"@
    } else if value == 5 {
        "5"@
    } else if value == 6 {
        "6"@
    } else if value == 7 {
        "7"@
    } else if value == 8 {
        "8"@
    } else if value == 9 {
        "9"@
    } else if value == 10 {
        "a"@
    } else if value == 11 {
        "b"@
    } else if value == 12 {
        "c"@
    } else if value == 13 {
        "d"@
    } else if value == 14 {
        "e"@
    } else {
        "f"@
    }
}

fn hex_digit(value: u32) -> (digit: &'static str)
    requires
        value < 16,
    ensures
        digit@ == spec_hex_digit(value),
{
    if value == 0 {
        "0"
    } else if value == 1 {
        "1"
    } else if value == 2 {
        "2"
    } else if value == 3 {
        "3"
    } else if value == 4 {
        "4"
    } else if value == 5 {
        "5"
    } else if value == 6 {
        "6"
    } else if value == 7 {
        "7"
    } else if value == 8 {
        "8"
    } else if value == 9 {
        "9"
    } else if value == 10 {
        "a"
    } else if value == 11 {
        "b"
    } else if value == 12 {
        "c"
    } else if value == 13 {
        "d"
    } else if value == 14 {
        "e"
    } else {
        "f"
    }
}

/// A byte in hexadecimal, two characters wide: a value below 16 has a space
/// before its one digit.
pub open spec fn hex_byte(value: u8) -> Seq<char> {
    if value < 16 {
        " "@ + spec_hex_digit(value as u32)
    } else {
        spec_hex_digit(value as u32 / 16) + spec_hex_digit(value as u32 % 16)
    }
}

/// A half word in hexadecimal, four digits wide, with leading zeros.
pub open spec fn hex_half_word(value: u16) -> Seq<char> {
    spec_hex_digit(value as u32 / 0x1000) + spec_hex_digit(value as u32 / 0x100 % 16)
        + spec_hex_digit(value as u32 / 0x10 % 16) + spec_hex_digit(value as u32 % 16)
}

/// What the ROM table says about the chip: who made it, and which part it
/// is.
#[derive(Debug, Clone, Copy, PartialEq, Eq, Structural)]
pub struct ArmChipInfo {
    pub manufacturer: JEP106Code,
    pub part: u16,
}

impl ArmChipInfo {
    /// How the chip is shown: the name of the manufacturer, or its code
    /// where the name is not known, and the part number in hexadecimal.
    pub open spec fn shown(self) -> Seq<char> {
        let maker = match manufacturer_name(self.manufacturer.cc, self.manufacturer.id) {
            Some(name) => name,
            None => "<unknown manufacturer (cc="@ + hex_byte(self.manufacturer.cc) + ", id="@
                + hex_byte(self.manufacturer.id) + ")>"@,
        };
        maker + " 0x"@ + hex_half_word(self.part)
    }

    /// The chip as a line of text.
    pub fn description(&self) -> (text: String)
        ensures
            text@ == self.shown(),
    {
        let mut text = match self.manufacturer.get() {
            Some(name) => String::from_str(name),
            None => {
                let mut unknown = String::from_str("<unknown manufacturer (cc=");
                append_hex_byte(&mut unknown, self.manufacturer.cc);
                unknown.append(", id=");
                append_hex_byte(&mut unknown, self.manufacturer.id);
                unknown.append(")>");
                unknown
            },
        };
        text.append(" 0x");
        let part = self.part as u32;
        text.append(hex_digit(part / 0x1000));
        text.append(hex_digit(part / 0x100 % 16));
        text.append(hex_digit(part / 0x10 % 16));
        text.append(hex_digit(part % 16));
        proof {
            assert(text@ =~= self.shown());
        }
        text
    }
}

fn append_hex_byte(text: &mut String, value: u8)
    ensures
        final(text)@ == old(text)@ + hex_byte(value),
{
    if value < 16 {
        text.append(" ");
        text.append(hex_digit(value as u32));
    } else {
        text.append(hex_digit(value as u32 / 16));
        text.append(hex_digit(value as u32 % 16));
    }
    proof {
        assert(text@ =~= old(text)@ + hex_byte(value));
    }
}

/// The class of a debug component, from the component identification
/// registers.
#[derive(Debug, Clone, Copy, PartialEq, Eq, Structural)]
pub enum ComponentClass {
    GenericVerificationComponent,
    RomTable,
    CoreSightComponent,
    PeripheralTestBlock,
    GenericIPComponent,
    CoreLinkOrPrimeCellOrSystemComponent,
    Unknown,
}

impl ComponentClass {
    /// The class that the class nibble stands for.
    pub open spec fn spec_of_nibble(nibble: u32) -> ComponentClass {
        if nibble == 0x0 {
            ComponentClass::GenericVerificationComponent
        } else if nibble == 0x1 {
            ComponentClass::RomTable
        } else if nibble == 0x9 {
            ComponentClass::CoreSightComponent
        } else if nibble == 0xB {
            ComponentClass::PeripheralTestBlock
        } else if nibble == 0xE {
            ComponentClass::GenericIPComponent
        } else if nibble == 0xF {
            ComponentClass::CoreLinkOrPrimeCellOrSystemComponent
        } else {
            ComponentClass::Unknown
        }
    }

    #[verifier::when_used_as_spec(spec_of_nibble)]
    pub fn of_nibble(nibble: u32) -> (class: ComponentClass)
        ensures
            class == Self::spec_of_nibble(nibble),
    {
        if nibble == 0x0 {
            ComponentClass::GenericVerificationComponent
        } else if nibble == 0x1 {
            ComponentClass::RomTable
        } else if nibble == 0x9 {
            ComponentClass::CoreSightComponent
        } else if nibble == 0xB {
            ComponentClass::PeripheralTestBlock
        } else if nibble == 0xE {
            ComponentClass::GenericIPComponent
        } else if nibble == 0xF {
            ComponentClass::CoreLinkOrPrimeCellOrSystemComponent
        } else {
            ComponentClass::Unknown
        }
    }
}

/// What the identification registers of a component say about the chip, if
/// the component is a ROM table whose peripheral identification carries a
/// JEP106 code. `component` holds the four component identification
/// registers, whose second has the class in its upper nibble; `low` holds
/// the peripheral identification registers 0 to 3 and `high` those from 4
/// on. The part number is made of register 0 and the lower nibble of
/// register 1; the identification code of the upper nibble of register 1
/// and the three lowest bits of register 2, whose bit 3 says that the code
/// is a JEP106 code; the continuation code is the lower nibble of register
/// 4.
pub open spec fn spec_chip_info(component: Seq<u32>, low: Seq<u32>, high: Seq<u32>) -> Option<
    ArmChipInfo,
> {
    if ComponentClass::spec_of_nibble(field(component[1], 4, 4)) == ComponentClass::RomTable
        && bit(low[2], 3) {
        Some(
            ArmChipInfo {
                manufacturer: JEP106Code {
                    cc: field(high[0], 0, 4) as u8,
                    id: ((field(low[2], 0, 3) << 4) | field(low[1], 4, 4)) as u8,
                },
                part: ((field(low[1], 0, 4) << 8) | field(low[0], 0, 8)) as u16,
            },
        )
    } else {
        None
    }
}

pub fn chip_info(component: &[u32], low: &[u32], high: &[u32]) -> (info: Option<ArmChipInfo>)
    requires
        component@.len() == 4,
        low@.len() == 4,
        high@.len() == 4,
    ensures
        info == spec_chip_info(component@, low@, high@),
{
    let class = ComponentClass::of_nibble(get_field(component[1], 4, 4));
    if class == ComponentClass::RomTable && get_bit(low[2], 3) {
        let id: u32 = (get_field(low[2], 0, 3) << 4) | get_field(low[1], 4, 4);
        let part: u32 = (get_field(low[1], 0, 4) << 8) | get_field(low[0], 0, 8);
        Some(
            ArmChipInfo {
                manufacturer: JEP106Code {
                    cc: #[verifier::truncate]
                    (get_field(high[0], 0, 4) as u8),
                    id: #[verifier::truncate]
                    (id as u8),
                },
                part: #[verifier::truncate]
                (part as u16),
            },
        )
    } else {
        None
    }
}

/// The view of an engine after it has read the identification registers
/// of the component at `base`: the component identification, and the
/// peripheral identification in its high and its low part, each as one
/// block of four words with a flush behind it.
pub open spec fn identified(
    view: EngineView,
    base: u32,
    component: Seq<u32>,
    low: Seq<u32>,
    high: Seq<u32>,
) -> EngineView {
    let first = view.after(
        DataSize::U32,
        flushed(view.block_plan((base + 0xFF0) as u32, component, true)),
    );
    let second = first.after(
        DataSize::U32,
        flushed(first.block_plan((base + 0xFD0) as u32, high, true)),
    );
    second.after(DataSize::U32, flushed(second.block_plan((base + 0xFE0) as u32, low, true)))
}

/// The transfers by which an engine with the view `view` reads the
/// identification registers of the component at `base`, which read as
/// `component`, `low` and `high`.
pub open spec fn identification_plan(
    view: EngineView,
    base: u32,
    component: Seq<u32>,
    low: Seq<u32>,
    high: Seq<u32>,
) -> Seq<Transfer> {
    let first = view.after(
        DataSize::U32,
        flushed(view.block_plan((base + 0xFF0) as u32, component, true)),
    );
    let second = first.after(
        DataSize::U32,
        flushed(first.block_plan((base + 0xFD0) as u32, high, true)),
    );
    flushed(view.block_plan((base + 0xFF0) as u32, component, true)) + flushed(
        first.block_plan((base + 0xFD0) as u32, high, true),
    ) + flushed(second.block_plan((base + 0xFE0) as u32, low, true))
}

/// Reads the identification registers of the component at `base` and
/// returns what they say about the chip.
#[verifier::rlimit(50)]
pub fn read_component<P: DAPAccess>(memory: &mut ADIMemoryInterface<P>, base: u32) -> (r: Result<
    Option<ArmChipInfo>,
    Error,
>)
    requires
        base % 4 == 0,
        base <= 0xFFFF_F000,
    ensures
        old(memory).view().transfers.is_prefix_of(final(memory).view().transfers),
        final(memory).view().same_port(old(memory).view()),
        final(memory).interface().state().same_session(old(memory).interface().state()),
        match r {
            Ok(info) => exists|component: Seq<u32>, low: Seq<u32>, high: Seq<u32>|
                {
                    &&& component.len() == 4 && low.len() == 4 && high.len() == 4
                    &&& final(memory).view() == #[trigger] identified(
                        old(memory).view(),
                        base,
                        component,
                        low,
                        high,
                    )
                    &&& info == spec_chip_info(component, low, high)
                },
            Err(e) => {
                exists|component: Seq<u32>, low: Seq<u32>, high: Seq<u32>|
                    {
                        &&& component.len() == 4 && low.len() == 4 && high.len() == 4
                        &&& breaks_off(
                            old(memory).view().transfers,
                            final(memory).view().transfers,
                            #[trigger] identification_plan(
                                old(memory).view(),
                                base,
                                component,
                                low,
                                high,
                            ),
                            e,
                            old(memory).view().version,
                        )
                    }
            },
        },
{
    let ghost view = memory.view();
    let ghost session = memory.interface().state();
    let mut component: Vec<u32> = vec![0u32; 4];
    let mut low: Vec<u32> = vec![0u32; 4];
    let mut high: Vec<u32> = vec![0u32; 4];
    proof {
        assert(transfer_fault((base + 0xFF0) as u32, 32, 4) is None);
        assert(transfer_fault((base + 0xFD0) as u32, 32, 4) is None);
        assert(transfer_fault((base + 0xFE0) as u32, 32, 4) is None);
    }
    match memory.read_32(base + 0xFF0, component.as_mut_slice()) {
        Ok(()) => {},
        Err(e) => {
            proof {
                let values = choose|values: Seq<u32>|
                    values.len() == 4 && breaks_off(
                        view.transfers,
                        memory.view().transfers,
                        #[trigger] flushed(view.block_plan((base + 0xFF0) as u32, values, true)),
                        e,
                        view.version,
                    );
                let part = flushed(view.block_plan((base + 0xFF0) as u32, values, true));
                let plan = identification_plan(view, base, values, values, values);
                let none = Seq::<Transfer>::empty();
                assert(view.transfers + none =~= view.transfers);
                assert(none + part =~= part);
                assert(part =~= plan.subrange(0, part.len() as int));
                lemma_breaks_off_later(
                    view.transfers,
                    memory.view().transfers,
                    none,
                    part,
                    plan,
                    e,
                    view.version,
                );
            }
            return Err(e);
        },
    }
    let ghost first = memory.view();
    match memory.read_32(base + 0xFD0, high.as_mut_slice()) {
        Ok(()) => {},
        Err(e) => {
            proof {
                let values = choose|values: Seq<u32>|
                    values.len() == 4 && breaks_off(
                        first.transfers,
                        memory.view().transfers,
                        #[trigger] flushed(first.block_plan((base + 0xFD0) as u32, values, true)),
                        e,
                        view.version,
                    );
                let front = flushed(view.block_plan((base + 0xFF0) as u32, component@, true));
                let part = flushed(first.block_plan((base + 0xFD0) as u32, values, true));
                let plan = identification_plan(view, base, component@, values, values);
                assert(front + part =~= plan.subrange(0, (front + part).len() as int));
                lemma_breaks_off_later(
                    view.transfers,
                    memory.view().transfers,
                    front,
                    part,
                    plan,
                    e,
                    view.version,
                );
            }
            return Err(e);
        },
    }
    let ghost second = memory.view();
    match memory.read_32(base + 0xFE0, low.as_mut_slice()) {
        Ok(()) => {},
        Err(e) => {
            proof {
                let values = choose|values: Seq<u32>|
                    values.len() == 4 && breaks_off(
                        second.transfers,
                        memory.view().transfers,
                        #[trigger] flushed(second.block_plan((base + 0xFE0) as u32, values, true)),
                        e,
                        view.version,
                    );
                let one = flushed(view.block_plan((base + 0xFF0) as u32, component@, true));
                let two = flushed(first.block_plan((base + 0xFD0) as u32, high@, true));
                let part = flushed(second.block_plan((base + 0xFE0) as u32, values, true));
                let plan = identification_plan(view, base, component@, values, high@);
                assert(second.transfers =~= view.transfers + (one + two));
                assert((one + two) + part =~= plan.subrange(0, plan.len() as int));
                lemma_breaks_off_later(
                    view.transfers,
                    memory.view().transfers,
                    one + two,
                    part,
                    plan,
                    e,
                    view.version,
                );
            }
            return Err(e);
        },
    }
    proof {
        assert(memory.view() == identified(view, base, component@, low@, high@));
    }
    Ok(chip_info(component.as_slice(), low.as_slice(), high.as_slice()))
}

/// What the identification registers of a component read as.
pub struct Identification {
    pub component: Seq<u32>,
    pub low: Seq<u32>,
    pub high: Seq<u32>,
}

/// What the walk over the ROM tables saw at one access port: what its
/// registers read as and, where it is a memory access port whose debug
/// base address can be reached, what the identification registers of the
/// component there read as.
pub struct Look {
    pub registers: PortRegisters,
    pub identification: Option<Identification>,
}

/// The address of the component that an access port points to, if the
/// port is a memory access port, its BASE register points to a component
/// at all, and the address lies where the identification registers behind it
/// can be reached.
pub open spec fn spec_component_base(found: ApInformation, base: BASE) -> Option<u32> {
    match found {
        ApInformation::MemoryAp { debug_base_address, .. } => if ApInformation::spec_component_present(
            base,
        ) && debug_base_address <= 0xFFFF_F000 && debug_base_address % 4 == 0 {
            Some(debug_base_address as u32)
        } else {
            None
        },
        ApInformation::Other { .. } => None,
    }
}

#[verifier::when_used_as_spec(spec_component_base)]
pub fn component_base(found: ApInformation, base: BASE) -> (address: Option<u32>)
    ensures
        address == spec_component_base(found, base),
{
    match found {
        ApInformation::MemoryAp { debug_base_address, .. } => {
            if ApInformation::component_present(base) && debug_base_address <= 0xFFFF_F000
                && debug_base_address % 4 == 0 {
                Some(debug_base_address as u32)
            } else {
                None
            }
        },
        ApInformation::Other { .. } => None,
    }
}

impl Look {
    /// What the look says about the chip, if it says anything.
    pub open spec fn chip(self) -> Option<ArmChipInfo> {
        match self.identification {
            Some(read) => spec_chip_info(read.component, read.low, read.high),
            None => None,
        }
    }

    /// Whether the look is complete for port `port`: the identification
    /// registers were read where the port has a component to look at, as
    /// three blocks of four words, and nowhere else.
    pub open spec fn complete(self, port: u8) -> bool {
        match self.identification {
            Some(read) => spec_component_base(
                self.registers.information(port),
                BASE(self.registers.base),
            ) is Some
                && read.component.len() == 4 && read.low.len() == 4 && read.high.len() == 4,
            None => spec_component_base(
                self.registers.information(port),
                BASE(self.registers.base),
            ) is None,
        }
    }

    /// The history after the look at port `port`, which found the history
    /// at `before`.
    pub open spec fn history(
        self,
        before: Seq<Transfer>,
        selection: Selection,
        port: u8,
        version: DebugPortVersion,
    ) -> Seq<Transfer> {
        let known = before + self.registers.transfers(selection, port);
        match self.identification {
            Some(read) => identified(
                self.engine(before, selection, port, version),
                spec_component_base(
                self.registers.information(port),
                BASE(self.registers.base),
            ).unwrap(),
                read.component,
                read.low,
                read.high,
            ).transfers,
            None => known,
        }
    }

    /// The view of the engine that reads the identification registers
    /// behind port `port`, once the registers of the port are read.
    pub open spec fn engine(
        self,
        before: Seq<Transfer>,
        selection: Selection,
        port: u8,
        version: DebugPortVersion,
    ) -> EngineView {
        EngineView {
            transfers: before + self.registers.transfers(selection, port),
            selection: self.registers.selection_after(selection, port),
            cached_csw: None,
            port,
            words_only: self.registers.information(port) matches ApInformation::MemoryAp {
                only_32bit_data_size: true,
                ..
            },
            version,
        }
    }

    /// The transfers of the look at port `port`, which found the history at
    /// `before`: the registers of the port are read, and then the
    /// identification registers, where the look has read them.
    pub open spec fn plan(
        self,
        before: Seq<Transfer>,
        selection: Selection,
        port: u8,
        version: DebugPortVersion,
    ) -> Seq<Transfer> {
        self.registers.transfers(selection, port) + match self.identification {
            Some(read) => identification_plan(
                self.engine(before, selection, port, version),
                spec_component_base(
                self.registers.information(port),
                BASE(self.registers.base),
            ).unwrap(),
                read.component,
                read.low,
                read.high,
            ),
            None => Seq::<Transfer>::empty(),
        }
    }
}

/// How a look at port `port`, which found the history at `before`, breaks
/// off with `error`. Either the reading of the registers of the port follows
/// its plan up to a transfer that fails with the error. Or the registers are
/// read, the port has a component to look at, and the reading of its
/// identification registers breaks off as an access to memory does: it
/// follows the plan of the look up to a transfer that fails, and the
/// recovery follows.
pub open spec fn look_broke_off(
    before: Seq<Transfer>,
    after: Seq<Transfer>,
    selection: Selection,
    port: u8,
    version: DebugPortVersion,
    error: Error,
) -> bool {
    ||| error matches Error::Probe(cause) && exists|registers: PortRegisters|
        broke_off(before, after, #[trigger] registers.transfers(selection, port), cause)
    ||| exists|look: Look|
        {
            &&& look.identification is Some
            &&& look.complete(port)
            &&& breaks_off(
                before,
                after,
                #[trigger] look.plan(before, selection, port, version),
                error,
                version,
            )
        }
}

/// How the search for the chip in the ROM tables breaks off with `error`:
/// the access ports are walked, the first of them are looked at without a
/// word about the chip, and the look at the next breaks off.
pub open spec fn search_broke_off(
    selection: Selection,
    version: DebugPortVersion,
    before: Seq<Transfer>,
    after: Seq<Transfer>,
    error: Error,
) -> bool {
    exists|walk_end: Seq<Transfer>, last: Selection, count: int, looks: Seq<Look>|
        #![trigger walked(selection, before, walk_end, last, count), looks_history(
            walk_end,
            last,
            looks,
            version,
        )]
        {
            &&& walked(selection, before, walk_end, last, count)
            &&& looks.len() < count
            &&& forall|port: int|
                0 <= port < looks.len() ==> (#[trigger] looks[port]).complete(port as u8)
            &&& forall|port: int| 0 <= port < looks.len() ==> (#[trigger] looks[port]).chip() is None
            &&& look_broke_off(
                looks_history(walk_end, last, looks, version),
                after,
                looks_selection(last, looks),
                looks.len() as u8,
                version,
                error,
            )
        }
}

/// The selection after the looks `looks` at the access ports from number 0
/// up.
pub open spec fn looks_selection(selection: Selection, looks: Seq<Look>) -> Selection {
    if looks.len() == 0 {
        selection
    } else {
        looks.last().registers.selection_after(selection, (looks.len() - 1) as u8)
    }
}

/// The history after the looks `looks` at the access ports from number 0
/// up, which found the history at `before`.
pub open spec fn looks_history(
    before: Seq<Transfer>,
    selection: Selection,
    looks: Seq<Look>,
    version: DebugPortVersion,
) -> Seq<Transfer>
    decreases looks.len(),
{
    if looks.len() == 0 {
        before
    } else {
        looks.last().history(
            looks_history(before, selection, looks.drop_last(), version),
            looks_selection(selection, looks.drop_last()),
            (looks.len() - 1) as u8,
            version,
        )
    }
}

/// How the search for the chip in the ROM tables ends without an error: the
/// access ports are walked, and then looked at one by one. The search ends
/// with the first look that says something about the chip, and with what
/// it says; or with the look at the last port that the walk found, and
/// with nothing.
pub open spec fn searched(
    selection: Selection,
    version: DebugPortVersion,
    before: Seq<Transfer>,
    after: Seq<Transfer>,
    found: Option<ArmChipInfo>,
) -> bool {
    exists|walk_end: Seq<Transfer>, last: Selection, count: int, looks: Seq<Look>|
        #![trigger walked(selection, before, walk_end, last, count), looks_history(
            walk_end,
            last,
            looks,
            version,
        )]
        {
            &&& walked(selection, before, walk_end, last, count)
            &&& looks.len() <= count
            &&& after == looks_history(walk_end, last, looks, version)
            &&& forall|port: int|
                0 <= port < looks.len() ==> (#[trigger] looks[port]).complete(port as u8)
            &&& forall|port: int| 0 <= port < looks.len() - 1 ==> (#[trigger] looks[port]).chip() is None
            &&& match found {
                Some(info) => looks.len() > 0 && looks.last().chip() == Some(info),
                None => looks.len() == count && (looks.len() > 0 ==> looks.last().chip() is None),
            }
        }
}

/// Looks at one access port: reads what its registers say about it and,
/// where it is a memory access port whose debug base address can be
/// reached, what the component there says about the chip.
#[verifier::rlimit(50)]
fn look_at<P: DAPAccess>(
    interface: ArmCommunicationInterface<P>,
    access_port: GenericAP,
) -> (r: (ArmCommunicationInterface<P>, Result<Option<ArmChipInfo>, Error>))
    ensures
        interface.transfers().is_prefix_of(r.0.transfers()),
        r.0.state().same_session(interface.state()),
        r.1 matches Ok(chip) ==> exists|look: Look|
            {
                &&& r.0.transfers() == #[trigger] look.history(
                    interface.transfers(),
                    interface.state().selection(),
                    access_port.spec_port_number(),
                    interface.state().version(),
                )
                &&& look.complete(access_port.spec_port_number())
                &&& r.0.state().selection() == look.registers.selection_after(
                    interface.state().selection(),
                    access_port.spec_port_number(),
                )
                &&& chip == look.chip()
            },
        r.1 matches Err(e) ==> look_broke_off(
            interface.transfers(),
            r.0.transfers(),
            interface.state().selection(),
            access_port.spec_port_number(),
            interface.state().version(),
            e,
        ),
{
    broadcast use crate::communication_interface::ArmCommunicationInterfaceState::lemma_with_selection;

    let ghost before = interface.transfers();
    let ghost selected = interface.state().selection();
    let ghost version = interface.state().version();
    let ghost port = access_port.spec_port_number();
    let mut current = interface;
    let survey = match current.survey_port(access_port) {
        Ok(survey) => survey,
        Err(cause) => {
            return (current, Err(Error::Probe(cause)));
        },
    };
    let ghost registers = choose|registers: PortRegisters|
        {
            &&& current.transfers() == before + #[trigger] registers.transfers(selected, port)
            &&& survey.shows(registers)
            &&& current.state().selection() == registers.selection_after(selected, port)
        };
    let found = survey.information(access_port.port_number());
    let ghost known = current.transfers();
    proof {
        assert(found == registers.information(port));
        if found is MemoryAp {
            assert(survey.base == BASE(registers.base));
        }
    }
    match component_base(found, survey.base) {
        Some(base) => {
            let words_only = match found {
                ApInformation::MemoryAp { only_32bit_data_size, .. } => only_32bit_data_size,
                ApInformation::Other { .. } => false,
            };
            let mut memory = ADIMemoryInterface::new(
                current,
                MemoryAP::new(found.port_number()),
                words_only,
            );
            let ghost view = memory.view();
            let component = read_component(&mut memory, base);
            let ghost after = memory.view();
            current = memory.into_interface();
            proof {
                lemma_prefix(before, known, current.transfers());
            }
            match component {
                Ok(chip) => {
                    proof {
                        let (component, low, high) = choose|
                            component: Seq<u32>,
                            low: Seq<u32>,
                            high: Seq<u32>,
                        |
                            {
                                &&& component.len() == 4 && low.len() == 4 && high.len() == 4
                                &&& after == #[trigger] identified(
                                    view,
                                    base,
                                    component,
                                    low,
                                    high,
                                )
                                &&& chip == spec_chip_info(component, low, high)
                            };
                        let look = Look {
                            registers,
                            identification: Some(Identification { component, low, high }),
                        };
                        assert(current.transfers() == look.history(
                            before,
                            selected,
                            port,
                            version,
                        ));
                    }
                    (current, Ok(chip))
                },
                Err(e) => {
                    proof {
                        let (component, low, high) = choose|
                            component: Seq<u32>,
                            low: Seq<u32>,
                            high: Seq<u32>,
                        |
                            {
                                &&& component.len() == 4 && low.len() == 4 && high.len() == 4
                                &&& breaks_off(
                                    view.transfers,
                                    after.transfers,
                                    #[trigger] identification_plan(view, base, component, low, high),
                                    e,
                                    view.version,
                                )
                            };
                        let look = Look {
                            registers,
                            identification: Some(Identification { component, low, high }),
                        };
                        assert(view == look.engine(before, selected, port, version));
                        let front = registers.transfers(selected, port);
                        let part = identification_plan(view, base, component, low, high);
                        let plan = look.plan(before, selected, port, version);
                        assert(front + part =~= plan.subrange(0, plan.len() as int));
                        lemma_breaks_off_later(
                            before,
                            current.transfers(),
                            front,
                            part,
                            plan,
                            e,
                            version,
                        );
                    }
                    (current, Err(e))
                },
            }
        },
        None => {
            proof {
                let look = Look { registers, identification: None };
                assert(current.transfers() == look.history(before, selected, port, version));
            }
            (current, Ok(None))
        },
    }
}

impl ArmChipInfo {
    /// Walks the access ports of the target and, for every memory access
    /// port, looks at the component that its debug base address points to.
    /// The first component that is a ROM table with a JEP106 code tells who
    /// made the chip and which part it is; if there is none, there is no
    /// answer, and that is no error. The session comes back with the
    /// answer.
    #[verifier::rlimit(50)]
    pub fn read_from_rom_table<P: DAPAccess>(interface: ArmCommunicationInterface<P>) -> (r: (
        ArmCommunicationInterface<P>,
        Result<Option<ArmChipInfo>, Error>,
    ))
        ensures
            interface.transfers().is_prefix_of(r.0.transfers()),
            r.0.state().same_session(interface.state()),
            r.1 matches Ok(found) ==> searched(
                interface.state().selection(),
                interface.state().version(),
                interface.transfers(),
                r.0.transfers(),
                found,
            ),
            r.1 matches Err(e) ==> search_broke_off(
                interface.state().selection(),
                interface.state().version(),
                interface.transfers(),
                r.0.transfers(),
                e,
            ),
    {
        let ghost start = interface.transfers();
        let ghost session = interface.state();
        let ghost selection = interface.state().selection();
        let ghost version = interface.state().version();
        let mut current = interface;
        let ports = current.valid_access_ports();
        let ghost walk_end = current.transfers();
        let ghost last = current.state().selection();
        let ghost mut looks: Seq<Look> = Seq::empty();
        let mut index: usize = 0;
        while index < ports.len()
            invariant
                index <= ports@.len() <= 256,
                looks.len() == index,
                start == interface.transfers(),
                session == interface.state(),
                selection == session.selection(),
                version == session.version(),
                start.is_prefix_of(current.transfers()),
                current.state().same_session(session),
                walked(selection, start, walk_end, last, ports@.len() as int),
                current.transfers() == looks_history(walk_end, last, looks, version),
                current.state().selection() == looks_selection(last, looks),
                forall|port: int|
                    0 <= port < looks.len() ==> (#[trigger] looks[port]).complete(port as u8),
                forall|port: int| 0 <= port < looks.len() ==> (#[trigger] looks[port]).chip() is None,
                forall|i: int|
                    0 <= i < ports@.len() ==> (#[trigger] ports@[i]).spec_port_number() == i,
            decreases ports@.len() - index,
        {
            let ghost before = current.transfers();
            let ghost selected = current.state().selection();
            let (session_back, outcome) = look_at(current, ports[index]);
            current = session_back;
            proof {
                lemma_prefix(start, before, current.transfers());
            }
            match outcome {
                Ok(chip) => {
                    proof {
                        let look = choose|look: Look|
                            {
                                &&& current.transfers() == #[trigger] look.history(
                                    before,
                                    selected,
                                    index as u8,
                                    version,
                                )
                                &&& look.complete(index as u8)
                                &&& current.state().selection() == look.registers.selection_after(
                                    selected,
                                    index as u8,
                                )
                                &&& chip == look.chip()
                            };
                        let more = looks.push(look);
                        assert(more.drop_last() =~= looks);
                        assert(more.last() == look);
                        assert(current.transfers() == looks_history(walk_end, last, more, version));
                        assert forall|port: int| 0 <= port < more.len() - 1 implies (
                        #[trigger] more[port]).chip() is None by {
                            assert(more[port] == looks[port]);
                        }
                        looks = more;
                    }
                    match chip {
                        Some(info) => {
                            return (current, Ok(Some(info)));
                        },
                        None => {},
                    }
                },
                Err(e) => {
                    return (current, Err(e));
                },
            }
            index += 1;
        }
        (current, Ok(None))
    }
}

/// What a history grew from, it still starts with after it grew again.
proof fn lemma_prefix(first: Seq<Transfer>, second: Seq<Transfer>, third: Seq<Transfer>)
    requires
        first.is_prefix_of(second),
        second.is_prefix_of(third),
    ensures
        first.is_prefix_of(third),
{
    assert(second =~= third.subrange(0, second.len() as int));
    assert(first =~= second.subrange(0, first.len() as int));
    assert(first =~= third.subrange(0, first.len() as int));
}

} // verus!
