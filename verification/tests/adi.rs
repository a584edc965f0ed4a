use probe_rs::ap::{GenericAP, MemoryAP, CSW, DRW, IDR, TAR};
use probe_rs::communication_interface::{
    ap_supports_only_32bit_access, get_debug_port_version, ApInformation,
    ArmCommunicationInterface, ArmCommunicationInterfaceState, DAPAccess, PortType, Transfer,
};
use probe_rs::cortex::{CoreRegisterAddress, CoreStatus, CortexState, HaltReason};
use probe_rs::dp::{Abort, Ctrl, DebugPortVersion, Select, DPIDR};
use probe_rs::error::{DapError, DebugProbeError, Error, Operation};
use probe_rs::flash_writer::{
    begin_erase, download_hex, erase_done, erase_page, pack_words, program_records, write_bytes,
    Addressing, Download, FlashError, HexRecord, Pace, Position,
};
use probe_rs::m4::M4;
use probe_rs::memory::{ADIMemoryInterface, MemoryInterface};
use probe_rs::romtable::{ArmChipInfo, JEP106Code};
use std::collections::HashMap;

const DP: PortType = PortType::DebugPort;
const AP0: PortType = PortType::AccessPort(0);

/// A target that answers transfers as a small Cortex-M chip with one memory
/// access port would.
struct Target {
    log: Vec<Transfer>,
    dpidr: u32,
    select: u32,
    ctrl: u32,
    power_acks: bool,
    access_ports: u16,
    base: u32,
    csw: u32,
    tar: u32,
    words_only: bool,
    memory: HashMap<u32, u8>,
    faults_on_data_read: u32,
    waits_on_data_write: u32,
    fail_all: Option<DebugProbeError>,
    fail_flush: Option<DebugProbeError>,
    flushes: u32,
    halted: bool,
    sleeping: bool,
    debugen: bool,
    refuses_halt: bool,
    refuses_step: bool,
    register_ready: bool,
    registers_stuck: bool,
    dfsr: u32,
    demcr: u32,
    dcrdr: u32,
    core_registers: [u32; 128],
    fp_ctrl: u32,
    nvmc_config: u32,
    nvmc_busy: u32,
    nvmc_stuck: bool,
}

impl Target {
    fn new() -> Target {
        let mut target = Target {
            log: Vec::new(),
            dpidr: 0x2BA0_1477,
            select: 0xDEAD_BEEF,
            ctrl: 0,
            power_acks: true,
            access_ports: 1,
            base: 0xE00F_F003,
            csw: 0x2300_0052,
            tar: 0,
            words_only: false,
            memory: HashMap::new(),
            faults_on_data_read: 0,
            waits_on_data_write: 0,
            fail_all: None,
            fail_flush: None,
            flushes: 0,
            halted: false,
            sleeping: false,
            debugen: false,
            refuses_halt: false,
            refuses_step: false,
            register_ready: false,
            registers_stuck: false,
            dfsr: 0,
            demcr: 0,
            dcrdr: 0,
            core_registers: [0; 128],
            fp_ctrl: 0x0000_0260,
            nvmc_config: 0,
            nvmc_busy: 0,
            nvmc_stuck: false,
        };
        // The ROM table of an nRF52.
        let base = 0xE00F_F000u32;
        for (offset, value) in [
            (0xFF0u32, 0x0Du32),
            (0xFF4, 0x10),
            (0xFF8, 0x05),
            (0xFFC, 0xB1),
            (0xFE0, 0x06),
            (0xFE4, 0x40),
            (0xFE8, 0x0C),
            (0xFEC, 0x00),
            (0xFD0, 0x02),
            (0xFD4, 0x00),
            (0xFD8, 0x00),
            (0xFDC, 0x00),
        ] {
            target.poke(base + offset, value);
        }
        // The vector table: initial stack pointer and reset vector.
        target.poke(0x0000_0000, 0x2000_4000);
        target.poke(0x0000_0004, 0x0000_01C1);
        target.core_registers[15] = 0x0000_0100;
        target.core_registers[16] = 0x0100_0000;
        target
    }

    fn peek(&self, address: u32) -> u32 {
        let mut word = 0u32;
        for lane in 0..4 {
            let byte = *self.memory.get(&(address.wrapping_add(lane))).unwrap_or(&0);
            word |= (byte as u32) << (8 * lane);
        }
        word
    }

    fn poke(&mut self, address: u32, value: u32) {
        for lane in 0..4 {
            self.memory.insert(address.wrapping_add(lane), (value >> (8 * lane)) as u8);
        }
    }

    fn load(&mut self, address: u32) -> u32 {
        match address {
            0xE000_EDF0 => {
                (self.debugen as u32)
                    | ((self.halted as u32) << 1)
                    | ((self.register_ready as u32) << 16)
                    | ((self.halted as u32) << 17)
                    | ((self.sleeping as u32) << 18)
            }
            0xE000_EDF8 => self.dcrdr,
            0xE000_ED30 => self.dfsr,
            0xE000_EDFC => self.demcr,
            0xE000_2000 => self.fp_ctrl,
            0x4001_E400 => {
                if self.nvmc_stuck {
                    0
                } else if self.nvmc_busy > 0 {
                    self.nvmc_busy -= 1;
                    0
                } else {
                    1
                }
            }
            _ => self.peek(address),
        }
    }

    fn store(&mut self, address: u32, value: u32) {
        match address {
            0xE000_EDF0 => {
                if value >> 16 != 0xA05F {
                    return;
                }
                self.debugen = value & 1 != 0;
                if value & 2 != 0 {
                    if !self.refuses_halt {
                        self.halted = true;
                        self.dfsr |= 1;
                    }
                } else if value & 4 != 0 {
                    if self.refuses_step {
                        self.halted = false;
                    } else {
                        self.core_registers[15] += 2;
                        self.halted = true;
                        self.dfsr |= 1;
                    }
                } else {
                    self.halted = false;
                }
            }
            0xE000_EDF4 => {
                let selector = (value & 0x7F) as usize;
                if value & (1 << 16) != 0 {
                    self.core_registers[selector] = self.dcrdr;
                } else {
                    self.dcrdr = self.core_registers[selector];
                }
                self.register_ready = !self.registers_stuck;
            }
            0xE000_EDF8 => self.dcrdr = value,
            0xE000_ED30 => self.dfsr &= !value,
            0xE000_EDFC => self.demcr = value,
            0xE000_ED0C => {
                if value >> 16 == 0x05FA && value & 4 != 0 {
                    self.core_registers[15] = self.peek(4) & !1;
                    self.core_registers[16] = 0;
                    self.dfsr = 0;
                    if self.demcr & 1 != 0 && !self.refuses_halt {
                        self.halted = true;
                        self.dfsr |= 1 << 3;
                    } else {
                        self.halted = false;
                    }
                }
            }
            0xE000_2000 => self.fp_ctrl = (self.fp_ctrl & !1) | (value & 1),
            0x4001_E504 => self.nvmc_config = value,
            0x4001_E508 => {
                if self.nvmc_config == 2 {
                    let page = value & !0xFFF;
                    for offset in 0..0x1000 {
                        self.memory.insert(page + offset, 0xFF);
                    }
                    self.nvmc_busy = 3;
                }
            }
            _ => {
                if address < 0x1000_0000 {
                    if self.nvmc_config == 1 {
                        self.poke(address, value);
                    }
                } else {
                    self.poke(address, value);
                }
            }
        }
    }

    fn advance(&mut self, step: u32) {
        self.tar = (self.tar & !0x3FF) | (self.tar.wrapping_add(step) & 0x3FF);
    }

    fn acknowledged(&self) -> u32 {
        let mut value = self.ctrl;
        if self.power_acks {
            if value & (1 << 30) != 0 {
                value |= 1 << 31;
            }
            if value & (1 << 28) != 0 {
                value |= 1 << 29;
            }
        }
        value
    }

    fn check_selection(&self, port: u16, addr: u16) {
        assert_eq!(self.select >> 24, port as u32, "access to a port that is not selected");
        assert_eq!((self.select >> 4) & 0xF, (addr as u32 >> 4) & 0xF, "access to a bank that is not selected");
    }

    fn read(&mut self, port: PortType, addr: u16) -> Result<u32, DebugProbeError> {
        if let Some(error) = self.fail_all {
            return Err(error);
        }
        match port {
            PortType::DebugPort => match addr {
                0x0 => Ok(self.dpidr),
                0x4 => {
                    assert_eq!(self.select & 0xF, 0, "CTRL/STAT read in the wrong bank");
                    Ok(self.acknowledged())
                }
                _ => Ok(0),
            },
            PortType::AccessPort(port) => {
                self.check_selection(port, addr);
                if port >= self.access_ports {
                    return Ok(0);
                }
                match addr {
                    0x00 => Ok(self.csw),
                    0x04 => Ok(self.tar),
                    0x0C => {
                        if self.faults_on_data_read > 0 {
                            self.faults_on_data_read -= 1;
                            self.ctrl |= 1 << 5;
                            return Err(DebugProbeError::ArchitectureSpecific(
                                DapError::FaultResponse,
                            ));
                        }
                        if self.csw & 7 == 2 {
                            assert_eq!(self.tar % 4, 0);
                            let value = self.load(self.tar);
                            self.advance(4);
                            Ok(value)
                        } else if self.csw & 7 == 1 {
                            assert_eq!(self.tar % 2, 0);
                            let lane = self.tar % 4;
                            let word = self.load(self.tar & !3);
                            self.advance(2);
                            Ok(word & (0xFFFF << (8 * lane)))
                        } else {
                            assert_eq!(self.csw & 7, 0);
                            let lane = self.tar % 4;
                            let word = self.load(self.tar & !3);
                            self.advance(1);
                            Ok(word & (0xFF << (8 * lane)))
                        }
                    }
                    0xF0 => Ok(0),
                    0xF8 => Ok(self.base),
                    0xFC => Ok(0x2477_0011),
                    _ => Ok(0),
                }
            }
        }
    }

    fn write(&mut self, port: PortType, addr: u16, value: u32) -> Result<(), DebugProbeError> {
        if let Some(error) = self.fail_all {
            return Err(error);
        }
        match port {
            PortType::DebugPort => {
                match addr {
                    0x0 => {
                        if value & (1 << 2) != 0 {
                            self.ctrl &= !(1 << 5);
                        }
                        if value & (1 << 4) != 0 {
                            self.ctrl &= !(1 << 1);
                        }
                    }
                    0x4 => {
                        assert_eq!(self.select & 0xF, 0, "CTRL/STAT written in the wrong bank");
                        self.ctrl = (self.ctrl & 0xA2) | (value & !0xA000_00A2);
                    }
                    0x8 => self.select = value,
                    _ => {}
                }
                Ok(())
            }
            PortType::AccessPort(port) => {
                self.check_selection(port, addr);
                if port >= self.access_ports {
                    return Ok(());
                }
                match addr {
                    0x00 => {
                        self.csw = if self.words_only { (value & !7) | 2 } else { value };
                    }
                    0x04 => self.tar = value,
                    0x0C => {
                        if self.waits_on_data_write > 0 {
                            self.waits_on_data_write -= 1;
                            self.ctrl |= 1 << 7;
                            return Err(DebugProbeError::ArchitectureSpecific(
                                DapError::WaitResponse,
                            ));
                        }
                        if self.csw & 7 == 2 {
                            assert_eq!(self.tar % 4, 0);
                            self.store(self.tar, value);
                            self.advance(4);
                        } else if self.csw & 7 == 1 {
                            assert_eq!(self.tar % 2, 0);
                            let lane = self.tar % 4;
                            let address = self.tar & !3;
                            let old = self.peek(address);
                            let mask = 0xFFFFu32 << (8 * lane);
                            self.poke(address, (old & !mask) | (value & mask));
                            self.advance(2);
                        } else {
                            assert_eq!(self.csw & 7, 0);
                            let lane = self.tar % 4;
                            let address = self.tar & !3;
                            let old = self.peek(address);
                            let mask = 0xFFu32 << (8 * lane);
                            self.poke(address, (old & !mask) | (value & mask));
                            self.advance(1);
                        }
                    }
                    _ => {}
                }
                Ok(())
            }
        }
    }

    fn count(&self, wanted: fn(&Transfer) -> bool) -> usize {
        self.log.iter().filter(|transfer| wanted(transfer)).count()
    }
}

fn is_select_write(transfer: &Transfer) -> bool {
    matches!(transfer, Transfer::Write { port: PortType::DebugPort, addr: 0x8, .. })
}

fn is_tar_write(transfer: &Transfer) -> bool {
    matches!(transfer, Transfer::Write { port: PortType::AccessPort(_), addr: 0x4, .. })
}

fn is_data_transfer(transfer: &Transfer) -> bool {
    matches!(
        transfer,
        Transfer::Write { port: PortType::AccessPort(_), addr: 0xC, .. }
            | Transfer::Read { port: PortType::AccessPort(_), addr: 0xC, .. }
    )
}

impl DAPAccess for Target {
    fn transfers(&self) -> vstd::seq::Seq<Transfer> {
        unreachable!("the history is ghost state")
    }

    fn read_register(&mut self, port: PortType, addr: u16) -> Result<u32, DebugProbeError> {
        let data = self.read(port, addr);
        self.log.push(Transfer::Read { port, addr, data });
        data
    }

    fn write_register(
        &mut self,
        port: PortType,
        addr: u16,
        value: u32,
    ) -> Result<(), DebugProbeError> {
        let status = self.write(port, addr, value);
        self.log.push(Transfer::Write { port, addr, value, failure: status.err() });
        status
    }

    fn flush(&mut self) -> Result<(), DebugProbeError> {
        self.flushes += 1;
        let failure = self.fail_flush.take();
        self.log.push(Transfer::Flush { failure });
        match failure {
            Some(error) => Err(error),
            None => Ok(()),
        }
    }
}

fn read(port: PortType, addr: u16, value: u32) -> Transfer {
    Transfer::Read { port, addr, data: Ok(value) }
}

fn flush() -> Transfer {
    Transfer::Flush { failure: None }
}

fn write(port: PortType, addr: u16, value: u32) -> Transfer {
    Transfer::Write { port, addr, value, failure: None }
}

fn attach(target: Target) -> ArmCommunicationInterface<Target> {
    match ArmCommunicationInterface::new(target, ArmCommunicationInterfaceState::new()) {
        Ok(interface) => interface,
        Err((error, _)) => panic!("attach failed: {:?}", error),
    }
}

fn engine(target: Target) -> ADIMemoryInterface<Target> {
    let words_only = target.words_only;
    ADIMemoryInterface::new(attach(target), MemoryAP::new(0), words_only)
}

/// The engine again, on an empty history, with the target changed.
fn relog(memory: ADIMemoryInterface<Target>, change: fn(&mut Target)) -> ADIMemoryInterface<Target> {
    let (mut target, state) = memory.into_interface().release();
    target.log.clear();
    change(&mut target);
    let words_only = target.words_only;
    match ArmCommunicationInterface::new(target, state) {
        Ok(interface) => ADIMemoryInterface::new(interface, MemoryAP::new(0), words_only),
        Err(_) => panic!("attach failed"),
    }
}

fn unchanged(_: &mut Target) {
}

fn target_of(memory: ADIMemoryInterface<Target>) -> Target {
    memory.into_interface().release().0
}

fn cortex_m(target: Target) -> M4<ADIMemoryInterface<Target>> {
    match M4::new(engine(target), CortexState::new()) {
        Ok(m4) => m4,
        Err((error, _)) => panic!("no processor: {:?}", error),
    }
}

#[test]
fn default_block_transfers_fan_out() {
    let mut target = Target::new();
    target.select = 0;
    target.write_block(AP0, 0x04, &[0x2000_0000]).unwrap();
    target.write_block(AP0, 0x00, &[0x2300_0012]).unwrap();
    target.write_block(AP0, 0x0C, &[1, 2, 3]).unwrap();
    target.write_block(AP0, 0x04, &[0x2000_0000]).unwrap();
    let mut values = [0u32; 3];
    target.read_block(AP0, 0x0C, &mut values).unwrap();
    assert_eq!(values, [1, 2, 3]);
    assert_eq!(
        target.log[2..5],
        [write(AP0, 0xC, 1), write(AP0, 0xC, 2), write(AP0, 0xC, 3)]
    );
    assert_eq!(target.log[6..], [read(AP0, 0xC, 1), read(AP0, 0xC, 2), read(AP0, 0xC, 3)]);
    target.write_block(AP0, 0x04, &[0x2000_0000]).unwrap();
    target.faults_on_data_read = 1;
    target.tar = 0x2000_0004;
    let mut values = [7u32; 3];
    assert_eq!(
        target.read_block(AP0, 0x0C, &mut values),
        Err(DebugProbeError::ArchitectureSpecific(DapError::FaultResponse))
    );
    assert!(DAPAccess::flush(&mut target).is_ok());
}

#[test]
fn debug_port_version_is_read_from_dpidr() {
    let mut target = Target::new();
    assert_eq!(get_debug_port_version(&mut target), Ok(DebugPortVersion::DPv1));
    assert_eq!(target.log, vec![read(DP, 0, 0x2BA0_1477)]);
    target.dpidr = 0x0000_2000;
    assert_eq!(get_debug_port_version(&mut target), Ok(DebugPortVersion::DPv2));
    target.fail_all = Some(DebugProbeError::Usb);
    assert_eq!(get_debug_port_version(&mut target), Err(DebugProbeError::Usb));
}

#[test]
fn attach_powers_up_and_enumerates() {
    let interface = attach(Target::new());
    assert_eq!(
        interface.ap_information(GenericAP::new(0)),
        Some(&ApInformation::MemoryAp {
            port_number: 0,
            only_32bit_data_size: false,
            debug_base_address: 0xE00F_F000,
        })
    );
    assert_eq!(interface.ap_information(GenericAP::new(1)), None);
    let (target, state) = interface.release();
    assert!(state.initialized());
    assert_eq!(state.debug_port_version(), DebugPortVersion::DPv1);
    assert_eq!(state.access_port_count(), 1);
    assert_eq!(
        target.log[..5],
        [
            read(DP, 0x0, 0x2BA0_1477),
            write(DP, 0x0, 0x1E),
            write(DP, 0x8, 0),
            write(DP, 0x4, 0x5000_0000),
            read(DP, 0x4, 0xF000_0000),
        ]
    );
    // The walk over the ports: IDR of port 0, and of port 1, which has none.
    assert_eq!(
        target.log[5..9],
        [
            write(DP, 0x8, 0x0000_00F0),
            read(AP0, 0xFC, 0x2477_0011),
            write(DP, 0x8, 0x0100_00F0),
            read(PortType::AccessPort(1), 0xFC, 0),
        ]
    );
    // What port 0 is: IDR, BASE, BASE2, and the probe for narrow transfers.
    assert_eq!(
        target.log[9..],
        [
            write(DP, 0x8, 0x0000_00F0),
            read(AP0, 0xFC, 0x2477_0011),
            read(AP0, 0xF8, 0xE00F_F003),
            read(AP0, 0xF0, 0),
            write(DP, 0x8, 0x0000_0000),
            read(AP0, 0x00, 0x2300_0052),
            write(AP0, 0x00, 0x2300_0050),
            read(AP0, 0x00, 0x2300_0050),
        ]
    );
}

#[test]
fn attach_leaves_an_initialized_state_alone() {
    let interface = attach(Target::new());
    let (mut target, state) = interface.release();
    target.log.clear();
    let interface = match ArmCommunicationInterface::new(target, state) {
        Ok(interface) => interface,
        Err(_) => panic!("attach failed"),
    };
    assert!(interface.ap_information(GenericAP::new(0)).is_some());
    let (target, state) = interface.release();
    assert!(target.log.is_empty());
    assert!(state.initialized());
}

#[test]
fn attach_fails_without_power() {
    let mut target = Target::new();
    target.power_acks = false;
    match ArmCommunicationInterface::new(target, ArmCommunicationInterfaceState::new()) {
        Ok(_) => panic!("power-up should have failed"),
        Err((error, interface)) => {
            assert_eq!(
                error,
                DebugProbeError::ArchitectureSpecific(DapError::TargetPowerUpFailed)
            );
            let (target, state) = interface.release();
            assert!(!state.initialized());
            assert_eq!(target.log.len(), 5);
            assert_eq!(target.log[4], read(DP, 0x4, 0x5000_0000));
        }
    }
}

#[test]
fn attach_refuses_registers_of_a_newer_debug_port() {
    let mut target = Target::new();
    target.dpidr = 0x2BA0_0477;
    match ArmCommunicationInterface::new(target, ArmCommunicationInterfaceState::new()) {
        Ok(_) => panic!("a version 0 debug port has no ABORT register"),
        Err((error, interface)) => {
            assert_eq!(
                error,
                DebugProbeError::UnsupportedRegister {
                    register: "ABORT",
                    version: DebugPortVersion::DPv0,
                }
            );
            let (target, _) = interface.release();
            assert_eq!(target.log, vec![read(DP, 0x0, 0x2BA0_0477)]);
        }
    }
}

#[test]
fn attach_passes_transport_errors_on() {
    let mut target = Target::new();
    target.fail_all = Some(DebugProbeError::Usb);
    match ArmCommunicationInterface::new(target, ArmCommunicationInterfaceState::new()) {
        Ok(_) => panic!("the transport was down"),
        Err((error, interface)) => {
            assert_eq!(error, DebugProbeError::Usb);
            let (target, _) = interface.release();
            assert_eq!(
                target.log,
                vec![Transfer::Read { port: DP, addr: 0, data: Err(DebugProbeError::Usb) }]
            );
        }
    }
}

#[test]
fn select_is_written_only_when_the_selection_changes() {
    let (mut target, state) = attach(Target::new()).release();
    target.log.clear();
    let mut interface = match ArmCommunicationInterface::new(target, state) {
        Ok(interface) => interface,
        Err(_) => panic!("attach failed"),
    };
    let port = MemoryAP::new(0);
    // After the attach, port 0 and bank 0 are selected.
    interface.write_ap_register(port, TAR(0x2000_0000)).unwrap();
    interface.write_ap_register(port, CSW(0x2300_0012)).unwrap();
    interface.write_ap_register(port, DRW(5)).unwrap();
    // One change of the bank, for two accesses.
    let idr = interface.read_ap_register(GenericAP::new(0), IDR(0)).unwrap();
    let again = interface.read_ap_register(GenericAP::new(0), IDR(0)).unwrap();
    assert_eq!(idr, IDR(0x2477_0011));
    assert_eq!(again, idr);
    // Debug port registers that do not care about the bank change nothing.
    assert_eq!(interface.read_dp_register::<DPIDR>(), Ok(DPIDR(0x2BA0_1477)));
    interface.write_dp_register(Abort(0)).unwrap();
    // CTRL/STAT lives in bank 0, which is still selected.
    assert!(interface.read_dp_register::<Ctrl>().is_ok());
    // Back to bank 0 of the port: the second change.
    assert_eq!(interface.read_ap_register(port, TAR(0)), Ok(TAR(0x2000_0004)));
    // Another port: the third change.
    assert_eq!(interface.read_ap_register(MemoryAP::new(5), CSW(7)), Ok(CSW(0)));
    let (target, _) = interface.release();
    assert_eq!(target.count(is_select_write), 3);
    assert_eq!(
        target.log,
        vec![
            write(AP0, 0x4, 0x2000_0000),
            write(AP0, 0x0, 0x2300_0012),
            write(AP0, 0xC, 5),
            write(DP, 0x8, 0x0000_00F0),
            read(AP0, 0xFC, 0x2477_0011),
            read(AP0, 0xFC, 0x2477_0011),
            read(DP, 0x0, 0x2BA0_1477),
            write(DP, 0x0, 0),
            read(DP, 0x4, 0xF000_0000),
            write(DP, 0x8, 0x0000_0000),
            read(AP0, 0x4, 0x2000_0004),
            write(DP, 0x8, 0x0500_0000),
            read(PortType::AccessPort(5), 0x0, 0),
        ]
    );
}

#[test]
fn a_reborrowed_session_is_the_same_session() {
    let mut interface = attach(Target::new());
    {
        let session = interface.reborrow();
        session.write_dp_register(Select(0x0000_00F0)).unwrap();
    }
    assert_eq!(interface.read_ap_register(GenericAP::new(0), IDR(0)), Ok(IDR(0x2477_0011)));
    let (target, _) = interface.release();
    // Five writes of SELECT for the attach, and the one through the
    // borrowed session; the read of IDR needs none after that.
    assert_eq!(target.count(is_select_write), 6);
}

#[test]
fn a_write_to_select_is_remembered() {
    let mut interface = attach(Target::new());
    interface.write_dp_register(Select(0x0000_00F0)).unwrap();
    // Port 0 and bank 0xF are selected now: no write of SELECT is needed.
    interface.read_ap_register(GenericAP::new(0), IDR(0)).unwrap();
    let (target, _) = interface.release();
    let tail = &target.log[target.log.len() - 2..];
    assert_eq!(tail, [write(DP, 0x8, 0x0000_00F0), read(AP0, 0xFC, 0x2477_0011)]);
}

#[test]
fn a_failed_select_is_written_again() {
    let mut interface = attach(Target::new());
    let (mut target, state) = interface.release();
    target.fail_all = Some(DebugProbeError::Usb);
    target.log.clear();
    interface = match ArmCommunicationInterface::new(target, state) {
        Ok(interface) => interface,
        Err(_) => panic!("attach failed"),
    };
    assert_eq!(
        interface.read_ap_register(GenericAP::new(0), IDR(0)),
        Err(DebugProbeError::Usb)
    );
    let (mut target, state) = interface.release();
    target.fail_all = None;
    interface = match ArmCommunicationInterface::new(target, state) {
        Ok(interface) => interface,
        Err(_) => panic!("attach failed"),
    };
    assert_eq!(
        interface.read_ap_register(GenericAP::new(0), IDR(0)),
        Ok(IDR(0x2477_0011))
    );
    let (target, _) = interface.release();
    assert_eq!(
        target.log,
        vec![
            Transfer::Write {
                port: DP,
                addr: 0x8,
                value: 0x0000_00F0,
                failure: Some(DebugProbeError::Usb),
            },
            write(DP, 0x8, 0x0000_00F0),
            read(AP0, 0xFC, 0x2477_0011),
        ]
    );
}

#[test]
fn repeated_register_access_selects_once() {
    let mut interface = attach(Target::new());
    let (mut target, state) = interface.release();
    target.log.clear();
    interface = match ArmCommunicationInterface::new(target, state) {
        Ok(interface) => interface,
        Err(_) => panic!("attach failed"),
    };
    let port = MemoryAP::new(0);
    interface.write_ap_register(port, CSW(0x2300_0012)).unwrap();
    interface.write_ap_register(port, TAR(0x2000_0100)).unwrap();
    interface.write_ap_register_repeated(port, DRW(0), &[1, 2, 3]).unwrap();
    interface.write_ap_register(port, TAR(0x2000_0100)).unwrap();
    let mut values = [0u32; 3];
    interface.read_ap_register_repeated(port, DRW(0), &mut values).unwrap();
    assert_eq!(values, [1, 2, 3]);
    assert!(interface.flush().is_ok());
    let (target, _) = interface.release();
    assert_eq!(target.count(is_select_write), 0);
    assert_eq!(target.count(is_data_transfer), 6);
    assert_eq!(target.flushes, 1);
}

#[test]
fn only_32bit_access_is_detected() {
    let mut target = Target::new();
    target.words_only = true;
    target.csw = 0x2300_0052;
    let mut interface = attach(target);
    assert_eq!(
        interface.ap_information(GenericAP::new(0)),
        Some(&ApInformation::MemoryAp {
            port_number: 0,
            only_32bit_data_size: true,
            debug_base_address: 0xE00F_F000,
        })
    );
    assert_eq!(ap_supports_only_32bit_access(&mut interface, MemoryAP::new(0)), Ok(true));
    let mut interface = attach(Target::new());
    assert_eq!(ap_supports_only_32bit_access(&mut interface, MemoryAP::new(0)), Ok(false));
    let ports = interface.valid_access_ports();
    assert_eq!(ports, vec![GenericAP::new(0)]);
    assert_eq!(
        interface.read_ap_information(GenericAP::new(1)),
        Ok(ApInformation::Other { port_number: 1 })
    );
}

#[test]
fn chip_is_identified_from_the_rom_table() {
    let (interface, found) = ArmChipInfo::read_from_rom_table(attach(Target::new()));
    assert_eq!(
        found,
        Ok(Some(ArmChipInfo { manufacturer: JEP106Code { cc: 0x02, id: 0x44 }, part: 0x0006 }))
    );
    let (target, _) = interface.release();
    // The last transfers are the reads of the identification registers.
    let tail = &target.log[target.log.len() - 19..];
    assert_eq!(
        tail,
        [
            write(AP0, 0x0, 0xA300_0012),
            write(AP0, 0x4, 0xE00F_FFF0),
            read(AP0, 0xC, 0x0D),
            read(AP0, 0xC, 0x10),
            read(AP0, 0xC, 0x05),
            read(AP0, 0xC, 0xB1),
            flush(),
            write(AP0, 0x4, 0xE00F_FFD0),
            read(AP0, 0xC, 0x02),
            read(AP0, 0xC, 0x00),
            read(AP0, 0xC, 0x00),
            read(AP0, 0xC, 0x00),
            flush(),
            write(AP0, 0x4, 0xE00F_FFE0),
            read(AP0, 0xC, 0x06),
            read(AP0, 0xC, 0x40),
            read(AP0, 0xC, 0x0C),
            read(AP0, 0xC, 0x00),
            flush(),
        ]
    );
}

#[test]
fn no_rom_table_is_no_error() {
    let mut target = Target::new();
    target.poke(0xE00F_FFF4, 0x90);
    let (_, found) = ArmChipInfo::read_from_rom_table(attach(target));
    assert_eq!(found, Ok(None));
    let mut target = Target::new();
    target.access_ports = 0;
    let (_, found) = ArmChipInfo::read_from_rom_table(attach(target));
    assert_eq!(found, Ok(None));
}

#[test]
fn rom_table_read_failure_is_passed_on() {
    let interface = attach(Target::new());
    let (mut target, state) = interface.release();
    target.faults_on_data_read = 1;
    let interface = match ArmCommunicationInterface::new(target, state) {
        Ok(interface) => interface,
        Err(_) => panic!("attach failed"),
    };
    let (_, found) = ArmChipInfo::read_from_rom_table(interface);
    assert_eq!(
        found,
        Err(Error::Probe(DebugProbeError::ArchitectureSpecific(DapError::FaultResponse)))
    );
}

#[test]
fn word_access_sets_up_width_address_and_data() {
    let mut memory = engine(Target::new());
    memory.write_word_32(0x2000_0010, 0xCAFE_F00D).unwrap();
    assert_eq!(memory.read_word_32(0x2000_0010), Ok(0xCAFE_F00D));
    assert_eq!(memory.read_word_32(0x2000_0014), Ok(0));
    let target = target_of(memory);
    let tail = &target.log[target.log.len() - 10..];
    assert_eq!(
        tail,
        [
            write(AP0, 0x0, 0xA300_0012),
            write(AP0, 0x4, 0x2000_0010),
            write(AP0, 0xC, 0xCAFE_F00D),
            flush(),
            write(AP0, 0x4, 0x2000_0010),
            read(AP0, 0xC, 0xCAFE_F00D),
            flush(),
            write(AP0, 0x4, 0x2000_0014),
            read(AP0, 0xC, 0),
            flush(),
        ]
    );
    assert_eq!(target.flushes, 3);
}

#[test]
fn unaligned_word_access_is_refused() {
    let mut memory = engine(Target::new());
    assert_eq!(
        memory.read_word_32(0x2000_0002),
        Err(Error::UnalignedAddress { address: 0x2000_0002, alignment: 4 })
    );
    assert_eq!(
        memory.write_word_32(0x2000_0001, 1),
        Err(Error::UnalignedAddress { address: 0x2000_0001, alignment: 4 })
    );
    let mut data = [0u32; 2];
    assert_eq!(
        memory.read_32(0x2000_0003, &mut data),
        Err(Error::UnalignedAddress { address: 0x2000_0003, alignment: 4 })
    );
    assert_eq!(
        memory.write_32(0x2000_0002, &data),
        Err(Error::UnalignedAddress { address: 0x2000_0002, alignment: 4 })
    );
    assert_eq!(memory.write_32(0xFFFF_FFF8, &[0; 3]), Err(Error::OutOfBounds));
    assert_eq!(memory.read_32(0xFFFF_FFFC, &mut data), Err(Error::OutOfBounds));
    assert_eq!(memory.write_8(0xFFFF_FFFE, &[0; 3]), Err(Error::OutOfBounds));
    let mut bytes = [0u8; 2];
    assert_eq!(memory.read_8(0xFFFF_FFFF, &mut bytes), Err(Error::OutOfBounds));
    let target = target_of(memory);
    assert_eq!(target.count(is_data_transfer), 0);
    assert_eq!(target.count(is_tar_write), 0);
}

#[test]
fn empty_blocks_transfer_nothing() {
    let mut memory = engine(Target::new());
    let before = 17;
    assert_eq!(memory.write_32(0x2000_0000, &[]), Ok(()));
    assert_eq!(memory.read_32(0x2000_0000, &mut []), Ok(()));
    assert_eq!(memory.write_8(0x2000_0001, &[]), Ok(()));
    assert_eq!(memory.read_8(0x2000_0001, &mut []), Ok(()));
    let target = target_of(memory);
    assert_eq!(target.log.len(), before);
}

fn windows(address: u32, bytes: u32) -> usize {
    let end = address as u64 + bytes as u64;
    ((end + 1023) / 1024 - address as u64 / 1024) as usize
}

#[test]
fn tar_is_written_once_for_every_window() {
    for (address, words) in [
        (0x2000_0000u32, 1usize),
        (0x2000_0000, 256),
        (0x2000_0000, 257),
        (0x2000_03FC, 1),
        (0x2000_03FC, 2),
        (0x2000_0010, 1024),
        (0x2000_0400, 512),
        (0x2000_07F0, 5),
        (0xFFFF_FC00, 256),
    ] {
        let data: Vec<u32> = (0..words as u32).map(|i| i.wrapping_mul(0x0101_0101) ^ address).collect();
        let mut memory = engine(Target::new());
        memory.write_32(address, &data).unwrap();
        let target = target_of(memory);
        assert_eq!(target.count(is_tar_write), windows(address, 4 * words as u32));
        assert_eq!(target.count(is_data_transfer), words);
        // No run of data transfers crosses from one window into the next.
        let mut at = 0u32;
        for transfer in &target.log {
            match transfer {
                Transfer::Write { port: PortType::AccessPort(_), addr: 0x4, value, .. } => {
                    at = *value;
                }
                Transfer::Write { port: PortType::AccessPort(_), addr: 0xC, .. } => {
                    let next = at.wrapping_add(4);
                    assert!(at / 1024 == (next - 1) / 1024 || next == 0);
                    at = next;
                }
                _ => {}
            }
        }
        let mut memory = engine(target);
        let mut back = vec![0u32; words];
        memory.read_32(address, &mut back).unwrap();
        assert_eq!(back, data);
    }
}

#[test]
fn block_write_crosses_a_window_with_a_new_tar() {
    let mut memory = engine(Target::new());
    memory.write_32(0x2000_03F8, &[1, 2, 3, 4]).unwrap();
    let target = target_of(memory);
    let tail = &target.log[target.log.len() - 8..];
    assert_eq!(
        tail,
        [
            write(AP0, 0x0, 0xA300_0012),
            write(AP0, 0x4, 0x2000_03F8),
            write(AP0, 0xC, 1),
            write(AP0, 0xC, 2),
            write(AP0, 0x4, 0x2000_0400),
            write(AP0, 0xC, 3),
            write(AP0, 0xC, 4),
            flush(),
        ]
    );
    assert_eq!(target.peek(0x2000_03FC), 2);
    assert_eq!(target.peek(0x2000_0400), 3);
}

#[test]
fn ram_round_trip() {
    let mut m4 = cortex_m(Target::new());
    m4.halt().unwrap();
    let mut seed = 0x1234_5678u32;
    let sample: Vec<u32> = (0..1024)
        .map(|_| {
            seed ^= seed << 13;
            seed ^= seed >> 17;
            seed ^= seed << 5;
            seed
        })
        .collect();
    m4.write_32(0x2000_0000, &sample).unwrap();
    let mut readback = vec![0u32; 1024];
    m4.read_32(0x2000_0000, &mut readback).unwrap();
    assert_eq!(readback, sample);
    let mut bytes = vec![0u8; 4096];
    m4.read_8(0x2000_0000, &mut bytes).unwrap();
    for (index, word) in sample.iter().enumerate() {
        assert_eq!(bytes[4 * index..4 * index + 4], word.to_le_bytes());
    }
}

#[test]
fn byte_access_uses_the_byte_width() {
    let mut memory = engine(Target::new());
    memory.write_word_32(0x2000_0020, 0x4433_2211).unwrap();
    assert_eq!(memory.read_word_8(0x2000_0021), Ok(0x22));
    memory.write_word_8(0x2000_0022, 0xEE).unwrap();
    assert_eq!(memory.read_word_32(0x2000_0020), Ok(0x44EE_2211));
    let target = target_of(memory);
    let tail = &target.log[target.log.len() - 11..];
    assert_eq!(
        tail,
        [
            write(AP0, 0x0, 0xA300_0010),
            write(AP0, 0x4, 0x2000_0021),
            read(AP0, 0xC, 0x0000_2200),
            flush(),
            write(AP0, 0x4, 0x2000_0022),
            write(AP0, 0xC, 0x00EE_0000),
            flush(),
            write(AP0, 0x0, 0xA300_0012),
            write(AP0, 0x4, 0x2000_0020),
            read(AP0, 0xC, 0x44EE_2211),
            flush(),
        ]
    );
}

#[test]
fn half_word_access() {
    for words_only in [false, true] {
        let mut target = Target::new();
        target.words_only = words_only;
        let mut memory = engine(target);
        memory.write_word_32(0x2000_0030, 0x4433_2211).unwrap();
        assert_eq!(memory.read_word_16(0x2000_0030), Ok(0x2211));
        assert_eq!(memory.read_word_16(0x2000_0032), Ok(0x4433));
        memory.write_word_16(0x2000_0032, 0xBEEF).unwrap();
        assert_eq!(memory.read_word_32(0x2000_0030), Ok(0xBEEF_2211));
        memory.write_word_16(0x2000_0030, 0xCAFE).unwrap();
        assert_eq!(memory.read_word_32(0x2000_0030), Ok(0xBEEF_CAFE));
        assert_eq!(
            memory.read_word_16(0x2000_0031),
            Err(Error::UnalignedAddress { address: 0x2000_0031, alignment: 2 })
        );
        assert_eq!(
            memory.write_word_16(0x2000_0033, 1),
            Err(Error::UnalignedAddress { address: 0x2000_0033, alignment: 2 })
        );
        let target = target_of(memory);
        if words_only {
            assert!(!target.log.contains(&write(AP0, 0x0, 0xA300_0011)));
        } else {
            assert!(target.log.contains(&write(AP0, 0x0, 0xA300_0011)));
            assert!(target.log.contains(&write(AP0, 0xC, 0xBEEF_0000)));
        }
    }
}

#[test]
fn sub_word_writes_read_modify_write_on_a_word_only_port() {
    for lane in 0..4u32 {
        let mut target = Target::new();
        target.words_only = true;
        let mut memory = engine(target);
        memory.write_word_32(0x2000_0040, 0xAABB_CCDD).unwrap();
        memory.write_word_8(0x2000_0040 + lane, 0x5A).unwrap();
        let word = memory.read_word_32(0x2000_0040).unwrap();
        for other in 0..4u32 {
            let expected = if other == lane { 0x5A } else { (0xAABB_CCDDu32 >> (8 * other)) as u8 };
            assert_eq!((word >> (8 * other)) as u8, expected);
            assert_eq!(memory.read_word_8(0x2000_0040 + other), Ok(expected));
        }
        let target = target_of(memory);
        // Every data transfer went out at the word width.
        assert_eq!(target.csw & 7, 2);
    }
}

#[test]
fn read_modify_write_transfers() {
    let mut target = Target::new();
    target.words_only = true;
    let mut memory = engine(target);
    memory.write_word_32(0x2000_0040, 0xAABB_CCDD).unwrap();
    memory.write_word_8(0x2000_0041, 0x5A).unwrap();
    let target = target_of(memory);
    let tail = &target.log[target.log.len() - 6..];
    assert_eq!(
        tail,
        [
            write(AP0, 0x4, 0x2000_0040),
            read(AP0, 0xC, 0xAABB_CCDD),
            flush(),
            write(AP0, 0x4, 0x2000_0040),
            write(AP0, 0xC, 0xAABB_5ADD),
            flush(),
        ]
    );
}

#[test]
fn byte_blocks_round_trip() {
    for words_only in [false, true] {
        let mut target = Target::new();
        target.words_only = words_only;
        let mut memory = engine(target);
        memory.write_32(0x2000_0100, &[0x0403_0201, 0x0807_0605, 0x0C0B_0A09]).unwrap();
        memory.write_8(0x2000_0102, &[0xA1, 0xA2, 0xA3, 0xA4, 0xA5]).unwrap();
        let mut bytes = [0u8; 12];
        memory.read_8(0x2000_0100, &mut bytes).unwrap();
        assert_eq!(bytes, [1, 2, 0xA1, 0xA2, 0xA3, 0xA4, 0xA5, 8, 9, 10, 11, 12]);
        let mut some = [0u8; 3];
        memory.read_8(0x2000_0103, &mut some).unwrap();
        assert_eq!(some, [0xA2, 0xA3, 0xA4]);
    }
}

#[test]
fn sticky_fault_is_cleared_and_the_error_surfaced() {
    let mut target = Target::new();
    target.poke(0x2000_0000, 77);
    fn inject(target: &mut Target) {
        target.faults_on_data_read = 1;
    }
    let mut memory = relog(engine(target), inject);
    assert_eq!(
        memory.read_word_32(0x2000_0000),
        Err(Error::Probe(DebugProbeError::ArchitectureSpecific(DapError::FaultResponse)))
    );
    // The next call succeeds, and no sticky flag is left.
    assert_eq!(memory.read_word_32(0x2000_0000), Ok(77));
    let target = target_of(memory);
    assert_eq!(target.ctrl & 0xB2, 0);
    assert_eq!(
        target.log,
        vec![
            write(AP0, 0x0, 0xA300_0012),
            write(AP0, 0x4, 0x2000_0000),
            Transfer::Read {
                port: AP0,
                addr: 0xC,
                data: Err(DebugProbeError::ArchitectureSpecific(DapError::FaultResponse)),
            },
            read(DP, 0x4, 0xF000_0020),
            write(DP, 0x0, 1 << 2),
            write(AP0, 0x4, 0x2000_0000),
            read(AP0, 0xC, 77),
            flush(),
        ]
    );
}

#[test]
fn wait_on_a_write_is_recovered_from() {
    let mut target = Target::new();
    target.waits_on_data_write = 1;
    let mut memory = engine(target);
    assert_eq!(
        memory.write_32(0x2000_0000, &[1, 2]),
        Err(Error::Probe(DebugProbeError::ArchitectureSpecific(DapError::WaitResponse)))
    );
    let target = target_of(memory);
    let tail = &target.log[target.log.len() - 2..];
    assert_eq!(tail, [read(DP, 0x4, 0xF000_0080), write(DP, 0x0, 1 << 3)]);
}

#[test]
fn other_errors_are_surfaced_without_recovery() {
    fn cut(target: &mut Target) {
        target.fail_all = Some(DebugProbeError::Timeout);
    }
    let mut memory = relog(engine(Target::new()), cut);
    assert_eq!(
        memory.write_word_32(0x2000_0000, 1),
        Err(Error::Probe(DebugProbeError::Timeout))
    );
    assert_eq!(memory.read_word_8(0x2000_0000), Err(Error::Probe(DebugProbeError::Timeout)));
    let target = target_of(memory);
    // One failed transfer for each of the two calls, and nothing after it.
    assert_eq!(
        target.log,
        vec![
            Transfer::Write {
                port: AP0,
                addr: 0x0,
                value: 0xA300_0012,
                failure: Some(DebugProbeError::Timeout),
            },
            Transfer::Write {
                port: AP0,
                addr: 0x0,
                value: 0xA300_0010,
                failure: Some(DebugProbeError::Timeout),
            },
        ]
    );
}

#[test]
fn flush_failure_is_reported() {
    let mut target = Target::new();
    target.fail_flush = Some(DebugProbeError::Usb);
    let mut memory = engine(target);
    assert_eq!(memory.write_word_32(0x2000_0000, 1), Err(Error::Probe(DebugProbeError::Usb)));
    assert_eq!(memory.write_word_32(0x2000_0000, 1), Ok(()));
    let target = target_of(memory);
    // The flush that failed stands behind the transfers of the first call.
    let tail = &target.log[target.log.len() - 7..];
    assert_eq!(
        tail,
        [
            write(AP0, 0x0, 0xA300_0012),
            write(AP0, 0x4, 0x2000_0000),
            write(AP0, 0xC, 1),
            Transfer::Flush { failure: Some(DebugProbeError::Usb) },
            write(AP0, 0x4, 0x2000_0000),
            write(AP0, 0xC, 1),
            flush(),
        ]
    );
}

#[test]
fn core_is_found_running() {
    let m4 = cortex_m(Target::new());
    let (memory, state) = m4.release();
    assert!(state.initialized());
    assert_eq!(state.current_state, CoreStatus::Running);
    let target = target_of(memory);
    let tail = &target.log[target.log.len() - 7..];
    assert_eq!(
        tail,
        [
            write(AP0, 0x0, 0xA300_0012),
            write(AP0, 0x4, 0xE000_EDF0),
            read(AP0, 0xC, 0),
            flush(),
            write(AP0, 0x4, 0xE000_ED30),
            write(AP0, 0xC, 0x1F),
            flush(),
        ]
    );
}

#[test]
fn core_is_found_halted_or_sleeping() {
    let mut target = Target::new();
    target.halted = true;
    target.dfsr = 1 << 1;
    let (memory, state) = cortex_m(target).release();
    assert_eq!(state.current_state, CoreStatus::Halted(HaltReason::BKPT));
    assert_eq!(target_of(memory).dfsr, 0);
    let mut target = Target::new();
    target.sleeping = true;
    target.halted = true;
    let (_, state) = cortex_m(target).release();
    assert_eq!(state.current_state, CoreStatus::Sleeping);
    let state = CortexState { initialized: true, ..CortexState::new() };
    let m4 = match M4::new(engine(Target::new()), state) {
        Ok(m4) => m4,
        Err(_) => panic!("no processor"),
    };
    assert_eq!(m4.release().1, state);
}

#[test]
fn halt_step_run() {
    let mut m4 = cortex_m(Target::new());
    assert_eq!(m4.status(), Ok(CoreStatus::Running));
    let halted = m4.halt().unwrap();
    assert_eq!(halted.pc, 0x0000_0100);
    assert_eq!(m4.status(), Ok(CoreStatus::Halted(HaltReason::External)));
    assert_eq!(m4.core_halted(), Ok(true));
    let stepped = m4.step().unwrap();
    assert!(stepped.pc == halted.pc + 2 || stepped.pc == halted.pc + 4);
    assert_eq!(m4.run(), Ok(()));
    assert_eq!(m4.status(), Ok(CoreStatus::Running));
    assert_eq!(m4.core_halted(), Ok(false));
    let (memory, state) = m4.release();
    assert_eq!(state.current_state, CoreStatus::Running);
    let target = target_of(memory);
    assert!(!target.halted);
    assert!(target.debugen);
}

#[test]
fn halt_accesses() {
    let (memory, state) = cortex_m(Target::new()).release();
    let mut m4 = match M4::new(relog(memory, unchanged), state) {
        Ok(m4) => m4,
        Err(_) => panic!("no processor"),
    };
    m4.halt().unwrap();
    let target = target_of(m4.release().0);
    let words: Vec<(bool, u32)> = memory_words(&target.log);
    assert_eq!(
        words,
        vec![
            (true, 0xE000_EDF0),
            (false, 0xE000_EDF0),
            (false, 0xE000_EDF0),
            (false, 0xE000_ED30),
            (true, 0xE000_ED30),
            (true, 0xE000_EDF4),
            (false, 0xE000_EDF0),
            (false, 0xE000_EDF8),
        ]
    );
    assert!(target.log.contains(&write(AP0, 0xC, 0xA05F_0003)));
}

/// The memory accesses that a history of transfers stands for: whether
/// each writes, and where.
fn memory_words(log: &[Transfer]) -> Vec<(bool, u32)> {
    let mut at = 0u32;
    let mut words = Vec::new();
    for transfer in log {
        match transfer {
            Transfer::Write { port: PortType::AccessPort(_), addr: 0x4, value, .. } => at = *value,
            Transfer::Write { port: PortType::AccessPort(_), addr: 0xC, .. } => {
                words.push((true, at));
                at += 4;
            }
            Transfer::Read { port: PortType::AccessPort(_), addr: 0xC, .. } => {
                words.push((false, at));
                at += 4;
            }
            _ => {}
        }
    }
    words
}

#[test]
fn halt_times_out() {
    let mut target = Target::new();
    target.refuses_halt = true;
    let mut m4 = cortex_m(target);
    assert_eq!(m4.halt(), Err(Error::Timeout { operation: Operation::Halt }));
    assert_eq!(m4.step().map(|_| ()), Ok(()));
    let (memory, state) = m4.release();
    assert!(state.current_state.is_halted());
    let target = target_of(memory);
    let polls = memory_words(&target.log)
        .iter()
        .filter(|(writes, address)| !*writes && *address == 0xE000_EDF0)
        .count();
    // One look at the start, 100 polls for the halt, and three reads for
    // the step: the poll, the look at the status, and the register transfer.
    assert_eq!(polls, 104);
}

#[test]
fn step_times_out() {
    let mut target = Target::new();
    target.refuses_step = true;
    let mut m4 = cortex_m(target);
    m4.halt().unwrap();
    assert_eq!(m4.step(), Err(Error::Timeout { operation: Operation::Step }));
    let target = target_of(m4.release().0);
    assert!(target.log.contains(&write(AP0, 0xC, 0xA05F_000D)));
}

#[test]
fn core_registers_are_transferred() {
    let mut m4 = cortex_m(Target::new());
    m4.halt().unwrap();
    m4.write_core_reg(CoreRegisterAddress(3), 0x1234_5678).unwrap();
    assert_eq!(m4.read_core_reg(CoreRegisterAddress(3)), Ok(0x1234_5678));
    assert_eq!(m4.read_core_reg(CoreRegisterAddress(15)), Ok(0x0000_0100));
    assert_eq!(m4.wait_for_core_register_transfer(), Ok(()));
    assert_eq!(m4.registers().program_counter, CoreRegisterAddress(15));
    let target = target_of(m4.release().0);
    assert_eq!(target.core_registers[3], 0x1234_5678);
    assert!(target.log.contains(&write(AP0, 0xC, 0x0001_0003)));
}

#[test]
fn core_register_transfer_times_out() {
    let mut target = Target::new();
    target.registers_stuck = true;
    let mut m4 = cortex_m(target);
    assert_eq!(
        m4.read_core_reg(CoreRegisterAddress(0)),
        Err(Error::Timeout { operation: Operation::CoreRegisterTransfer })
    );
    assert_eq!(
        m4.write_core_reg(CoreRegisterAddress(0), 1),
        Err(Error::Timeout { operation: Operation::CoreRegisterTransfer })
    );
    assert_eq!(
        m4.wait_for_core_register_transfer(),
        Err(Error::Timeout { operation: Operation::CoreRegisterTransfer })
    );
}

#[test]
fn reset_vector_catch() {
    let mut target = Target::new();
    target.demcr = 0x0100_0400;
    let mut m4 = cortex_m(target);
    let information = m4.reset_and_halt().unwrap();
    assert_eq!(information.pc, 0x0000_01C0);
    assert_eq!(m4.read_core_reg(CoreRegisterAddress(16)).map(|xpsr| xpsr & (1 << 24)), Ok(1 << 24));
    let (memory, state) = m4.release();
    assert_eq!(state.current_state, CoreStatus::Halted(HaltReason::Vector));
    let target = target_of(memory);
    assert_eq!(target.demcr, 0x0100_0400);
    assert!(target.debugen);
    assert!(target.halted);
    assert!(target.log.contains(&write(AP0, 0xC, 0x0100_0401)));
    assert!(target.log.contains(&write(AP0, 0xC, 0x05FA_0004)));
}

#[test]
fn reset_and_halt_keeps_what_is_set_already() {
    let mut target = Target::new();
    target.demcr = 0x0000_0001;
    target.debugen = true;
    let mut m4 = cortex_m(target);
    m4.reset_and_halt().unwrap();
    let target = target_of(m4.release().0);
    assert_eq!(target.demcr, 0x0000_0001);
    let writes = memory_words(&target.log)
        .iter()
        .filter(|(writes, address)| *writes && (*address == 0xE000_EDFC || *address == 0xE000_EDF0))
        .count();
    // DHCSR is not written at all, and DEMCR only to restore it.
    assert_eq!(writes, 1);
}

#[test]
fn reset_leaves_the_status_open() {
    let mut m4 = cortex_m(Target::new());
    m4.halt().unwrap();
    assert_eq!(m4.reset(), Ok(()));
    let (memory, state) = m4.release();
    assert_eq!(state.current_state, CoreStatus::Unknown);
    assert!(!target_of(memory).halted);
    let mut target = Target::new();
    target.refuses_halt = true;
    let mut m4 = cortex_m(target);
    assert_eq!(
        m4.reset_and_halt(),
        Err(Error::Timeout { operation: Operation::ResetAndHalt })
    );
}

#[test]
fn breakpoint_units() {
    let mut m4 = cortex_m(Target::new());
    assert_eq!(m4.get_available_breakpoint_units(), Ok(6));
    assert!(!m4.hw_breakpoints_enabled());
    assert_eq!(m4.enable_breakpoints(true), Ok(()));
    assert!(m4.hw_breakpoints_enabled());
    assert_eq!(m4.set_breakpoint(2, 0x0800_09A4), Ok(()));
    assert_eq!(m4.read_word_32(0xE000_2010), Ok(0x4800_09A5));
    assert_eq!(m4.clear_breakpoint(2), Ok(()));
    assert_eq!(m4.read_word_32(0xE000_2010), Ok(0));
    assert_eq!(
        m4.set_breakpoint(0, 0x2000_0000),
        Err(Error::UnsupportedBreakpointAddress { address: 0x2000_0000 })
    );
    assert_eq!(m4.set_breakpoint(usize::MAX, 0x100), Err(Error::OutOfBounds));
    assert_eq!(m4.clear_breakpoint(usize::MAX), Err(Error::OutOfBounds));
    let (memory, state) = m4.release();
    assert_eq!(state.fpb_revision, 0);
    assert_eq!(state.fpb_num_code, 6);
    assert_eq!(target_of(memory).fp_ctrl & 1, 1);
}

#[test]
fn breakpoint_units_of_later_revisions() {
    let mut target = Target::new();
    target.fp_ctrl = 0x1000_0040;
    let mut m4 = cortex_m(target);
    assert_eq!(m4.get_available_breakpoint_units(), Ok(4));
    assert_eq!(m4.set_breakpoint(1, 0x2000_0100), Ok(()));
    assert_eq!(m4.read_word_32(0xE000_200C), Ok(0x2000_0101));
    let mut target = Target::new();
    target.fp_ctrl = 0x2000_0040;
    let mut m4 = cortex_m(target);
    assert_eq!(
        m4.get_available_breakpoint_units(),
        Err(Error::UnsupportedFpb { revision: 2 })
    );
    assert_eq!(m4.set_breakpoint(1, 0x100), Err(Error::UnsupportedFpb { revision: 2 }));
    assert_eq!(m4.architecture(), probe_rs::cortex::Architecture::Arm);
}

#[test]
fn memory_through_the_core() {
    let mut m4 = cortex_m(Target::new());
    m4.write_word_32(0x2000_0000, 0x0102_0304).unwrap();
    m4.write_word_8(0x2000_0001, 0xFF).unwrap();
    assert_eq!(m4.read_word_32(0x2000_0000), Ok(0x0102_FF04));
    assert_eq!(m4.read_word_8(0x2000_0003), Ok(0x01));
    m4.write_8(0x2000_0004, &[9, 8]).unwrap();
    let mut words = [0u32; 2];
    m4.read_32(0x2000_0000, &mut words).unwrap();
    assert_eq!(words, [0x0102_FF04, 0x0000_0809]);
}

#[test]
fn words_are_packed_little_endian_and_padded() {
    assert_eq!(pack_words(&[]), Vec::<u32>::new());
    assert_eq!(pack_words(&[0x20, 0x00, 0x00, 0x00]), vec![0x20]);
    assert_eq!(pack_words(&[1, 2, 3, 4, 5]), vec![0x0403_0201, 0xFFFF_FF05]);
    assert_eq!(pack_words(&[1, 2, 3, 4, 5, 6, 7]), vec![0x0403_0201, 0xFF07_0605]);
    assert_eq!(pack_words(&[0xAA, 0xBB]), vec![0xFFFF_BBAA]);
}

#[test]
fn flash_hello() {
    let mut target = Target::new();
    for address in 0..32 {
        target.memory.insert(address, 0x55);
    }
    let mut memory = engine(target);
    assert!(matches!(erase_page(&mut memory, 0x0000_0000), Ok(())));
    let hello = vec![
        Ok(HexRecord::Data {
            offset: 0,
            value: vec![
                0x20, 0x00, 0x00, 0x00, 0x1D, 0x01, 0x00, 0x00, 0x1F, 0x01, 0x00, 0x00, 0x21,
                0x01, 0x00, 0x00,
            ],
        }),
        Ok(HexRecord::EndOfFile),
    ];
    assert!(matches!(program_records(&hello, &mut memory, 4096), Ok(16)));
    let mut bytes = [0u8; 20];
    memory.read_8(0, &mut bytes).unwrap();
    assert_eq!(
        bytes,
        [
            0x20, 0x00, 0x00, 0x00, 0x1D, 0x01, 0x00, 0x00, 0x1F, 0x01, 0x00, 0x00, 0x21, 0x01,
            0x00, 0x00, 0xFF, 0xFF, 0xFF, 0xFF
        ]
    );
}

#[test]
fn flash_hello_from_text() {
    let mut memory = engine(Target::new());
    let written = download_hex(
        ":10000000200000001D0100001F0100002101000070\n:00000001FF\n",
        &mut memory,
        4096,
    );
    assert!(matches!(written, Ok(16)));
    let mut words = [0u32; 4];
    memory.read_32(0, &mut words).unwrap();
    assert_eq!(words, [0x20, 0x11D, 0x11F, 0x121]);
    // The same record with a checksum that does not fit is no record.
    let written = download_hex(
        ":10000000200000001D0100001F010000210100006D",
        &mut memory,
        4096,
    );
    assert!(matches!(
        written,
        Err(FlashError::ReaderError {
            line: 1,
            kind: ihex::reader::ReaderError::ChecksumMismatch(0x70, 0x6D)
        })
    ));
}

#[test]
fn records_without_data_touch_nothing() {
    let mut memory = relog(engine(Target::new()), unchanged);
    let records = vec![
        Ok(HexRecord::ExtendedLinearAddress(0x2000)),
        Ok(HexRecord::StartSegmentAddress { cs: 1, ip: 2 }),
        Ok(HexRecord::ExtendedSegmentAddress(0x1000)),
        Ok(HexRecord::StartLinearAddress(0x100)),
        Ok(HexRecord::Data { offset: 0x10, value: vec![] }),
    ];
    assert!(matches!(program_records(&records, &mut memory, 64), Ok(0)));
    let target = target_of(memory);
    // The empty record at 0x2000_0010 enables writing and sends no word.
    assert_eq!(memory_words(&target.log), vec![(true, 0x4001_E504)]);
}

#[test]
fn page_erase_accesses() {
    let mut target = Target::new();
    target.memory.insert(0x1004, 0);
    let mut memory = relog(engine(target), unchanged);
    assert!(matches!(erase_page(&mut memory, 0x1000), Ok(())));
    let target = target_of(memory);
    assert_eq!(
        memory_words(&target.log),
        vec![
            (true, 0x4001_E504),
            (true, 0x4001_E508),
            (false, 0x4001_E400),
            (false, 0x4001_E400),
            (false, 0x4001_E400),
            (false, 0x4001_E400),
        ]
    );
    assert!(target.log.contains(&write(AP0, 0xC, 2)));
    assert!(target.log.contains(&write(AP0, 0xC, 0x1000)));
    assert_eq!(target.peek(0x1004), 0xFFFF_FFFF);
}

#[test]
fn erase_in_steps() {
    let mut target = Target::new();
    target.memory.insert(0x3008, 0);
    let mut memory = engine(target);
    assert!(matches!(begin_erase(&mut memory, 0x3000), Ok(())));
    // The simulated controller is busy for three reads.
    assert!(matches!(erase_done(&mut memory), Ok(false)));
    assert!(matches!(erase_done(&mut memory), Ok(false)));
    assert!(matches!(erase_done(&mut memory), Ok(false)));
    assert!(matches!(erase_done(&mut memory), Ok(true)));
    assert_eq!(memory.read_word_32(0x3008), Ok(0xFFFF_FFFF));
    fn cut(target: &mut Target) {
        target.fail_all = Some(DebugProbeError::Usb);
    }
    let mut memory = relog(memory, cut);
    assert!(matches!(
        begin_erase(&mut memory, 0x3000),
        Err(FlashError::AccessPortError(Error::Probe(DebugProbeError::Usb)))
    ));
    assert!(matches!(
        erase_done(&mut memory),
        Err(FlashError::AccessPortError(Error::Probe(DebugProbeError::Usb)))
    ));
}

#[test]
fn a_probe_of_registers_brings_no_memory_interface() {
    let interface = attach(Target::new());
    assert!(matches!(interface.dedicated_memory_interface(), Ok(None)));
}

#[test]
fn an_absent_component_is_not_searched() {
    let mut target = Target::new();
    target.base = 0x0000_0000;
    let interface = attach(target);
    assert_eq!(
        interface.ap_information(GenericAP::new(0)),
        Some(&ApInformation::MemoryAp {
            port_number: 0,
            only_32bit_data_size: false,
            debug_base_address: 0,
        })
    );
    let (mut target, state) = interface.release();
    target.log.clear();
    let interface = match ArmCommunicationInterface::new(target, state) {
        Ok(interface) => interface,
        Err(_) => panic!("attach failed"),
    };
    let (interface, found) = ArmChipInfo::read_from_rom_table(interface);
    assert_eq!(found, Ok(None));
    let (target, _) = interface.release();
    assert_eq!(target.count(is_data_transfer), 0);
    assert_eq!(target.count(is_tar_write), 0);
}

#[test]
fn erase_fails_when_the_controller_stays_busy() {
    let mut target = Target::new();
    target.nvmc_stuck = true;
    let mut memory = engine(target);
    assert!(matches!(erase_page(&mut memory, 0), Err(FlashError::EraseFailed)));
    let written = download_hex(":0400000001020304F2\n", &mut memory, 1024);
    assert!(matches!(written, Err(FlashError::EraseFailed)));
    let target = target_of(memory);
    let polls = memory_words(&target.log)
        .iter()
        .filter(|(writes, address)| !*writes && *address == 0x4001_E400)
        .count();
    assert_eq!(polls, 200);
}

#[test]
fn bytes_are_written_as_words() {
    let mut memory = engine(Target::new());
    assert!(matches!(erase_page(&mut memory, 0x2000), Ok(())));
    assert!(matches!(write_bytes(&mut memory, 0x2000, &[1, 2, 3, 4, 5, 6]), Ok(())));
    assert_eq!(memory.read_word_32(0x2000), Ok(0x0403_0201));
    assert_eq!(memory.read_word_32(0x2004), Ok(0xFFFF_0605));
    assert!(matches!(
        write_bytes(&mut memory, 0x2002, &[1]),
        Err(FlashError::AccessPortError(Error::UnalignedAddress {
            address: 0x2002,
            alignment: 4
        }))
    ));
}

#[test]
fn hex_file_with_address_records() {
    let mut memory = engine(Target::new());
    let text = "\
:020000040001F9
:04100000AABBCCDDDE

:0400000300000100F8
:0400000500000100F6
:020000040000FA
:020000021000EC
:040010001122334442
:00000001FF
:04200000DEADBEEFA4
";
    let written = download_hex(text, &mut memory, 0x1000);
    assert!(matches!(written, Ok(8)));
    // The linear base puts the first record at 0x0001_1000.
    assert_eq!(memory.read_word_32(0x0001_1000), Ok(0xDDCC_BBAA));
    // With the linear base back at zero, the segment base counts.
    assert_eq!(memory.read_word_32(0x0001_0010), Ok(0x4433_2211));
    // Nothing after the end of the file is programmed.
    assert_eq!(memory.read_word_32(0x0000_2000), Ok(0));
    let target = target_of(memory);
    let erases = target.log.iter().filter(|transfer| **transfer == write(AP0, 0xC, 0x0001_1000)).count();
    assert_eq!(erases, 1);
    let erases = target.log.iter().filter(|transfer| **transfer == write(AP0, 0xC, 0x0001_0010)).count();
    assert_eq!(erases, 0);
}

#[test]
fn hex_reader_errors_name_the_record() {
    let mut memory = engine(Target::new());
    let written = download_hex(
        ":040010001122334442\n\n:0400100011223344FF\n:00000001FF\n",
        &mut memory,
        16,
    );
    match written {
        Err(FlashError::ReaderError { line, kind }) => {
            assert_eq!(line, 2);
            assert_eq!(kind, ihex::reader::ReaderError::ChecksumMismatch(0x42, 0xFF));
        }
        _ => panic!("the second record has a wrong checksum"),
    }
    assert_eq!(memory.read_word_32(0x10), Ok(0x4433_2211));
    let written = download_hex("hello\n", &mut memory, 16);
    assert!(matches!(
        written,
        Err(FlashError::ReaderError { line: 1, kind: ihex::reader::ReaderError::MissingStartCode })
    ));
    assert!(matches!(download_hex("", &mut memory, 16), Ok(0)));
}

#[test]
fn data_past_the_address_space_is_refused() {
    let mut memory = engine(Target::new());
    let written = download_hex(
        ":02000004FFFFFC\n:08FFFC000102030405060708D9\n",
        &mut memory,
        4096,
    );
    assert!(matches!(written, Err(FlashError::ProgramFailed)));
    let target = target_of(memory);
    assert_eq!(memory_words(&target.log).len(), 0);
}

#[test]
fn flash_access_errors_are_passed_on() {
    let mut target = Target::new();
    target.waits_on_data_write = 1;
    let mut memory = engine(target);
    let written = download_hex(":040010001122334442\n", &mut memory, 4096);
    assert!(matches!(
        written,
        Err(FlashError::AccessPortError(Error::Probe(DebugProbeError::ArchitectureSpecific(
            DapError::WaitResponse
        ))))
    ));
}

fn paces_of(
    download: &mut Download,
    memory: &mut ADIMemoryInterface<Target>,
    page_size: u32,
) -> (Vec<Pace>, Result<u64, FlashError>) {
    let mut paces = Vec::new();
    loop {
        match download.advance(memory, page_size) {
            Ok(Pace::Finished(total)) => return (paces, Ok(total)),
            Ok(pace) => paces.push(pace),
            Err(e) => return (paces, Err(e)),
        }
    }
}

#[test]
fn a_download_in_steps_pauses_while_the_controller_is_busy() {
    let mut memory = engine(Target::new());
    let mut download =
        Download::new(":020000040001F9\n:04100000AABBCCDDDE\n:04100400112233443E\n:00000001FF\n");
    assert!(!download.needs_page_size());
    assert!(matches!(download.advance(&mut memory, 0x1000), Ok(Pace::Resume)));
    assert_eq!(
        download.position(),
        Position {
            done: 1,
            addressing: Addressing { segment: 0, linear: 0x0001_0000 },
            total_bytes: 0,
            erasing: false,
            polls: 0,
        }
    );
    assert!(download.needs_page_size());
    let (paces, total) = paces_of(&mut download, &mut memory, 0x1000);
    assert!(matches!(total, Ok(8)));
    // The erase is begun, the controller is busy for three reads, the first
    // record is written behind the fourth read, and the second at once.
    assert_eq!(
        paces,
        vec![Pace::Resume, Pace::Pause, Pace::Pause, Pace::Pause, Pace::Resume, Pace::Resume]
    );
    assert_eq!(
        download.position(),
        Position {
            done: 3,
            addressing: Addressing { segment: 0, linear: 0x0001_0000 },
            total_bytes: 8,
            erasing: false,
            polls: 0,
        }
    );
    assert_eq!(memory.read_word_32(0x0001_1000), Ok(0xDDCC_BBAA));
    assert_eq!(memory.read_word_32(0x0001_1004), Ok(0x4433_2211));
    // A finished download stays finished.
    assert!(matches!(download.advance(&mut memory, 0x1000), Ok(Pace::Finished(8))));
}

#[test]
fn a_download_in_steps_gives_up_after_a_hundred_busy_reads() {
    let mut target = Target::new();
    target.nvmc_stuck = true;
    let mut memory = engine(target);
    let mut download = Download::new(":0400000001020304F2\n");
    let (paces, total) = paces_of(&mut download, &mut memory, 1024);
    assert!(matches!(total, Err(FlashError::EraseFailed)));
    assert_eq!(paces.len(), 100);
    assert_eq!(paces[0], Pace::Resume);
    assert!(paces[1..].iter().all(|pace| *pace == Pace::Pause));
    assert_eq!(download.position().polls, 99);
    let target = target_of(memory);
    let polls = memory_words(&target.log)
        .iter()
        .filter(|(writes, address)| !*writes && *address == 0x4001_E400)
        .count();
    assert_eq!(polls, 100);
}

#[test]
fn a_download_in_steps_ends_as_the_whole_download_does() {
    let mut memory = engine(Target::new());
    let mut download = Download::new(":040010001122334442\n\n:0400100011223344FF\n:00000001FF\n");
    let (paces, total) = paces_of(&mut download, &mut memory, 16);
    match total {
        Err(FlashError::ReaderError { line, kind }) => {
            assert_eq!(line, 2);
            assert_eq!(kind, ihex::reader::ReaderError::ChecksumMismatch(0x42, 0xFF));
        }
        _ => panic!("the second record has a wrong checksum"),
    }
    assert_eq!(paces.last(), Some(&Pace::Resume));
    assert_eq!(download.position().done, 1);
    assert_eq!(memory.read_word_32(0x10), Ok(0x4433_2211));

    let mut download = Download::new(":02000004FFFFFC\n:08FFFC000102030405060708D9\n");
    let (paces, total) = paces_of(&mut download, &mut memory, 4096);
    assert!(matches!(total, Err(FlashError::ProgramFailed)));
    assert_eq!(paces, vec![Pace::Resume]);
    // Data that does not fit is refused before its address is divided.
    assert!(!download.needs_page_size());
}

#[test]
fn a_download_without_data_needs_no_page_size() {
    let mut memory = relog(engine(Target::new()), unchanged);
    let mut download = Download::new(":020000040001F9\n:00000001FF\n:0400000001020304F2\n");
    let mut steps = 0;
    let total = loop {
        assert!(!download.needs_page_size());
        match download.advance(&mut memory, 0) {
            Ok(Pace::Finished(total)) => break total,
            Ok(_) => steps += 1,
            Err(_) => panic!("no record of this file fails"),
        }
    };
    assert_eq!(total, 0);
    assert_eq!(steps, 1);
    let target = target_of(memory);
    assert!(target.log.is_empty());
    assert!(Download::new(":0400000001020304F2\n").needs_page_size());
}

#[test]
fn a_download_in_steps_makes_the_accesses_of_the_whole_download() {
    let text = "\
:020000040001F9
:04100000AABBCCDDDE
:0410040011223344 3E
:020000040000FA
:020000021000EC
:040010001122334442
:00000001FF
"
    .replace(' ', "");
    let mut whole = relog(engine(Target::new()), unchanged);
    let written = download_hex(&text, &mut whole, 0x1000);
    let mut stepped = relog(engine(Target::new()), unchanged);
    let mut download = Download::new(&text);
    let (_, total) = paces_of(&mut download, &mut stepped, 0x1000);
    assert!(matches!(written, Ok(12)));
    assert!(matches!(total, Ok(12)));
    let whole = target_of(whole);
    let stepped = target_of(stepped);
    assert!(!whole.log.is_empty());
    assert_eq!(whole.log, stepped.log);
}
