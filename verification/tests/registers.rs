use probe_rs::ap::{APClass, BaseaddrFormat, DataSize, BASE, BASE2, CSW, IDR};
use probe_rs::bits::{get_bit, get_field, set_bit, set_field};
use probe_rs::communication_interface::{ApInformation, PortSurvey, PortType};
use probe_rs::cortex::{CoreRegisterAddress, CoreStatus, Dfsr, HaltReason};
use probe_rs::dp::{Abort, Ctrl, DebugPortVersion, Select, DPIDR};
use probe_rs::error::{DapError, DebugProbeError, Error, Operation};
use probe_rs::m4::{
    breakpoint_value, comparator_address, observed_status, Aircr, Dcrsr, Demcr, Dhcsr, FpCtrl,
    FpRev1CompX, FpRev2CompX,
};
use probe_rs::memory::{
    check_transfer, extract_byte, extract_half, insert_byte, insert_half,
};
use probe_rs::romtable::{chip_info, component_base, ArmChipInfo, ComponentClass, JEP106Code};
use probe_rs::swo::{
    BaudRate, Category, CmsisDapError, Control, ControlResponse, DataRequest, DataResponse, Mode,
    ModeResponse, Status, StatusRequest, StatusResponse, TraceStatus, Transport,
    TransportResponse,
};

#[test]
fn breakpoint_register_value() {
    // Check that the register configuration for the FPBU is
    // calculated correctly.
    //
    // See ARMv7 Architecture Reference Manual, Section C1.11.5
    let address: u32 = 0x0800_09A4;

    let reg = FpRev1CompX::breakpoint_configuration(address);
    let reg_val: u32 = reg.into();

    assert_eq!(0x4800_09A5, reg_val);
}

#[test]
fn breakpoint_upper_half_word() {
    let reg = FpRev1CompX::breakpoint_configuration(0x0800_09A6);
    assert_eq!(reg.0, 0x8800_09A5);
    assert_eq!(reg.replace(), 0b10);
    assert!(reg.enable());
}

#[test]
fn breakpoint_encoding_of_aligned_low_addresses() {
    for address in [0u32, 4, 0x0800_09A4, 0x1FFF_FFFC, 0x1000_0000, 0x0000_1000] {
        let reg = FpRev1CompX::breakpoint_configuration(address);
        assert_eq!(reg.comp(), address >> 2);
        assert_eq!(reg.replace(), 0b01);
        assert!(reg.enable());
    }
}

#[test]
fn breakpoint_second_revision() {
    let reg = FpRev2CompX::breakpoint_configuration(0x2000_0101);
    assert_eq!(reg.0, 0x2000_0101);
    assert_eq!(reg.bpaddr(), 0x2000_0101 >> 1);
    let reg = FpRev2CompX::breakpoint_configuration(0x0800_09A4);
    assert_eq!(u32::from(reg), 0x0800_09A5);
}

#[test]
fn breakpoint_value_by_revision() {
    assert_eq!(breakpoint_value(FpCtrl(0x0000_0000), 0x0800_09A4), Ok(0x4800_09A5));
    assert_eq!(breakpoint_value(FpCtrl(0x1000_0000), 0x0800_09A4), Ok(0x0800_09A5));
    assert_eq!(
        breakpoint_value(FpCtrl(0x0000_0000), 0x2000_0000),
        Err(Error::UnsupportedBreakpointAddress { address: 0x2000_0000 })
    );
    assert_eq!(breakpoint_value(FpCtrl(0x1000_0000), 0x2000_0000), Ok(0x2000_0001));
    assert_eq!(
        breakpoint_value(FpCtrl(0x2000_0000), 0x0800_09A4),
        Err(Error::UnsupportedFpb { revision: 2 })
    );
}

#[test]
fn comparator_addresses() {
    assert_eq!(comparator_address(0), Some(0xE000_2008));
    assert_eq!(comparator_address(3), Some(0xE000_2014));
    assert_eq!(comparator_address(0x7FF_F7FD), Some(0xFFFF_FFFC));
    assert_eq!(comparator_address(0x7FF_F7FE), None);
}

#[test]
fn dhcsr_debug_key() {
    let mut value = Dhcsr(0);
    value.set_c_halt(true);
    value.set_c_debugen(true);
    value.enable_write();
    assert_eq!(value.0, 0xA05F_0003);
    let mut value = Dhcsr(0xFFFF_0005);
    value.enable_write();
    assert_eq!(value.0, 0xA05F_0005);
    assert!(value.c_step());
    assert!(!value.c_halt());
}

#[test]
fn dhcsr_status_bits() {
    let value = Dhcsr(1 << 17 | 1 << 16);
    assert!(value.s_halt());
    assert!(value.s_regrdy());
    assert!(!value.s_sleep());
    assert!(Dhcsr(1 << 18).s_sleep());
    assert!(Dhcsr(1 << 19).s_lockup());
    assert_eq!(Dhcsr::from(7u32).0, 7);
}

#[test]
fn dcrsr_selector() {
    assert_eq!(Dcrsr::selecting(CoreRegisterAddress(15), false).0, 15);
    assert_eq!(Dcrsr::selecting(CoreRegisterAddress(16), true).0, 0x0001_0010);
    assert_eq!(Dcrsr::selecting(CoreRegisterAddress(0xFF), false).0, 0x7F);
}

#[test]
fn aircr_keys() {
    let mut value = Aircr(0);
    value.vectkey();
    value.set_sysresetreq(true);
    assert_eq!(value.0, 0x05FA_0004);
    assert!(!value.vectkeystat());
    assert!(Aircr(0xFA05_0000).vectkeystat());
    assert_eq!(Aircr(0xFA05_0300).prigroup(), 3);
}

#[test]
fn demcr_vector_catch() {
    let mut value = Demcr(0x0100_0000);
    assert!(value.trcena());
    assert!(!value.vc_corereset());
    value.set_vc_corereset(true);
    assert_eq!(value.0, 0x0100_0001);
}

#[test]
fn fp_ctrl_fields() {
    let ctrl = FpCtrl(0x1000_2261);
    assert_eq!(ctrl.rev(), 1);
    assert_eq!(ctrl.num_code(), (2 << 4) | 6);
    assert_eq!(ctrl.num_lit(), 2);
    assert!(ctrl.enable());
    let mut value = FpCtrl(0);
    value.set_key(true);
    value.set_enable(true);
    assert_eq!(value.0, 3);
}

#[test]
fn dfsr_halt_reasons() {
    assert_eq!(Dfsr(0).halt_reason(), HaltReason::Unknown);
    assert_eq!(Dfsr(1 << 1).halt_reason(), HaltReason::BKPT);
    assert_eq!(Dfsr(1 << 2).halt_reason(), HaltReason::DWTTrap);
    assert_eq!(Dfsr(1 << 3).halt_reason(), HaltReason::Vector);
    assert_eq!(Dfsr(1 << 4).halt_reason(), HaltReason::External);
    assert_eq!(Dfsr(1).halt_reason(), HaltReason::External);
    assert_eq!(Dfsr(0b1_1111).halt_reason(), HaltReason::BKPT);
    assert_eq!(Dfsr::clear_all().0, 0b1_1111);
}

#[test]
fn observed_status_cases() {
    let sleeping = Dhcsr(1 << 18 | 1 << 17);
    let halted = Dhcsr(1 << 17);
    let running = Dhcsr(0);
    assert_eq!(observed_status(CoreStatus::Running, sleeping, Dfsr(2)), CoreStatus::Sleeping);
    assert_eq!(
        observed_status(CoreStatus::Running, halted, Dfsr(2)),
        CoreStatus::Halted(HaltReason::BKPT)
    );
    assert_eq!(
        observed_status(CoreStatus::Halted(HaltReason::Step), halted, Dfsr(0)),
        CoreStatus::Halted(HaltReason::Step)
    );
    assert_eq!(
        observed_status(CoreStatus::Halted(HaltReason::Step), halted, Dfsr(8)),
        CoreStatus::Halted(HaltReason::Vector)
    );
    assert_eq!(
        observed_status(CoreStatus::Unknown, halted, Dfsr(0)),
        CoreStatus::Halted(HaltReason::Unknown)
    );
    assert_eq!(
        observed_status(CoreStatus::Halted(HaltReason::BKPT), running, Dfsr(0)),
        CoreStatus::Running
    );
    assert!(CoreStatus::Halted(HaltReason::External).is_halted());
    assert!(!CoreStatus::LockedUp.is_halted());
}

#[test]
fn bit_and_field_access() {
    assert!(get_bit(0x8000_0000, 31));
    assert!(!get_bit(0x8000_0000, 30));
    assert_eq!(set_bit(0, 4, true), 0x10);
    assert_eq!(set_bit(0xFF, 0, false), 0xFE);
    assert_eq!(get_field(0xABCD_1234, 12, 4), 0x1);
    assert_eq!(get_field(0xABCD_1234, 0, 32), 0xABCD_1234);
    assert_eq!(set_field(0xFFFF_FFFF, 4, 4, 0), 0xFFFF_FF0F);
    assert_eq!(set_field(0, 24, 8, 0x1FF), 0xFF00_0000);
}

#[test]
fn port_type_codes() {
    assert_eq!(PortType::from(0xFFFFu16), PortType::DebugPort);
    assert_eq!(PortType::from(3u16), PortType::AccessPort(3));
    assert_eq!(u16::from(PortType::DebugPort), 0xFFFF);
    assert_eq!(u16::from(PortType::AccessPort(7)), 7);
}

#[test]
fn debug_port_versions() {
    assert_eq!(DebugPortVersion::from(0u8), DebugPortVersion::DPv0);
    assert_eq!(DebugPortVersion::from(1u8), DebugPortVersion::DPv1);
    assert_eq!(DebugPortVersion::from(2u8), DebugPortVersion::DPv2);
    assert_eq!(DebugPortVersion::from(9u8), DebugPortVersion::Unsupported(9));
    assert!(DebugPortVersion::DPv1.is_newer_than(&DebugPortVersion::DPv0));
    assert!(!DebugPortVersion::DPv1.is_newer_than(&DebugPortVersion::DPv1));
    assert!(!DebugPortVersion::DPv1.is_newer_than(&DebugPortVersion::Unsupported(0xFF)));
    assert!(DebugPortVersion::Unsupported(3).is_newer_than(&DebugPortVersion::DPv2));
    assert_eq!(DPIDR(0x2BA0_1477).version(), 1);
}

#[test]
fn debug_port_register_values() {
    assert_eq!(Abort::clearing_all().0, 0x1E);
    assert_eq!(Abort::clearing(Ctrl(1 << 5)).0, 1 << 2);
    assert_eq!(Abort::clearing(Ctrl(1 << 7 | 1 << 1)).0, 1 << 3 | 1 << 4);
    assert_eq!(Abort::clearing(Ctrl(1 << 4)).0, 1 << 1);
    let mut ctrl = Ctrl(0);
    ctrl.set_csyspwrupreq(true);
    ctrl.set_cdbgpwrupreq(true);
    assert_eq!(ctrl.0, 0x5000_0000);
    assert!(Ctrl(0xF000_0000).csyspwrupack());
    assert!(Ctrl(0xF000_0000).cdbgpwrupack());
    assert!(!Ctrl(0x5000_0000).cdbgpwrupack());
    let mut select = Select(0);
    select.set_ap_sel(0xAB);
    select.set_ap_bank_sel(0xF);
    select.set_dp_bank_sel(0x3);
    assert_eq!(select.0, 0xAB00_00F3);
    assert_eq!(select.ap_sel(), 0xAB);
    assert_eq!(select.ap_bank_sel(), 0xF);
    assert_eq!(select.dp_bank_sel(), 3);
}

#[test]
fn access_port_register_values() {
    assert_eq!(IDR(0x2477_0011).class(), APClass::MEMAP);
    assert_eq!(IDR(0x0000_2000).class(), APClass::COMAP);
    assert_eq!(IDR(0x0000_0001).class(), APClass::Undefined);
    let base = BASE(0xE00F_F003);
    assert_eq!(base.baseaddr(), 0xE00FF);
    assert_eq!(base.format(), BaseaddrFormat::ADIv5);
    assert!(base.present());
    assert_eq!(BASE(0xE00F_F000).format(), BaseaddrFormat::Legacy);
    assert_eq!(CSW::for_transfers(DataSize::U32).0, 0xA300_0012);
    assert_eq!(CSW::for_transfers(DataSize::U8).0, 0xA300_0010);
    assert_eq!(CSW::for_transfers(DataSize::U16).0, 0xA300_0011);
    assert_eq!(CSW(0xA300_0012).size(), 2);
    let mut csw = CSW(0x2300_0052);
    csw.set_size(DataSize::U8);
    assert_eq!(csw.0, 0x2300_0050);
}

#[test]
fn ap_information_from_registers() {
    assert_eq!(
        ApInformation::from_registers(0, IDR(0x2477_0011), BASE(0xE00F_F003), BASE2(0), CSW(0x10)),
        ApInformation::MemoryAp {
            port_number: 0,
            only_32bit_data_size: false,
            debug_base_address: 0xE00F_F000,
        }
    );
    assert_eq!(
        ApInformation::from_registers(2, IDR(0x2477_0011), BASE(0xE00F_F003), BASE2(1), CSW(0x12)),
        ApInformation::MemoryAp {
            port_number: 2,
            only_32bit_data_size: true,
            debug_base_address: 0x1_E00F_F000,
        }
    );
    assert_eq!(
        ApInformation::from_registers(1, IDR(0x2477_0011), BASE(0xE00F_F001), BASE2(7), CSW(0x10)),
        ApInformation::MemoryAp {
            port_number: 1,
            only_32bit_data_size: false,
            debug_base_address: 0xE00F_F000,
        }
    );
    assert_eq!(
        ApInformation::from_registers(1, IDR(0x2477_0011), BASE(0), BASE2(0), CSW(0x10)),
        ApInformation::MemoryAp {
            port_number: 1,
            only_32bit_data_size: false,
            debug_base_address: 0,
        }
    );
    assert_eq!(
        ApInformation::from_registers(3, IDR(0x0000_0001), BASE(0), BASE2(0), CSW(0)),
        ApInformation::Other { port_number: 3 }
    );
    assert_eq!(ApInformation::Other { port_number: 3 }.port_number(), 3);
}

#[test]
fn transfer_checks() {
    assert_eq!(check_transfer(0x2000_0000, 32, 4), Ok(()));
    assert_eq!(
        check_transfer(0x2000_0002, 32, 1),
        Err(Error::UnalignedAddress { address: 0x2000_0002, alignment: 4 })
    );
    assert_eq!(
        check_transfer(0x2000_0001, 16, 1),
        Err(Error::UnalignedAddress { address: 0x2000_0001, alignment: 2 })
    );
    assert_eq!(check_transfer(0x2000_0002, 16, 1), Ok(()));
    assert_eq!(check_transfer(0x2000_0003, 8, 9), Ok(()));
    assert_eq!(
        check_transfer(0x2000_0000, 64, 1),
        Err(Error::UnsupportedTransferWidth { width: 64 })
    );
    assert_eq!(check_transfer(0xFFFF_FFFC, 32, 1), Ok(()));
    assert_eq!(check_transfer(0xFFFF_FFFC, 32, 2), Err(Error::OutOfBounds));
    assert_eq!(check_transfer(0xFFFF_FFFF, 8, 1), Ok(()));
    assert_eq!(check_transfer(0xFFFF_FFFF, 8, 2), Err(Error::OutOfBounds));
    assert_eq!(check_transfer(0xFFFF_FFFC, 32, 0), Ok(()));
}

#[test]
fn byte_lanes() {
    assert_eq!(extract_byte(0xAABB_CCDD, 0), 0xDD);
    assert_eq!(extract_byte(0xAABB_CCDD, 1), 0xCC);
    assert_eq!(extract_byte(0xAABB_CCDD, 2), 0xBB);
    assert_eq!(extract_byte(0xAABB_CCDD, 3), 0xAA);
    assert_eq!(insert_byte(0xAABB_CCDD, 0, 0x11), 0xAABB_CC11);
    assert_eq!(insert_byte(0xAABB_CCDD, 2, 0x11), 0xAA11_CCDD);
    assert_eq!(insert_byte(0, 3, 0xFF), 0xFF00_0000);
    for lane in 0..4u32 {
        for other in 0..4u32 {
            let changed = insert_byte(0x1234_5678, lane, 0xE7);
            if other == lane {
                assert_eq!(extract_byte(changed, other), 0xE7);
            } else {
                assert_eq!(extract_byte(changed, other), extract_byte(0x1234_5678, other));
            }
        }
    }
}

#[test]
fn half_word_lanes() {
    assert_eq!(extract_half(0xAABB_CCDD, 0), 0xCCDD);
    assert_eq!(extract_half(0xAABB_CCDD, 2), 0xAABB);
    assert_eq!(insert_half(0xAABB_CCDD, 0, 0x1122), 0xAABB_1122);
    assert_eq!(insert_half(0xAABB_CCDD, 2, 0x1122), 0x1122_CCDD);
    assert_eq!(insert_half(0, 2, 0xFFFF), 0xFFFF_0000);
}

#[test]
fn dap_error_descriptions() {
    assert_eq!(DapError::TargetPowerUpFailed.description(), "Target power-up failed.");
    assert_eq!(
        DapError::FaultResponse.description(),
        "Target device responded with FAULT response to request."
    );
    assert_eq!(
        DebugProbeError::from(DapError::WaitResponse),
        DebugProbeError::ArchitectureSpecific(DapError::WaitResponse)
    );
    assert_eq!(
        Error::from(DebugProbeError::Timeout),
        Error::Probe(DebugProbeError::Timeout)
    );
    assert_eq!(Operation::Halt.context(), "while trying to halt");
    assert_eq!(Operation::Step.context(), "while trying to step");
    assert_eq!(Operation::ResetAndHalt.context(), "while trying to reset and halt");
    assert_eq!(
        Operation::CoreRegisterTransfer.context(),
        "while waiting for core register transfer"
    );
}

#[test]
fn chip_info_of_identification_registers() {
    let component = [0x0D, 0x10, 0x05, 0xB1];
    let low = [0x06, 0x40, 0x0C, 0x00];
    let high = [0x02, 0x00, 0x00, 0x00];
    assert_eq!(
        chip_info(&component, &low, &high),
        Some(ArmChipInfo { manufacturer: JEP106Code { cc: 0x02, id: 0x44 }, part: 0x0006 })
    );
    let debug_component = [0x0D, 0x90, 0x05, 0xB1];
    assert_eq!(chip_info(&debug_component, &low, &high), None);
    let no_jep = [0x06, 0x40, 0x04, 0x00];
    assert_eq!(chip_info(&component, &no_jep, &high), None);
    let other = [0xCD, 0xAB, 0x0B, 0x00];
    assert_eq!(
        chip_info(&component, &other, &[0x04, 0, 0, 0]),
        Some(ArmChipInfo { manufacturer: JEP106Code { cc: 0x04, id: 0x3A }, part: 0x0BCD })
    );
    assert_eq!(ComponentClass::of_nibble(0x1), ComponentClass::RomTable);
    assert_eq!(ComponentClass::of_nibble(0x9), ComponentClass::CoreSightComponent);
    assert_eq!(ComponentClass::of_nibble(0x0), ComponentClass::GenericVerificationComponent);
    assert_eq!(ComponentClass::of_nibble(0xB), ComponentClass::PeripheralTestBlock);
    assert_eq!(ComponentClass::of_nibble(0xE), ComponentClass::GenericIPComponent);
    assert_eq!(
        ComponentClass::of_nibble(0xF),
        ComponentClass::CoreLinkOrPrimeCellOrSystemComponent
    );
    assert_eq!(ComponentClass::of_nibble(0x5), ComponentClass::Unknown);
}

#[test]
fn component_bases() {
    let memory = |debug_base_address| ApInformation::MemoryAp {
        port_number: 0,
        only_32bit_data_size: false,
        debug_base_address,
    };
    let adiv5 = BASE(0xE00F_F003);
    assert_eq!(component_base(memory(0xE00F_F000), adiv5), Some(0xE00F_F000));
    assert_eq!(component_base(memory(0xFFFF_F000), adiv5), Some(0xFFFF_F000));
    assert_eq!(component_base(memory(0x1_0000_0000), adiv5), None);
    assert_eq!(component_base(memory(0x1_E00F_F000), adiv5), None);
    assert_eq!(component_base(ApInformation::Other { port_number: 0 }, adiv5), None);
    // A legacy BASE with address zero and no present flag points nowhere.
    assert_eq!(component_base(memory(0), BASE(0)), None);
    assert!(!ApInformation::component_present(BASE(0)));
    // With the present flag, or in the ADIv5 format, address zero counts.
    assert_eq!(component_base(memory(0), BASE(0x1)), Some(0));
    assert_eq!(component_base(memory(0), BASE(0x2)), Some(0));
    assert!(ApInformation::component_present(BASE(0x0000_1000)));
}

#[test]
fn port_surveys() {
    let survey = PortSurvey {
        idr: IDR(0x2477_0011),
        base: BASE(0xE00F_F003),
        base2: BASE2(0),
        only_32bit_data_size: true,
    };
    assert_eq!(
        survey.information(3),
        ApInformation::MemoryAp {
            port_number: 3,
            only_32bit_data_size: true,
            debug_base_address: 0xE00F_F000,
        }
    );
    let other = PortSurvey { idr: IDR(1), ..survey };
    assert_eq!(other.information(4), ApInformation::Other { port_number: 4 });
}

#[test]
fn manufacturer_names() {
    assert_eq!(JEP106Code::new(0x02, 0x44).get(), Some("Nordic VLSI ASA"));
    assert_eq!(JEP106Code::new(0x00, 0x20).get(), Some("STMicroelectronics"));
    assert_eq!(JEP106Code::new(0x00, 0x00).get(), None);
    assert_eq!(JEP106Code::new(0x40, 0x01).get(), None);
}

#[test]
fn chip_descriptions() {
    let nordic = ArmChipInfo { manufacturer: JEP106Code::new(0x02, 0x44), part: 0x0006 };
    assert_eq!(nordic.description(), "Nordic VLSI ASA 0x0006");
    let unknown = ArmChipInfo { manufacturer: JEP106Code::new(0x40, 0x0A), part: 0xBEEF };
    assert_eq!(unknown.description(), "<unknown manufacturer (cc=40, id= a)> 0xbeef");
}

#[test]
fn swo_requests() {
    let mut buffer = [0u8; 8];
    assert_eq!(Transport::category(), Category(0x17));
    assert_eq!(Transport::TransportDataViaSWO.to_bytes(&mut buffer, 2), Ok(1));
    assert_eq!(buffer, [0, 0, 1, 0, 0, 0, 0, 0]);
    assert_eq!(Transport::TransportDataViaWinUSB.to_bytes(&mut buffer, 0), Ok(1));
    assert_eq!(Transport::NoTransport.to_bytes(&mut buffer, 2), Ok(1));
    assert_eq!(buffer, [2, 0, 0, 0, 0, 0, 0, 0]);
    assert_eq!(Mode::category(), Category(0x18));
    assert_eq!(Mode::Manchester.to_bytes(&mut buffer, 1), Ok(1));
    assert_eq!(Mode::UART.to_bytes(&mut buffer, 2), Ok(1));
    assert_eq!(Mode::Off.to_bytes(&mut buffer, 0), Ok(1));
    assert_eq!(buffer, [0, 2, 1, 0, 0, 0, 0, 0]);
    assert_eq!(Control::category(), Category(0x1a));
    assert_eq!(Control::Start.to_bytes(&mut buffer, 7), Ok(1));
    assert_eq!(Control::Stop.to_bytes(&mut buffer, 1), Ok(1));
    assert_eq!(buffer, [0, 0, 1, 0, 0, 0, 0, 1]);
    assert_eq!(StatusRequest::category(), Category(0x1b));
    assert_eq!(StatusRequest.to_bytes(&mut buffer, 100), Ok(0));
    assert_eq!(buffer, [0, 0, 1, 0, 0, 0, 0, 1]);
}

#[test]
fn swo_baud_rate() {
    let mut buffer = [0xEEu8; 6];
    assert_eq!(BaudRate::category(), Category(0x19));
    assert_eq!(BaudRate(0x1234_5678).to_bytes(&mut buffer, 1), Ok(4));
    assert_eq!(buffer, [0xEE, 0x78, 0x56, 0x34, 0x12, 0xEE]);
    assert_eq!(BaudRate::from_bytes(&buffer, 1), Ok(BaudRate(0x1234_5678)));
    assert_eq!(BaudRate::from_bytes(&buffer, 2), Ok(BaudRate(0xEE12_3456)));
    assert_eq!(BaudRate::from_bytes(&[0x40, 0x42, 0x0F, 0x00], 0), Ok(BaudRate(1_000_000)));
}

#[test]
fn swo_data_request() {
    let mut buffer = [0u8; 4];
    assert_eq!(DataRequest::category(), Category(0x1c));
    assert_eq!(DataRequest(0x0001_0203).to_bytes(&mut buffer, 1), Ok(2));
    assert_eq!(buffer, [0, 0x03, 0x02, 0]);
}

#[test]
fn swo_status_responses() {
    assert_eq!(Status::from_byte(0x00), Ok(Status::DAPOk));
    assert_eq!(Status::from_byte(0xFF), Ok(Status::DAPError));
    assert_eq!(Status::from_byte(0x01), Err(CmsisDapError::UnexpectedAnswer));
    assert_eq!(
        TransportResponse::from_bytes(&[9, 0x00], 1),
        Ok(TransportResponse(Status::DAPOk))
    );
    assert_eq!(ModeResponse::from_bytes(&[0xFF], 0), Ok(ModeResponse(Status::DAPError)));
    assert_eq!(
        ControlResponse::from_bytes(&[0x7F], 0),
        Err(CmsisDapError::UnexpectedAnswer)
    );
}

#[test]
fn swo_trace_status() {
    assert_eq!(
        TraceStatus::from(0x00u8),
        TraceStatus { active: false, error: false, overrun: false }
    );
    assert_eq!(
        TraceStatus::from(0x01u8),
        TraceStatus { active: true, error: false, overrun: false }
    );
    assert_eq!(
        TraceStatus::from(0x40u8),
        TraceStatus { active: false, error: true, overrun: false }
    );
    assert_eq!(
        TraceStatus::from(0x80u8),
        TraceStatus { active: false, error: false, overrun: true }
    );
    assert_eq!(
        TraceStatus::from(0x3Eu8),
        TraceStatus { active: false, error: false, overrun: false }
    );
    assert_eq!(
        StatusResponse::from_bytes(&[0, 0xC1, 0x10, 0x00, 0x01, 0x00, 0xAA], 1),
        Ok(StatusResponse {
            status: TraceStatus { active: true, error: true, overrun: true },
            count: 0x0001_0010,
        })
    );
}

#[test]
fn swo_data_response() {
    let buffer = [0x01u8, 0x03, 0x00, 0xAA, 0xBB, 0xCC, 0xDD];
    let response = DataResponse::from_bytes(&buffer, 0).unwrap();
    assert!(response.status.active);
    assert_eq!(response.data, vec![0xAA, 0xBB, 0xCC]);
    let response = DataResponse::from_bytes(&[0xFF, 0x40, 0x00, 0x00], 1).unwrap();
    assert!(!response.status.active);
    assert!(response.status.error);
    assert_eq!(response.data, vec![0xDD; 0]);
    let response = DataResponse::from_bytes(&[0x80, 0x04, 0x00, 1, 2, 3, 4], 0).unwrap();
    assert!(response.status.overrun);
    assert_eq!(response.data, vec![1, 2, 3, 4]);
}

#[test]
fn swo_data_response_short_read() {
    let buffer = [0x01u8, 0x05, 0x00, 0xAA, 0xBB, 0xCC, 0xDD];
    assert!(matches!(DataResponse::from_bytes(&buffer, 0), Err(CmsisDapError::ShortRead)));
    let buffer = [0x01u8, 0x00, 0x01, 0xAA];
    assert!(matches!(DataResponse::from_bytes(&buffer, 0), Err(CmsisDapError::ShortRead)));
}
