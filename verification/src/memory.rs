//! Access to the memory of the target, and the engine that provides it
//! through a memory access port.

use crate::ap::{AccessPort, DataSize, MemoryAP, CSW, DRW, TAR};
use crate::communication_interface::{
    block_reads, block_writes, broke_off, cut, failed_with, lemma_cut_inside,
    lemma_broke_off_inside, lemma_failed_access_broke_off, lemma_failed_earlier,
    lemma_failed_last, succeeded, Access,
    ArmCommunicationInterface, DAPAccess, PortType, Selection, Transfer,
};
use crate::dp::{Abort, Ctrl, DPBankSel, DPRegister, DebugPortVersion};
use crate::error::{DebugProbeError, Error};
use vstd::prelude::*;

verus! {

/// One access to the memory of the target, with what came of it. A single
/// word or byte counts as a block of one.
pub enum MemoryAccess {
    /// `count` words were asked for from `address` on.
    Read32 { address: u32, count: nat, words: Result<Seq<u32>, Error> },
    /// The half word at `address` was asked for.
    Read16 { address: u32, half: Result<u16, Error> },
    /// `count` bytes were asked for from `address` on.
    Read8 { address: u32, count: nat, bytes: Result<Seq<u8>, Error> },
    /// The words `sent` were sent to `address` and the addresses behind it.
    Write32 { address: u32, sent: Seq<u32>, failure: Option<Error> },
    /// The half word `value` was sent to `address`.
    Write16 { address: u32, value: u16, failure: Option<Error> },
    /// The bytes `octets` were sent to `address` and the addresses behind it.
    Write8 { address: u32, octets: Seq<u8>, failure: Option<Error> },
}

impl MemoryAccess {
    /// The error that ended the access, if one did.
    pub open spec fn failure(self) -> Option<Error> {
        match self {
            MemoryAccess::Read32 { words: Err(e), .. } => Some(e),
            MemoryAccess::Read16 { half: Err(e), .. } => Some(e),
            MemoryAccess::Read8 { bytes: Err(e), .. } => Some(e),
            MemoryAccess::Write32 { failure: Some(e), .. } => Some(e),
            MemoryAccess::Write16 { failure: Some(e), .. } => Some(e),
            MemoryAccess::Write8 { failure: Some(e), .. } => Some(e),
            _ => None,
        }
    }

    /// A read of one word that succeeded and delivered `value`.
    pub open spec fn word_read(address: u32, value: u32) -> MemoryAccess {
        MemoryAccess::Read32 { address, count: 1, words: Ok(seq![value]) }
    }

    /// A write of one word that succeeded.
    pub open spec fn word_write(address: u32, value: u32) -> MemoryAccess {
        MemoryAccess::Write32 { address, sent: seq![value], failure: None }
    }

    /// The read of one word at `address` that ended as `r` says.
    pub open spec fn of_word_read(address: u32, r: Result<u32, Error>) -> MemoryAccess {
        MemoryAccess::Read32 {
            address,
            count: 1,
            words: match r {
                Ok(value) => Ok(seq![value]),
                Err(e) => Err(e),
            },
        }
    }

    /// The read of one byte at `address` that ended as `r` says.
    pub open spec fn of_byte_read(address: u32, r: Result<u8, Error>) -> MemoryAccess {
        MemoryAccess::Read8 {
            address,
            count: 1,
            bytes: match r {
                Ok(value) => Ok(seq![value]),
                Err(e) => Err(e),
            },
        }
    }

    /// The read of `count` words from `address` on that ended as `r` says,
    /// with `words` in the buffer afterwards.
    pub open spec fn of_words_read(
        address: u32,
        count: nat,
        words: Seq<u32>,
        r: Result<(), Error>,
    ) -> MemoryAccess {
        MemoryAccess::Read32 {
            address,
            count,
            words: match r {
                Ok(_) => Ok(words),
                Err(e) => Err(e),
            },
        }
    }

    /// The read of `count` bytes from `address` on that ended as `r` says,
    /// with `bytes` in the buffer afterwards.
    pub open spec fn of_bytes_read(
        address: u32,
        count: nat,
        bytes: Seq<u8>,
        r: Result<(), Error>,
    ) -> MemoryAccess {
        MemoryAccess::Read8 {
            address,
            count,
            bytes: match r {
                Ok(_) => Ok(bytes),
                Err(e) => Err(e),
            },
        }
    }

    /// The write of `data` to `address` that ended as `r` says.
    pub open spec fn of_words_written(
        address: u32,
        data: Seq<u32>,
        r: Result<(), Error>,
    ) -> MemoryAccess {
        MemoryAccess::Write32 { address, sent: data, failure: error_of(r) }
    }

    /// The write of `data` to `address` that ended as `r` says.
    pub open spec fn of_bytes_written(
        address: u32,
        data: Seq<u8>,
        r: Result<(), Error>,
    ) -> MemoryAccess {
        MemoryAccess::Write8 { address, octets: data, failure: error_of(r) }
    }
}

/// The error of a result, if it is one.
pub open spec fn error_of<T>(r: Result<T, Error>) -> Option<Error> {
    match r {
        Ok(_) => None,
        Err(e) => Some(e),
    }
}

/// Access to the memory of a target in words and bytes, singly and in
/// blocks.
///
/// An implementation keeps, as ghost state, the history of all accesses it
/// has made.
pub trait MemoryInterface {
    /// Every access made so far, oldest first.
    spec fn accesses(&self) -> Seq<MemoryAccess>;

    /// Reads the word at `address`, which must be a multiple of 4.
    fn read_word_32(&mut self, address: u32) -> (r: Result<u32, Error>)
        ensures
            final(self).accesses() == old(self).accesses().push(
                MemoryAccess::of_word_read(address, r),
            ),
    ;

    /// Reads the half word at `address`, which must be a multiple of 2.
    fn read_word_16(&mut self, address: u32) -> (r: Result<u16, Error>)
        ensures
            final(self).accesses() == old(self).accesses().push(
                MemoryAccess::Read16 { address, half: r },
            ),
    ;

    /// Reads the byte at `address`.
    fn read_word_8(&mut self, address: u32) -> (r: Result<u8, Error>)
        ensures
            final(self).accesses() == old(self).accesses().push(
                MemoryAccess::of_byte_read(address, r),
            ),
    ;

    /// Fills `data` with the words from `address` on, which must be a
    /// multiple of 4.
    fn read_32(&mut self, address: u32, data: &mut [u32]) -> (r: Result<(), Error>)
        ensures
            final(data)@.len() == old(data)@.len(),
            final(self).accesses() == old(self).accesses().push(
                MemoryAccess::of_words_read(address, old(data)@.len(), final(data)@, r),
            ),
    ;

    /// Fills `data` with the bytes from `address` on.
    fn read_8(&mut self, address: u32, data: &mut [u8]) -> (r: Result<(), Error>)
        ensures
            final(data)@.len() == old(data)@.len(),
            final(self).accesses() == old(self).accesses().push(
                MemoryAccess::of_bytes_read(address, old(data)@.len(), final(data)@, r),
            ),
    ;

    /// Writes the word `data` to `address`, which must be a multiple of 4.
    fn write_word_32(&mut self, address: u32, data: u32) -> (r: Result<(), Error>)
        ensures
            final(self).accesses() == old(self).accesses().push(
                MemoryAccess::of_words_written(address, seq![data], r),
            ),
    ;

    /// Writes the half word `data` to `address`, which must be a multiple of
    /// 2.
    fn write_word_16(&mut self, address: u32, data: u16) -> (r: Result<(), Error>)
        ensures
            final(self).accesses() == old(self).accesses().push(
                MemoryAccess::Write16 { address, value: data, failure: error_of(r) },
            ),
    ;

    /// Writes the byte `data` to `address`.
    fn write_word_8(&mut self, address: u32, data: u8) -> (r: Result<(), Error>)
        ensures
            final(self).accesses() == old(self).accesses().push(
                MemoryAccess::of_bytes_written(address, seq![data], r),
            ),
    ;

    /// Writes the words of `data` to `address` and the addresses behind it;
    /// `address` must be a multiple of 4.
    fn write_32(&mut self, address: u32, data: &[u32]) -> (r: Result<(), Error>)
        ensures
            final(self).accesses() == old(self).accesses().push(
                MemoryAccess::of_words_written(address, data@, r),
            ),
    ;

    /// Writes the bytes of `data` to `address` and the addresses behind it.
    fn write_8(&mut self, address: u32, data: &[u8]) -> (r: Result<(), Error>)
        ensures
            final(self).accesses() == old(self).accesses().push(
                MemoryAccess::of_bytes_written(address, data@, r),
            ),
    ;
}

/// The width of the accesses of a transfer, in bits.
pub open spec fn width_supported(width: u32) -> bool {
    width == 8 || width == 16 || width == 32
}

/// What stands against a transfer of `count` units of `width` bits from
/// `address` on, if anything: a width that is none of 8, 16 and 32, an
/// address that is no multiple of the width in bytes, or an end past the
/// top of the 32-bit address space, in this order.
pub open spec fn transfer_fault(address: u32, width: u32, count: nat) -> Option<Error> {
    if !width_supported(width) {
        Some(Error::UnsupportedTransferWidth { width })
    } else if address as int % (width as int / 8) != 0 {
        Some(Error::UnalignedAddress { address, alignment: (width / 8) as u32 })
    } else if address + count * (width as int / 8) > 0x1_0000_0000 {
        Some(Error::OutOfBounds)
    } else {
        None
    }
}

/// Checks a transfer of `count` units of `width` bits from `address` on
/// against the rules for transfers.
pub fn check_transfer(address: u32, width: u32, count: usize) -> (r: Result<(), Error>)
    ensures
        r is Ok <==> transfer_fault(address, width, count as nat) is None,
        r matches Err(e) ==> transfer_fault(address, width, count as nat) == Some(e),
{
    if width != 8 && width != 16 && width != 32 {
        return Err(Error::UnsupportedTransferWidth { width });
    }
    let bytes: u32 = width / 8;
    if address % bytes != 0 {
        return Err(Error::UnalignedAddress { address, alignment: bytes });
    }
    let room: u64 = 0x1_0000_0000u64 - address as u64;
    if count as u64 > room / (bytes as u64) {
        assert(address + count * (width as int / 8) > 0x1_0000_0000) by (nonlinear_arith)
            requires
                count as int > (0x1_0000_0000 - address) / (bytes as int),
                bytes == width as int / 8,
                bytes == 1 || bytes == 2 || bytes == 4,
        ;
        return Err(Error::OutOfBounds);
    }
    assert(address + count * (width as int / 8) <= 0x1_0000_0000) by (nonlinear_arith)
        requires
            count as int <= (0x1_0000_0000 - address) / (bytes as int),
            bytes == width as int / 8,
            bytes == 1 || bytes == 2 || bytes == 4,
            address as int % (bytes as int) == 0,
    ;
    Ok(())
}

/// The byte of `word` in lane `lane`, counted from the least significant.
pub open spec fn spec_extract_byte(word: u32, lane: u32) -> u8 {
    ((word >> (8 * lane)) & 0xFF) as u8
}

#[verifier::when_used_as_spec(spec_extract_byte)]
pub fn extract_byte(word: u32, lane: u32) -> (byte: u8)
    requires
        lane < 4,
    ensures
        byte == spec_extract_byte(word, lane),
{
    #[verifier::truncate]
    (((word >> (8 * lane)) & 0xFF) as u8)
}

/// `word` with the byte in lane `lane` replaced by `byte`.
pub open spec fn spec_insert_byte(word: u32, lane: u32, byte: u8) -> u32 {
    word & !(0xFFu32 << (8 * lane)) | ((byte as u32) << (8 * lane))
}

#[verifier::when_used_as_spec(spec_insert_byte)]
pub fn insert_byte(word: u32, lane: u32, byte: u8) -> (changed: u32)
    requires
        lane < 4,
    ensures
        changed == spec_insert_byte(word, lane, byte),
{
    word & !(0xFFu32 << (8 * lane)) | ((byte as u32) << (8 * lane))
}

/// The half word of `word` that starts in lane `lane`, which is 0 or 2.
pub open spec fn spec_extract_half(word: u32, lane: u32) -> u16 {
    ((word >> (8 * lane)) & 0xFFFF) as u16
}

#[verifier::when_used_as_spec(spec_extract_half)]
pub fn extract_half(word: u32, lane: u32) -> (half: u16)
    requires
        lane == 0 || lane == 2,
    ensures
        half == spec_extract_half(word, lane),
{
    #[verifier::truncate]
    (((word >> (8 * lane)) & 0xFFFF) as u16)
}

/// `word` with the half word that starts in lane `lane`, which is 0 or 2,
/// replaced by `half`.
pub open spec fn spec_insert_half(word: u32, lane: u32, half: u16) -> u32 {
    word & !(0xFFFFu32 << (8 * lane)) | ((half as u32) << (8 * lane))
}

#[verifier::when_used_as_spec(spec_insert_half)]
pub fn insert_half(word: u32, lane: u32, half: u16) -> (changed: u32)
    requires
        lane == 0 || lane == 2,
    ensures
        changed == spec_insert_half(word, lane, half),
{
    word & !(0xFFFFu32 << (8 * lane)) | ((half as u32) << (8 * lane))
}

/// A half word written into a word replaces the half word in its lanes and
/// leaves the other half as it was.
pub proof fn lemma_insert_half(word: u32, lane: u32, half: u16)
    requires
        lane == 0 || lane == 2,
    ensures
        spec_extract_half(spec_insert_half(word, lane, half), lane) == half,
        spec_extract_half(spec_insert_half(word, lane, half), (2 - lane) as u32)
            == spec_extract_half(word, (2 - lane) as u32),
{
    let h = half as u32;
    let other = (2 - lane) as u32;
    assert(h < 0x1_0000);
    assert(((word & !(0xFFFFu32 << (8 * lane)) | (h << (8 * lane))) >> (8 * lane)) & 0xFFFF == h)
        by (bit_vector)
        requires
            lane == 0 || lane == 2,
            h < 0x1_0000,
    ;
    assert(((word & !(0xFFFFu32 << (8 * lane)) | (h << (8 * lane))) >> (8 * other)) & 0xFFFF == (
    word >> (8 * other)) & 0xFFFF) by (bit_vector)
        requires
            lane == 0 || lane == 2,
            other == 2 - lane,
            h < 0x1_0000,
    ;
}

/// A byte written into a word replaces the byte in its lane and leaves the
/// other three as they were.
pub proof fn lemma_insert_byte(word: u32, lane: u32, byte: u8, other: u32)
    requires
        lane < 4,
        other < 4,
    ensures
        spec_extract_byte(spec_insert_byte(word, lane, byte), lane) == byte,
        other != lane ==> spec_extract_byte(spec_insert_byte(word, lane, byte), other)
            == spec_extract_byte(word, other),
{
    let b = byte as u32;
    assert(b < 256);
    assert(((word & !(0xFFu32 << (8 * lane)) | (b << (8 * lane))) >> (8 * lane)) & 0xFF == b)
        by (bit_vector)
        requires
            lane < 4,
            b < 256,
    ;
    assert(other != lane ==> ((word & !(0xFFu32 << (8 * lane)) | (b << (8 * lane))) >> (8 * other))
        & 0xFF == (word >> (8 * other)) & 0xFF) by (bit_vector)
        requires
            lane < 4,
            other < 4,
            b < 256,
    ;
}

/// The number of bytes over which a memory access port is sure to
/// increment TAR by itself: the ten lowest address bits.
pub const WINDOW: u32 = 0x400;

/// The address at which the last run of a block of `words` words from
/// `address` on starts: the start of the window that the last word lies in,
/// or `address` if the block starts inside that window.
pub open spec fn run_start(address: int, words: int) -> int {
    let base = (address + 4 * words - 4) / 1024 * 1024;
    if base > address {
        base
    } else {
        address
    }
}

/// The transfers that move the block `values` to or from `address` on when
/// every one of them succeeds: for each window that the block touches, TAR
/// is written with the address of the first word in it, and DRW is read or
/// written once for each word in it.
pub open spec fn block_transfers(
    ap: PortType,
    address: int,
    values: Seq<u32>,
    reading: bool,
) -> Seq<Transfer>
    decreases values.len(),
{
    if values.len() == 0 {
        Seq::empty()
    } else {
        let start = run_start(address, values.len() as int);
        let head = (start - address) / 4;
        if 0 <= head < values.len() {
            block_transfers(ap, address, values.subrange(0, head), reading) + seq![
                Transfer::write(ap, 0x4, start as u32),
            ] + run_transfers(ap, values.subrange(head, values.len() as int), reading)
        } else {
            Seq::empty()
        }
    }
}

/// The transfers through DRW that move `values` within one window.
pub open spec fn run_transfers(ap: PortType, values: Seq<u32>, reading: bool) -> Seq<Transfer> {
    if reading {
        block_reads(ap, 0xC, values)
    } else {
        block_writes(ap, 0xC, values)
    }
}

/// The number of writes of TAR in a history.
pub open spec fn tar_writes(log: Seq<Transfer>) -> nat
    decreases log.len(),
{
    if log.len() == 0 {
        0
    } else {
        let here: nat = if log.last().is_tar_write() {
            1
        } else {
            0
        };
        tar_writes(log.drop_last()) + here
    }
}

/// The number of windows that the `bytes` bytes from `address` on touch:
/// the windows up to the end of the block, less those before its start.
pub open spec fn windows_touched(address: int, bytes: int) -> int {
    (address + bytes + 1023) / 1024 - address / 1024
}

/// The writes of TAR in two histories add up in their concatenation.
pub proof fn lemma_tar_writes_add(a: Seq<Transfer>, b: Seq<Transfer>)
    ensures
        tar_writes(a + b) == tar_writes(a) + tar_writes(b),
    decreases b.len(),
{
    if b.len() == 0 {
        assert(a + b =~= a);
    } else {
        lemma_tar_writes_add(a, b.drop_last());
        assert((a + b).drop_last() =~= a + b.drop_last());
        assert((a + b).last() == b.last());
    }
}

/// Transfers through DRW write no TAR.
pub proof fn lemma_tar_writes_run(ap: PortType, values: Seq<u32>, reading: bool)
    ensures
        tar_writes(run_transfers(ap, values, reading)) == 0,
    decreases values.len(),
{
    let run = run_transfers(ap, values, reading);
    if values.len() > 0 {
        lemma_tar_writes_run(ap, values.drop_last(), reading);
        assert(run.drop_last() =~= run_transfers(ap, values.drop_last(), reading));
    }
}

/// The block that ends with a run inside one window: when the `done` words
/// before the run end at a window boundary, or there are none, the
/// transfers of the block are those of the words before the run, a write of
/// TAR with the address of the run, and the run.
pub proof fn lemma_block_transfers_step(
    ap: PortType,
    address: int,
    values: Seq<u32>,
    done: int,
    reading: bool,
)
    requires
        0 <= address,
        address % 4 == 0,
        0 <= done < values.len(),
        done == 0 || (address + 4 * done) % 1024 == 0,
        (address + 4 * done) / 1024 == (address + 4 * values.len() - 4) / 1024,
    ensures
        block_transfers(ap, address, values, reading) == block_transfers(
            ap,
            address,
            values.subrange(0, done),
            reading,
        ) + seq![Transfer::write(ap, 0x4, (address + 4 * done) as u32)] + run_transfers(
            ap,
            values.subrange(done, values.len() as int),
            reading,
        ),
{
    let current = address + 4 * done;
    assert(run_start(address, values.len() as int) == current);
    assert((current - address) / 4 == done);
}

/// Where the last run of a block starts: within the block, in the window
/// of the last word; and with it the block touches one window more than the
/// words before it do.
pub proof fn lemma_last_run(address: int, words: int)
    requires
        0 <= address,
        address % 4 == 0,
        words > 0,
    ensures
        address <= run_start(address, words),
        run_start(address, words) % 4 == 0,
        run_start(address, words) / 1024 == (address + 4 * words - 1) / 1024,
        0 <= (run_start(address, words) - address) / 4 < words,
        address + 4 * ((run_start(address, words) - address) / 4) == run_start(address, words),
        run_start(address, words) == address ==> windows_touched(address, 4 * words) == 1,
        run_start(address, words) > address ==> run_start(address, words) % 1024 == 0
            && windows_touched(address, 4 * words) == windows_touched(
            address,
            run_start(address, words) - address,
        ) + 1,
{
    let last = address + 4 * words - 4;
    let base = last / 1024 * 1024;
    assert(base <= last < base + 1024);
    assert(base % 1024 == 0);
    assert(last % 4 == 0);
    assert((last + 3) / 1024 == last / 1024);
    assert((address + 4 * words + 1023) / 1024 == last / 1024 + 1);
    if base > address {
        assert(base / 1024 == last / 1024);
        assert((base + 1023) / 1024 == last / 1024);
    } else {
        assert(address / 1024 == last / 1024);
    }
}

/// TAR windowing: a block of at least one word is moved with one write of
/// TAR for each window that it touches, and no run through DRW crosses from
/// one window into the next.
pub proof fn lemma_tar_windowing(ap: PortType, address: int, values: Seq<u32>, reading: bool)
    requires
        ap is AccessPort,
        0 <= address,
        address % 4 == 0,
        values.len() > 0,
    ensures
        tar_writes(block_transfers(ap, address, values, reading)) == windows_touched(
            address,
            4 * values.len() as int,
        ),
        forall|words: int|
            0 < words <= values.len() ==> address <= #[trigger] run_start(address, words)
                && run_start(address, words) / 1024 == (address + 4 * words - 1) / 1024,
    decreases values.len(),
{
    let n = values.len() as int;
    let start = run_start(address, n);
    let head = (start - address) / 4;
    let before = block_transfers(ap, address, values.subrange(0, head), reading);
    let tar = seq![Transfer::write(ap, 0x4, start as u32)];
    let run = run_transfers(ap, values.subrange(head, n), reading);
    lemma_last_run(address, n);
    assert(block_transfers(ap, address, values, reading) == before + tar + run);
    lemma_tar_writes_add(before + tar, run);
    lemma_tar_writes_add(before, tar);
    lemma_tar_writes_run(ap, values.subrange(head, n), reading);
    assert(tar.drop_last() =~= Seq::<Transfer>::empty());
    assert(tar.last().is_tar_write());
    assert(tar_writes(tar.drop_last()) == 0);
    assert(tar_writes(tar) == 1);
    if head > 0 {
        lemma_tar_windowing(ap, address, values.subrange(0, head), reading);
    } else {
        assert(before =~= Seq::<Transfer>::empty());
    }
    assert forall|words: int| 0 < words <= values.len() implies address <= #[trigger] run_start(
        address,
        words,
    ) && run_start(address, words) / 1024 == (address + 4 * words - 1) / 1024 by {
        lemma_last_run(address, words);
    }
}

/// What the engine of a memory access port looks like from outside.
pub struct EngineView {
    /// Every transfer that the probe has made so far.
    pub transfers: Seq<Transfer>,
    /// What is known of the SELECT register.
    pub selection: Selection,
    /// The value of CSW that the engine wrote last, if it wrote one.
    pub cached_csw: Option<CSW>,
    /// The number of the access port.
    pub port: u8,
    /// Whether the access port transfers words only.
    pub words_only: bool,
    /// The version of the debug port.
    pub version: DebugPortVersion,
}

impl EngineView {
    /// The port as transfers name it.
    pub open spec fn ap(self) -> PortType {
        PortType::AccessPort(self.port as u16)
    }

    /// What every access to a register of the memory access port asks of
    /// SELECT: CSW, TAR and DRW all live in bank 0.
    pub open spec fn access(self) -> Access {
        Access::AccessPort { port: self.port, bank: 0 }
    }

    /// The write of CSW that sets up transfers of the given width, unless
    /// the engine knows that CSW holds that value already.
    pub open spec fn csw_writes(self, size: DataSize) -> Seq<Transfer> {
        if self.cached_csw == Some(CSW::spec_for_transfers(size)) {
            Seq::empty()
        } else {
            seq![Transfer::write(self.ap(), 0x0, CSW::spec_for_transfers(size).0)]
        }
    }

    /// The transfers that set up an access of the given width at `address`:
    /// SELECT if the selection has to change, CSW if it has to change, and
    /// TAR.
    pub open spec fn setup(self, size: DataSize, address: u32) -> Seq<Transfer> {
        self.selection.select_writes(self.access()) + self.csw_writes(size) + seq![
            Transfer::write(self.ap(), 0x4, address),
        ]
    }

    /// The transfers that move the block `values` of words to or from
    /// `address` on when every one of them succeeds: SELECT and CSW as far
    /// as they have to change, and then the block window by window.
    pub open spec fn block_plan(self, address: u32, values: Seq<u32>, reading: bool) -> Seq<
        Transfer,
    > {
        self.selection.select_writes(self.access()) + self.csw_writes(DataSize::U32)
            + block_transfers(self.ap(), address as int, values, reading)
    }

    /// The transfers of one access of the given width at `address`: the
    /// setup, the transfer `through` DRW, and the flush.
    pub open spec fn word_plan(self, size: DataSize, address: u32, through: Transfer) -> Seq<
        Transfer,
    > {
        flushed(self.setup(size, address) + seq![through])
    }

    /// The width of the transfers that move single bytes: the byte width,
    /// or the word width if the access port transfers words only.
    pub open spec fn narrow(self) -> DataSize {
        if self.words_only {
            DataSize::U32
        } else {
            DataSize::U8
        }
    }

    /// The address that TAR is given for the byte at `address`: the address
    /// itself, or that of the word around it if the access port transfers
    /// words only.
    pub open spec fn target(self, address: int) -> u32 {
        if self.words_only {
            (address - address % 4) as u32
        } else {
            address as u32
        }
    }

    /// The view once the port is selected and CSW set for transfers of the
    /// given width.
    pub open spec fn settled(self, size: DataSize) -> EngineView {
        EngineView {
            selection: self.selection.toward(self.access()),
            cached_csw: Some(CSW::spec_for_transfers(size)),
            ..self
        }
    }

    /// The transfers that read one byte at `address`, with `word` coming
    /// back through DRW, and the flush behind them.
    pub open spec fn byte_read(self, address: int, word: u32) -> Seq<Transfer> {
        flushed(
            self.setup(self.narrow(), self.target(address)) + seq![
                Transfer::read(self.ap(), 0xC, word),
            ],
        )
    }

    /// The transfers that write the byte `byte` at `address`. An access port
    /// that transfers words only reads the word around the byte first, as
    /// `word`, and writes it back with the byte replaced; any other writes
    /// the byte in its lane.
    pub open spec fn byte_write(self, address: int, word: u32, byte: u8) -> Seq<Transfer> {
        let lane = (address % 4) as u32;
        if self.words_only {
            self.byte_read(address, word) + flushed(
                seq![
                    Transfer::write(self.ap(), 0x4, self.target(address)),
                    Transfer::write(self.ap(), 0xC, spec_insert_byte(word, lane, byte)),
                ],
            )
        } else {
            flushed(
                self.setup(self.narrow(), self.target(address)) + seq![
                    Transfer::write(self.ap(), 0xC, spec_insert_byte(0, lane, byte)),
                ],
            )
        }
    }

    /// The width of the transfers that move single half words: the half
    /// word width, or the word width if the access port transfers words
    /// only.
    pub open spec fn halved(self) -> DataSize {
        if self.words_only {
            DataSize::U32
        } else {
            DataSize::U16
        }
    }

    /// The transfers that read the half word at `address`, with `word`
    /// coming back through DRW, and the flush behind them.
    pub open spec fn half_read(self, address: int, word: u32) -> Seq<Transfer> {
        flushed(
            self.setup(self.halved(), self.target(address)) + seq![
                Transfer::read(self.ap(), 0xC, word),
            ],
        )
    }

    /// The transfers that write the half word `half` at `address`. An
    /// access port that transfers words only reads the word around the half
    /// word first, as `word`, and writes it back with the half word
    /// replaced; any other writes the half word in its lanes.
    pub open spec fn half_write(self, address: int, word: u32, half: u16) -> Seq<Transfer> {
        let lane = (address % 4) as u32;
        if self.words_only {
            self.half_read(address, word) + flushed(
                seq![
                    Transfer::write(self.ap(), 0x4, self.target(address)),
                    Transfer::write(self.ap(), 0xC, spec_insert_half(word, lane, half)),
                ],
            )
        } else {
            flushed(
                self.setup(self.halved(), self.target(address)) + seq![
                    Transfer::write(self.ap(), 0xC, spec_insert_half(0, lane, half)),
                ],
            )
        }
    }

    /// The transfers that read the bytes from `address` on one by one, with
    /// `words` coming back through DRW.
    pub open spec fn byte_reads(self, address: int, words: Seq<u32>) -> Seq<Transfer>
        decreases words.len(),
    {
        if words.len() == 0 {
            Seq::empty()
        } else {
            let i = words.len() - 1;
            let at = if i == 0 {
                self
            } else {
                self.settled(self.narrow())
            };
            self.byte_reads(address, words.drop_last()) + at.byte_read(address + i, words[i])
        }
    }

    /// The transfers that write `bytes` to `address` and the addresses
    /// behind it one by one, with `words` coming back through DRW where the
    /// access port transfers words only.
    pub open spec fn byte_writes(self, address: int, words: Seq<u32>, bytes: Seq<u8>) -> Seq<
        Transfer,
    >
        decreases bytes.len(),
    {
        if bytes.len() == 0 || words.len() != bytes.len() {
            Seq::empty()
        } else {
            let i = bytes.len() - 1;
            let at = if i == 0 {
                self
            } else {
                self.settled(self.narrow())
            };
            self.byte_writes(address, words.drop_last(), bytes.drop_last()) + at.byte_write(
                address + i,
                words[i],
                bytes[i],
            )
        }
    }

    /// The transfers that move one run of a block within a window: SELECT
    /// if the selection has to change, TAR, and the words through DRW.
    pub open spec fn run_plan(self, address: u32, values: Seq<u32>, reading: bool) -> Seq<
        Transfer,
    > {
        self.selection.select_writes(self.access()) + seq![
            Transfer::write(self.ap(), 0x4, address),
        ] + run_transfers(self.ap(), values, reading)
    }

    /// The view after transfers of the given width were set up and `added`
    /// was appended to the history.
    pub open spec fn after(self, size: DataSize, added: Seq<Transfer>) -> EngineView {
        EngineView {
            transfers: self.transfers + added,
            selection: self.selection.toward(self.access()),
            cached_csw: Some(CSW::spec_for_transfers(size)),
            ..self
        }
    }

    /// Whether `later` shows the same port and the same kind of port.
    pub open spec fn same_port(self, later: EngineView) -> bool {
        self.port == later.port && self.words_only == later.words_only && self.version
            == later.version
    }
}

/// What the recovery from the failure `error` appends to the history
/// `before`. After a FAULT or WAIT answer, CTRL/STAT is read, after a write
/// of SELECT where its bank is not selected, and ABORT is written with the
/// clear bits of the sticky flags that CTRL/STAT showed. The recovery ends
/// early if one of its own transfers fails. After any other failure, and
/// where the debug port is older than version 1 and has no such registers,
/// nothing is appended.
pub open spec fn recovery(
    before: Seq<Transfer>,
    after: Seq<Transfer>,
    error: DebugProbeError,
    version: DebugPortVersion,
) -> bool {
    if !error.is_sticky() || version.rank() < DebugPortVersion::DPv1.rank() {
        after == before
    } else {
        let tail = after.subrange(before.len() as int, after.len() as int);
        let selected = tail.len() > 0 && tail[0].is_select_write() && tail[0].failure() is None;
        let body = if selected {
            tail.drop_first()
        } else {
            tail
        };
        &&& before.is_prefix_of(after)
        &&& {
            ||| tail.len() == 1 && tail[0].is_select_write() && tail[0].failure() is Some
            ||| {
                &&& body.len() == 1
                &&& body[0] matches Transfer::Read {
                    port: PortType::DebugPort,
                    addr: 0x4,
                    data: Err(_),
                }
            }
            ||| {
                &&& body.len() == 2
                &&& body[0] == Transfer::read(PortType::DebugPort, 0x4, body[0].value())
                &&& body[1] matches Transfer::Write {
                    port: PortType::DebugPort,
                    addr: 0x0,
                    value,
                    ..
                } && value == Abort::clear_flags_of(Ctrl(body[0].value()))
            }
        }
    }
}

/// Whether the history grew from `before` to `after` by an operation that
/// failed with `error`: the first transfer that failed after `before`,
/// failed with `error`, and the recovery from it followed.
pub open spec fn fails_and_recovers(
    before: Seq<Transfer>,
    after: Seq<Transfer>,
    error: DebugProbeError,
    version: DebugPortVersion,
) -> bool {
    exists|failed: Seq<Transfer>|
        {
            &&& before.is_prefix_of(failed)
            &&& failed_with(failed, before.len() as int, error)
            &&& #[trigger] recovery(failed, after, error, version)
        }
}

/// How an access to memory fails on the wire: one of its transfers, the
/// flush at its end among them, fails after nothing but successes; the
/// recovery follows, and the error is handed on unchanged.
pub open spec fn fails_on_wire(
    before: Seq<Transfer>,
    after: Seq<Transfer>,
    error: Error,
    version: DebugPortVersion,
) -> bool {
    error matches Error::Probe(cause) && fails_and_recovers(before, after, cause, version)
}

/// A failure after a stretch of successes is a failure of the whole.
pub proof fn lemma_fails_later(
    before: Seq<Transfer>,
    mid: Seq<Transfer>,
    after: Seq<Transfer>,
    error: Error,
    version: DebugPortVersion,
)
    requires
        before.is_prefix_of(mid),
        succeeded(mid, before.len() as int),
        fails_on_wire(mid, after, error, version),
    ensures
        fails_on_wire(before, after, error, version),
{
    let cause = error->Probe_0;
    let failed = choose|failed: Seq<Transfer>|
        {
            &&& mid.is_prefix_of(failed)
            &&& failed_with(failed, mid.len() as int, cause)
            &&& #[trigger] recovery(failed, after, cause, version)
        };
    assert(failed.subrange(0, mid.len() as int) =~= mid);
    lemma_failed_earlier(failed, before.len() as int, mid.len() as int, cause);
    assert(before =~= failed.subrange(0, before.len() as int)) by {
        assert(before =~= mid.subrange(0, before.len() as int));
    }
}

/// A history that grew by nothing but successes has no failure since.
pub proof fn lemma_all_succeed(before: Seq<Transfer>, after: Seq<Transfer>)
    requires
        before.is_prefix_of(after),
        forall|i: int| before.len() <= i < after.len() ==> (#[trigger] after[i]).failure() is None,
    ensures
        succeeded(after, before.len() as int),
{
}

/// `plan` with a flush that succeeded behind it.
pub open spec fn flushed(plan: Seq<Transfer>) -> Seq<Transfer> {
    plan.push(Transfer::flush())
}

/// An operation that broke off within `part` broke off within any plan that
/// starts with that part.
pub proof fn lemma_broke_off_start(
    before: Seq<Transfer>,
    after: Seq<Transfer>,
    part: Seq<Transfer>,
    plan: Seq<Transfer>,
    error: DebugProbeError,
)
    requires
        broke_off(before, after, part, error),
        part.is_prefix_of(plan),
    ensures
        broke_off(before, after, plan, error),
{
    let n = choose|n: int| 0 <= n < part.len() && after == before + #[trigger] cut(part, n, error);
    assert(part =~= plan.subrange(0, part.len() as int));
    assert(cut(plan, n, error) =~= cut(part, n, error));
}

/// How an access to memory with the plan `plan` fails on the wire: it
/// follows the plan up to one of its transfers, the flush at its end among
/// them, which fails with the error; the recovery follows, and the error is
/// handed on unchanged.
pub open spec fn breaks_off(
    before: Seq<Transfer>,
    after: Seq<Transfer>,
    plan: Seq<Transfer>,
    error: Error,
    version: DebugPortVersion,
) -> bool {
    error matches Error::Probe(cause) && exists|n: int|
        0 <= n < plan.len() && #[trigger] recovery(
            before + cut(plan, n, cause),
            after,
            cause,
            version,
        )
}

/// An operation that did all of `front`, broke off within `middle` and
/// recovered, broke off within any plan that starts with both.
pub proof fn lemma_breaks_off(
    before: Seq<Transfer>,
    failed: Seq<Transfer>,
    after: Seq<Transfer>,
    front: Seq<Transfer>,
    middle: Seq<Transfer>,
    plan: Seq<Transfer>,
    cause: DebugProbeError,
    version: DebugPortVersion,
)
    requires
        broke_off(before + front, failed, middle, cause),
        recovery(failed, after, cause, version),
        (front + middle).is_prefix_of(plan),
    ensures
        breaks_off(before, after, plan, Error::Probe(cause), version),
{
    let n = choose|n: int|
        0 <= n < middle.len() && failed == before + front + #[trigger] cut(middle, n, cause);
    let back = plan.subrange((front + middle).len() as int, plan.len() as int);
    assert(plan =~= front + middle + back);
    lemma_cut_inside(front, middle, back, n, cause);
    assert(failed =~= before + cut(plan, front.len() + n, cause));
}

/// An operation that did all of `front` and then broke off within `middle`,
/// with the recovery behind it, broke off within any plan that starts with
/// both.
pub proof fn lemma_breaks_off_later(
    before: Seq<Transfer>,
    after: Seq<Transfer>,
    front: Seq<Transfer>,
    middle: Seq<Transfer>,
    plan: Seq<Transfer>,
    error: Error,
    version: DebugPortVersion,
)
    requires
        breaks_off(before + front, after, middle, error, version),
        (front + middle).is_prefix_of(plan),
    ensures
        breaks_off(before, after, plan, error, version),
{
    let cause = error->Probe_0;
    let n = choose|n: int|
        0 <= n < middle.len() && #[trigger] recovery(
            before + front + cut(middle, n, cause),
            after,
            cause,
            version,
        );
    let back = plan.subrange((front + middle).len() as int, plan.len() as int);
    assert(plan =~= front + middle + back);
    lemma_cut_inside(front, middle, back, n, cause);
    assert(before + front + cut(middle, n, cause) =~= before + cut(
        plan,
        front.len() + n,
        cause,
    ));
}

/// TAR windowing for the whole of a block transfer: with the selection and
/// the width set up before it, a block of at least one word still takes one
/// write of TAR for each window that it touches.
pub proof fn lemma_block_plan_windowing(
    view: EngineView,
    address: u32,
    values: Seq<u32>,
    reading: bool,
)
    requires
        address % 4 == 0,
        values.len() > 0,
    ensures
        tar_writes(view.block_plan(address, values, reading)) == windows_touched(
            address as int,
            4 * values.len() as int,
        ),
{
    let selects = view.selection.select_writes(view.access());
    let widths = view.csw_writes(DataSize::U32);
    let block = block_transfers(view.ap(), address as int, values, reading);
    lemma_tar_windowing(view.ap(), address as int, values, reading);
    lemma_tar_writes_add(selects + widths, block);
    lemma_tar_writes_add(selects, widths);
    if selects.len() > 0 {
        assert(selects.drop_last() =~= Seq::<Transfer>::empty());
        assert(tar_writes(selects.drop_last()) == 0);
    }
    if widths.len() > 0 {
        assert(widths.drop_last() =~= Seq::<Transfer>::empty());
        assert(tar_writes(widths.drop_last()) == 0);
    }
}

/// The engine that turns accesses to the memory of the target into
/// transfers to the registers of one memory access port.
pub struct ADIMemoryInterface<P: DAPAccess> {
    interface: ArmCommunicationInterface<P>,
    access_port: MemoryAP,
    only_32bit_data_size: bool,
    cached_csw_value: Option<CSW>,
    history: Ghost<Seq<MemoryAccess>>,
}

impl<P: DAPAccess> ADIMemoryInterface<P> {
    /// What the engine looks like from outside.
    pub closed spec fn view(&self) -> EngineView {
        EngineView {
            transfers: self.interface.transfers(),
            selection: self.interface.state().selection(),
            cached_csw: self.cached_csw_value,
            port: self.access_port.spec_port_number(),
            words_only: self.only_32bit_data_size,
            version: self.interface.state().version(),
        }
    }

    /// Every access to memory made so far, oldest first.
    pub closed spec fn recorded(&self) -> Seq<MemoryAccess> {
        self.history@
    }

    /// The session that the engine works through.
    pub closed spec fn interface(&self) -> ArmCommunicationInterface<P> {
        self.interface
    }

    /// An engine for the access port `access_port`, which transfers words
    /// only if `only_32bit_data_size` says so. Nothing is known yet of what
    /// CSW holds.
    pub fn new(
        interface: ArmCommunicationInterface<P>,
        access_port: MemoryAP,
        only_32bit_data_size: bool,
    ) -> (engine: Self)
        ensures
            engine.interface() == interface,
            engine.view() == (EngineView {
                transfers: interface.transfers(),
                selection: interface.state().selection(),
                cached_csw: None,
                port: access_port.spec_port_number(),
                words_only: only_32bit_data_size,
                version: interface.state().version(),
            }),
            engine.recorded() == Seq::<MemoryAccess>::empty(),
    {
        Self {
            interface,
            access_port,
            only_32bit_data_size,
            cached_csw_value: None,
            history: Ghost(Seq::empty()),
        }
    }

    /// Gives the session back.
    pub fn into_interface(self) -> (interface: ArmCommunicationInterface<P>)
        ensures
            interface.transfers() == self.view().transfers,
            interface.state().selection() == self.view().selection,
            interface.state().same_session(self.interface().state()),
    {
        self.interface
    }

    /// Recovers from the failure `error` of a transfer, and hands the error
    /// on as an error of the memory layer.
    #[verifier::rlimit(50)]
    fn recovered(&mut self, error: DebugProbeError) -> (passed_on: Error)
        ensures
            passed_on == Error::Probe(error),
            recovery(
                old(self).view().transfers,
                final(self).view().transfers,
                error,
                old(self).view().version,
            ),
            old(self).view().transfers.is_prefix_of(final(self).view().transfers),
            final(self).view().cached_csw == old(self).view().cached_csw,
            final(self).view().same_port(old(self).view()),
            final(self).recorded() == old(self).recorded(),
            final(self).interface().state().same_session(old(self).interface().state()),
    {
        broadcast use crate::communication_interface::ArmCommunicationInterfaceState::lemma_with_selection;

        let ghost before = self.interface.transfers();
        let ghost selection = self.interface.state().selection();
        let sticky = match error {
            DebugProbeError::ArchitectureSpecific(crate::error::DapError::FaultResponse) => true,
            DebugProbeError::ArchitectureSpecific(crate::error::DapError::WaitResponse) => true,
            _ => false,
        };
        if sticky {
            let ghost access = Access::DebugPort { dp_bank: DPBankSel::Bank(0) };
            match self.interface.read_dp_register::<Ctrl>() {
                Ok(ctrl) => {
                    let ghost mid = self.interface.transfers();
                    let _ = self.interface.write_dp_register(Abort::clearing(ctrl));
                    proof {
                        let after = self.interface.transfers();
                        let tail = after.subrange(before.len() as int, after.len() as int);
                        assert(mid =~= before + selection.select_writes(access) + seq![
                            Transfer::read(PortType::DebugPort, 0x4, ctrl.0),
                        ]);
                        assert(after.len() == mid.len() + 1);
                        assert(after.subrange(0, mid.len() as int) =~= mid);
                        if selection.needs_write(access) {
                            assert(tail.len() == 3);
                            assert(tail[0] == after[before.len() as int]);
                            assert(tail[0] == mid[before.len() as int]);
                            assert(tail.drop_first()[0] == mid[before.len() as int + 1]);
                            assert(tail.drop_first()[1] == after[before.len() as int + 2]);
                        } else {
                            assert(tail.len() == 2);
                            assert(tail[0] == mid[before.len() as int]);
                            assert(tail[1] == after[before.len() as int + 1]);
                        }
                    }
                },
                Err(_) => {
                    proof {
                        let after = self.interface.transfers();
                        let tail = after.subrange(before.len() as int, after.len() as int);
                        if after.len() == before.len() + 1 {
                            assert(tail[0] == after[before.len() as int]);
                        } else if after.len() == before.len() + 2 {
                            assert(tail[0] == after[before.len() as int]);
                            assert(tail.drop_first()[0] == after[before.len() as int + 1]);
                        }
                    }
                },
            }
        }
        Error::Probe(error)
    }

    /// Sets up an access of the given width at `address`: writes CSW unless
    /// it is known to hold the value for that width, and writes TAR.
    fn prepare(&mut self, size: DataSize, address: u32) -> (r: Result<(), DebugProbeError>)
        ensures
            old(self).view().transfers.is_prefix_of(final(self).view().transfers),
            final(self).view().same_port(old(self).view()),
            final(self).recorded() == old(self).recorded(),
            final(self).interface().state().same_session(old(self).interface().state()),
            r is Ok ==> final(self).view() == old(self).view().after(
                size,
                old(self).view().setup(size, address),
            ),
            r matches Err(e) ==> failed_with(
                final(self).view().transfers,
                old(self).view().transfers.len() as int,
                e,
            ) && broke_off(
                old(self).view().transfers,
                final(self).view().transfers,
                old(self).view().setup(size, address),
                e,
            ),
    {
        broadcast use crate::communication_interface::ArmCommunicationInterfaceState::lemma_with_selection;

        let ghost start = self.interface.transfers();
        let ghost view = self.view();
        let ghost plan = view.setup(size, address);
        let csw = CSW::for_transfers(size);
        let cached = match self.cached_csw_value {
            Some(value) => value.0 == csw.0,
            None => false,
        };
        if !cached {
            match self.interface.write_ap_register(self.access_port, csw) {
                Ok(()) => {},
                Err(e) => {
                    proof {
                        let attempt = Transfer::write(view.ap(), 0x0, csw.0);
                        lemma_failed_access_broke_off(
                            start,
                            self.interface.transfers(),
                            view.selection,
                            view.access(),
                            attempt,
                            e,
                        );
                        lemma_broke_off_start(
                            start,
                            self.interface.transfers(),
                            view.selection.select_writes(view.access()) + seq![attempt],
                            plan,
                            e,
                        );
                    }
                    return Err(e);
                },
            }
            self.cached_csw_value = Some(csw);
        }
        let ghost mid = self.interface.transfers();
        let ghost selected = self.interface.state().selection();
        match self.interface.write_ap_register(self.access_port, TAR(address)) {
            Ok(()) => {},
            Err(e) => {
                proof {
                    assert(self.interface.transfers().subrange(0, mid.len() as int) =~= mid);
                    lemma_failed_earlier(
                        self.interface.transfers(),
                        start.len() as int,
                        mid.len() as int,
                        e,
                    );
                    let attempt = Transfer::write(view.ap(), 0x4, address);
                    lemma_failed_access_broke_off(
                        mid,
                        self.interface.transfers(),
                        selected,
                        view.access(),
                        attempt,
                        e,
                    );
                    let front = view.selection.select_writes(view.access()) + view.csw_writes(size);
                    if view.csw_writes(size).len() == 0 {
                        lemma_broke_off_start(
                            start,
                            self.interface.transfers(),
                            selected.select_writes(view.access()) + seq![attempt],
                            plan,
                            e,
                        );
                    } else {
                        assert(mid =~= start + front);
                        lemma_broke_off_inside(
                            start,
                            self.interface.transfers(),
                            front,
                            selected.select_writes(view.access()) + seq![attempt],
                            Seq::empty(),
                            e,
                        );
                        assert(front + (selected.select_writes(view.access()) + seq![attempt])
                            + Seq::<Transfer>::empty() =~= plan);
                    }
                }
                return Err(e);
            },
        }
        proof {
            assert(self.interface.transfers() =~= start + view.setup(size, address));
        }
        Ok(())
    }

    /// Reads DRW once after setting up an access of the given width at
    /// `address`, and flushes.
    fn word_read(&mut self, size: DataSize, address: u32) -> (r: Result<u32, Error>)
        ensures
            final(self).view().same_port(old(self).view()),
            final(self).recorded() == old(self).recorded(),
            final(self).interface().state().same_session(old(self).interface().state()),
            old(self).view().transfers.is_prefix_of(final(self).view().transfers),
            r matches Ok(value) ==> final(self).view() == old(self).view().after(
                size,
                old(self).view().word_plan(size, address, Transfer::read(
                    old(self).view().ap(),
                    0xC,
                    value,
                )),
            ),
            r matches Err(e) ==> fails_on_wire(
                old(self).view().transfers,
                final(self).view().transfers,
                e,
                old(self).view().version,
            ),
            r matches Err(e) ==> exists|value: u32|
                breaks_off(
                    old(self).view().transfers,
                    final(self).view().transfers,
                    old(self).view().word_plan(
                        size,
                        address,
                        #[trigger] Transfer::read(old(self).view().ap(), 0xC, value),
                    ),
                    e,
                    old(self).view().version,
                ),
    {
        broadcast use crate::communication_interface::ArmCommunicationInterfaceState::lemma_with_selection;

        let ghost start = self.interface.transfers();
        let ghost view = self.view();
        let ghost setup = view.setup(size, address);
        let ghost blind = Transfer::read(view.ap(), 0xC, 0);
        match self.prepare(size, address) {
            Ok(()) => {},
            Err(e) => {
                let ghost failed = self.interface.transfers();
                let error = self.recovered(e);
                proof {
                    assert(start + Seq::<Transfer>::empty() =~= start);
                    assert(Seq::<Transfer>::empty() + setup =~= setup);
                    lemma_breaks_off(
                        start,
                        failed,
                        self.interface.transfers(),
                        Seq::empty(),
                        setup,
                        view.word_plan(size, address, blind),
                        e,
                        view.version,
                    );
                }
                return Err(error);
            },
        }
        let ghost mid = self.interface.transfers();
        let ghost selected = self.interface.state().selection();
        match self.interface.read_ap_register(self.access_port, DRW::default()) {
            Ok(register) => {
                let ghost fetch = Transfer::read(view.ap(), 0xC, register.0);
                proof {
                    assert(self.interface.transfers() =~= start + (setup + seq![fetch]));
                }
                let ghost done = self.interface.transfers();
                match self.interface.flush() {
                    Ok(()) => {
                        proof {
                            assert(self.interface.transfers() =~= start + view.word_plan(
                                size,
                                address,
                                fetch,
                            ));
                        }
                        Ok(register.0)
                    },
                    Err(e) => {
                        let ghost failed = self.interface.transfers();
                        proof {
                            lemma_all_succeed(start, done);
                            assert(failed.drop_last() =~= done);
                            lemma_failed_last(failed, start.len() as int, e);
                        }
                        let error = self.recovered(e);
                        proof {
                            assert(failed =~= start + (setup + seq![fetch]) + cut(
                                seq![Transfer::flush()],
                                0,
                                e,
                            ));
                            lemma_breaks_off(
                                start,
                                failed,
                                self.interface.transfers(),
                                setup + seq![fetch],
                                seq![Transfer::flush()],
                                view.word_plan(size, address, fetch),
                                e,
                                view.version,
                            );
                        }
                        Err(error)
                    },
                }
            },
            Err(e) => {
                let ghost failed = self.interface.transfers();
                proof {
                    assert(failed.subrange(0, mid.len() as int) =~= mid);
                    lemma_failed_earlier(failed, start.len() as int, mid.len() as int, e);
                    lemma_failed_access_broke_off(mid, failed, selected, view.access(), blind, e);
                    assert(mid =~= start + setup);
                }
                let error = self.recovered(e);
                proof {
                    lemma_breaks_off(
                        start,
                        failed,
                        self.interface.transfers(),
                        setup,
                        selected.select_writes(view.access()) + seq![blind],
                        view.word_plan(size, address, blind),
                        e,
                        view.version,
                    );
                }
                Err(error)
            },
        }
    }

    /// Writes DRW once after setting up an access of the given width at
    /// `address`, and flushes.
    fn word_write(&mut self, size: DataSize, address: u32, value: u32) -> (r: Result<(), Error>)
        ensures
            final(self).view().same_port(old(self).view()),
            final(self).recorded() == old(self).recorded(),
            final(self).interface().state().same_session(old(self).interface().state()),
            old(self).view().transfers.is_prefix_of(final(self).view().transfers),
            r is Ok ==> final(self).view() == old(self).view().after(
                size,
                old(self).view().word_plan(size, address, Transfer::write(
                    old(self).view().ap(),
                    0xC,
                    value,
                )),
            ),
            r matches Err(e) ==> fails_on_wire(
                old(self).view().transfers,
                final(self).view().transfers,
                e,
                old(self).view().version,
            ),
            r matches Err(e) ==> breaks_off(
                old(self).view().transfers,
                final(self).view().transfers,
                old(self).view().word_plan(size, address, Transfer::write(
                    old(self).view().ap(),
                    0xC,
                    value,
                )),
                e,
                old(self).view().version,
            ),
    {
        broadcast use crate::communication_interface::ArmCommunicationInterfaceState::lemma_with_selection;

        let ghost start = self.interface.transfers();
        let ghost view = self.view();
        let ghost setup = view.setup(size, address);
        let ghost store = Transfer::write(view.ap(), 0xC, value);
        let ghost plan = view.word_plan(size, address, store);
        match self.prepare(size, address) {
            Ok(()) => {},
            Err(e) => {
                let ghost failed = self.interface.transfers();
                let error = self.recovered(e);
                proof {
                    assert(start + Seq::<Transfer>::empty() =~= start);
                    assert(Seq::<Transfer>::empty() + setup =~= setup);
                    lemma_breaks_off(
                        start,
                        failed,
                        self.interface.transfers(),
                        Seq::empty(),
                        setup,
                        plan,
                        e,
                        view.version,
                    );
                }
                return Err(error);
            },
        }
        let ghost mid = self.interface.transfers();
        let ghost selected = self.interface.state().selection();
        match self.interface.write_ap_register(self.access_port, DRW(value)) {
            Ok(()) => {},
            Err(e) => {
                let ghost failed = self.interface.transfers();
                proof {
                    assert(failed.subrange(0, mid.len() as int) =~= mid);
                    lemma_failed_earlier(failed, start.len() as int, mid.len() as int, e);
                    lemma_failed_access_broke_off(mid, failed, selected, view.access(), store, e);
                    assert(mid =~= start + setup);
                }
                let error = self.recovered(e);
                proof {
                    lemma_breaks_off(
                        start,
                        failed,
                        self.interface.transfers(),
                        setup,
                        selected.select_writes(view.access()) + seq![store],
                        plan,
                        e,
                        view.version,
                    );
                }
                return Err(error);
            },
        }
        proof {
            assert(self.interface.transfers() =~= start + (setup + seq![store]));
        }
        let ghost done = self.interface.transfers();
        match self.interface.flush() {
            Ok(()) => {
                proof {
                    assert(self.interface.transfers() =~= start + plan);
                }
                Ok(())
            },
            Err(e) => {
                let ghost failed = self.interface.transfers();
                proof {
                    lemma_all_succeed(start, done);
                    assert(failed.drop_last() =~= done);
                    lemma_failed_last(failed, start.len() as int, e);
                }
                let error = self.recovered(e);
                proof {
                    assert(failed =~= start + (setup + seq![store]) + cut(
                        seq![Transfer::flush()],
                        0,
                        e,
                    ));
                    lemma_breaks_off(
                        start,
                        failed,
                        self.interface.transfers(),
                        setup + seq![store],
                        seq![Transfer::flush()],
                        plan,
                        e,
                        view.version,
                    );
                }
                Err(error)
            },
        }
    }

    /// Writes CSW for transfers of the given width unless it is known to
    /// hold that value.
    fn set_width(&mut self, size: DataSize) -> (r: Result<(), DebugProbeError>)
        ensures
            old(self).view().transfers.is_prefix_of(final(self).view().transfers),
            final(self).view().same_port(old(self).view()),
            final(self).recorded() == old(self).recorded(),
            final(self).interface().state().same_session(old(self).interface().state()),
            r is Ok ==> {
                let view = old(self).view();
                if view.csw_writes(size).len() == 0 {
                    final(self).view() == view
                } else {
                    final(self).view() == view.after(
                        size,
                        view.selection.select_writes(view.access()) + view.csw_writes(size),
                    )
                }
            },
            r matches Err(e) ==> failed_with(
                final(self).view().transfers,
                old(self).view().transfers.len() as int,
                e,
            ) && broke_off(
                old(self).view().transfers,
                final(self).view().transfers,
                old(self).view().selection.select_writes(old(self).view().access()) + old(
                    self,
                ).view().csw_writes(size),
                e,
            ),
    {
        broadcast use crate::communication_interface::ArmCommunicationInterfaceState::lemma_with_selection;

        let ghost start = self.interface.transfers();
        let ghost view = self.view();
        let csw = CSW::for_transfers(size);
        let cached = match self.cached_csw_value {
            Some(value) => value.0 == csw.0,
            None => false,
        };
        if !cached {
            match self.interface.write_ap_register(self.access_port, csw) {
                Ok(()) => {},
                Err(e) => {
                    proof {
                        lemma_failed_access_broke_off(
                            start,
                            self.interface.transfers(),
                            view.selection,
                            view.access(),
                            Transfer::write(view.ap(), 0x0, csw.0),
                            e,
                        );
                    }
                    return Err(e);
                },
            }
            self.cached_csw_value = Some(csw);
            proof {
                assert(self.interface.transfers() =~= start + (view.selection.select_writes(
                    view.access(),
                ) + view.csw_writes(size)));
            }
        }
        Ok(())
    }

    /// Writes TAR with `address` and then the words of `run` to DRW.
    fn write_run(&mut self, address: u32, run: &[u32]) -> (r: Result<(), DebugProbeError>)
        ensures
            old(self).view().transfers.is_prefix_of(final(self).view().transfers),
            final(self).view().same_port(old(self).view()),
            final(self).view().cached_csw == old(self).view().cached_csw,
            final(self).recorded() == old(self).recorded(),
            final(self).interface().state().same_session(old(self).interface().state()),
            r is Ok ==> {
                let view = old(self).view();
                &&& final(self).view().transfers == view.transfers + view.run_plan(
                    address,
                    run@,
                    false,
                )
                &&& final(self).view().selection == view.selection.toward(view.access())
            },
            r matches Err(e) ==> failed_with(
                final(self).view().transfers,
                old(self).view().transfers.len() as int,
                e,
            ) && broke_off(
                old(self).view().transfers,
                final(self).view().transfers,
                old(self).view().run_plan(address, run@, false),
                e,
            ),
    {
        broadcast use crate::communication_interface::ArmCommunicationInterfaceState::lemma_with_selection;

        let ghost start = self.interface.transfers();
        let ghost view = self.view();
        match self.interface.write_ap_register(self.access_port, TAR(address)) {
            Ok(()) => {},
            Err(e) => {
                proof {
                    let point = Transfer::write(view.ap(), 0x4, address);
                    lemma_failed_access_broke_off(
                        start,
                        self.interface.transfers(),
                        view.selection,
                        view.access(),
                        point,
                        e,
                    );
                    lemma_broke_off_start(
                        start,
                        self.interface.transfers(),
                        view.selection.select_writes(view.access()) + seq![point],
                        view.run_plan(address, run@, false),
                        e,
                    );
                }
                return Err(e);
            },
        }
        let ghost mid = self.interface.transfers();
        let ghost selected = self.interface.state().selection();
        match self.interface.write_ap_register_repeated(self.access_port, DRW::default(), run) {
            Ok(()) => {},
            Err(e) => {
                proof {
                    assert(self.interface.transfers().subrange(0, mid.len() as int) =~= mid);
                    lemma_failed_earlier(
                        self.interface.transfers(),
                        start.len() as int,
                        mid.len() as int,
                        e,
                    );
                    let front = view.selection.select_writes(view.access()) + seq![
                        Transfer::write(view.ap(), 0x4, address),
                    ];
                    let middle = selected.select_writes(view.access()) + block_writes(
                        view.ap(),
                        0xC,
                        run@,
                    );
                    assert(mid =~= start + front);
                    lemma_broke_off_inside(
                        start,
                        self.interface.transfers(),
                        front,
                        middle,
                        Seq::empty(),
                        e,
                    );
                    assert(front + middle + Seq::<Transfer>::empty() =~= view.run_plan(
                        address,
                        run@,
                        false,
                    ));
                }
                return Err(e);
            },
        }
        proof {
            assert(self.interface.transfers() =~= start + view.run_plan(address, run@, false));
        }
        Ok(())
    }

    /// Writes the words of `data` to `address` and the addresses behind it,
    /// window by window, and flushes.
    #[verifier::rlimit(40)]
    fn block_write(&mut self, address: u32, data: &[u32]) -> (r: Result<(), Error>)
        requires
            address % 4 == 0,
            data@.len() > 0,
            address + 4 * data@.len() <= 0x1_0000_0000,
        ensures
            final(self).view().same_port(old(self).view()),
            final(self).recorded() == old(self).recorded(),
            final(self).interface().state().same_session(old(self).interface().state()),
            old(self).view().transfers.is_prefix_of(final(self).view().transfers),
            r is Ok ==> final(self).view() == old(self).view().after(
                DataSize::U32,
                flushed(old(self).view().block_plan(address, data@, false)),
            ),
            r matches Err(e) ==> fails_on_wire(
                old(self).view().transfers,
                final(self).view().transfers,
                e,
                old(self).view().version,
            ),
            r matches Err(e) ==> breaks_off(
                old(self).view().transfers,
                final(self).view().transfers,
                flushed(old(self).view().block_plan(address, data@, false)),
                e,
                old(self).view().version,
            ),
    {
        let ghost start = self.interface.transfers();
        let ghost n = start.len() as int;
        let ghost view = self.view();
        match self.set_width(DataSize::U32) {
            Ok(()) => {},
            Err(e) => {
                let ghost failed = self.interface.transfers();
                let error = self.recovered(e);
                proof {
                    let front = view.selection.select_writes(view.access()) + view.csw_writes(
                        DataSize::U32,
                    );
                    let plan = flushed(view.block_plan(address, data@, false));
                    assert(start + Seq::<Transfer>::empty() =~= start);
                    assert(Seq::<Transfer>::empty() + front =~= front);
                    assert(front =~= plan.subrange(0, front.len() as int));
                    lemma_breaks_off(
                        start,
                        failed,
                        self.interface.transfers(),
                        Seq::empty(),
                        front,
                        plan,
                        e,
                        view.version,
                    );
                }
                return Err(error);
            },
        }
        proof {
            lemma_front_succeeded(view, self.view());
        }
        let mut done: usize = 0;
        let mut current: u64 = address as u64;
        while done < data.len()
            invariant
                done <= data@.len(),
                address % 4 == 0,
                address + 4 * data@.len() <= 0x1_0000_0000,
                current == address + 4 * done,
                done == 0 || done == data@.len() || current % 1024 == 0,
                view == old(self).view(),
                start == view.transfers,
                n == start.len(),
                self.view().same_port(view),
                self.recorded() == old(self).recorded(),
                self.interface().state().same_session(old(self).interface().state()),
                succeeded(self.view().transfers, n),
                start.is_prefix_of(self.view().transfers),
                block_progress(view, self.view(), address, data@.subrange(0, done as int), false),
            decreases data@.len() - done,
        {
            let room: u64 = (WINDOW as u64 - current % WINDOW as u64) / 4;
            let left: usize = data.len() - done;
            let count: usize = if (left as u64) < room {
                left
            } else {
                room as usize
            };
            proof {
                lemma_run_length(current as int, left as int, count as int);
            }
            let ghost before = self.view();
            let run = vstd::slice::slice_subrange(data, done, done + count);
            match self.write_run(current as u32, run) {
                Ok(()) => {},
                Err(e) => {
                    let ghost failed = self.interface.transfers();
                    proof {
                        assert(failed.subrange(0, before.transfers.len() as int)
                            =~= before.transfers);
                        lemma_failed_earlier(failed, n, before.transfers.len() as int, e);
                    }
                    let error = self.recovered(e);
                    proof {
                        assert(data@.subrange(done as int, done + count) =~= run@);
                        lemma_block_breaks_off(
                            view,
                            before,
                            failed,
                            self.interface.transfers(),
                            address,
                            data@,
                            done as int,
                            count as int,
                            false,
                            e,
                            view.version,
                        );
                    }
                    return Err(error);
                },
            }
            proof {
                let next = data@.subrange(0, done + count);
                assert(next.subrange(0, done as int) =~= data@.subrange(0, done as int));
                assert(next.subrange(done as int, done + count) =~= run@);
                lemma_block_progress(
                    view,
                    before,
                    self.view(),
                    address,
                    next,
                    done as int,
                    false,
                );
            }
            done = done + count;
            current = current + 4 * (count as u64);
        }
        proof {
            assert(data@.subrange(0, done as int) =~= data@);
        }
        let ghost complete = self.interface.transfers();
        match self.interface.flush() {
            Ok(()) => {
                proof {
                    assert(self.interface.transfers() =~= start + flushed(
                        view.block_plan(address, data@, false),
                    ));
                }
                Ok(())
            },
            Err(e) => {
                let ghost failed = self.interface.transfers();
                proof {
                    assert(failed.drop_last() =~= complete);
                    lemma_failed_last(failed, n, e);
                }
                let error = self.recovered(e);
                proof {
                    let plan = view.block_plan(address, data@, false);
                    assert(complete =~= start + plan);
                    assert(failed =~= start + plan + cut(seq![Transfer::flush()], 0, e));
                    assert(plan + seq![Transfer::flush()] =~= flushed(plan));
                    assert(flushed(plan) =~= flushed(plan).subrange(0, flushed(plan).len() as int));
                    lemma_breaks_off(
                        start,
                        failed,
                        self.interface.transfers(),
                        plan,
                        seq![Transfer::flush()],
                        flushed(plan),
                        e,
                        view.version,
                    );
                }
                Err(error)
            },
        }
    }

    /// Writes TAR with `address` and then fills `run` from DRW.
    fn read_run(&mut self, address: u32, run: &mut [u32]) -> (r: Result<(), DebugProbeError>)
        ensures
            final(run)@.len() == old(run)@.len(),
            old(self).view().transfers.is_prefix_of(final(self).view().transfers),
            final(self).view().same_port(old(self).view()),
            final(self).view().cached_csw == old(self).view().cached_csw,
            final(self).recorded() == old(self).recorded(),
            final(self).interface().state().same_session(old(self).interface().state()),
            r is Ok ==> {
                let view = old(self).view();
                &&& final(self).view().transfers == view.transfers + view.run_plan(
                    address,
                    final(run)@,
                    true,
                )
                &&& final(self).view().selection == view.selection.toward(view.access())
            },
            r matches Err(e) ==> failed_with(
                final(self).view().transfers,
                old(self).view().transfers.len() as int,
                e,
            ) && broke_off(
                old(self).view().transfers,
                final(self).view().transfers,
                old(self).view().run_plan(address, final(run)@, true),
                e,
            ),
    {
        broadcast use crate::communication_interface::ArmCommunicationInterfaceState::lemma_with_selection;

        let ghost start = self.interface.transfers();
        let ghost view = self.view();
        match self.interface.write_ap_register(self.access_port, TAR(address)) {
            Ok(()) => {},
            Err(e) => {
                proof {
                    let point = Transfer::write(view.ap(), 0x4, address);
                    lemma_failed_access_broke_off(
                        start,
                        self.interface.transfers(),
                        view.selection,
                        view.access(),
                        point,
                        e,
                    );
                    lemma_broke_off_start(
                        start,
                        self.interface.transfers(),
                        view.selection.select_writes(view.access()) + seq![point],
                        view.run_plan(address, run@, true),
                        e,
                    );
                }
                return Err(e);
            },
        }
        let ghost mid = self.interface.transfers();
        let ghost selected = self.interface.state().selection();
        match self.interface.read_ap_register_repeated(self.access_port, DRW::default(), run) {
            Ok(()) => {},
            Err(e) => {
                proof {
                    assert(self.interface.transfers().subrange(0, mid.len() as int) =~= mid);
                    lemma_failed_earlier(
                        self.interface.transfers(),
                        start.len() as int,
                        mid.len() as int,
                        e,
                    );
                    let front = view.selection.select_writes(view.access()) + seq![
                        Transfer::write(view.ap(), 0x4, address),
                    ];
                    let middle = selected.select_writes(view.access()) + block_reads(
                        view.ap(),
                        0xC,
                        run@,
                    );
                    assert(mid =~= start + front);
                    lemma_broke_off_inside(
                        start,
                        self.interface.transfers(),
                        front,
                        middle,
                        Seq::empty(),
                        e,
                    );
                    assert(front + middle + Seq::<Transfer>::empty() =~= view.run_plan(
                        address,
                        run@,
                        true,
                    ));
                }
                return Err(e);
            },
        }
        proof {
            assert(self.interface.transfers() =~= start + view.run_plan(address, run@, true));
        }
        Ok(())
    }

    /// Fills `data` with the words from `address` on, window by window, and
    /// flushes.
    #[verifier::rlimit(40)]
    fn block_read(&mut self, address: u32, data: &mut [u32]) -> (r: Result<(), Error>)
        requires
            address % 4 == 0,
            old(data)@.len() > 0,
            address + 4 * old(data)@.len() <= 0x1_0000_0000,
        ensures
            final(data)@.len() == old(data)@.len(),
            final(self).view().same_port(old(self).view()),
            final(self).recorded() == old(self).recorded(),
            final(self).interface().state().same_session(old(self).interface().state()),
            old(self).view().transfers.is_prefix_of(final(self).view().transfers),
            r is Ok ==> final(self).view() == old(self).view().after(
                DataSize::U32,
                flushed(old(self).view().block_plan(address, final(data)@, true)),
            ),
            r matches Err(e) ==> fails_on_wire(
                old(self).view().transfers,
                final(self).view().transfers,
                e,
                old(self).view().version,
            ),
            r matches Err(e) ==> exists|values: Seq<u32>|
                values.len() == old(data)@.len() && breaks_off(
                    old(self).view().transfers,
                    final(self).view().transfers,
                    #[trigger] flushed(old(self).view().block_plan(address, values, true)),
                    e,
                    old(self).view().version,
                ),
    {
        let ghost start = self.interface.transfers();
        let ghost n = start.len() as int;
        let ghost view = self.view();
        match self.set_width(DataSize::U32) {
            Ok(()) => {},
            Err(e) => {
                let ghost failed = self.interface.transfers();
                let error = self.recovered(e);
                proof {
                    let front = view.selection.select_writes(view.access()) + view.csw_writes(
                        DataSize::U32,
                    );
                    let plan = flushed(view.block_plan(address, data@, true));
                    assert(start + Seq::<Transfer>::empty() =~= start);
                    assert(Seq::<Transfer>::empty() + front =~= front);
                    assert(front =~= plan.subrange(0, front.len() as int));
                    lemma_breaks_off(
                        start,
                        failed,
                        self.interface.transfers(),
                        Seq::empty(),
                        front,
                        plan,
                        e,
                        view.version,
                    );
                }
                return Err(error);
            },
        }
        proof {
            lemma_front_succeeded(view, self.view());
        }
        let mut done: usize = 0;
        let mut current: u64 = address as u64;
        while done < data.len()
            invariant
                done <= data@.len(),
                data@.len() == old(data)@.len(),
                address % 4 == 0,
                address + 4 * data@.len() <= 0x1_0000_0000,
                current == address + 4 * done,
                done == 0 || done == data@.len() || current % 1024 == 0,
                view == old(self).view(),
                start == view.transfers,
                n == start.len(),
                self.view().same_port(view),
                self.recorded() == old(self).recorded(),
                self.interface().state().same_session(old(self).interface().state()),
                succeeded(self.view().transfers, n),
                start.is_prefix_of(self.view().transfers),
                block_progress(view, self.view(), address, data@.subrange(0, done as int), true),
            decreases data@.len() - done,
        {
            let room: u64 = (WINDOW as u64 - current % WINDOW as u64) / 4;
            let left: usize = data.len() - done;
            let count: usize = if (left as u64) < room {
                left
            } else {
                room as usize
            };
            proof {
                lemma_run_length(current as int, left as int, count as int);
            }
            let ghost before = self.view();
            let ghost earlier = data@;
            let mut chunk: Vec<u32> = vec![0u32; count];
            match self.read_run(current as u32, chunk.as_mut_slice()) {
                Ok(()) => {},
                Err(e) => {
                    let ghost failed = self.interface.transfers();
                    proof {
                        assert(failed.subrange(0, before.transfers.len() as int)
                            =~= before.transfers);
                        lemma_failed_earlier(failed, n, before.transfers.len() as int, e);
                    }
                    let error = self.recovered(e);
                    proof {
                        let values = data@.subrange(0, done as int) + chunk@ + data@.subrange(
                            done + count,
                            data@.len() as int,
                        );
                        assert(values.subrange(0, done as int) =~= data@.subrange(0, done as int));
                        assert(values.subrange(done as int, done + count) =~= chunk@);
                        lemma_block_breaks_off(
                            view,
                            before,
                            failed,
                            self.interface.transfers(),
                            address,
                            values,
                            done as int,
                            count as int,
                            true,
                            e,
                            view.version,
                        );
                    }
                    return Err(error);
                },
            }
            let mut i: usize = 0;
            while i < count
                invariant
                    i <= count,
                    count == chunk@.len(),
                    done + count <= data@.len(),
                    done + count <= usize::MAX,
                    data@.len() == earlier.len(),
                    data@.subrange(0, done as int) == earlier.subrange(0, done as int),
                    data@.subrange(done as int, done + i) == chunk@.subrange(0, i as int),
                decreases count - i,
            {
                let ghost was = data@;
                data[done + i] = chunk[i];
                proof {
                    assert(data@.subrange(0, done as int) =~= was.subrange(0, done as int));
                    assert(data@.subrange(done as int, done + i + 1) =~= was.subrange(
                        done as int,
                        done + i,
                    ).push(chunk@[i as int]));
                    assert(chunk@.subrange(0, i + 1) =~= chunk@.subrange(0, i as int).push(
                        chunk@[i as int],
                    ));
                }
                i += 1;
            }
            proof {
                let next = data@.subrange(0, done + count);
                assert(next.subrange(0, done as int) =~= earlier.subrange(0, done as int));
                assert(next.subrange(done as int, done + count) =~= chunk@) by {
                    assert(chunk@.subrange(0, count as int) =~= chunk@);
                    assert(next.subrange(done as int, done + count) =~= data@.subrange(
                        done as int,
                        done + count,
                    ));
                }
                lemma_block_progress(view, before, self.view(), address, next, done as int, true);
            }
            done = done + count;
            current = current + 4 * (count as u64);
        }
        proof {
            assert(data@.subrange(0, done as int) =~= data@);
        }
        let ghost complete = self.interface.transfers();
        match self.interface.flush() {
            Ok(()) => {
                proof {
                    assert(self.interface.transfers() =~= start + flushed(
                        view.block_plan(address, data@, true),
                    ));
                }
                Ok(())
            },
            Err(e) => {
                let ghost failed = self.interface.transfers();
                proof {
                    assert(failed.drop_last() =~= complete);
                    lemma_failed_last(failed, n, e);
                }
                let error = self.recovered(e);
                proof {
                    let plan = view.block_plan(address, data@, true);
                    assert(complete =~= start + plan);
                    assert(failed =~= start + plan + cut(seq![Transfer::flush()], 0, e));
                    assert(plan + seq![Transfer::flush()] =~= flushed(plan));
                    assert(flushed(plan) =~= flushed(plan).subrange(0, flushed(plan).len() as int));
                    lemma_breaks_off(
                        start,
                        failed,
                        self.interface.transfers(),
                        plan,
                        seq![Transfer::flush()],
                        flushed(plan),
                        e,
                        view.version,
                    );
                }
                Err(error)
            },
        }
    }

    /// Reads the word that holds the byte at `address` through DRW, at the
    /// width that the access port has for bytes.
    fn byte_read(&mut self, address: u32) -> (r: Result<u32, Error>)
        ensures
            final(self).view().same_port(old(self).view()),
            final(self).recorded() == old(self).recorded(),
            final(self).interface().state().same_session(old(self).interface().state()),
            old(self).view().transfers.is_prefix_of(final(self).view().transfers),
            r matches Ok(word) ==> final(self).view() == old(self).view().after(
                old(self).view().narrow(),
                old(self).view().byte_read(address as int, word),
            ),
            r matches Err(e) ==> fails_on_wire(
                old(self).view().transfers,
                final(self).view().transfers,
                e,
                old(self).view().version,
            ),
            r matches Err(e) ==> exists|word: u32|
                breaks_off(
                    old(self).view().transfers,
                    final(self).view().transfers,
                    #[trigger] old(self).view().byte_read(address as int, word),
                    e,
                    old(self).view().version,
                ),
    {
        let ghost view = self.view();
        let r = if self.only_32bit_data_size {
            self.word_read(DataSize::U32, address - address % 4)
        } else {
            self.word_read(DataSize::U8, address)
        };
        proof {
            if let Err(e) = r {
                let value = choose|value: u32|
                    breaks_off(
                        view.transfers,
                        self.view().transfers,
                        view.word_plan(
                            view.narrow(),
                            view.target(address as int),
                            #[trigger] Transfer::read(view.ap(), 0xC, value),
                        ),
                        e,
                        view.version,
                    );
                assert(view.byte_read(address as int, value) == view.word_plan(
                    view.narrow(),
                    view.target(address as int),
                    Transfer::read(view.ap(), 0xC, value),
                ));
            }
        }
        r
    }

    /// Writes `byte` to `address`, at the width that the access port has
    /// for bytes, and returns the word that was read to do so, if one was.
    fn byte_write(&mut self, address: u32, byte: u8) -> (r: Result<u32, Error>)
        ensures
            final(self).view().same_port(old(self).view()),
            final(self).recorded() == old(self).recorded(),
            final(self).interface().state().same_session(old(self).interface().state()),
            old(self).view().transfers.is_prefix_of(final(self).view().transfers),
            r matches Ok(word) ==> final(self).view() == old(self).view().after(
                old(self).view().narrow(),
                old(self).view().byte_write(address as int, word, byte),
            ),
            r matches Err(e) ==> fails_on_wire(
                old(self).view().transfers,
                final(self).view().transfers,
                e,
                old(self).view().version,
            ),
            r matches Err(e) ==> exists|word: u32|
                breaks_off(
                    old(self).view().transfers,
                    final(self).view().transfers,
                    #[trigger] old(self).view().byte_write(address as int, word, byte),
                    e,
                    old(self).view().version,
                ),
    {
        let ghost view = self.view();
        // Offset of the byte in its word (little endian).
        let lane: u32 = address % 4;
        if self.only_32bit_data_size {
            let aligned: u32 = address - lane;
            // Read the existing word and put the byte in at its lane.
            let word = match self.word_read(DataSize::U32, aligned) {
                Ok(word) => word,
                Err(e) => {
                    proof {
                        let value = choose|value: u32|
                            breaks_off(
                                view.transfers,
                                self.view().transfers,
                                view.word_plan(
                                    DataSize::U32,
                                    aligned,
                                    #[trigger] Transfer::read(view.ap(), 0xC, value),
                                ),
                                e,
                                view.version,
                            );
                        let part = view.byte_read(address as int, value);
                        assert(view.transfers + Seq::<Transfer>::empty() =~= view.transfers);
                        assert(Seq::<Transfer>::empty() + part =~= part);
                        assert(part.is_prefix_of(view.byte_write(address as int, value, byte))) by {
                            assert(part =~= view.byte_write(address as int, value, byte).subrange(
                                0,
                                part.len() as int,
                            ));
                        }
                        lemma_breaks_off_later(
                            view.transfers,
                            self.view().transfers,
                            Seq::empty(),
                            part,
                            view.byte_write(address as int, value, byte),
                            e,
                            view.version,
                        );
                    }
                    return Err(e);
                },
            };
            let ghost mid = self.view();
            match self.word_write(DataSize::U32, aligned, insert_byte(word, lane, byte)) {
                Ok(()) => {},
                Err(e) => {
                    proof {
                        let added = view.byte_read(address as int, word);
                        assert(succeeded(added, 0)) by {
                            assert forall|i: int| 0 <= i < added.len() implies (
                            #[trigger] added[i]).failure() is None by {}
                        }
                        lemma_succeeded_append(
                            view.transfers,
                            added,
                            view.transfers.len() as int,
                        );
                        lemma_fails_later(
                            view.transfers,
                            mid.transfers,
                            self.view().transfers,
                            e,
                            view.version,
                        );
                        let part = view.byte_read(address as int, word);
                        let rest = mid.word_plan(
                            DataSize::U32,
                            aligned,
                            Transfer::write(view.ap(), 0xC, spec_insert_byte(word, lane, byte)),
                        );
                        assert(mid.transfers =~= view.transfers + part);
                        assert(part + rest =~= view.byte_write(address as int, word, byte));
                        lemma_breaks_off_later(
                            view.transfers,
                            self.view().transfers,
                            part,
                            rest,
                            view.byte_write(address as int, word, byte),
                            e,
                            view.version,
                        );
                    }
                    return Err(e);
                },
            }
            proof {
                assert(self.view().transfers =~= view.transfers + view.byte_write(
                    address as int,
                    word,
                    byte,
                ));
            }
            Ok(word)
        } else {
            match self.word_write(DataSize::U8, address, insert_byte(0, lane, byte)) {
                Ok(()) => Ok(0),
                Err(e) => {
                    proof {
                        assert(view.byte_write(address as int, 0, byte) == view.word_plan(
                            DataSize::U8,
                            address,
                            Transfer::write(view.ap(), 0xC, spec_insert_byte(0, lane, byte)),
                        ));
                    }
                    Err(e)
                },
            }
        }
    }
}

impl<P: DAPAccess> MemoryInterface for ADIMemoryInterface<P> {
    closed spec fn accesses(&self) -> Seq<MemoryAccess> {
        self.history@
    }

    fn read_word_32(&mut self, address: u32) -> (r: Result<u32, Error>)
        ensures
            final(self).view().same_port(old(self).view()),
            old(self).view().transfers.is_prefix_of(final(self).view().transfers),
            final(self).interface().state().same_session(old(self).interface().state()),
            address % 4 != 0 ==> r == Err::<u32, Error>(
                Error::UnalignedAddress { address, alignment: 4 },
            ) && final(self).view() == old(self).view(),
            address % 4 == 0 ==> match r {
                Ok(value) => final(self).view() == old(self).view().after(
                    DataSize::U32,
                    flushed(
                        old(self).view().setup(DataSize::U32, address) + seq![
                            Transfer::read(old(self).view().ap(), 0xC, value),
                        ],
                    ),
                ),
                Err(e) => fails_on_wire(
                    old(self).view().transfers,
                    final(self).view().transfers,
                    e,
                    old(self).view().version,
                ) && exists|value: u32|
                    breaks_off(
                        old(self).view().transfers,
                        final(self).view().transfers,
                        old(self).view().word_plan(
                            DataSize::U32,
                            address,
                            #[trigger] Transfer::read(old(self).view().ap(), 0xC, value),
                        ),
                        e,
                        old(self).view().version,
                    ),
            },
    {
        let r = if address % 4 != 0 {
            Err(Error::UnalignedAddress { address, alignment: 4 })
        } else {
            self.word_read(DataSize::U32, address)
        };
        proof {
            self.history@ = self.history@.push(MemoryAccess::of_word_read(address, r));
        }
        r
    }

    fn read_word_16(&mut self, address: u32) -> (r: Result<u16, Error>)
        ensures
            final(self).view().same_port(old(self).view()),
            old(self).view().transfers.is_prefix_of(final(self).view().transfers),
            final(self).interface().state().same_session(old(self).interface().state()),
            address % 2 != 0 ==> r == Err::<u16, Error>(
                Error::UnalignedAddress { address, alignment: 2 },
            ) && final(self).view() == old(self).view(),
            address % 2 == 0 ==> match r {
                Ok(value) => exists|word: u32|
                    {
                        &&& final(self).view() == old(self).view().after(
                            old(self).view().halved(),
                            #[trigger] old(self).view().half_read(address as int, word),
                        )
                        &&& value == spec_extract_half(word, (address % 4) as u32)
                    },
                Err(e) => fails_on_wire(
                    old(self).view().transfers,
                    final(self).view().transfers,
                    e,
                    old(self).view().version,
                ) && exists|word: u32|
                    breaks_off(
                        old(self).view().transfers,
                        final(self).view().transfers,
                        #[trigger] old(self).view().half_read(address as int, word),
                        e,
                        old(self).view().version,
                    ),
            },
    {
        let r = if address % 2 != 0 {
            Err(Error::UnalignedAddress { address, alignment: 2 })
        } else {
            let read = if self.only_32bit_data_size {
                self.word_read(DataSize::U32, address - address % 4)
            } else {
                self.word_read(DataSize::U16, address)
            };
            match read {
                Ok(word) => {
                    proof {
                        let view = old(self).view();
                        assert(self.view() == view.after(
                            view.halved(),
                            view.half_read(address as int, word),
                        ));
                    }
                    Ok(extract_half(word, address % 4))
                },
                Err(e) => {
                    proof {
                        let view = old(self).view();
                        let value = choose|value: u32|
                            breaks_off(
                                view.transfers,
                                self.view().transfers,
                                view.word_plan(
                                    view.halved(),
                                    view.target(address as int),
                                    #[trigger] Transfer::read(view.ap(), 0xC, value),
                                ),
                                e,
                                view.version,
                            );
                        assert(view.half_read(address as int, value) == view.word_plan(
                            view.halved(),
                            view.target(address as int),
                            Transfer::read(view.ap(), 0xC, value),
                        ));
                    }
                    Err(e)
                },
            }
        };
        proof {
            self.history@ = self.history@.push(MemoryAccess::Read16 { address, half: r });
        }
        r
    }

    #[verifier::rlimit(50)]
    fn write_word_16(&mut self, address: u32, data: u16) -> (r: Result<(), Error>)
        ensures
            final(self).view().same_port(old(self).view()),
            old(self).view().transfers.is_prefix_of(final(self).view().transfers),
            final(self).interface().state().same_session(old(self).interface().state()),
            address % 2 != 0 ==> error_of(r) == Some(
                Error::UnalignedAddress { address, alignment: 2 },
            ) && final(self).view() == old(self).view(),
            address % 2 == 0 ==> match r {
                Ok(_) => exists|word: u32|
                    final(self).view() == old(self).view().after(
                        old(self).view().halved(),
                        #[trigger] old(self).view().half_write(address as int, word, data),
                    ),
                Err(e) => fails_on_wire(
                    old(self).view().transfers,
                    final(self).view().transfers,
                    e,
                    old(self).view().version,
                ) && exists|word: u32|
                    breaks_off(
                        old(self).view().transfers,
                        final(self).view().transfers,
                        #[trigger] old(self).view().half_write(address as int, word, data),
                        e,
                        old(self).view().version,
                    ),
            },
    {
        let ghost view = self.view();
        let lane: u32 = address % 4;
        let r = if address % 2 != 0 {
            Err(Error::UnalignedAddress { address, alignment: 2 })
        } else if self.only_32bit_data_size {
            let aligned: u32 = address - lane;
            // Read the existing word and put the half word in at its lanes.
            match self.word_read(DataSize::U32, aligned) {
                Ok(word) => {
                    let ghost mid = self.view();
                    let written = self.word_write(
                        DataSize::U32,
                        aligned,
                        insert_half(word, lane, data),
                    );
                    proof {
                        match written {
                            Ok(_) => {
                                assert(self.view().transfers =~= view.transfers + view.half_write(
                                    address as int,
                                    word,
                                    data,
                                ));
                                assert(self.view() == view.after(
                                    view.halved(),
                                    view.half_write(address as int, word, data),
                                ));
                            },
                            Err(e) => {
                                let added = view.half_read(address as int, word);
                                assert(succeeded(added, 0)) by {
                                    assert forall|i: int| 0 <= i < added.len() implies (
                                    #[trigger] added[i]).failure() is None by {}
                                }
                                lemma_succeeded_append(
                                    view.transfers,
                                    added,
                                    view.transfers.len() as int,
                                );
                                lemma_fails_later(
                                    view.transfers,
                                    mid.transfers,
                                    self.view().transfers,
                                    e,
                                    view.version,
                                );
                                let part = view.half_read(address as int, word);
                                let rest = mid.word_plan(
                                    DataSize::U32,
                                    aligned,
                                    Transfer::write(
                                        view.ap(),
                                        0xC,
                                        spec_insert_half(word, lane, data),
                                    ),
                                );
                                assert(mid.transfers =~= view.transfers + part);
                                assert(part + rest =~= view.half_write(address as int, word, data));
                                lemma_breaks_off_later(
                                    view.transfers,
                                    self.view().transfers,
                                    part,
                                    rest,
                                    view.half_write(address as int, word, data),
                                    e,
                                    view.version,
                                );
                            },
                        }
                    }
                    written
                },
                Err(e) => {
                    proof {
                        let value = choose|value: u32|
                            breaks_off(
                                view.transfers,
                                self.view().transfers,
                                view.word_plan(
                                    DataSize::U32,
                                    aligned,
                                    #[trigger] Transfer::read(view.ap(), 0xC, value),
                                ),
                                e,
                                view.version,
                            );
                        let part = view.half_read(address as int, value);
                        let whole = view.half_write(address as int, value, data);
                        assert(view.transfers + Seq::<Transfer>::empty() =~= view.transfers);
                        assert(Seq::<Transfer>::empty() + part =~= part);
                        assert(part.is_prefix_of(whole)) by {
                            assert(part =~= whole.subrange(0, part.len() as int));
                        }
                        lemma_breaks_off_later(
                            view.transfers,
                            self.view().transfers,
                            Seq::empty(),
                            part,
                            whole,
                            e,
                            view.version,
                        );
                    }
                    Err(e)
                },
            }
        } else {
            let written = self.word_write(DataSize::U16, address, insert_half(0, lane, data));
            proof {
                if written is Ok {
                    assert(self.view() == view.after(
                        view.halved(),
                        view.half_write(address as int, 0, data),
                    ));
                } else {
                    assert(view.half_write(address as int, 0, data) == view.word_plan(
                        DataSize::U16,
                        address,
                        Transfer::write(view.ap(), 0xC, spec_insert_half(0, lane, data)),
                    ));
                }
            }
            written
        };
        proof {
            self.history@ = self.history@.push(
                MemoryAccess::Write16 { address, value: data, failure: error_of(r) },
            );
        }
        r
    }

    fn read_word_8(&mut self, address: u32) -> (r: Result<u8, Error>)
        ensures
            final(self).view().same_port(old(self).view()),
            old(self).view().transfers.is_prefix_of(final(self).view().transfers),
            final(self).interface().state().same_session(old(self).interface().state()),
            match r {
                Ok(value) => exists|word: u32|
                    {
                        &&& final(self).view() == old(self).view().after(
                            old(self).view().narrow(),
                            #[trigger] old(self).view().byte_read(address as int, word),
                        )
                        &&& value == spec_extract_byte(word, (address % 4) as u32)
                    },
                Err(e) => fails_on_wire(
                    old(self).view().transfers,
                    final(self).view().transfers,
                    e,
                    old(self).view().version,
                ) && exists|word: u32|
                    breaks_off(
                        old(self).view().transfers,
                        final(self).view().transfers,
                        #[trigger] old(self).view().byte_read(address as int, word),
                        e,
                        old(self).view().version,
                    ),
            },
    {
        let r = match self.byte_read(address) {
            Ok(word) => {
                proof {
                    let view = old(self).view();
                    assert(self.view() == view.after(
                        view.narrow(),
                        view.byte_read(address as int, word),
                    ));
                }
                Ok(extract_byte(word, address % 4))
            },
            Err(e) => Err(e),
        };
        proof {
            self.history@ = self.history@.push(MemoryAccess::of_byte_read(address, r));
        }
        r
    }

    fn read_32(&mut self, address: u32, data: &mut [u32]) -> (r: Result<(), Error>)
        ensures
            final(self).view().same_port(old(self).view()),
            old(self).view().transfers.is_prefix_of(final(self).view().transfers),
            final(self).interface().state().same_session(old(self).interface().state()),
            match transfer_fault(address, 32, old(data)@.len()) {
                Some(fault) => error_of(r) == Some(fault) && final(self).view() == old(
                    self,
                ).view(),
                None => match r {
                    Ok(_) => if old(data)@.len() == 0 {
                        final(self).view() == old(self).view()
                    } else {
                        final(self).view() == old(self).view().after(
                            DataSize::U32,
                            flushed(old(self).view().block_plan(address, final(data)@, true)),
                        )
                    },
                    Err(e) => old(data)@.len() > 0 && fails_on_wire(
                        old(self).view().transfers,
                        final(self).view().transfers,
                        e,
                        old(self).view().version,
                    ) && exists|values: Seq<u32>|
                        values.len() == old(data)@.len() && breaks_off(
                            old(self).view().transfers,
                            final(self).view().transfers,
                            #[trigger] flushed(old(self).view().block_plan(address, values, true)),
                            e,
                            old(self).view().version,
                        ),
                },
            },
    {
        let r = match check_transfer(address, 32, data.len()) {
            Err(fault) => Err(fault),
            Ok(()) => {
                if data.len() == 0 {
                    Ok(())
                } else {
                    self.block_read(address, data)
                }
            },
        };
        proof {
            self.history@ = self.history@.push(
                MemoryAccess::of_words_read(address, old(data)@.len(), data@, r),
            );
        }
        r
    }

    #[verifier::rlimit(50)]
    fn read_8(&mut self, address: u32, data: &mut [u8]) -> (r: Result<(), Error>)
        ensures
            final(self).view().same_port(old(self).view()),
            old(self).view().transfers.is_prefix_of(final(self).view().transfers),
            final(self).interface().state().same_session(old(self).interface().state()),
            match transfer_fault(address, 8, old(data)@.len()) {
                Some(fault) => error_of(r) == Some(fault) && final(self).view() == old(
                    self,
                ).view(),
                None => match r {
                    Ok(_) => if old(data)@.len() == 0 {
                        final(self).view() == old(self).view()
                    } else {
                        exists|words: Seq<u32>|
                            {
                                &&& words.len() == old(data)@.len()
                                &&& final(self).view() == old(self).view().after(
                                    old(self).view().narrow(),
                                    #[trigger] old(self).view().byte_reads(address as int, words),
                                )
                                &&& bytes_of(address as int, words, final(data)@)
                            }
                    },
                    Err(e) => old(data)@.len() > 0 && fails_on_wire(
                        old(self).view().transfers,
                        final(self).view().transfers,
                        e,
                        old(self).view().version,
                    ) && exists|words: Seq<u32>|
                        words.len() == old(data)@.len() && breaks_off(
                            old(self).view().transfers,
                            final(self).view().transfers,
                            #[trigger] old(self).view().byte_reads(address as int, words),
                            e,
                            old(self).view().version,
                        ),
                },
            },
    {
        let ghost view = self.view();
        let ghost n = view.transfers.len() as int;
        let mut r: Result<(), Error> = check_transfer(address, 8, data.len());
        let ghost mut words: Seq<u32> = Seq::empty();
        if r.is_ok() {
            let mut i: usize = 0;
            while i < data.len() && r.is_ok()
                invariant
                    i <= data@.len(),
                    data@.len() == old(data)@.len(),
                    address + data@.len() <= 0x1_0000_0000,
                    view == old(self).view(),
                    n == view.transfers.len(),
                    self.recorded() == old(self).recorded(),
                    self.view().same_port(view),
                    self.interface().state().same_session(old(self).interface().state()),
                    view.transfers.is_prefix_of(self.view().transfers),
                    r is Ok ==> {
                        &&& words.len() == i
                        &&& succeeded(self.view().transfers, n)
                        &&& bytes_of(address as int, words, data@.subrange(0, i as int))
                        &&& if i == 0 {
                            self.view() == view
                        } else {
                            self.view() == view.after(
                                view.narrow(),
                                view.byte_reads(address as int, words),
                            )
                        }
                    },
                    r matches Err(e) ==> data@.len() > 0 && fails_on_wire(
                        view.transfers,
                        self.view().transfers,
                        e,
                        view.version,
                    ) && exists|all: Seq<u32>|
                        all.len() == data@.len() && breaks_off(
                            view.transfers,
                            self.view().transfers,
                            #[trigger] view.byte_reads(address as int, all),
                            e,
                            view.version,
                        ),
                decreases data@.len() - i + if r is Ok { 1int } else { 0int },
            {
                let ghost before = self.view();
                let ghost was = data@;
                match self.byte_read(address + i as u32) {
                    Ok(word) => {
                        data[i] = extract_byte(word, (address + i as u32) % 4);
                        proof {
                            lemma_byte_read_step(
                                view,
                                before,
                                self.view(),
                                address as int,
                                words,
                                word,
                            );
                            assert(data@.subrange(0, i + 1) =~= was.subrange(0, i as int).push(
                                data@[i as int],
                            ));
                            words = words.push(word);
                        }
                        i += 1;
                    },
                    Err(e) => {
                        proof {
                            lemma_fails_later(
                                view.transfers,
                                before.transfers,
                                self.view().transfers,
                                e,
                                view.version,
                            );
                            let word = choose|word: u32|
                                breaks_off(
                                    before.transfers,
                                    self.view().transfers,
                                    #[trigger] before.byte_read(address + i, word),
                                    e,
                                    view.version,
                                );
                            lemma_byte_reads_break(
                                view,
                                before,
                                self.view().transfers,
                                address as int,
                                words,
                                word,
                                data@.len() as int,
                                e,
                                view.version,
                            );
                        }
                        r = Err(e);
                    },
                }
            }
            proof {
                assert(data@.subrange(0, data@.len() as int) =~= data@);
            }
        }
        proof {
            self.history@ = self.history@.push(
                MemoryAccess::of_bytes_read(address, old(data)@.len(), data@, r),
            );
        }
        r
    }

    fn write_word_32(&mut self, address: u32, data: u32) -> (r: Result<(), Error>)
        ensures
            final(self).view().same_port(old(self).view()),
            old(self).view().transfers.is_prefix_of(final(self).view().transfers),
            final(self).interface().state().same_session(old(self).interface().state()),
            address % 4 != 0 ==> error_of(r) == Some(
                Error::UnalignedAddress { address, alignment: 4 },
            ) && final(self).view() == old(self).view(),
            address % 4 == 0 ==> match r {
                Ok(_) => final(self).view() == old(self).view().after(
                    DataSize::U32,
                    flushed(
                        old(self).view().setup(DataSize::U32, address) + seq![
                            Transfer::write(old(self).view().ap(), 0xC, data),
                        ],
                    ),
                ),
                Err(e) => fails_on_wire(
                    old(self).view().transfers,
                    final(self).view().transfers,
                    e,
                    old(self).view().version,
                ) && breaks_off(
                    old(self).view().transfers,
                    final(self).view().transfers,
                    old(self).view().word_plan(
                        DataSize::U32,
                        address,
                        Transfer::write(old(self).view().ap(), 0xC, data),
                    ),
                    e,
                    old(self).view().version,
                ),
            },
    {
        let r = if address % 4 != 0 {
            Err(Error::UnalignedAddress { address, alignment: 4 })
        } else {
            self.word_write(DataSize::U32, address, data)
        };
        proof {
            self.history@ = self.history@.push(
                MemoryAccess::of_words_written(address, seq![data], r),
            );
        }
        r
    }

    fn write_word_8(&mut self, address: u32, data: u8) -> (r: Result<(), Error>)
        ensures
            final(self).view().same_port(old(self).view()),
            old(self).view().transfers.is_prefix_of(final(self).view().transfers),
            final(self).interface().state().same_session(old(self).interface().state()),
            match r {
                Ok(_) => exists|word: u32|
                    final(self).view() == old(self).view().after(
                        old(self).view().narrow(),
                        #[trigger] old(self).view().byte_write(address as int, word, data),
                    ),
                Err(e) => fails_on_wire(
                    old(self).view().transfers,
                    final(self).view().transfers,
                    e,
                    old(self).view().version,
                ) && exists|word: u32|
                    breaks_off(
                        old(self).view().transfers,
                        final(self).view().transfers,
                        #[trigger] old(self).view().byte_write(address as int, word, data),
                        e,
                        old(self).view().version,
                    ),
            },
    {
        let r = match self.byte_write(address, data) {
            Ok(_) => Ok(()),
            Err(e) => Err(e),
        };
        proof {
            self.history@ = self.history@.push(
                MemoryAccess::of_bytes_written(address, seq![data], r),
            );
        }
        r
    }

    fn write_32(&mut self, address: u32, data: &[u32]) -> (r: Result<(), Error>)
        ensures
            final(self).view().same_port(old(self).view()),
            old(self).view().transfers.is_prefix_of(final(self).view().transfers),
            final(self).interface().state().same_session(old(self).interface().state()),
            match transfer_fault(address, 32, data@.len()) {
                Some(fault) => error_of(r) == Some(fault) && final(self).view() == old(
                    self,
                ).view(),
                None => match r {
                    Ok(_) => if data@.len() == 0 {
                        final(self).view() == old(self).view()
                    } else {
                        final(self).view() == old(self).view().after(
                            DataSize::U32,
                            flushed(old(self).view().block_plan(address, data@, false)),
                        )
                    },
                    Err(e) => data@.len() > 0 && fails_on_wire(
                        old(self).view().transfers,
                        final(self).view().transfers,
                        e,
                        old(self).view().version,
                    ) && breaks_off(
                        old(self).view().transfers,
                        final(self).view().transfers,
                        flushed(old(self).view().block_plan(address, data@, false)),
                        e,
                        old(self).view().version,
                    ),
                },
            },
    {
        let r = match check_transfer(address, 32, data.len()) {
            Err(fault) => Err(fault),
            Ok(()) => {
                if data.len() == 0 {
                    Ok(())
                } else {
                    self.block_write(address, data)
                }
            },
        };
        proof {
            self.history@ = self.history@.push(MemoryAccess::of_words_written(address, data@, r));
        }
        r
    }

    #[verifier::rlimit(50)]
    fn write_8(&mut self, address: u32, data: &[u8]) -> (r: Result<(), Error>)
        ensures
            final(self).view().same_port(old(self).view()),
            old(self).view().transfers.is_prefix_of(final(self).view().transfers),
            final(self).interface().state().same_session(old(self).interface().state()),
            match transfer_fault(address, 8, data@.len()) {
                Some(fault) => error_of(r) == Some(fault) && final(self).view() == old(
                    self,
                ).view(),
                None => match r {
                    Ok(_) => if data@.len() == 0 {
                        final(self).view() == old(self).view()
                    } else {
                        exists|words: Seq<u32>|
                            final(self).view() == old(self).view().after(
                                old(self).view().narrow(),
                                #[trigger] old(self).view().byte_writes(
                                    address as int,
                                    words,
                                    data@,
                                ),
                            ) && words.len() == data@.len()
                    },
                    Err(e) => data@.len() > 0 && fails_on_wire(
                        old(self).view().transfers,
                        final(self).view().transfers,
                        e,
                        old(self).view().version,
                    ) && exists|words: Seq<u32>|
                        words.len() == data@.len() && breaks_off(
                            old(self).view().transfers,
                            final(self).view().transfers,
                            #[trigger] old(self).view().byte_writes(address as int, words, data@),
                            e,
                            old(self).view().version,
                        ),
                },
            },
    {
        let ghost view = self.view();
        let ghost n = view.transfers.len() as int;
        let mut r: Result<(), Error> = check_transfer(address, 8, data.len());
        let ghost mut words: Seq<u32> = Seq::empty();
        if r.is_ok() {
            let mut i: usize = 0;
            while i < data.len() && r.is_ok()
                invariant
                    i <= data@.len(),
                    address + data@.len() <= 0x1_0000_0000,
                    view == old(self).view(),
                    n == view.transfers.len(),
                    self.recorded() == old(self).recorded(),
                    self.view().same_port(view),
                    self.interface().state().same_session(old(self).interface().state()),
                    view.transfers.is_prefix_of(self.view().transfers),
                    r is Ok ==> {
                        &&& words.len() == i
                        &&& succeeded(self.view().transfers, n)
                        &&& if i == 0 {
                            self.view() == view
                        } else {
                            self.view() == view.after(
                                view.narrow(),
                                view.byte_writes(
                                    address as int,
                                    words,
                                    data@.subrange(0, i as int),
                                ),
                            )
                        }
                    },
                    r matches Err(e) ==> data@.len() > 0 && fails_on_wire(
                        view.transfers,
                        self.view().transfers,
                        e,
                        view.version,
                    ) && exists|all: Seq<u32>|
                        all.len() == data@.len() && breaks_off(
                            view.transfers,
                            self.view().transfers,
                            #[trigger] view.byte_writes(address as int, all, data@),
                            e,
                            view.version,
                        ),
                decreases data@.len() - i + if r is Ok { 1int } else { 0int },
            {
                let ghost before = self.view();
                match self.byte_write(address + i as u32, data[i]) {
                    Ok(word) => {
                        proof {
                            lemma_byte_write_step(
                                view,
                                before,
                                self.view(),
                                address as int,
                                words,
                                data@.subrange(0, i as int),
                                word,
                                data@[i as int],
                            );
                            assert(data@.subrange(0, i + 1) =~= data@.subrange(0, i as int).push(
                                data@[i as int],
                            ));
                            words = words.push(word);
                        }
                        i += 1;
                    },
                    Err(e) => {
                        proof {
                            lemma_fails_later(
                                view.transfers,
                                before.transfers,
                                self.view().transfers,
                                e,
                                view.version,
                            );
                            let word = choose|word: u32|
                                breaks_off(
                                    before.transfers,
                                    self.view().transfers,
                                    #[trigger] before.byte_write(
                                        address + i,
                                        word,
                                        data@[i as int],
                                    ),
                                    e,
                                    view.version,
                                );
                            lemma_byte_writes_break(
                                view,
                                before,
                                self.view().transfers,
                                address as int,
                                words,
                                word,
                                data@,
                                e,
                                view.version,
                            );
                        }
                        r = Err(e);
                    },
                }
            }
            proof {
                assert(data@.subrange(0, data@.len() as int) =~= data@);
            }
        }
        proof {
            self.history@ = self.history@.push(MemoryAccess::of_bytes_written(address, data@, r));
        }
        r
    }
}

/// The transfers that read bytes one by one begin with the transfers that
/// read the first of them.
pub proof fn lemma_byte_reads_prefix(view: EngineView, address: int, words: Seq<u32>, k: int)
    requires
        0 <= k <= words.len(),
    ensures
        view.byte_reads(address, words.subrange(0, k)).is_prefix_of(
            view.byte_reads(address, words),
        ),
    decreases words.len(),
{
    let whole = view.byte_reads(address, words);
    let part = view.byte_reads(address, words.subrange(0, k));
    if k == words.len() {
        assert(words.subrange(0, k) =~= words);
        assert(whole =~= whole.subrange(0, whole.len() as int));
    } else {
        lemma_byte_reads_prefix(view, address, words.drop_last(), k);
        assert(words.drop_last().subrange(0, k) =~= words.subrange(0, k));
        let earlier = view.byte_reads(address, words.drop_last());
        assert(part =~= earlier.subrange(0, part.len() as int));
        assert(part =~= whole.subrange(0, part.len() as int));
    }
}

/// The transfers that write bytes one by one begin with the transfers that
/// write the first of them.
pub proof fn lemma_byte_writes_prefix(
    view: EngineView,
    address: int,
    words: Seq<u32>,
    bytes: Seq<u8>,
    k: int,
)
    requires
        words.len() == bytes.len(),
        0 <= k <= words.len(),
    ensures
        view.byte_writes(address, words.subrange(0, k), bytes.subrange(0, k)).is_prefix_of(
            view.byte_writes(address, words, bytes),
        ),
    decreases words.len(),
{
    let whole = view.byte_writes(address, words, bytes);
    let part = view.byte_writes(address, words.subrange(0, k), bytes.subrange(0, k));
    if k == words.len() {
        assert(words.subrange(0, k) =~= words);
        assert(bytes.subrange(0, k) =~= bytes);
        assert(whole =~= whole.subrange(0, whole.len() as int));
    } else {
        lemma_byte_writes_prefix(view, address, words.drop_last(), bytes.drop_last(), k);
        assert(words.drop_last().subrange(0, k) =~= words.subrange(0, k));
        assert(bytes.drop_last().subrange(0, k) =~= bytes.subrange(0, k));
        let earlier = view.byte_writes(address, words.drop_last(), bytes.drop_last());
        assert(part =~= earlier.subrange(0, part.len() as int));
        assert(part =~= whole.subrange(0, part.len() as int));
    }
}

/// A read of bytes that has come as far as `words`, and breaks off at the
/// next byte, breaks off within the plan of all `total` bytes.
proof fn lemma_byte_reads_break(
    view: EngineView,
    before: EngineView,
    after: Seq<Transfer>,
    address: int,
    words: Seq<u32>,
    word: u32,
    total: int,
    error: Error,
    version: DebugPortVersion,
)
    requires
        before.same_port(view),
        succeeded(before.transfers, view.transfers.len() as int),
        if words.len() == 0 {
            before == view
        } else {
            before == view.after(view.narrow(), view.byte_reads(address, words))
        },
        words.len() < total,
        breaks_off(
            before.transfers,
            after,
            before.byte_read(address + words.len(), word),
            error,
            version,
        ),
    ensures
        exists|all: Seq<u32>|
            all.len() == total && breaks_off(
                view.transfers,
                after,
                #[trigger] view.byte_reads(address, all),
                error,
                version,
            ),
{
    let more = words.push(word);
    let all = Seq::new(total as nat, |j: int| if j < words.len() { words[j] } else { word });
    let step = before.byte_read(address + words.len(), word);
    let now = before.after(before.narrow(), step);
    lemma_byte_read_step(view, before, now, address, words, word);
    let front = before.transfers.subrange(view.transfers.len() as int, before.transfers.len() as int);
    if words.len() == 0 {
        assert(front =~= Seq::<Transfer>::empty());
    } else {
        assert(front =~= view.byte_reads(address, words));
    }
    assert(before.transfers =~= view.transfers + front);
    assert(front + step =~= view.byte_reads(address, more)) by {
        assert(now.transfers =~= view.transfers + view.byte_reads(address, more));
        assert((view.transfers + view.byte_reads(address, more)).subrange(
            view.transfers.len() as int,
            now.transfers.len() as int,
        ) =~= view.byte_reads(address, more));
        assert((before.transfers + step).subrange(
            view.transfers.len() as int,
            now.transfers.len() as int,
        ) =~= front + step);
    }
    assert(all.subrange(0, more.len() as int) =~= more);
    lemma_byte_reads_prefix(view, address, all, more.len() as int);
    lemma_breaks_off_later(
        view.transfers,
        after,
        front,
        step,
        view.byte_reads(address, all),
        error,
        version,
    );
}

/// A write of bytes that has come as far as `words`, and breaks off at the
/// next byte, breaks off within the plan of all of `bytes`.
proof fn lemma_byte_writes_break(
    view: EngineView,
    before: EngineView,
    after: Seq<Transfer>,
    address: int,
    words: Seq<u32>,
    word: u32,
    bytes: Seq<u8>,
    error: Error,
    version: DebugPortVersion,
)
    requires
        before.same_port(view),
        succeeded(before.transfers, view.transfers.len() as int),
        if words.len() == 0 {
            before == view
        } else {
            before == view.after(
                view.narrow(),
                view.byte_writes(address, words, bytes.subrange(0, words.len() as int)),
            )
        },
        words.len() < bytes.len(),
        breaks_off(
            before.transfers,
            after,
            before.byte_write(address + words.len(), word, bytes[words.len() as int]),
            error,
            version,
        ),
    ensures
        exists|all: Seq<u32>|
            all.len() == bytes.len() && breaks_off(
                view.transfers,
                after,
                #[trigger] view.byte_writes(address, all, bytes),
                error,
                version,
            ),
{
    let i = words.len() as int;
    let more = words.push(word);
    let done = bytes.subrange(0, i);
    let all = Seq::new(bytes.len(), |j: int| if j < words.len() { words[j] } else { word });
    let step = before.byte_write(address + i, word, bytes[i]);
    let now = before.after(before.narrow(), step);
    lemma_byte_write_step(view, before, now, address, words, done, word, bytes[i]);
    assert(done.push(bytes[i]) =~= bytes.subrange(0, i + 1));
    let reached = view.byte_writes(address, more, bytes.subrange(0, i + 1));
    let front = before.transfers.subrange(view.transfers.len() as int, before.transfers.len() as int);
    if words.len() == 0 {
        assert(front =~= Seq::<Transfer>::empty());
    } else {
        assert(front =~= view.byte_writes(address, words, done));
    }
    assert(before.transfers =~= view.transfers + front);
    assert(front + step =~= reached) by {
        assert(now.transfers =~= view.transfers + reached);
        assert((view.transfers + reached).subrange(
            view.transfers.len() as int,
            now.transfers.len() as int,
        ) =~= reached);
        assert((before.transfers + step).subrange(
            view.transfers.len() as int,
            now.transfers.len() as int,
        ) =~= front + step);
    }
    assert(all.subrange(0, i + 1) =~= more);
    lemma_byte_writes_prefix(view, address, all, bytes, i + 1);
    lemma_breaks_off_later(
        view.transfers,
        after,
        front,
        step,
        view.byte_writes(address, all, bytes),
        error,
        version,
    );
}

/// Whether `bytes` are the bytes at `address` and behind it within `words`,
/// where word `i` holds byte `i` in the lane of its address.
pub open spec fn bytes_of(address: int, words: Seq<u32>, bytes: Seq<u8>) -> bool {
    &&& bytes.len() == words.len()
    &&& forall|i: int|
        0 <= i < bytes.len() ==> #[trigger] bytes[i] == spec_extract_byte(
            words[i],
            ((address + i) % 4) as u32,
        )
}

/// One more byte read takes a read of bytes from the bytes before it to the
/// bytes with it.
proof fn lemma_byte_read_step(
    view: EngineView,
    before: EngineView,
    now: EngineView,
    address: int,
    words: Seq<u32>,
    word: u32,
)
    requires
        before.same_port(view),
        succeeded(before.transfers, view.transfers.len() as int),
        if words.len() == 0 {
            before == view
        } else {
            before == view.after(view.narrow(), view.byte_reads(address, words))
        },
        now == before.after(
            before.narrow(),
            before.byte_read(address + words.len(), word),
        ),
    ensures
        now == view.after(view.narrow(), view.byte_reads(address, words.push(word))),
        succeeded(now.transfers, view.transfers.len() as int),
{
    let more = words.push(word);
    let added = before.byte_read(address + words.len(), word);
    assert(more.drop_last() =~= words);
    assert(succeeded(added, 0)) by {
        assert forall|i: int| 0 <= i < added.len() implies (#[trigger] added[i]).failure()
            is None by {}
    }
    lemma_succeeded_append(before.transfers, added, view.transfers.len() as int);
    if words.len() == 0 {
        assert(view.byte_reads(address, words) =~= Seq::<Transfer>::empty());
        assert(now.transfers =~= view.transfers + view.byte_reads(address, more));
    } else {
        let at = view.settled(view.narrow());
        assert(at.byte_read(address + words.len(), word) =~= added);
        assert(now.transfers =~= view.transfers + view.byte_reads(address, more));
    }
}

/// One more byte written takes a write of bytes from the bytes before it to
/// the bytes with it.
proof fn lemma_byte_write_step(
    view: EngineView,
    before: EngineView,
    now: EngineView,
    address: int,
    words: Seq<u32>,
    bytes: Seq<u8>,
    word: u32,
    byte: u8,
)
    requires
        before.same_port(view),
        words.len() == bytes.len(),
        succeeded(before.transfers, view.transfers.len() as int),
        if words.len() == 0 {
            before == view
        } else {
            before == view.after(view.narrow(), view.byte_writes(address, words, bytes))
        },
        now == before.after(
            before.narrow(),
            before.byte_write(address + words.len(), word, byte),
        ),
    ensures
        now == view.after(
            view.narrow(),
            view.byte_writes(address, words.push(word), bytes.push(byte)),
        ),
        succeeded(now.transfers, view.transfers.len() as int),
{
    let more = words.push(word);
    let longer = bytes.push(byte);
    let added = before.byte_write(address + words.len(), word, byte);
    assert(more.drop_last() =~= words);
    assert(longer.drop_last() =~= bytes);
    assert(succeeded(added, 0)) by {
        assert forall|i: int| 0 <= i < added.len() implies (#[trigger] added[i]).failure()
            is None by {}
    }
    lemma_succeeded_append(before.transfers, added, view.transfers.len() as int);
    if words.len() == 0 {
        assert(view.byte_writes(address, words, bytes) =~= Seq::<Transfer>::empty());
        assert(now.transfers =~= view.transfers + view.byte_writes(address, more, longer));
    } else {
        let at = view.settled(view.narrow());
        assert(at.byte_write(address + words.len(), word, byte) =~= added);
        assert(now.transfers =~= view.transfers + view.byte_writes(address, more, longer));
    }
}

/// The run that starts at `current` and ends with the window or with the
/// block, whichever comes first, is at least one word long and stays
/// within the window.
pub proof fn lemma_run_length(current: int, left: int, count: int)
    requires
        0 <= current,
        current % 4 == 0,
        left > 0,
        count == if left < (1024 - current % 1024) / 4 {
            left
        } else {
            (1024 - current % 1024) / 4
        },
    ensures
        1 <= count <= left,
        current / 1024 == (current + 4 * count - 4) / 1024,
        count == left || (current + 4 * count) % 1024 == 0,
{
    let offset = current % 1024;
    assert(offset % 4 == 0);
    assert(current == 1024 * (current / 1024) + offset);
}

/// The transfers of a block begin with the transfers of the words before
/// any of its window boundaries.
pub proof fn lemma_block_prefix(
    ap: PortType,
    address: int,
    values: Seq<u32>,
    m: int,
    reading: bool,
)
    requires
        0 <= address,
        address % 4 == 0,
        0 <= m <= values.len(),
        m == 0 || m == values.len() || (address + 4 * m) % 1024 == 0,
    ensures
        block_transfers(ap, address, values.subrange(0, m), reading).is_prefix_of(
            block_transfers(ap, address, values, reading),
        ),
    decreases values.len(),
{
    let n = values.len() as int;
    let whole = block_transfers(ap, address, values, reading);
    let part = block_transfers(ap, address, values.subrange(0, m), reading);
    if m == n {
        assert(values.subrange(0, m) =~= values);
        assert(whole =~= whole.subrange(0, whole.len() as int));
    } else if m == 0 {
        assert(part =~= whole.subrange(0, 0));
    } else {
        let start = run_start(address, n);
        let head = (start - address) / 4;
        lemma_last_run(address, n);
        assert(m <= head);
        let front = values.subrange(0, head);
        lemma_block_prefix(ap, address, front, m, reading);
        assert(front.subrange(0, m) =~= values.subrange(0, m));
        let earlier = block_transfers(ap, address, front, reading);
        assert(whole == earlier + seq![Transfer::write(ap, 0x4, start as u32)] + run_transfers(
            ap,
            values.subrange(head, n),
            reading,
        ));
        assert(part =~= earlier.subrange(0, part.len() as int));
        assert(part =~= whole.subrange(0, part.len() as int));
    }
}

/// A block transfer that has come as far as the `done` words before a run,
/// and breaks off within that run and recovers, breaks off within the plan
/// of the whole block.
proof fn lemma_block_breaks_off(
    view: EngineView,
    before: EngineView,
    failed: Seq<Transfer>,
    after: Seq<Transfer>,
    address: u32,
    values: Seq<u32>,
    done: int,
    count: int,
    reading: bool,
    cause: DebugProbeError,
    version: DebugPortVersion,
)
    requires
        address % 4 == 0,
        0 <= done,
        1 <= count,
        done + count <= values.len(),
        address + 4 * values.len() <= 0x1_0000_0000,
        done == 0 || (address + 4 * done) % 1024 == 0,
        (address + 4 * done) / 1024 == (address + 4 * (done + count) - 4) / 1024,
        done + count == values.len() || (address + 4 * (done + count)) % 1024 == 0,
        block_progress(view, before, address, values.subrange(0, done), reading),
        before.same_port(view),
        view.transfers.is_prefix_of(before.transfers),
        succeeded(before.transfers, view.transfers.len() as int),
        broke_off(
            before.transfers,
            failed,
            before.run_plan(
                (address + 4 * done) as u32,
                values.subrange(done, done + count),
                reading,
            ),
            cause,
        ),
        recovery(failed, after, cause, version),
    ensures
        breaks_off(
            view.transfers,
            after,
            flushed(view.block_plan(address, values, reading)),
            Error::Probe(cause),
            version,
        ),
{
    let next = values.subrange(0, done + count);
    let run = before.run_plan(
        (address + 4 * done) as u32,
        values.subrange(done, done + count),
        reading,
    );
    let now = EngineView {
        transfers: before.transfers + run,
        selection: before.selection.toward(before.access()),
        ..before
    };
    assert(next.subrange(0, done) =~= values.subrange(0, done));
    assert(next.subrange(done, next.len() as int) =~= values.subrange(done, done + count));
    lemma_block_progress(view, before, now, address, next, done, reading);
    let reached = view.block_plan(address, next, reading);
    assert(now.transfers == view.transfers + reached);
    let front = before.transfers.subrange(view.transfers.len() as int, before.transfers.len() as int);
    assert(before.transfers =~= view.transfers + front);
    assert(front + run =~= reached) by {
        assert((view.transfers + reached).subrange(
            view.transfers.len() as int,
            (view.transfers + reached).len() as int,
        ) =~= reached);
        assert((before.transfers + run).subrange(
            view.transfers.len() as int,
            (before.transfers + run).len() as int,
        ) =~= front + run);
    }
    lemma_block_prefix(view.ap(), address as int, values, done + count, reading);
    let plan = flushed(view.block_plan(address, values, reading));
    let whole = block_transfers(view.ap(), address as int, values, reading);
    let some = block_transfers(view.ap(), address as int, next, reading);
    assert(some =~= whole.subrange(0, some.len() as int));
    assert(reached =~= plan.subrange(0, reached.len() as int));
    lemma_breaks_off(view.transfers, failed, after, front, run, plan, cause, version);
}

/// How far a block transfer has come when the words `moved` are through:
/// before the first word only CSW may have been written, with SELECT before
/// it; after that the history holds the whole plan for `moved`.
pub open spec fn block_progress(
    view: EngineView,
    now: EngineView,
    address: u32,
    moved: Seq<u32>,
    reading: bool,
) -> bool {
    &&& now.cached_csw == Some(CSW::spec_for_transfers(DataSize::U32))
    &&& if moved.len() > 0 {
        now == view.after(DataSize::U32, view.block_plan(address, moved, reading))
    } else if view.csw_writes(DataSize::U32).len() == 0 {
        now == view
    } else {
        now == view.after(
            DataSize::U32,
            view.selection.select_writes(view.access()) + view.csw_writes(DataSize::U32),
        )
    }
}

/// A history that grows by transfers that all succeed has no failure where
/// it had none.
pub proof fn lemma_succeeded_append(log: Seq<Transfer>, added: Seq<Transfer>, from: int)
    requires
        succeeded(log, from),
        succeeded(added, 0),
        0 <= from,
    ensures
        succeeded(log + added, from),
{
    assert forall|i: int| 0 <= i < (log + added).len() && from <= i implies (#[trigger] (log
        + added)[i]).failure() is None by {
        if i < log.len() {
            assert((log + added)[i] == log[i]);
        } else {
            assert((log + added)[i] == added[i - log.len()]);
        }
    }
}

/// Setting the width adds no failure to the history.
proof fn lemma_front_succeeded(view: EngineView, now: EngineView)
    requires
        block_progress(view, now, 0, Seq::empty(), false),
    ensures
        succeeded(now.transfers, view.transfers.len() as int),
{
    let front = view.selection.select_writes(view.access()) + view.csw_writes(DataSize::U32);
    assert(succeeded(front, 0));
    if view.csw_writes(DataSize::U32).len() > 0 {
        lemma_succeeded_append(view.transfers, front, view.transfers.len() as int);
    }
}

/// One more run through one window takes a block transfer from the words
/// before the run to the words with the run.
proof fn lemma_block_progress(
    view: EngineView,
    before: EngineView,
    now: EngineView,
    address: u32,
    moved: Seq<u32>,
    done: int,
    reading: bool,
)
    requires
        address % 4 == 0,
        0 <= done < moved.len(),
        done == 0 || (address + 4 * done) % 1024 == 0,
        (address + 4 * done) / 1024 == (address + 4 * moved.len() - 4) / 1024,
        address + 4 * done < 0x1_0000_0000,
        block_progress(view, before, address, moved.subrange(0, done), reading),
        before.same_port(view),
        now.same_port(view),
        now.cached_csw == before.cached_csw,
        now.transfers == before.transfers + before.run_plan(
            (address + 4 * done) as u32,
            moved.subrange(done, moved.len() as int),
            reading,
        ),
        now.selection == before.selection.toward(before.access()),
        succeeded(before.transfers, view.transfers.len() as int),
    ensures
        block_progress(view, now, address, moved, reading),
        succeeded(now.transfers, view.transfers.len() as int),
{
    let run = moved.subrange(done, moved.len() as int);
    let current = (address + 4 * done) as u32;
    lemma_block_transfers_step(view.ap(), address as int, moved, done, reading);
    let added = before.run_plan(current, run, reading);
    assert(succeeded(added, 0)) by {
        assert forall|i: int| 0 <= i < added.len() implies (#[trigger] added[i]).failure()
            is None by {}
    }
    lemma_succeeded_append(before.transfers, added, view.transfers.len() as int);
    if done == 0 {
        assert(moved.subrange(0, done) =~= Seq::<u32>::empty());
        assert(block_transfers(view.ap(), address as int, moved.subrange(0, done), reading)
            =~= Seq::<Transfer>::empty());
        assert(now.transfers =~= view.transfers + view.block_plan(address, moved, reading));
    } else {
        assert(now.transfers =~= view.transfers + view.block_plan(address, moved, reading));
    }
}

} // verus!
