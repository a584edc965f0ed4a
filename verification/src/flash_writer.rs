//! Programming the flash of a target from an Intel HEX file, through the
//! non-volatile memory controller of the nRF51 and nRF52.

use crate::cortex::{
    all_succeeded, lemma_all_succeeded_add, lemma_since_add, since, stretch,
};
use crate::endian::{le_u32, pread_u32_le};
use crate::error::Error;
use crate::memory::{MemoryAccess, MemoryInterface};
use vstd::prelude::*;

verus! {

/// The error of the parser of HEX records.
#[verifier::external_type_specification]
#[verifier::external_body]
pub struct ExReaderError(ihex::reader::ReaderError);

/// One record of an Intel HEX file.
#[derive(Debug)]
pub enum HexRecord {
    /// Up to 255 bytes of data for the 16-bit offset `offset`.
    Data { offset: u16, value: Vec<u8> },
    /// The end of the file.
    EndOfFile,
    /// Bits 4 to 19 of the segment base address.
    ExtendedSegmentAddress(u16),
    /// The start address as a segment and an offset.
    StartSegmentAddress { cs: u16, ip: u16 },
    /// The upper 16 bits of the linear address of the data that follows.
    ExtendedLinearAddress(u16),
    /// The start address as a linear address.
    StartLinearAddress(u32),
}

/// What can go wrong when a HEX file is programmed.
#[derive(Debug)]
pub enum FlashError {
    /// Record number `line`, counted from 1 over the lines that are not
    /// empty, is no valid record.
    ReaderError { line: usize, kind: ihex::reader::ReaderError },
    /// An access to the memory of the target failed.
    AccessPortError(Error),
    /// The controller did not become ready again after a page erase.
    EraseFailed,
    /// A record holds data for addresses past the end of the address space.
    ProgramFailed,
}

/// What the parser of the `ihex` crate makes of a text: the records of its
/// lines that are not empty, up to and with the first end-of-file record or
/// the first line that is no valid record.
pub uninterp spec fn hex_records(text: Seq<char>) -> Seq<Result<HexRecord, ihex::reader::ReaderError>>;

/// Runs the reader of the `ihex` crate over `text` and collects what it
/// yields, record by record, into the record type of this library. The
/// result is what the reader makes of the text, which is named and not
/// described here.
#[verifier::external_body]
fn read_hex_records(text: &str) -> (records: Vec<Result<HexRecord, ihex::reader::ReaderError>>)
    ensures
        records@ == hex_records(text@),
{
    ihex::reader::Reader::new(text).map(|item| match item {
        Ok(ihex::record::Record::Data { offset, value }) => Ok(HexRecord::Data { offset, value }),
        Ok(ihex::record::Record::EndOfFile) => Ok(HexRecord::EndOfFile),
        Ok(ihex::record::Record::ExtendedSegmentAddress(a)) => Ok(HexRecord::ExtendedSegmentAddress(a)),
        Ok(ihex::record::Record::StartSegmentAddress { cs, ip }) => Ok(HexRecord::StartSegmentAddress { cs, ip }),
        Ok(ihex::record::Record::ExtendedLinearAddress(a)) => Ok(HexRecord::ExtendedLinearAddress(a)),
        Ok(ihex::record::Record::StartLinearAddress(a)) => Ok(HexRecord::StartLinearAddress(a)),
        Err(e) => Err(e),
    }).collect()
}

/// The register that reads as non-zero while the controller is ready.
pub const NVMC_READY: u32 = 0x4001_E400;

/// The register that enables writing and erasing.
pub const NVMC_CONFIG: u32 = 0x4001_E504;

/// The register that erases the page whose address is written to it.
pub const NVMC_ERASEPAGE: u32 = 0x4001_E508;

/// The value of the configuration register that enables writing.
pub const WEN: u32 = 0x1;

/// The value of the configuration register that enables erasing.
pub const EEN: u32 = 0x2;

/// `bytes` with bytes of 0xFF behind them up to the next multiple of four.
pub open spec fn padded(bytes: Seq<u8>) -> Seq<u8> {
    bytes + Seq::new(((4 - bytes.len() % 4) % 4) as nat, |i: int| 0xFFu8)
}

/// The words that `bytes` make up, four bytes to a word, least significant
/// byte first; the last word is filled up with bytes of 0xFF.
pub open spec fn words_of(bytes: Seq<u8>) -> Seq<u32> {
    Seq::new(((bytes.len() + 3) / 4) as nat, |i: int| le_u32(padded(bytes), 4 * i) as u32)
}

/// The words that `data` make up, four bytes to a word, least significant
/// byte first; the last word is filled up with bytes of 0xFF.
pub fn pack_words(data: &[u8]) -> (words: Vec<u32>)
    ensures
        words@ == words_of(data@),
{
    let mut words: Vec<u32> = Vec::new();
    let count: usize = data.len() / 4 + if data.len() % 4 != 0 {
        1usize
    } else {
        0usize
    };
    let mut i: usize = 0;
    while i < count
        invariant
            i <= count,
            count == (data@.len() + 3) / 4,
            data@.len() <= usize::MAX,
            words@ == words_of(data@).subrange(0, i as int),
        decreases count - i,
    {
        assert(4 * i < data@.len());
        let base: usize = 4 * i;
        let rest: usize = data.len() - base;
        let mut chunk: [u8; 4] = [0xFF, 0xFF, 0xFF, 0xFF];
        let mut j: usize = 0;
        while j < 4 && j < rest
            invariant
                j <= 4,
                j <= rest,
                base + rest == data@.len(),
                data@.len() <= usize::MAX,
                forall|k: int| 0 <= k < 4 ==> #[trigger] chunk@[k] == if k < j {
                    data@[base + k]
                } else {
                    0xFFu8
                },
            decreases 4 - j,
        {
            chunk[j] = data[base + j];
            j += 1;
        }
        let word = match pread_u32_le(chunk.as_slice(), 0) {
            Some(word) => word,
            None => 0,
        };
        proof {
            let all = padded(data@);
            assert(all.len() == data@.len() + (4 - data@.len() % 4) % 4);
            assert(base + 4 <= all.len());
            assert(chunk@[0] == all[base + 0]);
            assert(chunk@[1] == all[base + 1]);
            assert(chunk@[2] == all[base + 2]);
            assert(chunk@[3] == all[base + 3]);
            assert(le_u32(chunk@, 0) == le_u32(all, 4 * i));
        }
        words.push(word);
        proof {
            assert(words@ =~= words_of(data@).subrange(0, i + 1));
        }
        i += 1;
    }
    proof {
        assert(words_of(data@).subrange(0, count as int) =~= words_of(data@));
    }
    words
}

/// Whether `polls` are reads of the ready register that all found the
/// controller busy.
pub open spec fn busy_polls(polls: Seq<MemoryAccess>) -> bool {
    forall|i: int|
        0 <= i < polls.len() ==> (#[trigger] polls[i]) == MemoryAccess::word_read(
            0x4001_E400,
            0,
        )
}

/// Whether `segment` is the erase of the page at `address`: erasing is
/// enabled, the address is written to the erase register, and the ready
/// register is read, at most 100 times, until it shows that the controller
/// is ready.
pub open spec fn page_erased(segment: Seq<MemoryAccess>, address: u32) -> bool {
    &&& 3 <= segment.len() <= 102
    &&& segment[0] == MemoryAccess::word_write(0x4001_E504, 0x2)
    &&& segment[1] == MemoryAccess::word_write(0x4001_E508, address)
    &&& busy_polls(segment.subrange(2, segment.len() - 1))
    &&& segment.last() == MemoryAccess::word_read(0x4001_E400, segment.last().word())
    &&& segment.last().word() != 0
}

/// Whether `segment` is the writing of `data` to `address`: writing is
/// enabled, and the data goes out as one block of words.
pub open spec fn bytes_written(segment: Seq<MemoryAccess>, address: u32, data: Seq<u8>) -> bool {
    segment == seq![
        MemoryAccess::word_write(0x4001_E504, 0x1),
        MemoryAccess::Write32 { address, sent: words_of(data), failure: None },
    ]
}

/// Whether `segment` is a page erase at `address` that gave up with
/// `error`. The erase gives up with `EraseFailed` after enabling erasing,
/// writing the address, and reading the ready register 100 times as zero; or
/// it gives up with the error of an access, which is its last, after having
/// come that far in the same order.
pub open spec fn erase_gave_up(segment: Seq<MemoryAccess>, address: u32, error: FlashError) -> bool {
    let enable = MemoryAccess::word_write(0x4001_E504, 0x2);
    let erase = MemoryAccess::word_write(0x4001_E508, address);
    match error {
        FlashError::EraseFailed => {
            &&& segment.len() == 102
            &&& segment[0] == enable
            &&& segment[1] == erase
            &&& busy_polls(segment.subrange(2, 102))
        },
        FlashError::AccessPortError(e) => {
            ||| segment == seq![
                MemoryAccess::Write32 { address: 0x4001_E504, sent: seq![0x2u32], failure: Some(e) },
            ]
            ||| segment == seq![
                enable,
                MemoryAccess::Write32 {
                    address: 0x4001_E508,
                    sent: seq![address],
                    failure: Some(e),
                },
            ]
            ||| {
                &&& 3 <= segment.len() <= 102
                &&& segment[0] == enable
                &&& segment[1] == erase
                &&& busy_polls(segment.subrange(2, segment.len() - 1))
                &&& segment.last() == MemoryAccess::of_word_read(0x4001_E400, Err(e))
            }
        },
        _ => false,
    }
}

/// Whether `segment` is a writing of `data` to `address` that gave up with
/// `error`: the access that enables writing failed, or it succeeded and the
/// block of words failed.
pub open spec fn write_gave_up(
    segment: Seq<MemoryAccess>,
    address: u32,
    data: Seq<u8>,
    error: FlashError,
) -> bool {
    error matches FlashError::AccessPortError(e) && {
        ||| segment == seq![
            MemoryAccess::Write32 { address: 0x4001_E504, sent: seq![0x1u32], failure: Some(e) },
        ]
        ||| segment == seq![
            MemoryAccess::word_write(0x4001_E504, 0x1),
            MemoryAccess::Write32 { address, sent: words_of(data), failure: Some(e) },
        ]
    }
}

/// Whether `segment` is a programming of `data` at `address` that gave up
/// with `error`: in the page erase, where the address is the start of a
/// page, or in the writing behind it.
pub open spec fn data_gave_up(
    segment: Seq<MemoryAccess>,
    address: u32,
    data: Seq<u8>,
    page_size: u32,
    error: FlashError,
) -> bool {
    if address % page_size == 0 {
        ||| erase_gave_up(segment, address, error)
        ||| exists|k: int|
            {
                &&& 0 <= k <= segment.len()
                &&& page_erased(#[trigger] stretch(segment, 0, k), address)
                &&& write_gave_up(segment.subrange(k, segment.len() as int), address, data, error)
            }
    } else {
        write_gave_up(segment, address, data, error)
    }
}

/// Writes `data` to the flash at `address`: enables writing, and sends the
/// data as one block of words.
pub fn write_bytes<M: MemoryInterface>(probe: &mut M, address: u32, data: &[u8]) -> (r: Result<
    (),
    FlashError,
>)
    ensures
        old(probe).accesses().is_prefix_of(final(probe).accesses()),
        match r {
            Ok(_) => bytes_written(since(final(probe).accesses(), old(probe).accesses()), address, data@)
                && all_succeeded(since(final(probe).accesses(), old(probe).accesses()), 0),
            Err(e) => write_gave_up(
                since(final(probe).accesses(), old(probe).accesses()),
                address,
                data@,
                e,
            ),
        },
{
    let ghost start = probe.accesses();
    match probe.write_word_32(NVMC_CONFIG, WEN) {
        Ok(()) => {},
        Err(e) => {
            proof {
                let segment = since(probe.accesses(), start);
                assert(segment =~= seq![
                    MemoryAccess::Write32 {
                        address: 0x4001_E504,
                        sent: seq![0x1u32],
                        failure: Some(e),
                    },
                ]);
            }
            return Err(FlashError::AccessPortError(e));
        },
    }
    let words = pack_words(data);
    let written = probe.write_32(address, words.as_slice());
    proof {
        let segment = since(probe.accesses(), start);
        assert(segment =~= seq![
            MemoryAccess::word_write(0x4001_E504, 0x1),
            MemoryAccess::of_words_written(address, words@, written),
        ]);
        assert(segment.drop_last() =~= seq![MemoryAccess::word_write(0x4001_E504, 0x1)]);
    }
    match written {
        Ok(()) => Ok(()),
        Err(e) => Err(FlashError::AccessPortError(e)),
    }
}

/// Begins the erase of the page of flash at `address`: enables erasing, and
/// writes the address to the erase register. The controller is busy from
/// then on until its ready register reads as non-zero.
pub fn begin_erase<M: MemoryInterface>(probe: &mut M, address: u32) -> (r: Result<(), FlashError>)
    ensures
        old(probe).accesses().is_prefix_of(final(probe).accesses()),
        match r {
            Ok(_) => since(final(probe).accesses(), old(probe).accesses()) == seq![
                MemoryAccess::word_write(0x4001_E504, 0x2),
                MemoryAccess::word_write(0x4001_E508, address),
            ],
            Err(e) => e is AccessPortError && erase_gave_up(
                since(final(probe).accesses(), old(probe).accesses()),
                address,
                e,
            ) && since(final(probe).accesses(), old(probe).accesses()).len() <= 2,
        },
{
    let ghost start = probe.accesses();
    match probe.write_word_32(NVMC_CONFIG, EEN) {
        Ok(()) => {},
        Err(e) => {
            proof {
                let segment = since(probe.accesses(), start);
                assert(segment =~= seq![
                    MemoryAccess::Write32 {
                        address: 0x4001_E504,
                        sent: seq![0x2u32],
                        failure: Some(e),
                    },
                ]);
            }
            return Err(FlashError::AccessPortError(e));
        },
    }
    match probe.write_word_32(NVMC_ERASEPAGE, address) {
        Ok(()) => {},
        Err(e) => {
            proof {
                let segment = since(probe.accesses(), start);
                assert(segment =~= seq![
                    MemoryAccess::word_write(0x4001_E504, 0x2),
                    MemoryAccess::Write32 {
                        address: 0x4001_E508,
                        sent: seq![address],
                        failure: Some(e),
                    },
                ]);
            }
            return Err(FlashError::AccessPortError(e));
        },
    }
    proof {
        assert(since(probe.accesses(), start) =~= seq![
            MemoryAccess::word_write(0x4001_E504, 0x2),
            MemoryAccess::word_write(0x4001_E508, address),
        ]);
    }
    Ok(())
}

/// Reads the ready register of the controller once, and tells whether the
/// controller is ready: the register reads as non-zero then.
pub fn erase_done<M: MemoryInterface>(probe: &mut M) -> (r: Result<bool, FlashError>)
    ensures
        match r {
            Ok(ready) => exists|flag: u32|
                {
                    &&& final(probe).accesses() == old(probe).accesses().push(
                        #[trigger] MemoryAccess::word_read(0x4001_E400, flag),
                    )
                    &&& ready == (flag != 0)
                },
            Err(FlashError::AccessPortError(e)) => final(probe).accesses() == old(
                probe,
            ).accesses().push(MemoryAccess::of_word_read(0x4001_E400, Err(e))),
            Err(_) => false,
        },
{
    match probe.read_word_32(NVMC_READY) {
        Ok(flag) => {
            proof {
                assert(probe.accesses() == old(probe).accesses().push(
                    MemoryAccess::word_read(0x4001_E400, flag),
                ));
            }
            Ok(flag != 0)
        },
        Err(e) => Err(FlashError::AccessPortError(e)),
    }
}

/// Erases the page of flash at `address`: begins the erase, and waits for
/// the controller to become ready again, for at most 100 reads of its ready
/// register.
#[verifier::rlimit(50)]
pub fn erase_page<M: MemoryInterface>(probe: &mut M, address: u32) -> (r: Result<(), FlashError>)
    ensures
        old(probe).accesses().is_prefix_of(final(probe).accesses()),
        match r {
            Ok(_) => page_erased(since(final(probe).accesses(), old(probe).accesses()), address)
                && all_succeeded(since(final(probe).accesses(), old(probe).accesses()), 0),
            Err(e) => erase_gave_up(
                since(final(probe).accesses(), old(probe).accesses()),
                address,
                e,
            ),
        },
{
    let ghost start = probe.accesses();
    match begin_erase(probe, address) {
        Ok(()) => {},
        Err(e) => {
            return Err(e);
        },
    }
    let ghost log2 = probe.accesses();
    let mut polls: usize = 0;
    while polls < 100
        invariant
            polls <= 100,
            start == old(probe).accesses(),
            start.is_prefix_of(log2),
            log2.is_prefix_of(probe.accesses()),
            since(log2, start) == seq![
                MemoryAccess::word_write(0x4001_E504, 0x2),
                MemoryAccess::word_write(0x4001_E508, address),
            ],
            probe.accesses().len() == log2.len() + polls,
            busy_polls(since(probe.accesses(), log2)),
        decreases 100 - polls,
    {
        let ghost before = probe.accesses();
        let read = erase_done(probe);
        proof {
            let log = probe.accesses();
            let waited = since(log, log2);
            assert(log.drop_last() =~= before);
            assert(waited.drop_last() =~= since(before, log2));
            lemma_since_add(start, log2, log);
            let segment = since(log, start);
            assert(segment.drop_last() =~= since(log2, start) + waited.drop_last());
            assert(segment.last() == waited.last());
            assert(segment.last() == log.last());
            assert(segment.subrange(2, segment.len() - 1) =~= waited.drop_last());
            assert(segment[0] == since(log2, start)[0]);
            assert(segment[1] == since(log2, start)[1]);
            assert forall|i: int| 0 <= i < segment.drop_last().len() implies (
            #[trigger] segment.drop_last()[i]).failure() is None by {
                if i >= 2 {
                    assert(segment.drop_last()[i] == waited.drop_last()[i - 2]);
                }
            }
        }
        match read {
            Ok(ready) => {
                if ready {
                    proof {
                        let segment = since(probe.accesses(), start);
                        assert(segment =~= segment.drop_last() + seq![segment.last()]);
                        lemma_all_succeeded_add(segment.drop_last(), seq![segment.last()]);
                    }
                    return Ok(());
                }
                proof {
                    let waited = since(probe.accesses(), log2);
                    assert forall|i: int| 0 <= i < waited.len() implies (#[trigger] waited[i])
                        == MemoryAccess::word_read(0x4001_E400, 0) by {
                        if i < waited.len() - 1 {
                            assert(waited[i] == waited.drop_last()[i]);
                        }
                    }
                }
            },
            Err(e) => {
                return Err(e);
            },
        }
        polls += 1;
    }
    proof {
        let log = probe.accesses();
        let waited = since(log, log2);
        lemma_since_add(start, log2, log);
        let segment = since(log, start);
        assert(segment.subrange(2, 102) =~= waited);
        assert(segment[0] == since(log2, start)[0]);
        assert(segment[1] == since(log2, start)[1]);
    }
    Err(FlashError::EraseFailed)
}

/// Where the data of the records that follow goes: the segment base and
/// the linear base that the records so far have set.
#[derive(Debug, Clone, Copy, PartialEq, Eq, Structural)]
pub struct Addressing {
    pub segment: u32,
    pub linear: u32,
}

impl Addressing {
    /// The addressing after one more record: an extended segment address
    /// sets the segment base to sixteen times its value, an extended linear
    /// address sets the linear base to its value in the upper half word,
    /// and no other record changes anything.
    pub open spec fn after(self, record: Result<HexRecord, ihex::reader::ReaderError>) -> Addressing {
        match record {
            Ok(HexRecord::ExtendedSegmentAddress(a)) => Addressing {
                segment: (a as u32 * 16) as u32,
                ..self
            },
            Ok(HexRecord::ExtendedLinearAddress(a)) => Addressing {
                linear: (a as u32 * 0x1_0000) as u32,
                ..self
            },
            _ => self,
        }
    }

    /// The addressing after all of `records`, starting from zero.
    pub open spec fn of(records: Seq<Result<HexRecord, ihex::reader::ReaderError>>) -> Addressing
        decreases records.len(),
    {
        if records.len() == 0 {
            Addressing { segment: 0, linear: 0 }
        } else {
            Self::of(records.drop_last()).after(records.last())
        }
    }

    /// The address of the data of a record with the offset `offset`: the
    /// offset above the linear base or, where the linear base is zero,
    /// above the segment base.
    pub open spec fn spec_address(&self, offset: u16) -> u32 {
        if self.linear == 0 {
            (self.segment + offset) as u32
        } else {
            (self.linear + offset) as u32
        }
    }

    /// Whether both bases are such as records can set them.
    pub open spec fn wf(&self) -> bool {
        self.segment <= 0xF_FFF0 && self.linear <= 0xFFFF_0000
    }

    #[verifier::when_used_as_spec(spec_address)]
    pub fn address(&self, offset: u16) -> (address: u32)
        requires
            self.wf(),
        ensures
            address == self.spec_address(offset),
    {
        if self.linear == 0 {
            self.segment + offset as u32
        } else {
            self.linear + offset as u32
        }
    }
}

/// Whether the record ends the programming: the end of the file does, and
/// so does a line that is no valid record.
pub open spec fn stops(record: Result<HexRecord, ihex::reader::ReaderError>) -> bool {
    record is Err || record matches Ok(HexRecord::EndOfFile)
}

/// Whether the record is the end of the file.
pub open spec fn ends_file(record: Result<HexRecord, ihex::reader::ReaderError>) -> bool {
    record matches Ok(HexRecord::EndOfFile)
}

/// The number of data bytes in `records`.
pub open spec fn data_bytes(records: Seq<Result<HexRecord, ihex::reader::ReaderError>>) -> nat
    decreases records.len(),
{
    if records.len() == 0 {
        0
    } else {
        data_bytes(records.drop_last()) + match records.last() {
            Ok(HexRecord::Data { value, .. }) => value@.len(),
            _ => 0,
        }
    }
}

/// Whether the data `data` for `address` reaches past the end of the
/// address space when it is written word by word.
pub open spec fn overruns(address: u32, data: Seq<u8>) -> bool {
    address + 4 * ((data.len() + 3) / 4) > 0x1_0000_0000
}

/// Whether `segment` is the programming of `data` at `address`: the page at
/// the address is erased first if the address is the start of a page, and
/// the data is written.
pub open spec fn data_programmed(
    segment: Seq<MemoryAccess>,
    address: u32,
    data: Seq<u8>,
    page_size: u32,
) -> bool {
    &&& !overruns(address, data)
    &&& if address % page_size == 0 {
        &&& segment.len() >= 2
        &&& page_erased(segment.subrange(0, segment.len() - 2), address)
        &&& bytes_written(
            segment.subrange(segment.len() - 2, segment.len() as int),
            address,
            data,
        )
    } else {
        bytes_written(segment, address, data)
    }
}

/// Whether `segment` is what the record `record` asks for, with the
/// addressing `addressing` in force: data is programmed, and no other
/// record touches the target.
pub open spec fn record_programmed(
    segment: Seq<MemoryAccess>,
    record: Result<HexRecord, ihex::reader::ReaderError>,
    addressing: Addressing,
    page_size: u32,
) -> bool {
    match record {
        Ok(HexRecord::Data { offset, value }) => data_programmed(
            segment,
            addressing.spec_address(offset),
            value@,
            page_size,
        ),
        _ => segment.len() == 0,
    }
}

/// Whether `segment` is the programming of all of `records`, one after the
/// other, none of which ends the programming.
pub open spec fn programmed(
    segment: Seq<MemoryAccess>,
    records: Seq<Result<HexRecord, ihex::reader::ReaderError>>,
    page_size: u32,
) -> bool
    decreases records.len(),
{
    if records.len() == 0 {
        segment.len() == 0
    } else {
        &&& !stops(records.last())
        &&& exists|k: int|
            {
                &&& 0 <= k <= segment.len()
                &&& programmed(#[trigger] stretch(segment, 0, k), records.drop_last(), page_size)
                &&& record_programmed(
                    segment.subrange(k, segment.len() as int),
                    records.last(),
                    Addressing::of(records.drop_last()),
                    page_size,
                )
            }
    }
}

/// The programming of some records and then of one more is the
/// programming of them all.
pub proof fn lemma_programmed_step(
    segment: Seq<MemoryAccess>,
    records: Seq<Result<HexRecord, ihex::reader::ReaderError>>,
    page_size: u32,
    k: int,
)
    requires
        records.len() > 0,
        !stops(records.last()),
        0 <= k <= segment.len(),
        programmed(segment.subrange(0, k), records.drop_last(), page_size),
        record_programmed(
            segment.subrange(k, segment.len() as int),
            records.last(),
            Addressing::of(records.drop_last()),
            page_size,
        ),
    ensures
        programmed(segment, records, page_size),
{
    assert(stretch(segment, 0, k) == segment.subrange(0, k));
}

/// How the programming of `records` ends, with `segment` as its accesses to
/// the target. The records are programmed in order up to record `m`, which
/// takes the accesses up to position `k`. Then:
/// - the programming succeeds with the number of data bytes programmed
///   (or the largest number there is, if that is less) when record `m` is
///   the end of the file, or there is no record `m`;
/// - it fails with `ReaderError` when record `m` is no valid record;
/// - it fails with `ProgramFailed` when the data of record `m` reaches past
///   the end of the address space;
/// - it fails with `EraseFailed`, or with the error of an access, when the
///   programming of record `m` gives up, in its page erase or in its
///   writing.
pub open spec fn download_outcome(
    segment: Seq<MemoryAccess>,
    records: Seq<Result<HexRecord, ihex::reader::ReaderError>>,
    page_size: u32,
    r: Result<u64, FlashError>,
) -> bool {
    exists|m: int, k: int|
        {
            &&& 0 <= m <= records.len()
            &&& 0 <= k <= segment.len()
            &&& #[trigger] programmed(segment.subrange(0, k), records.subrange(0, m), page_size)
            &&& match r {
                Ok(written) => {
                    &&& k == segment.len()
                    &&& m == records.len() || ends_file(records[m])
                    &&& written == if data_bytes(records.subrange(0, m)) < u64::MAX {
                        data_bytes(records.subrange(0, m))
                    } else {
                        u64::MAX as nat
                    }
                },
                Err(FlashError::ReaderError { line, kind }) => {
                    &&& k == segment.len()
                    &&& m < records.len()
                    &&& records[m] == Err::<HexRecord, ihex::reader::ReaderError>(kind)
                    &&& line == m + 1
                },
                Err(FlashError::ProgramFailed) => {
                    &&& k == segment.len()
                    &&& m < records.len()
                    &&& records[m] matches Ok(HexRecord::Data { offset, value })
                    &&& overruns(
                        Addressing::of(records.subrange(0, m)).spec_address(offset),
                        value@,
                    )
                },
                Err(e) => {
                    &&& m < records.len()
                    &&& records[m] matches Ok(HexRecord::Data { offset, value })
                    &&& !overruns(
                        Addressing::of(records.subrange(0, m)).spec_address(offset),
                        value@,
                    )
                    &&& data_gave_up(
                        segment.subrange(k, segment.len() as int),
                        Addressing::of(records.subrange(0, m)).spec_address(offset),
                        value@,
                        page_size,
                        e,
                    )
                },
            }
        }
}

/// Programs the records of a HEX file into the flash of the target behind
/// `probe`, whose pages are `page_size` bytes long, and returns the number
/// of data bytes programmed. The records are taken in order up to the end
/// of the file or the first line that is no valid record.
#[verifier::rlimit(50)]
pub fn program_records<M: MemoryInterface>(
    records: &Vec<Result<HexRecord, ihex::reader::ReaderError>>,
    probe: &mut M,
    page_size: u32,
) -> (r: Result<u64, FlashError>)
    requires
        page_size > 0,
    ensures
        old(probe).accesses().is_prefix_of(final(probe).accesses()),
        download_outcome(
            since(final(probe).accesses(), old(probe).accesses()),
            records@,
            page_size,
            r,
        ),
{
    let ghost start = probe.accesses();
    let mut addressing = Addressing { segment: 0, linear: 0 };
    let mut total_bytes: u64 = 0;
    let mut i: usize = 0;
    proof {
        assert(since(start, start) =~= Seq::<MemoryAccess>::empty());
        assert(records@.subrange(0, 0) =~= Seq::empty());
    }
    while i < records.len()
        invariant
            i <= records@.len(),
            page_size > 0,
            start == old(probe).accesses(),
            start.is_prefix_of(probe.accesses()),
            addressing.wf(),
            addressing == Addressing::of(records@.subrange(0, i as int)),
            total_bytes == if data_bytes(records@.subrange(0, i as int)) < u64::MAX {
                data_bytes(records@.subrange(0, i as int))
            } else {
                u64::MAX as nat
            },
            programmed(since(probe.accesses(), start), records@.subrange(0, i as int), page_size),
            all_succeeded(since(probe.accesses(), start), 0),
        decreases records@.len() - i,
    {
        let ghost before = probe.accesses();
        let ghost earlier = addressing;
        let ghost done = records@.subrange(0, i as int);
        let ghost next = records@.subrange(0, i + 1);
        proof {
            assert(next.drop_last() =~= done);
            assert(next.last() == records@[i as int]);
            assert(since(before, start).subrange(0, since(before, start).len() as int)
                =~= since(before, start));
        }
        match &records[i] {
            Err(kind) => {
                return Err(FlashError::ReaderError { line: i + 1, kind: *kind });
            },
            Ok(HexRecord::EndOfFile) => {
                return Ok(total_bytes);
            },
            Ok(HexRecord::Data { offset, value }) => {
                let address = addressing.address(*offset);
                let words: u64 = (value.len() / 4) as u64 + if value.len() % 4 != 0 {
                    1u64
                } else {
                    0u64
                };
                assert(words == (value@.len() + 3) / 4);
                if words > 0x4000_0000 || address as u64 + 4 * words > 0x1_0000_0000 {
                    return Err(FlashError::ProgramFailed);
                }
                if address % page_size == 0 {
                    match erase_page(probe, address) {
                        Ok(()) => {},
                        Err(e) => {
                            proof {
                                lemma_since_add(start, before, probe.accesses());
                                let segment = since(probe.accesses(), start);
                                let k = since(before, start).len() as int;
                                assert(segment.subrange(0, k) =~= since(before, start));
                                assert(segment.subrange(k, segment.len() as int) =~= since(
                                    probe.accesses(),
                                    before,
                                ));
                            }
                            return Err(e);
                        },
                    }
                }
                let ghost erased = probe.accesses();
                match write_bytes(probe, address, value.as_slice()) {
                    Ok(()) => {},
                    Err(e) => {
                        proof {
                            let log = probe.accesses();
                            lemma_since_add(before, erased, log);
                            lemma_since_add(start, before, log);
                            let segment = since(log, start);
                            let k = since(before, start).len() as int;
                            assert(segment.subrange(0, k) =~= since(before, start));
                            assert(segment.subrange(k, segment.len() as int) =~= since(
                                log,
                                before,
                            ));
                            let part = since(log, before);
                            let cutoff = since(erased, before).len() as int;
                            assert(part.subrange(0, cutoff) =~= since(erased, before));
                            assert(part.subrange(cutoff, part.len() as int) =~= since(log, erased));
                            assert(stretch(part, 0, cutoff) == part.subrange(0, cutoff));
                            if address % page_size != 0 {
                                assert(part =~= since(log, erased));
                            }
                        }
                        return Err(e);
                    },
                }
                proof {
                    let log = probe.accesses();
                    lemma_since_add(before, erased, log);
                    lemma_since_add(start, before, log);
                    let segment = since(log, start);
                    let part = since(log, before);
                    let k = since(before, start).len() as int;
                    assert(segment.subrange(0, k) =~= since(before, start));
                    assert(segment.subrange(k, segment.len() as int) =~= part);
                    assert(part.subrange(0, part.len() - 2) =~= since(erased, before));
                    assert(part.subrange(part.len() - 2, part.len() as int) =~= since(log, erased));
                    lemma_all_succeeded_add(since(erased, before), since(log, erased));
                    lemma_all_succeeded_add(since(before, start), part);
                    assert(data_programmed(part, address, value@, page_size));
                }
                let length = value.len() as u64;
                total_bytes = if total_bytes > u64::MAX - length {
                    u64::MAX
                } else {
                    total_bytes + length
                };
            },
            Ok(HexRecord::ExtendedSegmentAddress(a)) => {
                addressing.segment = (*a as u32) * 16;
            },
            Ok(HexRecord::StartSegmentAddress { .. }) => {},
            Ok(HexRecord::ExtendedLinearAddress(a)) => {
                addressing.linear = (*a as u32) * 0x1_0000;
            },
            Ok(HexRecord::StartLinearAddress(_)) => {},
        }
        proof {
            let log = probe.accesses();
            let segment = since(log, start);
            let k = since(before, start).len() as int;
            lemma_since_add(start, before, log);
            assert(segment.subrange(0, k) =~= since(before, start));
            assert(segment.subrange(k, segment.len() as int) =~= since(log, before));
            assert(!stops(next.last()));
            assert(programmed(segment.subrange(0, k), next.drop_last(), page_size));
            assert(record_programmed(
                segment.subrange(k, segment.len() as int),
                next.last(),
                Addressing::of(next.drop_last()),
                page_size,
            ));
            assert(0 <= k <= segment.len());
            assert(next.len() > 0);
            lemma_programmed_step(segment, next, page_size, k);
            assert(addressing == Addressing::of(next));
        }
        i += 1;
    }
    proof {
        assert(records@.subrange(0, i as int) =~= records@);
        let segment = since(probe.accesses(), start);
        assert(segment.subrange(0, segment.len() as int) =~= segment);
    }
    Ok(total_bytes)
}

/// Programs the HEX file with the text `hex_text` into the flash of the
/// target behind `probe`, whose pages are `page_size` bytes long, and
/// returns the number of data bytes programmed.
pub fn download_hex<M: MemoryInterface>(hex_text: &str, probe: &mut M, page_size: u32) -> (r:
    Result<u64, FlashError>)
    requires
        page_size > 0,
    ensures
        old(probe).accesses().is_prefix_of(final(probe).accesses()),
        download_outcome(
            since(final(probe).accesses(), old(probe).accesses()),
            hex_records(hex_text@),
            page_size,
            r,
        ),
{
    let records = read_hex_records(hex_text);
    program_records(&records, probe, page_size)
}

/// What the caller of a download in steps does before the next step.
#[derive(Debug, Clone, Copy, PartialEq, Eq, Structural)]
pub enum Pace {
    /// Take the next step at once.
    Resume,
    /// The controller is busy: let a millisecond pass, then take the next
    /// step.
    Pause,
    /// Nothing is left to do. The number is that of the data bytes
    /// programmed (or the largest number there is, if that is less).
    Finished(u64),
}

/// How far a download in steps has come.
#[derive(Debug, Clone, Copy, PartialEq, Eq, Structural)]
pub struct Position {
    /// The number of records that are dealt with.
    pub done: usize,
    /// The addressing that these records have set.
    pub addressing: Addressing,
    /// The number of their data bytes.
    pub total_bytes: u64,
    /// Whether the page of the next record is being erased.
    pub erasing: bool,
    /// The number of times that the controller was found busy in this erase.
    pub polls: usize,
}

/// `total` and `more` together, or the largest number there is, if that is
/// less.
pub open spec fn counted(total: u64, more: nat) -> u64 {
    if total + more < u64::MAX {
        (total + more) as u64
    } else {
        u64::MAX
    }
}

/// Whether a step at a record with the data `data` for `address` took the
/// download from `before` to `after` with the accesses `segment` and the
/// result `r`.
///
/// While the page is being erased, the step reads the ready register once.
/// A failed read ends the download. A read of zero asks for a pause, or ends
/// the download with `EraseFailed` if it is the hundredth. Any other value
/// is followed by the writing of the data, which completes the record.
///
/// Otherwise data that reaches past the end of the address space ends the
/// download with `ProgramFailed`; at the start of a page the erase is begun;
/// and elsewhere the data is written, which completes the record.
pub open spec fn data_advanced(
    before: Position,
    after: Position,
    segment: Seq<MemoryAccess>,
    address: u32,
    data: Seq<u8>,
    page_size: u32,
    r: Result<Pace, FlashError>,
) -> bool {
    let written = Position {
        done: (before.done + 1) as usize,
        total_bytes: counted(before.total_bytes, data.len()),
        erasing: false,
        polls: 0,
        ..before
    };
    if before.erasing {
        &&& segment.len() >= 1
        &&& if segment[0].failure() is Some {
            let e = segment[0].failure()->Some_0;
            &&& segment == seq![MemoryAccess::of_word_read(0x4001_E400, Err(e))]
            &&& r == Err::<Pace, FlashError>(FlashError::AccessPortError(e))
            &&& after == before
        } else {
            &&& segment[0] == MemoryAccess::word_read(0x4001_E400, segment[0].word())
            &&& if segment[0].word() != 0 {
                write_advanced(
                    segment.subrange(1, segment.len() as int),
                    before,
                    after,
                    written,
                    address,
                    data,
                    r,
                )
            } else if before.polls + 1 < 100 {
                &&& segment.len() == 1
                &&& r == Ok::<Pace, FlashError>(Pace::Pause)
                &&& after == (Position { polls: (before.polls + 1) as usize, ..before })
            } else {
                &&& segment.len() == 1
                &&& r is Err
                &&& r->Err_0 is EraseFailed
                &&& after == before
            }
        }
    } else if overruns(address, data) {
        &&& segment.len() == 0
        &&& r is Err
        &&& r->Err_0 is ProgramFailed
        &&& after == before
    } else if address % page_size == 0 {
        match r {
            Ok(pace) => {
                &&& pace == Pace::Resume
                &&& segment == seq![
                    MemoryAccess::word_write(0x4001_E504, 0x2),
                    MemoryAccess::word_write(0x4001_E508, address),
                ]
                &&& after == (Position { erasing: true, polls: 0, ..before })
            },
            Err(e) => {
                &&& e is AccessPortError
                &&& erase_gave_up(segment, address, e)
                &&& segment.len() <= 2
                &&& after == before
            },
        }
    } else {
        write_advanced(segment, before, after, written, address, data, r)
    }
}

/// Whether a step that writes the data `data` to `address` took the
/// download from `before` to `after` with the accesses `segment` and the
/// result `r`: either the data is written, the position is `written`, and
/// the next step can follow at once; or the writing gave up, and the
/// position is unchanged.
pub open spec fn write_advanced(
    segment: Seq<MemoryAccess>,
    before: Position,
    after: Position,
    written: Position,
    address: u32,
    data: Seq<u8>,
    r: Result<Pace, FlashError>,
) -> bool {
    match r {
        Ok(pace) => {
            &&& pace == Pace::Resume
            &&& bytes_written(segment, address, data)
            &&& after == written
        },
        Err(e) => write_gave_up(segment, address, data, e) && after == before,
    }
}

/// Whether one step took the download of `records` from `before` to `after`
/// with the accesses `segment` and the result `r`.
///
/// With no record left, or at the end of the file, the download is
/// finished, with the number of data bytes so far. A line that is no valid
/// record ends it with `ReaderError`. A record that sets an address base
/// changes the addressing, and a start address changes nothing: the next
/// step can follow at once. None of these touches the target. A data record
/// takes the steps that `data_advanced` describes.
pub open spec fn advanced(
    records: Seq<Result<HexRecord, ihex::reader::ReaderError>>,
    before: Position,
    after: Position,
    segment: Seq<MemoryAccess>,
    page_size: u32,
    r: Result<Pace, FlashError>,
) -> bool {
    if before.done >= records.len() {
        &&& segment.len() == 0
        &&& after == before
        &&& r == Ok::<Pace, FlashError>(Pace::Finished(before.total_bytes))
    } else {
        match records[before.done as int] {
            Err(kind) => {
                &&& segment.len() == 0
                &&& after == before
                &&& r == Err::<Pace, FlashError>(
                    FlashError::ReaderError { line: (before.done + 1) as usize, kind },
                )
            },
            Ok(HexRecord::EndOfFile) => {
                &&& segment.len() == 0
                &&& after == before
                &&& r == Ok::<Pace, FlashError>(Pace::Finished(before.total_bytes))
            },
            Ok(HexRecord::Data { offset, value }) => data_advanced(
                before,
                after,
                segment,
                before.addressing.spec_address(offset),
                value@,
                page_size,
                r,
            ),
            other => {
                &&& segment.len() == 0
                &&& after == (Position {
                    done: (before.done + 1) as usize,
                    addressing: before.addressing.after(other),
                    ..before
                })
                &&& r == Ok::<Pace, FlashError>(Pace::Resume)
            },
        }
    }
}

/// Whether the data `data` for `address` reaches past the end of the
/// address space when it is written word by word.
fn reaches_past(address: u32, data: &Vec<u8>) -> (past: bool)
    ensures
        past == overruns(address, data@),
{
    let words: u64 = (data.len() / 4) as u64 + if data.len() % 4 != 0 {
        1u64
    } else {
        0u64
    };
    assert(words == (data@.len() + 3) / 4);
    words > 0x4000_0000 || address as u64 + 4 * words > 0x1_0000_0000
}

/// The programming of a HEX file in steps, for a caller that lets time pass
/// while the controller is busy.
pub struct Download {
    records: Vec<Result<HexRecord, ihex::reader::ReaderError>>,
    position: Position,
}

impl Download {
    /// The records of the file.
    pub closed spec fn records(&self) -> Seq<Result<HexRecord, ihex::reader::ReaderError>> {
        self.records@
    }

    /// How far the download has come.
    pub closed spec fn spec_position(&self) -> Position {
        self.position
    }

    /// Whether the position is one that steps from the start lead to: the
    /// addressing and the number of bytes are those of the records that are
    /// dealt with, and an erase is in progress only for a data record that
    /// fits into the address space, with fewer than 100 busy reads so far.
    pub open spec fn wf(&self) -> bool {
        let position = self.spec_position();
        let dealt = self.records().subrange(0, position.done as int);
        &&& position.done <= self.records().len()
        &&& position.addressing.wf()
        &&& position.addressing == Addressing::of(dealt)
        &&& position.total_bytes == counted(0, data_bytes(dealt))
        &&& position.polls < 100
        &&& !position.erasing ==> position.polls == 0
        &&& position.erasing ==> {
            &&& position.done < self.records().len()
            &&& self.records()[position.done as int] matches Ok(HexRecord::Data { offset, value })
            &&& !overruns(position.addressing.spec_address(offset), value@)
        }
    }

    /// Whether the next step divides by the page size: it does at a data
    /// record that fits into the address space, before its page is erased.
    pub open spec fn spec_needs_page_size(&self) -> bool {
        let position = self.spec_position();
        &&& !position.erasing
        &&& position.done < self.records().len()
        &&& self.records()[position.done as int] matches Ok(HexRecord::Data { offset, value })
        &&& !overruns(position.addressing.spec_address(offset), value@)
    }

    /// A download of the HEX file with the text `hex_text`, at its start.
    pub fn new(hex_text: &str) -> (download: Download)
        ensures
            download.wf(),
            download.records() == hex_records(hex_text@),
            download.spec_position() == (Position {
                done: 0,
                addressing: Addressing { segment: 0, linear: 0 },
                total_bytes: 0,
                erasing: false,
                polls: 0,
            }),
    {
        let records = read_hex_records(hex_text);
        proof {
            assert(records@.subrange(0, 0) =~= Seq::empty());
        }
        Download {
            records,
            position: Position {
                done: 0,
                addressing: Addressing { segment: 0, linear: 0 },
                total_bytes: 0,
                erasing: false,
                polls: 0,
            },
        }
    }

    /// How far the download has come.
    pub fn position(&self) -> (position: Position)
        ensures
            position == self.spec_position(),
    {
        self.position
    }

    #[verifier::when_used_as_spec(spec_needs_page_size)]
    pub fn needs_page_size(&self) -> (needed: bool)
        requires
            self.wf(),
        ensures
            needed == self.spec_needs_page_size(),
    {
        if self.position.erasing || self.position.done >= self.records.len() {
            return false;
        }
        match &self.records[self.position.done] {
            Ok(HexRecord::Data { offset, value }) => {
                let address = self.position.addressing.address(*offset);
                !reaches_past(address, value)
            },
            _ => false,
        }
    }

    /// Takes the next step of the download on the target behind `probe`,
    /// whose pages are `page_size` bytes long, and tells what the caller
    /// does before the step after it. A step that fails leaves the position
    /// as it was.
    #[verifier::rlimit(50)]
    pub fn advance<M: MemoryInterface>(&mut self, probe: &mut M, page_size: u32) -> (r: Result<
        Pace,
        FlashError,
    >)
        requires
            old(self).wf(),
            page_size > 0 || !old(self).spec_needs_page_size(),
        ensures
            final(self).wf(),
            final(self).records() == old(self).records(),
            old(probe).accesses().is_prefix_of(final(probe).accesses()),
            advanced(
                old(self).records(),
                old(self).spec_position(),
                final(self).spec_position(),
                since(final(probe).accesses(), old(probe).accesses()),
                page_size,
                r,
            ),
    {
        let ghost start = probe.accesses();
        let before = self.position;
        proof {
            assert(since(start, start) =~= Seq::<MemoryAccess>::empty());
        }
        if before.done >= self.records.len() {
            return Ok(Pace::Finished(before.total_bytes));
        }
        let ghost dealt = self.records@.subrange(0, before.done as int);
        let ghost next = self.records@.subrange(0, before.done + 1);
        proof {
            assert(next.drop_last() =~= dealt);
            assert(next.last() == self.records@[before.done as int]);
        }
        let (after, r) = match &self.records[before.done] {
            Err(kind) => (before, Err(FlashError::ReaderError { line: before.done + 1, kind: *kind })),
            Ok(HexRecord::EndOfFile) => (before, Ok(Pace::Finished(before.total_bytes))),
            Ok(HexRecord::Data { offset, value }) => {
                let address = before.addressing.address(*offset);
                let length = value.len() as u64;
                let written = Position {
                    done: before.done + 1,
                    total_bytes: if before.total_bytes > u64::MAX - length {
                        u64::MAX
                    } else {
                        before.total_bytes + length
                    },
                    erasing: false,
                    polls: 0,
                    ..before
                };
                if before.erasing {
                    let read = erase_done(probe);
                    proof {
                        assert(since(probe.accesses(), start) =~= seq![probe.accesses().last()]);
                    }
                    match read {
                        Err(e) => (before, Err(e)),
                        Ok(false) => {
                            if before.polls + 1 < 100 {
                                (Position { polls: before.polls + 1, ..before }, Ok(Pace::Pause))
                            } else {
                                (before, Err(FlashError::EraseFailed))
                            }
                        },
                        Ok(true) => {
                            let ghost polled = probe.accesses();
                            let done = write_bytes(probe, address, value.as_slice());
                            proof {
                                let log = probe.accesses();
                                lemma_since_add(start, polled, log);
                                let segment = since(log, start);
                                assert(since(polled, start) =~= seq![polled.last()]);
                                assert(segment[0] == polled.last());
                                assert(segment.subrange(1, segment.len() as int) =~= since(
                                    log,
                                    polled,
                                ));
                            }
                            match done {
                                Ok(()) => (written, Ok(Pace::Resume)),
                                Err(e) => (before, Err(e)),
                            }
                        },
                    }
                } else if reaches_past(address, value) {
                    (before, Err(FlashError::ProgramFailed))
                } else if address % page_size == 0 {
                    match begin_erase(probe, address) {
                        Ok(()) => (Position { erasing: true, polls: 0, ..before }, Ok(Pace::Resume)),
                        Err(e) => (before, Err(e)),
                    }
                } else {
                    match write_bytes(probe, address, value.as_slice()) {
                        Ok(()) => (written, Ok(Pace::Resume)),
                        Err(e) => (before, Err(e)),
                    }
                }
            },
            Ok(HexRecord::ExtendedSegmentAddress(a)) => (
                Position {
                    done: before.done + 1,
                    addressing: Addressing { segment: (*a as u32) * 16, ..before.addressing },
                    ..before
                },
                Ok(Pace::Resume),
            ),
            Ok(HexRecord::StartSegmentAddress { .. }) => (
                Position { done: before.done + 1, ..before },
                Ok(Pace::Resume),
            ),
            Ok(HexRecord::ExtendedLinearAddress(a)) => (
                Position {
                    done: before.done + 1,
                    addressing: Addressing { linear: (*a as u32) * 0x1_0000, ..before.addressing },
                    ..before
                },
                Ok(Pace::Resume),
            ),
            Ok(HexRecord::StartLinearAddress(_)) => (
                Position { done: before.done + 1, ..before },
                Ok(Pace::Resume),
            ),
        };
        self.position = after;
        r
    }
}

/// Whether `segment` is an erase of the page at `address` that is under
/// way: erasing is enabled, the address is written to the erase register,
/// and the ready register was read `polls` times and showed the controller
/// busy each time.
pub open spec fn erase_under_way(segment: Seq<MemoryAccess>, address: u32, polls: int) -> bool {
    &&& segment.len() == 2 + polls
    &&& segment[0] == MemoryAccess::word_write(0x4001_E504, 0x2)
    &&& segment[1] == MemoryAccess::word_write(0x4001_E508, address)
    &&& busy_polls(segment.subrange(2, segment.len() as int))
}

/// Whether a download of `records` in steps, which has made the accesses
/// `segment`, stands at `position`: the records that are dealt with are
/// programmed, and if the page of the next record is being erased, the
/// erase is under way behind them, with the busy reads that the position
/// counts.
pub open spec fn stands_at(
    segment: Seq<MemoryAccess>,
    records: Seq<Result<HexRecord, ihex::reader::ReaderError>>,
    position: Position,
    page_size: u32,
) -> bool {
    exists|k: int|
        {
            &&& 0 <= k <= segment.len()
            &&& #[trigger] programmed(
                segment.subrange(0, k),
                records.subrange(0, position.done as int),
                page_size,
            )
            &&& if position.erasing {
                &&& position.done < records.len()
                &&& records[position.done as int] matches Ok(HexRecord::Data { offset, value })
                &&& !overruns(position.addressing.spec_address(offset), value@)
                &&& position.addressing.spec_address(offset) % page_size == 0
                &&& erase_under_way(
                    segment.subrange(k, segment.len() as int),
                    position.addressing.spec_address(offset),
                    position.polls as int,
                )
            } else {
                k == segment.len()
            }
        }
}

/// A download in steps that has made no access stands at its start.
pub proof fn lemma_download_starts(
    records: Seq<Result<HexRecord, ihex::reader::ReaderError>>,
    page_size: u32,
)
    ensures
        stands_at(
            Seq::empty(),
            records,
            Position {
                done: 0,
                addressing: Addressing { segment: 0, linear: 0 },
                total_bytes: 0,
                erasing: false,
                polls: 0,
            },
            page_size,
        ),
{
    let none = Seq::<MemoryAccess>::empty();
    assert(none.subrange(0, 0) =~= none);
    assert(programmed(none.subrange(0, 0), records.subrange(0, 0), page_size));
}

/// A download in steps ends as the download in one piece does. Where the
/// download stands at a position after the accesses `segment`, and a step
/// adds the accesses `added`: either the step asks for another, and the
/// download stands at the position that the step has left; or the step
/// ends the download, and all the accesses together are those of a download
/// in one piece with the same end.
#[verifier::rlimit(100)]
pub proof fn lemma_download_in_steps(
    records: Seq<Result<HexRecord, ihex::reader::ReaderError>>,
    page_size: u32,
    before: Position,
    after: Position,
    segment: Seq<MemoryAccess>,
    added: Seq<MemoryAccess>,
    r: Result<Pace, FlashError>,
)
    requires
        page_size > 0,
        before.done <= records.len() <= usize::MAX,
        before.polls < 100,
        before.addressing == Addressing::of(records.subrange(0, before.done as int)),
        before.total_bytes == counted(0, data_bytes(records.subrange(0, before.done as int))),
        stands_at(segment, records, before, page_size),
        advanced(records, before, after, added, page_size, r),
    ensures
        match r {
            Ok(Pace::Finished(total)) => download_outcome(
                segment + added,
                records,
                page_size,
                Ok(total),
            ),
            Ok(_) => stands_at(segment + added, records, after, page_size),
            Err(e) => download_outcome(segment + added, records, page_size, Err(e)),
        },
{
    let whole = segment + added;
    let m = before.done as int;
    let dealt = records.subrange(0, m);
    let k = choose|k: int|
        {
            &&& 0 <= k <= segment.len()
            &&& #[trigger] programmed(segment.subrange(0, k), dealt, page_size)
            &&& if before.erasing {
                &&& before.done < records.len()
                &&& records[m] matches Ok(HexRecord::Data { offset, value })
                &&& !overruns(before.addressing.spec_address(offset), value@)
                &&& before.addressing.spec_address(offset) % page_size == 0
                &&& erase_under_way(
                    segment.subrange(k, segment.len() as int),
                    before.addressing.spec_address(offset),
                    before.polls as int,
                )
            } else {
                k == segment.len()
            }
        };
    assert(whole.subrange(0, k) =~= segment.subrange(0, k));
    assert(programmed(whole.subrange(0, k), dealt, page_size));
    let part = whole.subrange(k, whole.len() as int);
    assert(part =~= segment.subrange(k, segment.len() as int) + added);
    if m >= records.len() {
        assert(whole =~= segment);
    } else {
        let next = records.subrange(0, m + 1);
        assert(next.drop_last() =~= dealt);
        assert(next.last() == records[m]);
        match records[m] {
            Ok(HexRecord::Data { offset, value }) => {
                let address = before.addressing.spec_address(offset);
                lemma_data_in_steps(
                    whole,
                    k,
                    segment.subrange(k, segment.len() as int),
                    added,
                    before,
                    after,
                    address,
                    value@,
                    page_size,
                    r,
                );
                match r {
                    Ok(_) => {
                        if after.done == before.done + 1 {
                            lemma_programmed_step(whole, next, page_size, k);
                            assert(whole.subrange(0, whole.len() as int) =~= whole);
                        }
                    },
                    Err(_) => {},
                }
            },
            Err(_) => {
                assert(whole =~= segment);
            },
            Ok(HexRecord::EndOfFile) => {
                assert(whole =~= segment);
            },
            _ => {
                assert(whole =~= segment);
                assert(part.len() == 0);
                lemma_programmed_step(whole, next, page_size, k);
                assert(whole.subrange(0, whole.len() as int) =~= whole);
            },
        }
    }
}

/// What a step at a data record adds to the accesses of the record so far
/// is one of three things: the programming of the record, complete; the
/// erase of its page, further under way; or a programming of the record
/// that gave up.
#[verifier::rlimit(100)]
proof fn lemma_data_in_steps(
    whole: Seq<MemoryAccess>,
    k: int,
    earlier: Seq<MemoryAccess>,
    added: Seq<MemoryAccess>,
    before: Position,
    after: Position,
    address: u32,
    data: Seq<u8>,
    page_size: u32,
    r: Result<Pace, FlashError>,
)
    requires
        page_size > 0,
        before.polls < 100,
        before.done < usize::MAX,
        0 <= k <= whole.len(),
        whole.subrange(k, whole.len() as int) == earlier + added,
        if before.erasing {
            &&& !overruns(address, data)
            &&& address % page_size == 0
            &&& erase_under_way(earlier, address, before.polls as int)
        } else {
            earlier.len() == 0
        },
        data_advanced(before, after, added, address, data, page_size, r),
    ensures
        match r {
            Ok(pace) => !(pace is Finished) && if after.done == before.done + 1 {
                &&& !after.erasing
                &&& data_programmed(whole.subrange(k, whole.len() as int), address, data, page_size)
            } else {
                &&& after.done == before.done
                &&& after.addressing == before.addressing
                &&& after.erasing
                &&& !overruns(address, data)
                &&& address % page_size == 0
                &&& erase_under_way(
                    whole.subrange(k, whole.len() as int),
                    address,
                    after.polls as int,
                )
            },
            Err(FlashError::ReaderError { .. }) => false,
            Err(FlashError::ProgramFailed) => whole.len() == k && overruns(address, data),
            Err(e) => !overruns(address, data) && data_gave_up(
                whole.subrange(k, whole.len() as int),
                address,
                data,
                page_size,
                e,
            ),
        },
{
    let part = whole.subrange(k, whole.len() as int);
    if before.erasing {
        let n = earlier.len() as int;
        assert(part[0] == earlier[0]);
        assert(part[1] == earlier[1]);
        if added[0].failure() is Some {
            assert(part.subrange(2, part.len() - 1) =~= earlier.subrange(2, n));
            assert(part.last() == added[0]);
        } else if added[0].word() != 0 {
            let erased = part.subrange(0, n + 1);
            assert(erased =~= earlier.push(added[0]));
            assert(erased.subrange(2, erased.len() - 1) =~= earlier.subrange(2, n));
            assert(erased.last() == added[0]);
            assert(page_erased(erased, address));
            let rest = added.subrange(1, added.len() as int);
            assert(part.subrange(n + 1, part.len() as int) =~= rest);
            assert(stretch(part, 0, n + 1) == erased);
            match r {
                Ok(_) => {
                    assert(part.len() == n + 3);
                    assert(part.subrange(0, part.len() - 2) =~= erased);
                    assert(part.subrange(part.len() - 2, part.len() as int) =~= rest);
                },
                Err(_) => {},
            }
        } else {
            assert(part =~= earlier.push(added[0]));
            assert forall|i: int| 0 <= i < part.subrange(2, part.len() as int).len() implies (
            #[trigger] part.subrange(2, part.len() as int)[i]) == MemoryAccess::word_read(
                0x4001_E400,
                0,
            ) by {
                if i < n - 2 {
                    assert(part.subrange(2, part.len() as int)[i] == earlier.subrange(2, n)[i]);
                }
            }
            if before.polls + 1 >= 100 {
                assert(part.subrange(2, 102) =~= part.subrange(2, part.len() as int));
            }
        }
    } else {
        assert(part =~= added);
        if !overruns(address, data) && address % page_size == 0 {
            match r {
                Ok(_) => {
                    assert(part.subrange(2, part.len() as int) =~= Seq::<MemoryAccess>::empty());
                },
                Err(_) => {},
            }
        }
    }
}

} // verus!
