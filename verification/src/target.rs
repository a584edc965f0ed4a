//! A model of the target side of a memory access port, and what the engine
//! achieves against it.
//!
//! The model is ghost: it says what a memory access port with plain memory
//! behind it does with the transfers that reach it. The laws at the end
//! hold of every history whose reads were answered as the model answers.

use crate::ap::{DataSize, CSW};
use crate::bits::{field, with_field};
use crate::communication_interface::{block_reads, block_writes, PortType, Transfer};
use crate::memory::{
    block_transfers, flushed, lemma_insert_byte, lemma_last_run, run_start, run_transfers,
    spec_extract_byte, spec_insert_byte, EngineView,
};
use vstd::prelude::*;

verus! {

/// A memory access port with memory behind it: what its CSW and TAR hold,
/// and the word at every address that is a multiple of four.
pub struct MemoryModel {
    pub csw: u32,
    pub tar: u32,
    pub words: Map<int, u32>,
}

impl MemoryModel {
    /// TAR after the transfer of one word: four more, but never out of the
    /// window of 1024 bytes that it is in.
    pub open spec fn advanced(tar: u32) -> u32 {
        if tar % 1024 + 4 < 1024 {
            (tar + 4) as u32
        } else {
            (tar + 4 - 1024) as u32
        }
    }

    /// Whether CSW is set for transfers of words.
    pub open spec fn word_sized(self) -> bool {
        field(self.csw, 0, 3) == DataSize::U32.spec_code()
    }

    /// The model after `transfer` has reached the access port `ap`. A write
    /// to CSW or TAR sets the register; a transfer through DRW moves TAR on
    /// and, if it is a write, stores the word at the address that TAR held.
    /// A transfer that failed, or went elsewhere, changes nothing.
    pub open spec fn step(self, ap: PortType, transfer: Transfer) -> MemoryModel {
        match transfer {
            Transfer::Write { port, addr, value, failure: None } => {
                if port != ap {
                    self
                } else if addr == 0x0 {
                    MemoryModel { csw: value, ..self }
                } else if addr == 0x4 {
                    MemoryModel { tar: value, ..self }
                } else if addr == 0xC {
                    MemoryModel {
                        tar: Self::advanced(self.tar),
                        words: self.words.insert(self.tar as int, value),
                        ..self
                    }
                } else {
                    self
                }
            },
            Transfer::Read { port, addr, data: Ok(_) } => {
                if port == ap && addr == 0xC {
                    MemoryModel { tar: Self::advanced(self.tar), ..self }
                } else {
                    self
                }
            },
            _ => self,
        }
    }

    /// Whether `transfer`, if it is a read through DRW that succeeded,
    /// delivered the word at the address that TAR holds.
    pub open spec fn answers(self, ap: PortType, transfer: Transfer) -> bool {
        match transfer {
            Transfer::Read { port, addr, data: Ok(value) } => port == ap && addr == 0xC
                ==> value == self.words[self.tar as int],
            _ => true,
        }
    }

    /// The model after all of `log` has reached the access port.
    pub open spec fn run(self, ap: PortType, log: Seq<Transfer>) -> MemoryModel
        decreases log.len(),
    {
        if log.len() == 0 {
            self
        } else {
            self.run(ap, log.drop_last()).step(ap, log.last())
        }
    }

    /// Whether every read in `log` was answered as the model answers.
    pub open spec fn faithful(self, ap: PortType, log: Seq<Transfer>) -> bool
        decreases log.len(),
    {
        if log.len() == 0 {
            true
        } else {
            self.faithful(ap, log.drop_last()) && self.run(ap, log.drop_last()).answers(
                ap,
                log.last(),
            )
        }
    }

    /// Whether the model holds in CSW what the engine believes it holds.
    pub open spec fn agrees_with(self, view: EngineView) -> bool {
        view.cached_csw matches Some(cached) ==> self.csw == cached.0
    }

    /// Running two histories one after the other is running them as one.
    pub proof fn lemma_run_add(self, ap: PortType, first: Seq<Transfer>, second: Seq<Transfer>)
        ensures
            self.run(ap, first + second) == self.run(ap, first).run(ap, second),
            self.faithful(ap, first + second) == (self.faithful(ap, first) && self.run(
                ap,
                first,
            ).faithful(ap, second)),
        decreases second.len(),
    {
        if second.len() == 0 {
            assert(first + second =~= first);
        } else {
            self.lemma_run_add(ap, first, second.drop_last());
            assert((first + second).drop_last() =~= first + second.drop_last());
            assert((first + second).last() == second.last());
        }
    }

    /// One transfer is run by one step.
    pub proof fn lemma_run_one(self, ap: PortType, transfer: Transfer)
        ensures
            self.run(ap, seq![transfer]) == self.step(ap, transfer),
            self.faithful(ap, seq![transfer]) == self.answers(ap, transfer),
    {
        let log = seq![transfer];
        assert(log.drop_last() =~= Seq::<Transfer>::empty());
        assert(log.last() == transfer);
        assert(self.run(ap, log.drop_last()) == self);
        assert(self.faithful(ap, log.drop_last()));
    }

    /// What a run of writes through DRW within one window leaves: the words
    /// at the addresses from TAR on, and nothing else changed but TAR.
    pub proof fn lemma_run_of_writes(self, ap: PortType, values: Seq<u32>)
        requires
            ap is AccessPort,
            self.tar % 4 == 0,
            self.tar % 1024 + 4 * values.len() <= 1024,
        ensures
            self.run(ap, block_writes(ap, 0xC, values)).csw == self.csw,
            self.tar % 1024 + 4 * values.len() < 1024 ==> self.run(
                ap,
                block_writes(ap, 0xC, values),
            ).tar == self.tar + 4 * values.len(),
            forall|i: int|
                0 <= i < values.len() ==> (#[trigger] self.run(
                    ap,
                    block_writes(ap, 0xC, values),
                ).words[self.tar + 4 * i]) == values[i],
            forall|a: int|
                !(self.tar <= a < self.tar + 4 * values.len()) ==> (#[trigger] self.run(
                    ap,
                    block_writes(ap, 0xC, values),
                ).words[a]) == self.words[a],
        decreases values.len(),
    {
        let log = block_writes(ap, 0xC, values);
        if values.len() > 0 {
            let k = values.len() - 1;
            let earlier = values.drop_last();
            self.lemma_run_of_writes(ap, earlier);
            assert(log.drop_last() =~= block_writes(ap, 0xC, earlier));
            assert(log.last() == Transfer::write(ap, 0xC, values[k]));
            let before = self.run(ap, log.drop_last());
            assert(before.tar == self.tar + 4 * k);
            let after = before.step(ap, log.last());
            assert(after == self.run(ap, log));
            assert forall|i: int| 0 <= i < values.len() implies (#[trigger] after.words[self.tar
                + 4 * i]) == values[i] by {
                if i < k {
                    assert(before.words[self.tar + 4 * i] == earlier[i]);
                }
            }
            assert forall|a: int| !(self.tar <= a < self.tar + 4 * values.len()) implies (
            #[trigger] after.words[a]) == self.words[a] by {
                assert(before.words[a] == self.words[a]);
            }
        }
    }

    /// What a run of reads through DRW within one window shows, if it was
    /// answered as the model answers: the words at the addresses from TAR
    /// on. It changes nothing but TAR.
    pub proof fn lemma_run_of_reads(self, ap: PortType, values: Seq<u32>)
        requires
            ap is AccessPort,
            self.tar % 4 == 0,
            self.tar % 1024 + 4 * values.len() <= 1024,
        ensures
            self.run(ap, block_reads(ap, 0xC, values)).csw == self.csw,
            self.run(ap, block_reads(ap, 0xC, values)).words == self.words,
            self.tar % 1024 + 4 * values.len() < 1024 ==> self.run(
                ap,
                block_reads(ap, 0xC, values),
            ).tar == self.tar + 4 * values.len(),
            self.faithful(ap, block_reads(ap, 0xC, values)) ==> forall|i: int|
                0 <= i < values.len() ==> #[trigger] values[i] == self.words[self.tar + 4 * i],
        decreases values.len(),
    {
        let log = block_reads(ap, 0xC, values);
        if values.len() > 0 {
            let k = values.len() - 1;
            let earlier = values.drop_last();
            self.lemma_run_of_reads(ap, earlier);
            assert(log.drop_last() =~= block_reads(ap, 0xC, earlier));
            assert(log.last() == Transfer::read(ap, 0xC, values[k]));
            let before = self.run(ap, log.drop_last());
            assert(before.tar == self.tar + 4 * k);
            if self.faithful(ap, log) {
                assert forall|i: int| 0 <= i < values.len() implies #[trigger] values[i]
                    == self.words[self.tar + 4 * i] by {
                    if i < k {
                        assert(earlier[i] == values[i]);
                    }
                }
            }
        }
    }

    /// What the write of a block leaves: its words at its addresses, and
    /// nothing else changed but TAR.
    #[verifier::rlimit(50)]
    pub proof fn lemma_block_written(self, ap: PortType, address: int, values: Seq<u32>)
        requires
            ap is AccessPort,
            0 <= address,
            address % 4 == 0,
            address + 4 * values.len() <= 0x1_0000_0000,
        ensures
            self.run(ap, block_transfers(ap, address, values, false)).csw == self.csw,
            forall|i: int|
                0 <= i < values.len() ==> (#[trigger] self.run(
                    ap,
                    block_transfers(ap, address, values, false),
                ).words[address + 4 * i]) == values[i],
            forall|a: int|
                !(address <= a < address + 4 * values.len()) ==> (#[trigger] self.run(
                    ap,
                    block_transfers(ap, address, values, false),
                ).words[a]) == self.words[a],
        decreases values.len(),
    {
        let n = values.len() as int;
        if n > 0 {
            let start = run_start(address, n);
            let head = (start - address) / 4;
            lemma_last_run(address, n);
            let front = block_transfers(ap, address, values.subrange(0, head), false);
            let tar = Transfer::write(ap, 0x4, start as u32);
            let run = values.subrange(head, n);
            let tail = run_transfers(ap, run, false);
            assert(block_transfers(ap, address, values, false) == front + seq![tar] + tail);
            self.lemma_block_written(ap, address, values.subrange(0, head));
            let first = self.run(ap, front);
            first.lemma_run_one(ap, tar);
            let second = first.step(ap, tar);
            assert(second.tar == start);
            assert(start % 1024 + 4 * run.len() <= 1024);
            second.lemma_run_of_writes(ap, run);
            let third = second.run(ap, tail);
            self.lemma_run_add(ap, front, seq![tar]);
            self.lemma_run_add(ap, front + seq![tar], tail);
            assert(third == self.run(ap, block_transfers(ap, address, values, false)));
            assert forall|i: int| 0 <= i < values.len() implies (#[trigger] third.words[address
                + 4 * i]) == values[i] by {
                if i < head {
                    assert(first.words[address + 4 * i] == values.subrange(0, head)[i]);
                    assert(third.words[address + 4 * i] == second.words[address + 4 * i]);
                } else {
                    assert(third.words[start + 4 * (i - head)] == run[i - head]);
                }
            }
            assert forall|a: int| !(address <= a < address + 4 * values.len()) implies (
            #[trigger] third.words[a]) == self.words[a] by {
                assert(third.words[a] == second.words[a]);
                assert(first.words[a] == self.words[a]);
            }
        }
    }

    /// What the read of a block shows, if it was answered as the model
    /// answers: the words at its addresses.
    #[verifier::rlimit(50)]
    pub proof fn lemma_block_read(self, ap: PortType, address: int, values: Seq<u32>)
        requires
            ap is AccessPort,
            0 <= address,
            address % 4 == 0,
            address + 4 * values.len() <= 0x1_0000_0000,
        ensures
            self.run(ap, block_transfers(ap, address, values, true)).csw == self.csw,
            self.run(ap, block_transfers(ap, address, values, true)).words == self.words,
            self.faithful(ap, block_transfers(ap, address, values, true)) ==> forall|i: int|
                0 <= i < values.len() ==> #[trigger] values[i] == self.words[address + 4 * i],
        decreases values.len(),
    {
        let n = values.len() as int;
        if n > 0 {
            let start = run_start(address, n);
            let head = (start - address) / 4;
            lemma_last_run(address, n);
            let front = block_transfers(ap, address, values.subrange(0, head), true);
            let tar = Transfer::write(ap, 0x4, start as u32);
            let run = values.subrange(head, n);
            let tail = run_transfers(ap, run, true);
            let whole = block_transfers(ap, address, values, true);
            assert(whole == front + seq![tar] + tail);
            self.lemma_block_read(ap, address, values.subrange(0, head));
            let first = self.run(ap, front);
            first.lemma_run_one(ap, tar);
            let second = first.step(ap, tar);
            assert(second.tar == start);
            assert(start % 1024 + 4 * run.len() <= 1024);
            second.lemma_run_of_reads(ap, run);
            self.lemma_run_add(ap, front, seq![tar]);
            self.lemma_run_add(ap, front + seq![tar], tail);
            if self.faithful(ap, whole) {
                assert forall|i: int| 0 <= i < values.len() implies #[trigger] values[i]
                    == self.words[address + 4 * i] by {
                    if i < head {
                        assert(values.subrange(0, head)[i] == values[i]);
                    } else {
                        assert(run[i - head] == second.words[start + 4 * (i - head)]);
                    }
                }
            }
        }
    }

    /// Setting the engine up for words leaves CSW set for words, and the
    /// memory alone.
    pub proof fn lemma_front(self, view: EngineView)
        requires
            self.agrees_with(view),
        ensures
            ({
                let front = view.selection.select_writes(view.access()) + view.csw_writes(
                    DataSize::U32,
                );
                &&& self.run(view.ap(), front).word_sized()
                &&& self.run(view.ap(), front).words == self.words
                &&& self.faithful(view.ap(), front)
            }),
    {
        let ap = view.ap();
        let selects = view.selection.select_writes(view.access());
        let widths = view.csw_writes(DataSize::U32);
        self.lemma_run_add(ap, selects, widths);
        assert(field(with_field(0xA300_0010, 0, 3, 2), 0, 3) == 2) by (bit_vector);
        if selects.len() > 0 {
            self.lemma_run_one(ap, selects[0]);
            assert(selects =~= seq![selects[0]]);
        }
        let selected = self.run(ap, selects);
        assert(selected == self);
        if widths.len() > 0 {
            selected.lemma_run_one(ap, widths[0]);
            assert(widths =~= seq![widths[0]]);
        }
    }
}

/// Round trip: what the engine writes as a block of words, it reads back
/// from the same address, from any target that keeps what is written to it
/// and answers reads with what it keeps.
#[verifier::rlimit(50)]
pub proof fn lemma_round_trip(
    model: MemoryModel,
    view: EngineView,
    address: u32,
    data: Seq<u32>,
    got: Seq<u32>,
)
    requires
        address % 4 == 0,
        address + 4 * data.len() <= 0x1_0000_0000,
        got.len() == data.len(),
        model.agrees_with(view),
        model.run(view.ap(), flushed(view.block_plan(address, data, false))).faithful(
            view.ap(),
            flushed(
                view.after(
                    DataSize::U32,
                    flushed(view.block_plan(address, data, false)),
                ).block_plan(address, got, true),
            ),
        ),
    ensures
        got == data,
{
    let ap = view.ap();
    let front = view.selection.select_writes(view.access()) + view.csw_writes(DataSize::U32);
    let written = block_transfers(ap, address as int, data, false);
    model.lemma_front(view);
    model.lemma_run_add(ap, front, written);
    let ready = model.run(ap, front);
    ready.lemma_block_written(ap, address as int, data);
    let stored = ready.run(ap, written);
    assert(stored == model.run(ap, view.block_plan(address, data, false)));
    model.lemma_run_add(ap, view.block_plan(address, data, false), seq![Transfer::flush()]);
    stored.lemma_run_one(ap, Transfer::flush());
    assert(flushed(view.block_plan(address, data, false)) =~= view.block_plan(
        address,
        data,
        false,
    ) + seq![Transfer::flush()]);
    assert(stored == model.run(ap, flushed(view.block_plan(address, data, false))));
    let later = view.after(DataSize::U32, flushed(view.block_plan(address, data, false)));
    let again = later.selection.select_writes(later.access()) + later.csw_writes(DataSize::U32);
    assert(again =~= Seq::<Transfer>::empty());
    let read = block_transfers(ap, address as int, got, true);
    assert(later.block_plan(address, got, true) =~= read);
    assert(flushed(read) =~= read + seq![Transfer::flush()]);
    stored.lemma_run_add(ap, read, seq![Transfer::flush()]);
    stored.lemma_block_read(ap, address as int, got);
    assert forall|i: int| 0 <= i < got.len() implies got[i] == data[i] by {
        assert(got[i] == stored.words[address + 4 * i]);
        assert(stored.words[address + 4 * i] == data[i]);
    }
    assert(got =~= data);
}

/// Sub-word write: on an access port that transfers words only, the write
/// of one byte leaves all of memory as it was but for the word around the
/// byte, which is the word that was there with the byte in its lane
/// replaced. A read of that word, which follows, yields it: the byte in its
/// lane, and the other three bytes as they were.
#[verifier::rlimit(50)]
pub proof fn lemma_sub_word_write(
    model: MemoryModel,
    view: EngineView,
    address: u32,
    byte: u8,
    word: u32,
    got: u32,
)
    requires
        view.words_only,
        model.agrees_with(view),
        model.faithful(view.ap(), view.byte_write(address as int, word, byte)),
        model.run(view.ap(), view.byte_write(address as int, word, byte)).faithful(
            view.ap(),
            flushed(
                view.after(DataSize::U32, view.byte_write(address as int, word, byte)).setup(
                    DataSize::U32,
                    (address - address % 4) as u32,
                ) + seq![Transfer::read(view.ap(), 0xC, got)],
            ),
        ),
    ensures
        word == model.words[address - address % 4],
        model.run(view.ap(), view.byte_write(address as int, word, byte)).words
            == model.words.insert(
            address - address % 4,
            spec_insert_byte(word, (address % 4) as u32, byte),
        ),
        got == spec_insert_byte(word, (address % 4) as u32, byte),
        spec_extract_byte(got, (address % 4) as u32) == byte,
        forall|lane: u32|
            lane < 4 && lane != address % 4 ==> #[trigger] spec_extract_byte(got, lane)
                == spec_extract_byte(model.words[address - address % 4], lane),
{
    let ap = view.ap();
    let aligned = (address - address % 4) as u32;
    let lane = (address % 4) as u32;
    let front = view.selection.select_writes(view.access()) + view.csw_writes(DataSize::U32);
    let point = Transfer::write(ap, 0x4, aligned);
    let fetch = Transfer::read(ap, 0xC, word);
    let store = Transfer::write(ap, 0xC, spec_insert_byte(word, lane, byte));
    let flush = Transfer::flush();
    let plan = view.byte_write(address as int, word, byte);
    assert(plan =~= front + seq![point] + seq![fetch] + seq![flush] + seq![point] + seq![store]
        + seq![flush]);
    model.lemma_front(view);
    let m0 = model.run(ap, front);
    model.lemma_run_add(ap, front, seq![point]);
    m0.lemma_run_one(ap, point);
    let m1 = m0.step(ap, point);
    model.lemma_run_add(ap, front + seq![point], seq![fetch]);
    m1.lemma_run_one(ap, fetch);
    let m2 = m1.step(ap, fetch);
    model.lemma_run_add(ap, front + seq![point] + seq![fetch], seq![flush]);
    m2.lemma_run_one(ap, flush);
    model.lemma_run_add(ap, front + seq![point] + seq![fetch] + seq![flush], seq![point]);
    m2.lemma_run_one(ap, point);
    let m3 = m2.step(ap, point);
    model.lemma_run_add(
        ap,
        front + seq![point] + seq![fetch] + seq![flush] + seq![point],
        seq![store],
    );
    m3.lemma_run_one(ap, store);
    let m4 = m3.step(ap, store);
    model.lemma_run_add(
        ap,
        front + seq![point] + seq![fetch] + seq![flush] + seq![point] + seq![store],
        seq![flush],
    );
    m4.lemma_run_one(ap, flush);
    assert(m4 == model.run(ap, plan));
    assert(word == model.words[aligned as int]);
    assert(m4.words[aligned as int] == spec_insert_byte(word, lane, byte));
    assert(m4.words =~= model.words.insert(aligned as int, spec_insert_byte(word, lane, byte)));
    let later = view.after(DataSize::U32, plan);
    let again = later.setup(DataSize::U32, aligned);
    assert(again =~= seq![point]);
    let look = Transfer::read(ap, 0xC, got);
    assert(flushed(again + seq![look]) =~= seq![point] + seq![look] + seq![flush]);
    m4.lemma_run_add(ap, seq![point], seq![look]);
    m4.lemma_run_add(ap, seq![point] + seq![look], seq![flush]);
    m4.lemma_run_one(ap, point);
    let m5 = m4.step(ap, point);
    m5.lemma_run_one(ap, look);
    assert(got == m5.words[aligned as int]);
    assert forall|other: u32| other < 4 && other != lane implies #[trigger] spec_extract_byte(
        got,
        other,
    ) == spec_extract_byte(word, other) by {
        lemma_insert_byte(word, lane, byte, other);
    }
    lemma_insert_byte(word, lane, byte, 0);
}

} // verus!
