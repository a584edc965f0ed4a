//! What the core control of every Cortex-M core shares: the states of a
//! core, the reasons for a halt, and the histories of memory accesses that
//! the operations on a core are stated over.

use crate::bits::{bit, get_bit};
use crate::error::{Error, Operation};
use crate::memory::MemoryAccess;
use vstd::prelude::*;

verus! {

/// A register of the core that is mapped into the memory of the target.
pub trait CoreRegister: Sized + Copy {
    spec fn spec_address() -> u32;

    /// The address of the register in the memory of the target.
    fn address() -> (address: u32)
        ensures
            address == Self::spec_address(),
    ;

    spec fn spec_name() -> &'static str;

    /// The name of the register in the architecture manual.
    fn name() -> (name: &'static str)
        ensures
            name == Self::spec_name(),
    ;
}

/// The number by which DCRSR selects a register of the core.
#[derive(Debug, Clone, Copy, PartialEq, Eq, Structural)]
pub struct CoreRegisterAddress(pub u8);

/// The selector of the program counter.
pub const PC: u8 = 15;

/// The selector of the program status register.
pub const XPSR: u8 = 16;

/// The selectors of the registers that every debugger needs.
#[derive(Debug, Clone, Copy, PartialEq, Eq, Structural)]
pub struct RegisterFile {
    pub program_counter: CoreRegisterAddress,
    pub stack_pointer: CoreRegisterAddress,
    pub return_address: CoreRegisterAddress,
    pub status: CoreRegisterAddress,
}

/// The architecture of a core.
#[derive(Debug, Clone, Copy, PartialEq, Eq, Structural)]
pub enum Architecture {
    Arm,
    Riscv,
}

/// Why a core halted.
#[derive(Debug, Clone, Copy, PartialEq, Eq, Structural)]
pub enum HaltReason {
    /// The debugger, or a signal from outside the core, asked for the halt.
    External,
    /// A vector catch triggered, such as the one on the reset vector.
    Vector,
    /// A watchpoint of the data watchpoint and trace unit triggered.
    DWTTrap,
    /// A breakpoint instruction or a hardware breakpoint was hit.
    BKPT,
    /// The core halted again after a single step.
    Step,
    /// The core gives no reason.
    Unknown,
}

/// What a core is doing.
#[derive(Debug, Clone, Copy, PartialEq, Eq, Structural)]
pub enum CoreStatus {
    Running,
    Sleeping,
    Halted(HaltReason),
    LockedUp,
    Unknown,
}

impl CoreStatus {
    pub open spec fn spec_is_halted(&self) -> bool {
        *self is Halted
    }

    #[verifier::when_used_as_spec(spec_is_halted)]
    pub fn is_halted(&self) -> (halted: bool)
        ensures
            halted == self.spec_is_halted(),
    {
        match self {
            CoreStatus::Halted(_) => true,
            _ => false,
        }
    }
}

/// What is known of a core after it halted.
#[derive(Debug, Clone, Copy, PartialEq, Eq, Structural)]
pub struct CoreInformation {
    pub pc: u32,
}

/// What a session remembers about one core between operations.
#[derive(Debug, Clone, Copy, PartialEq, Eq, Structural)]
pub struct CortexState {
    pub initialized: bool,
    pub hw_breakpoints_enabled: bool,
    pub current_state: CoreStatus,
    /// The revision of the breakpoint unit, once it was looked at.
    pub fpb_revision: u32,
    /// The number of instruction comparators of the breakpoint unit, once
    /// it was looked at.
    pub fpb_num_code: u32,
}

impl CortexState {
    /// The state of a core that nothing is known about yet.
    pub fn new() -> (state: Self)
        ensures
            state == (CortexState {
                initialized: false,
                hw_breakpoints_enabled: false,
                current_state: CoreStatus::Unknown,
                fpb_revision: 0,
                fpb_num_code: 0,
            }),
    {
        CortexState {
            initialized: false,
            hw_breakpoints_enabled: false,
            current_state: CoreStatus::Unknown,
            fpb_revision: 0,
            fpb_num_code: 0,
        }
    }

    /// Marks the state as initialized.
    pub fn initialize(&mut self)
        ensures
            *final(self) == (CortexState { initialized: true, ..*old(self) }),
    {
        self.initialized = true;
    }

    /// Whether the status of the core was looked up once.
    pub fn initialized(&self) -> (done: bool)
        ensures
            done == self.initialized,
    {
        self.initialized
    }
}

/// Debug Fault Status Register: why the core halted. Its bits are sticky and
/// are cleared by writing ones.
#[derive(Debug, Clone, Copy, PartialEq, Eq, Structural)]
pub struct Dfsr(pub u32);

impl Dfsr {
    /// The reason that the register gives for a halt: a breakpoint, a
    /// watchpoint, a vector catch, or a request from outside the core, the
    /// first of these that shows; and none if none shows.
    pub open spec fn spec_halt_reason(&self) -> HaltReason {
        if bit(self.0, 1) {
            HaltReason::BKPT
        } else if bit(self.0, 2) {
            HaltReason::DWTTrap
        } else if bit(self.0, 3) {
            HaltReason::Vector
        } else if bit(self.0, 4) || bit(self.0, 0) {
            HaltReason::External
        } else {
            HaltReason::Unknown
        }
    }

    #[verifier::when_used_as_spec(spec_halt_reason)]
    pub fn halt_reason(&self) -> (reason: HaltReason)
        ensures
            reason == self.spec_halt_reason(),
    {
        if get_bit(self.0, 1) {
            HaltReason::BKPT
        } else if get_bit(self.0, 2) {
            HaltReason::DWTTrap
        } else if get_bit(self.0, 3) {
            HaltReason::Vector
        } else if get_bit(self.0, 4) || get_bit(self.0, 0) {
            HaltReason::External
        } else {
            HaltReason::Unknown
        }
    }

    /// The value that clears all five reasons.
    pub fn clear_all() -> (register: Self)
        ensures
            register == Dfsr(0b11111),
    {
        Dfsr(0b11111)
    }
}

impl CoreRegister for Dfsr {
    open spec fn spec_address() -> u32 {
        0xE000_ED30
    }

    fn address() -> (address: u32) {
        0xE000_ED30
    }

    open spec fn spec_name() -> &'static str {
        "DFSR"
    }

    fn name() -> (name: &'static str) {
        "DFSR"
    }
}

impl MemoryAccess {
    /// The word that the access carried, if it carried one: what a read of
    /// a word delivered, or what a write of a word sent.
    pub open spec fn word(self) -> u32 {
        match self {
            MemoryAccess::Read32 { words: Ok(words), .. } => words[0],
            MemoryAccess::Write32 { sent, .. } => sent[0],
            _ => 0,
        }
    }

    /// Whether the access is a read of the word at `address` that
    /// succeeded.
    pub open spec fn reads_word(self, address: u32) -> bool {
        self == MemoryAccess::word_read(address, self.word())
    }
}

/// Whether every access of `log` from position `from` on succeeded.
pub open spec fn all_succeeded(log: Seq<MemoryAccess>, from: int) -> bool {
    forall|i: int| 0 <= i < log.len() && from <= i ==> (#[trigger] log[i]).failure() is None
}

/// Whether the history grew from `before` to `after` by accesses that
/// succeeded and a last one that failed with `error`.
pub open spec fn stopped_at(
    before: Seq<MemoryAccess>,
    after: Seq<MemoryAccess>,
    error: Error,
) -> bool {
    &&& before.is_prefix_of(after)
    &&& after.len() > before.len()
    &&& after.last().failure() == Some(error)
    &&& all_succeeded(after.drop_last(), before.len() as int)
}

/// Whether `polls` are reads of the word at `address` that all found bit
/// `index` clear.
pub open spec fn idle_polls(polls: Seq<MemoryAccess>, address: u32, index: u32) -> bool {
    forall|i: int|
        0 <= i < polls.len() ==> (#[trigger] polls[i]).reads_word(address) && !bit(
            polls[i].word(),
            index,
        )
}

/// Whether `polls` are at most 100 reads of the word at `address` of which
/// the last, and only the last, found bit `index` set.
pub open spec fn ready_polls(polls: Seq<MemoryAccess>, address: u32, index: u32) -> bool {
    &&& 1 <= polls.len() <= 100
    &&& idle_polls(polls.drop_last(), address, index)
    &&& polls.last().reads_word(address)
    &&& bit(polls.last().word(), index)
}

/// Whether `polls` are a wait for bit `index` of the word at `address` that
/// ended in the error `error`: either 100 reads found the bit clear and the
/// error is `timeout`, or a read failed with the error after fewer than 100
/// that found the bit clear.
pub open spec fn failed_polls(
    polls: Seq<MemoryAccess>,
    address: u32,
    index: u32,
    timeout: Error,
    error: Error,
) -> bool {
    ||| polls.len() == 100 && idle_polls(polls, address, index) && error == timeout
    ||| {
        &&& 1 <= polls.len() <= 100
        &&& idle_polls(polls.drop_last(), address, index)
        &&& polls.last() == MemoryAccess::of_word_read(address, Err(error))
    }
}

impl Operation {
    /// The bit of DHCSR that the operation waits for: the register transfer
    /// waits for S_REGRDY, everything else for S_HALT.
    pub open spec fn awaited_bit(self) -> u32 {
        match self {
            Operation::CoreRegisterTransfer => 16,
            _ => 17,
        }
    }
}

/// The accesses of `log` from position `from` on.
pub open spec fn since(log: Seq<MemoryAccess>, from: Seq<MemoryAccess>) -> Seq<MemoryAccess> {
    log.subrange(from.len() as int, log.len() as int)
}

/// Whether `segment` is a wait for bit `index` of the word at `address`
/// that found the bit set in the end, without a failure.
pub open spec fn waited(segment: Seq<MemoryAccess>, address: u32, index: u32) -> bool {
    ready_polls(segment, address, index) && all_succeeded(segment, 0)
}

/// Whether an operation whose accesses are `segment` gave up with `error`:
/// either its last access failed with the error after nothing but
/// successes, or the error is a time-out and the segment ends with 100
/// reads of DHCSR that found the awaited bit clear.
pub open spec fn gave_up(segment: Seq<MemoryAccess>, error: Error) -> bool {
    ||| {
        &&& segment.len() > 0
        &&& segment.last().failure() == Some(error)
        &&& all_succeeded(segment.drop_last(), 0)
    }
    ||| {
        &&& error matches Error::Timeout { operation }
        &&& segment.len() >= 100
        &&& all_succeeded(segment, 0)
        &&& idle_polls(
            segment.subrange(segment.len() - 100, segment.len() as int),
            0xE000_EDF0,
            operation.awaited_bit(),
        )
    }
}

/// An operation that gave up after a stretch of successes gave up as a
/// whole.
pub proof fn lemma_gave_up_later(earlier: Seq<MemoryAccess>, later: Seq<MemoryAccess>, error: Error)
    requires
        all_succeeded(earlier, 0),
        gave_up(later, error),
    ensures
        gave_up(earlier + later, error),
{
    let whole = earlier + later;
    if later.len() > 0 && later.last().failure() == Some(error) && all_succeeded(
        later.drop_last(),
        0,
    ) {
        assert(whole.last() == later.last());
        assert forall|i: int| 0 <= i < whole.drop_last().len() implies (
        #[trigger] whole.drop_last()[i]).failure() is None by {
            if i < earlier.len() {
                assert(whole.drop_last()[i] == earlier[i]);
            } else {
                assert(whole.drop_last()[i] == later.drop_last()[i - earlier.len()]);
            }
        }
    } else {
        assert forall|i: int| 0 <= i < whole.len() implies (#[trigger] whole[i]).failure()
            is None by {
            if i < earlier.len() {
                assert(whole[i] == earlier[i]);
            } else {
                assert(whole[i] == later[i - earlier.len()]);
            }
        }
        assert(whole.subrange(whole.len() - 100, whole.len() as int) =~= later.subrange(
            later.len() - 100,
            later.len() as int,
        ));
    }
}

/// Two stretches of successes make one.
pub proof fn lemma_all_succeeded_add(earlier: Seq<MemoryAccess>, later: Seq<MemoryAccess>)
    requires
        all_succeeded(earlier, 0),
        all_succeeded(later, 0),
    ensures
        all_succeeded(earlier + later, 0),
{
    let whole = earlier + later;
    assert forall|i: int| 0 <= i < whole.len() implies (#[trigger] whole[i]).failure() is None by {
        if i < earlier.len() {
            assert(whole[i] == earlier[i]);
        } else {
            assert(whole[i] == later[i - earlier.len()]);
        }
    }
}

/// What was appended to a history since an earlier point, and then since a
/// later one, was appended in this order.
pub proof fn lemma_since_add(
    before: Seq<MemoryAccess>,
    mid: Seq<MemoryAccess>,
    after: Seq<MemoryAccess>,
)
    requires
        before.is_prefix_of(mid),
        mid.is_prefix_of(after),
    ensures
        before.is_prefix_of(after),
        since(after, before) == since(mid, before) + since(after, mid),
{
    assert(mid =~= after.subrange(0, mid.len() as int));
    assert(before =~= mid.subrange(0, before.len() as int));
    assert(before =~= after.subrange(0, before.len() as int));
    assert(since(after, before) =~= since(mid, before) + since(after, mid));
}

/// What was appended between two points of a history is a stretch of what
/// was appended since an earlier point.
pub proof fn lemma_stretch(
    before: Seq<MemoryAccess>,
    from: Seq<MemoryAccess>,
    to: Seq<MemoryAccess>,
    after: Seq<MemoryAccess>,
)
    requires
        before.is_prefix_of(from),
        from.is_prefix_of(to),
        to.is_prefix_of(after),
    ensures
        since(after, before).subrange(from.len() - before.len(), to.len() - before.len())
            == since(to, from),
        before.is_prefix_of(after),
{
    assert(to =~= after.subrange(0, to.len() as int));
    assert(from =~= to.subrange(0, from.len() as int));
    assert(before =~= from.subrange(0, before.len() as int));
    assert(before =~= after.subrange(0, before.len() as int));
    assert(since(after, before).subrange(from.len() - before.len(), to.len() - before.len())
        =~= since(to, from));
}

/// A wait that found its bit is a stretch of successes.
pub proof fn lemma_one_succeeded(access: MemoryAccess)
    requires
        access.failure() is None,
    ensures
        all_succeeded(seq![access], 0),
{
}

/// The accesses of `segment` from position `from` up to position `to`.
pub open spec fn stretch(segment: Seq<MemoryAccess>, from: int, to: int) -> Seq<MemoryAccess> {
    segment.subrange(from, to)
}

/// A stretch of successes that is followed by another is one stretch of
/// successes from the start.
pub proof fn lemma_chain(
    start: Seq<MemoryAccess>,
    mid: Seq<MemoryAccess>,
    log: Seq<MemoryAccess>,
)
    requires
        start.is_prefix_of(mid),
        mid.is_prefix_of(log),
        all_succeeded(since(mid, start), 0),
        all_succeeded(since(log, mid), 0),
    ensures
        start.is_prefix_of(log),
        all_succeeded(since(log, start), 0),
{
    lemma_since_add(start, mid, log);
    lemma_all_succeeded_add(since(mid, start), since(log, mid));
}

/// A stretch of successes that is followed by an operation that gave up
/// gave up as a whole.
pub proof fn lemma_chain_gave_up(
    start: Seq<MemoryAccess>,
    mid: Seq<MemoryAccess>,
    log: Seq<MemoryAccess>,
    error: Error,
)
    requires
        start.is_prefix_of(mid),
        mid.is_prefix_of(log),
        all_succeeded(since(mid, start), 0),
        gave_up(since(log, mid), error),
    ensures
        start.is_prefix_of(log),
        gave_up(since(log, start), error),
{
    lemma_since_add(start, mid, log);
    lemma_gave_up_later(since(mid, start), since(log, mid), error);
}

} // verus!
