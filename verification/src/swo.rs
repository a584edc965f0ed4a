//! CMSIS-DAP commands that configure and read the serial wire output.
//!
//! Every request writes its payload into a caller-provided buffer and every
//! response is decoded from one; multi-byte fields are little-endian.

use crate::endian::{
    le_bytes_u16, le_bytes_u32, le_u16, le_u32, overwritten, pread_u16_le, pread_u32_le,
    pwrite_u16_le, pwrite_u32_le,
};
use vstd::prelude::*;

verus! {

/// The command byte that introduces a CMSIS-DAP request.
#[derive(Debug, Clone, Copy, PartialEq, Eq, Structural)]
pub struct Category(pub u8);

/// What can go wrong when a CMSIS-DAP response is decoded.
#[derive(Debug, Clone, Copy, PartialEq, Eq, Structural)]
pub enum CmsisDapError {
    /// The status byte of a response is neither "ok" nor "error".
    UnexpectedAnswer,
    /// A response announces more payload than the buffer holds.
    ShortRead,
}

/// The status byte that most CMSIS-DAP responses consist of.
#[derive(Debug, Clone, Copy, PartialEq, Eq, Structural)]
pub enum Status {
    DAPOk,
    DAPError,
}

impl Status {
    /// The status that a response byte stands for, if it stands for one.
    pub open spec fn decode(value: u8) -> Result<Status, CmsisDapError> {
        if value == 0x00 {
            Ok(Status::DAPOk)
        } else if value == 0xFF {
            Ok(Status::DAPError)
        } else {
            Err(CmsisDapError::UnexpectedAnswer)
        }
    }

    /// Reads a status from the byte of a response.
    pub fn from_byte(value: u8) -> (r: Result<Status, CmsisDapError>)
        ensures
            r == Self::decode(value),
    {
        match value {
            0x00 => Ok(Status::DAPOk),
            0xFF => Ok(Status::DAPError),
            _ => Err(CmsisDapError::UnexpectedAnswer),
        }
    }
}

/// Selects the transport over which trace data leaves the probe.
#[derive(Debug, Clone, Copy, PartialEq, Eq, Structural)]
pub enum Transport {
    NoTransport,
    TransportDataViaSWO,
    TransportDataViaWinUSB,
}

impl Transport {
    /// The byte that stands for the value in a request.
    pub open spec fn code(self) -> u8 {
        match self {
            Transport::NoTransport => 0,
            Transport::TransportDataViaSWO => 1,
            Transport::TransportDataViaWinUSB => 2,
        }
    }

    /// The command byte of the request.
    pub fn category() -> (c: Category)
        ensures
            c == Category(0x17),
    {
        Category(0x17)
    }

    /// Writes the one-byte payload at `offset` and returns its length.
    pub fn to_bytes(&self, buffer: &mut [u8], offset: usize) -> (r: Result<usize, CmsisDapError>)
        requires
            offset < old(buffer)@.len(),
        ensures
            r == Ok::<usize, CmsisDapError>(1),
            final(buffer)@ == old(buffer)@.update(offset as int, self.code()),
    {
        let code: u8 = match self {
            Transport::NoTransport => 0,
            Transport::TransportDataViaSWO => 1,
            Transport::TransportDataViaWinUSB => 2,
        };
        buffer[offset] = code;
        Ok(1)
    }
}

/// The probe's answer to a [`Transport`] request.
#[derive(Debug, Clone, Copy, PartialEq, Eq, Structural)]
pub struct TransportResponse(pub Status);

impl TransportResponse {
    /// Reads the response from its status byte at `offset`.
    pub fn from_bytes(buffer: &[u8], offset: usize) -> (r: Result<Self, CmsisDapError>)
        requires
            offset < buffer@.len(),
        ensures
            r == match Status::decode(buffer@[offset as int]) {
                Ok(status) => Ok(TransportResponse(status)),
                Err(e) => Err(e),
            },
    {
        Ok(TransportResponse(Status::from_byte(buffer[offset])?))
    }
}

/// Selects how the trace pin is sampled.
#[derive(Debug, Clone, Copy, PartialEq, Eq, Structural)]
pub enum Mode {
    Off,
    UART,
    Manchester,
}

impl Mode {
    /// The byte that stands for the value in a request.
    pub open spec fn code(self) -> u8 {
        match self {
            Mode::Off => 0,
            Mode::UART => 1,
            Mode::Manchester => 2,
        }
    }

    /// The command byte of the request.
    pub fn category() -> (c: Category)
        ensures
            c == Category(0x18),
    {
        Category(0x18)
    }

    /// Writes the one-byte payload at `offset` and returns its length.
    pub fn to_bytes(&self, buffer: &mut [u8], offset: usize) -> (r: Result<usize, CmsisDapError>)
        requires
            offset < old(buffer)@.len(),
        ensures
            r == Ok::<usize, CmsisDapError>(1),
            final(buffer)@ == old(buffer)@.update(offset as int, self.code()),
    {
        let code: u8 = match self {
            Mode::Off => 0,
            Mode::UART => 1,
            Mode::Manchester => 2,
        };
        buffer[offset] = code;
        Ok(1)
    }
}

/// The probe's answer to a [`Mode`] request.
#[derive(Debug, Clone, Copy, PartialEq, Eq, Structural)]
pub struct ModeResponse(pub Status);

impl ModeResponse {
    /// Reads the response from its status byte at `offset`.
    pub fn from_bytes(buffer: &[u8], offset: usize) -> (r: Result<Self, CmsisDapError>)
        requires
            offset < buffer@.len(),
        ensures
            r == match Status::decode(buffer@[offset as int]) {
                Ok(status) => Ok(ModeResponse(status)),
                Err(e) => Err(e),
            },
    {
        Ok(ModeResponse(Status::from_byte(buffer[offset])?))
    }
}

/// The trace baud rate, both as requested and as the probe reports it back.
#[derive(Debug, Clone, Copy, PartialEq, Eq, Structural)]
pub struct BaudRate(pub u32);

impl BaudRate {
    /// The command byte of the request.
    pub fn category() -> (c: Category)
        ensures
            c == Category(0x19),
    {
        Category(0x19)
    }

    /// Writes the rate as four little-endian bytes at `offset`.
    pub fn to_bytes(&self, buffer: &mut [u8], offset: usize) -> (r: Result<usize, CmsisDapError>)
        requires
            offset + 4 <= old(buffer)@.len(),
        ensures
            r == Ok::<usize, CmsisDapError>(4),
            final(buffer)@ == overwritten(old(buffer)@, offset as int, le_bytes_u32(self.0)),
    {
        let _ = pwrite_u32_le(buffer, self.0, offset);
        Ok(4)
    }

    /// Reads the rate from four little-endian bytes at `offset`.
    pub fn from_bytes(buffer: &[u8], offset: usize) -> (r: Result<Self, CmsisDapError>)
        requires
            offset + 4 <= buffer@.len(),
        ensures
            r == Ok::<Self, CmsisDapError>(BaudRate(le_u32(buffer@, offset as int) as u32)),
    {
        match pread_u32_le(buffer, offset) {
            Some(res) => Ok(BaudRate(res)),
            None => Err(CmsisDapError::ShortRead),
        }
    }
}

/// Starts or stops the capture of trace data.
#[derive(Debug, Clone, Copy, PartialEq, Eq, Structural)]
pub enum Control {
    Stop,
    Start,
}

impl Control {
    /// The byte that stands for the value in a request.
    pub open spec fn code(self) -> u8 {
        match self {
            Control::Stop => 0,
            Control::Start => 1,
        }
    }

    /// The command byte of the request.
    pub fn category() -> (c: Category)
        ensures
            c == Category(0x1a),
    {
        Category(0x1a)
    }

    /// Writes the one-byte payload at `offset` and returns its length.
    pub fn to_bytes(&self, buffer: &mut [u8], offset: usize) -> (r: Result<usize, CmsisDapError>)
        requires
            offset < old(buffer)@.len(),
        ensures
            r == Ok::<usize, CmsisDapError>(1),
            final(buffer)@ == old(buffer)@.update(offset as int, self.code()),
    {
        let code: u8 = match self {
            Control::Stop => 0,
            Control::Start => 1,
        };
        buffer[offset] = code;
        Ok(1)
    }
}

/// The probe's answer to a [`Control`] request.
#[derive(Debug, Clone, Copy, PartialEq, Eq, Structural)]
pub struct ControlResponse(pub Status);

impl ControlResponse {
    /// Reads the response from its status byte at `offset`.
    pub fn from_bytes(buffer: &[u8], offset: usize) -> (r: Result<Self, CmsisDapError>)
        requires
            offset < buffer@.len(),
        ensures
            r == match Status::decode(buffer@[offset as int]) {
                Ok(status) => Ok(ControlResponse(status)),
                Err(e) => Err(e),
            },
    {
        Ok(ControlResponse(Status::from_byte(buffer[offset])?))
    }
}

/// Asks for the trace status; the request has no payload.
#[derive(Debug, Clone, Copy, PartialEq, Eq, Structural)]
pub struct StatusRequest;

impl StatusRequest {
    /// The command byte of the request.
    pub fn category() -> (c: Category)
        ensures
            c == Category(0x1b),
    {
        Category(0x1b)
    }

    /// Writes nothing and returns the payload length 0.
    pub fn to_bytes(&self, buffer: &mut [u8], offset: usize) -> (r: Result<usize, CmsisDapError>)
        ensures
            r == Ok::<usize, CmsisDapError>(0),
            final(buffer)@ == old(buffer)@,
    {
        Ok(0)
    }
}

/// The flags of a trace status byte: bit 0 is `active`, bit 6 `error` and
/// bit 7 `overrun`.
#[derive(Debug, Clone, Copy, PartialEq, Eq, Structural)]
pub struct TraceStatus {
    pub active: bool,
    pub error: bool,
    pub overrun: bool,
}

impl TraceStatus {
    /// The flags that a status byte holds.
    pub open spec fn decode(value: u8) -> TraceStatus {
        TraceStatus {
            active: value & (1u8 << 0) != 0,
            error: value & (1u8 << 6) != 0,
            overrun: value & (1u8 << 7) != 0,
        }
    }
}

impl From<u8> for TraceStatus {
    fn from(value: u8) -> (status: Self) {
        Self {
            active: value & (1u8 << 0) != 0,
            error: value & (1u8 << 6) != 0,
            overrun: value & (1u8 << 7) != 0,
        }
    }
}

impl vstd::std_specs::convert::FromSpecImpl<u8> for TraceStatus {
    open spec fn obeys_from_spec() -> bool {
        true
    }

    open spec fn from_spec(value: u8) -> Self {
        TraceStatus::decode(value)
    }
}

/// The probe's answer to a [`StatusRequest`]: the flags and the number of
/// trace bytes that wait in its buffer.
#[derive(Debug, Clone, Copy, PartialEq, Eq, Structural)]
pub struct StatusResponse {
    pub status: TraceStatus,
    pub count: u32,
}

impl StatusResponse {
    /// Reads the status byte at `offset` and the little-endian count behind it.
    pub fn from_bytes(buffer: &[u8], offset: usize) -> (r: Result<Self, CmsisDapError>)
        requires
            offset + 5 <= buffer@.len(),
        ensures
            r == Ok::<Self, CmsisDapError>(
                StatusResponse {
                    status: TraceStatus::decode(buffer@[offset as int]),
                    count: le_u32(buffer@, offset + 1) as u32,
                },
            ),
    {
        let status = TraceStatus::from(buffer[offset]);
        match pread_u32_le(buffer, offset + 1) {
            Some(count) => Ok(StatusResponse { status, count }),
            None => Err(CmsisDapError::ShortRead),
        }
    }
}

/// Asks for up to the given number of trace bytes; only the low 16 bits of
/// the number go on the wire.
#[derive(Debug, Clone, Copy, PartialEq, Eq, Structural)]
pub struct DataRequest(pub u32);

impl DataRequest {
    /// The command byte of the request.
    pub fn category() -> (c: Category)
        ensures
            c == Category(0x1c),
    {
        Category(0x1c)
    }

    /// Writes the low 16 bits of the size as two little-endian bytes.
    pub fn to_bytes(&self, buffer: &mut [u8], offset: usize) -> (r: Result<usize, CmsisDapError>)
        requires
            offset + 2 <= old(buffer)@.len(),
        ensures
            r == Ok::<usize, CmsisDapError>(2),
            final(buffer)@ == overwritten(
                old(buffer)@,
                offset as int,
                le_bytes_u16((self.0 % 0x1_0000) as u16),
            ),
    {
        let size: u16 = (self.0 % 0x1_0000) as u16;
        let _ = pwrite_u16_le(buffer, size, offset);
        Ok(2)
    }
}

/// The probe's answer to a [`DataRequest`]: the flags and the trace bytes.
#[derive(Debug)]
pub struct DataResponse {
    pub status: TraceStatus,
    pub data: Vec<u8>,
}

impl DataResponse {
    /// The number of trace bytes that the response at `offset` announces.
    pub open spec fn announced(buffer: Seq<u8>, offset: int) -> int {
        le_u16(buffer, offset + 1)
    }

    /// Reads the status byte at `offset`, the little-endian byte count behind
    /// it, and that many bytes of trace data. A count that reaches past the
    /// end of the buffer is a short read.
    pub fn from_bytes(buffer: &[u8], offset: usize) -> (r: Result<Self, CmsisDapError>)
        requires
            offset + 3 <= buffer@.len(),
        ensures
            offset + 3 + Self::announced(buffer@, offset as int) > buffer@.len() ==> r == Err::<
                Self,
                CmsisDapError,
            >(CmsisDapError::ShortRead),
            offset + 3 + Self::announced(buffer@, offset as int) <= buffer@.len() ==> {
                &&& r is Ok
                &&& r->Ok_0.status == TraceStatus::decode(buffer@[offset as int])
                &&& r->Ok_0.data@ == buffer@.subrange(
                    offset + 3,
                    offset + 3 + Self::announced(buffer@, offset as int),
                )
            },
    {
        let status = TraceStatus::from(buffer[offset]);
        let count: u16 = match pread_u16_le(buffer, offset + 1) {
            Some(count) => count,
            None => {
                return Err(CmsisDapError::ShortRead);
            },
        };
        let start: usize = offset + 3;
        if count as usize > buffer.len() - start {
            Err(CmsisDapError::ShortRead)
        } else {
            let end: usize = start + count as usize;
            let data = vstd::slice::slice_to_vec(vstd::slice::slice_subrange(buffer, start, end));
            Ok(DataResponse { status, data })
        }
    }
}

} // verus!
