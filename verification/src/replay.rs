//! Reader for `.mdlg` session logs.
//!
//! All fields are little-endian:
//!
//! ```text
//! header (16 bytes):
//!   magic         4 bytes  "MDLG"
//!   version       u32      1
//!   epoch_unix_ms u64      capture start
//!
//! record (until the end):
//!   ts_us         u64      microseconds since recorder start
//!   stream_id     u8       0 = ToF, 1 = digital twin
//!   size          u32      payload size
//!   payload       u8[size]
//! ```
//!
//! A ToF payload is a binary64 sender time, the number of rows and columns (a
//! byte each, 8 and 8), two reserved bytes, 64 binary32 ranges and 64 status
//! bytes. A twin payload is a binary64 sender time and 41 binary32 numbers.

use vstd::prelude::*;
use crate::bytes::{get32, get64, le32, le64, lemma_get32_le32, lemma_get64_le64, u32_at, u64_at};
use crate::double::Double;
use crate::single::Single;

verus! {

/// Version of the log format.
pub const LOG_VERSION: u32 = 1;

/// Stream of ToF frames.
pub const STREAM_TOF: u8 = 0;

/// Stream of digital-twin packets.
pub const STREAM_TWIN: u8 = 1;

/// Size of a digital-twin packet.
pub const TWIN_PACKET_SIZE: usize = 172;

/// Size of a ToF payload with 8 by 8 zones.
pub const TOF_PAYLOAD_SIZE: usize = 332;

/// One 8 by 8 ToF frame.
#[derive(Debug, Clone, Copy)]
pub struct TofRecord {
    /// Recorder time, microseconds since the session start.
    pub ts_us: u64,
    /// Sender time from the payload.
    pub sender_ts_s: Double,
    /// Slant range of each zone, metres; NaN means invalid.
    pub ranges_m: [[Single; 8]; 8],
    /// Target status of each zone; 5 and 6 are valid.
    pub status: [[u8; 8]; 8],
}

/// One digital-twin packet.
#[derive(Debug, Clone, Copy)]
pub struct TwinRecord {
    /// Recorder time, microseconds since the session start.
    pub ts_us: u64,
    /// Sender time from the packet.
    pub sender_ts_s: Double,
    /// IMU quaternion `[w, x, y, z]`, body to world.
    pub quat_wxyz: [Single; 4],
    /// Joint positions, runtime motor order.
    pub joints: [Single; 15],
    /// Motor currents, mA.
    pub motor_currents_ma: [Single; 15],
    pub odom_x: Single,
    pub odom_y: Single,
    /// Ball position; NaN where it was not detected.
    pub ball_xyz: [Single; 3],
    pub odom_z: Single,
    pub odom_yaw: Single,
}

/// What a log holds.
#[derive(Debug, Clone, Copy)]
pub enum Record {
    Tof(TofRecord),
    Twin(TwinRecord),
}

/// Why bytes are not a log, or not a record.
#[derive(Debug, Clone, Copy, PartialEq, Eq, Structural)]
pub enum ReplayError {
    /// The log ends inside its header or a record.
    UnexpectedEof,
    /// The log starts with other bytes than the magic.
    BadMagic,
    /// The log was written by another version of the format.
    UnsupportedVersion(u32),
    /// The record belongs to no known stream.
    UnknownStream(u8),
    /// The ToF payload ends inside its header.
    TofTooShort,
    /// The ToF frame has other than 8 by 8 zones.
    TofShape(u8, u8),
    /// The ToF payload of this length holds fewer zones than its header says.
    TofLength(usize),
    /// The twin packet has this size instead of its own.
    TwinLength(usize),
}

// ---- Layout -----------------------------------------------------------------

/// "MDLG".
pub open spec fn log_magic() -> Seq<u8> {
    seq![0x4du8, 0x44u8, 0x4cu8, 0x47u8]
}

/// What is wrong with the header of a log; `None` for a log.
pub open spec fn log_error(s: Seq<u8>) -> Option<ReplayError> {
    if s.len() < 4 {
        Some(ReplayError::UnexpectedEof)
    } else if s.take(4) != log_magic() {
        Some(ReplayError::BadMagic)
    } else if s.len() < 8 {
        Some(ReplayError::UnexpectedEof)
    } else if get32(s.skip(4)) != LOG_VERSION {
        Some(ReplayError::UnsupportedVersion(get32(s.skip(4))))
    } else if s.len() < 16 {
        Some(ReplayError::UnexpectedEof)
    } else {
        None
    }
}

/// The binary32 number at offset `at` of a payload.
pub open spec fn number(p: Seq<u8>, at: int) -> Single {
    Single { bits: get32(p.skip(at)) }
}

/// What is wrong with a ToF payload; `None` if it is one.
pub open spec fn tof_error(p: Seq<u8>) -> Option<ReplayError> {
    if p.len() < 12 {
        Some(ReplayError::TofTooShort)
    } else if p[8] != 8 || p[9] != 8 {
        Some(ReplayError::TofShape(p[8], p[9]))
    } else if p.len() < TOF_PAYLOAD_SIZE {
        Some(ReplayError::TofLength(p.len() as usize))
    } else {
        None
    }
}

/// `t` is the frame that payload `p` holds.
pub open spec fn is_tof(t: TofRecord, ts_us: u64, p: Seq<u8>) -> bool {
    &&& t.ts_us == ts_us
    &&& t.sender_ts_s.bits == get64(p)
    &&& forall|r: int, c: int|
        0 <= r < 8 && 0 <= c < 8 ==> #[trigger] t.ranges_m@[r]@[c] == number(
            p,
            12 + 4 * (8 * r + c),
        )
    &&& forall|r: int, c: int|
        0 <= r < 8 && 0 <= c < 8 ==> #[trigger] t.status@[r]@[c] == p[268 + 8 * r + c]
}

/// `t` is the packet that payload `p` holds.
pub open spec fn is_twin(t: TwinRecord, ts_us: u64, p: Seq<u8>) -> bool {
    &&& t.ts_us == ts_us
    &&& t.sender_ts_s.bits == get64(p)
    &&& forall|k: int| 0 <= k < 4 ==> #[trigger] t.quat_wxyz@[k] == number(p, 8 + 4 * k)
    &&& forall|k: int| 0 <= k < 15 ==> #[trigger] t.joints@[k] == number(p, 24 + 4 * k)
    &&& forall|k: int| 0 <= k < 15 ==> #[trigger] t.motor_currents_ma@[k] == number(p, 84 + 4 * k)
    &&& t.odom_x == number(p, 144)
    &&& t.odom_y == number(p, 148)
    &&& forall|k: int| 0 <= k < 3 ==> #[trigger] t.ball_xyz@[k] == number(p, 152 + 4 * k)
    &&& t.odom_z == number(p, 164)
    &&& t.odom_yaw == number(p, 168)
}

/// The record at the front of `s` is there whole.
pub open spec fn record_whole(s: Seq<u8>) -> bool {
    s.len() >= 13 && s.len() >= 13 + get32(s.skip(9))
}

/// The payload of the record at the front of `s`.
pub open spec fn record_payload(s: Seq<u8>) -> Seq<u8> {
    s.subrange(13, 13 + get32(s.skip(9)))
}

/// What follows the record at the front of `s`; nothing where it is not whole.
pub open spec fn after_record(s: Seq<u8>) -> Seq<u8> {
    if record_whole(s) {
        s.skip(13 + get32(s.skip(9)))
    } else {
        Seq::empty()
    }
}

/// What is wrong with the record at the front of `s`, which holds at least its
/// time; `None` for a record.
pub open spec fn record_error(s: Seq<u8>) -> Option<ReplayError> {
    if !record_whole(s) {
        Some(ReplayError::UnexpectedEof)
    } else if s[8] == STREAM_TOF {
        tof_error(record_payload(s))
    } else if s[8] == STREAM_TWIN {
        if record_payload(s).len() != TWIN_PACKET_SIZE {
            Some(ReplayError::TwinLength(record_payload(s).len() as usize))
        } else {
            None
        }
    } else {
        Some(ReplayError::UnknownStream(s[8]))
    }
}

/// `rec` is the record at the front of `s`.
pub open spec fn is_record(rec: Record, s: Seq<u8>) -> bool {
    match rec {
        Record::Tof(t) => s[8] == STREAM_TOF && is_tof(t, get64(s), record_payload(s)),
        Record::Twin(t) => s[8] == STREAM_TWIN && is_twin(t, get64(s), record_payload(s)),
    }
}

/// A record as it stands in a log.
pub open spec fn record_bytes(ts_us: u64, stream: u8, payload: Seq<u8>) -> Seq<u8> {
    le64(ts_us) + seq![stream] + le32(payload.len() as u32) + payload
}

// ---- Decoding ---------------------------------------------------------------

impl Record {
    /// Recorder time of the record.
    pub fn ts_us(&self) -> (r: u64)
        ensures
            r == match *self {
                Record::Tof(t) => t.ts_us,
                Record::Twin(t) => t.ts_us,
            },
    {
        match self {
            Record::Tof(t) => t.ts_us,
            Record::Twin(t) => t.ts_us,
        }
    }
}

/// The binary32 number at offset `at`.
fn number_at(p: &[u8], at: usize) -> (r: Single)
    requires
        at + 4 <= p@.len(),
    ensures
        r == number(p@, at as int),
{
    Single { bits: u32_at(p, at) }
}

/// Eight numbers in a row.
fn eight_numbers(p: &[u8], at: usize) -> (r: [Single; 8])
    requires
        at + 32 <= p@.len(),
    ensures
        forall|c: int| 0 <= c < 8 ==> #[trigger] r@[c] == number(p@, at + 4 * c),
{
    assert(at + 32 <= p.len());
    [
        number_at(p, at),
        number_at(p, at + 4),
        number_at(p, at + 8),
        number_at(p, at + 12),
        number_at(p, at + 16),
        number_at(p, at + 20),
        number_at(p, at + 24),
        number_at(p, at + 28),
    ]
}

/// Fifteen numbers in a row.
fn fifteen_numbers(p: &[u8], at: usize) -> (r: [Single; 15])
    requires
        at + 60 <= p@.len(),
    ensures
        forall|c: int| 0 <= c < 15 ==> #[trigger] r@[c] == number(p@, at + 4 * c),
{
    assert(at + 60 <= p.len());
    [
        number_at(p, at),
        number_at(p, at + 4),
        number_at(p, at + 8),
        number_at(p, at + 12),
        number_at(p, at + 16),
        number_at(p, at + 20),
        number_at(p, at + 24),
        number_at(p, at + 28),
        number_at(p, at + 32),
        number_at(p, at + 36),
        number_at(p, at + 40),
        number_at(p, at + 44),
        number_at(p, at + 48),
        number_at(p, at + 52),
        number_at(p, at + 56),
    ]
}

/// Eight bytes in a row.
fn eight_bytes(p: &[u8], at: usize) -> (r: [u8; 8])
    requires
        at + 8 <= p@.len(),
    ensures
        forall|c: int| 0 <= c < 8 ==> #[trigger] r@[c] == p@[at + c],
{
    assert(at + 8 <= p.len());
    [p[at], p[at + 1], p[at + 2], p[at + 3], p[at + 4], p[at + 5], p[at + 6], p[at + 7]]
}

/// The frame that a ToF payload holds.
pub fn decode_tof(ts_us: u64, payload: &[u8]) -> (r: Result<TofRecord, ReplayError>)
    ensures
        match r {
            Err(e) => tof_error(payload@) == Some(e),
            Ok(t) => tof_error(payload@) is None && is_tof(t, ts_us, payload@),
        },
{
    if payload.len() < 12 {
        return Err(ReplayError::TofTooShort);
    }
    let rows: u8 = payload[8];
    let cols: u8 = payload[9];
    if rows != 8 || cols != 8 {
        return Err(ReplayError::TofShape(rows, cols));
    }
    if payload.len() < TOF_PAYLOAD_SIZE {
        return Err(ReplayError::TofLength(payload.len()));
    }
    assert(payload@.skip(0) =~= payload@);
    let sender_ts_s = Double { bits: u64_at(payload, 0) };
    let ranges_m = [
        eight_numbers(payload, 12),
        eight_numbers(payload, 44),
        eight_numbers(payload, 76),
        eight_numbers(payload, 108),
        eight_numbers(payload, 140),
        eight_numbers(payload, 172),
        eight_numbers(payload, 204),
        eight_numbers(payload, 236),
    ];
    let status = [
        eight_bytes(payload, 268),
        eight_bytes(payload, 276),
        eight_bytes(payload, 284),
        eight_bytes(payload, 292),
        eight_bytes(payload, 300),
        eight_bytes(payload, 308),
        eight_bytes(payload, 316),
        eight_bytes(payload, 324),
    ];
    Ok(TofRecord { ts_us, sender_ts_s, ranges_m, status })
}

/// The packet that a twin payload holds.
pub fn decode_twin(ts_us: u64, payload: &[u8]) -> (r: Result<TwinRecord, ReplayError>)
    ensures
        match r {
            Err(e) => payload@.len() != TWIN_PACKET_SIZE && e == ReplayError::TwinLength(
                payload@.len() as usize,
            ),
            Ok(t) => payload@.len() == TWIN_PACKET_SIZE && is_twin(t, ts_us, payload@),
        },
{
    if payload.len() != TWIN_PACKET_SIZE {
        return Err(ReplayError::TwinLength(payload.len()));
    }
    assert(payload@.skip(0) =~= payload@);
    Ok(
        TwinRecord {
            ts_us,
            sender_ts_s: Double { bits: u64_at(payload, 0) },
            quat_wxyz: [
                number_at(payload, 8),
                number_at(payload, 12),
                number_at(payload, 16),
                number_at(payload, 20),
            ],
            joints: fifteen_numbers(payload, 24),
            motor_currents_ma: fifteen_numbers(payload, 84),
            odom_x: number_at(payload, 144),
            odom_y: number_at(payload, 148),
            ball_xyz: [
                number_at(payload, 152),
                number_at(payload, 156),
                number_at(payload, 160),
            ],
            odom_z: number_at(payload, 164),
            odom_yaw: number_at(payload, 168),
        },
    )
}

/// Steps through the records of a log.
pub struct SessionReplayer {
    log: Vec<u8>,
    pos: usize,
    epoch_unix_ms: u64,
}

impl SessionReplayer {
    /// The part of the log that was not read yet.
    pub closed spec fn rest(&self) -> Seq<u8> {
        self.log@.skip(self.pos as int)
    }

    /// Capture start, milliseconds since the Unix epoch.
    pub closed spec fn epoch(&self) -> u64 {
        self.epoch_unix_ms
    }

    /// The position lies in the log.
    pub closed spec fn wf(&self) -> bool {
        self.pos <= self.log@.len()
    }

    /// Reads the header of a log.
    pub fn open(log: Vec<u8>) -> (r: Result<Self, ReplayError>)
        ensures
            match r {
                Err(e) => log_error(log@) == Some(e),
                Ok(p) => {
                    &&& log_error(log@) is None
                    &&& p.wf()
                    &&& p.epoch() == get64(log@.skip(8))
                    &&& p.rest() == log@.skip(16)
                },
            },
    {
        let n = log.len();
        if n < 4 {
            return Err(ReplayError::UnexpectedEof);
        }
        if log[0] != 0x4d || log[1] != 0x44 || log[2] != 0x4c || log[3] != 0x47 {
            proof {
                if log@.take(4) == log_magic() {
                    assert(log@.take(4)[0] == log@[0] && log@.take(4)[1] == log@[1] && log@.take(
                        4,
                    )[2] == log@[2] && log@.take(4)[3] == log@[3]);
                }
            }
            return Err(ReplayError::BadMagic);
        }
        assert(log@.take(4) =~= log_magic());
        if n < 8 {
            return Err(ReplayError::UnexpectedEof);
        }
        let version: u32 = u32_at(log.as_slice(), 4);
        if version != LOG_VERSION {
            return Err(ReplayError::UnsupportedVersion(version));
        }
        if n < 16 {
            return Err(ReplayError::UnexpectedEof);
        }
        let epoch_unix_ms: u64 = u64_at(log.as_slice(), 8);
        Ok(SessionReplayer { log, pos: 16, epoch_unix_ms })
    }

    /// Capture start, milliseconds since the Unix epoch.
    pub fn epoch_unix_ms(&self) -> (r: u64)
        ensures
            r == self.epoch(),
    {
        self.epoch_unix_ms
    }

    /// The next record; `None` at the end of the log. A log that ends inside a
    /// record's time ends there.
    pub fn next(&mut self) -> (r: Option<Result<Record, ReplayError>>)
        requires
            old(self).wf(),
        ensures
            final(self).wf(),
            final(self).epoch() == old(self).epoch(),
            final(self).rest() == after_record(old(self).rest()),
            match r {
                None => old(self).rest().len() < 8,
                Some(Err(e)) => old(self).rest().len() >= 8 && record_error(old(self).rest())
                    == Some(e),
                Some(Ok(rec)) => {
                    &&& record_error(old(self).rest()) is None
                    &&& is_record(rec, old(self).rest())
                },
            },
    {
        let ghost s = self.rest();
        let all = self.log.as_slice();
        let n = all.len();
        let at = self.pos;
        let left: usize = n - at;
        if left < 8 {
            self.pos = n;
            assert(self.rest() =~= after_record(s));
            return None;
        }
        let ts_us: u64 = u64_at(all, at);
        if left < 13 {
            self.pos = n;
            assert(self.rest() =~= after_record(s));
            return Some(Err(ReplayError::UnexpectedEof));
        }
        let stream: u8 = all[at + 8];
        let size: u32 = u32_at(all, at + 9);
        assert(all@.skip(at + 9) =~= s.skip(9));
        if left - 13 < size as usize {
            self.pos = n;
            assert(self.rest() =~= after_record(s));
            return Some(Err(ReplayError::UnexpectedEof));
        }
        let end: usize = at + 13 + size as usize;
        let payload = vstd::slice::slice_subrange(all, at + 13, end);
        assert(payload@ =~= record_payload(s));
        let r = if stream == STREAM_TOF {
            match decode_tof(ts_us, payload) {
                Ok(t) => Ok(Record::Tof(t)),
                Err(e) => Err(e),
            }
        } else if stream == STREAM_TWIN {
            match decode_twin(ts_us, payload) {
                Ok(t) => Ok(Record::Twin(t)),
                Err(e) => Err(e),
            }
        } else {
            Err(ReplayError::UnknownStream(stream))
        };
        self.pos = end;
        assert(self.rest() =~= after_record(s));
        Some(r)
    }
}

// ---- Laws -------------------------------------------------------------------

/// Every record takes something off the log, so a log has finitely many.
pub proof fn law_replay_progress(s: Seq<u8>)
    requires
        s.len() >= 8,
    ensures
        after_record(s).len() < s.len(),
{
}

/// Past the end of a log there is nothing more.
pub proof fn law_replay_stays_ended(s: Seq<u8>)
    requires
        s.len() < 8,
    ensures
        after_record(s).len() < 8,
{
}

/// A record that was written is found whole, with its time, stream and payload,
/// and reading goes on right behind it.
pub proof fn law_record_framing(ts_us: u64, stream: u8, payload: Seq<u8>, rest: Seq<u8>)
    requires
        payload.len() <= u32::MAX,
    ensures
        ({
            let s = record_bytes(ts_us, stream, payload) + rest;
            &&& record_whole(s)
            &&& get64(s) == ts_us
            &&& s[8] == stream
            &&& record_payload(s) == payload
            &&& after_record(s) == rest
        }),
{
    let n = payload.len() as u32;
    let s = record_bytes(ts_us, stream, payload) + rest;
    assert(s =~= le64(ts_us) + (seq![stream] + le32(n) + payload + rest));
    lemma_get64_le64(ts_us, seq![stream] + le32(n) + payload + rest);
    assert(s.skip(9) =~= le32(n) + (payload + rest));
    lemma_get32_le32(n, payload + rest);
    assert(record_payload(s) =~= payload);
    assert(after_record(s) =~= rest);
}

/// A record of an unknown stream is an error, whatever it carries.
pub proof fn law_unknown_stream_refused(ts_us: u64, stream: u8, payload: Seq<u8>, rest: Seq<u8>)
    requires
        payload.len() <= u32::MAX,
        stream != STREAM_TOF && stream != STREAM_TWIN,
    ensures
        record_error(record_bytes(ts_us, stream, payload) + rest) == Some(
            ReplayError::UnknownStream(stream),
        ),
{
    law_record_framing(ts_us, stream, payload, rest);
}

} // verus!
