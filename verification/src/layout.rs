//! Where the fields of messages and maps stand, byte by byte.
//!
//! Other programs read these formats: a field keeps its offset, its size and
//! its byte order.

use vstd::prelude::*;
use crate::bytes::{get32, get64, le32, le64, le_i16};
use crate::grid::GridConfig;
use crate::map_format::{cell_bytes, map_bytes};
use crate::replay::{is_tof, is_twin, TofRecord, TwinRecord};
use crate::single::Single;
use crate::wire::{coordinates, message_body, message_frame, message_tag, singles_bytes, Goal, LockState, MessageView, Pose};

verus! {

/// The number in four bytes, the lowest byte first.
pub open spec fn word_at(s: Seq<u8>, at: int) -> int {
    s[at] + 256 * s[at + 1] + 65_536 * s[at + 2] + 16_777_216 * s[at + 3]
}

/// Four bytes of a word inside other bytes.
proof fn lemma_word(s: Seq<u8>, at: int, v: u32)
    requires
        s[at] == le32(v)[0],
        s[at + 1] == le32(v)[1],
        s[at + 2] == le32(v)[2],
        s[at + 3] == le32(v)[3],
    ensures
        word_at(s, at) == v,
{
}

/// A number in a run of numbers.
proof fn lemma_run(s: Seq<u8>, at: int, run: Seq<Single>, k: int)
    requires
        0 <= k < run.len(),
        forall|t: int| 0 <= t < 4 * run.len() ==> s[at + t] == #[trigger] singles_bytes(run)[t],
    ensures
        word_at(s, at + 4 * k) == run[k].bits,
{
    reveal(singles_bytes);
    let b = singles_bytes(run);
    assert((4 * k) / 4 == k && (4 * k) % 4 == 0);
    assert((4 * k + 1) / 4 == k && (4 * k + 1) % 4 == 1);
    assert((4 * k + 2) / 4 == k && (4 * k + 2) % 4 == 2);
    assert((4 * k + 3) / 4 == k && (4 * k + 3) % 4 == 3);
    assert(s[at + (4 * k)] == b[4 * k]);
    assert(s[at + (4 * k + 1)] == b[4 * k + 1]);
    assert(s[at + (4 * k + 2)] == b[4 * k + 2]);
    assert(s[at + (4 * k + 3)] == b[4 * k + 3]);
    lemma_word(s, at + 4 * k, run[k].bits);
}

/// A frame is its length in four bytes, one byte of tag and the payload; the
/// length counts the tag and the payload.
pub proof fn law_frame_layout(m: MessageView)
    requires
        message_body(m).len() + 1 < 0x1_0000_0000,
    ensures
        ({
            let s = message_frame(m);
            &&& s.len() == 5 + message_body(m).len()
            &&& word_at(s, 0) == message_body(m).len() + 1
            &&& s.skip(5) == message_body(m)
            &&& s[4] == (match m {
                MessageView::Hello(_) => 1u8,
                MessageView::Pose(_) => 2u8,
                MessageView::MapBlob(_) => 3u8,
                MessageView::Path(_) => 4u8,
                MessageView::Scan(..) => 5u8,
                MessageView::Goal(_) => 128u8,
            })
        }),
{
    let (s, b) = (message_frame(m), message_body(m));
    let n = (b.len() + 1) as u32;
    assert(s =~= le32(n) + seq![message_tag(m)] + b);
    lemma_word(s, 0, n);
    assert(s.skip(5) =~= b);
}

/// A pose: x, y, yaw, the spread and the residual in four bytes each, one byte
/// of lock, which is one when the pose is trusted, and eight bytes of time.
pub proof fn law_pose_layout(p: Pose)
    ensures
        ({
            let s = message_body(MessageView::Pose(p));
            &&& s.len() == 29
            &&& word_at(s, 0) == p.x.bits
            &&& word_at(s, 4) == p.y.bits
            &&& word_at(s, 8) == p.yaw.bits
            &&& word_at(s, 12) == p.std_xy.bits
            &&& word_at(s, 16) == p.residual_m.bits
            &&& s[20] == (if p.lock == LockState::Tracking {
                1u8
            } else {
                0u8
            })
            &&& word_at(s, 21) + 0x1_0000_0000 * word_at(s, 25) == p.timestamp_ms
        }),
{
    let s = message_body(MessageView::Pose(p));
    lemma_word(s, 0, p.x.bits);
    lemma_word(s, 4, p.y.bits);
    lemma_word(s, 8, p.yaw.bits);
    lemma_word(s, 12, p.std_xy.bits);
    lemma_word(s, 16, p.residual_m.bits);
    let (lo, hi) = (
        (p.timestamp_ms % 0x1_0000_0000) as u32,
        (p.timestamp_ms / 0x1_0000_0000) as u32,
    );
    assert(le64(p.timestamp_ms) =~= le32(lo) + le32(hi));
    lemma_word(s, 21, lo);
    lemma_word(s, 25, hi);
}

/// A goal: x and then y. A greeting: the version.
pub proof fn law_goal_layout(g: Goal, version: u32)
    ensures
        ({
            let s = message_body(MessageView::Goal(g));
            &&& s.len() == 8
            &&& word_at(s, 0) == g.x.bits
            &&& word_at(s, 4) == g.y.bits
        }),
        message_body(MessageView::Hello(version)).len() == 4,
        word_at(message_body(MessageView::Hello(version)), 0) == version,
{
    let s = message_body(MessageView::Goal(g));
    lemma_word(s, 0, g.x.bits);
    lemma_word(s, 4, g.y.bits);
    lemma_word(message_body(MessageView::Hello(version)), 0, version);
}

/// A path: the number of waypoints, then x and y of each in turn.
pub proof fn law_path_layout(p: Seq<(Single, Single)>, k: int)
    requires
        0 <= k < p.len() < 0x1_0000_0000,
    ensures
        ({
            let s = message_body(MessageView::Path(p));
            &&& s.len() == 4 + 8 * p.len()
            &&& word_at(s, 0) == p.len()
            &&& word_at(s, 4 + 8 * k) == p[k].0.bits
            &&& word_at(s, 8 + 8 * k) == p[k].1.bits
        }),
{
    let s = message_body(MessageView::Path(p));
    let c = coordinates(p);
    assert(singles_bytes(c).len() == 4 * c.len()) by {
        reveal(singles_bytes);
    }
    lemma_word(s, 0, p.len() as u32);
    assert((2 * k) / 2 == k && (2 * k) % 2 == 0 && (2 * k + 1) / 2 == k && (2 * k + 1) % 2 == 1);
    lemma_run(s, 4, c, 2 * k);
    lemma_run(s, 4, c, 2 * k + 1);
}

/// A scan: the number of beams, where the sensor was, all angles and then all
/// ranges.
pub proof fn law_scan_layout(a: Seq<Single>, r: Seq<Single>, o: (Single, Single), k: int)
    requires
        a.len() == r.len(),
        0 <= k < a.len() < 0x1_0000_0000,
    ensures
        ({
            let s = message_body(MessageView::Scan(a, r, o));
            &&& s.len() == 12 + 8 * a.len()
            &&& word_at(s, 0) == a.len()
            &&& word_at(s, 4) == o.0.bits
            &&& word_at(s, 8) == o.1.bits
            &&& word_at(s, 12 + 4 * k) == a[k].bits
            &&& word_at(s, 12 + 4 * a.len() + 4 * k) == r[k].bits
        }),
{
    let s = message_body(MessageView::Scan(a, r, o));
    assert(singles_bytes(a).len() == 4 * a.len() && singles_bytes(r).len() == 4 * r.len()) by {
        reveal(singles_bytes);
    }
    lemma_word(s, 0, a.len() as u32);
    lemma_word(s, 4, o.0.bits);
    lemma_word(s, 8, o.1.bits);
    lemma_run(s, 12, a, k);
    lemma_run(s, 12 + 4 * (a.len() as int), r, k);
}

/// A saved map: four letters, the version, both ends of the x range and then of
/// the y range, the cell size, columns and rows in four bytes each, and the
/// cells in two bytes each, in the order the grid holds them.
pub proof fn law_map_layout(cfg: GridConfig, w: u32, h: u32, log: Seq<i16>, k: int)
    requires
        0 <= k < log.len(),
    ensures
        ({
            let s = map_bytes(cfg, w, h, log);
            let v = s[36 + 2 * k] + 256 * s[37 + 2 * k];
            &&& s.len() == 36 + 2 * log.len()
            &&& s.take(4) == seq![77u8, 68u8, 76u8, 77u8]
            &&& word_at(s, 4) == 1
            &&& word_at(s, 8) == cfg.x_range.0.bits
            &&& word_at(s, 12) == cfg.x_range.1.bits
            &&& word_at(s, 16) == cfg.y_range.0.bits
            &&& word_at(s, 20) == cfg.y_range.1.bits
            &&& word_at(s, 24) == cfg.cell.bits
            &&& word_at(s, 28) == w
            &&& word_at(s, 32) == h
            &&& log[k] == if v < 32_768 {
                v
            } else {
                v - 65_536
            }
        }),
{
    let s = map_bytes(cfg, w, h, log);
    assert(s.take(4) =~= seq![77u8, 68u8, 76u8, 77u8]);
    lemma_word(s, 4, 1);
    lemma_word(s, 8, cfg.x_range.0.bits);
    lemma_word(s, 12, cfg.x_range.1.bits);
    lemma_word(s, 16, cfg.y_range.0.bits);
    lemma_word(s, 20, cfg.y_range.1.bits);
    lemma_word(s, 24, cfg.cell.bits);
    lemma_word(s, 28, w);
    lemma_word(s, 32, h);
    assert((2 * k) / 2 == k && (2 * k) % 2 == 0 && (2 * k + 1) / 2 == k && (2 * k + 1) % 2 == 1);
    assert(s[36 + 2 * k] == cell_bytes(log)[2 * k]);
    assert(s[37 + 2 * k] == cell_bytes(log)[2 * k + 1]);
    let u = if log[k] < 0 {
        log[k] + 65_536
    } else {
        log[k] as int
    };
    assert(le_i16(log[k])[0] == u % 256 && le_i16(log[k])[1] == u / 256);
}

/// A logged range frame: eight bytes of time, two bytes of shape and two unused,
/// 64 ranges in four bytes each, row by row, and then 64 bytes of status.
pub proof fn law_tof_layout(t: TofRecord, ts_us: u64, p: Seq<u8>, r: int, c: int)
    requires
        p.len() >= 332,
        is_tof(t, ts_us, p),
        0 <= r < 8,
        0 <= c < 8,
    ensures
        t.ts_us == ts_us,
        t.sender_ts_s.bits == word_at(p, 0) + 0x1_0000_0000 * word_at(p, 4),
        t.ranges_m@[r]@[c].bits == word_at(p, 12 + 4 * (8 * r + c)),
        t.status@[r]@[c] == p[268 + 8 * r + c],
{
    assert(t.ranges_m@[r]@[c] == crate::replay::number(p, 12 + 4 * (8 * r + c)));
    assert(t.status@[r]@[c] == p[268 + 8 * r + c]);
    lemma_read(p, 12 + 4 * (8 * r + c));
    lemma_time(p);
}

/// A number read from four bytes.
proof fn lemma_read(p: Seq<u8>, at: int)
    requires
        0 <= at,
        at + 4 <= p.len(),
    ensures
        get32(p.skip(at)) == word_at(p, at),
{
    let s = p.skip(at);
    assert(s[0] == p[at] && s[1] == p[at + 1] && s[2] == p[at + 2] && s[3] == p[at + 3]);
}

/// A time in front of a payload.
proof fn lemma_time(p: Seq<u8>)
    requires
        p.len() >= 8,
    ensures
        get64(p) == word_at(p, 0) + 0x1_0000_0000 * word_at(p, 4),
{
    lemma_read(p, 4);
    assert(get32(p) == word_at(p, 0));
}

/// A logged state packet: time, orientation, joints, motor currents, the
/// odometry in x and y, the ball, and the odometry in z and in yaw.
pub proof fn law_twin_layout(t: TwinRecord, ts_us: u64, p: Seq<u8>, k: int)
    requires
        p.len() == 172,
        is_twin(t, ts_us, p),
        0 <= k < 15,
    ensures
        t.ts_us == ts_us,
        t.sender_ts_s.bits == word_at(p, 0) + 0x1_0000_0000 * word_at(p, 4),
        k < 4 ==> t.quat_wxyz@[k].bits == word_at(p, 8 + 4 * k),
        t.joints@[k].bits == word_at(p, 24 + 4 * k),
        t.motor_currents_ma@[k].bits == word_at(p, 84 + 4 * k),
        t.odom_x.bits == word_at(p, 144),
        t.odom_y.bits == word_at(p, 148),
        k < 3 ==> t.ball_xyz@[k].bits == word_at(p, 152 + 4 * k),
        t.odom_z.bits == word_at(p, 164),
        t.odom_yaw.bits == word_at(p, 168),
{
    lemma_time(p);
    if k < 4 {
        assert(t.quat_wxyz@[k] == crate::replay::number(p, 8 + 4 * k));
        lemma_read(p, 8 + 4 * k);
    }
    if k < 3 {
        assert(t.ball_xyz@[k] == crate::replay::number(p, 152 + 4 * k));
        lemma_read(p, 152 + 4 * k);
    }
    assert(t.joints@[k] == crate::replay::number(p, 24 + 4 * k));
    assert(t.motor_currents_ma@[k] == crate::replay::number(p, 84 + 4 * k));
    lemma_read(p, 24 + 4 * k);
    lemma_read(p, 84 + 4 * k);
    lemma_read(p, 144);
    lemma_read(p, 148);
    lemma_read(p, 164);
    lemma_read(p, 168);
}

} // verus!
