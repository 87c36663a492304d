//! The map format: an occupancy grid as bytes, the same on disk and on the
//! wire.
//!
//! ```text
//! magic    4 bytes  "MDLM"
//! version  u32      1
//! x_range  2 x binary32
//! y_range  2 x binary32
//! cell     binary32
//! W, H     2 x u32
//! cells    W * H x i16, row by row, log-odds x 100
//! ```
//!
//! All fields are little-endian. Bytes after the cells are ignored.

use vstd::prelude::*;
use crate::bytes::{get32, get_i16, i16_at, le32, le_i16, put_i16, put_u32, u32_at};
use crate::bytes::{lemma_get32_le32, lemma_get_i16_le_i16};
use crate::grid::{GridConfig, OccupancyGrid, SAVE_VERSION};
use crate::single::Single;

verus! {

/// Why bytes are not a map.
#[derive(Debug, Clone, Copy, PartialEq, Eq, Structural)]
pub enum MapError {
    /// The bytes end before the map does.
    UnexpectedEof,
    /// The bytes do not start with the magic of the format.
    BadMagic,
    /// The map was written by another version of the format.
    UnsupportedVersion(u32),
}

/// "MDLM".
pub open spec fn map_magic() -> Seq<u8> {
    seq![0x4du8, 0x44u8, 0x4cu8, 0x4du8]
}

/// A side as its 32-bit field holds it.
pub open spec fn stored_side(n: int) -> u32 {
    (n % 0x1_0000_0000) as u32
}

/// The bytes in front of the cells.
pub open spec fn map_header(cfg: GridConfig, w: u32, h: u32) -> Seq<u8> {
    map_magic() + le32(SAVE_VERSION) + le32(cfg.x_range.0.bits) + le32(cfg.x_range.1.bits) + le32(
        cfg.y_range.0.bits,
    ) + le32(cfg.y_range.1.bits) + le32(cfg.cell.bits) + le32(w) + le32(h)
}

/// The cells as bytes, two each.
pub open spec fn cell_bytes(log: Seq<i16>) -> Seq<u8> {
    Seq::new(2 * log.len(), |k: int| le_i16(log[k / 2])[k % 2])
}

/// A whole map.
pub open spec fn map_bytes(cfg: GridConfig, w: u32, h: u32, log: Seq<i16>) -> Seq<u8> {
    map_header(cfg, w, h) + cell_bytes(log)
}

/// The number at offset `at` of a map.
pub open spec fn map_single(s: Seq<u8>, at: int) -> Single {
    Single { bits: get32(s.skip(at)) }
}

/// The geometry that a map's header holds.
pub open spec fn header_config(s: Seq<u8>) -> GridConfig {
    GridConfig {
        x_range: (map_single(s, 8), map_single(s, 12)),
        y_range: (map_single(s, 16), map_single(s, 20)),
        cell: map_single(s, 24),
    }
}

/// The number of columns that a map's header holds.
pub open spec fn header_width(s: Seq<u8>) -> u32 {
    get32(s.skip(28))
}

/// The number of rows that a map's header holds.
pub open spec fn header_height(s: Seq<u8>) -> u32 {
    get32(s.skip(32))
}

/// The cells that follow a map's header.
pub open spec fn body_cells(s: Seq<u8>) -> Seq<i16> {
    Seq::new(
        (header_width(s) * header_height(s)) as nat,
        |k: int| get_i16(s.skip(36 + 2 * k)),
    )
}

/// What is wrong with bytes that should be a map; `None` for a map.
pub open spec fn map_error(s: Seq<u8>) -> Option<MapError> {
    if s.len() < 4 {
        Some(MapError::UnexpectedEof)
    } else if s.take(4) != map_magic() {
        Some(MapError::BadMagic)
    } else if s.len() < 8 {
        Some(MapError::UnexpectedEof)
    } else if get32(s.skip(4)) != SAVE_VERSION {
        Some(MapError::UnsupportedVersion(get32(s.skip(4))))
    } else if s.len() < 36 || s.len() < 36 + 2 * (header_width(s) * header_height(s)) {
        Some(MapError::UnexpectedEof)
    } else {
        None
    }
}

impl GridConfig {
    /// True if both geometries are the same, number by number.
    pub fn same(&self, other: &GridConfig) -> (r: bool)
        ensures
            r == (*self == *other),
    {
        self.x_range.0.bits == other.x_range.0.bits && self.x_range.1.bits == other.x_range.1.bits
            && self.y_range.0.bits == other.y_range.0.bits && self.y_range.1.bits
            == other.y_range.1.bits && self.cell.bits == other.cell.bits
    }
}

impl OccupancyGrid {
    /// The grid as a map.
    pub fn save(&self) -> (b: Vec<u8>)
        requires
            self.wf(),
        ensures
            b@ == map_bytes(
                self.config(),
                stored_side(self.cols()),
                stored_side(self.rows()),
                self.cells(),
            ),
    {
        let cfg = self.cfg();
        let w: u32 = (self.width() as u64 % 0x1_0000_0000) as u32;
        let h: u32 = (self.height() as u64 % 0x1_0000_0000) as u32;
        let mut b: Vec<u8> = Vec::new();
        b.push(0x4d);
        b.push(0x44);
        b.push(0x4c);
        b.push(0x4d);
        assert(b@ =~= map_magic());
        put_u32(&mut b, SAVE_VERSION);
        put_u32(&mut b, cfg.x_range.0.bits);
        put_u32(&mut b, cfg.x_range.1.bits);
        put_u32(&mut b, cfg.y_range.0.bits);
        put_u32(&mut b, cfg.y_range.1.bits);
        put_u32(&mut b, cfg.cell.bits);
        put_u32(&mut b, w);
        put_u32(&mut b, h);
        let ghost header = map_header(*cfg, w, h);
        assert(b@ =~= header);
        let log = self.log_raw();
        let n = log.len();
        let mut k: usize = 0;
        while k < n
            invariant
                n == log@.len(),
                k <= n,
                b@ == header + cell_bytes(log@.take(k as int)),
            decreases n - k,
        {
            put_i16(&mut b, log[k]);
            proof {
                let next = log@.take(k + 1);
                assert(cell_bytes(next) =~= cell_bytes(log@.take(k as int)) + le_i16(log@[k as int]));
            }
            k = k + 1;
        }
        assert(log@.take(n as int) =~= log@);
        b
    }

    /// The grid that a map holds.
    pub fn decode(s: &[u8]) -> (r: Result<Self, MapError>)
        ensures
            match r {
                Err(e) => map_error(s@) == Some(e),
                Ok(g) => {
                    &&& map_error(s@) is None
                    &&& g.wf()
                    &&& g.config() == header_config(s@)
                    &&& g.cols() == header_width(s@)
                    &&& g.rows() == header_height(s@)
                    &&& g.cells() == body_cells(s@)
                },
            },
    {
        let len = s.len();
        if len < 4 {
            return Err(MapError::UnexpectedEof);
        }
        if s[0] != 0x4d || s[1] != 0x44 || s[2] != 0x4c || s[3] != 0x4d {
            proof {
                if s@.take(4) == map_magic() {
                    assert(s@.take(4)[0] == s@[0] && s@.take(4)[1] == s@[1] && s@.take(4)[2] == s@[2]
                        && s@.take(4)[3] == s@[3]);
                }
            }
            return Err(MapError::BadMagic);
        }
        assert(s@.take(4) =~= map_magic());
        if len < 8 {
            return Err(MapError::UnexpectedEof);
        }
        let version: u32 = u32_at(s, 4);
        if version != SAVE_VERSION {
            return Err(MapError::UnsupportedVersion(version));
        }
        if len < 36 {
            return Err(MapError::UnexpectedEof);
        }
        let cfg = GridConfig {
            x_range: (Single { bits: u32_at(s, 8) }, Single { bits: u32_at(s, 12) }),
            y_range: (Single { bits: u32_at(s, 16) }, Single { bits: u32_at(s, 20) }),
            cell: Single { bits: u32_at(s, 24) },
        };
        let w: u32 = u32_at(s, 28);
        let h: u32 = u32_at(s, 32);
        assert(w * h <= u32::MAX * u32::MAX) by (nonlinear_arith)
            requires
                0 <= w <= u32::MAX,
                0 <= h <= u32::MAX,
        ;
        let count: u128 = w as u128 * h as u128;
        if (len as u128) < 36 + 2 * count {
            return Err(MapError::UnexpectedEof);
        }
        let n: usize = count as usize;
        let mut log: Vec<i16> = Vec::new();
        let mut k: usize = 0;
        while k < n
            invariant
                len == s@.len(),
                len >= 36 + 2 * n,
                k <= n,
                log@.len() == k,
                forall|t: int| 0 <= t < k ==> #[trigger] log@[t] == get_i16(s@.skip(36 + 2 * t)),
            decreases n - k,
        {
            log.push(i16_at(s, 36 + 2 * k));
            k = k + 1;
        }
        assert(log@ =~= body_cells(s@));
        match OccupancyGrid::from_parts(cfg, w as usize, h as usize, log) {
            Some(g) => Ok(g),
            None => vstd::pervasive::unreached(),
        }
    }

    /// Load a saved map. `Ok(None)` if its geometry is not the one that the
    /// caller wants: the caller then starts afresh.
    pub fn load(s: &[u8], want: &GridConfig) -> (r: Result<Option<Self>, MapError>)
        ensures
            match r {
                Err(e) => map_error(s@) == Some(e),
                Ok(None) => map_error(s@) is None && header_config(s@) != *want,
                Ok(Some(g)) => {
                    &&& map_error(s@) is None
                    &&& header_config(s@) == *want
                    &&& g.wf()
                    &&& g.config() == *want
                    &&& g.cols() == header_width(s@)
                    &&& g.rows() == header_height(s@)
                    &&& g.cells() == body_cells(s@)
                },
            },
    {
        match OccupancyGrid::decode(s) {
            Err(e) => Err(e),
            Ok(g) => if g.cfg().same(want) {
                Ok(Some(g))
            } else {
                Ok(None)
            },
        }
    }
}

proof fn lemma_field(pre: Seq<u8>, v: u32, post: Seq<u8>)
    ensures
        get32((pre + le32(v) + post).skip(pre.len() as int)) == v,
{
    assert((pre + le32(v) + post).skip(pre.len() as int) =~= le32(v) + post);
    lemma_get32_le32(v, post);
}

/// Reading a written map gives back its geometry, sides and cells, whatever
/// bytes follow it.
pub proof fn law_map_round_trip(cfg: GridConfig, w: u32, h: u32, log: Seq<i16>, rest: Seq<u8>)
    requires
        log.len() == w * h,
    ensures
        ({
            let s = map_bytes(cfg, w, h, log) + rest;
            &&& map_error(s) is None
            &&& header_config(s) == cfg
            &&& header_width(s) == w
            &&& header_height(s) == h
            &&& body_cells(s) == log
        }),
{
    let s = map_bytes(cfg, w, h, log) + rest;
    let c = cell_bytes(log) + rest;
    let f1 = map_magic() + le32(SAVE_VERSION);
    let f2 = f1 + le32(cfg.x_range.0.bits);
    let f3 = f2 + le32(cfg.x_range.1.bits);
    let f4 = f3 + le32(cfg.y_range.0.bits);
    let f5 = f4 + le32(cfg.y_range.1.bits);
    let f6 = f5 + le32(cfg.cell.bits);
    let f7 = f6 + le32(w);
    let f8 = f7 + le32(h);
    assert(s =~= f8 + c);
    assert(f8.len() == 36);
    assert(s.take(4) =~= map_magic());
    assert(s =~= map_magic() + le32(SAVE_VERSION) + s.skip(8));
    lemma_field(map_magic(), SAVE_VERSION, s.skip(8));
    assert(s =~= f1 + le32(cfg.x_range.0.bits) + s.skip(12));
    lemma_field(f1, cfg.x_range.0.bits, s.skip(12));
    assert(s =~= f2 + le32(cfg.x_range.1.bits) + s.skip(16));
    lemma_field(f2, cfg.x_range.1.bits, s.skip(16));
    assert(s =~= f3 + le32(cfg.y_range.0.bits) + s.skip(20));
    lemma_field(f3, cfg.y_range.0.bits, s.skip(20));
    assert(s =~= f4 + le32(cfg.y_range.1.bits) + s.skip(24));
    lemma_field(f4, cfg.y_range.1.bits, s.skip(24));
    assert(s =~= f5 + le32(cfg.cell.bits) + s.skip(28));
    lemma_field(f5, cfg.cell.bits, s.skip(28));
    assert(s =~= f6 + le32(w) + s.skip(32));
    lemma_field(f6, w, s.skip(32));
    assert(s =~= f7 + le32(h) + c);
    lemma_field(f7, h, c);
    assert forall|k: int| 0 <= k < log.len() implies get_i16(s.skip(36 + 2 * k)) == #[trigger] log[k]
        by {
        let tail = s.skip(36 + 2 * k);
        assert(tail[0] == cell_bytes(log)[2 * k]);
        assert(tail[1] == cell_bytes(log)[2 * k + 1]);
        assert((2 * k) / 2 == k && (2 * k) % 2 == 0 && (2 * k + 1) / 2 == k && (2 * k + 1) % 2 == 1);
        lemma_get_i16_le_i16(log[k], Seq::empty());
        assert(le_i16(log[k]) + Seq::<u8>::empty() =~= le_i16(log[k]));
    }
    assert(body_cells(s) =~= log);
}

/// A map takes 36 bytes and two more for each cell.
pub proof fn law_map_size(cfg: GridConfig, w: u32, h: u32, log: Seq<i16>)
    ensures
        map_bytes(cfg, w, h, log).len() == 36 + 2 * log.len(),
{
}

} // verus!
