//! Persisted session state: load it back on the next boot to keep mapping the
//! same room without starting from scratch.
//!
//! A session file is "MDLS", a little-endian version and the state as the
//! `bincode` crate encodes it. The state is handed to `bincode` as plain
//! integers, tuples and vectors; numbers go as their bit patterns, which is how
//! `bincode` writes them anyway.

use vstd::prelude::*;
use crate::bytes::{get32, le32, lemma_get32_le32, put_bytes, put_u32, u32_at};
use crate::grid::{GridConfig, OccupancyGrid};
use crate::pose::Pose2;
use crate::pose_graph::{PoseEdge, PoseGraph, PoseNode};
use crate::single::Single;
use crate::submap::{RawScan, Submap};

verus! {

/// Version of the session format.
pub const SESSION_VERSION: u32 = 1;

/// Why bytes are not a session.
#[derive(Debug, Clone, Copy, PartialEq, Eq, Structural)]
pub enum SessionError {
    /// The file ends inside its header.
    UnexpectedEof,
    /// The file starts with other bytes than the magic.
    BadMagic,
    /// The session was written by another version of the format.
    UnsupportedVersion(u32),
    /// The state behind the header is damaged.
    Corrupt,
}

/// Snapshot of the mapping pipeline.
pub struct SessionState {
    pub frozen: Vec<Submap>,
    pub current: Option<Submap>,
    pub graph: PoseGraph,
    /// The pose-graph node of each submap, frozen ones first, then the current.
    pub node_for_submap: Vec<usize>,
    /// Last known world pose of the robot.
    pub tracked_pose: Pose2,
}

// ---- Plain data -------------------------------------------------------------

/// Three numbers by their patterns.
pub type PoseBits = (u32, u32, u32);

/// Ranges, cell size, sides and cells of a grid.
pub type GridData = ((u32, u32), (u32, u32), u32, u64, u64, Vec<i16>);

/// Pose, angles and ranges of a scan.
pub type ScanData = (PoseBits, Vec<u32>, Vec<u32>);

/// Grid, anchor and scans of a submap.
pub type SubmapData = (GridData, PoseBits, Vec<ScanData>);

/// Ends, measurement and information of an edge.
pub type EdgeData = (u64, u64, PoseBits, (PoseBits, PoseBits, PoseBits));

/// Frozen submaps, current submap, nodes and edges of the graph, nodes of the
/// submaps, pose of the robot.
pub type SessionData = (
    Vec<SubmapData>,
    Option<SubmapData>,
    (Vec<(PoseBits, u64)>, Vec<EdgeData>),
    Vec<u64>,
    PoseBits,
);

/// What a [`GridData`] says.
pub type GridValue = ((u32, u32), (u32, u32), u32, u64, u64, Seq<i16>);

/// What a [`ScanData`] says.
pub type ScanValue = (PoseBits, Seq<u32>, Seq<u32>);

/// What a [`SubmapData`] says.
pub type SubmapValue = (GridValue, PoseBits, Seq<ScanValue>);

/// What a [`SessionData`] says.
pub type SessionValue = (
    Seq<SubmapValue>,
    Option<SubmapValue>,
    (Seq<(PoseBits, u64)>, Seq<EdgeData>),
    Seq<u64>,
    PoseBits,
);

pub open spec fn grid_value(d: GridData) -> GridValue {
    (d.0, d.1, d.2, d.3, d.4, d.5@)
}

pub open spec fn scan_value(d: ScanData) -> ScanValue {
    (d.0, d.1@, d.2@)
}

pub open spec fn submap_value(d: SubmapData) -> SubmapValue {
    (grid_value(d.0), d.1, Seq::new(d.2@.len(), |k: int| scan_value(d.2@[k])))
}

pub open spec fn session_value(d: SessionData) -> SessionValue {
    (
        Seq::new(d.0@.len(), |k: int| submap_value(d.0@[k])),
        match d.1 {
            Some(s) => Some(submap_value(s)),
            None => None,
        },
        (d.2.0@, d.2.1@),
        d.3@,
        d.4,
    )
}

// ---- The encoding of the state ----------------------------------------------

/// The bytes that `bincode::serialize` makes of a state.
pub uninterp spec fn session_encoding(v: SessionValue) -> Seq<u8>;

/// The state that `bincode::deserialize` makes of bytes; `None` where it fails.
pub uninterp spec fn session_decoding(b: Seq<u8>) -> Option<SessionValue>;

/// Calls `bincode::serialize`, which writes integers in fixed width and vectors
/// behind their length, without a size limit, and so never fails on this data.
/// What it writes depends on the data alone, and `bincode::deserialize` gives
/// the data back.
#[verifier::external_body]
fn encode(data: &SessionData) -> (r: Option<Vec<u8>>)
    ensures
        r is Some,
        r->0@ == session_encoding(session_value(*data)),
        session_decoding(r->0@) == Some(session_value(*data)),
{
    bincode::serialize(data).ok()
}

/// Calls `bincode::deserialize`. What it makes of bytes, or that it fails,
/// depends on the bytes alone; bytes after the state are ignored.
#[verifier::external_body]
fn decode(bytes: &[u8]) -> (r: Option<SessionData>)
    ensures
        match r {
            Some(d) => session_decoding(bytes@) == Some(session_value(d)),
            None => session_decoding(bytes@) is None,
        },
{
    bincode::deserialize(bytes).ok()
}

// ---- From the state to plain data -------------------------------------------

pub open spec fn pose_bits(p: Pose2) -> PoseBits {
    (p.0.bits, p.1.bits, p.2.bits)
}

pub open spec fn patterns(v: Seq<Single>) -> Seq<u32> {
    Seq::new(v.len(), |k: int| v[k].bits)
}

/// A grid as plain data; its distance field is not kept.
pub open spec fn grid_plain(g: OccupancyGrid) -> GridValue {
    let c = g.config();
    (
        (c.x_range.0.bits, c.x_range.1.bits),
        (c.y_range.0.bits, c.y_range.1.bits),
        c.cell.bits,
        g.cols() as u64,
        g.rows() as u64,
        g.cells(),
    )
}

pub open spec fn scan_plain(r: RawScan) -> ScanValue {
    (pose_bits(r.pose_in_submap), patterns(r.angles_body@), patterns(r.ranges_horiz@))
}

pub open spec fn submap_plain(s: Submap) -> SubmapValue {
    (
        grid_plain(s.map()),
        pose_bits(s.anchor()),
        Seq::new(s.scans().len(), |k: int| scan_plain(s.scans()[k])),
    )
}

pub open spec fn node_plain(n: PoseNode) -> (PoseBits, u64) {
    (pose_bits(n.pose), n.submap as u64)
}

pub open spec fn edge_plain(e: PoseEdge) -> EdgeData {
    (
        e.from as u64,
        e.to as u64,
        pose_bits(e.measurement),
        (
            pose_bits(e.information.0),
            pose_bits(e.information.1),
            pose_bits(e.information.2),
        ),
    )
}

/// A whole state as plain data.
pub open spec fn state_plain(
    frozen: Seq<Submap>,
    current: Option<Submap>,
    graph: PoseGraph,
    node_for_submap: Seq<usize>,
    tracked_pose: Pose2,
) -> SessionValue {
    (
        Seq::new(frozen.len(), |k: int| submap_plain(frozen[k])),
        match current {
            Some(s) => Some(submap_plain(s)),
            None => None,
        },
        (
            Seq::new(graph.nodes@.len(), |k: int| node_plain(graph.nodes@[k])),
            Seq::new(graph.edges@.len(), |k: int| edge_plain(graph.edges@[k])),
        ),
        Seq::new(node_for_submap.len(), |k: int| node_for_submap[k] as u64),
        pose_bits(tracked_pose),
    )
}

impl SessionState {
    /// The state as plain data.
    pub open spec fn plain(&self) -> SessionValue {
        state_plain(
            self.frozen@,
            self.current,
            self.graph,
            self.node_for_submap@,
            self.tracked_pose,
        )
    }

    /// All submaps are well-formed.
    pub open spec fn wf(&self) -> bool {
        &&& forall|k: int| 0 <= k < self.frozen@.len() ==> (#[trigger] self.frozen@[k]).wf()
        &&& self.current matches Some(s) ==> s.wf()
    }
}

fn bits_of(p: Pose2) -> (r: PoseBits)
    ensures
        r == pose_bits(p),
{
    (p.0.bits, p.1.bits, p.2.bits)
}

fn patterns_of(v: &[Single]) -> (r: Vec<u32>)
    ensures
        r@ == patterns(v@),
{
    let n = v.len();
    let mut out: Vec<u32> = Vec::new();
    let mut k: usize = 0;
    while k < n
        invariant
            n == v@.len(),
            k <= n,
            out@.len() == k,
            forall|t: int| 0 <= t < k ==> #[trigger] out@[t] == v@[t].bits,
        decreases n - k,
    {
        out.push(v[k].bits);
        k = k + 1;
    }
    assert(out@ =~= patterns(v@));
    out
}

fn submap_data(s: &Submap) -> (d: SubmapData)
    requires
        s.wf(),
    ensures
        submap_value(d) == submap_plain(*s),
{
    let g = s.grid();
    let c = g.cfg();
    let grid: GridData = (
        (c.x_range.0.bits, c.x_range.1.bits),
        (c.y_range.0.bits, c.y_range.1.bits),
        c.cell.bits,
        g.width() as u64,
        g.height() as u64,
        vstd::slice::slice_to_vec(g.log_raw()),
    );
    let raw = s.raw_scans();
    let n = raw.len();
    let mut scans: Vec<ScanData> = Vec::new();
    let mut k: usize = 0;
    while k < n
        invariant
            n == raw@.len(),
            k <= n,
            scans@.len() == k,
            forall|t: int| 0 <= t < k ==> scan_value(#[trigger] scans@[t]) == scan_plain(raw@[t]),
        decreases n - k,
    {
        let r = &raw[k];
        let d: ScanData = (
            bits_of(r.pose_in_submap),
            patterns_of(r.angles_body.as_slice()),
            patterns_of(r.ranges_horiz.as_slice()),
        );
        scans.push(d);
        k = k + 1;
    }
    let d: SubmapData = (grid, bits_of(s.anchor_pose()), scans);
    assert(submap_value(d).2 =~= submap_plain(*s).2);
    d
}

fn submaps_data(v: &[Submap]) -> (r: Vec<SubmapData>)
    requires
        forall|k: int| 0 <= k < v@.len() ==> (#[trigger] v@[k]).wf(),
    ensures
        r@.len() == v@.len(),
        forall|k: int|
            0 <= k < r@.len() ==> submap_value(#[trigger] r@[k]) == submap_plain(v@[k]),
{
    let n = v.len();
    let mut out: Vec<SubmapData> = Vec::new();
    let mut k: usize = 0;
    while k < n
        invariant
            n == v@.len(),
            k <= n,
            out@.len() == k,
            forall|t: int| 0 <= t < v@.len() ==> (#[trigger] v@[t]).wf(),
            forall|t: int|
                0 <= t < k ==> submap_value(#[trigger] out@[t]) == submap_plain(v@[t]),
        decreases n - k,
    {
        assert(v@[k as int].wf());
        out.push(submap_data(&v[k]));
        k = k + 1;
    }
    out
}

fn graph_data(g: &PoseGraph) -> (r: (Vec<(PoseBits, u64)>, Vec<EdgeData>))
    ensures
        r.0@ == Seq::new(g.nodes@.len(), |k: int| node_plain(g.nodes@[k])),
        r.1@ == Seq::new(g.edges@.len(), |k: int| edge_plain(g.edges@[k])),
{
    let n = g.nodes.len();
    let mut nodes: Vec<(PoseBits, u64)> = Vec::new();
    let mut k: usize = 0;
    while k < n
        invariant
            n == g.nodes@.len(),
            k <= n,
            nodes@.len() == k,
            forall|t: int| 0 <= t < k ==> #[trigger] nodes@[t] == node_plain(g.nodes@[t]),
        decreases n - k,
    {
        let x = g.nodes[k];
        nodes.push((bits_of(x.pose), x.submap as u64));
        k = k + 1;
    }
    let m = g.edges.len();
    let mut edges: Vec<EdgeData> = Vec::new();
    k = 0;
    while k < m
        invariant
            m == g.edges@.len(),
            k <= m,
            edges@.len() == k,
            forall|t: int| 0 <= t < k ==> #[trigger] edges@[t] == edge_plain(g.edges@[t]),
        decreases m - k,
    {
        let e = g.edges[k];
        let (i0, i1, i2) = e.information;
        edges.push(
            (
                e.from as u64,
                e.to as u64,
                bits_of(e.measurement),
                (bits_of(i0), bits_of(i1), bits_of(i2)),
            ),
        );
        k = k + 1;
    }
    assert(nodes@ =~= Seq::new(g.nodes@.len(), |k: int| node_plain(g.nodes@[k])));
    assert(edges@ =~= Seq::new(g.edges@.len(), |k: int| edge_plain(g.edges@[k])));
    (nodes, edges)
}

// ---- From plain data to the state -------------------------------------------

/// The sides of a grid fit its cells.
pub open spec fn sound_submap(v: SubmapValue) -> bool {
    &&& v.0.3 <= usize::MAX
    &&& v.0.4 <= usize::MAX
    &&& v.0.5.len() == v.0.3 * v.0.4
}

/// All grids are sound and all indices fit.
pub open spec fn sound(v: SessionValue) -> bool {
    &&& forall|k: int| 0 <= k < v.0.len() ==> sound_submap(#[trigger] v.0[k])
    &&& v.1 matches Some(s) ==> sound_submap(s)
    &&& forall|k: int| 0 <= k < v.2.0.len() ==> (#[trigger] v.2.0[k]).1 <= usize::MAX
    &&& forall|k: int|
        0 <= k < v.2.1.len() ==> (#[trigger] v.2.1[k]).0 <= usize::MAX && v.2.1[k].1 <= usize::MAX
    &&& forall|k: int| 0 <= k < v.3.len() ==> #[trigger] v.3[k] <= usize::MAX
}

fn pose_of(b: PoseBits) -> (r: Pose2)
    ensures
        pose_bits(r) == b,
{
    (Single { bits: b.0 }, Single { bits: b.1 }, Single { bits: b.2 })
}

fn numbers_of(v: &Vec<u32>) -> (r: Vec<Single>)
    ensures
        patterns(r@) == v@,
{
    let n = v.len();
    let mut out: Vec<Single> = Vec::new();
    let mut k: usize = 0;
    while k < n
        invariant
            n == v@.len(),
            k <= n,
            out@.len() == k,
            forall|t: int| 0 <= t < k ==> (#[trigger] out@[t]).bits == v@[t],
        decreases n - k,
    {
        out.push(Single { bits: v[k] });
        k = k + 1;
    }
    assert(patterns(out@) =~= v@);
    out
}

/// The submap that plain data stands for; `None` if its grid is not sound.
fn submap_of(d: &SubmapData) -> (r: Option<Submap>)
    ensures
        r is Some <==> sound_submap(submap_value(*d)),
        r matches Some(s) ==> s.wf() && submap_plain(s) == submap_value(*d),
{
    let g = &d.0;
    if g.3 > usize::MAX as u64 || g.4 > usize::MAX as u64 {
        return None;
    }
    let cfg = GridConfig {
        x_range: (Single { bits: g.0.0 }, Single { bits: g.0.1 }),
        y_range: (Single { bits: g.1.0 }, Single { bits: g.1.1 }),
        cell: Single { bits: g.2 },
    };
    let log = vstd::slice::slice_to_vec(g.5.as_slice());
    let grid = match OccupancyGrid::from_parts(cfg, g.3 as usize, g.4 as usize, log) {
        Some(grid) => grid,
        None => {
            return None;
        },
    };
    assert(grid_plain(grid) == grid_value(*g));
    let n = d.2.len();
    let mut scans: Vec<RawScan> = Vec::new();
    let mut k: usize = 0;
    while k < n
        invariant
            n == d.2@.len(),
            k <= n,
            scans@.len() == k,
            forall|t: int| 0 <= t < k ==> scan_plain(#[trigger] scans@[t]) == scan_value(d.2@[t]),
        decreases n - k,
    {
        let x = &d.2[k];
        let scan = RawScan {
            pose_in_submap: pose_of(x.0),
            angles_body: numbers_of(&x.1),
            ranges_horiz: numbers_of(&x.2),
        };
        assert(scan_plain(scan) == scan_value(d.2@[k as int]));
        scans.push(scan);
        k = k + 1;
    }
    let s = Submap::from_parts(grid, pose_of(d.1), scans);
    assert(submap_plain(s).2 =~= submap_value(*d).2);
    Some(s)
}

/// The submaps that plain data stands for; `None` if a grid is not sound.
fn submaps_of(v: &Vec<SubmapData>) -> (r: Option<Vec<Submap>>)
    ensures
        r is Some <==> forall|k: int|
            0 <= k < v@.len() ==> sound_submap(submap_value(#[trigger] v@[k])),
        r matches Some(s) ==> {
            &&& s@.len() == v@.len()
            &&& forall|k: int|
                0 <= k < s@.len() ==> (#[trigger] s@[k]).wf() && submap_plain(s@[k])
                    == submap_value(v@[k])
        },
{
    let n = v.len();
    let mut out: Vec<Submap> = Vec::new();
    let mut k: usize = 0;
    while k < n
        invariant
            n == v@.len(),
            k <= n,
            out@.len() == k,
            forall|t: int| 0 <= t < k ==> sound_submap(submap_value(#[trigger] v@[t])),
            forall|t: int|
                0 <= t < k ==> (#[trigger] out@[t]).wf() && submap_plain(out@[t]) == submap_value(
                    v@[t],
                ),
        decreases n - k,
    {
        match submap_of(&v[k]) {
            Some(s) => {
                out.push(s);
            },
            None => {
                assert(!sound_submap(submap_value(v@[k as int])));
                return None;
            },
        }
        k = k + 1;
    }
    Some(out)
}

/// The graph that plain data stands for; `None` if an index does not fit.
fn graph_of(d: &(Vec<(PoseBits, u64)>, Vec<EdgeData>)) -> (r: Option<PoseGraph>)
    ensures
        r is Some <==> {
            &&& forall|k: int| 0 <= k < d.0@.len() ==> (#[trigger] d.0@[k]).1 <= usize::MAX
            &&& forall|k: int|
                0 <= k < d.1@.len() ==> (#[trigger] d.1@[k]).0 <= usize::MAX && d.1@[k].1
                    <= usize::MAX
        },
        r matches Some(g) ==> {
            &&& Seq::new(g.nodes@.len(), |k: int| node_plain(g.nodes@[k])) == d.0@
            &&& Seq::new(g.edges@.len(), |k: int| edge_plain(g.edges@[k])) == d.1@
        },
{
    let n = d.0.len();
    let mut nodes: Vec<PoseNode> = Vec::new();
    let mut k: usize = 0;
    while k < n
        invariant
            n == d.0@.len(),
            k <= n,
            nodes@.len() == k,
            forall|t: int| 0 <= t < k ==> (#[trigger] d.0@[t]).1 <= usize::MAX,
            forall|t: int| 0 <= t < k ==> node_plain(#[trigger] nodes@[t]) == d.0@[t],
        decreases n - k,
    {
        let x = d.0[k];
        if x.1 > usize::MAX as u64 {
            assert(d.0@[k as int].1 > usize::MAX);
            return None;
        }
        nodes.push(PoseNode { pose: pose_of(x.0), submap: x.1 as usize });
        k = k + 1;
    }
    let m = d.1.len();
    let mut edges: Vec<PoseEdge> = Vec::new();
    k = 0;
    while k < m
        invariant
            m == d.1@.len(),
            k <= m,
            edges@.len() == k,
            forall|t: int|
                0 <= t < k ==> (#[trigger] d.1@[t]).0 <= usize::MAX && d.1@[t].1 <= usize::MAX,
            forall|t: int| 0 <= t < k ==> edge_plain(#[trigger] edges@[t]) == d.1@[t],
        decreases m - k,
    {
        let x = d.1[k];
        if x.0 > usize::MAX as u64 || x.1 > usize::MAX as u64 {
            assert(d.1@[k as int].0 > usize::MAX || d.1@[k as int].1 > usize::MAX);
            return None;
        }
        let (i0, i1, i2) = x.3;
        edges.push(
            PoseEdge {
                from: x.0 as usize,
                to: x.1 as usize,
                measurement: pose_of(x.2),
                information: (pose_of(i0), pose_of(i1), pose_of(i2)),
            },
        );
        k = k + 1;
    }
    let g = PoseGraph { nodes, edges };
    assert(Seq::new(g.nodes@.len(), |k: int| node_plain(g.nodes@[k])) =~= d.0@);
    assert(Seq::new(g.edges@.len(), |k: int| edge_plain(g.edges@[k])) =~= d.1@);
    Some(g)
}

/// The indices that plain data stands for; `None` if one does not fit.
fn indices_of(v: &Vec<u64>) -> (r: Option<Vec<usize>>)
    ensures
        r is Some <==> forall|k: int| 0 <= k < v@.len() ==> #[trigger] v@[k] <= usize::MAX,
        r matches Some(s) ==> Seq::new(s@.len(), |k: int| s@[k] as u64) == v@,
{
    let n = v.len();
    let mut out: Vec<usize> = Vec::new();
    let mut k: usize = 0;
    while k < n
        invariant
            n == v@.len(),
            k <= n,
            out@.len() == k,
            forall|t: int| 0 <= t < k ==> #[trigger] v@[t] <= usize::MAX,
            forall|t: int| 0 <= t < k ==> #[trigger] out@[t] == v@[t],
        decreases n - k,
    {
        if v[k] > usize::MAX as u64 {
            assert(v@[k as int] > usize::MAX);
            return None;
        }
        out.push(v[k] as usize);
        k = k + 1;
    }
    assert(Seq::new(out@.len(), |k: int| out@[k] as u64) =~= v@);
    Some(out)
}

/// The state that plain data stands for; `None` if it is not sound.
fn state_of(d: &SessionData) -> (r: Option<SessionState>)
    ensures
        r is Some <==> sound(session_value(*d)),
        r matches Some(s) ==> s.wf() && s.plain() == session_value(*d),
{
    let ghost v = session_value(*d);
    assert forall|k: int| 0 <= k < d.0@.len() implies v.0[k] == submap_value(#[trigger] d.0@[k]) by {}
    let frozen = match submaps_of(&d.0) {
        Some(f) => f,
        None => {
            proof {
                let k = choose|k: int|
                    0 <= k < d.0@.len() && !sound_submap(submap_value(#[trigger] d.0@[k]));
                assert(!sound_submap(v.0[k]));
            }
            return None;
        },
    };
    let current = match &d.1 {
        Some(c) => match submap_of(c) {
            Some(s) => Some(s),
            None => {
                return None;
            },
        },
        None => None,
    };
    let graph = match graph_of(&d.2) {
        Some(g) => g,
        None => {
            assert(v.2.0 == d.2.0@ && v.2.1 == d.2.1@);
            return None;
        },
    };
    let node_for_submap = match indices_of(&d.3) {
        Some(i) => i,
        None => {
            assert(v.3 == d.3@);
            return None;
        },
    };
    let s = SessionState { frozen, current, graph, node_for_submap, tracked_pose: pose_of(d.4) };
    proof {
        assert(s.plain().0 =~= v.0);
        assert forall|k: int| 0 <= k < v.0.len() implies sound_submap(#[trigger] v.0[k]) by {
            assert(sound_submap(submap_value(d.0@[k])));
        }
    }
    Some(s)
}

// ---- Files ------------------------------------------------------------------

/// "MDLS".
pub open spec fn session_magic() -> Seq<u8> {
    seq![0x4du8, 0x44u8, 0x4cu8, 0x53u8]
}

/// A session file, from the encoded state.
pub open spec fn session_bytes(state: Seq<u8>) -> Seq<u8> {
    session_magic() + le32(SESSION_VERSION) + state
}

/// What a session file holds, or what is wrong with it.
pub open spec fn session_content(s: Seq<u8>) -> Result<SessionValue, SessionError> {
    if s.len() < 4 {
        Err(SessionError::UnexpectedEof)
    } else if s.take(4) != session_magic() {
        Err(SessionError::BadMagic)
    } else if s.len() < 8 {
        Err(SessionError::UnexpectedEof)
    } else if get32(s.skip(4)) != SESSION_VERSION {
        Err(SessionError::UnsupportedVersion(get32(s.skip(4))))
    } else {
        match session_decoding(s.skip(8)) {
            Some(v) if sound(v) => Ok(v),
            _ => Err(SessionError::Corrupt),
        }
    }
}

/// The file of a session. Loading it gives back the same state.
pub fn save_session(
    frozen: &[Submap],
    current: Option<&Submap>,
    graph: &PoseGraph,
    node_for_submap: &[usize],
    tracked_pose: Pose2,
) -> (file: Vec<u8>)
    requires
        forall|k: int| 0 <= k < frozen@.len() ==> (#[trigger] frozen@[k]).wf(),
        current matches Some(s) ==> s.wf(),
    ensures
        ({
            let v = state_plain(
                frozen@,
                match current {
                    Some(s) => Some(*s),
                    None => None,
                },
                *graph,
                node_for_submap@,
                tracked_pose,
            );
            &&& file@ == session_bytes(session_encoding(v))
            &&& session_content(file@) == Ok::<SessionValue, SessionError>(v)
        }),
{
    let ghost v = state_plain(
        frozen@,
        match current {
            Some(s) => Some(*s),
            None => None,
        },
        *graph,
        node_for_submap@,
        tracked_pose,
    );
    let frozen_data = submaps_data(frozen);
    let current_data = match current {
        Some(s) => Some(submap_data(s)),
        None => None,
    };
    let n = node_for_submap.len();
    let mut nodes: Vec<u64> = Vec::new();
    let mut k: usize = 0;
    while k < n
        invariant
            n == node_for_submap@.len(),
            k <= n,
            nodes@.len() == k,
            forall|t: int| 0 <= t < k ==> #[trigger] nodes@[t] == node_for_submap@[t] as u64,
        decreases n - k,
    {
        nodes.push(node_for_submap[k] as u64);
        k = k + 1;
    }
    let data: SessionData = (
        frozen_data,
        current_data,
        graph_data(graph),
        nodes,
        bits_of(tracked_pose),
    );
    proof {
        let got = session_value(data);
        assert(got.0 =~= v.0);
        assert(got.3 =~= v.3);
        assert(got == v);
    }
    let mut file: Vec<u8> = Vec::new();
    file.push(0x4d);
    file.push(0x44);
    file.push(0x4c);
    file.push(0x53);
    assert(file@ =~= session_magic());
    put_u32(&mut file, SESSION_VERSION);
    let state = match encode(&data) {
        Some(b) => b,
        None => vstd::pervasive::unreached(),
    };
    put_bytes(&mut file, state.as_slice());
    proof {
        assert(file@ =~= session_bytes(state@));
        lemma_frame(state@);
        lemma_state_sound(frozen@, current, *graph, node_for_submap@, tracked_pose);
    }
    file
}

impl SessionState {
    /// The state that a session file holds. `Ok(None)` without a file (a fresh
    /// room); an error for a damaged file or another version.
    pub fn load(file: Option<&[u8]>) -> (r: Result<Option<SessionState>, SessionError>)
        ensures
            match file {
                None => r is Ok && r->Ok_0 is None,
                Some(s) => match r {
                    Err(e) => session_content(s@) == Err::<SessionValue, SessionError>(e),
                    Ok(None) => false,
                    Ok(Some(state)) => {
                        &&& session_content(s@) == Ok::<SessionValue, SessionError>(state.plain())
                        &&& state.wf()
                    },
                },
            },
    {
        let s = match file {
            None => {
                return Ok(None);
            },
            Some(s) => s,
        };
        let n = s.len();
        if n < 4 {
            return Err(SessionError::UnexpectedEof);
        }
        if s[0] != 0x4d || s[1] != 0x44 || s[2] != 0x4c || s[3] != 0x53 {
            proof {
                if s@.take(4) == session_magic() {
                    assert(s@.take(4)[0] == s@[0] && s@.take(4)[1] == s@[1] && s@.take(4)[2]
                        == s@[2] && s@.take(4)[3] == s@[3]);
                }
            }
            return Err(SessionError::BadMagic);
        }
        assert(s@.take(4) =~= session_magic());
        if n < 8 {
            return Err(SessionError::UnexpectedEof);
        }
        let version: u32 = u32_at(s, 4);
        if version != SESSION_VERSION {
            return Err(SessionError::UnsupportedVersion(version));
        }
        let body = vstd::slice::slice_subrange(s, 8, n);
        assert(body@ =~= s@.skip(8));
        match decode(body) {
            Some(d) => match state_of(&d) {
                Some(state) => Ok(Some(state)),
                None => Err(SessionError::Corrupt),
            },
            None => Err(SessionError::Corrupt),
        }
    }
}

/// The frame of a session file comes off again.
proof fn lemma_frame(state: Seq<u8>)
    ensures
        session_bytes(state).len() == 8 + state.len(),
        session_bytes(state).take(4) == session_magic(),
        get32(session_bytes(state).skip(4)) == SESSION_VERSION,
        session_bytes(state).skip(8) == state,
{
    let s = session_bytes(state);
    assert(s.take(4) =~= session_magic());
    assert(s.skip(4) =~= le32(SESSION_VERSION) + state);
    lemma_get32_le32(SESSION_VERSION, state);
    assert(s.skip(8) =~= state);
}

/// Well-formed submaps make sound data.
proof fn lemma_state_sound(
    frozen: Seq<Submap>,
    current: Option<&Submap>,
    graph: PoseGraph,
    node_for_submap: Seq<usize>,
    tracked_pose: Pose2,
)
    requires
        forall|k: int| 0 <= k < frozen.len() ==> (#[trigger] frozen[k]).wf(),
        current matches Some(s) ==> s.wf(),
    ensures
        sound(
            state_plain(
                frozen,
                match current {
                    Some(s) => Some(*s),
                    None => None,
                },
                graph,
                node_for_submap,
                tracked_pose,
            ),
        ),
{
    let v = state_plain(
        frozen,
        match current {
            Some(s) => Some(*s),
            None => None,
        },
        graph,
        node_for_submap,
        tracked_pose,
    );
    assert forall|k: int| 0 <= k < v.0.len() implies sound_submap(#[trigger] v.0[k]) by {
        assert(frozen[k].wf());
    }
}

/// A file that was cut off inside its header is never taken for a session.
pub proof fn law_cut_header_refused(state: Seq<u8>, n: int)
    requires
        0 <= n < 8,
    ensures
        session_content(session_bytes(state).take(n)) == Err::<SessionValue, SessionError>(
            SessionError::UnexpectedEof,
        ),
{
    let s = session_bytes(state).take(n);
    if n >= 4 {
        assert(s.take(4) =~= session_magic());
    }
}

/// Submaps with the same plain data agree in all that they hold but the distance
/// field: grid, anchor and every scan.
pub proof fn law_submap_data_is_faithful(a: Submap, b: Submap)
    requires
        submap_plain(a) == submap_plain(b),
    ensures
        a.anchor() == b.anchor(),
        a.map().config() == b.map().config(),
        a.map().cells() == b.map().cells(),
        a.wf() && b.wf() ==> a.map().cols() == b.map().cols() && a.map().rows()
            == b.map().rows(),
        a.scans().len() == b.scans().len(),
        forall|k: int|
            0 <= k < a.scans().len() ==> {
                &&& (#[trigger] a.scans()[k]).pose_in_submap == b.scans()[k].pose_in_submap
                &&& a.scans()[k].angles_body@ == b.scans()[k].angles_body@
                &&& a.scans()[k].ranges_horiz@ == b.scans()[k].ranges_horiz@
            },
{
    let (pa, pb) = (submap_plain(a), submap_plain(b));
    assert(pa.2.len() == a.scans().len() && pb.2.len() == b.scans().len());
    assert(grid_plain(a.map()) == grid_plain(b.map()));
    assert forall|k: int| 0 <= k < a.scans().len() implies {
        &&& (#[trigger] a.scans()[k]).pose_in_submap == b.scans()[k].pose_in_submap
        &&& a.scans()[k].angles_body@ == b.scans()[k].angles_body@
        &&& a.scans()[k].ranges_horiz@ == b.scans()[k].ranges_horiz@
    } by {
        assert(pa.2[k] == scan_plain(a.scans()[k]) && pb.2[k] == scan_plain(b.scans()[k]));
        lemma_patterns_are_faithful(a.scans()[k].angles_body@, b.scans()[k].angles_body@);
        lemma_patterns_are_faithful(a.scans()[k].ranges_horiz@, b.scans()[k].ranges_horiz@);
    }
}

proof fn lemma_patterns_are_faithful(a: Seq<Single>, b: Seq<Single>)
    requires
        patterns(a) == patterns(b),
    ensures
        a == b,
{
    assert(patterns(a).len() == a.len() && patterns(b).len() == b.len());
    assert forall|k: int| 0 <= k < a.len() implies a[k] == b[k] by {
        assert(patterns(a)[k] == a[k].bits && patterns(b)[k] == b[k].bits);
    }
    assert(a =~= b);
}

/// States with the same plain data agree: the submaps have the same data, the
/// graph, the indices and the pose of the robot are the same.
pub proof fn law_session_data_is_faithful(a: SessionState, b: SessionState)
    requires
        a.plain() == b.plain(),
    ensures
        a.frozen@.len() == b.frozen@.len(),
        forall|k: int|
            0 <= k < a.frozen@.len() ==> submap_plain(#[trigger] a.frozen@[k]) == submap_plain(
                b.frozen@[k],
            ),
        a.current is Some == b.current is Some,
        a.current is Some ==> submap_plain(a.current->0) == submap_plain(b.current->0),
        a.graph.nodes@ == b.graph.nodes@,
        a.graph.edges@ == b.graph.edges@,
        a.node_for_submap@ == b.node_for_submap@,
        a.tracked_pose == b.tracked_pose,
{
    let (pa, pb) = (a.plain(), b.plain());
    assert(pa.0.len() == a.frozen@.len() && pb.0.len() == b.frozen@.len());
    assert forall|k: int| 0 <= k < a.frozen@.len() implies submap_plain(#[trigger] a.frozen@[k])
        == submap_plain(b.frozen@[k]) by {
        assert(pa.0[k] == submap_plain(a.frozen@[k]) && pb.0[k] == submap_plain(b.frozen@[k]));
    }
    assert(pa.2.0.len() == a.graph.nodes@.len() && pb.2.0.len() == b.graph.nodes@.len());
    assert forall|k: int| 0 <= k < a.graph.nodes@.len() implies a.graph.nodes@[k]
        == b.graph.nodes@[k] by {
        assert(pa.2.0[k] == node_plain(a.graph.nodes@[k]));
        assert(pb.2.0[k] == node_plain(b.graph.nodes@[k]));
    }
    assert(a.graph.nodes@ =~= b.graph.nodes@);
    assert(pa.2.1.len() == a.graph.edges@.len() && pb.2.1.len() == b.graph.edges@.len());
    assert forall|k: int| 0 <= k < a.graph.edges@.len() implies a.graph.edges@[k]
        == b.graph.edges@[k] by {
        assert(pa.2.1[k] == edge_plain(a.graph.edges@[k]));
        assert(pb.2.1[k] == edge_plain(b.graph.edges@[k]));
    }
    assert(a.graph.edges@ =~= b.graph.edges@);
    assert(pa.3.len() == a.node_for_submap@.len() && pb.3.len() == b.node_for_submap@.len());
    assert forall|k: int| 0 <= k < a.node_for_submap@.len() implies a.node_for_submap@[k]
        == b.node_for_submap@[k] by {
        assert(pa.3[k] == a.node_for_submap@[k] as u64 && pb.3[k] == b.node_for_submap@[k] as u64);
    }
    assert(a.node_for_submap@ =~= b.node_for_submap@);
}

} // verus!
