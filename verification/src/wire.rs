//! Wire protocol between the robot (server) and a laptop viewer (client).
//!
//! Framing: every message is `u32 length` ++ `u8 tag` ++ payload. `length`
//! covers the tag and the payload, so a frame takes `length + 4` bytes. All
//! multi-byte fields are little-endian.
//!
//! The protocol has no schema. A field is added by appending; a change of
//! layout bumps [`PROTOCOL_VERSION`], and a peer that greets with another
//! version is answered with [`WireError::BadVersion`].

use vstd::prelude::*;
use crate::bytes::{get32, get64, le32, le64, put_bytes, put_u32, put_u64, u32_at, u64_at};
use crate::bytes::{lemma_get32_le32, lemma_get64_le64};
use crate::single::Single;

verus! {

/// Version that both ends of a connection speak.
pub const PROTOCOL_VERSION: u32 = 1;

/// Tag of [`Hello`].
pub const TAG_HELLO: u8 = 0x01;

/// Tag of [`Pose`].
pub const TAG_POSE: u8 = 0x02;

/// Tag of a map.
pub const TAG_MAP: u8 = 0x03;

/// Tag of [`Path`].
pub const TAG_PATH: u8 = 0x04;

/// Tag of [`Scan`].
pub const TAG_SCAN: u8 = 0x05;

/// Tag of [`Goal`].
pub const TAG_GOAL: u8 = 0x80;

/// Whether the localizer trusts its pose.
#[derive(Debug, Clone, Copy, PartialEq, Eq, Structural)]
pub enum LockState {
    Searching,
    Tracking,
}

impl LockState {
    /// The byte that stands for a state.
    pub open spec fn byte(self) -> u8 {
        match self {
            LockState::Searching => 0,
            LockState::Tracking => 1,
        }
    }

    /// The state that a byte stands for; unknown bytes mean searching.
    pub open spec fn of_byte(b: u8) -> LockState {
        if b == 1 {
            LockState::Tracking
        } else {
            LockState::Searching
        }
    }

    /// The byte that stands for a state.
    pub fn to_u8(self) -> (b: u8)
        ensures
            b == self.byte(),
    {
        match self {
            LockState::Searching => 0,
            LockState::Tracking => 1,
        }
    }

    /// The state that a byte stands for; unknown bytes mean searching.
    pub fn from_u8(b: u8) -> (s: Self)
        ensures
            s == LockState::of_byte(b),
    {
        if b == 1 {
            LockState::Tracking
        } else {
            LockState::Searching
        }
    }
}

/// Greeting of a server.
#[derive(Debug, Clone, Copy)]
pub struct Hello {
    pub version: u32,
}

/// Pose estimate with its quality.
#[derive(Debug, Clone, Copy)]
pub struct Pose {
    pub x: Single,
    pub y: Single,
    pub yaw: Single,
    pub std_xy: Single,
    pub residual_m: Single,
    pub lock: LockState,
    pub timestamp_ms: u64,
}

/// Waypoints `(x, y)` in world coordinates.
#[derive(Debug)]
pub struct Path {
    pub waypoints: Vec<(Single, Single)>,
}

/// One scan for display.
#[derive(Debug)]
pub struct Scan {
    pub angles_body: Vec<Single>,
    /// NaN where a beam had no return.
    pub ranges: Vec<Single>,
    /// Where the sensor was, in world coordinates.
    pub origin: (Single, Single),
}

/// A place to go to.
#[derive(Debug, Clone, Copy)]
pub struct Goal {
    pub x: Single,
    pub y: Single,
}

impl Clone for Path {
    fn clone(&self) -> (r: Self)
        ensures
            r.waypoints@ == self.waypoints@,
    {
        Path { waypoints: vstd::slice::slice_to_vec(self.waypoints.as_slice()) }
    }
}

impl Clone for Scan {
    fn clone(&self) -> (r: Self)
        ensures
            r.angles_body@ == self.angles_body@,
            r.ranges@ == self.ranges@,
            r.origin == self.origin,
    {
        Scan {
            angles_body: vstd::slice::slice_to_vec(self.angles_body.as_slice()),
            ranges: vstd::slice::slice_to_vec(self.ranges.as_slice()),
            origin: self.origin,
        }
    }
}

impl Default for Path {
    /// No waypoints.
    fn default() -> (r: Self)
        ensures
            r.waypoints@.len() == 0,
    {
        Path { waypoints: Vec::new() }
    }
}

impl Default for Scan {
    /// No beams, seen from the origin.
    fn default() -> (r: Self)
        ensures
            r.angles_body@.len() == 0,
            r.ranges@.len() == 0,
            r.origin.0.bits == 0,
            r.origin.1.bits == 0,
    {
        Scan {
            angles_body: Vec::new(),
            ranges: Vec::new(),
            origin: (Single { bits: 0 }, Single { bits: 0 }),
        }
    }
}

/// A message of either direction.
#[derive(Debug)]
pub enum Message {
    Hello(Hello),
    Pose(Pose),
    /// A saved occupancy grid, the same bytes as on disk.
    MapBlob(Vec<u8>),
    Path(Path),
    Scan(Scan),
    Goal(Goal),
}

/// How reading from a peer failed.
#[derive(Debug, Clone, Copy, PartialEq, Eq, Structural)]
pub enum IoKind {
    /// The bytes end inside a frame.
    UnexpectedEof,
    /// Nothing to read at the moment.
    WouldBlock,
    /// Anything else.
    Other,
}

/// Why no message could be read.
#[derive(Debug, Clone, Copy, PartialEq, Eq, Structural)]
pub enum WireError {
    Io(IoKind),
    BadTag(u8),
    BadVersion(u32),
    Truncated,
}

/// What a [`Message`] says.
pub enum MessageView {
    Hello(u32),
    Pose(Pose),
    MapBlob(Seq<u8>),
    Path(Seq<(Single, Single)>),
    Scan(Seq<Single>, Seq<Single>, (Single, Single)),
    Goal(Goal),
}

impl View for Message {
    type V = MessageView;

    open spec fn view(&self) -> MessageView {
        match self {
            Message::Hello(h) => MessageView::Hello(h.version),
            Message::Pose(p) => MessageView::Pose(*p),
            Message::MapBlob(b) => MessageView::MapBlob(b@),
            Message::Path(p) => MessageView::Path(p.waypoints@),
            Message::Scan(s) => MessageView::Scan(s.angles_body@, s.ranges@, s.origin),
            Message::Goal(g) => MessageView::Goal(*g),
        }
    }
}

// ---- Layout -----------------------------------------------------------------

/// A run of numbers, four bytes each.
#[verifier::opaque]
pub open spec fn singles_bytes(s: Seq<Single>) -> Seq<u8> {
    Seq::new(4 * s.len(), |k: int| le32(s[k / 4].bits)[k % 4])
}

/// The coordinates of points in turn: x, y, x, y, ...
pub open spec fn coordinates(p: Seq<(Single, Single)>) -> Seq<Single> {
    Seq::new(
        2 * p.len(),
        |k: int|
            if k % 2 == 0 {
                p[k / 2].0
            } else {
                p[k / 2].1
            },
    )
}

/// The low 32 bits of a count, as counts and lengths go on the wire.
pub open spec fn wire_count(n: nat) -> u32 {
    (n % 0x1_0000_0000) as u32
}

/// The number at offset `at` of `s`.
pub open spec fn single_at(s: Seq<u8>, at: int) -> Single {
    Single { bits: get32(s.skip(at)) }
}

/// `n` numbers in a row from offset `at` of `s`.
pub open spec fn singles_at(s: Seq<u8>, at: int, n: nat) -> Seq<Single> {
    Seq::new(n, |k: int| single_at(s, at + 4 * k))
}

/// `n` points in a row from offset `at` of `s`.
pub open spec fn points_at(s: Seq<u8>, at: int, n: nat) -> Seq<(Single, Single)> {
    Seq::new(n, |k: int| (single_at(s, at + 8 * k), single_at(s, at + 8 * k + 4)))
}

/// The tag of a message.
pub open spec fn message_tag(m: MessageView) -> u8 {
    match m {
        MessageView::Hello(_) => TAG_HELLO,
        MessageView::Pose(_) => TAG_POSE,
        MessageView::MapBlob(_) => TAG_MAP,
        MessageView::Path(_) => TAG_PATH,
        MessageView::Scan(..) => TAG_SCAN,
        MessageView::Goal(_) => TAG_GOAL,
    }
}

/// The payload of a message.
pub open spec fn message_body(m: MessageView) -> Seq<u8> {
    match m {
        MessageView::Hello(v) => le32(v),
        MessageView::Pose(p) => le32(p.x.bits) + le32(p.y.bits) + le32(p.yaw.bits) + le32(
            p.std_xy.bits,
        ) + le32(p.residual_m.bits) + seq![p.lock.byte()] + le64(p.timestamp_ms),
        MessageView::MapBlob(b) => b,
        MessageView::Path(p) => le32(wire_count(p.len())) + singles_bytes(coordinates(p)),
        MessageView::Scan(a, r, o) => le32(wire_count(a.len())) + le32(o.0.bits) + le32(o.1.bits)
            + singles_bytes(a) + singles_bytes(r),
        MessageView::Goal(g) => le32(g.x.bits) + le32(g.y.bits),
    }
}

/// A payload behind its length and tag.
pub open spec fn frame(tag: u8, body: Seq<u8>) -> Seq<u8> {
    le32(wire_count(body.len() + 1)) + seq![tag] + body
}

/// A message on the wire.
pub open spec fn message_frame(m: MessageView) -> Seq<u8> {
    frame(message_tag(m), message_body(m))
}

/// What a payload with this tag says, or why it says nothing. Bytes after the
/// last field are ignored.
pub open spec fn parse_body(tag: u8, b: Seq<u8>) -> Result<MessageView, WireError> {
    if tag == TAG_HELLO {
        if b.len() < 4 {
            Err(WireError::Truncated)
        } else if get32(b) != PROTOCOL_VERSION {
            Err(WireError::BadVersion(get32(b)))
        } else {
            Ok(MessageView::Hello(get32(b)))
        }
    } else if tag == TAG_POSE {
        if b.len() < 29 {
            Err(WireError::Truncated)
        } else {
            Ok(
                MessageView::Pose(
                    Pose {
                        x: single_at(b, 0),
                        y: single_at(b, 4),
                        yaw: single_at(b, 8),
                        std_xy: single_at(b, 12),
                        residual_m: single_at(b, 16),
                        lock: LockState::of_byte(b[20]),
                        timestamp_ms: get64(b.skip(21)),
                    },
                ),
            )
        }
    } else if tag == TAG_MAP {
        Ok(MessageView::MapBlob(b))
    } else if tag == TAG_PATH {
        if b.len() < 4 || b.len() < 4 + 8 * get32(b) {
            Err(WireError::Truncated)
        } else {
            Ok(MessageView::Path(points_at(b, 4, get32(b) as nat)))
        }
    } else if tag == TAG_SCAN {
        if b.len() < 4 || b.len() < 12 + 8 * get32(b) {
            Err(WireError::Truncated)
        } else {
            Ok(
                MessageView::Scan(
                    singles_at(b, 12, get32(b) as nat),
                    singles_at(b, 12 + 4 * get32(b), get32(b) as nat),
                    (single_at(b, 4), single_at(b, 8)),
                ),
            )
        }
    } else if tag == TAG_GOAL {
        if b.len() < 8 {
            Err(WireError::Truncated)
        } else {
            Ok(MessageView::Goal(Goal { x: single_at(b, 0), y: single_at(b, 4) }))
        }
    } else {
        Err(WireError::BadTag(tag))
    }
}

/// The tag and payload of the frame at the front of `s`, or why there is none.
pub open spec fn parse_frame(s: Seq<u8>) -> Result<(u8, Seq<u8>), WireError> {
    if s.len() < 4 {
        Err(WireError::Io(IoKind::UnexpectedEof))
    } else if get32(s) == 0 {
        Err(WireError::Truncated)
    } else if s.len() < 4 + get32(s) {
        Err(WireError::Io(IoKind::UnexpectedEof))
    } else {
        Ok((s[4], s.subrange(5, 4 + get32(s))))
    }
}

/// What is left of `s` after reading a frame: an incomplete frame uses up
/// everything, an empty one its length field.
pub open spec fn after_frame(s: Seq<u8>) -> Seq<u8> {
    if s.len() < 4 || s.len() < 4 + get32(s) {
        Seq::empty()
    } else {
        s.skip(4 + get32(s))
    }
}

/// What the message at the front of `s` says, or why there is none.
pub open spec fn parse_message(s: Seq<u8>) -> Result<MessageView, WireError> {
    match parse_frame(s) {
        Err(e) => Err(e),
        Ok(f) => parse_body(f.0, f.1),
    }
}

/// `r` says what `want` says.
pub open spec fn same_outcome(
    r: Result<Message, WireError>,
    want: Result<MessageView, WireError>,
) -> bool {
    match r {
        Ok(m) => want == Ok::<MessageView, WireError>(m@),
        Err(e) => want == Err::<MessageView, WireError>(e),
    }
}

// ---- Frames -----------------------------------------------------------------

/// Appends a frame.
pub fn write_frame(w: &mut Vec<u8>, tag: u8, body: &[u8])
    ensures
        final(w)@ == old(w)@ + frame(tag, body@),
{
    let len: u32 = ((body.len() as u128 + 1) % 0x1_0000_0000) as u32;
    put_u32(w, len);
    w.push(tag);
    put_bytes(w, body);
    assert(w@ =~= old(w)@ + frame(tag, body@));
}

/// Number of payload bytes behind the tag, from a frame's length field; an
/// empty frame has no room for its tag.
pub fn frame_body_len(len: u32) -> (r: Result<usize, WireError>)
    ensures
        match r {
            Ok(n) => len > 0 && n == len - 1,
            Err(e) => len == 0 && e == WireError::Truncated,
        },
{
    if len < 1 {
        Err(WireError::Truncated)
    } else {
        Ok((len - 1) as usize)
    }
}

/// Takes a frame off the front of `r`.
pub fn read_frame(r: &mut &[u8]) -> (f: Result<(u8, Vec<u8>), WireError>)
    ensures
        match f {
            Ok(tb) => parse_frame((*old(r))@) == Ok::<(u8, Seq<u8>), WireError>((tb.0, tb.1@)),
            Err(e) => parse_frame((*old(r))@) == Err::<(u8, Seq<u8>), WireError>(e),
        },
        (*final(r))@ == after_frame((*old(r))@),
{
    let s: &[u8] = *r;
    let n = s.len();
    if n < 4 {
        *r = vstd::slice::slice_subrange(s, n, n);
        assert((*r)@ =~= after_frame(s@));
        return Err(WireError::Io(IoKind::UnexpectedEof));
    }
    let len: u32 = u32_at(s, 0);
    assert(s@.skip(0) =~= s@);
    let body_len = match frame_body_len(len) {
        Ok(b) => b,
        Err(e) => {
            *r = vstd::slice::slice_subrange(s, 4, n);
            assert((*r)@ =~= after_frame(s@));
            return Err(e);
        },
    };
    if n - 4 < 1 || n - 5 < body_len {
        *r = vstd::slice::slice_subrange(s, n, n);
        assert((*r)@ =~= after_frame(s@));
        return Err(WireError::Io(IoKind::UnexpectedEof));
    }
    let tag = s[4];
    let mut body: Vec<u8> = Vec::new();
    put_bytes(&mut body, vstd::slice::slice_subrange(s, 5, 5 + body_len));
    assert(body@ =~= s@.subrange(5, 4 + get32(s@)));
    *r = vstd::slice::slice_subrange(s, 5 + body_len, n);
    assert((*r)@ =~= after_frame(s@));
    Ok((tag, body))
}

// ---- Fields -----------------------------------------------------------------

/// Appends a number.
pub fn put_single(b: &mut Vec<u8>, v: Single)
    ensures
        final(b)@ == old(b)@ + le32(v.bits),
{
    put_u32(b, v.bits);
}

/// Appends numbers.
fn put_singles(b: &mut Vec<u8>, s: &[Single])
    ensures
        final(b)@ == old(b)@ + singles_bytes(s@),
{
    reveal(singles_bytes);
    let n = s.len();
    let mut k: usize = 0;
    while k < n
        invariant
            n == s@.len(),
            k <= n,
            b@ == old(b)@ + singles_bytes(s@.take(k as int)),
        decreases n - k,
    {
        put_single(b, s[k]);
        reveal(singles_bytes);
        assert(singles_bytes(s@.take(k + 1)) =~= singles_bytes(s@.take(k as int)) + le32(
            s@[k as int].bits,
        ));
        k = k + 1;
    }
    assert(s@.take(n as int) =~= s@);
}

/// Takes a `u32` off the front of `r`.
pub fn take_u32(r: &mut &[u8]) -> (v: Result<u32, WireError>)
    ensures
        match v {
            Ok(x) => (*old(r))@.len() >= 4 && x == get32((*old(r))@) && (*final(r))@ == (*old(
                r,
            ))@.skip(4),
            Err(e) => (*old(r))@.len() < 4 && e == WireError::Truncated && (*final(r))@ == (*old(
                r,
            ))@,
        },
{
    let s: &[u8] = *r;
    if s.len() < 4 {
        return Err(WireError::Truncated);
    }
    let v: u32 = u32_at(s, 0);
    assert(s@.skip(0) =~= s@);
    *r = vstd::slice::slice_subrange(s, 4, s.len());
    assert((*r)@ =~= s@.skip(4));
    Ok(v)
}

/// Takes a number off the front of `r`.
pub fn take_single(r: &mut &[u8]) -> (v: Result<Single, WireError>)
    ensures
        match v {
            Ok(x) => (*old(r))@.len() >= 4 && x.bits == get32((*old(r))@) && (*final(r))@ == (*old(
                r,
            ))@.skip(4),
            Err(e) => (*old(r))@.len() < 4 && e == WireError::Truncated && (*final(r))@ == (*old(
                r,
            ))@,
        },
{
    match take_u32(r) {
        Ok(bits) => Ok(Single { bits }),
        Err(e) => Err(e),
    }
}

// ---- Messages ---------------------------------------------------------------

/// Appends a greeting.
pub fn write_hello(w: &mut Vec<u8>, h: Hello)
    ensures
        final(w)@ == old(w)@ + message_frame(MessageView::Hello(h.version)),
{
    let mut body: Vec<u8> = Vec::new();
    put_u32(&mut body, h.version);
    assert(body@ =~= le32(h.version));
    write_frame(w, TAG_HELLO, body.as_slice());
}

/// Appends a pose.
pub fn write_pose(w: &mut Vec<u8>, p: Pose)
    ensures
        final(w)@ == old(w)@ + message_frame(MessageView::Pose(p)),
{
    let mut body: Vec<u8> = Vec::new();
    put_single(&mut body, p.x);
    put_single(&mut body, p.y);
    put_single(&mut body, p.yaw);
    put_single(&mut body, p.std_xy);
    put_single(&mut body, p.residual_m);
    body.push(p.lock.to_u8());
    put_u64(&mut body, p.timestamp_ms);
    assert(body@ =~= message_body(MessageView::Pose(p)));
    write_frame(w, TAG_POSE, body.as_slice());
}

/// Appends a saved occupancy grid.
pub fn write_map(w: &mut Vec<u8>, map_bytes: &[u8])
    ensures
        final(w)@ == old(w)@ + message_frame(MessageView::MapBlob(map_bytes@)),
{
    write_frame(w, TAG_MAP, map_bytes);
}

/// Appends a path.
pub fn write_path(w: &mut Vec<u8>, p: &Path)
    ensures
        final(w)@ == old(w)@ + message_frame(MessageView::Path(p.waypoints@)),
{
    let n = p.waypoints.len();
    let mut body: Vec<u8> = Vec::new();
    put_u32(&mut body, (n as u64 % 0x1_0000_0000) as u32);
    let ghost head = le32(wire_count(p.waypoints@.len()));
    assert(body@ =~= head);
    let mut k: usize = 0;
    reveal(singles_bytes);
    assert(singles_bytes(coordinates(p.waypoints@.take(0))) =~= Seq::<u8>::empty());
    while k < n
        invariant
            n == p.waypoints@.len(),
            k <= n,
            body@ == head + singles_bytes(coordinates(p.waypoints@.take(k as int))),
        decreases n - k,
    {
        let (x, y) = p.waypoints[k];
        put_single(&mut body, x);
        put_single(&mut body, y);
        proof {
            let before = coordinates(p.waypoints@.take(k as int));
            let after = coordinates(p.waypoints@.take(k + 1));
            assert(after =~= before.push(x).push(y));
            reveal(singles_bytes);
            assert(singles_bytes(after) =~= singles_bytes(before) + le32(x.bits) + le32(y.bits));
        }
        k = k + 1;
    }
    assert(p.waypoints@.take(n as int) =~= p.waypoints@);
    write_frame(w, TAG_PATH, body.as_slice());
}

/// Appends a scan.
pub fn write_scan(w: &mut Vec<u8>, s: &Scan)
    ensures
        final(w)@ == old(w)@ + message_frame(
            MessageView::Scan(s.angles_body@, s.ranges@, s.origin),
        ),
{
    let mut body: Vec<u8> = Vec::new();
    put_u32(&mut body, (s.angles_body.len() as u64 % 0x1_0000_0000) as u32);
    put_single(&mut body, s.origin.0);
    put_single(&mut body, s.origin.1);
    put_singles(&mut body, s.angles_body.as_slice());
    put_singles(&mut body, s.ranges.as_slice());
    assert(body@ =~= message_body(MessageView::Scan(s.angles_body@, s.ranges@, s.origin)));
    write_frame(w, TAG_SCAN, body.as_slice());
}

/// Appends a goal.
pub fn write_goal(w: &mut Vec<u8>, g: Goal)
    ensures
        final(w)@ == old(w)@ + message_frame(MessageView::Goal(g)),
{
    let mut body: Vec<u8> = Vec::new();
    put_single(&mut body, g.x);
    put_single(&mut body, g.y);
    assert(body@ =~= message_body(MessageView::Goal(g)));
    write_frame(w, TAG_GOAL, body.as_slice());
}

/// Takes `n` numbers off the front of `r`, as far as there are that many.
fn take_singles(r: &mut &[u8], n: u32) -> (v: Result<Vec<Single>, WireError>)
    ensures
        match v {
            Ok(x) => (*old(r))@.len() >= 4 * n && x@ == singles_at((*old(r))@, 0, n as nat) && (
            *final(r))@ == (*old(r))@.skip(4 * n),
            Err(e) => (*old(r))@.len() < 4 * n && e == WireError::Truncated,
        },
{
    let ghost s = (*r)@;
    let mut v: Vec<Single> = Vec::new();
    let mut k: u32 = 0;
    assert(s.skip(0) =~= s);
    while k < n
        invariant
            k <= n,
            s == (*old(r))@,
            s.len() >= 4 * k,
            (*r)@ == s.skip(4 * k),
            v@.len() == k,
            forall|t: int| 0 <= t < k ==> #[trigger] v@[t] == single_at(s, 4 * t),
        decreases n - k,
    {
        match take_single(r) {
            Ok(x) => {
                v.push(x);
                assert(s.skip(4 * k).skip(4) =~= s.skip(4 * (k + 1)));
            },
            Err(e) => {
                return Err(e);
            },
        }
        k = k + 1;
    }
    assert(v@ =~= singles_at(s, 0, n as nat));
    Ok(v)
}

/// What a payload with this tag says.
pub fn decode_message(tag: u8, body: Vec<u8>) -> (r: Result<Message, WireError>)
    ensures
        same_outcome(r, parse_body(tag, body@)),
{
    let ghost b = body@;
    let mut s: &[u8] = body.as_slice();
    assert(b.skip(0) =~= b);
    match tag {
        TAG_HELLO => {
            let version = match take_u32(&mut s) {
                Ok(v) => v,
                Err(e) => {
                    return Err(e);
                },
            };
            if version != PROTOCOL_VERSION {
                return Err(WireError::BadVersion(version));
            }
            Ok(Message::Hello(Hello { version }))
        },
        TAG_POSE => {
            if s.len() < 20 {
                return Err(WireError::Truncated);
            }
            let x = Single { bits: u32_at(s, 0) };
            let y = Single { bits: u32_at(s, 4) };
            let yaw = Single { bits: u32_at(s, 8) };
            let std_xy = Single { bits: u32_at(s, 12) };
            let residual_m = Single { bits: u32_at(s, 16) };
            if s.len() < 21 {
                return Err(WireError::Truncated);
            }
            let lock = LockState::from_u8(s[20]);
            if s.len() < 29 {
                return Err(WireError::Truncated);
            }
            let timestamp_ms: u64 = u64_at(s, 21);
            Ok(Message::Pose(Pose { x, y, yaw, std_xy, residual_m, lock, timestamp_ms }))
        },
        TAG_MAP => Ok(Message::MapBlob(body)),
        TAG_PATH => {
            let n: u32 = match take_u32(&mut s) {
                Ok(v) => v,
                Err(e) => {
                    return Err(e);
                },
            };
            let mut waypoints: Vec<(Single, Single)> = Vec::new();
            let mut k: u32 = 0;
            while k < n
                invariant
                    k <= n,
                    b.len() >= 4 + 8 * k,
                    s@ == b.skip(4 + 8 * k),
                    n == get32(b),
                    tag == TAG_PATH,
                    b == body@,
                    waypoints@.len() == k,
                    forall|t: int|
                        0 <= t < k ==> #[trigger] waypoints@[t] == (
                            single_at(b, 4 + 8 * t),
                            single_at(b, 8 + 8 * t),
                        ),
                decreases n - k,
            {
                let x = match take_single(&mut s) {
                    Ok(v) => v,
                    Err(e) => {
                        return Err(e);
                    },
                };
                assert(b.skip(4 + 8 * k).skip(4) =~= b.skip(8 + 8 * k));
                let y = match take_single(&mut s) {
                    Ok(v) => v,
                    Err(e) => {
                        return Err(e);
                    },
                };
                assert(b.skip(8 + 8 * k).skip(4) =~= b.skip(4 + 8 * (k + 1)));
                waypoints.push((x, y));
                k = k + 1;
            }
            assert(waypoints@ =~= points_at(b, 4, n as nat));
            Ok(Message::Path(Path { waypoints }))
        },
        TAG_SCAN => {
            let n: u32 = match take_u32(&mut s) {
                Ok(v) => v,
                Err(e) => {
                    return Err(e);
                },
            };
            let ox = match take_single(&mut s) {
                Ok(v) => v,
                Err(e) => {
                    return Err(e);
                },
            };
            assert(b.skip(4).skip(4) =~= b.skip(8));
            let oy = match take_single(&mut s) {
                Ok(v) => v,
                Err(e) => {
                    return Err(e);
                },
            };
            assert(b.skip(8).skip(4) =~= b.skip(12));
            let angles_body = match take_singles(&mut s, n) {
                Ok(v) => v,
                Err(e) => {
                    return Err(e);
                },
            };
            assert(b.skip(12).skip(4 * n) =~= b.skip(12 + 4 * n));
            let ranges = match take_singles(&mut s, n) {
                Ok(v) => v,
                Err(e) => {
                    return Err(e);
                },
            };
            proof {
                assert forall|t: int| 0 <= t < n implies #[trigger] angles_body@[t] == single_at(
                    b,
                    12 + 4 * t,
                ) by {
                    assert(b.skip(12).skip(0 + 4 * t) =~= b.skip(12 + 4 * t));
                }
                assert(angles_body@ =~= singles_at(b, 12, n as nat));
                assert forall|t: int| 0 <= t < n implies #[trigger] ranges@[t] == single_at(
                    b,
                    12 + 4 * n + 4 * t,
                ) by {
                    assert(b.skip(12 + 4 * n).skip(0 + 4 * t) =~= b.skip(12 + 4 * n + 4 * t));
                }
                assert(ranges@ =~= singles_at(b, 12 + 4 * n, n as nat));
            }
            Ok(Message::Scan(Scan { angles_body, ranges, origin: (ox, oy) }))
        },
        TAG_GOAL => {
            let x = match take_single(&mut s) {
                Ok(v) => v,
                Err(e) => {
                    return Err(e);
                },
            };
            let y = match take_single(&mut s) {
                Ok(v) => v,
                Err(e) => {
                    return Err(e);
                },
            };
            Ok(Message::Goal(Goal { x, y }))
        },
        t => Err(WireError::BadTag(t)),
    }
}

/// Takes a message off the front of `r`.
pub fn read_message(r: &mut &[u8]) -> (m: Result<Message, WireError>)
    ensures
        same_outcome(m, parse_message((*old(r))@)),
        (*final(r))@ == after_frame((*old(r))@),
{
    match read_frame(r) {
        Ok((tag, body)) => decode_message(tag, body),
        Err(e) => Err(e),
    }
}

// ---- Laws -------------------------------------------------------------------

/// A message that survives the wire: a greeting of this version, counts and
/// lengths that fit their 32-bit fields, a range for every angle.
pub open spec fn sendable(m: MessageView) -> bool {
    &&& message_body(m).len() + 1 <= u32::MAX
    &&& match m {
        MessageView::Hello(v) => v == PROTOCOL_VERSION,
        MessageView::Scan(a, r, _) => a.len() == r.len(),
        _ => true,
    }
}

/// One of the numbers written in a row from offset `at` is read there.
proof fn lemma_single_in_run(pre: Seq<u8>, s: Seq<Single>, post: Seq<u8>, b: Seq<u8>, k: int)
    requires
        b == pre + singles_bytes(s) + post,
        0 <= k < s.len(),
    ensures
        single_at(b, pre.len() + 4 * k) == s[k],
{
    reveal(singles_bytes);
    let run = singles_bytes(s);
    let x = b.skip(pre.len() + 4 * k);
    let y = le32(s[k].bits);
    assert((4 * k) / 4 == k && (4 * k) % 4 == 0);
    assert((4 * k + 1) / 4 == k && (4 * k + 1) % 4 == 1);
    assert((4 * k + 2) / 4 == k && (4 * k + 2) % 4 == 2);
    assert((4 * k + 3) / 4 == k && (4 * k + 3) % 4 == 3);
    assert(x[0] == run[4 * k] && x[1] == run[4 * k + 1] && x[2] == run[4 * k + 2] && x[3]
        == run[4 * k + 3]);
    assert(x[0] == y[0] && x[1] == y[1] && x[2] == y[2] && x[3] == y[3]);
    lemma_get32_le32(s[k].bits, Seq::empty());
    assert(y + Seq::<u8>::empty() =~= y);
}

/// Numbers written in a row from offset `at` are read there.
proof fn lemma_singles_at(pre: Seq<u8>, s: Seq<Single>, post: Seq<u8>, b: Seq<u8>)
    requires
        b == pre + singles_bytes(s) + post,
    ensures
        singles_at(b, pre.len() as int, s.len()) == s,
{
    let at = pre.len() as int;
    assert forall|k: int| 0 <= k < s.len() implies single_at(b, at + 4 * k) == #[trigger] s[k] by {
        lemma_single_in_run(pre, s, post, b, k);
    }
    assert(singles_at(b, at, s.len()) =~= s);
}

/// Points written in a row from offset `at` are read there.
proof fn lemma_points_at(pre: Seq<u8>, p: Seq<(Single, Single)>, b: Seq<u8>)
    requires
        b == pre + singles_bytes(coordinates(p)),
    ensures
        points_at(b, pre.len() as int, p.len()) == p,
{
    let c = coordinates(p);
    let at = pre.len() as int;
    assert(b =~= pre + singles_bytes(c) + Seq::<u8>::empty());
    lemma_singles_at(pre, c, Seq::empty(), b);
    assert forall|k: int| 0 <= k < p.len() implies (
        single_at(b, at + 8 * k),
        single_at(b, at + 8 * k + 4),
    ) == #[trigger] p[k] by {
        assert(singles_at(b, at, c.len())[2 * k] == c[2 * k]);
        assert(singles_at(b, at, c.len())[2 * k + 1] == c[2 * k + 1]);
        assert((2 * k) / 2 == k && (2 * k + 1) / 2 == k);
        assert(at + 4 * (2 * k) == at + 8 * k && at + 4 * (2 * k + 1) == at + 8 * k + 4);
    }
    assert(points_at(b, at, p.len()) =~= p);
}

/// A pose's fields are read where they were written.
proof fn lemma_pose_round_trip(p: Pose)
    ensures
        parse_body(TAG_POSE, message_body(MessageView::Pose(p))) == Ok::<MessageView, WireError>(
            MessageView::Pose(p),
        ),
{
    let b = message_body(MessageView::Pose(p));
    let five = seq![p.x, p.y, p.yaw, p.std_xy, p.residual_m];
    let tail = seq![p.lock.byte()] + le64(p.timestamp_ms);
    reveal(singles_bytes);
    assert(b =~= singles_bytes(five) + tail);
    assert(b.len() == 29 && b[20] == p.lock.byte());
    assert(b.skip(21) =~= le64(p.timestamp_ms) + Seq::<u8>::empty());
    lemma_get64_le64(p.timestamp_ms, Seq::empty());
    assert(b =~= Seq::<u8>::empty() + singles_bytes(five) + tail);
    lemma_singles_at(Seq::empty(), five, tail, b);
    let read = singles_at(b, 0, 5);
    assert(read == five);
    assert(read[0] == single_at(b, 0) && read[1] == single_at(b, 4) && read[2] == single_at(b, 8)
        && read[3] == single_at(b, 12) && read[4] == single_at(b, 16));
}

/// A run holds four bytes for each number.
proof fn lemma_singles_len(s: Seq<Single>)
    ensures
        singles_bytes(s).len() == 4 * s.len(),
{
    reveal(singles_bytes);
}

/// Two numbers in a row are one after the other.
proof fn lemma_two_singles(x: Single, y: Single)
    ensures
        singles_bytes(seq![x, y]) == le32(x.bits) + le32(y.bits),
{
    reveal(singles_bytes);
    assert(singles_bytes(seq![x, y]) =~= le32(x.bits) + le32(y.bits));
}

/// Ways to part runs of bytes.
proof fn lemma_runs(p: Seq<u8>, q: Seq<u8>, r: Seq<u8>, s: Seq<u8>)
    ensures
        p + q + r + s == p + (q + r + s),
        p + q + r + s == p + q + (r + s),
        p + q + r + s == p + (q + r) + s,
        p + q + r + s == p + q + r + s + Seq::<u8>::empty(),
{
    let all = p + q + r + s;
    assert(all =~= p + (q + r + s));
    assert(all =~= p + q + (r + s));
    assert(all =~= p + (q + r) + s);
    assert(all =~= all + Seq::<u8>::empty());
}

/// A scan's fields are read where they were written.
#[verifier::spinoff_prover]
proof fn lemma_scan_round_trip(a: Seq<Single>, r: Seq<Single>, o: (Single, Single))
    requires
        a.len() == r.len() <= u32::MAX,
    ensures
        parse_body(TAG_SCAN, message_body(MessageView::Scan(a, r, o))) == Ok::<
            MessageView,
            WireError,
        >(MessageView::Scan(a, r, o)),
{
    let b = message_body(MessageView::Scan(a, r, o));
    let n = wire_count(a.len());
    let start = seq![o.0, o.1];
    let (h, p, q) = (le32(n), singles_bytes(start), singles_bytes(a));
    lemma_singles_len(start);
    lemma_singles_len(a);
    lemma_singles_len(r);
    assert(h.len() == 4 && p.len() == 8 && q.len() == 4 * a.len());
    assert(b.len() == 12 + 8 * n);
    assert(b == h + p + q + singles_bytes(r)) by {
        lemma_two_singles(o.0, o.1);
        lemma_runs(h, le32(o.0.bits), le32(o.1.bits), q);
    }
    assert(get32(b) == n) by {
        lemma_runs(h, p, q, singles_bytes(r));
        lemma_get32_le32(n, p + q + singles_bytes(r));
    }
    assert(single_at(b, 4) == o.0 && single_at(b, 8) == o.1) by {
        lemma_runs(h, p, q, singles_bytes(r));
        lemma_singles_at(h, start, q + singles_bytes(r), b);
        let read = singles_at(b, 4, 2);
        assert(read[0] == single_at(b, 4) && read[1] == single_at(b, 8));
    }
    assert(singles_at(b, 12, a.len()) == a) by {
        lemma_singles_at(h + p, a, singles_bytes(r), b);
    }
    assert(singles_at(b, 12 + 4 * n, a.len()) == r) by {
        lemma_runs(h, p, q, singles_bytes(r));
        lemma_singles_at(h + p + q, r, Seq::empty(), b);
    }
}

/// Reading a written payload gives back the message.
proof fn lemma_body_round_trip(m: MessageView)
    requires
        sendable(m),
    ensures
        parse_body(message_tag(m), message_body(m)) == Ok::<MessageView, WireError>(m),
{
    let b = message_body(m);
    let none = Seq::<u8>::empty();
    match m {
        MessageView::Hello(v) => {
            lemma_get32_le32(v, none);
            assert(le32(v) + none =~= le32(v));
        },
        MessageView::Pose(p) => {
            lemma_pose_round_trip(p);
        },
        MessageView::MapBlob(_) => {},
        MessageView::Path(p) => {
            let n = wire_count(p.len());
            lemma_get32_le32(n, singles_bytes(coordinates(p)));
            lemma_points_at(le32(n), p, b);
            lemma_singles_len(coordinates(p));
        },
        MessageView::Scan(a, r, o) => {
            lemma_singles_len(a);
            lemma_scan_round_trip(a, r, o);
        },
        MessageView::Goal(g) => {
            lemma_two_singles(g.x, g.y);
            assert(b == none + b + none);
            lemma_singles_at(none, seq![g.x, g.y], none, b);
            let read = singles_at(b, 0, 2);
            assert(read[0] == single_at(b, 0) && read[1] == single_at(b, 4));
        },
    }
}

/// A frame is read back whole, and reading stops right behind it.
proof fn lemma_frame_round_trip(tag: u8, body: Seq<u8>, rest: Seq<u8>)
    requires
        body.len() + 1 <= u32::MAX,
    ensures
        parse_frame(frame(tag, body) + rest) == Ok::<(u8, Seq<u8>), WireError>((tag, body)),
        after_frame(frame(tag, body) + rest) == rest,
{
    let s = frame(tag, body) + rest;
    let n = wire_count(body.len() + 1);
    assert(s =~= le32(n) + (seq![tag] + body + rest));
    lemma_get32_le32(n, seq![tag] + body + rest);
    assert(s.subrange(5, 4 + n) =~= body);
    assert(s.skip(4 + n) =~= rest);
}

/// Reading a written message gives back the message and leaves what follows
/// it, for every message that [`sendable`] admits.
pub proof fn law_message_round_trip(m: MessageView, rest: Seq<u8>)
    requires
        sendable(m),
    ensures
        parse_message(message_frame(m) + rest) == Ok::<MessageView, WireError>(m),
        after_frame(message_frame(m) + rest) == rest,
{
    lemma_body_round_trip(m);
    lemma_frame_round_trip(message_tag(m), message_body(m), rest);
}

/// A frame is four bytes longer than its length field says.
pub proof fn law_frame_size(tag: u8, body: Seq<u8>)
    requires
        body.len() + 1 <= u32::MAX,
    ensures
        frame(tag, body).len() == get32(frame(tag, body)) + 4,
{
    let n = wire_count(body.len() + 1);
    assert(frame(tag, body) =~= le32(n) + (seq![tag] + body));
    lemma_get32_le32(n, seq![tag] + body);
}

/// A greeting of another version is refused with that version.
pub proof fn law_other_version_refused(v: u32, rest: Seq<u8>)
    requires
        v != PROTOCOL_VERSION,
    ensures
        parse_message(message_frame(MessageView::Hello(v)) + rest) == Err::<MessageView, WireError>(
            WireError::BadVersion(v),
        ),
        after_frame(message_frame(MessageView::Hello(v)) + rest) == rest,
{
    lemma_frame_round_trip(TAG_HELLO, le32(v), rest);
    lemma_get32_le32(v, Seq::empty());
    assert(le32(v) + Seq::<u8>::empty() =~= le32(v));
}

/// A frame with an unknown tag is refused with that tag, and skipped.
pub proof fn law_unknown_tag_refused(tag: u8, body: Seq<u8>, rest: Seq<u8>)
    requires
        body.len() + 1 <= u32::MAX,
        tag != TAG_HELLO && tag != TAG_POSE && tag != TAG_MAP && tag != TAG_PATH && tag != TAG_SCAN
            && tag != TAG_GOAL,
    ensures
        parse_message(frame(tag, body) + rest) == Err::<MessageView, WireError>(
            WireError::BadTag(tag),
        ),
        after_frame(frame(tag, body) + rest) == rest,
{
    lemma_frame_round_trip(tag, body, rest);
}

/// No strict prefix of a frame is mistaken for a message.
pub proof fn law_incomplete_frame(tag: u8, body: Seq<u8>, n: int)
    requires
        body.len() + 1 <= u32::MAX,
        0 <= n < frame(tag, body).len(),
    ensures
        parse_message(frame(tag, body).take(n)) == Err::<MessageView, WireError>(
            WireError::Io(IoKind::UnexpectedEof),
        ),
{
    let f = frame(tag, body);
    law_frame_size(tag, body);
    if n >= 4 {
        let s = f.take(n);
        assert(s[0] == f[0] && s[1] == f[1] && s[2] == f[2] && s[3] == f[3]);
    }
}

/// Bytes appended to a payload by a newer peer do not change what it says,
/// for every message but a map, whose payload is all of it.
pub proof fn law_appended_fields_ignored(m: MessageView, extra: Seq<u8>)
    requires
        sendable(m),
        !(m is MapBlob),
    ensures
        parse_body(message_tag(m), message_body(m) + extra) == Ok::<MessageView, WireError>(m),
{
    let b = message_body(m);
    let c = b + extra;
    lemma_body_round_trip(m);
    assert forall|at: int| 0 <= at && at + 4 <= b.len() implies #[trigger] single_at(c, at)
        == single_at(b, at) by {
        assert(c.skip(at)[0] == b.skip(at)[0] && c.skip(at)[1] == b.skip(at)[1] && c.skip(at)[2]
            == b.skip(at)[2] && c.skip(at)[3] == b.skip(at)[3]);
    }
    match m {
        MessageView::Hello(_) => {},
        MessageView::Pose(p) => {
            let x = c.skip(21);
            let y = b.skip(21);
            assert(x[0] == y[0] && x[1] == y[1] && x[2] == y[2] && x[3] == y[3]);
            assert(x.skip(4)[0] == y.skip(4)[0] && x.skip(4)[1] == y.skip(4)[1] && x.skip(4)[2]
                == y.skip(4)[2] && x.skip(4)[3] == y.skip(4)[3]);
        },
        MessageView::MapBlob(_) => {},
        MessageView::Path(p) => {
            let n = get32(b) as nat;
            assert(get32(c) == get32(b));
            assert(points_at(c, 4, n) =~= points_at(b, 4, n));
        },
        MessageView::Scan(a, r, o) => {
            let n = get32(b) as nat;
            assert(get32(c) == get32(b));
            assert(singles_at(c, 12, n) =~= singles_at(b, 12, n));
            assert(singles_at(c, 12 + 4 * (n as int), n) =~= singles_at(b, 12 + 4 * (n as int), n));
        },
        MessageView::Goal(_) => {},
    }
}

/// The byte of a lock state stands for that state.
pub proof fn law_lock_byte(s: LockState)
    ensures
        LockState::of_byte(s.byte()) == s,
{
}

} // verus!
