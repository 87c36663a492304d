//! Telemetry and goal connections, as state machines.
//!
//! Two independent servers, each with a single client. [`Telemetry`] pushes
//! pose, map, path and scan frames to whoever is connected; [`GoalServer`]
//! reads goals. The caller owns the sockets: it asks what to do, does it, and
//! reports what came of it. A network error means that the client is gone.

use vstd::prelude::*;
use crate::bytes::{get32, put_bytes, u32_at};
use crate::wire::{after_frame, message_frame, parse_message, read_message};
use crate::wire::{write_hello, write_map, write_path, write_pose, write_scan};
use crate::wire::{Goal, Hello, Message, MessageView, Path, Pose, Scan, PROTOCOL_VERSION};

verus! {

/// Default port of [`Telemetry`].
pub const TELEMETRY_DEFAULT_PORT: u16 = 9874;

/// Default port of [`GoalServer`].
pub const GOAL_DEFAULT_PORT: u16 = 9875;

// ---- Telemetry --------------------------------------------------------------

/// Server side of a telemetry connection.
#[derive(Debug)]
pub struct Telemetry {
    connected: bool,
}

impl Telemetry {
    /// A client is connected.
    pub closed spec fn client(&self) -> bool {
        self.connected
    }

    /// No client yet.
    pub fn new() -> (t: Self)
        ensures
            !t.client(),
    {
        Telemetry { connected: false }
    }

    /// True if a client is connected.
    pub fn has_client(&self) -> (r: bool)
        ensures
            r == self.client(),
    {
        self.connected
    }

    /// What to send to a client that is waiting to connect; `None` while there
    /// is one already, which then stays the only one.
    pub fn poll_accept(&self) -> (r: Option<Vec<u8>>)
        ensures
            r is Some <==> !self.client(),
            r matches Some(b) ==> b@ == message_frame(MessageView::Hello(PROTOCOL_VERSION)),
    {
        if self.connected {
            return None;
        }
        let mut b: Vec<u8> = Vec::new();
        write_hello(&mut b, Hello { version: PROTOCOL_VERSION });
        assert(b@ =~= message_frame(MessageView::Hello(PROTOCOL_VERSION)));
        Some(b)
    }

    /// A new client was sent the greeting; it is connected if that arrived.
    pub fn greeted(&mut self, arrived: bool)
        ensures
            final(self).client() == (old(self).client() || arrived),
    {
        if arrived {
            self.connected = true;
        }
    }

    /// What was to be sent was sent, or not; a client that could not be reached
    /// is dropped.
    pub fn sent(&mut self, arrived: bool)
        ensures
            final(self).client() == (old(self).client() && arrived),
    {
        if !arrived {
            self.connected = false;
        }
    }

    /// The frame of a pose, if there is a client for it.
    pub fn send_pose(&self, p: Pose) -> (r: Option<Vec<u8>>)
        ensures
            r is Some <==> self.client(),
            r matches Some(b) ==> b@ == message_frame(MessageView::Pose(p)),
    {
        if !self.connected {
            return None;
        }
        let mut b: Vec<u8> = Vec::new();
        write_pose(&mut b, p);
        assert(b@ =~= message_frame(MessageView::Pose(p)));
        Some(b)
    }

    /// The frame of a map, if there is a client for it.
    pub fn send_map(&self, bytes: &[u8]) -> (r: Option<Vec<u8>>)
        ensures
            r is Some <==> self.client(),
            r matches Some(b) ==> b@ == message_frame(MessageView::MapBlob(bytes@)),
    {
        if !self.connected {
            return None;
        }
        let mut b: Vec<u8> = Vec::new();
        write_map(&mut b, bytes);
        assert(b@ =~= message_frame(MessageView::MapBlob(bytes@)));
        Some(b)
    }

    /// The frame of a path, if there is a client for it.
    pub fn send_path(&self, p: &Path) -> (r: Option<Vec<u8>>)
        ensures
            r is Some <==> self.client(),
            r matches Some(b) ==> b@ == message_frame(MessageView::Path(p.waypoints@)),
    {
        if !self.connected {
            return None;
        }
        let mut b: Vec<u8> = Vec::new();
        write_path(&mut b, p);
        assert(b@ =~= message_frame(MessageView::Path(p.waypoints@)));
        Some(b)
    }

    /// The frame of a scan, if there is a client for it.
    pub fn send_scan(&self, sc: &Scan) -> (r: Option<Vec<u8>>)
        ensures
            r is Some <==> self.client(),
            r matches Some(b) ==> b@ == message_frame(
                MessageView::Scan(sc.angles_body@, sc.ranges@, sc.origin),
            ),
    {
        if !self.connected {
            return None;
        }
        let mut b: Vec<u8> = Vec::new();
        write_scan(&mut b, sc);
        assert(b@ =~= message_frame(MessageView::Scan(sc.angles_body@, sc.ranges@, sc.origin)));
        Some(b)
    }
}

// ---- Goals ------------------------------------------------------------------

/// A frame is at the front of `s` whole.
pub open spec fn frame_whole(s: Seq<u8>) -> bool {
    s.len() >= 4 && s.len() >= 4 + get32(s)
}

/// What is made of the bytes that arrived.
pub struct Drained {
    /// The newest goal.
    pub goal: Option<Goal>,
    /// The bytes of a frame that is not whole yet.
    pub rest: Seq<u8>,
    /// Every whole frame was a message.
    pub sound: bool,
}

/// Reads all whole frames: a goal replaces the one before it, other messages
/// are passed over, and a frame that is no message ends the reading.
pub open spec fn drained(s: Seq<u8>, goal: Option<Goal>) -> Drained
    decreases s.len(),
{
    if !frame_whole(s) {
        Drained { goal, rest: s, sound: true }
    } else {
        match parse_message(s) {
            Ok(MessageView::Goal(g)) => drained(after_frame(s), Some(g)),
            Ok(_) => drained(after_frame(s), goal),
            Err(_) => Drained { goal, rest: Seq::empty(), sound: false },
        }
    }
}

/// Server side of a goal connection.
#[derive(Debug)]
pub struct GoalServer {
    connected: bool,
    inbox: Vec<u8>,
}

impl GoalServer {
    /// A client is connected.
    pub closed spec fn client(&self) -> bool {
        self.connected
    }

    /// The bytes that arrived and were not made use of yet.
    pub closed spec fn pending(&self) -> Seq<u8> {
        self.inbox@
    }

    /// No client yet.
    pub fn new() -> (s: Self)
        ensures
            !s.client(),
            s.pending().len() == 0,
    {
        GoalServer { connected: false, inbox: Vec::new() }
    }

    /// True if a client is connected; another one is let in only if not.
    pub fn has_client(&self) -> (r: bool)
        ensures
            r == self.client(),
    {
        self.connected
    }

    /// A client connected. Nothing of an earlier one is left.
    pub fn joined(&mut self)
        ensures
            final(self).client(),
            final(self).pending().len() == 0,
    {
        self.connected = true;
        self.inbox = Vec::new();
    }

    /// Bytes of the client arrived.
    pub fn arrived(&mut self, bytes: &[u8])
        ensures
            final(self).client() == old(self).client(),
            final(self).pending() == old(self).pending() + bytes@,
    {
        put_bytes(&mut self.inbox, bytes);
    }

    /// Makes use of all that arrived and gives the most recent goal of this tick;
    /// older ones are discarded. Other messages are ignored. A client that sent
    /// something else, or that is `gone`, is dropped; a frame that is not whole
    /// yet is kept for later.
    pub fn tick(&mut self, gone: bool) -> (r: Option<Goal>)
        ensures
            ({
                let d = drained(old(self).pending(), None);
                &&& r == (if old(self).client() {
                    d.goal
                } else {
                    None
                })
                &&& final(self).client() == (old(self).client() && d.sound && !gone)
                &&& final(self).pending() == (if final(self).client() {
                    d.rest
                } else {
                    Seq::empty()
                })
            }),
    {
        if !self.connected {
            self.inbox = Vec::new();
            assert(self.pending() =~= Seq::empty());
            return None;
        }
        let mut latest: Option<Goal> = None;
        let mut sound = true;
        let mut open = true;
        let mut s: &[u8] = self.inbox.as_slice();
        let ghost all = s@;
        while open
            invariant
                open ==> sound && drained(all, None) == drained(s@, latest),
                !open ==> drained(all, None) == (Drained { goal: latest, rest: s@, sound }),
                !sound ==> s@.len() == 0,
            decreases
                    s@.len(),
                    if open {
                        1int
                    } else {
                        0int
                    },
        {
            let n = s.len();
            let mut whole = false;
            if n >= 4 {
                assert(s@.skip(0) =~= s@);
                let len: u32 = u32_at(s, 0);
                whole = n - 4 >= len as usize;
            }
            assert(whole == frame_whole(s@));
            if !whole {
                open = false;
            } else {
                let ghost before = s@;
                match read_message(&mut s) {
                    Ok(Message::Goal(g)) => {
                        latest = Some(g);
                    },
                    Ok(_) => {},
                    Err(_) => {
                        sound = false;
                        open = false;
                        s = vstd::slice::slice_subrange(s, s.len(), s.len());
                        assert(s@ =~= Seq::empty());
                    },
                }
            }
        }
        let mut rest: Vec<u8> = Vec::new();
        let stays = sound && !gone;
        if stays {
            put_bytes(&mut rest, s);
        }
        assert(rest@ =~= if stays {
            s@
        } else {
            Seq::empty()
        });
        self.inbox = rest;
        self.connected = stays;
        latest
    }
}

// ---- Laws -------------------------------------------------------------------

/// After any whole messages, a goal is the one that counts.
pub proof fn law_newest_goal_wins(s: Seq<u8>, before: Option<Goal>, g: Goal)
    requires
        drained(s, before).sound,
        drained(s, before).rest.len() == 0,
    ensures
        drained(s + message_frame(MessageView::Goal(g)), before) == (Drained {
            goal: Some(g),
            rest: Seq::empty(),
            sound: true,
        }),
{
    let m = MessageView::Goal(g);
    let f = message_frame(m);
    let none = Seq::<u8>::empty();
    law_parts_add_up(s, f, before);
    let first = drained(s, before);
    assert(first.rest + f =~= f);
    assert(f + none =~= f);
    crate::wire::law_message_round_trip(m, none);
    crate::wire::law_frame_size(crate::wire::message_tag(m), crate::wire::message_body(m));
    assert(after_frame(f) == none);
    assert(!frame_whole(none));
    reveal_with_fuel(drained, 2);
}

/// Reading may stop anywhere and go on later: bytes that arrive in two parts
/// come to the same as in one, as long as the first part is sound.
pub proof fn law_parts_add_up(s: Seq<u8>, more: Seq<u8>, goal: Option<Goal>)
    requires
        drained(s, goal).sound,
    ensures
        ({
            let first = drained(s, goal);
            drained(s + more, goal) == drained(first.rest + more, first.goal)
        }),
    decreases s.len(),
{
    if frame_whole(s) {
        let t = s + more;
        assert(get32(t) == get32(s));
        assert(t.subrange(5, 4 + get32(t)) =~= s.subrange(5, 4 + get32(s)));
        assert(after_frame(t) =~= after_frame(s) + more);
        match parse_message(s) {
            Ok(MessageView::Goal(g)) => {
                law_parts_add_up(after_frame(s), more, Some(g));
            },
            Ok(_) => {
                law_parts_add_up(after_frame(s), more, goal);
            },
            Err(_) => {},
        }
    }
}

} // verus!
