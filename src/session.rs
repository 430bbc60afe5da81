//! The client side of a two-peer session: the 4-byte position frame, and the
//! protocol as a state machine. The caller performs each action it asks for
//! on the connection and hands back what happened; the session decides what
//! comes next.
use vstd::prelude::*;

use crate::grid::{GridPosition, Grid, MAX_SIZE, MazeError, decodable, decode_cells, encode_cells};

verus! {

/// The two bytes of a 16-bit signed integer, most significant first.
pub open spec fn be_bytes(v: i16) -> Seq<u8> {
    let u: int = if v < 0 {
        v + 65536
    } else {
        v as int
    };
    seq![(u / 256) as u8, (u % 256) as u8]
}

/// The 16-bit signed integer whose big-endian bytes are `hi`, `lo`.
pub open spec fn from_be(hi: u8, lo: u8) -> i16 {
    let u = hi as int * 256 + lo as int;
    (if u >= 32768 {
        u - 65536
    } else {
        u
    }) as i16
}

/// The position frame: `x` then `y`, each as two big-endian bytes.
pub open spec fn position_frame(p: GridPosition) -> Seq<u8> {
    be_bytes(p.x) + be_bytes(p.y)
}

/// The position a 4-byte frame stands for.
pub open spec fn position_of_frame(b: Seq<u8>) -> GridPosition {
    GridPosition { x: from_be(b[0], b[1]), y: from_be(b[2], b[3]) }
}

pub fn encode_position(pos: GridPosition) -> (bytes: Vec<u8>)
    ensures
        bytes@ == position_frame(pos),
{
    let ux: i32 = if pos.x < 0 {
        pos.x as i32 + 65536
    } else {
        pos.x as i32
    };
    let uy: i32 = if pos.y < 0 {
        pos.y as i32 + 65536
    } else {
        pos.y as i32
    };
    let mut bytes: Vec<u8> = Vec::new();
    bytes.push((ux / 256) as u8);
    bytes.push((ux % 256) as u8);
    bytes.push((uy / 256) as u8);
    bytes.push((uy % 256) as u8);
    proof {
        assert(bytes@ =~= position_frame(pos));
    }
    bytes
}

fn i16_from_be(hi: u8, lo: u8) -> (v: i16)
    ensures
        v == from_be(hi, lo),
{
    let u: i32 = hi as i32 * 256 + lo as i32;
    let s: i32 = if u >= 32768 {
        u - 65536
    } else {
        u
    };
    s as i16
}

/// Reads a position frame; any other length than four bytes is a short read.
pub fn decode_position(bytes: &[u8]) -> (r: Result<GridPosition, MazeError>)
    ensures
        bytes@.len() == 4 ==> r == Ok::<GridPosition, MazeError>(position_of_frame(bytes@)),
        bytes@.len() != 4 ==> r == Err::<GridPosition, MazeError>(MazeError::ProtocolShortRead),
{
    if bytes.len() != 4 {
        return Err(MazeError::ProtocolShortRead);
    }
    Ok(GridPosition { x: i16_from_be(bytes[0], bytes[1]), y: i16_from_be(bytes[2], bytes[3]) })
}

/// A position survives the trip through its frame, and a 4-byte frame
/// survives the trip through its position.
pub proof fn lemma_position_frame_round_trip(p: GridPosition, b: Seq<u8>)
    ensures
        position_frame(p).len() == 4,
        position_of_frame(position_frame(p)) == p,
        b.len() == 4 ==> position_frame(position_of_frame(b)) == b,
{
    let f = position_frame(p);
    assert(f[0] == be_bytes(p.x)[0] && f[1] == be_bytes(p.x)[1]);
    assert(f[2] == be_bytes(p.y)[0] && f[3] == be_bytes(p.y)[1]);
    if b.len() == 4 {
        assert(position_frame(position_of_frame(b)) =~= b);
    }
}

/// Which side of the session: the host generates the maze and sends it, the
/// joiner receives it.
#[derive(Clone, Copy, PartialEq, Eq, Structural, Debug)]
pub enum Role {
    Host,
    Joiner,
}

/// Where a session stands. After the maze and the starting position have
/// gone across, each tick is one position frame written, then one read.
#[derive(Clone, Copy, PartialEq, Eq, Structural, Debug)]
pub enum Phase {
    MazeTransfer,
    StartTransfer,
    SendPosition,
    ReceivePosition,
    Closed,
}

/// What the session asks of the connection next.
pub enum Action {
    /// Write these bytes as one message.
    Write(Vec<u8>),
    /// Read a frame of this many bytes.
    Read(usize),
    /// The session is over: stop the tick loop and close the connection.
    Stop,
}

/// What became of the last action.
pub enum Event {
    Written,
    Received(Vec<u8>),
    Failed,
}

pub open spec fn expects_write(role: Role, phase: Phase) -> bool {
    ||| phase == Phase::SendPosition
    ||| role == Role::Host && (phase == Phase::MazeTransfer || phase == Phase::StartTransfer)
}

pub open spec fn expects_read(role: Role, phase: Phase) -> bool {
    ||| phase == Phase::ReceivePosition
    ||| role == Role::Joiner && (phase == Phase::MazeTransfer || phase == Phase::StartTransfer)
}

/// The phase after a write has gone through.
pub open spec fn after_write(phase: Phase) -> Phase {
    match phase {
        Phase::MazeTransfer => Phase::StartTransfer,
        Phase::StartTransfer => Phase::SendPosition,
        _ => Phase::ReceivePosition,
    }
}

/// One peer's side of a session.
pub struct PeerSession {
    pub role: Role,
    pub phase: Phase,
    pub size: usize,
    pub grid: Option<Grid>,
    pub local: GridPosition,
    pub remote: GridPosition,
}

impl PeerSession {
    /// The board, when there is one, has the session's size; the host always
    /// holds it, the joiner once it has arrived.
    pub open spec fn wf(&self) -> bool {
        &&& self.size <= MAX_SIZE
        &&& self.grid matches Some(g) ==> g.wf() && g.dim() == self.size
        &&& self.role == Role::Host ==> self.grid is Some
        &&& self.role == Role::Joiner && (self.phase == Phase::StartTransfer || self.phase
            == Phase::SendPosition || self.phase == Phase::ReceivePosition) ==> self.grid is Some
    }

    /// The host's side: it owns `grid` and starts at `start`.
    pub fn host(grid: Grid, start: GridPosition) -> (s: PeerSession)
        requires
            grid.wf(),
        ensures
            s.wf(),
            s.role == Role::Host,
            s.phase == Phase::MazeTransfer,
            s.size == grid.dim(),
            s.grid == Some(grid),
            s.local == start,
            s.remote == start,
    {
        let size = grid.size();
        PeerSession { role: Role::Host, phase: Phase::MazeTransfer, size, grid: Some(grid), local: start, remote: start }
    }

    /// The joiner's side, expecting a board of `size × size` cells.
    pub fn joiner(size: usize) -> (s: PeerSession)
        requires
            size <= MAX_SIZE,
        ensures
            s.wf(),
            s.role == Role::Joiner,
            s.phase == Phase::MazeTransfer,
            s.size == size,
            (s.grid is None),
            (s.local == GridPosition { x: 0, y: 0 }),
            (s.remote == GridPosition { x: 0, y: 0 }),
    {
        let origin = GridPosition { x: 0, y: 0 };
        PeerSession { role: Role::Joiner, phase: Phase::MazeTransfer, size, grid: None, local: origin, remote: origin }
    }

    /// The next thing to do on the connection: the host writes the maze frame
    /// and then its starting position; the joiner reads `size × size` bytes and
    /// then four; after that each tick writes the local position and reads the
    /// remote one.
    pub fn next_action(&self) -> (a: Action)
        requires
            self.wf(),
        ensures
            self.phase == Phase::Closed ==> (a is Stop),
            expects_write(self.role, self.phase) && self.phase == Phase::MazeTransfer ==> (a matches Action::Write(b)
                && b@ == encode_cells(self.grid.unwrap()@)),
            expects_write(self.role, self.phase) && self.phase != Phase::MazeTransfer ==> (a matches Action::Write(b)
                && b@ == position_frame(self.local)),
            expects_read(self.role, self.phase) && self.phase == Phase::MazeTransfer ==> (a matches Action::Read(k)
                && k == self.size * self.size),
            expects_read(self.role, self.phase) && self.phase != Phase::MazeTransfer ==> (a matches Action::Read(k)
                && k == 4),
    {
        match self.phase {
            Phase::Closed => Action::Stop,
            Phase::MazeTransfer => match self.role {
                Role::Host => match &self.grid {
                    Some(g) => Action::Write(g.to_bytes()),
                    None => Action::Stop,
                },
                Role::Joiner => {
                    proof {
                        crate::grid::lemma_square_fits(self.size as int);
                    }
                    Action::Read(self.size * self.size)
                },
            },
            Phase::StartTransfer => match self.role {
                Role::Host => Action::Write(encode_position(self.local)),
                Role::Joiner => Action::Read(4),
            },
            Phase::SendPosition => Action::Write(encode_position(self.local)),
            Phase::ReceivePosition => Action::Read(4),
        }
    }

    /// Takes in what became of the last action. A failed action, an event
    /// that does not answer the pending action, or any event once closed ends
    /// the session with `ConnectionFailed`; a frame that cannot be read ends it
    /// with the frame's error.
    pub fn handle(&mut self, event: Event) -> (r: Result<(), MazeError>)
        requires
            old(self).wf(),
        ensures
            final(self).wf(),
            final(self).role == old(self).role,
            final(self).size == old(self).size,
            // the session ends on a failure, a closed session, or a mismatched event
            ({
                let mismatched = match event {
                    Event::Written => !expects_write(old(self).role, old(self).phase),
                    Event::Received(_) => !expects_read(old(self).role, old(self).phase),
                    Event::Failed => true,
                };
                old(self).phase == Phase::Closed || mismatched ==> {
                    &&& r == Err::<(), MazeError>(MazeError::ConnectionFailed)
                    &&& final(self).phase == Phase::Closed
                    &&& final(self).grid == old(self).grid
                    &&& final(self).local == old(self).local
                    &&& final(self).remote == old(self).remote
                }
            }),
            event is Written && expects_write(old(self).role, old(self).phase) ==> {
                &&& r is Ok
                &&& final(self).phase == after_write(old(self).phase)
                &&& final(self).grid == old(self).grid
                &&& final(self).local == old(self).local
                &&& final(self).remote == old(self).remote
            },
            event matches Event::Received(b) ==> (expects_read(old(self).role, old(self).phase)
                && old(self).phase == Phase::MazeTransfer ==> {
                let ok = b@.len() == old(self).size * old(self).size && decodable(b@);
                &&& final(self).local == old(self).local
                &&& final(self).remote == old(self).remote
                &&& ok ==> r is Ok && final(self).phase == Phase::StartTransfer && (final(self).grid matches Some(g) && g@ == decode_cells(b@))
                &&& !ok ==> final(self).phase == Phase::Closed && final(self).grid == old(self).grid
                &&& b@.len() != old(self).size * old(self).size ==> r == Err::<(), MazeError>(MazeError::ProtocolShortRead)
                &&& b@.len() == old(self).size * old(self).size && !decodable(b@) ==> r == Err::<(), MazeError>(MazeError::MalformedFrame)
            }),
            event matches Event::Received(b) ==> (expects_read(old(self).role, old(self).phase)
                && old(self).phase == Phase::StartTransfer ==> {
                &&& final(self).grid == old(self).grid
                &&& b@.len() == 4 ==> r is Ok && final(self).phase == Phase::SendPosition
                    && final(self).local == position_of_frame(b@) && final(self).remote == position_of_frame(b@)
                &&& b@.len() != 4 ==> r == Err::<(), MazeError>(MazeError::ProtocolShortRead) && final(self).phase == Phase::Closed
                    && final(self).local == old(self).local && final(self).remote == old(self).remote
            }),
            event matches Event::Received(b) ==> (old(self).phase == Phase::ReceivePosition ==> {
                &&& final(self).grid == old(self).grid
                &&& final(self).local == old(self).local
                &&& b@.len() == 4 ==> r is Ok && final(self).phase == Phase::SendPosition
                    && final(self).remote == position_of_frame(b@)
                &&& b@.len() != 4 ==> r == Err::<(), MazeError>(MazeError::ProtocolShortRead) && final(self).phase == Phase::Closed
                    && final(self).remote == old(self).remote
            }),
    {
        if matches!(self.phase, Phase::Closed) {
            return Err(MazeError::ConnectionFailed);
        }
        let writing = self.phase == Phase::SendPosition || (self.role == Role::Host && (self.phase
            == Phase::MazeTransfer || self.phase == Phase::StartTransfer));
        match event {
            Event::Failed => {
                self.phase = Phase::Closed;
                Err(MazeError::ConnectionFailed)
            },
            Event::Written => {
                if !writing {
                    self.phase = Phase::Closed;
                    return Err(MazeError::ConnectionFailed);
                }
                self.phase = match self.phase {
                    Phase::MazeTransfer => Phase::StartTransfer,
                    Phase::StartTransfer => Phase::SendPosition,
                    _ => Phase::ReceivePosition,
                };
                Ok(())
            },
            Event::Received(bytes) => {
                if writing {
                    self.phase = Phase::Closed;
                    return Err(MazeError::ConnectionFailed);
                }
                match self.phase {
                    Phase::MazeTransfer => match Grid::from_bytes(self.size, bytes.as_slice()) {
                        Ok(g) => {
                            self.grid = Some(g);
                            self.phase = Phase::StartTransfer;
                            Ok(())
                        },
                        Err(e) => {
                            self.phase = Phase::Closed;
                            Err(e)
                        },
                    },
                    Phase::StartTransfer => match decode_position(bytes.as_slice()) {
                        Ok(p) => {
                            self.local = p;
                            self.remote = p;
                            self.phase = Phase::SendPosition;
                            Ok(())
                        },
                        Err(e) => {
                            self.phase = Phase::Closed;
                            Err(e)
                        },
                    },
                    _ => match decode_position(bytes.as_slice()) {
                        Ok(p) => {
                            self.remote = p;
                            self.phase = Phase::SendPosition;
                            Ok(())
                        },
                        Err(e) => {
                            self.phase = Phase::Closed;
                            Err(e)
                        },
                    },
                }
            },
        }
    }

    /// Records where the local player now stands; it goes out with the next
    /// position frame.
    pub fn set_local(&mut self, pos: GridPosition)
        ensures
            final(self).local == pos,
            final(self).role == old(self).role,
            final(self).phase == old(self).phase,
            final(self).size == old(self).size,
            final(self).grid == old(self).grid,
            final(self).remote == old(self).remote,
    {
        self.local = pos;
    }
}

} // verus!
