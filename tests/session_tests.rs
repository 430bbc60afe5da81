use mazegame::generator::generate;
use mazegame::grid::{CellKind, Grid, GridPosition, MazeError};
use mazegame::session::{decode_position, encode_position, Action, Event, PeerSession, Phase, Role};
use rand::rngs::StdRng;
use rand::SeedableRng;

fn written(a: Action) -> Vec<u8> {
    match a {
        Action::Write(b) => b,
        _ => panic!("expected a write"),
    }
}

fn read_len(a: Action) -> usize {
    match a {
        Action::Read(k) => k,
        _ => panic!("expected a read"),
    }
}

#[test]
fn position_frame_is_big_endian() {
    let p = GridPosition::new(3, 4);
    assert_eq!(encode_position(p), vec![0, 3, 0, 4]);
    let q = GridPosition::new(-2, 300);
    let mut want = (-2i16).to_be_bytes().to_vec();
    want.extend_from_slice(&300i16.to_be_bytes());
    assert_eq!(encode_position(q), want);
    assert_eq!(encode_position(GridPosition::new(i16::MIN, i16::MAX)), vec![0x80, 0, 0x7f, 0xff]);
}

#[test]
fn position_frame_round_trip() {
    for (x, y) in [(0i16, 0i16), (3, 4), (-1, 1), (i16::MIN, i16::MAX), (29, -300)] {
        let p = GridPosition::new(x, y);
        assert_eq!(decode_position(&encode_position(p)), Ok(p));
    }
    assert_eq!(decode_position(&[0xff, 0xfe, 0x01, 0x2c]), Ok(GridPosition::new(-2, 300)));
}

#[test]
fn short_position_frame() {
    assert_eq!(decode_position(&[0, 3, 0]), Err(MazeError::ProtocolShortRead));
    assert_eq!(decode_position(&[0, 3, 0, 4, 0]), Err(MazeError::ProtocolShortRead));
    assert_eq!(decode_position(&[]), Err(MazeError::ProtocolShortRead));
}

#[test]
fn two_peer_scenario() {
    let mut rng = StdRng::seed_from_u64(2024);
    let maze = generate(&mut rng, 30, 1000).unwrap();
    let host_bytes = maze.grid.to_bytes();
    let mut host = PeerSession::host(maze.grid, maze.start);
    let mut joiner = PeerSession::joiner(30);

    // maze frame
    let frame = written(host.next_action());
    assert_eq!(frame.len(), 900);
    assert_eq!(read_len(joiner.next_action()), 900);
    assert_eq!(host.handle(Event::Written), Ok(()));
    assert_eq!(joiner.handle(Event::Received(frame)), Ok(()));
    let joined = joiner.grid.as_ref().unwrap();
    assert_eq!(joined.to_bytes(), host_bytes);

    // starting position
    let start = written(host.next_action());
    assert_eq!(read_len(joiner.next_action()), 4);
    assert_eq!(host.handle(Event::Written), Ok(()));
    assert_eq!(joiner.handle(Event::Received(start)), Ok(()));
    assert_eq!(joiner.local, maze.start);
    assert_eq!(joiner.remote, maze.start);

    // one tick each way
    host.set_local(GridPosition::new(3, 4));
    joiner.set_local(GridPosition::new(7, 8));
    let from_host = written(host.next_action());
    let from_joiner = written(joiner.next_action());
    assert_eq!(host.handle(Event::Written), Ok(()));
    assert_eq!(joiner.handle(Event::Written), Ok(()));
    assert_eq!(read_len(host.next_action()), 4);
    assert_eq!(read_len(joiner.next_action()), 4);
    assert_eq!(joiner.handle(Event::Received(from_host)), Ok(()));
    assert_eq!(host.handle(Event::Received(from_joiner)), Ok(()));
    assert_eq!(joiner.remote, GridPosition::new(3, 4));
    assert_eq!(host.remote, GridPosition::new(7, 8));
    assert_eq!(joiner.phase, Phase::SendPosition);
    assert_eq!(host.phase, Phase::SendPosition);
}

#[test]
fn failure_closes_the_session() {
    let mut s = PeerSession::joiner(3);
    assert_eq!(s.handle(Event::Failed), Err(MazeError::ConnectionFailed));
    assert_eq!(s.phase, Phase::Closed);
    assert!(matches!(s.next_action(), Action::Stop));
    assert_eq!(s.handle(Event::Written), Err(MazeError::ConnectionFailed));
}

#[test]
fn short_maze_frame_closes_the_session() {
    let mut s = PeerSession::joiner(3);
    assert_eq!(s.handle(Event::Received(vec![b'#'; 8])), Err(MazeError::ProtocolShortRead));
    assert_eq!(s.phase, Phase::Closed);
    assert!(s.grid.is_none());
}

#[test]
fn malformed_maze_frame_closes_the_session() {
    let mut s = PeerSession::joiner(2);
    assert_eq!(s.handle(Event::Received(vec![b'#', b'?', b' ', b'E'])), Err(MazeError::MalformedFrame));
    assert_eq!(s.phase, Phase::Closed);
}

#[test]
fn short_position_frame_closes_the_session() {
    let mut s = PeerSession::joiner(2);
    assert_eq!(s.handle(Event::Received(vec![b'P', b' ', b'#', b'E'])), Ok(()));
    assert_eq!(s.phase, Phase::StartTransfer);
    assert_eq!(s.handle(Event::Received(vec![0, 1])), Err(MazeError::ProtocolShortRead));
    assert_eq!(s.phase, Phase::Closed);
}

#[test]
fn mismatched_event_closes_the_session() {
    let mut g = Grid::new(3, CellKind::Wall);
    g.set(2, 2, CellKind::Exit);
    let mut s = PeerSession::host(g, GridPosition::new(1, 1));
    assert_eq!(s.role, Role::Host);
    assert_eq!(s.handle(Event::Received(vec![0, 0, 0, 0])), Err(MazeError::ConnectionFailed));
    assert_eq!(s.phase, Phase::Closed);
    let mut j = PeerSession::joiner(3);
    assert_eq!(j.handle(Event::Written), Err(MazeError::ConnectionFailed));
    assert_eq!(j.phase, Phase::Closed);
}

#[test]
fn host_sends_start_after_maze() {
    let mut g = Grid::new(3, CellKind::Wall);
    g.set(2, 2, CellKind::Exit);
    let mut s = PeerSession::host(g, GridPosition::new(1, 2));
    assert_eq!(written(s.next_action()), vec![b'#', b'#', b'#', b'#', b'#', b'#', b'#', b'#', b'E']);
    assert_eq!(s.handle(Event::Written), Ok(()));
    assert_eq!(s.phase, Phase::StartTransfer);
    assert_eq!(written(s.next_action()), vec![0, 1, 0, 2]);
    assert_eq!(s.handle(Event::Written), Ok(()));
    assert_eq!(s.phase, Phase::SendPosition);
    assert_eq!(s.handle(Event::Written), Ok(()));
    assert_eq!(s.phase, Phase::ReceivePosition);
}
