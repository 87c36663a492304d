use maploc::grid::GridConfig;
use maploc::pose::{Heading, Pose2};
use maploc::pose_graph::{information_from_sigmas, PoseEdge, PoseGraph};
use maploc::session::{save_session, SessionError, SessionState};
use maploc::single::Single;
use maploc::submap::Submap;

fn single(v: f32) -> Single {
    Single { bits: v.to_bits() }
}

fn pose(x: f32, y: f32, yaw: f32) -> Pose2 {
    (single(x), single(y), single(yaw))
}

fn trig(a: Single) -> Heading {
    let a = f32::from_bits(a.bits);
    Heading { cos: single(a.cos()), sin: single(a.sin()) }
}

fn config() -> GridConfig {
    GridConfig {
        x_range: (single(-1.0), single(1.0)),
        y_range: (single(-1.0), single(1.0)),
        cell: single(0.05),
    }
}

/// Integrates a scan with the directions of its beams.
fn integrate(s: &mut Submap, body: Pose2, angles: &[f32], ranges: &[f32]) {
    let a: Vec<Single> = angles.iter().map(|v| single(*v)).collect();
    let r: Vec<Single> = ranges.iter().map(|v| single(*v)).collect();
    s.integrate_scan(body, &a, &r, &trig);
}

fn empty_file() -> Vec<u8> {
    save_session(&[], None, &PoseGraph::new(), &[], pose(1.0, 2.0, -0.5))
}

/// The error that loading a file gives.
fn refusal(file: &[u8]) -> SessionError {
    match SessionState::load(Some(file)) {
        Err(e) => e,
        Ok(_) => panic!("the file was taken for a session"),
    }
}

#[test]
fn round_trip_preserves_state() {
    let mut a = Submap::new_at(pose(0.0, 0.0, 0.0), config());
    integrate(&mut a, pose(0.0, 0.0, 0.0), &[0.0, 0.5], &[0.5, 0.4]);
    let mut b = Submap::new_at(pose(0.5, 0.0, 0.0), config());
    integrate(&mut b, pose(0.5, 0.0, 0.0), &[0.0], &[0.3]);

    let mut graph = PoseGraph::new();
    let n0 = graph.add_node(a.anchor_pose(), 0);
    let n1 = graph.add_node(b.anchor_pose(), 1);
    graph.add_edge(PoseEdge {
        from: n0,
        to: n1,
        measurement: pose(0.5, 0.0, 0.0),
        information: information_from_sigmas(single(0.1), single(0.05)),
    });
    let node_for_submap = vec![n0, n1];
    let robot = pose(0.5, 0.0, 0.0);

    let frozen = [a];
    let file = save_session(&frozen, Some(&b), &graph, &node_for_submap, robot);
    let loaded = SessionState::load(Some(&file)).unwrap().unwrap();

    assert_eq!(loaded.frozen.len(), 1);
    assert!(loaded.current.is_some());
    assert_eq!(loaded.graph.nodes().len(), 2);
    assert_eq!(loaded.graph.edges().len(), 1);
    assert_eq!(loaded.node_for_submap, vec![n0, n1]);
    assert_eq!(loaded.tracked_pose, robot);

    // The frozen submap should still mark a wall along +x.
    let g = loaded.frozen[0].grid();
    let (i, j) = g.world_to_idx(single(0.5), single(0.0)).unwrap();
    assert!(
        g.log_at(i, j) > 0,
        "saved/loaded grid lost the wall mark (log={})",
        g.log_at(i, j)
    );

    // Nothing else was lost either.
    assert_eq!(g.log_raw(), frozen[0].grid().log_raw());
    let scan = &loaded.frozen[0].raw_scans()[0];
    assert_eq!(scan.angles_body, vec![single(0.0), single(0.5)]);
    assert_eq!(scan.ranges_horiz, vec![single(0.5), single(0.4)]);
    let current = loaded.current.unwrap();
    assert_eq!(current.anchor_pose(), b.anchor_pose());
    assert_eq!(current.grid().log_raw(), b.grid().log_raw());
    assert_eq!(current.raw_scans().len(), 1);
    assert_eq!(loaded.graph.nodes()[1].pose, b.anchor_pose());
    assert_eq!(loaded.graph.nodes()[1].submap, 1);
    let edge = loaded.graph.edges()[0];
    assert_eq!((edge.from, edge.to), (0, 1));
    assert_eq!(edge.measurement, pose(0.5, 0.0, 0.0));
    assert_eq!(edge.information, information_from_sigmas(single(0.1), single(0.05)));
    let xy = 1.0 / (0.1_f32 * 0.1);
    assert_eq!(edge.information.0, pose(xy, 0.0, 0.0));
    assert_eq!(edge.information.1, pose(0.0, xy, 0.0));
    assert_eq!(edge.information.2, pose(0.0, 0.0, 1.0 / (0.05_f32 * 0.05)));
}

#[test]
fn load_missing_returns_none() {
    assert!(SessionState::load(None).unwrap().is_none());
}

#[test]
fn an_empty_session_has_a_known_file() {
    let mut expected = vec![b'M', b'D', b'L', b'S', 1, 0, 0, 0];
    // No frozen submaps, no current one, no nodes, no edges, no indices.
    expected.extend_from_slice(&[0; 8]);
    expected.push(0);
    expected.extend_from_slice(&[0; 24]);
    expected.extend_from_slice(&1.0_f32.to_le_bytes());
    expected.extend_from_slice(&2.0_f32.to_le_bytes());
    expected.extend_from_slice(&(-0.5_f32).to_le_bytes());
    assert_eq!(empty_file(), expected);
    let loaded = SessionState::load(Some(&expected)).unwrap().unwrap();
    assert_eq!(loaded.tracked_pose, pose(1.0, 2.0, -0.5));
    assert!(loaded.frozen.is_empty() && loaded.current.is_none());
}

#[test]
fn corrupt_sessions_are_refused() {
    let file = empty_file();
    for n in 0..8 {
        assert_eq!(refusal(&file[..n]), SessionError::UnexpectedEof, "{n}");
    }
    let mut other = file.clone();
    other[0] = b'X';
    assert_eq!(refusal(&other), SessionError::BadMagic);
    let mut newer = file.clone();
    newer[4] = 2;
    assert_eq!(refusal(&newer), SessionError::UnsupportedVersion(2));
    // The state itself is cut off.
    for n in 8..file.len() {
        assert_eq!(refusal(&file[..n]), SessionError::Corrupt, "{n}");
    }
}

#[test]
fn a_grid_of_the_wrong_size_is_refused() {
    let a = Submap::new_at(pose(0.0, 0.0, 0.0), config());
    let file = save_session(&[a], None, &PoseGraph::new(), &[], pose(0.0, 0.0, 0.0));
    assert!(SessionState::load(Some(&file)).is_ok());
    // The grid's width stands behind the header, the number of submaps and the
    // five numbers of its configuration.
    let mut other = file.clone();
    other[8 + 8 + 20] += 1;
    assert_eq!(refusal(&other), SessionError::Corrupt);
}
