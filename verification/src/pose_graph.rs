//! Pose graph over submap anchors.
//!
//! Nodes: one per submap, with its current world pose. Edges: relative-pose
//! constraints, between consecutive submaps by odometry and between any two by
//! loop closure, each weighted by a 3 by 3 information matrix.

use vstd::prelude::*;
use crate::arith::{unit, zero};
use crate::pose::Pose2;
use crate::single::{Single, ONE_BITS, ZERO_BITS};

verus! {

/// A 3 by 3 matrix over x, y and yaw, row by row.
pub type Information = (Pose2, Pose2, Pose2);

/// A submap in the pose graph: its world pose, and which submap it is.
#[derive(Debug, Clone, Copy)]
pub struct PoseNode {
    pub pose: Pose2,
    pub submap: usize,
}

/// A relative-pose constraint between two nodes, with an information matrix.
#[derive(Debug, Clone, Copy)]
pub struct PoseEdge {
    pub from: usize,
    pub to: usize,
    pub measurement: Pose2,
    pub information: Information,
}

/// Submap anchors and the constraints between them.
#[derive(Debug)]
pub struct PoseGraph {
    pub nodes: Vec<PoseNode>,
    pub edges: Vec<PoseEdge>,
}

impl PoseGraph {
    /// A graph without nodes.
    pub fn new() -> (g: Self)
        ensures
            g.nodes@.len() == 0,
            g.edges@.len() == 0,
    {
        PoseGraph { nodes: Vec::new(), edges: Vec::new() }
    }

    /// Adds a node for a submap at `pose`; the index of the node.
    pub fn add_node(&mut self, pose: Pose2, submap: usize) -> (node: usize)
        ensures
            node == old(self).nodes@.len(),
            final(self).nodes@ == old(self).nodes@.push((PoseNode { pose, submap })),
            final(self).edges@ == old(self).edges@,
    {
        let node = self.nodes.len();
        self.nodes.push(PoseNode { pose, submap });
        node
    }

    /// Adds a constraint.
    pub fn add_edge(&mut self, edge: PoseEdge)
        ensures
            final(self).edges@ == old(self).edges@.push(edge),
            final(self).nodes@ == old(self).nodes@,
    {
        self.edges.push(edge);
    }

    /// The nodes, by index.
    pub fn nodes(&self) -> (r: &[PoseNode])
        ensures
            r@ == self.nodes@,
    {
        self.nodes.as_slice()
    }

    /// The constraints, in the order they were added.
    pub fn edges(&self) -> (r: &[PoseEdge])
        ensures
            r@ == self.edges@,
    {
        self.edges.as_slice()
    }
}

/// Information of a deviation: one over its square.
pub open spec fn weight_of(sigma: Single) -> Single {
    unit().over(sigma.times(sigma))
}

/// Information matrix of independent deviations in position and yaw.
pub open spec fn information_of(sigma_xy: Single, sigma_yaw: Single) -> Information {
    (
        (weight_of(sigma_xy), zero(), zero()),
        (zero(), weight_of(sigma_xy), zero()),
        (zero(), zero(), weight_of(sigma_yaw)),
    )
}

/// Information matrix of independent deviations in position and yaw.
pub fn information_from_sigmas(sigma_xy: Single, sigma_yaw: Single) -> (m: Information)
    ensures
        m == information_of(sigma_xy, sigma_yaw),
{
    let none = Single { bits: ZERO_BITS };
    let one = Single { bits: ONE_BITS };
    let xy = one.div(sigma_xy.mul(sigma_xy));
    let yaw = one.div(sigma_yaw.mul(sigma_yaw));
    ((xy, none, none), (none, xy, none), (none, none, yaw))
}

} // verus!
