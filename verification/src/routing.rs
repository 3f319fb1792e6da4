//! Small pieces of the edge router that involve no geometry.
use vstd::prelude::*;

verus! {

/// Direction of the last move of a route search state.
#[derive(Debug, Clone, Copy, PartialEq, Eq, Structural)]
pub enum MoveDir {
    NoMove,
    Horizontal,
    Vertical,
}

impl MoveDir {
    /// Slot of this direction in per-direction tables.
    pub fn index(self) -> (i: usize)
        ensures
            i == (match self {
                MoveDir::NoMove => 0usize,
                MoveDir::Horizontal => 1usize,
                MoveDir::Vertical => 2usize,
            }),
    {
        match self {
            MoveDir::NoMove => 0,
            MoveDir::Horizontal => 1,
            MoveDir::Vertical => 2,
        }
    }
}

/// Whether `cluster_index` is one of the clusters a route may pass through.
pub fn is_excluded_cluster_obstacle(cluster_index: usize, excluded_cluster_obstacles: &[usize]) -> (excluded: bool)
    ensures
        excluded == excluded_cluster_obstacles@.contains(cluster_index),
{
    let mut i: usize = 0;
    while i < excluded_cluster_obstacles.len()
        invariant
            i <= excluded_cluster_obstacles@.len(),
            forall|k: int| 0 <= k < i ==> excluded_cluster_obstacles@[k] != cluster_index,
        decreases excluded_cluster_obstacles.len() - i,
    {
        if excluded_cluster_obstacles[i] == cluster_index {
            return true;
        }
        i = i + 1;
    }
    false
}

} // verus!
