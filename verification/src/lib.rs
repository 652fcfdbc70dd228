//! Search engine for the two-object silhouette puzzle: two voxel grids, each
//! constrained by a front and a right silhouette, are partitioned into blocks
//! so that blocks shared by both objects are congruent under a rotation.
//!
//! Every function of this library is verified with Verus. Calls into `rand`,
//! `rand_pcg`, `smallvec` and the system clock stand behind the small trusted
//! functions of the modules `buffers`, `random` and `clock`.

pub mod point;
pub mod axis_map;
pub mod buffers;
pub mod grids;
pub mod box_view;
pub mod face;
pub mod hole;
pub mod grid_box;
pub mod classify;
pub mod score;
pub mod block_set;
pub mod random;
pub mod clock;
pub mod grow;
pub mod cube;
pub mod system;
pub mod flood;
pub mod tally;
pub mod fill;
pub mod search;

pub use axis_map::AxisMap;
pub use block_set::BlockSet;
pub use buffers::{DirList, PairStack, PointList};
pub use classify::YetPointSet;
pub use face::{face_conv, make_face};
pub use fill::{add_shared_block, add_single_block, fill_all};
pub use flood::single_update_loop;
pub use grid_box::GridBox;
pub use grids::{Grid3, GridFront, GridRight};
pub use grow::{grow_in_order, grow_shared_block, grow_with_map};
pub use hole::{Hole, HoleXZYY};
pub use point::Point;
pub use score::{NO_SCORE, SCORE_UNIT};
pub use search::{mc_run, mc_solve, mc_step, sub_budget, McParams, SolveInput, SolveResult};
pub use system::{Chance, GridSystem};
