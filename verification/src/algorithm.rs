//! The scheduling core: permutation enumeration, pruning, and the
//! scheduler drivers.

pub mod decorators;
pub mod definition;
pub mod evaluator;
pub mod lex_order;
pub mod live_info;
pub mod masks;
pub mod partial_permutation;
pub mod scheduler;
pub mod traverse;
pub mod traverser;
pub mod util;

pub use decorators::{
    BandScheduleTraverseDecorator, ITraverseDecorator, MemberConflictTraverseDecorator,
    TreeTraverser,
};
pub use definition::{RoomMatrix, RoomMatrixBuilder, Schedule};
pub use evaluator::Evaluator;
pub use live_info::{
    create_live_info, BandSchedule, IParallelTreeCallback, LiveInfo, LiveInfoError,
};
pub use partial_permutation::PartialPermutation;
pub use scheduler::{
    convert, run_sub_tree, IScheduleCallback, ParallelScheduler, ScheduleCallbackMock, Scheduler,
    SchedulerError, SchedulerImpl, SchedulerInfo, StandardDecoratorChain, TaskId, TaskInfo,
};
pub use traverse::{traverse_all, traverse_all_with_callback, ITreeCallback, TraverseOperation};
pub use traverser::{PermutationTraverser, SubTree};
