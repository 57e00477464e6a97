//! Bounded-concurrency, order-preserving scheduling.
//!
//! Operations are identified by their submission index. The scheduler
//! state machine ([`sched::Task`]) decides which pending operation to poll
//! next, bounds how many operations hold an admission permit, and emits
//! results strictly in submission order. An unverified driver owns the
//! actual operations and reports each poll's outcome back to the machine.

pub mod batch;
pub mod gate;
pub mod heap;
pub mod pair;
pub mod sched;

pub use batch::BatchController;
pub use batch::collect_options;
pub use batch::collect_results;
pub use batch::first_err_pos;
pub use batch::lemma_first_err_pos_props;
pub use batch::reorder;
pub use gate::AdmissionGate;
pub use heap::IndexHeap;
pub use heap::TaskItem;
pub use pair::BinaryHeapPair;
pub use sched::Task;
