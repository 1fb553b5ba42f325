//! The command surface and the dispatcher.
//!
//! One run of the tool carries at most one command; the dispatcher maps it
//! to exactly one store operation and tells the caller whether the store
//! changed and must be persisted, what to print, or why nothing happened.

use vstd::prelude::*;

use crate::status::StatusView;
use crate::status::TaskStatus;
use crate::store::Entries;
use crate::store::IdAllocator;
use crate::store::TaskError;
use crate::store::TaskStore;
use crate::store::contains_id;
use crate::store::entries_with_status;
use crate::store::ids_bounded;
use crate::store::pairs_view;
use crate::store::spec_put;
use crate::store::spec_set_status;
use crate::store::task_of;
use crate::task::Task;
use crate::task::TaskView;
use crate::timestamp::Timestamp;

verus! {

/// One invocation's input: at most one command.
pub struct Cli {
    pub command: Option<Commands>,
}

/// The commands the tool accepts.
pub enum Commands {
    Add { description: String },
    Update { id: u64, description: String },
    Delete { id: u64 },
    List { status: TaskStatus, all: bool },
    Status { id: u64, status: TaskStatus },
}

/// What one dispatched command did.
pub enum Outcome {
    /// The store changed; the caller must persist it (and, after a
    /// creation, the allocator).
    Changed,
    /// A read-only listing to show, in stored order.
    Listing(Vec<(u64, Task)>),
    /// The referenced task does not exist; nothing changed.
    Rejected(TaskError),
}

/// The task a creation inserts.
pub open spec fn new_task(description: Seq<char>, now: Timestamp) -> TaskView {
    TaskView { description, status: StatusView::Todo, created: now, updated: now }
}

/// What dispatching `cmd` at time `now` does: how the store and the
/// allocator after the call relate to their values before it, and what is
/// returned, one arm per command.
pub open spec fn dispatch_post(
    cmd: Commands,
    pre_store: Entries,
    pre_alloc: IdAllocator,
    post_store: Entries,
    post_alloc: IdAllocator,
    now: Timestamp,
    r: Outcome,
) -> bool {
    match cmd {
        Commands::Add { description } => {
            &&& r is Changed
            &&& post_alloc.last == pre_alloc.last + 1
            &&& post_store == pre_store.push((post_alloc.last, new_task(description@, now)))
            &&& ids_bounded(post_store, post_alloc.last)
        },
        Commands::Update { id, description } => {
            &&& post_alloc == pre_alloc
            &&& if contains_id(pre_store, id) {
                r is Changed && post_store == spec_put(
                    pre_store,
                    id,
                    TaskView {
                        description: description@,
                        status: task_of(pre_store, id).status,
                        created: task_of(pre_store, id).created,
                        updated: now,
                    },
                )
            } else {
                r matches Outcome::Rejected(TaskError::NotFound) && post_store == pre_store
            }
        },
        Commands::Delete { id } => {
            &&& post_alloc == pre_alloc
            &&& if contains_id(pre_store, id) {
                r is Changed && post_store == pre_store.remove(
                    crate::store::index_of(pre_store, id),
                )
            } else {
                r matches Outcome::Rejected(TaskError::NotFound) && post_store == pre_store
            }
        },
        Commands::List { status, all } => {
            &&& post_alloc == pre_alloc
            &&& post_store == pre_store
            &&& r matches Outcome::Listing(shown) && pairs_view(shown@) == if all {
                pre_store
            } else {
                entries_with_status(pre_store, status@)
            }
        },
        Commands::Status { id, status } => {
            &&& post_alloc == pre_alloc
            &&& if contains_id(pre_store, id) {
                r is Changed && post_store == spec_set_status(pre_store, id, status@, now)
            } else {
                r matches Outcome::Rejected(TaskError::NotFound) && post_store == pre_store
            }
        },
    }
}

/// Run one command against the store and the allocator.
pub fn dispatch(store: &mut TaskStore, alloc: &mut IdAllocator, cmd: Commands, now: Timestamp) -> (r:
    Outcome)
    requires
        old(store).wf(),
        now.wf(),
        cmd matches Commands::Add { .. } ==> old(alloc).last < u64::MAX && ids_bounded(
            old(store)@,
            old(alloc).last,
        ),
    ensures
        final (store).wf(),
        dispatch_post(cmd, old(store)@, *old(alloc), final (store)@, *final (alloc), now, r),
{
    match cmd {
        Commands::Add { description } => {
            store.add(alloc, description, now);
            Outcome::Changed
        },
        Commands::Update { id, description } => {
            match store.update(id, description, now) {
                Ok(()) => Outcome::Changed,
                Err(e) => Outcome::Rejected(e),
            }
        },
        Commands::Delete { id } => {
            match store.delete(id) {
                Ok(()) => Outcome::Changed,
                Err(e) => Outcome::Rejected(e),
            }
        },
        Commands::List { status, all } => {
            Outcome::Listing(store.list(&status, all))
        },
        Commands::Status { id, status } => {
            match store.set_status(id, status, now) {
                Ok(()) => Outcome::Changed,
                Err(e) => Outcome::Rejected(e),
            }
        },
    }
}

/// Run one invocation: a missing command is a silent no-op.
pub fn dispatch_cli(store: &mut TaskStore, alloc: &mut IdAllocator, cli: Cli, now: Timestamp) -> (r:
    Option<Outcome>)
    requires
        old(store).wf(),
        now.wf(),
        cli.command matches Some(Commands::Add { .. }) ==> old(alloc).last < u64::MAX
            && ids_bounded(old(store)@, old(alloc).last),
    ensures
        final (store).wf(),
        cli.command is None ==> r is None && final (store)@ == old(store)@ && *final (alloc)
            == *old(alloc),
        cli.command matches Some(cmd) ==> r matches Some(out) && dispatch_post(
            cmd,
            old(store)@,
            *old(alloc),
            final (store)@,
            *final (alloc),
            now,
            out,
        ),
{
    match cli.command {
        Some(cmd) => Some(dispatch(store, alloc, cmd, now)),
        None => None,
    }
}

} // verus!
