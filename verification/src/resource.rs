//! Resources: named fixed sets of capacity slots, each slot either free or
//! occupied until a computed release time, fed by one named wait queue.

use vstd::prelude::*;

verus! {

/// The state of one capacity unit of a resource.
#[derive(Clone, Copy, Debug, PartialEq, Eq, Structural)]
pub enum ResourceStatus {
    /// The slot has no occupant.
    Free,
    /// The slot is held by `current_agent_id` until simulation time
    /// `available`.
    Occupied { available: u128, current_agent_id: u64 },
}

impl ResourceStatus {
    /// Whether the slot is occupied.
    pub open spec fn is_occupied(self) -> bool {
        self is Occupied
    }

    /// The occupied slot's release time.
    pub open spec fn available_at(self) -> u128 {
        self->available
    }

    /// Executable form of `is_occupied`.
    pub fn is_occupied_exec(&self) -> (r: bool)
        ensures
            r == self.is_occupied(),
    {
        match self {
            ResourceStatus::Occupied { .. } => true,
            ResourceStatus::Free => false,
        }
    }
}

/// A named resource: a fixed set of capacity slots fed by one wait queue.
/// The slot count is decided at construction and never changes.
#[derive(Debug)]
pub struct Resource {
    /// The resource's name.
    pub resource_name: String,
    /// The name of the wait queue that feeds this resource.
    pub queue_target: String,
    /// The capacity slots; the vector's length is the capacity.
    pub status: Vec<ResourceStatus>,
}

/// How many slots of `s` are occupied.
pub open spec fn occupied_count(s: Seq<ResourceStatus>) -> nat
    decreases s.len(),
{
    if s.len() == 0 {
        0
    } else {
        occupied_count(s.drop_last()) + if s.last().is_occupied() {
            1nat
        } else {
            0nat
        }
    }
}

/// The occupied-slot count of a resource never exceeds its capacity: however
/// the slots were filled, at most every slot is occupied, and the slot count
/// is fixed at construction.
pub proof fn lemma_occupied_within_capacity(s: Seq<ResourceStatus>)
    ensures
        occupied_count(s) <= s.len(),
    decreases s.len(),
{
    if s.len() > 0 {
        lemma_occupied_within_capacity(s.drop_last());
    }
}

impl Resource {
    /// All slots are free.
    pub open spec fn all_free(self) -> bool {
        forall|i: int| 0 <= i < self.status@.len() ==> !self.status@[i].is_occupied()
    }

    /// Every occupied slot's release time lies in `[lo, lo + slack]`.
    pub open spec fn availability_within(self, lo: u128, slack: u128) -> bool {
        forall|i: int|
            0 <= i < self.status@.len() && self.status@[i].is_occupied() ==> lo <= (
            #[trigger] self.status@[i]).available_at() <= lo + slack
    }

    /// Build a resource named `resource_name` with `capacity` free slots, fed
    /// by the queue named `queue_target`.  A capacity of zero is legal: such
    /// a resource never admits anyone and permanently blocks its queue.
    pub fn new_resource(capacity: u64, resource_name: String, queue_target: String) -> (r:
        Resource)
        ensures
            r.resource_name == resource_name,
            r.queue_target == queue_target,
            r.status@.len() == capacity,
            r.all_free(),
    {
        let mut status: Vec<ResourceStatus> = Vec::new();
        let mut cap: u64 = 0;
        while cap < capacity
            invariant
                cap <= capacity,
                status@.len() == cap,
                forall|i: int| 0 <= i < status@.len() ==> !status@[i].is_occupied(),
            decreases capacity - cap,
        {
            status.push(ResourceStatus::Free);
            cap += 1;
        }
        Resource { resource_name, queue_target, status }
    }
}

} // verus!
