//! A node of the cluster and the work allocated to it.

use crate::binary64::Binary64;
use crate::health::Health;
use vstd::arithmetic::power2::pow2;
use vstd::prelude::*;

verus! {

/// A single node in the GPU cluster.
#[derive(Debug)]
pub struct ClusterNode {
    pub id: String,
    pub health: Health,
    /// Total GPU capacity (e.g., number of GPU slots).
    pub capacity: u32,
    /// Currently allocated GPU units.
    pub allocated: u32,
    /// Network latency in milliseconds.
    pub latency_ms: Binary64,
}

/// What a [`ClusterNode`] holds.
pub struct NodeModel {
    pub id: Seq<char>,
    pub health: Health,
    pub capacity: u32,
    pub allocated: u32,
    pub latency_ms: Binary64,
}

impl View for ClusterNode {
    type V = NodeModel;

    open spec fn view(&self) -> NodeModel {
        NodeModel {
            id: self.id@,
            health: self.health,
            capacity: self.capacity,
            allocated: self.allocated,
            latency_ms: self.latency_ms,
        }
    }
}

impl NodeModel {
    /// Free capacity; none where more is allocated than there is capacity.
    pub open spec fn available(self) -> int {
        if self.allocated <= self.capacity {
            self.capacity - self.allocated
        } else {
            0
        }
    }

    /// The share of the capacity that is allocated; zero for a node without
    /// capacity.
    pub open spec fn utilization(self) -> Binary64 {
        if self.capacity == 0 {
            Binary64 { bits: 0 }
        } else {
            Binary64::spec_ratio(self.allocated, self.capacity)
        }
    }

    /// Whether the utilization has reached `threshold`.
    pub open spec fn is_overloaded(self, threshold: Binary64) -> bool {
        self.utilization().spec_at_least(threshold)
    }

    /// The node holding `units` of work in all.
    pub open spec fn holding(self, units: int) -> NodeModel {
        NodeModel { allocated: units as u32, ..self }
    }

    /// The node after a request for `units` more, which it refuses where it has
    /// less available.
    pub open spec fn allocate(self, units: u32) -> NodeModel {
        if units <= self.available() {
            self.holding(self.allocated + units)
        } else {
            self
        }
    }

    /// The node after giving up `units`, or all it has where that is less.
    pub open spec fn release(self, units: u32) -> NodeModel {
        if units <= self.allocated {
            self.holding(self.allocated - units)
        } else {
            self.holding(0)
        }
    }

    /// No more is allocated than there is capacity.
    pub open spec fn within_capacity(self) -> bool {
        self.allocated <= self.capacity
    }
}

impl Clone for ClusterNode {
    fn clone(&self) -> (copy: Self)
        ensures
            copy@ == self@,
    {
        ClusterNode {
            id: self.id.clone(),
            health: self.health,
            capacity: self.capacity,
            allocated: self.allocated,
            latency_ms: self.latency_ms,
        }
    }
}

impl ClusterNode {
    /// A node without work.
    pub fn new(id: String, health: Health, capacity: u32, latency_ms: Binary64) -> (node: Self)
        ensures
            node@ == (NodeModel { id: id@, health, capacity, allocated: 0, latency_ms }),
            node.id@ == id@,
            node.health == health,
            node.capacity == capacity,
            node.allocated == 0,
            node.latency_ms == latency_ms,
    {
        Self { id, health, capacity, allocated: 0, latency_ms }
    }

    /// Available (free) capacity.
    pub fn available(&self) -> (units: u32)
        ensures
            units == self@.available(),
            self.allocated <= self.capacity ==> units == self.capacity - self.allocated,
            self.allocated > self.capacity ==> units == 0,
    {
        if self.allocated <= self.capacity {
            self.capacity - self.allocated
        } else {
            0
        }
    }

    /// Utilization ratio in [0, 1], or above 1 where more is allocated than
    /// there is capacity.
    pub fn utilization(&self) -> (ratio: Binary64)
        ensures
            ratio == self@.utilization(),
            ratio.bits < crate::binary64::INFINITY_BITS,
    {
        if self.capacity == 0 {
            return Binary64 { bits: 0 };
        }
        Binary64::ratio(self.allocated, self.capacity)
    }

    /// Whether the node is overloaded (>= threshold).
    pub fn is_overloaded(&self, threshold: Binary64) -> (answer: bool)
        ensures
            answer == self@.is_overloaded(threshold),
    {
        self.utilization().at_least(threshold)
    }

    /// Allocate `units` of work. Returns true on success.
    pub fn allocate(&mut self, units: u32) -> (done: bool)
        ensures
            done == (units <= old(self)@.available()),
            final(self)@ == old(self)@.allocate(units),
            done <==> units == 0 || old(self).allocated + units <= old(self).capacity,
            final(self).allocated == old(self).allocated + (if done {
                units as int
            } else {
                0
            }),
            final(self).id@ == old(self).id@,
            final(self).health == old(self).health,
            final(self).capacity == old(self).capacity,
            final(self).latency_ms == old(self).latency_ms,
    {
        if units <= self.available() {
            self.allocated = self.allocated + units;
            true
        } else {
            false
        }
    }

    /// Release `units` of work.
    pub fn release(&mut self, units: u32)
        ensures
            final(self)@ == old(self)@.release(units),
            units <= old(self).allocated ==> final(self).allocated == old(self).allocated - units,
            units > old(self).allocated ==> final(self).allocated == 0,
            final(self).id@ == old(self).id@,
            final(self).health == old(self).health,
            final(self).capacity == old(self).capacity,
            final(self).latency_ms == old(self).latency_ms,
    {
        self.allocated = if units <= self.allocated {
            self.allocated - units
        } else {
            0
        };
    }
}

/// The view of a node shows each of its fields as it is.
pub proof fn law_node_view_shows_the_fields(node: ClusterNode)
    ensures
        node@.id == node.id@,
        node@.health == node.health,
        node@.capacity == node.capacity,
        node@.allocated == node.allocated,
        node@.latency_ms == node.latency_ms,
{
}

/// What is available and what is allocated make up the capacity; a node with
/// more allocated than that has nothing available.
pub proof fn law_available_is_the_rest_of_the_capacity(node: NodeModel)
    ensures
        node.allocated <= node.capacity ==> node.available() + node.allocated == node.capacity,
        node.allocated > node.capacity ==> node.available() == 0,
{
}

/// A request is granted in full where it fits into the capacity and refused in
/// full where it does not; it changes nothing but the allocation.
pub proof fn law_allocate_is_all_or_nothing(node: NodeModel, units: u32)
    ensures
        node.allocated + units <= node.capacity ==> node.allocate(units).allocated == node.allocated
            + units,
        node.allocated + units > node.capacity ==> node.allocate(units) == node,
        node.allocate(units).id == node.id,
        node.allocate(units).health == node.health,
        node.allocate(units).capacity == node.capacity,
        node.allocate(units).latency_ms == node.latency_ms,
{
}

/// A release takes off as much as it says, or all there is where that is less;
/// it changes nothing but the allocation.
pub proof fn law_release_takes_off_what_there_is(node: NodeModel, units: u32)
    ensures
        units <= node.allocated ==> node.release(units).allocated + units == node.allocated,
        units > node.allocated ==> node.release(units).allocated == 0,
        node.release(units).id == node.id,
        node.release(units).health == node.health,
        node.release(units).capacity == node.capacity,
        node.release(units).latency_ms == node.latency_ms,
{
}

/// Where there is work and capacity, the utilization is the binary64 number
/// nearest to their ratio, the even one of two that are equally near: with the
/// ratio scaled up by `s` binary places to lie between two to the 52 and two to
/// the 53, it is that number rounded to an integer, under the exponent of `s`.
pub proof fn law_utilization_is_the_nearest_number(node: NodeModel) -> (s: nat)
    requires
        node.allocated > 0,
        node.capacity > 0,
    ensures
        ({
            let (a, c) = (node.allocated as int, node.capacity as int);
            let m: int = node.utilization().bits - (1074 - s) * 0x10_0000_0000_0000;
            &&& 0x10_0000_0000_0000 * c <= a * pow2(s) < 0x20_0000_0000_0000 * c
            &&& (2 * m - 1) * c <= 2 * (a * pow2(s)) <= (2 * m + 1) * c
            &&& 2 * (a * pow2(s)) == (2 * m - 1) * c || 2 * (a * pow2(s)) == (2 * m + 1) * c ==> m % 2
                == 0
        }),
{
    crate::binary64::law_quotient_monotone(
        node.allocated as nat,
        node.capacity as nat,
        node.allocated as nat,
        node.capacity as nat,
    );
    crate::binary64::law_quotient_is_nearest(node.allocated as nat, node.capacity as nat)
}

/// A node is overloaded exactly when the threshold is a number and no larger
/// than the utilization. Patterns from two to the 63 on are negative numbers.
pub proof fn law_overload_is_reaching_the_threshold(node: NodeModel, threshold: Binary64)
    ensures
        node.is_overloaded(threshold) <==> {
            ||| threshold.bits <= node.utilization().bits
            ||| 0x8000_0000_0000_0000 <= threshold.bits <= 0xFFF0_0000_0000_0000
        },
{
    law_utilization_range(node);
}

/// Releasing what was just allocated gives the node back as it was.
pub proof fn law_release_undoes_allocate(node: NodeModel, units: u32)
    requires
        units <= node.available(),
    ensures
        node.allocate(units).release(units) == node,
{
}

/// A request moves work from available to allocated, unit by unit, and none of
/// either gets lost.
pub proof fn law_allocate_consumes_available(node: NodeModel, units: u32)
    requires
        units <= node.available(),
        node.within_capacity(),
    ensures
        node.allocate(units).allocated == node.allocated + units,
        node.allocate(units).available() == node.available() - units,
{
}

/// No request and no release takes a node over its capacity.
pub proof fn law_node_stays_within_capacity(node: NodeModel, units: u32)
    requires
        node.within_capacity(),
    ensures
        node.allocate(units).within_capacity(),
        node.release(units).within_capacity(),
{
}

/// A utilization is a finite number. It is zero exactly when nothing is allocated
/// or there is no capacity, and above one exactly when more is allocated than
/// there is capacity.
pub proof fn law_utilization_range(node: NodeModel)
    ensures
        node.utilization().bits < crate::binary64::INFINITY_BITS,
        node.utilization().bits == 0 <==> node.allocated == 0 || node.capacity == 0,
        node.utilization().bits > crate::binary64::ONE_BITS <==> node.capacity > 0
            && !node.within_capacity(),
{
    let (a, c) = (node.allocated as nat, node.capacity as nat);
    if node.capacity > 0 {
        crate::binary64::law_quotient_zero(a, c);
        crate::binary64::law_quotient_monotone(a, c, a, c);
        if node.within_capacity() {
            crate::binary64::law_quotient_one(1);
            crate::binary64::law_quotient_monotone(a, c, 1, 1);
        } else {
            crate::binary64::law_quotient_above_one(a, c);
        }
    }
}

/// On one node, more work never means less utilization.
pub proof fn law_utilization_grows_with_work(node: NodeModel, more: NodeModel)
    requires
        more.capacity == node.capacity,
        node.allocated <= more.allocated,
    ensures
        node.utilization().bits <= more.utilization().bits,
{
    if node.capacity > 0 {
        let (a, b, c) = (node.allocated as nat, more.allocated as nat, node.capacity as nat);
        assert(a * c <= b * c) by (nonlinear_arith)
            requires
                a <= b,
        ;
        crate::binary64::law_quotient_monotone(a, c, b, c);
    }
}

/// A node that has reached a threshold has reached every smaller one.
pub proof fn law_overload_monotone(node: NodeModel, high: Binary64, low: Binary64)
    requires
        node.is_overloaded(high),
        high.spec_at_least(low),
    ensures
        node.is_overloaded(low),
{
}

} // verus!
