//! A store with its metrics, as it is offered to a consumer and to producers
//! in the same process.

use crate::arith::{sum_u64, sum_usize, wrap_u64, wrap_usize};
use crate::array_spec::ArraySpec;
use crate::metrics::{
    greatest, merged_timing, DetailView, DrainerView, HistSnapshot, Metrics, MetricsView, Timing,
};
use crate::selector::{FifoRemover, FifoSampler, FifoState, SamplerModel};
use crate::store::{bytes_of, store_defect, stored, InsertStep, Store};
use vstd::prelude::*;

verus! {

/// Why array specs cannot be made.
#[derive(Debug, Clone, Copy, PartialEq, Eq, Structural)]
pub enum ConfigError {
    /// There are not as many shapes as element sizes.
    LengthMismatch,
}

/// Makes an array spec of every shape and the element size of the same place.
pub fn build_specs(shapes: Vec<Vec<usize>>, dtype_sizes: Vec<usize>) -> (r: Result<
    Vec<ArraySpec>,
    ConfigError,
>)
    ensures
        r is Ok <==> shapes@.len() == dtype_sizes@.len(),
        r matches Ok(specs) ==> {
            &&& specs@.len() == shapes@.len()
            &&& forall|i: int|
                0 <= i < shapes@.len() ==> (#[trigger] specs@[i])@ == (
                    shapes@[i]@,
                    dtype_sizes@[i],
                )
        },
        r matches Err(e) ==> e == ConfigError::LengthMismatch,
{
    if shapes.len() != dtype_sizes.len() {
        return Err(ConfigError::LengthMismatch);
    }
    let mut specs: Vec<ArraySpec> = Vec::new();
    while specs.len() < shapes.len()
        invariant
            specs@.len() <= shapes@.len() == dtype_sizes@.len(),
            forall|i: int|
                0 <= i < specs@.len() ==> (#[trigger] specs@[i])@ == (
                    shapes@[i]@,
                    dtype_sizes@[i],
                ),
        decreases shapes.len() - specs.len(),
    {
        let i: usize = specs.len();
        specs.push(ArraySpec::new(shapes[i].clone(), dtype_sizes[i]));
    }
    Ok(specs)
}

/// Backpressure and throughput at one moment, for a reader of samples. The
/// detailed part is zero where it is not kept.
#[derive(Debug)]
pub struct SampleInfo {
    pub store_size: usize,
    pub active_connections: usize,
    pub queue_depth_sum: usize,
    pub queue_depth_max: usize,
    pub push_blocked_count: u64,
    pub samples_inserted_total: u64,
    pub notify_count: u64,
    pub cas_success_total: u64,
    pub cas_failure_total: u64,
    pub reservation_retries_total: u64,
    pub drain_round: HistSnapshot,
    pub memcpy: HistSnapshot,
    pub queue_dwell: HistSnapshot,
}

impl SampleInfo {
    /// Whether the info shows a store of `size` items and the given metrics.
    pub open spec fn shows(&self, size: int, m: MetricsView) -> bool {
        &&& self.store_size == size
        &&& self.active_connections == m.active_connections
        &&& self.queue_depth_sum == wrap_usize(
            sum_usize(m.drainers.map_values(|d: DrainerView| d.queue_depth_sum)),
        )
        &&& self.queue_depth_max == greatest(
            m.drainers.map_values(|d: DrainerView| d.queue_depth_max),
        )
        &&& self.push_blocked_count == m.push_blocked_count
        &&& self.samples_inserted_total == wrap_u64(
            sum_u64(m.drainers.map_values(|d: DrainerView| d.samples_inserted)),
        )
        &&& self.notify_count == m.notify_count
        &&& self.cas_success_total == wrap_u64(
            sum_u64(m.drainers.map_values(|d: DrainerView| d.detail_or_zero().cas_success)),
        )
        &&& self.cas_failure_total == wrap_u64(
            sum_u64(m.drainers.map_values(|d: DrainerView| d.detail_or_zero().cas_failure)),
        )
        &&& self.reservation_retries_total == wrap_u64(
            sum_u64(m.drainers.map_values(|d: DrainerView| d.detail_or_zero().reservation_retries)),
        )
        &&& merged_timing(m.drainers, Timing::DrainRound).len() <= u64::MAX
            ==> self.drain_round.shows(merged_timing(m.drainers, Timing::DrainRound))
        &&& merged_timing(m.drainers, Timing::Memcpy).len() <= u64::MAX ==> self.memcpy.shows(
            merged_timing(m.drainers, Timing::Memcpy),
        )
        &&& merged_timing(m.drainers, Timing::QueueDwell).len() <= u64::MAX
            ==> self.queue_dwell.shows(merged_timing(m.drainers, Timing::QueueDwell))
    }
}

/// A FIFO store with its metrics.
pub struct Server {
    pub store: Store<FifoSampler, FifoRemover>,
    pub metrics: Metrics,
}

impl Server {
    pub open spec fn wf(&self) -> bool {
        &&& self.store.wf()
        &&& self.metrics.wf()
    }

    /// A server of `num_buffers` batches, with metrics for `num_drainers`
    /// drainers; `detailed` asks for the detailed part of them.
    pub fn new(
        specs: Vec<ArraySpec>,
        batch_size: usize,
        num_buffers: usize,
        num_drainers: usize,
        detailed: bool,
    ) -> (r: Self)
        requires
            store_defect(specs@, batch_size, num_buffers) is None,
        ensures
            r.wf(),
            r.store.array_specs() == specs@,
            r.store@.batch_size == batch_size,
            r.store@.capacity == batch_size * num_buffers,
            r.store@.sampler == (FifoState {
                counts: Seq::new(num_buffers as nat, |i: int| 0usize),
                read: 0,
                batch_size,
                shutdown: false,
            }),
            r.store@.write == 0,
            r.store@.freed == 0,
            !r.store@.has_previous,
            !r.store@.shutdown,
            forall|j: int, i: int, k: int|
                0 <= j < r.store@.ring.len() && 0 <= i < r.store@.capacity && 0 <= k
                    < r.store@.widths[j] ==> #[trigger] r.store@.ring[j][i][k] == 0u8,
            r.metrics@ == (MetricsView {
                active_connections: 0,
                push_blocked_count: 0,
                notify_count: 0,
                drainers: Seq::new(
                    num_drainers as nat,
                    |i: int|
                        DrainerView {
                            queue_depth_sum: 0,
                            queue_depth_max: 0,
                            samples_inserted: 0,
                            detail: if detailed {
                                Some(DetailView::zero())
                            } else {
                                None
                            },
                        },
                ),
            }),
    {
        let capacity: usize = batch_size * num_buffers;
        proof {
            vstd::arithmetic::div_mod::lemma_div_multiples_vanish(
                num_buffers as int,
                batch_size as int,
            );
            vstd::arithmetic::mul::lemma_mul_is_commutative(
                batch_size as int,
                num_buffers as int,
            );
        }
        let sampler = FifoSampler::new(batch_size, capacity);
        let store = Store::new(specs, batch_size, num_buffers, sampler, FifoRemover::new());
        let metrics = if detailed {
            Metrics::detailed(num_drainers)
        } else {
            Metrics::new(num_drainers)
        };
        assert(metrics@.drainers =~= Seq::new(
            num_drainers as nat,
            |i: int|
                DrainerView {
                    queue_depth_sum: 0,
                    queue_depth_max: 0,
                    samples_inserted: 0,
                    detail: if detailed {
                        Some(DetailView::zero())
                    } else {
                        None
                    },
                },
        ));
        Self { store, metrics }
    }

    /// One attempt to submit a sample, given by its arrays, whose caller spins
    /// while the ring is full. A wake-up of the consumer is counted.
    pub fn submit(&mut self, data: &Vec<Vec<u8>>) -> (r: InsertStep)
        requires
            old(self).wf(),
            !old(self).store@.full() ==> old(self).store@.write < usize::MAX,
            data@.len() <= old(self).store@.widths.len(),
            forall|j: int|
                0 <= j < data@.len() ==> (#[trigger] data@[j])@.len() == old(
                    self,
                ).store@.widths[j],
        ensures
            final(self).wf(),
            final(self).store.array_specs() == old(self).store.array_specs(),
            r == if old(self).store@.full() {
                InsertStep::Full
            } else {
                InsertStep::Inserted {
                    wake: FifoSampler::wakes(
                        old(self).store@.sampler,
                        old(self).store@.write as int,
                    ),
                }
            },
            final(self).store@ == if old(self).store@.full() {
                old(self).store@
            } else {
                stored::<FifoSampler>(
                    old(self).store@,
                    seq![Seq::new(data@.len(), |j: int| data@[j]@)],
                )
            },
            final(self).metrics@ == if r == (InsertStep::Inserted { wake: true }) {
                MetricsView {
                    notify_count: old(self).metrics@.notify_count.wrapping_add(1),
                    ..old(self).metrics@
                }
            } else {
                old(self).metrics@
            },
    {
        let mut slices: Vec<&[u8]> = Vec::new();
        while slices.len() < data.len()
            invariant
                slices@.len() <= data@.len(),
                forall|j: int| 0 <= j < slices@.len() ==> (#[trigger] slices@[j])@ == data@[j]@,
            decreases data.len() - slices.len(),
        {
            slices.push(data[slices.len()].as_slice());
        }
        assert(bytes_of(slices@) =~= Seq::new(data@.len(), |j: int| data@[j]@));
        let step = self.store.insert_sync(slices.as_slice());
        if let InsertStep::Inserted { wake } = step {
            if wake {
                self.metrics.record_notify();
            }
        }
        step
    }

    /// What a reader is told with every sample.
    pub fn sample_info(&self) -> (r: SampleInfo)
        requires
            self.wf(),
        ensures
            r.shows(FifoSampler::queued(self.store@.sampler), self.metrics@),
    {
        SampleInfo {
            store_size: self.store.size(),
            active_connections: self.metrics.active_connections(),
            queue_depth_sum: self.metrics.queue_depth_sum(),
            queue_depth_max: self.metrics.queue_depth_max(),
            push_blocked_count: self.metrics.push_blocked_count(),
            samples_inserted_total: self.metrics.samples_inserted_total(),
            notify_count: self.metrics.notify_count(),
            cas_success_total: self.metrics.cas_success_total(),
            cas_failure_total: self.metrics.cas_failure_total(),
            reservation_retries_total: self.metrics.reservation_retries_total(),
            drain_round: self.metrics.drain_round_aggregate(),
            memcpy: self.metrics.memcpy_aggregate(),
            queue_dwell: self.metrics.queue_dwell_aggregate(),
        }
    }
}

} // verus!
