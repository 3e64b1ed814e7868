//! Weights of the messenger pallet's extrinsics.
//!
//! Each weight is a measured base (execution time and proof size) plus the
//! cost of the storage reads and writes the extrinsic makes, priced by the
//! runtime's database weight. Additions and multiplications saturate; the
//! arithmetic is `frame_support`'s.
use frame_support::traits::Get as FrameGet;
use std::marker::PhantomData;
use vstd::math::min;
use vstd::prelude::*;

verus! {

/// `a + b`, or `u64::MAX` when that does not fit.
pub open spec fn saturating_add_u64(a: u64, b: u64) -> u64 {
    if a + b > u64::MAX {
        u64::MAX
    } else {
        (a + b) as u64
    }
}

/// `a * b`, or `u64::MAX` when that does not fit.
pub open spec fn saturating_mul_u64(a: u64, b: u64) -> u64 {
    if a * b > u64::MAX {
        u64::MAX
    } else {
        (a * b) as u64
    }
}

/// Execution time (picoseconds) and proof size (bytes) of an operation.
#[derive(Clone, Copy, Debug, PartialEq, Eq, Structural)]
pub struct Weight {
    pub ref_time: u64,
    pub proof_size: u64,
}

/// Component-wise saturating sum of two weights.
pub open spec fn weight_sum(a: Weight, b: Weight) -> Weight {
    Weight {
        ref_time: saturating_add_u64(a.ref_time, b.ref_time),
        proof_size: saturating_add_u64(a.proof_size, b.proof_size),
    }
}

impl Weight {
    /// The weight with these two components.
    pub fn from_parts(ref_time: u64, proof_size: u64) -> (w: Weight)
        ensures
            w == (Weight { ref_time, proof_size }),
    {
        Weight { ref_time, proof_size }
    }

    /// The execution time.
    pub fn ref_time(&self) -> (r: u64)
        ensures
            r == self.ref_time,
    {
        self.ref_time
    }

    /// The proof size.
    pub fn proof_size(&self) -> (r: u64)
        ensures
            r == self.proof_size,
    {
        self.proof_size
    }

    /// Component-wise sum, each component saturating at `u64::MAX`.
    pub fn saturating_add(self, rhs: Weight) -> (w: Weight)
        ensures
            w == weight_sum(self, rhs),
    {
        frame_weight_saturating_add(self, rhs)
    }
}

/// `frame_support::weights::Weight::saturating_add`, on weights built by
/// `Weight::from_parts` and read back by `ref_time` and `proof_size`. Its
/// source adds the two components separately with `u64::saturating_add`.
#[verifier::external_body]
fn frame_weight_saturating_add(a: Weight, b: Weight) -> (r: Weight)
    ensures
        r == weight_sum(a, b),
{
    let lhs = frame_support::weights::Weight::from_parts(a.ref_time, a.proof_size);
    let rhs = frame_support::weights::Weight::from_parts(b.ref_time, b.proof_size);
    let sum = lhs.saturating_add(rhs);
    Weight { ref_time: sum.ref_time(), proof_size: sum.proof_size() }
}

/// `frame_support::weights::RuntimeDbWeight::reads`: its source gives
/// `Weight::from_parts(read.saturating_mul(r), 0)`.
#[verifier::external_body]
fn frame_db_reads(db: RuntimeDbWeight, r: u64) -> (w: Weight)
    ensures
        w == reads_weight(db, r),
{
    let weight = frame_support::weights::RuntimeDbWeight { read: db.read, write: db.write }.reads(r);
    Weight { ref_time: weight.ref_time(), proof_size: weight.proof_size() }
}

/// `frame_support::weights::RuntimeDbWeight::writes`: its source gives
/// `Weight::from_parts(write.saturating_mul(w), 0)`.
#[verifier::external_body]
fn frame_db_writes(db: RuntimeDbWeight, w: u64) -> (r: Weight)
    ensures
        r == writes_weight(db, w),
{
    let weight = frame_support::weights::RuntimeDbWeight { read: db.read, write: db.write }.writes(w);
    Weight { ref_time: weight.ref_time(), proof_size: weight.proof_size() }
}

/// `frame_support::weights::constants::ParityDbWeight::get()`: its source
/// defines reads at `8_000 * WEIGHT_REF_TIME_PER_NANOS` and writes at
/// `50_000 * WEIGHT_REF_TIME_PER_NANOS`, 1_000 picoseconds per nanosecond.
#[verifier::external_body]
fn frame_parity_db_weight() -> (r: RuntimeDbWeight)
    ensures
        r == parity_db_weight(),
{
    let db = <frame_support::weights::constants::ParityDbWeight as FrameGet<
        frame_support::weights::RuntimeDbWeight,
    >>::get();
    RuntimeDbWeight { read: db.read, write: db.write }
}

/// Cost of one storage read and of one storage write, in execution time.
#[derive(Clone, Copy, Debug, PartialEq, Eq, Structural)]
pub struct RuntimeDbWeight {
    pub read: u64,
    pub write: u64,
}

/// Weight of `r` reads: execution time only.
pub open spec fn reads_weight(db: RuntimeDbWeight, r: u64) -> Weight {
    Weight { ref_time: saturating_mul_u64(db.read, r), proof_size: 0 }
}

/// Weight of `w` writes: execution time only.
pub open spec fn writes_weight(db: RuntimeDbWeight, w: u64) -> Weight {
    Weight { ref_time: saturating_mul_u64(db.write, w), proof_size: 0 }
}

impl RuntimeDbWeight {
    /// Weight of `r` storage reads.
    pub fn reads(self, r: u64) -> (w: Weight)
        ensures
            w == reads_weight(self, r),
    {
        frame_db_reads(self, r)
    }

    /// Weight of `w` storage writes.
    pub fn writes(self, w: u64) -> (r: Weight)
        ensures
            r == writes_weight(self, w),
    {
        frame_db_writes(self, w)
    }
}

/// A source of a value fixed by the runtime's configuration.
pub trait Get<T> {
    /// The value.
    spec fn spec_get() -> T;

    /// Gives the value.
    fn get() -> (r: T)
        ensures
            r == Self::spec_get(),
    ;
}

/// Database weight of ParityDB: 8 µs per read and 50 µs per write.
pub open spec fn parity_db_weight() -> RuntimeDbWeight {
    RuntimeDbWeight { read: 8_000_000, write: 50_000_000 }
}

/// The database weight of ParityDB.
pub struct ParityDbWeight;

impl Get<RuntimeDbWeight> for ParityDbWeight {
    open spec fn spec_get() -> RuntimeDbWeight {
        parity_db_weight()
    }

    fn get() -> (r: RuntimeDbWeight) {
        frame_parity_db_weight()
    }
}

/// The part of a runtime's configuration that weights depend on.
pub trait SystemConfig {
    /// The runtime's database weight.
    type DbWeight: Get<RuntimeDbWeight>;
}

/// Measured base weight plus `reads` reads and `writes` writes at `db`.
pub open spec fn extrinsic_weight(ref_time: u64, proof_size: u64, db: RuntimeDbWeight, reads: u64, writes: u64) -> Weight {
    weight_sum(weight_sum(Weight { ref_time, proof_size }, reads_weight(db, reads)), writes_weight(db, writes))
}

pub open spec fn initiate_channel_cost(db: RuntimeDbWeight) -> Weight {
    extrinsic_weight(85_882_000, 9015, db, 7, 7)
}

pub open spec fn close_channel_cost(db: RuntimeDbWeight) -> Weight {
    extrinsic_weight(35_649_000, 3715, db, 4, 4)
}

pub open spec fn do_open_channel_cost(db: RuntimeDbWeight) -> Weight {
    extrinsic_weight(11_706_000, 3692, db, 1, 1)
}

pub open spec fn do_close_channel_cost(db: RuntimeDbWeight) -> Weight {
    extrinsic_weight(11_477_000, 3692, db, 1, 1)
}

pub open spec fn relay_message_cost(db: RuntimeDbWeight) -> Weight {
    extrinsic_weight(37_070_000, 3811, db, 6, 6)
}

pub open spec fn relay_message_response_cost(db: RuntimeDbWeight) -> Weight {
    extrinsic_weight(36_336_000, 4005, db, 6, 6)
}

/// Weight of `initiate_channel` at database weight `db`. Storage: chain
/// allowlist, next channel id, account, holds, outbox counter, outbox and
/// message weight tags are read; all but the allowlist and also channels are
/// written (7 reads, 7 writes).
pub fn initiate_channel_at(db: RuntimeDbWeight) -> (w: Weight)
    ensures
        w == initiate_channel_cost(db),
{
    Weight::from_parts(85_882_000, 9015).saturating_add(db.reads(7)).saturating_add(db.writes(7))
}

/// Weight of `close_channel` at `db`. Storage: channels, outbox counter,
/// outbox, message weight tags (4 reads, 4 writes).
pub fn close_channel_at(db: RuntimeDbWeight) -> (w: Weight)
    ensures
        w == close_channel_cost(db),
{
    Weight::from_parts(35_649_000, 3715).saturating_add(db.reads(4)).saturating_add(db.writes(4))
}

/// Weight of `do_open_channel` at `db`. Storage: channels (1, 1).
pub fn do_open_channel_at(db: RuntimeDbWeight) -> (w: Weight)
    ensures
        w == do_open_channel_cost(db),
{
    Weight::from_parts(11_706_000, 3692).saturating_add(db.reads(1)).saturating_add(db.writes(1))
}

/// Weight of `do_close_channel` at `db`. Storage: channels (1, 1).
pub fn do_close_channel_at(db: RuntimeDbWeight) -> (w: Weight)
    ensures
        w == do_close_channel_cost(db),
{
    Weight::from_parts(11_477_000, 3692).saturating_add(db.reads(1)).saturating_add(db.writes(1))
}

/// Weight of `relay_message` at `db`. Storage: inbox, channels, inbox
/// responses, their counter, message weight tags, updated channels (6, 6).
pub fn relay_message_at(db: RuntimeDbWeight) -> (w: Weight)
    ensures
        w == relay_message_cost(db),
{
    Weight::from_parts(37_070_000, 3811).saturating_add(db.reads(6)).saturating_add(db.writes(6))
}

/// Weight of `relay_message_response` at `db`. Storage: outbox responses,
/// channels, outbox, its counter, message weight tags, updated channels
/// (6, 6).
pub fn relay_message_response_at(db: RuntimeDbWeight) -> (w: Weight)
    ensures
        w == relay_message_response_cost(db),
{
    Weight::from_parts(36_336_000, 4005).saturating_add(db.reads(6)).saturating_add(db.writes(6))
}

/// Weight functions needed for the messenger pallet.
pub trait WeightInfo {
    fn initiate_channel() -> Weight;

    fn close_channel() -> Weight;

    fn do_open_channel() -> Weight;

    fn do_close_channel() -> Weight;

    fn relay_message() -> Weight;

    fn relay_message_response() -> Weight;
}

/// Weights for the messenger pallet using the Substrate node and
/// recommended hardware, priced by the runtime's database weight.
pub struct SubstrateWeight<T>(pub PhantomData<T>);

impl<T: SystemConfig> WeightInfo for SubstrateWeight<T> {
    fn initiate_channel() -> (w: Weight)
        ensures
            w == initiate_channel_cost(T::DbWeight::spec_get()),
    {
        initiate_channel_at(T::DbWeight::get())
    }

    fn close_channel() -> (w: Weight)
        ensures
            w == close_channel_cost(T::DbWeight::spec_get()),
    {
        close_channel_at(T::DbWeight::get())
    }

    fn do_open_channel() -> (w: Weight)
        ensures
            w == do_open_channel_cost(T::DbWeight::spec_get()),
    {
        do_open_channel_at(T::DbWeight::get())
    }

    fn do_close_channel() -> (w: Weight)
        ensures
            w == do_close_channel_cost(T::DbWeight::spec_get()),
    {
        do_close_channel_at(T::DbWeight::get())
    }

    fn relay_message() -> (w: Weight)
        ensures
            w == relay_message_cost(T::DbWeight::spec_get()),
    {
        relay_message_at(T::DbWeight::get())
    }

    fn relay_message_response() -> (w: Weight)
        ensures
            w == relay_message_response_cost(T::DbWeight::spec_get()),
    {
        relay_message_response_at(T::DbWeight::get())
    }
}

/// The same weights priced by ParityDB's database weight, for tests and
/// backwards compatibility.
impl WeightInfo for () {
    fn initiate_channel() -> (w: Weight)
        ensures
            w == initiate_channel_cost(parity_db_weight()),
    {
        initiate_channel_at(ParityDbWeight::get())
    }

    fn close_channel() -> (w: Weight)
        ensures
            w == close_channel_cost(parity_db_weight()),
    {
        close_channel_at(ParityDbWeight::get())
    }

    fn do_open_channel() -> (w: Weight)
        ensures
            w == do_open_channel_cost(parity_db_weight()),
    {
        do_open_channel_at(ParityDbWeight::get())
    }

    fn do_close_channel() -> (w: Weight)
        ensures
            w == do_close_channel_cost(parity_db_weight()),
    {
        do_close_channel_at(ParityDbWeight::get())
    }

    fn relay_message() -> (w: Weight)
        ensures
            w == relay_message_cost(parity_db_weight()),
    {
        relay_message_at(ParityDbWeight::get())
    }

    fn relay_message_response() -> (w: Weight)
        ensures
            w == relay_message_response_cost(parity_db_weight()),
    {
        relay_message_response_at(ParityDbWeight::get())
    }
}


/// With ParityDB's database weight, a runtime's weights are the unit
/// weights.
pub proof fn lemma_substrate_weight_on_parity_db<T: SystemConfig>()
    requires
        T::DbWeight::spec_get() == parity_db_weight(),
    ensures
        initiate_channel_cost(T::DbWeight::spec_get()) == initiate_channel_cost(parity_db_weight()),
        close_channel_cost(T::DbWeight::spec_get()) == close_channel_cost(parity_db_weight()),
        do_open_channel_cost(T::DbWeight::spec_get()) == do_open_channel_cost(parity_db_weight()),
        do_close_channel_cost(T::DbWeight::spec_get()) == do_close_channel_cost(parity_db_weight()),
        relay_message_cost(T::DbWeight::spec_get()) == relay_message_cost(parity_db_weight()),
        relay_message_response_cost(T::DbWeight::spec_get()) == relay_message_response_cost(parity_db_weight()),
{
}

/// Saturating weight arithmetic in plain numbers: the sum of two weights
/// adds each component separately, and the price of `n` reads or writes is
/// `n` times the unit price, each capped at `u64::MAX`; reads and writes
/// cost no proof size.
pub proof fn lemma_weight_arithmetic(a: Weight, b: Weight, db: RuntimeDbWeight, n: u64)
    ensures
        weight_sum(a, b).ref_time as int == min(a.ref_time + b.ref_time, u64::MAX as int),
        weight_sum(a, b).proof_size as int == min(a.proof_size + b.proof_size, u64::MAX as int),
        reads_weight(db, n).ref_time as int == min(db.read * n, u64::MAX as int),
        reads_weight(db, n).proof_size == 0,
        writes_weight(db, n).ref_time as int == min(db.write * n, u64::MAX as int),
        writes_weight(db, n).proof_size == 0,
{
}

/// A measured base plus `reads` reads and `writes` writes at `db` costs, in
/// execution time, the base plus each count times its unit price, capped at
/// `u64::MAX`; its proof size is the measured one.
pub proof fn lemma_extrinsic_weight_arithmetic(ref_time: u64, proof_size: u64, db: RuntimeDbWeight, reads: u64, writes: u64)
    ensures
        extrinsic_weight(ref_time, proof_size, db, reads, writes).ref_time as int
            == min(ref_time + db.read * reads + db.write * writes, u64::MAX as int),
        extrinsic_weight(ref_time, proof_size, db, reads, writes).proof_size == proof_size,
{
    let (x, y, u, v) = (db.read as int, reads as int, db.write as int, writes as int);
    assert(x * y >= 0) by (nonlinear_arith)
        requires
            x >= 0,
            y >= 0,
    ;
    assert(u * v >= 0) by (nonlinear_arith)
        requires
            u >= 0,
            v >= 0,
    ;
}

/// Each extrinsic's weight at database weight `db`, in plain numbers: its
/// measured base plus its reads and writes priced by `db`, capped at
/// `u64::MAX`, with its measured proof size.
pub proof fn lemma_extrinsic_weights(db: RuntimeDbWeight)
    ensures
        initiate_channel_cost(db).ref_time as int == min(85_882_000 + 7 * db.read + 7 * db.write, u64::MAX as int),
        initiate_channel_cost(db).proof_size == 9015,
        close_channel_cost(db).ref_time as int == min(35_649_000 + 4 * db.read + 4 * db.write, u64::MAX as int),
        close_channel_cost(db).proof_size == 3715,
        do_open_channel_cost(db).ref_time as int == min(11_706_000 + db.read + db.write, u64::MAX as int),
        do_open_channel_cost(db).proof_size == 3692,
        do_close_channel_cost(db).ref_time as int == min(11_477_000 + db.read + db.write, u64::MAX as int),
        do_close_channel_cost(db).proof_size == 3692,
        relay_message_cost(db).ref_time as int == min(37_070_000 + 6 * db.read + 6 * db.write, u64::MAX as int),
        relay_message_cost(db).proof_size == 3811,
        relay_message_response_cost(db).ref_time as int == min(36_336_000 + 6 * db.read + 6 * db.write, u64::MAX as int),
        relay_message_response_cost(db).proof_size == 4005,
{
    lemma_extrinsic_weight_arithmetic(85_882_000, 9015, db, 7, 7);
    lemma_extrinsic_weight_arithmetic(35_649_000, 3715, db, 4, 4);
    lemma_extrinsic_weight_arithmetic(11_706_000, 3692, db, 1, 1);
    lemma_extrinsic_weight_arithmetic(11_477_000, 3692, db, 1, 1);
    lemma_extrinsic_weight_arithmetic(37_070_000, 3811, db, 6, 6);
    lemma_extrinsic_weight_arithmetic(36_336_000, 4005, db, 6, 6);
}

} // verus!
