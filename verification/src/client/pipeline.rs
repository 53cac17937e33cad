//! Several operations at once.

use vstd::prelude::*;
use vstd::string::*;
use vstd::utf8::encode_utf8;

use crate::client::dmap::{
    after_get, after_put, lemma_room_keeps, live, made_room, put_fault, response_of, slot_of,
    with_entries, DMapState,
};
use crate::client::embedded::EmbeddedDMap;
use crate::client::error::{Error, ErrorView};
use crate::client::types::{nanos_of, GetResponse, PutOptions};
use crate::clock::Clock;
use crate::hasher::Hasher;
use crate::text::bytes_to_vec;

verus! {

/// Settings of a pipeline.
#[derive(Debug, Clone, Copy, PartialEq, Eq, Structural)]
pub struct PipelineOptions {
    /// How many operations may be on their way at once.
    pub concurrency: usize,
}

impl Default for PipelineOptions {
    fn default() -> (r: Self)
        ensures
            r.concurrency == 4,
    {
        PipelineOptions { concurrency: 4 }
    }
}

/// An operation that waits.
#[derive(Debug)]
pub enum PipelineOp {
    Put { key: String, value: Vec<u8>, options: PutOptions },
    Get { key: String },
    Delete { key: String },
}

/// Mathematical value of a [`PipelineOp`].
pub ghost enum OpView {
    Put { key: Seq<char>, value: Seq<u8>, options: PutOptions },
    Get { key: Seq<char> },
    Delete { key: Seq<char> },
}

impl View for PipelineOp {
    type V = OpView;

    open spec fn view(&self) -> OpView {
        match self {
            PipelineOp::Put { key, value, options } => OpView::Put {
                key: key@,
                value: value@,
                options: *options,
            },
            PipelineOp::Get { key } => OpView::Get { key: key@ },
            PipelineOp::Delete { key } => OpView::Delete { key: key@ },
        }
    }
}

/// Values of a list of operations.
pub open spec fn ops_view(s: Seq<PipelineOp>) -> Seq<OpView> {
    Seq::new(s.len(), |i: int| s[i]@)
}

/// What an operation gave.
#[derive(Debug)]
pub enum PipelineResult {
    /// The value is stored.
    Put,
    /// The value that was read.
    Get(GetResponse),
    /// Whether there was a live entry to remove.
    Delete(bool),
}

/// What an operation gives on a map, and what it makes of the map.
pub open spec fn ran<H: Hasher>(
    op: OpView,
    now_micros: u64,
    s: DMapState<H>,
    r: Result<PipelineResult, Error>,
    t: DMapState<H>,
) -> bool {
    let now = nanos_of(now_micros);
    match op {
        OpView::Put { key, value, options } => {
            let after = after_put(s, key, value, options, now_micros);
            match put_fault(s, key, value, options, now_micros) {
                Some(e) => r is Err && r->Err_0@ == e && t == after,
                None => r matches Ok(PipelineResult::Put) && made_room(after, t),
            }
        },
        OpView::Get { key } => {
            &&& t == after_get(s, slot_of(s, key), now)
            &&& match live(s.entries, slot_of(s, key), now) {
                Some(e) => r matches Ok(PipelineResult::Get(g)) && g@ == response_of(e, now),
                None => r is Err && r->Err_0@ == ErrorView::KeyNotFound,
            }
        },
        OpView::Delete { key } => {
            &&& t == with_entries(s, s.entries.remove(slot_of(s, key)))
            &&& r matches Ok(PipelineResult::Delete(b)) && b == (live(
                s.entries,
                slot_of(s, key),
                now,
            ) is Some)
        },
    }
}

/// The operations ran one after the other, each at its time: `states` are those
/// of the map in between.
pub open spec fn ran_through<H: Hasher>(
    ops: Seq<OpView>,
    times: Seq<u64>,
    states: Seq<DMapState<H>>,
    results: Seq<Result<PipelineResult, Error>>,
) -> bool {
    &&& times.len() == ops.len()
    &&& results.len() == ops.len()
    &&& states.len() == ops.len() + 1
    &&& forall|i: int|
        0 <= i < ops.len() ==> ran(
            #[trigger] ops[i],
            times[i],
            states[i],
            results[i],
            states[i + 1],
        )
}

/// Operations on one map, to be run in order.
#[derive(Debug)]
pub struct Pipeline {
    options: PipelineOptions,
    ops: Vec<PipelineOp>,
}

impl View for Pipeline {
    type V = Seq<OpView>;

    closed spec fn view(&self) -> Seq<OpView> {
        ops_view(self.ops@)
    }
}

impl Pipeline {
    /// Settings of the pipeline.
    pub closed spec fn settings(&self) -> PipelineOptions {
        self.options
    }

    /// No operations yet.
    pub fn new(options: PipelineOptions) -> (r: Self)
        ensures
            r@ == Seq::<OpView>::empty(),
            r.settings() == options,
    {
        let r = Pipeline { options, ops: Vec::new() };
        assert(r@ =~= Seq::<OpView>::empty());
        r
    }

    fn queue(&mut self, op: PipelineOp)
        ensures
            final(self)@ == old(self)@.push(op@),
            final(self).settings() == old(self).settings(),
    {
        self.ops.push(op);
        assert(self@ =~= old(self)@.push(op@));
    }

    /// Adds a write.
    pub fn put(&mut self, key: &str, value: &[u8], options: PutOptions)
        ensures
            final(self)@ == old(self)@.push(OpView::Put { key: key@, value: value@, options }),
            final(self).settings() == old(self).settings(),
    {
        self.queue(
            PipelineOp::Put { key: key.to_owned(), value: bytes_to_vec(value), options },
        );
    }

    /// Adds a read.
    pub fn get(&mut self, key: &str)
        ensures
            final(self)@ == old(self)@.push(OpView::Get { key: key@ }),
            final(self).settings() == old(self).settings(),
    {
        self.queue(PipelineOp::Get { key: key.to_owned() });
    }

    /// Adds a removal.
    pub fn delete(&mut self, key: &str)
        ensures
            final(self)@ == old(self)@.push(OpView::Delete { key: key@ }),
            final(self).settings() == old(self).settings(),
    {
        self.queue(PipelineOp::Delete { key: key.to_owned() });
    }

    /// How many operations wait.
    pub fn len(&self) -> (r: usize)
        ensures
            r == self@.len(),
    {
        self.ops.len()
    }

    /// Whether no operation waits.
    pub fn is_empty(&self) -> (r: bool)
        ensures
            r == (self@.len() == 0),
    {
        self.ops.len() == 0
    }

    /// The operations, in the order in which they were added.
    pub fn ops(&self) -> (r: &Vec<PipelineOp>)
        ensures
            ops_view(r@) == self@,
    {
        &self.ops
    }

    /// Runs the operations in order, the `i`th at `times[i]`, and gives one
    /// result for each in the same order.
    pub fn execute_at<H: Hasher + Copy>(self, dmap: &mut EmbeddedDMap<H>, times: &Vec<u64>) -> (r:
        Vec<Result<PipelineResult, Error>>)
        requires
            times@.len() == self@.len(),
        ensures
            exists|states: Seq<DMapState<H>>| #[trigger]
                ran_through(self@, times@, states, r@) && states[0] == old(dmap)@
                    && states.last() == final(dmap)@,
    {
        let ghost all = self@;
        let ghost mut states: Seq<DMapState<H>> = seq![dmap@];
        let mut out: Vec<Result<PipelineResult, Error>> = Vec::new();
        let mut i: usize = 0;
        while i < self.ops.len()
            invariant
                i <= self.ops@.len(),
                all == ops_view(self.ops@),
                times@.len() == all.len(),
                ran_through(all.take(i as int), times@.take(i as int), states, out@),
                states[0] == old(dmap)@,
                states.last() == dmap@,
            decreases self.ops@.len() - i,
        {
            let r: Result<PipelineResult, Error> = run_op(&self.ops[i], dmap, times[i]);
            proof {
                lemma_one_more(
                    all.take(i as int),
                    times@.take(i as int),
                    states,
                    out@,
                    all[i as int],
                    times@[i as int],
                    r,
                    dmap@,
                );
                states = states.push(dmap@);
                assert(all.take(i + 1) =~= all.take(i as int).push(all[i as int]));
                assert(times@.take(i + 1) =~= times@.take(i as int).push(times@[i as int]));
            }
            out.push(r);
            i = i + 1;
        }
        assert(all.take(i as int) =~= all);
        assert(times@.take(i as int) =~= times@);
        out
    }

    /// Runs the operations in order, each at what the clock then reads, and
    /// gives one result for each in the same order.
    pub fn execute<H: Hasher + Copy, C: Clock>(self, dmap: &mut EmbeddedDMap<H>, clock: &C) -> (r:
        Vec<Result<PipelineResult, Error>>)
        ensures
            exists|times: Seq<u64>, states: Seq<DMapState<H>>| #[trigger]
                ran_through(self@, times, states, r@) && all_read(clock, times) && states[0]
                    == old(dmap)@ && states.last() == final(dmap)@,
    {
        let ghost all = self@;
        let ghost mut times: Seq<u64> = Seq::empty();
        let ghost mut states: Seq<DMapState<H>> = seq![dmap@];
        let mut out: Vec<Result<PipelineResult, Error>> = Vec::new();
        let mut i: usize = 0;
        while i < self.ops.len()
            invariant
                i <= self.ops@.len(),
                all == ops_view(self.ops@),
                ran_through(all.take(i as int), times, states, out@),
                all_read(clock, times),
                states[0] == old(dmap)@,
                states.last() == dmap@,
            decreases self.ops@.len() - i,
        {
            let now: u64 = clock.now_micros();
            let r: Result<PipelineResult, Error> = run_op(&self.ops[i], dmap, now);
            proof {
                lemma_one_more(
                    all.take(i as int),
                    times,
                    states,
                    out@,
                    all[i as int],
                    now,
                    r,
                    dmap@,
                );
                times = times.push(now);
                states = states.push(dmap@);
                assert(all.take(i + 1) =~= all.take(i as int).push(all[i as int]));
            }
            out.push(r);
            i = i + 1;
        }
        assert(all.take(i as int) =~= all);
        out
    }
}

/// The clock may give all these readings.
pub open spec fn all_read<C: Clock>(clock: &C, times: Seq<u64>) -> bool {
    forall|i: int| 0 <= i < times.len() ==> clock.may_read(#[trigger] times[i])
}

/// Runs one operation.
pub fn run_op<H: Hasher + Copy>(
    op: &PipelineOp,
    dmap: &mut EmbeddedDMap<H>,
    now_micros: u64,
) -> (r: Result<PipelineResult, Error>)
    ensures
        ran(op@, now_micros, old(dmap)@, r, final(dmap)@),
{
    match op {
        PipelineOp::Put { key, value, options } => match dmap.put(
            key.as_str(),
            value.as_slice(),
            *options,
            now_micros,
        ) {
            Ok(()) => Ok(PipelineResult::Put),
            Err(e) => Err(e),
        },
        PipelineOp::Get { key } => match dmap.get(key.as_str(), now_micros) {
            Ok(g) => Ok(PipelineResult::Get(g)),
            Err(e) => Err(e),
        },
        PipelineOp::Delete { key } => Ok(
            PipelineResult::Delete(dmap.delete(key.as_str(), now_micros)),
        ),
    }
}

/// One operation more runs behind the others.
proof fn lemma_one_more<H: Hasher>(
    ops: Seq<OpView>,
    times: Seq<u64>,
    states: Seq<DMapState<H>>,
    results: Seq<Result<PipelineResult, Error>>,
    op: OpView,
    now: u64,
    r: Result<PipelineResult, Error>,
    t: DMapState<H>,
)
    requires
        ran_through(ops, times, states, results),
        ran(op, now, states.last(), r, t),
    ensures
        ran_through(ops.push(op), times.push(now), states.push(t), results.push(r)),
{
    assert forall|i: int| 0 <= i < ops.push(op).len() implies ran(
        #[trigger] ops.push(op)[i],
        times.push(now)[i],
        states.push(t)[i],
        results.push(r)[i],
        states.push(t)[i + 1],
    ) by {
        if i < ops.len() {
            assert(ops.push(op)[i] == ops[i]);
        }
    }
}

/// Operations see what those before them did: a value that was stored without an
/// expiry, where nothing has to make room, is read by the next operation.
pub proof fn law_pipeline_reads_what_it_wrote<H: Hasher>(
    ops: Seq<OpView>,
    times: Seq<u64>,
    states: Seq<DMapState<H>>,
    results: Seq<Result<PipelineResult, Error>>,
    i: int,
    key: Seq<char>,
    value: Seq<u8>,
    options: PutOptions,
)
    requires
        ran_through(ops, times, states, results),
        0 <= i,
        i + 1 < ops.len(),
        ops[i] == (OpView::Put { key, value, options }),
        ops[i + 1] == (OpView::Get { key }),
        results[i] is Ok,
        options.ex is None && options.px is None && options.exat is None && options.pxat is None,
        states[i].options.ttl is None,
        states[i].options.max_keys is None && states[i].options.max_inuse is None,
    ensures
        results[i] matches Ok(PipelineResult::Put),
        results[i + 1] matches Ok(PipelineResult::Get(g)) && g@.value == value && g@.ttl is None,
{
    let s = states[i];
    assert(ran(ops[i], times[i], s, results[i], states[i + 1]));
    assert(ran(ops[i + 1], times[i + 1], states[i + 1], results[i + 1], states[i + 2]));
    let after = after_put(s, key, value, options, times[i]);
    lemma_room_keeps(after.options, after.entries, states[i + 1].entries);
}

/// A key that an operation has removed is not found by the next one, and the
/// removal says whether there was something to remove.
pub proof fn law_pipeline_misses_what_it_removed<H: Hasher>(
    ops: Seq<OpView>,
    times: Seq<u64>,
    states: Seq<DMapState<H>>,
    results: Seq<Result<PipelineResult, Error>>,
    i: int,
    key: Seq<char>,
)
    requires
        ran_through(ops, times, states, results),
        0 <= i,
        i + 1 < ops.len(),
        ops[i] == (OpView::Delete { key }),
        ops[i + 1] == (OpView::Get { key }),
        times[i] * 1000 <= i64::MAX,
    ensures
        ({
            let m = states[i].entries;
            let hkey = states[i].hasher.hash_of(encode_utf8(key));
            results[i] matches Ok(PipelineResult::Delete(b)) && b == (m.contains_key(hkey) && (
            m[hkey].ttl == 0 || times[i] * 1000 < m[hkey].ttl))
        }),
        results[i + 1] is Err,
        results[i + 1]->Err_0@ == ErrorView::KeyNotFound,
{
    assert(ran(ops[i], times[i], states[i], results[i], states[i + 1]));
    assert(ran(ops[i + 1], times[i + 1], states[i + 1], results[i + 1], states[i + 2]));
}

} // verus!
