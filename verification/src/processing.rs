//! Turns a parsed capture file into the canonical per-sensor time series: one
//! stream of records per sensor, all sharing one cumulative timestamp per
//! cluster.
//!
//! Timestamps are microseconds since the start of the capture; rescaling of
//! the raw integers into physical units is the caller's concern, since it is
//! carried out in floating point.

use vstd::prelude::*;

use crate::parsing_error::{ParsingError, PErrV};
use crate::raw::{Config, FileV, Sample, Sensor};
use crate::raw_parsing::{raw_parse, spec_raw_parse};

verus! {

/// One instant of one sensor's stream: the shared cumulative timestamp in
/// microseconds, and the raw sample.
#[derive(Debug, Clone, Copy, PartialEq, Eq)]
pub struct Record {
    pub timestamp: u128,
    pub sample: Sample,
}

/// An ordered sequence of records for one sensor, in capture order.
pub type Stream = Vec<Record>;

/// A capture: each sensor's name paired with its stream, in reference order.
pub type Model = Vec<(Sensor, Stream)>;

/// Spec-level value of a [`Record`].
pub struct RecordV {
    pub timestamp: u128,
    pub sample: Seq<i32>,
}

impl View for Record {
    type V = RecordV;

    open spec fn view(&self) -> RecordV {
        RecordV { timestamp: self.timestamp, sample: self.sample@ }
    }
}

/// The views of a stream.
pub open spec fn stream_view(s: Seq<Record>) -> Seq<RecordV> {
    s.map_values(|r: Record| r@)
}

/// The views of a model.
pub open spec fn model_view(m: Seq<(Sensor, Stream)>) -> Seq<(Seq<char>, Seq<RecordV>)> {
    m.map_values(|p: (Sensor, Stream)| (p.0@, stream_view(p.1@)))
}

/// The cumulative timestamp of cluster `i`: the running sum of the deltas of
/// clusters `0..=i`, each scaled by the clock unit into microseconds.
pub open spec fn spec_timestamp(cfg: Config, clusters: Seq<crate::raw::ClusterV>, i: int) -> int
    decreases i + 1,
{
    if i < 0 {
        0
    } else {
        spec_timestamp(cfg, clusters, i - 1) + cfg.clock.spec_duration(clusters[i].delta)
    }
}

/// The stream of sensor `j` of a parsed file: the shared timestamps paired
/// with that sensor's sample of each cluster.
pub open spec fn spec_stream(f: FileV, j: int) -> Seq<RecordV> {
    Seq::new(
        f.clusters.len(),
        |i: int|
            RecordV {
                timestamp: spec_timestamp(f.config, f.clusters, i) as u128,
                sample: f.clusters[i].samples[j],
            },
    )
}

/// The model of a capture text: one stream per sensor, in reference order.
pub open spec fn spec_parse_model(s: Seq<char>) -> Result<Seq<(Seq<char>, Seq<RecordV>)>, PErrV> {
    match spec_raw_parse(s) {
        Err(e) => Err(e),
        Ok(f) => Ok(Seq::new(f.sensors.len(), |j: int| (f.sensors[j], spec_stream(f, j)))),
    }
}

/// All streams of one capture have the same length and identical per-index
/// timestamps: both are functions of the clusters alone, never of the sensor.
pub proof fn lemma_streams_uniform(f: FileV)
    ensures
        forall|j1: int, j2: int|
            0 <= j1 < f.sensors.len() && 0 <= j2 < f.sensors.len() ==> {
                &&& (#[trigger] spec_stream(f, j1)).len() == (#[trigger] spec_stream(f, j2)).len()
                &&& forall|i: int|
                    0 <= i < spec_stream(f, j1).len() ==> (#[trigger] spec_stream(f, j1)[i]).timestamp
                        == spec_stream(f, j2)[i].timestamp
            },
{
}

/// Timestamps never decrease from one cluster to the next.
pub proof fn lemma_timestamps_monotone(cfg: Config, clusters: Seq<crate::raw::ClusterV>, i: int)
    ensures
        spec_timestamp(cfg, clusters, i - 1) <= spec_timestamp(cfg, clusters, i),
        0 <= spec_timestamp(cfg, clusters, i),
    decreases i + 1,
{
    if i >= 0 {
        lemma_timestamps_monotone(cfg, clusters, i - 1);
    }
}

/// The largest number of microseconds one delta can contribute.
pub proof fn lemma_duration_bound(cfg: Config, delta: u32)
    ensures
        cfg.clock.spec_duration(delta) <= 4294967295000,
{
}

/// Parsing is a pure function of the capture text: any two results that meet
/// the parser's contract on the same text are the same value, so two calls on
/// equal inputs yield equal models.
pub proof fn lemma_parse_deterministic(
    s: Seq<char>,
    r1: Result<Seq<(Seq<char>, Seq<RecordV>)>, PErrV>,
    r2: Result<Seq<(Seq<char>, Seq<RecordV>)>, PErrV>,
)
    requires
        r1 == spec_parse_model(s),
        r2 == spec_parse_model(s),
    ensures
        r1 == r2,
{
}

/// Parses a capture text and resolves it into one stream per sensor, with
/// shared cumulative microsecond timestamps.
pub fn parse(source: &str) -> (r: Result<Model, ParsingError>)
    requires
        source@.len() < usize::MAX,
    ensures
        match r {
            Ok(m) => spec_parse_model(source@) == Ok::<Seq<(Seq<char>, Seq<RecordV>)>, PErrV>(
                model_view(m@),
            ),
            Err(e) => spec_parse_model(source@) == Err::<Seq<(Seq<char>, Seq<RecordV>)>, PErrV>(
                e@,
            ),
        },
{
    let f = match raw_parse(source) {
        Ok(f) => f,
        Err(e) => {
            return Err(e);
        },
    };
    let cfg = f.config;
    let ghost fv = f@;
    // cumulative timestamps, one per cluster
    let mut ts: Vec<u128> = Vec::new();
    let mut t: u128 = 0;
    let mut i: usize = 0;
    let ncl = f.clusters.len();
    while i < ncl
        invariant
            i <= ncl,
            ncl == f.clusters@.len(),
            fv == f@,
            cfg == f.config,
            ts@.len() == i,
            t == spec_timestamp(cfg, fv.clusters, i - 1),
            t <= i * 4294967295000,
            forall|x: int|
                0 <= x < i ==> ts@[x] == spec_timestamp(cfg, fv.clusters, x) as u128,
        decreases ncl - i,
    {
        let delta = f.clusters[i].delta;
        assert(fv.clusters[i as int].delta == delta);
        let dur = cfg.clock.duration(delta);
        proof {
            lemma_duration_bound(cfg, delta);
            lemma_timestamps_monotone(cfg, fv.clusters, i - 1);
            assert(i * 4294967295000 + 4294967295000 == (i + 1) * 4294967295000) by (nonlinear_arith);
            assert((i + 1) * 4294967295000 <= (usize::MAX as int) * 4294967295000) by (nonlinear_arith)
                requires
                    i + 1 <= usize::MAX as int,
            ;
        }
        t = t + dur as u128;
        ts.push(t);
        i += 1;
    }
    // one stream per sensor
    let nsn = f.sensors.len();
    let mut model: Model = Vec::new();
    let mut j: usize = 0;
    assert(model_view(model@) =~= Seq::<(Seq<char>, Seq<RecordV>)>::empty());
    while j < nsn
        invariant
            j <= nsn,
            nsn == f.sensors@.len(),
            ncl == f.clusters@.len(),
            fv == f@,
            fv.wf(),
            cfg == f.config,
            ts@.len() == ncl,
            forall|x: int|
                0 <= x < ncl ==> ts@[x] == spec_timestamp(cfg, fv.clusters, x) as u128,
            model@.len() == j,
            forall|x: int|
                0 <= x < j ==> #[trigger] model_view(model@)[x] == (
                    fv.sensors[x],
                    spec_stream(fv, x),
                ),
        decreases nsn - j,
    {
        let mut stream: Stream = Vec::new();
        let mut i2: usize = 0;
        assert(stream_view(stream@) =~= Seq::<RecordV>::empty());
        while i2 < ncl
            invariant
                i2 <= ncl,
                j < nsn,
                nsn == f.sensors@.len(),
                ncl == f.clusters@.len(),
                fv == f@,
                fv.wf(),
                cfg == f.config,
                ts@.len() == ncl,
                forall|x: int|
                    0 <= x < ncl ==> ts@[x] == spec_timestamp(cfg, fv.clusters, x) as u128,
                stream@.len() == i2,
                forall|x: int|
                    0 <= x < i2 ==> #[trigger] stream_view(stream@)[x] == spec_stream(fv, j as int)[x],
            decreases ncl - i2,
        {
            assert(fv.clusters[i2 as int].samples.len() == fv.sensors.len());
            let sample = f.clusters[i2].samples[j];
            assert(sample@ == fv.clusters[i2 as int].samples[j as int]);
            let rec = Record { timestamp: ts[i2], sample };
            let ghost prev = stream@;
            stream.push(rec);
            proof {
                assert(stream_view(stream@) =~= stream_view(prev).push(rec@));
            }
            i2 += 1;
        }
        assert(stream_view(stream@) =~= spec_stream(fv, j as int));
        let name = f.sensors[j].clone();
        assert(name@ == fv.sensors[j as int]);
        let ghost prevm = model@;
        model.push((name, stream));
        proof {
            assert(model_view(model@) =~= model_view(prevm).push(
                (fv.sensors[j as int], spec_stream(fv, j as int)),
            ));
        }
        j += 1;
    }
    proof {
        assert(model_view(model@) =~= Seq::new(
            fv.sensors.len(),
            |x: int| (fv.sensors[x], spec_stream(fv, x)),
        ));
    }
    Ok(model)
}

} // verus!
