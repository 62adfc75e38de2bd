//! Planning of one conversion: couples sensors to joints by name, fixes the
//! substitution policy for degenerate samples, computes the calibration
//! windows, and hands out the two tree-pass orders.
//!
//! The attitude filter, the quaternion algebra and the buffer writing run in
//! floating point and are carried out by the caller, strictly following this
//! plan; every decision of the pipeline is made and verified here.

use vstd::prelude::*;

use crate::processing::{model_view, Model, RecordV, Stream};
use crate::raw::Sensor;
use crate::skeleton::{bottom_up_order, edge, is_root, top_down_order, JointV, Skeleton};

verus! {

/// Why a conversion was aborted.
#[derive(Debug)]
pub enum ConvertingError {
    /// A sensor name with no skeleton joint of the same name.
    SensorNotCoupled(String),
    /// The attitude filter failed.
    AhrsError,
    /// A capture whose first sample already has zero acceleration.
    UnrecoverableSensorData,
}

/// Spec-level value of a [`ConvertingError`].
pub enum CvErrV {
    SensorNotCoupled(Seq<char>),
    AhrsError,
    UnrecoverableSensorData,
}

impl View for ConvertingError {
    type V = CvErrV;

    open spec fn view(&self) -> CvErrV {
        match self {
            ConvertingError::SensorNotCoupled(n) => CvErrV::SensorNotCoupled(n@),
            ConvertingError::AhrsError => CvErrV::AhrsError,
            ConvertingError::UnrecoverableSensorData => CvErrV::UnrecoverableSensorData,
        }
    }
}

/// The first joint at or after `i` whose name is `name`, or the joint count.
pub open spec fn find_joint(s: Seq<JointV>, name: Seq<char>, i: int) -> int
    decreases s.len() - i,
    when 0 <= i <= s.len()
{
    if i >= s.len() {
        i
    } else if s[i].name == Some(name) {
        i
    } else {
        find_joint(s, name, i + 1)
    }
}

/// Finds the first joint with the given name.
fn find_joint_exec(skel: &Skeleton, name: &str) -> (r: usize)
    ensures
        r == find_joint(skel@, name@, 0),
        r <= skel@.len(),
{
    let ghost sv = skel@;
    let n = skel.joints.len();
    assert(n == sv.len());
    let mut i: usize = 0;
    while i < n
        invariant
            i <= n,
            n == sv.len(),
            sv == skel@,
            find_joint(sv, name@, 0) == find_joint(sv, name@, i as int),
        decreases n - i,
    {
        let hit = match &skel.joints[i].name {
            Some(jn) => crate::raw::str_eq_lit(jn.as_str(), name),
            None => false,
        };
        proof {
            assert(sv[i as int] == skel.joints@[i as int]@);
            if hit {
                assert(sv[i as int].name == Some(name@));
            } else {
                assert(sv[i as int].name != Some(name@));
            }
        }
        if hit {
            return i;
        }
        i += 1;
    }
    n
}

/// Whether a record's acceleration is exactly the zero vector.
pub open spec fn acc_zero(r: RecordV) -> bool {
    r.sample[0] == 0 && r.sample[1] == 0 && r.sample[2] == 0
}

/// The substitution plan from record `i` on: a non-degenerate record stands
/// for itself, a degenerate one for the most recent non-degenerate record
/// `last`; `None` when a degenerate record has no predecessor to stand for
/// it.
pub open spec fn spec_subst(st: Seq<RecordV>, i: int, last: int) -> Option<Seq<int>>
    decreases st.len() - i,
    when 0 <= i <= st.len()
{
    if i >= st.len() {
        Some(seq![])
    } else if !acc_zero(st[i]) {
        match spec_subst(st, i + 1, i) {
            Some(rest) => Some(seq![i] + rest),
            None => None,
        }
    } else if last < 0 {
        None
    } else {
        match spec_subst(st, i + 1, last) {
            Some(rest) => Some(seq![last] + rest),
            None => None,
        }
    }
}

/// The substitution plan of a whole stream.
pub open spec fn spec_fusion_plan(st: Seq<RecordV>) -> Option<Seq<int>> {
    spec_subst(st, 0, -1)
}

/// Once a non-degenerate record has been seen, the plan always exists.
pub proof fn lemma_subst_anchored(st: Seq<RecordV>, i: int, last: int)
    requires
        0 <= i <= st.len(),
        0 <= last,
    ensures
        spec_subst(st, i, last) is Some,
    decreases st.len() - i,
{
    if i < st.len() {
        if !acc_zero(st[i]) {
            lemma_subst_anchored(st, i + 1, i);
        } else {
            lemma_subst_anchored(st, i + 1, last);
        }
    }
}

/// The plan exists exactly when the stream is empty or starts with a
/// non-degenerate record; a degenerate first sample is unrecoverable.
pub proof fn lemma_fusion_plan_exists(st: Seq<RecordV>)
    ensures
        spec_fusion_plan(st) is Some <==> (st.len() == 0 || !acc_zero(st[0])),
{
    if st.len() > 0 && !acc_zero(st[0]) {
        lemma_subst_anchored(st, 1, 0);
    }
}

/// What the substitution plan promises: every non-degenerate record stands
/// for itself, and every degenerate one for the most recent non-degenerate
/// record before it.
pub proof fn lemma_subst_props(st: Seq<RecordV>, i: int, last: int)
    requires
        0 <= i <= st.len(),
        -1 <= last < i,
        last >= 0 ==> !acc_zero(st[last]),
        forall|j: int| (if last < 0 { 0 } else { last + 1 }) <= j < i ==> acc_zero(#[trigger] st[j]),
        spec_subst(st, i, last) is Some,
    ensures
        ({
            let plan = spec_subst(st, i, last)->Some_0;
            &&& plan.len() == st.len() - i
            &&& forall|k: int|
                0 <= k < plan.len() ==> {
                    let idx = i + k;
                    &&& 0 <= #[trigger] plan[k] <= idx
                    &&& (!acc_zero(st[idx]) ==> plan[k] == idx)
                    &&& (acc_zero(st[idx]) ==> plan[k] < idx && !acc_zero(st[plan[k]])
                        && forall|j: int| plan[k] < j <= idx ==> acc_zero(#[trigger] st[j]))
                }
        }),
    decreases st.len() - i,
{
    if i < st.len() {
        let plan = spec_subst(st, i, last)->Some_0;
        if !acc_zero(st[i]) {
            lemma_subst_props(st, i + 1, i);
            let rest = spec_subst(st, i + 1, i)->Some_0;
            assert(plan == seq![i] + rest);
            assert forall|k: int| 0 <= k < plan.len() implies {
                let idx = i + k;
                &&& 0 <= #[trigger] plan[k] <= idx
                &&& (!acc_zero(st[idx]) ==> plan[k] == idx)
                &&& (acc_zero(st[idx]) ==> plan[k] < idx && !acc_zero(st[plan[k]]) && forall|
                    j: int,
                |
                    plan[k] < j <= idx ==> acc_zero(#[trigger] st[j]))
            } by {
                if k > 0 {
                    assert(plan[k] == rest[k - 1]);
                }
            }
        } else {
            lemma_subst_props(st, i + 1, last);
            let rest = spec_subst(st, i + 1, last)->Some_0;
            assert(plan == seq![last] + rest);
            assert forall|k: int| 0 <= k < plan.len() implies {
                let idx = i + k;
                &&& 0 <= #[trigger] plan[k] <= idx
                &&& (!acc_zero(st[idx]) ==> plan[k] == idx)
                &&& (acc_zero(st[idx]) ==> plan[k] < idx && !acc_zero(st[plan[k]]) && forall|
                    j: int,
                |
                    plan[k] < j <= idx ==> acc_zero(#[trigger] st[j]))
            } by {
                if k > 0 {
                    assert(plan[k] == rest[k - 1]);
                } else {
                    assert(plan[0] == last);
                    assert(acc_zero(st[i]));
                    assert forall|j: int| plan[0] < j <= i implies acc_zero(#[trigger] st[j]) by {}
                }
            }
        }
    }
}

/// What a whole-stream substitution plan promises.
pub proof fn lemma_fusion_plan_props(st: Seq<RecordV>)
    requires
        spec_fusion_plan(st) is Some,
    ensures
        ({
            let plan = spec_fusion_plan(st)->Some_0;
            &&& plan.len() == st.len()
            &&& forall|k: int|
                0 <= k < plan.len() ==> {
                    &&& 0 <= #[trigger] plan[k] <= k
                    &&& (!acc_zero(st[k]) ==> plan[k] == k)
                    &&& (acc_zero(st[k]) ==> plan[k] < k && !acc_zero(st[plan[k]]) && forall|j: int|
                        plan[k] < j <= k ==> acc_zero(#[trigger] st[j]))
                }
        }),
{
    lemma_subst_props(st, 0, -1);
}

/// The plan as machine indices.
pub open spec fn plan_ints(p: Seq<usize>) -> Seq<int> {
    p.map_values(|u: usize| u as int)
}

/// Computes the substitution plan of one stream: each index stands for the
/// record the attitude filter is fed at that instant.
pub fn fusion_plan(stream: &Stream) -> (r: Result<Vec<usize>, ConvertingError>)
    ensures
        match r {
            Ok(plan) => spec_fusion_plan(crate::processing::stream_view(stream@)) == Some(
                plan_ints(plan@),
            ),
            Err(e) => spec_fusion_plan(crate::processing::stream_view(stream@)) is None && e@
                == CvErrV::UnrecoverableSensorData,
        },
{
    let ghost st = crate::processing::stream_view(stream@);
    let n = stream.len();
    assert(n == st.len());
    let mut plan: Vec<usize> = Vec::new();
    let mut last: usize = 0;
    let mut have_last = false;
    let mut i: usize = 0;
    assert(plan_ints(plan@) =~= Seq::<int>::empty());
    proof {
        match spec_subst(st, 0, -1) {
            Some(rest) => {
                assert(plan_ints(plan@) + rest =~= rest);
            },
            None => {},
        }
    }
    while i < n
        invariant
            i <= n,
            n == st.len(),
            st == crate::processing::stream_view(stream@),
            plan@.len() == i,
            have_last ==> last < i,
            match spec_subst(st, i as int, if have_last { last as int } else { -1 }) {
                Some(rest) => spec_fusion_plan(st) == Some(plan_ints(plan@) + rest),
                None => spec_fusion_plan(st) is None,
            },
        decreases n - i,
    {
        let rec = &stream[i];
        assert(st[i as int] == stream@[i as int]@);
        let zero = rec.sample[0] == 0 && rec.sample[1] == 0 && rec.sample[2] == 0;
        assert(zero == acc_zero(st[i as int]));
        let ghost prev = plan@;
        if !zero {
            plan.push(i);
            last = i;
            have_last = true;
            proof {
                assert(plan_ints(plan@) =~= plan_ints(prev).push(i as int));
                match spec_subst(st, i as int + 1, i as int) {
                    Some(rest) => {
                        assert(plan_ints(prev).push(i as int) + rest =~= plan_ints(prev) + (
                        seq![i as int] + rest));
                    },
                    None => {},
                }
            }
        } else {
            if !have_last {
                return Err(ConvertingError::UnrecoverableSensorData);
            }
            plan.push(last);
            proof {
                assert(plan_ints(plan@) =~= plan_ints(prev).push(last as int));
                match spec_subst(st, i as int + 1, last as int) {
                    Some(rest) => {
                        assert(plan_ints(prev).push(last as int) + rest =~= plan_ints(prev) + (
                        seq![last as int] + rest));
                    },
                    None => {},
                }
            }
        }
        i += 1;
    }
    proof {
        assert(plan_ints(plan@) + Seq::<int>::empty() =~= plan_ints(plan@));
    }
    Ok(plan)
}

/// How many leading records of a stream fall in the stationary calibration
/// window: those with a timestamp under half a second.
pub open spec fn spec_stationary(st: Seq<RecordV>, i: int) -> int
    decreases st.len() - i,
    when 0 <= i <= st.len()
{
    if i >= st.len() {
        i
    } else if st[i].timestamp >= 500000 {
        i
    } else {
        spec_stationary(st, i + 1)
    }
}

/// The length of the stationary prefix of a calibration stream.
pub fn stationary_len(stream: &Stream) -> (r: usize)
    ensures
        r == spec_stationary(crate::processing::stream_view(stream@), 0),
        r <= stream@.len(),
{
    let ghost st = crate::processing::stream_view(stream@);
    let n = stream.len();
    assert(n == st.len());
    let mut i: usize = 0;
    while i < n
        invariant
            i <= n,
            n == st.len(),
            st == crate::processing::stream_view(stream@),
            spec_stationary(st, 0) == spec_stationary(st, i as int),
        decreases n - i,
    {
        assert(st[i as int] == stream@[i as int]@);
        if stream[i].timestamp >= 500000 {
            return i;
        }
        i += 1;
    }
    n
}

/// The first capture entry at or after `j` whose sensor name no joint
/// carries, or the entry count.
pub open spec fn first_uncoupled(
    s: Seq<JointV>,
    m: Seq<(Seq<char>, Seq<RecordV>)>,
    j: int,
) -> int
    decreases m.len() - j,
    when 0 <= j <= m.len()
{
    if j >= m.len() {
        j
    } else if find_joint(s, m[j].0, 0) >= s.len() {
        j
    } else {
        first_uncoupled(s, m, j + 1)
    }
}

/// The first capture entry at or after `j` whose stream has no substitution
/// plan, or the entry count.
pub open spec fn first_degenerate(m: Seq<(Seq<char>, Seq<RecordV>)>, j: int) -> int
    decreases m.len() - j,
    when 0 <= j <= m.len()
{
    if j >= m.len() {
        j
    } else if spec_fusion_plan(m[j].1) is None {
        j
    } else {
        first_degenerate(m, j + 1)
    }
}

/// The error a conversion reports, if any: first a degenerate calibration
/// stream, then an uncoupled calibration sensor, then an uncoupled capture
/// sensor, then a degenerate capture stream.
pub open spec fn spec_convert_err(
    s: Seq<JointV>,
    m: Seq<(Seq<char>, Seq<RecordV>)>,
    c: Seq<(Seq<char>, Seq<RecordV>)>,
) -> Option<CvErrV> {
    if first_degenerate(c, 0) < c.len() {
        Some(CvErrV::UnrecoverableSensorData)
    } else if first_uncoupled(s, c, 0) < c.len() {
        Some(CvErrV::SensorNotCoupled(c[first_uncoupled(s, c, 0)].0))
    } else if first_uncoupled(s, m, 0) < m.len() {
        Some(CvErrV::SensorNotCoupled(m[first_uncoupled(s, m, 0)].0))
    } else if first_degenerate(m, 0) < m.len() {
        Some(CvErrV::UnrecoverableSensorData)
    } else {
        None
    }
}

/// Everything the caller needs to carry one conversion out: the coupling of
/// capture and calibration sensors to joints, the substitution plans the
/// attitude filter follows, the calibration windows, and the two tree-pass
/// orders.
#[derive(Debug)]
pub struct Conversion {
    /// Per capture entry: the joint its sensor drives.
    pub sensor_joint: Vec<usize>,
    /// Per joint: the capture entry that drives it, if any.
    pub joint_sensor: Vec<Option<usize>>,
    /// Per calibration entry: the joint its sensor aligns.
    pub calibration_joint: Vec<usize>,
    /// Per joint: the calibration entry that aligns it, if any.
    pub joint_calibration: Vec<Option<usize>>,
    /// Per capture entry: the record fed to the filter at each instant.
    pub fusion_plans: Vec<Vec<usize>>,
    /// Per calibration entry: the record fed to the filter at each instant.
    pub calibration_plans: Vec<Vec<usize>>,
    /// Per calibration entry: how many leading records are stationary.
    pub calibration_stationary: Vec<usize>,
    /// Joints in an order that puts every parent before its children.
    pub top_down: Vec<usize>,
    /// Joints in an order that puts every child before its parent.
    pub bottom_up: Vec<usize>,
    /// The shared number of frames of all streams.
    pub frame_count: usize,
}

/// The first capture entry at or after `k` that drives joint `i`, or the
/// entry count.
pub open spec fn find_source(map: Seq<usize>, i: int, k: int) -> int
    decreases map.len() - k,
    when 0 <= k <= map.len()
{
    if k >= map.len() {
        k
    } else if map[k] == i {
        k
    } else {
        find_source(map, i, k + 1)
    }
}

/// Inverts a sensor-to-joint map: per joint, the first entry that drives it.
fn joint_sources(map: &Vec<usize>, njoints: usize) -> (r: Vec<Option<usize>>)
    ensures
        r@.len() == njoints,
        forall|i: int|
            0 <= i < njoints ==> (#[trigger] r@[i]) == (if find_source(map@, i, 0) < map@.len() {
                Some(find_source(map@, i, 0) as usize)
            } else {
                None
            }),
{
    let n = map.len();
    let mut r: Vec<Option<usize>> = Vec::new();
    let mut i: usize = 0;
    while i < njoints
        invariant
            i <= njoints,
            n == map@.len(),
            r@.len() == i,
            forall|i0: int|
                0 <= i0 < i ==> (#[trigger] r@[i0]) == (if find_source(map@, i0, 0) < map@.len() {
                    Some(find_source(map@, i0, 0) as usize)
                } else {
                    None
                }),
        decreases njoints - i,
    {
        let mut k: usize = 0;
        while k < n && map[k] != i
            invariant
                k <= n,
                n == map@.len(),
                find_source(map@, i as int, 0) == find_source(map@, i as int, k as int),
            decreases n - k,
        {
            k += 1;
        }
        if k < n {
            assert(find_source(map@, i as int, 0) == k as int);
            r.push(Some(k));
        } else {
            assert(find_source(map@, i as int, 0) == map@.len());
            r.push(None);
        }
        i += 1;
    }
    r
}

/// Couples every entry of a capture to the joint of the same name; the first
/// entry without one is fatal.
pub fn couple(model: &Model, skel: &Skeleton) -> (r: Result<Vec<usize>, ConvertingError>)
    ensures
        match r {
            Ok(map) => {
                &&& map@.len() == model@.len()
                &&& first_uncoupled(skel@, model_view(model@), 0) == model@.len()
                &&& forall|j: int|
                    0 <= j < map@.len() ==> (#[trigger] map@[j] as int) == find_joint(
                        skel@,
                        model@[j].0@,
                        0,
                    ) && (map@[j] as int) < skel@.len()
            },
            Err(e) => {
                let mu = first_uncoupled(skel@, model_view(model@), 0);
                &&& 0 <= mu < model@.len()
                &&& e@ == CvErrV::SensorNotCoupled(model@[mu].0@)
            },
        },
{
    let ghost sv = skel@;
    let ghost mv = model_view(model@);
    let n = model.len();
    assert(n == mv.len());
    let mut map: Vec<usize> = Vec::new();
    let mut j: usize = 0;
    while j < n
        invariant
            j <= n,
            n == mv.len(),
            n == model@.len(),
            sv == skel@,
            mv == model_view(model@),
            map@.len() == j,
            first_uncoupled(sv, mv, 0) == first_uncoupled(sv, mv, j as int),
            forall|j0: int|
                0 <= j0 < j ==> (#[trigger] map@[j0] as int) == find_joint(sv, model@[j0].0@, 0)
                    && (map@[j0] as int) < sv.len(),
        decreases n - j,
    {
        assert(mv[j as int].0 == model@[j as int].0@);
        let joint = find_joint_exec(skel, model[j].0.as_str());
        if joint >= skel.joints.len() {
            assert(find_joint(sv, mv[j as int].0, 0) >= sv.len());
            assert(first_uncoupled(sv, mv, j as int) == j as int);
            return Err(ConvertingError::SensorNotCoupled(model[j].0.clone()));
        }
        map.push(joint);
        j += 1;
    }
    Ok(map)
}

/// The byte layout of the serialized animation: one buffer holding the shared
/// float32 timestamps, then one contiguous float32x4 rotation run per joint.
#[derive(Debug)]
pub struct AnimationLayout {
    /// The shared number of frames.
    pub frame_count: usize,
    /// How many joints receive a rotation accessor, a sampler and a channel.
    pub joint_count: usize,
    /// Byte length of the timestamps view, which starts the buffer.
    pub timestamps_len: usize,
    /// Byte offset of the rotations view within the buffer.
    pub rotations_offset: usize,
    /// Byte length of the rotations view.
    pub rotations_len: usize,
    /// Total byte length of the buffer.
    pub total_bytes: usize,
    /// Per emitted joint, in emission order: the byte offset of its rotation
    /// run within the rotations view.
    pub rotation_offsets: Vec<usize>,
    /// One timestamp accessor plus one rotation accessor per emitted joint.
    pub accessor_count: usize,
    /// One sampler per emitted joint, all sharing the timestamp input.
    pub sampler_count: usize,
    /// One rotation channel per emitted joint.
    pub channel_count: usize,
}

/// Computes the animation buffer layout for `frames` frames and `joints`
/// emitted joints: four timestamp bytes per frame, then sixteen rotation
/// bytes per frame per joint.
pub fn animation_layout(frames: usize, joints: usize) -> (r: AnimationLayout)
    requires
        4 * frames + 16 * frames * joints <= usize::MAX,
        joints < usize::MAX,
    ensures
        r.frame_count == frames,
        r.joint_count == joints,
        r.timestamps_len == 4 * frames,
        r.rotations_offset == 4 * frames,
        r.rotations_len == 16 * frames * joints,
        r.total_bytes == 4 * frames + 16 * frames * joints,
        r.rotation_offsets@.len() == joints,
        forall|k: int| 0 <= k < joints ==> (#[trigger] r.rotation_offsets@[k]) == 16 * frames * k,
        r.accessor_count == joints + 1,
        r.sampler_count == joints,
        r.channel_count == joints,
{
    proof {
        assert(16 * (frames * joints) == 16 * frames * joints) by (nonlinear_arith);
        assert(frames * joints <= 16 * frames * joints) by (nonlinear_arith);
    }
    let timestamps_len = 4 * frames;
    let fj = frames * joints;
    let rotations_len = 16 * fj;
    let total_bytes = timestamps_len + rotations_len;
    let mut rotation_offsets: Vec<usize> = Vec::new();
    let mut k: usize = 0;
    let mut off: usize = 0;
    while k < joints
        invariant
            k <= joints,
            rotation_offsets@.len() == k,
            off == 16 * frames * k,
            off <= 16 * frames * joints,
            16 * frames * joints <= usize::MAX,
            forall|k0: int|
                0 <= k0 < k ==> (#[trigger] rotation_offsets@[k0]) == 16 * frames * k0,
        decreases joints - k,
    {
        rotation_offsets.push(off);
        proof {
            assert(16 * frames * k + 16 * frames == 16 * frames * (k + 1)) by (nonlinear_arith);
            assert(16 * frames * (k + 1) <= 16 * frames * joints) by (nonlinear_arith)
                requires
                    k + 1 <= joints,
            ;
        }
        off = off + 16 * frames;
        k += 1;
    }
    AnimationLayout {
        frame_count: frames,
        joint_count: joints,
        timestamps_len,
        rotations_offset: timestamps_len,
        rotations_len,
        total_bytes,
        rotation_offsets,
        accessor_count: joints + 1,
        sampler_count: joints,
        channel_count: joints,
    }
}

/// Plans one conversion: validates every coupling, fixes every substitution,
/// and hands out the tree-pass orders.  The skeleton must be a forest and all
/// streams of each capture share one positive length.
pub fn convert(skel: &Skeleton, model: &Model, calibration: Option<&Model>) -> (r: Result<
    Conversion,
    ConvertingError,
>)
    requires
        crate::skeleton::wf(skel@),
        model@.len() > 0,
        model@[0].1@.len() > 0,
        forall|j: int| 0 <= j < model@.len() ==> (#[trigger] model@[j].1@.len()) == model@[0].1@.len(),
        match calibration {
            Some(c) => forall|j: int| 0 <= j < c@.len() ==> (#[trigger] c@[j].1@.len()) > 0,
            None => true,
        },
    ensures
        ({
            let cv = match calibration {
                Some(c) => model_view(c@),
                None => Seq::<(Seq<char>, Seq<RecordV>)>::empty(),
            };
            let mv = model_view(model@);
            match r {
                Ok(c) => {
                    &&& spec_convert_err(skel@, mv, cv) is None
                    &&& c.frame_count == model@[0].1@.len()
                    &&& c.sensor_joint@.len() == model@.len()
                    &&& forall|j: int|
                        0 <= j < c.sensor_joint@.len() ==> (#[trigger] c.sensor_joint@[j] as int)
                            == find_joint(skel@, mv[j].0, 0) && (c.sensor_joint@[j] as int)
                            < skel@.len()
                    &&& c.joint_sensor@.len() == skel@.len()
                    &&& forall|i: int|
                        0 <= i < skel@.len() ==> (#[trigger] c.joint_sensor@[i]) == (
                        if find_source(c.sensor_joint@, i, 0) < c.sensor_joint@.len() {
                            Some(find_source(c.sensor_joint@, i, 0) as usize)
                        } else {
                            None
                        })
                    &&& c.calibration_joint@.len() == cv.len()
                    &&& forall|j: int|
                        0 <= j < cv.len() ==> (#[trigger] c.calibration_joint@[j] as int)
                            == find_joint(skel@, cv[j].0, 0) && (c.calibration_joint@[j] as int)
                            < skel@.len()
                    &&& c.joint_calibration@.len() == skel@.len()
                    &&& forall|i: int|
                        0 <= i < skel@.len() ==> (#[trigger] c.joint_calibration@[i]) == (
                        if find_source(c.calibration_joint@, i, 0) < c.calibration_joint@.len() {
                            Some(find_source(c.calibration_joint@, i, 0) as usize)
                        } else {
                            None
                        })
                    &&& c.fusion_plans@.len() == mv.len()
                    &&& forall|j: int|
                        0 <= j < mv.len() ==> spec_fusion_plan(mv[j].1) == Some(
                            plan_ints((#[trigger] c.fusion_plans@[j])@),
                        )
                    &&& c.calibration_plans@.len() == cv.len()
                    &&& forall|j: int|
                        0 <= j < cv.len() ==> spec_fusion_plan(cv[j].1) == Some(
                            plan_ints((#[trigger] c.calibration_plans@[j])@),
                        )
                    &&& c.calibration_stationary@.len() == cv.len()
                    &&& forall|j: int|
                        0 <= j < cv.len() ==> (#[trigger] c.calibration_stationary@[j]) as int
                            == spec_stationary(cv[j].1, 0)
                    &&& c.top_down@.len() == skel@.len()
                    &&& c.top_down@.no_duplicates()
                    &&& forall|i: int| 0 <= i < skel@.len() ==> #[trigger] c.top_down@.contains(i as usize)
                    &&& forall|x: int|
                        0 <= x < c.top_down@.len() ==> is_root(skel@, #[trigger] c.top_down@[x] as int)
                            || exists|y: int|
                            0 <= y < x && edge(skel@, c.top_down@[y] as int, c.top_down@[x] as int)
                    &&& c.bottom_up@.len() == skel@.len()
                    &&& c.bottom_up@.no_duplicates()
                    &&& forall|i: int|
                        0 <= i < skel@.len() ==> #[trigger] c.bottom_up@.contains(i as usize)
                    &&& forall|x: int|
                        0 <= x < c.bottom_up@.len() ==> is_root(
                            skel@,
                            #[trigger] c.bottom_up@[x] as int,
                        ) || exists|y: int|
                            x < y < c.bottom_up@.len() && edge(
                                skel@,
                                c.bottom_up@[y] as int,
                                c.bottom_up@[x] as int,
                            )
                },
                Err(e) => spec_convert_err(skel@, mv, cv) == Some(e@),
            }
        }),
{
    let ghost sv = skel@;
    let ghost mv = model_view(model@);
    let ghost cv = match calibration {
        Some(c) => model_view(c@),
        None => Seq::<(Seq<char>, Seq<RecordV>)>::empty(),
    };
    // calibration substitution plans, stationary windows, and coupling
    let (calibration_plans, calibration_stationary, calibration_joint): (
        Vec<Vec<usize>>,
        Vec<usize>,
        Vec<usize>,
    ) = match calibration {
        Some(c) => {
            assert(cv == model_view(c@));
            let nc = c.len();
            assert(nc == cv.len());
            let mut plans: Vec<Vec<usize>> = Vec::new();
            let mut stats: Vec<usize> = Vec::new();
            let mut j: usize = 0;
            while j < nc
                invariant
                    j <= nc,
                    nc == cv.len(),
                    nc == c@.len(),
                    calibration == Some(c),
                    cv == model_view(c@),
                    plans@.len() == j,
                    stats@.len() == j,
                    first_degenerate(cv, 0) == first_degenerate(cv, j as int),
                    forall|j0: int|
                        0 <= j0 < j ==> spec_fusion_plan(cv[j0].1) == Some(
                            plan_ints((#[trigger] plans@[j0])@),
                        ),
                    forall|j0: int|
                        0 <= j0 < j ==> (#[trigger] stats@[j0]) as int == spec_stationary(
                            cv[j0].1,
                            0,
                        ),
                decreases nc - j,
            {
                assert(cv[j as int].1 == crate::processing::stream_view(c@[j as int].1@));
                let plan = match fusion_plan(&c[j].1) {
                    Ok(p) => p,
                    Err(e) => {
                        assert(first_degenerate(cv, j as int) == j as int);
                        return Err(e);
                    },
                };
                let stat = stationary_len(&c[j].1);
                plans.push(plan);
                stats.push(stat);
                j += 1;
            }
            assert(first_degenerate(cv, 0) == cv.len());
            let map = match couple(c, skel) {
                Ok(map) => map,
                Err(e) => {
                    proof {
                        let mu = first_uncoupled(sv, cv, 0);
                        assert(cv[mu].0 == c@[mu].0@);
                    }
                    return Err(e);
                },
            };
            assert(first_uncoupled(sv, cv, 0) == cv.len());
            (plans, stats, map)
        },
        None => {
            assert(cv.len() == 0);
            assert(first_degenerate(cv, 0) == cv.len());
            assert(first_uncoupled(sv, cv, 0) == cv.len());
            (Vec::new(), Vec::new(), Vec::new())
        },
    };
    assert(first_degenerate(cv, 0) == cv.len());
    assert(first_uncoupled(sv, cv, 0) == cv.len());
    // capture coupling
    let sensor_joint = match couple(model, skel) {
        Ok(map) => map,
        Err(e) => {
            proof {
                let mu = first_uncoupled(sv, mv, 0);
                assert(mv[mu].0 == model@[mu].0@);
            }
            return Err(e);
        },
    };
    assert(first_uncoupled(sv, mv, 0) == mv.len());
    // capture substitution plans
    let nm = model.len();
    assert(nm == mv.len());
    let mut fusion_plans: Vec<Vec<usize>> = Vec::new();
    let mut j: usize = 0;
    while j < nm
        invariant
            j <= nm,
            nm == mv.len(),
            nm == model@.len(),
            mv == model_view(model@),
            sv == skel@,
            match calibration {
                Some(cc) => cv == model_view(cc@),
                None => cv == Seq::<(Seq<char>, Seq<RecordV>)>::empty(),
            },
            first_degenerate(cv, 0) == cv.len(),
            first_uncoupled(sv, cv, 0) == cv.len(),
            first_uncoupled(sv, mv, 0) == mv.len(),
            fusion_plans@.len() == j,
            first_degenerate(mv, 0) == first_degenerate(mv, j as int),
            forall|j0: int|
                0 <= j0 < j ==> spec_fusion_plan(mv[j0].1) == Some(
                    plan_ints((#[trigger] fusion_plans@[j0])@),
                ),
        decreases nm - j,
    {
        assert(mv[j as int].1 == crate::processing::stream_view(model@[j as int].1@));
        let plan = match fusion_plan(&model[j].1) {
            Ok(p) => p,
            Err(e) => {
                assert(first_degenerate(mv, j as int) == j as int);
                return Err(e);
            },
        };
        fusion_plans.push(plan);
        j += 1;
    }
    assert(first_degenerate(mv, 0) == mv.len());
    // the tree passes
    let top_down = match top_down_order(skel) {
        Some(o) => o,
        None => {
            // unreachable: the skeleton is a forest by precondition
            proof {
                assert(false);
            }
            return Err(ConvertingError::AhrsError);
        },
    };
    let bottom_up = match bottom_up_order(skel) {
        Some(o) => o,
        None => {
            // unreachable: the skeleton is a forest by precondition
            proof {
                assert(false);
            }
            return Err(ConvertingError::AhrsError);
        },
    };
    let njoints = skel.joints.len();
    assert(njoints == sv.len());
    let joint_sensor = joint_sources(&sensor_joint, njoints);
    let joint_calibration = joint_sources(&calibration_joint, njoints);
    let frame_count = model[0].1.len();
    assert(frame_count == model@[0].1@.len());
    Ok(
        Conversion {
            sensor_joint,
            joint_sensor,
            calibration_joint,
            joint_calibration,
            fusion_plans,
            calibration_plans,
            calibration_stationary,
            top_down,
            bottom_up,
            frame_count,
        },
    )
}

} // verus!
