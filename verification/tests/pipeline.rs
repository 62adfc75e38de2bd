use amcx::convert::{animation_layout, convert, fusion_plan, stationary_len, ConvertingError};
use amcx::processing::{parse, Record};
use amcx::raw::{Bits, Clock};
use amcx::raw_parsing::raw_parse;
use amcx::skeleton::{bottom_up_order, top_down_order, Joint, Skeleton};
use amcx::writing::to_text;

use nalgebra::{UnitQuaternion, Vector3};

fn record(timestamp: u128, sample: [i32; 6]) -> Record {
    Record { timestamp, sample }
}

fn two_joint_skeleton() -> Skeleton {
    Skeleton {
        joints: vec![
            Joint { name: Some("R".to_string()), node: 4, children: vec![1] },
            Joint { name: Some("C".to_string()), node: 7, children: vec![] },
        ],
    }
}

#[test]
fn model_streams_share_timestamps() {
    // every stream has the same length and the same per-index timestamps
    let text = "?[ ACC_FS=2 GYRO_FS=250 CLOCK=milli ]\n&[ A B C ]\n\
                4\n[ 1 0 0 0 0 0 ]\n[ 2 0 0 0 0 0 ]\n[ 3 0 0 0 0 0 ]\n\
                6\n[ 1 1 0 0 0 0 ]\n[ 2 2 0 0 0 0 ]\n[ 3 3 0 0 0 0 ]\n";
    let model = parse(text).unwrap();
    assert_eq!(model.len(), 3);
    for (_, stream) in &model {
        assert_eq!(stream.len(), 2);
        assert_eq!(stream[0].timestamp, 4_000);
        assert_eq!(stream[1].timestamp, 10_000);
    }
    assert_eq!(model[1].1[1].sample, [2, 2, 0, 0, 0, 0]);
}

#[test]
fn config_defaults_to_sixteen_bits() {
    let file = raw_parse("?[ACCEL_SR=2 GYRO_SR=250 CLOCK=micro]\n&[ A ]\n").unwrap();
    assert_eq!(file.config.bits, Bits::_16);
    assert_eq!(file.config.clock, Clock::Micro);
    assert_eq!(file.config.accel_sr.range_g(), 2);
    assert_eq!(file.config.gyro_sr.range_deg(), 250);
}

#[test]
fn text_round_trip() {
    // parsing, re-serializing and parsing again reproduces the same values
    let text = "?[BITS=32 CLOCK=milli ACC_FS=4 GYRO_FS=500]\n  &[ Hips LeftLeg ]\n\
                12\n[ -7 8 -9 100 -200 300 ]\n[ 0 0 0 1 1 1 ]\n";
    let file = raw_parse(text).unwrap();
    let written: String = to_text(&file).into_iter().collect();
    let reparsed = raw_parse(&written).unwrap();
    assert_eq!(reparsed, file);
    // writing is canonical: a second round trip is textually identical
    let rewritten: String = to_text(&reparsed).into_iter().collect();
    assert_eq!(rewritten, written);
}

#[test]
fn parse_is_pure() {
    let text = "?[ ACC_FS=2 GYRO_FS=250 CLOCK=micro ]\n&[ A ]\n1\n[ 1 2 3 4 5 6 ]\n";
    assert_eq!(parse(text).unwrap(), parse(text).unwrap());
    assert_eq!(raw_parse(text).unwrap(), raw_parse(text).unwrap());
}

#[test]
fn fusion_plan_repairs_gaps() {
    // a zero acceleration later in the stream is repaired with the most
    // recent good record; gyroscope components play no part in the test
    let stream = vec![
        record(0, [1, 0, 0, 9, 9, 9]),
        record(1, [0, 0, 0, 9, 9, 9]),
        record(2, [0, 0, 0, 9, 9, 9]),
        record(3, [0, 2, 0, 9, 9, 9]),
        record(4, [0, 0, 0, 9, 9, 9]),
    ];
    let plan = fusion_plan(&stream).unwrap();
    assert_eq!(plan, vec![0, 0, 0, 3, 3]);
}

#[test]
fn fusion_plan_rejects_degenerate_start() {
    // a capture whose first sample has zero acceleration on every axis fails
    let stream = vec![record(0, [0, 0, 0, 9, 9, 9]), record(1, [1, 0, 0, 9, 9, 9])];
    match fusion_plan(&stream).unwrap_err() {
        ConvertingError::UnrecoverableSensorData => {},
        other => panic!("wrong error: {:?}", other),
    }
}

#[test]
fn stationary_window_is_half_a_second() {
    let stream = vec![
        record(100_000, [1, 0, 0, 0, 0, 0]),
        record(499_999, [1, 0, 0, 0, 0, 0]),
        record(500_000, [1, 0, 0, 0, 0, 0]),
        record(900_000, [1, 0, 0, 0, 0, 0]),
    ];
    assert_eq!(stationary_len(&stream), 2);
}

#[test]
fn traversal_orders_respect_the_tree() {
    // a forest: 2 -> {0, 3}, 4 -> {1}; 2 and 4 are roots
    let skel = Skeleton {
        joints: vec![
            Joint { name: None, node: 0, children: vec![] },
            Joint { name: None, node: 1, children: vec![] },
            Joint { name: None, node: 2, children: vec![0, 3] },
            Joint { name: None, node: 3, children: vec![] },
            Joint { name: None, node: 4, children: vec![1] },
        ],
    };
    let td = top_down_order(&skel).unwrap();
    let bu = bottom_up_order(&skel).unwrap();
    assert_eq!(td.len(), 5);
    assert_eq!(bu.len(), 5);
    let pos = |o: &Vec<usize>, v: usize| o.iter().position(|x| *x == v).unwrap();
    for (p, c) in [(2usize, 0usize), (2, 3), (4, 1)] {
        assert!(pos(&td, p) < pos(&td, c));
        assert!(pos(&bu, c) < pos(&bu, p));
    }
}

#[test]
fn cyclic_skeletons_are_refused() {
    let cycle = Skeleton {
        joints: vec![
            Joint { name: None, node: 0, children: vec![1] },
            Joint { name: None, node: 1, children: vec![0] },
        ],
    };
    assert!(top_down_order(&cycle).is_none());
    let two_parents = Skeleton {
        joints: vec![
            Joint { name: None, node: 0, children: vec![2] },
            Joint { name: None, node: 1, children: vec![2] },
            Joint { name: None, node: 2, children: vec![] },
        ],
    };
    assert!(top_down_order(&two_parents).is_none());
}

#[test]
fn convert_couples_and_plans() {
    let skel = two_joint_skeleton();
    let model = vec![
        ("C".to_string(), vec![record(0, [1, 0, 0, 0, 0, 0]), record(10, [0, 0, 0, 0, 0, 0])]),
        ("R".to_string(), vec![record(0, [0, 1, 0, 0, 0, 0]), record(10, [0, 2, 0, 0, 0, 0])]),
    ];
    let plan = convert(&skel, &model, None).unwrap();
    assert_eq!(plan.frame_count, 2);
    // capture entry 0 ("C") drives joint 1, entry 1 ("R") drives joint 0
    assert_eq!(plan.sensor_joint, vec![1, 0]);
    assert_eq!(plan.joint_sensor, vec![Some(1), Some(0)]);
    assert_eq!(plan.fusion_plans, vec![vec![0, 0], vec![0, 1]]);
    assert_eq!(plan.calibration_joint.len(), 0);
    assert_eq!(plan.joint_calibration, vec![None, None]);
    assert_eq!(plan.top_down, vec![0, 1]);
    assert_eq!(plan.bottom_up, vec![1, 0]);
}

#[test]
fn convert_rejects_uncoupled_sensors() {
    let skel = two_joint_skeleton();
    let model = vec![("X".to_string(), vec![record(0, [1, 0, 0, 0, 0, 0])])];
    match convert(&skel, &model, None).unwrap_err() {
        ConvertingError::SensorNotCoupled(name) => assert_eq!(name, "X"),
        other => panic!("wrong error: {:?}", other),
    }
    // an uncoupled calibration sensor is fatal too
    let model = vec![("R".to_string(), vec![record(0, [1, 0, 0, 0, 0, 0])])];
    let calibration = vec![("Y".to_string(), vec![record(0, [1, 0, 0, 0, 0, 0])])];
    match convert(&skel, &model, Some(&calibration)).unwrap_err() {
        ConvertingError::SensorNotCoupled(name) => assert_eq!(name, "Y"),
        other => panic!("wrong error: {:?}", other),
    }
}

#[test]
fn convert_rejects_degenerate_first_sample() {
    let skel = two_joint_skeleton();
    let model = vec![("R".to_string(), vec![record(0, [0, 0, 0, 5, 5, 5])])];
    match convert(&skel, &model, None).unwrap_err() {
        ConvertingError::UnrecoverableSensorData => {},
        other => panic!("wrong error: {:?}", other),
    }
}

#[test]
fn calibration_windows_and_plans() {
    let skel = two_joint_skeleton();
    let model = vec![("R".to_string(), vec![record(0, [1, 0, 0, 0, 0, 0])])];
    let calibration = vec![(
        "C".to_string(),
        vec![
            record(0, [0, 0, 7, 0, 0, 0]),
            record(400_000, [0, 0, 7, 0, 0, 0]),
            record(800_000, [0, 0, 0, 1, 1, 1]),
        ],
    )];
    let plan = convert(&skel, &model, Some(&calibration)).unwrap();
    assert_eq!(plan.calibration_joint, vec![1]);
    assert_eq!(plan.joint_calibration, vec![None, Some(0)]);
    assert_eq!(plan.calibration_stationary, vec![2]);
    assert_eq!(plan.calibration_plans, vec![vec![0, 1, 1]]);
}

#[test]
fn layout_packs_timestamps_then_rotations() {
    let layout = animation_layout(3, 2);
    assert_eq!(layout.timestamps_len, 12);
    assert_eq!(layout.rotations_offset, 12);
    assert_eq!(layout.rotations_len, 96);
    assert_eq!(layout.total_bytes, 108);
    assert_eq!(layout.rotation_offsets, vec![0, 48]);
    assert_eq!(layout.accessor_count, 3);
    assert_eq!(layout.sampler_count, 2);
    assert_eq!(layout.channel_count, 2);
    // a joint with an empty rotation stream contributes nothing
    let empty = animation_layout(0, 0);
    assert_eq!(empty.total_bytes, 0);
    assert_eq!(empty.accessor_count, 1);
    assert_eq!(empty.sampler_count, 0);
}

/// Runs the composer's two passes over quaternion streams, exactly as the
/// conversion plan prescribes them.
fn compose(
    skel: &Skeleton,
    top_down: &[usize],
    bottom_up: &[usize],
    statics: &mut Vec<UnitQuaternion<f32>>,
    streams: &mut Vec<Vec<UnitQuaternion<f32>>>,
) {
    for &node in top_down {
        let s = statics[node];
        for &child in skel.joints[node].children.clone().iter() {
            statics[child] = s * statics[child];
        }
        for q in streams[node].iter_mut() {
            *q = (*q) * s;
        }
    }
    for &node in bottom_up {
        let inv: Vec<UnitQuaternion<f32>> =
            streams[node].iter().map(|q| q.inverse()).collect();
        for &child in skel.joints[node].children.clone().iter() {
            for (q, r_inv) in streams[child].iter_mut().zip(inv.iter()) {
                *q = r_inv * (*q);
            }
        }
    }
}

#[test]
fn composer_resolves_edges_against_the_uncorrected_parent() {
    // parent R tilted about X, child C swinging about Z: after the passes the
    // child's stream must be exactly parent_pre_inverse * child_pre, frame by
    // frame
    let skel = two_joint_skeleton();
    let td = top_down_order(&skel).unwrap();
    let bu = bottom_up_order(&skel).unwrap();
    let frames = 8;
    let parent_pre: Vec<UnitQuaternion<f32>> = (0..frames)
        .map(|i| UnitQuaternion::from_axis_angle(&Vector3::x_axis(), 0.1 * i as f32))
        .collect();
    let child_pre: Vec<UnitQuaternion<f32>> = (0..frames)
        .map(|i| UnitQuaternion::from_axis_angle(&Vector3::z_axis(), 0.2 * i as f32))
        .collect();
    let mut statics = vec![UnitQuaternion::identity(); 2];
    let mut streams = vec![parent_pre.clone(), child_pre.clone()];
    compose(&skel, &td, &bu, &mut statics, &mut streams);
    for i in 0..frames {
        let expected = parent_pre[i].inverse() * child_pre[i];
        let got = streams[1][i];
        assert!(got.angle_to(&expected) < 1e-4);
    }
}

#[test]
fn stationary_root_leaves_the_child_in_world_frame() {
    // root R stationary at identity, child C rotating about its local Z: the
    // child's local rotations equal its world rotations
    let skel = two_joint_skeleton();
    let td = top_down_order(&skel).unwrap();
    let bu = bottom_up_order(&skel).unwrap();
    let frames = 10;
    let child_world: Vec<UnitQuaternion<f32>> = (0..frames)
        .map(|i| {
            UnitQuaternion::from_axis_angle(
                &Vector3::z_axis(),
                std::f32::consts::FRAC_PI_2 * i as f32 / (frames - 1) as f32,
            )
        })
        .collect();
    let mut statics = vec![UnitQuaternion::identity(); 2];
    let mut streams = vec![vec![UnitQuaternion::identity(); frames], child_world.clone()];
    compose(&skel, &td, &bu, &mut statics, &mut streams);
    for i in 0..frames {
        assert!(streams[1][i].angle_to(&child_world[i]) < 1e-4);
    }
}
