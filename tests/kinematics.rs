use liealg::{se3, Adjoint, Algebra, Group, SE3, SO3};
use rbt_model::description::{BuildError, JointKind, JointRecord};
use rbt_model::joints::{joint_screw, set_joint_values, uses_axis};
use rbt_model::propagation::{propagate, recompute, set_joint_values_and_recompute};
use rbt_model::topology::{build_topology, KinematicTopology};

fn joint(name: &str, kind: JointKind, parent: &str, child: &str) -> JointRecord {
    JointRecord {
        name: name.to_string(),
        kind,
        parent: parent.to_string(),
        child: child.to_string(),
    }
}

fn chain(kinds: &[JointKind]) -> (KinematicTopology, Vec<JointRecord>) {
    let links: Vec<String> = (0..=kinds.len()).map(|i| format!("l{}", i)).collect();
    let joints: Vec<JointRecord> = kinds
        .iter()
        .enumerate()
        .map(|(i, k)| joint(&format!("j{}", i + 1), *k, &format!("l{}", i), &format!("l{}", i + 1)))
        .collect();
    (build_topology(&links, &joints).unwrap(), joints)
}

/// Runs the propagation with real rigid-body algebra: zero poses from
/// `origins`, joint screws from `axes`, values from `values`.
fn se3_pass(
    t: &KinematicTopology,
    joints: &[JointRecord],
    origins: &[SE3<f64>],
    axes: &[[f64; 3]],
    values: &[f64],
) -> (Vec<SE3<f64>>, Vec<se3<f64>>, Vec<se3<f64>>) {
    let n = t.link_count();
    let mut local = vec![se3::identity(); n];
    let mut relative = vec![SE3::identity(); n];
    for l in 0..n {
        if let Some(j) = t.joint(l) {
            let (w, v) = joint_screw(joints[j].kind, axes[l], [0.0, 0.0, 0.0]);
            local[l] = se3::new(w, v);
            relative[l] = origins[l].clone() * (local[l].clone() * values[l]).exp();
        }
    }
    let mut poses = vec![SE3::identity(); n];
    let mut screws = vec![se3::identity(); n];
    propagate(
        t,
        &relative,
        &local,
        &|a: &SE3<f64>, b: &SE3<f64>| a.clone() * b.clone(),
        &|g: &SE3<f64>, s: &se3<f64>| g.adjoint().act(s),
        SE3::identity(),
        se3::identity(),
        &mut poses,
        &mut screws,
    );
    (poses, screws, local)
}

fn close(a: &[f64], b: &[f64]) -> bool {
    a.len() == b.len() && a.iter().zip(b).all(|(x, y)| (x - y).abs() < 1e-9)
}

#[test]
fn example_two_links_zero_value_gives_identity() {
    let links = vec!["base".to_string(), "arm".to_string()];
    let joints = vec![joint("j1", JointKind::Revolute, "base", "arm")];
    let t = build_topology(&links, &joints).unwrap();
    assert_eq!(t.root(), 0);
    assert_eq!(t.traversal_order(), &vec![0, 1]);
    let mut values = vec![0.5, 0.5];
    assert_eq!(set_joint_values(&t, &joints, &mut values, &vec![("j1".to_string(), 0.0)]), Ok(()));
    assert_eq!(values, vec![0.5, 0.0]);
    let origins = vec![SE3::identity(); 2];
    let (poses, _, _) = se3_pass(&t, &joints, &origins, &[[0.0; 3], [1.0, 0.0, 0.0]], &values);
    assert!(poses[1] == SE3::identity());
    assert!(poses[0] == SE3::identity());
}

#[test]
fn revolute_quarter_turn_about_z() {
    let (t, joints) = chain(&[JointKind::Revolute]);
    let mut values = vec![0.0, 0.0];
    let half_pi = std::f64::consts::FRAC_PI_2;
    set_joint_values(&t, &joints, &mut values, &vec![("j1".to_string(), half_pi)]).unwrap();
    let origins = vec![SE3::identity(); 2];
    let (poses, screws, local) = se3_pass(&t, &joints, &origins, &[[0.0; 3], [0.0, 0.0, 1.0]], &values);
    let (rot, trans) = poses[1].rot_trans();
    assert!(close(&rot.as_array(), &SO3::from_euler_angles(0.0, 0.0, half_pi).as_array()));
    assert!(close(&trans, &[0.0, 0.0, 0.0]));
    assert!(close(&local[1].vee().as_array(), &[0.0, 0.0, 1.0, 0.0, 0.0, 0.0]));
    let expected = poses[1].adjoint().act(&local[1]);
    assert!(close(&screws[1].vee().as_array(), &expected.vee().as_array()));
}

#[test]
fn fixed_chain_is_product_of_origins() {
    let (t, joints) = chain(&[JointKind::Fixed, JointKind::Fixed, JointKind::Fixed]);
    let origins = vec![
        SE3::identity(),
        SE3::new(&SO3::identity(), [1.0, 0.0, 0.0]),
        SE3::new(&SO3::from_euler_angles(0.0, 0.0, 0.3), [0.0, 2.0, 0.0]),
        SE3::new(&SO3::from_euler_angles(0.1, 0.0, 0.0), [0.0, 0.0, 3.0]),
    ];
    let axes = [[0.0; 3]; 4];
    let (poses, screws, _) = se3_pass(&t, &joints, &origins, &axes, &[0.7; 4]);
    let mut product = SE3::identity();
    for l in 1..4 {
        product = product * origins[l].clone();
        assert!(close(&poses[l].rot_trans().0.as_array(), &product.rot_trans().0.as_array()));
        assert!(close(&poses[l].rot_trans().1, &product.rot_trans().1));
        assert!(close(&screws[l].vee().as_array(), &[0.0; 6]));
    }
}

#[test]
fn recompute_twice_is_bit_identical() {
    let (t, joints) = chain(&[JointKind::Revolute, JointKind::Prismatic]);
    let origins = vec![
        SE3::identity(),
        SE3::new(&SO3::from_euler_angles(0.2, 0.1, 0.0), [0.5, 0.0, 0.0]),
        SE3::new(&SO3::identity(), [0.0, 0.0, 1.0]),
    ];
    let axes = [[0.0; 3], [0.0, 1.0, 0.0], [1.0, 0.0, 0.0]];
    let values = [0.0, 0.4, 0.25];
    let (p1, s1, _) = se3_pass(&t, &joints, &origins, &axes, &values);
    let (p2, s2, _) = se3_pass(&t, &joints, &origins, &axes, &values);
    assert!(p1 == p2);
    assert!(s1.iter().zip(&s2).all(|(a, b)| a.vee().as_array() == b.vee().as_array()));
}

#[test]
fn integer_poses_are_path_sums() {
    // links: r(0), a(1), b(2), c(3) with a <- r, b <- a, c <- r
    let links: Vec<String> = ["r", "a", "b", "c"].iter().map(|s| s.to_string()).collect();
    let joints = vec![
        joint("ja", JointKind::Revolute, "r", "a"),
        joint("jb", JointKind::Revolute, "a", "b"),
        joint("jc", JointKind::Prismatic, "r", "c"),
    ];
    let t = build_topology(&links, &joints).unwrap();
    let relative: Vec<i64> = vec![0, 10, 100, 1000];
    let local: Vec<i64> = vec![0, 1, 2, 3];
    let mut poses: Vec<i64> = vec![-1, -1, -1, -1];
    let mut screws: Vec<i64> = vec![-1, -1, -1, -1];
    propagate(
        &t,
        &relative,
        &local,
        &|a: &i64, b: &i64| a + b,
        &|p: &i64, s: &i64| p * 10 + s,
        5,
        7,
        &mut poses,
        &mut screws,
    );
    assert_eq!(poses, vec![5, 15, 115, 1005]);
    assert_eq!(screws, vec![7, 151, 1152, 10053]);
    let again_poses = poses.clone();
    let again_screws = screws.clone();
    propagate(
        &t,
        &relative,
        &local,
        &|a: &i64, b: &i64| a + b,
        &|p: &i64, s: &i64| p * 10 + s,
        5,
        7,
        &mut poses,
        &mut screws,
    );
    assert_eq!(poses, again_poses);
    assert_eq!(screws, again_screws);
}

#[test]
fn unknown_joint_name_changes_nothing() {
    let (t, joints) = chain(&[JointKind::Revolute, JointKind::Revolute]);
    let mut values = vec![0.0, 1.0, 2.0];
    let updates = vec![("j1".to_string(), 5.0), ("nope".to_string(), 6.0)];
    assert_eq!(
        set_joint_values(&t, &joints, &mut values, &updates),
        Err(BuildError::UnknownJointName)
    );
    assert_eq!(values, vec![0.0, 1.0, 2.0]);
}

#[test]
fn later_update_wins() {
    let (t, joints) = chain(&[JointKind::Revolute, JointKind::Prismatic]);
    let mut values = vec![0, 1, 2];
    let updates = vec![
        ("j2".to_string(), 20),
        ("j1".to_string(), 10),
        ("j2".to_string(), 30),
    ];
    assert_eq!(set_joint_values(&t, &joints, &mut values, &updates), Ok(()));
    assert_eq!(values, vec![0, 10, 30]);
    assert_eq!(set_joint_values(&t, &joints, &mut values, &vec![]), Ok(()));
    assert_eq!(values, vec![0, 10, 30]);
}

#[test]
fn joint_screw_by_kind() {
    let axis = [0.0, 0.6, 0.8];
    let zero = [0.0; 3];
    assert_eq!(joint_screw(JointKind::Revolute, axis, zero), (axis, zero));
    assert_eq!(joint_screw(JointKind::Continuous, axis, zero), (axis, zero));
    assert_eq!(joint_screw(JointKind::Prismatic, axis, zero), (zero, axis));
    assert_eq!(joint_screw(JointKind::Fixed, axis, zero), (zero, zero));
    assert_eq!(joint_screw(JointKind::Other, axis, zero), (zero, zero));
    assert!(uses_axis(JointKind::Revolute));
    assert!(uses_axis(JointKind::Continuous));
    assert!(uses_axis(JointKind::Prismatic));
    assert!(!uses_axis(JointKind::Fixed));
    assert!(!uses_axis(JointKind::Other));
}

fn additive_pass(
    t: &KinematicTopology,
    joints: &Vec<JointRecord>,
    values: &mut Vec<i64>,
    updates: &Vec<(String, i64)>,
    poses: &mut Vec<i64>,
    screws: &mut Vec<i64>,
) -> Result<(), BuildError> {
    let zero: Vec<i64> = vec![0, 100, 200];
    let local: Vec<i64> = vec![0, 1, 2];
    set_joint_values_and_recompute(
        t,
        joints,
        values,
        updates,
        &|l: usize, v: &i64| zero[l] + v,
        &local,
        &|a: &i64, b: &i64| a + b,
        &|p: &i64, s: &i64| p * 10 + s,
        1,
        0,
        poses,
        screws,
    )
}

#[test]
fn update_then_recompute() {
    let (t, joints) = chain(&[JointKind::Revolute, JointKind::Prismatic]);
    let mut values = vec![0, 0, 0];
    let mut poses = vec![1, 0, 0];
    let mut screws = vec![0, 0, 0];
    let updates = vec![("j2".to_string(), 7), ("j1".to_string(), 3)];
    assert_eq!(additive_pass(&t, &joints, &mut values, &updates, &mut poses, &mut screws), Ok(()));
    assert_eq!(values, vec![0, 3, 7]);
    assert_eq!(poses, vec![1, 104, 311]);
    assert_eq!(screws, vec![0, 1041, 3112]);
}

#[test]
fn rejected_update_keeps_poses_and_screws() {
    let (t, joints) = chain(&[JointKind::Revolute, JointKind::Prismatic]);
    let mut values = vec![0, 3, 7];
    let mut poses = vec![1, 104, 311];
    let mut screws = vec![0, 1041, 3112];
    let updates = vec![("j1".to_string(), 9), ("j9".to_string(), 1)];
    assert_eq!(
        additive_pass(&t, &joints, &mut values, &updates, &mut poses, &mut screws),
        Err(BuildError::UnknownJointName)
    );
    assert_eq!(values, vec![0, 3, 7]);
    assert_eq!(poses, vec![1, 104, 311]);
    assert_eq!(screws, vec![0, 1041, 3112]);
}

#[test]
fn recompute_reads_current_values() {
    let (t, _) = chain(&[JointKind::Revolute, JointKind::Revolute]);
    let values: Vec<i64> = vec![0, 4, 5];
    let zero: Vec<i64> = vec![0, 10, 20];
    let local: Vec<i64> = vec![0, 0, 0];
    let mut poses: Vec<i64> = vec![0, 0, 0];
    let mut screws: Vec<i64> = vec![0, 0, 0];
    for _ in 0..2 {
        recompute(
            &t,
            &values,
            &|l: usize, v: &i64| zero[l] * v,
            &local,
            &|a: &i64, b: &i64| a + b,
            &|p: &i64, s: &i64| p + s,
            0,
            0,
            &mut poses,
            &mut screws,
        );
        assert_eq!(poses, vec![0, 40, 140]);
        assert_eq!(screws, vec![0, 40, 140]);
    }
}
