//! The joint motion model and the assignment of joint values by name.
use crate::description::{BuildError, JointKind, JointRecord};
use crate::topology::KinematicTopology;
use vstd::prelude::*;

verus! {

/// The motion screw `(angular, linear)` of a joint of kind `kind` whose unit
/// axis is `axis`: revolute and continuous joints turn about the axis,
/// prismatic joints slide along it, and fixed joints, like joints of any
/// other kind, do not move.
pub open spec fn spec_joint_screw<V>(kind: JointKind, axis: V, zero: V) -> (V, V) {
    match kind {
        JointKind::Revolute | JointKind::Continuous => (axis, zero),
        JointKind::Prismatic => (zero, axis),
        JointKind::Fixed | JointKind::Other => (zero, zero),
    }
}

/// Whether a joint of this kind moves along or about its axis, so that the
/// axis must be normalized.
pub open spec fn spec_uses_axis(kind: JointKind) -> bool {
    kind == JointKind::Revolute || kind == JointKind::Continuous || kind == JointKind::Prismatic
}

/// Whether a joint of kind `kind` uses its axis.
pub fn uses_axis(kind: JointKind) -> (r: bool)
    ensures
        r == spec_uses_axis(kind),
{
    match kind {
        JointKind::Revolute | JointKind::Continuous | JointKind::Prismatic => true,
        JointKind::Fixed | JointKind::Other => false,
    }
}

/// The motion screw of a joint, as its angular and its linear part, given its
/// normalized axis and the zero vector.
pub fn joint_screw<V: Copy>(kind: JointKind, axis: V, zero: V) -> (r: (V, V))
    ensures
        r == spec_joint_screw(kind, axis, zero),
{
    match kind {
        JointKind::Revolute | JointKind::Continuous => (axis, zero),
        JointKind::Prismatic => (zero, axis),
        JointKind::Fixed | JointKind::Other => (zero, zero),
    }
}

/// The name of the joint that connects link `l` to its parent.
pub open spec fn joint_name_of(t: KinematicTopology, joints: Seq<JointRecord>, l: int) -> Option<
    Seq<char>,
> {
    match t.index.joint_of@[l] {
        Some(j) => if j < joints.len() {
            Some(joints[j as int].name@)
        } else {
            None
        },
        None => None,
    }
}

/// Some link of the tree hangs from a joint named `name`.
pub open spec fn names_joint(t: KinematicTopology, joints: Seq<JointRecord>, name: Seq<char>) -> bool {
    exists|l: int| 0 <= l < t.len() && #[trigger] joint_name_of(t, joints, l) == Some(name)
}

/// The value that a link whose joint is named `name` holds after the updates
/// are applied in order to `current`: the last update for that name wins.
pub open spec fn latest_value<T>(updates: Seq<(String, T)>, name: Option<Seq<char>>, current: T) -> T
    decreases updates.len(),
{
    if updates.len() == 0 {
        current
    } else if name == Some(updates.last().0@) {
        updates.last().1
    } else {
        latest_value(updates.drop_last(), name, current)
    }
}

/// The name of link `l`'s joint, where it has one.
fn link_joint_name<'a>(t: &KinematicTopology, joints: &'a Vec<JointRecord>, l: usize) -> (r: Option<
    &'a String,
>)
    requires
        l < t.len(),
        t.wf(),
    ensures
        match r {
            Some(s) => joint_name_of(*t, joints@, l as int) == Some(s@),
            None => joint_name_of(*t, joints@, l as int) is None,
        },
{
    match t.index.joint_of[l] {
        Some(j) => if j < joints.len() {
            Some(&joints[j].name)
        } else {
            None
        },
        None => None,
    }
}

/// Whether some link hangs from a joint named `name`.
fn has_joint_named(t: &KinematicTopology, joints: &Vec<JointRecord>, name: &String) -> (r: bool)
    requires
        t.wf(),
    ensures
        r == names_joint(*t, joints@, name@),
{
    let n = t.index.parent_of.len();
    let mut l: usize = 0;
    while l < n
        invariant
            t.wf(),
            n == t.len(),
            l <= n,
            forall|m: int| 0 <= m < l ==> #[trigger] joint_name_of(*t, joints@, m) != Some(name@),
        decreases n - l,
    {
        match link_joint_name(t, joints, l) {
            Some(s) => {
                if *s == *name {
                    return true;
                }
            },
            None => {},
        }
        l += 1;
    }
    false
}

/// Sets joint values by joint name: each update `(name, value)` gives
/// `value` to every link whose joint is called `name`, later updates winning.
/// When some update names no joint of the tree, nothing is changed and the
/// result is `UnknownJointName`.
pub fn set_joint_values<T: Copy>(
    t: &KinematicTopology,
    joints: &Vec<JointRecord>,
    values: &mut Vec<T>,
    updates: &Vec<(String, T)>,
) -> (r: Result<(), BuildError>)
    requires
        t.wf(),
        old(values)@.len() == t.len(),
    ensures
        final(values)@.len() == t.len(),
        r is Ok <==> forall|k: int| 0 <= k < updates@.len() ==> names_joint(
            *t,
            joints@,
            #[trigger] updates@[k].0@,
        ),
        r matches Err(e) ==> e == BuildError::UnknownJointName && final(values)@ == old(values)@,
        r is Ok ==> forall|l: int| 0 <= l < t.len() ==> #[trigger] final(values)@[l] == latest_value(
            updates@,
            joint_name_of(*t, joints@, l),
            old(values)@[l],
        ),
{
    let mut k: usize = 0;
    while k < updates.len()
        invariant
            t.wf(),
            values@ == old(values)@,
            old(values)@.len() == t.len(),
            k <= updates@.len(),
            forall|i: int| 0 <= i < k ==> names_joint(*t, joints@, #[trigger] updates@[i].0@),
        decreases updates@.len() - k,
    {
        if !has_joint_named(t, joints, &updates[k].0) {
            return Err(BuildError::UnknownJointName);
        }
        k += 1;
    }
    let n = t.index.parent_of.len();
    let ghost start = values@;
    let mut k: usize = 0;
    while k < updates.len()
        invariant
            t.wf(),
            n == t.len(),
            values@.len() == n,
            start.len() == n,
            k <= updates@.len(),
            forall|l: int| 0 <= l < n ==> #[trigger] values@[l] == latest_value(
                updates@.take(k as int),
                joint_name_of(*t, joints@, l),
                start[l],
            ),
        decreases updates@.len() - k,
    {
        let ghost done = updates@.take(k as int);
        let ghost next = updates@.take(k + 1);
        assert(next.drop_last() =~= done);
        assert(next.last() == updates@[k as int]);
        let mut l: usize = 0;
        while l < n
            invariant
                t.wf(),
                n == t.len(),
                values@.len() == n,
                start.len() == n,
                k < updates@.len(),
                l <= n,
                done == updates@.take(k as int),
                next == updates@.take(k + 1),
                next.drop_last() == done,
                next.last() == updates@[k as int],
                forall|m: int| 0 <= m < l ==> #[trigger] values@[m] == latest_value(
                    next,
                    joint_name_of(*t, joints@, m),
                    start[m],
                ),
                forall|m: int| l <= m < n ==> #[trigger] values@[m] == latest_value(
                    done,
                    joint_name_of(*t, joints@, m),
                    start[m],
                ),
            decreases n - l,
        {
            match link_joint_name(t, joints, l) {
                Some(s) => {
                    if *s == updates[k].0 {
                        values.set(l, updates[k].1);
                    }
                },
                None => {},
            }
            l += 1;
        }
        k += 1;
    }
    assert(updates@.take(updates@.len() as int) =~= updates@);
    Ok(())
}

} // verus!
