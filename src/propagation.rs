//! Pose propagation down a kinematic topology. The rigid-transform algebra is
//! passed in as functions: `compose` multiplies two poses, `lift` carries a
//! joint's local motion screw into the base frame under a global pose.
use crate::description::{BuildError, JointRecord};
use crate::joints::{joint_name_of, latest_value, names_joint, set_joint_values};
use crate::topology::{lemma_parent_precedes, KinematicTopology};
use vstd::prelude::*;

verus! {

/// Every link's global pose was composed from its parent's global pose and
/// its own relative pose, and every link's global screw was lifted from its
/// global pose and its local screw.
pub open spec fn propagated<T, S, F, G>(
    parents: Seq<Option<usize>>,
    relative: Seq<T>,
    local: Seq<S>,
    compose: F,
    lift: G,
    poses: Seq<T>,
    screws: Seq<S>,
) -> bool where F: Fn(&T, &T) -> T, G: Fn(&T, &S) -> S {
    &&& forall|l: int| 0 <= l < parents.len() ==> match #[trigger] parents[l] {
        Some(p) => compose.ensures((&poses[p as int], &relative[l]), poses[l]),
        None => true,
    }
    &&& forall|l: int| 0 <= l < parents.len() && parents[l] is Some ==> lift.ensures(
        (&poses[l], &local[l]),
        #[trigger] screws[l],
    )
}

/// Recomputes the global pose and global screw of every link, in traversal
/// order. The root gets `root_pose` (the identity of the base frame) and
/// `root_screw` (the zero screw); every other link gets `compose(parent's global pose, relative[l])` as its pose
/// and `lift(its pose, local[l])` as its screw.
pub fn propagate<T, S, F, G>(
    t: &KinematicTopology,
    relative: &Vec<T>,
    local: &Vec<S>,
    compose: &F,
    lift: &G,
    root_pose: T,
    root_screw: S,
    poses: &mut Vec<T>,
    screws: &mut Vec<S>,
) where F: Fn(&T, &T) -> T, G: Fn(&T, &S) -> S
    requires
        t.wf(),
        relative@.len() == t.len(),
        local@.len() == t.len(),
        old(poses)@.len() == t.len(),
        old(screws)@.len() == t.len(),
        forall|a: &T, b: &T| #[trigger] compose.requires((a, b)),
        forall|a: &T, b: &S| #[trigger] lift.requires((a, b)),
    ensures
        final(poses)@.len() == t.len(),
        final(screws)@.len() == t.len(),
        final(poses)@[t.index.root as int] == root_pose,
        final(screws)@[t.index.root as int] == root_screw,
        propagated(t.parents(), relative@, local@, *compose, *lift, final(poses)@, final(screws)@),
{
    let n = t.order.len();
    let ghost parents = t.parents();
    let ghost root = t.index.root;
    let ghost rp = root_pose;
    let ghost rs = root_screw;
    poses.set(t.index.root, root_pose);
    screws.set(t.index.root, root_screw);
    let mut k: usize = 1;
    while k < n
        invariant
            t.wf(),
            parents == t.parents(),
            root == t.index.root,
            n == t.len(),
            1 <= k <= n,
            relative@.len() == n,
            local@.len() == n,
            poses@.len() == n,
            screws@.len() == n,
            forall|a: &T, b: &T| #[trigger] compose.requires((a, b)),
            forall|a: &T, b: &S| #[trigger] lift.requires((a, b)),
            poses@[root as int] == rp,
            screws@[root as int] == rs,
            forall|i: int| 1 <= i < k ==> match #[trigger] parents[t.order@[i] as int] {
                Some(p) => compose.ensures(
                    (&poses@[p as int], &relative@[t.order@[i] as int]),
                    poses@[t.order@[i] as int],
                ) && lift.ensures(
                    (&poses@[t.order@[i] as int], &local@[t.order@[i] as int]),
                    screws@[t.order@[i] as int],
                ),
                None => false,
            },
        decreases n - k,
    {
        let l = t.order[k];
        assert(l < n);
        assert(t.order@[0] == root);
        match t.index.parent_of[l] {
            Some(p) => {
                proof {
                    crate::topology::lemma_parent_precedes(*t, l);
                }
                let pose = compose(&poses[p], &relative[l]);
                let ghost before = poses@;
                poses.set(l, pose);
                let screw = lift(&poses[l], &local[l]);
                screws.set(l, screw);
                assert forall|i: int| 1 <= i < k + 1 implies match #[trigger] parents[t.order@[i] as int] {
                    Some(q) => compose.ensures(
                        (&poses@[q as int], &relative@[t.order@[i] as int]),
                        poses@[t.order@[i] as int],
                    ) && lift.ensures(
                        (&poses@[t.order@[i] as int], &local@[t.order@[i] as int]),
                        screws@[t.order@[i] as int],
                    ),
                    None => false,
                } by {
                    if i < k {
                        assert(t.order@[i] != l);
                        if let Some(q) = parents[t.order@[i] as int] {
                            crate::topology::lemma_parent_precedes(*t, t.order@[i]);
                            assert(t.position@[t.order@[i] as int] == i);
                            assert(t.order@[t.position@[q as int] as int] == q);
                            assert(q != l);
                        }
                    }
                }
            },
            None => {
                assert(t.position@[l as int] == k);
                assert(t.order@[0] != t.order@[k as int]);
                assert(false);
            },
        }
        k += 1;
    }
    assert forall|l: int| 0 <= l < parents.len() && parents[l] is Some implies lift.ensures(
        (&poses@[l], &local@[l]),
        #[trigger] screws@[l],
    ) by {
        let i = t.position@[l];
        assert(t.order@[i as int] == l);
        if i == 0 {
            assert(parents[root as int] is None);
        }
    }
    assert forall|l: int| 0 <= l < parents.len() implies match #[trigger] parents[l] {
        Some(p) => compose.ensures((&poses@[p as int], &relative@[l]), poses@[l]),
        None => true,
    } by {
        let i = t.position@[l];
        assert(t.order@[i as int] == l);
        if i == 0 {
            assert(parents[root as int] is None);
        }
    }
}

/// `compose` gives at most one result for each pair of arguments.
pub open spec fn compose_is_function<T, F>(compose: F) -> bool where F: Fn(&T, &T) -> T {
    forall|x: &T, y: &T, r1: T, r2: T|
        #[trigger] compose.ensures((x, y), r1) && #[trigger] compose.ensures((x, y), r2) ==> r1 == r2
}

/// `lift` gives at most one result for each pair of arguments.
pub open spec fn lift_is_function<T, S, G>(lift: G) -> bool where G: Fn(&T, &S) -> S {
    forall|x: &T, y: &S, r1: S, r2: S|
        #[trigger] lift.ensures((x, y), r1) && #[trigger] lift.ensures((x, y), r2) ==> r1 == r2
}

/// The product of the relative poses along the path from the root down to
/// link `l`, applied to `base`: `c(...c(c(base, rel[a1]), rel[a2])..., rel[l])`.
pub open spec fn chain_pose<T>(
    parents: Seq<Option<usize>>,
    position: Seq<usize>,
    relative: Seq<T>,
    c: spec_fn(T, T) -> T,
    base: T,
    l: int,
) -> T
    decreases position[l],
{
    if 0 <= l < parents.len() && l < position.len() && parents[l] is Some && parents[l]->0
        < position.len() && position[parents[l]->0 as int] < position[l] {
        c(chain_pose(parents, position, relative, c, base, parents[l]->0 as int), relative[l])
    } else {
        base
    }
}

proof fn lemma_prefix_agrees<T, S, F, G>(
    t: KinematicTopology,
    relative: Seq<T>,
    local: Seq<S>,
    compose: F,
    lift: G,
    poses_a: Seq<T>,
    screws_a: Seq<S>,
    poses_b: Seq<T>,
    screws_b: Seq<S>,
    k: int,
) where F: Fn(&T, &T) -> T, G: Fn(&T, &S) -> S
    requires
        t.wf(),
        0 <= k <= t.len(),
        poses_a.len() == t.len(),
        poses_b.len() == t.len(),
        screws_a.len() == t.len(),
        screws_b.len() == t.len(),
        poses_a[t.index.root as int] == poses_b[t.index.root as int],
        screws_a[t.index.root as int] == screws_b[t.index.root as int],
        propagated(t.parents(), relative, local, compose, lift, poses_a, screws_a),
        propagated(t.parents(), relative, local, compose, lift, poses_b, screws_b),
        compose_is_function(compose),
        lift_is_function(lift),
    ensures
        forall|i: int| 0 <= i < k ==> poses_a[#[trigger] t.order@[i] as int] == poses_b[t.order@[i] as int]
            && screws_a[t.order@[i] as int] == screws_b[t.order@[i] as int],
    decreases k,
{
    if k > 0 {
        lemma_prefix_agrees(t, relative, local, compose, lift, poses_a, screws_a, poses_b, screws_b, k - 1);
        let l = t.order@[k - 1];
        assert(t.position@[l as int] == k - 1);
        if t.parents()[l as int] is Some {
            let p = t.parents()[l as int]->0;
            lemma_parent_precedes(t, l);
            let j = t.position@[p as int];
            assert(t.order@[j as int] == p);
            assert(poses_a[p as int] == poses_b[p as int]);
            assert(compose.ensures((&poses_a[p as int], &relative[l as int]), poses_a[l as int]));
            assert(compose.ensures((&poses_b[p as int], &relative[l as int]), poses_b[l as int]));
            assert(lift.ensures((&poses_a[l as int], &local[l as int]), screws_a[l as int]));
            assert(lift.ensures((&poses_b[l as int], &local[l as int]), screws_b[l as int]));
        } else {
            assert(l == t.index.root);
        }
    }
}

/// Propagating twice over the same topology, relative poses, local screws and
/// root values gives the same global poses and screws, whenever composing and
/// lifting are functions of their arguments.
pub proof fn lemma_propagation_repeatable<T, S, F, G>(
    t: KinematicTopology,
    relative: Seq<T>,
    local: Seq<S>,
    compose: F,
    lift: G,
    poses_a: Seq<T>,
    screws_a: Seq<S>,
    poses_b: Seq<T>,
    screws_b: Seq<S>,
) where F: Fn(&T, &T) -> T, G: Fn(&T, &S) -> S
    requires
        t.wf(),
        poses_a.len() == t.len(),
        poses_b.len() == t.len(),
        screws_a.len() == t.len(),
        screws_b.len() == t.len(),
        poses_a[t.index.root as int] == poses_b[t.index.root as int],
        screws_a[t.index.root as int] == screws_b[t.index.root as int],
        propagated(t.parents(), relative, local, compose, lift, poses_a, screws_a),
        propagated(t.parents(), relative, local, compose, lift, poses_b, screws_b),
        compose_is_function(compose),
        lift_is_function(lift),
    ensures
        poses_a == poses_b,
        screws_a == screws_b,
{
    lemma_prefix_agrees(t, relative, local, compose, lift, poses_a, screws_a, poses_b, screws_b, t.len() as int);
    assert forall|l: int| 0 <= l < t.len() implies poses_a[l] == poses_b[l] && screws_a[l] == screws_b[l] by {
        let i = t.position@[l];
        assert(t.order@[i as int] == l);
    }
    assert(poses_a =~= poses_b);
    assert(screws_a =~= screws_b);
}

proof fn lemma_prefix_is_chain<T, S, F, G>(
    t: KinematicTopology,
    relative: Seq<T>,
    local: Seq<S>,
    compose: F,
    lift: G,
    poses: Seq<T>,
    screws: Seq<S>,
    c: spec_fn(T, T) -> T,
    k: int,
) where F: Fn(&T, &T) -> T, G: Fn(&T, &S) -> S
    requires
        t.wf(),
        0 <= k <= t.len(),
        poses.len() == t.len(),
        propagated(t.parents(), relative, local, compose, lift, poses, screws),
        forall|x: &T, y: &T, r: T| #[trigger] compose.ensures((x, y), r) ==> r == c(*x, *y),
    ensures
        forall|i: int| 0 <= i < k ==> poses[#[trigger] t.order@[i] as int] == chain_pose(
            t.parents(),
            t.position@,
            relative,
            c,
            poses[t.index.root as int],
            t.order@[i] as int,
        ),
    decreases k,
{
    if k > 0 {
        lemma_prefix_is_chain(t, relative, local, compose, lift, poses, screws, c, k - 1);
        let l = t.order@[k - 1];
        assert(t.position@[l as int] == k - 1);
        if t.parents()[l as int] is Some {
            let p = t.parents()[l as int]->0;
            lemma_parent_precedes(t, l);
            let j = t.position@[p as int];
            assert(t.order@[j as int] == p);
            assert(compose.ensures((&poses[p as int], &relative[l as int]), poses[l as int]));
        } else {
            assert(l == t.index.root);
        }
    }
}

/// When composing is the function `c`, every link's propagated global pose is
/// the product of the relative poses along its path from the root, applied to
/// the root's pose.
pub proof fn lemma_pose_is_chain_product<T, S, F, G>(
    t: KinematicTopology,
    relative: Seq<T>,
    local: Seq<S>,
    compose: F,
    lift: G,
    poses: Seq<T>,
    screws: Seq<S>,
    c: spec_fn(T, T) -> T,
) where F: Fn(&T, &T) -> T, G: Fn(&T, &S) -> S
    requires
        t.wf(),
        poses.len() == t.len(),
        propagated(t.parents(), relative, local, compose, lift, poses, screws),
        forall|x: &T, y: &T, r: T| #[trigger] compose.ensures((x, y), r) ==> r == c(*x, *y),
    ensures
        forall|l: int| 0 <= l < t.len() ==> #[trigger] poses[l] == chain_pose(
            t.parents(),
            t.position@,
            relative,
            c,
            poses[t.index.root as int],
            l,
        ),
{
    lemma_prefix_is_chain(t, relative, local, compose, lift, poses, screws, c, t.len() as int);
    assert forall|l: int| 0 <= l < t.len() implies #[trigger] poses[l] == chain_pose(
        t.parents(),
        t.position@,
        relative,
        c,
        poses[t.index.root as int],
        l,
    ) by {
        let i = t.position@[l];
        assert(t.order@[i as int] == l);
    }
}

/// When every non-root link has the zero screw `zero` as its local screw, as
/// a fixed joint does, and lifting the zero screw under any pose gives the
/// zero screw, then every non-root link's global screw is the zero screw.
pub proof fn lemma_motionless_links_have_zero_screw<T, S, F, G>(
    t: KinematicTopology,
    relative: Seq<T>,
    local: Seq<S>,
    compose: F,
    lift: G,
    poses: Seq<T>,
    screws: Seq<S>,
    zero: S,
) where F: Fn(&T, &T) -> T, G: Fn(&T, &S) -> S
    requires
        propagated(t.parents(), relative, local, compose, lift, poses, screws),
        forall|l: int| 0 <= l < t.len() && t.parents()[l] is Some ==> local[l] == zero,
        forall|g: &T, r: S| #[trigger] lift.ensures((g, &zero), r) ==> r == zero,
    ensures
        forall|l: int| 0 <= l < t.len() && t.parents()[l] is Some ==> #[trigger] screws[l] == zero,
{
    assert forall|l: int| 0 <= l < t.len() && t.parents()[l] is Some implies #[trigger] screws[l]
        == zero by {
        assert(lift.ensures((&poses[l], &local[l]), screws[l]));
    }
}

/// `poses` and `screws` were propagated from some relative poses, each of
/// which `relative_of` gave for its link and that link's joint value.
pub open spec fn propagated_from_values<J, T, S, R, F, G>(
    parents: Seq<Option<usize>>,
    values: Seq<J>,
    relative_of: R,
    local: Seq<S>,
    compose: F,
    lift: G,
    poses: Seq<T>,
    screws: Seq<S>,
) -> bool where R: Fn(usize, &J) -> T, F: Fn(&T, &T) -> T, G: Fn(&T, &S) -> S {
    exists|relative: Seq<T>|
        {
            &&& relative.len() == parents.len()
            &&& forall|l: int| 0 <= l < parents.len() ==> relative_of.ensures(
                (l as usize, &values[l]),
                #[trigger] relative[l],
            )
            &&& propagated(parents, relative, local, compose, lift, poses, screws)
        }
}

/// Recomputes every global pose and screw from the current joint values:
/// link `l`'s relative pose is `relative_of(l, values[l])`, and propagation
/// goes as in `propagate`.
pub fn recompute<J, T, S, R, F, G>(
    t: &KinematicTopology,
    values: &Vec<J>,
    relative_of: &R,
    local: &Vec<S>,
    compose: &F,
    lift: &G,
    root_pose: T,
    root_screw: S,
    poses: &mut Vec<T>,
    screws: &mut Vec<S>,
) where R: Fn(usize, &J) -> T, F: Fn(&T, &T) -> T, G: Fn(&T, &S) -> S
    requires
        t.wf(),
        values@.len() == t.len(),
        local@.len() == t.len(),
        old(poses)@.len() == t.len(),
        old(screws)@.len() == t.len(),
        forall|l: usize, v: &J| #[trigger] relative_of.requires((l, v)),
        forall|a: &T, b: &T| #[trigger] compose.requires((a, b)),
        forall|a: &T, b: &S| #[trigger] lift.requires((a, b)),
    ensures
        final(poses)@.len() == t.len(),
        final(screws)@.len() == t.len(),
        final(poses)@[t.index.root as int] == root_pose,
        final(screws)@[t.index.root as int] == root_screw,
        propagated_from_values(
            t.parents(),
            values@,
            *relative_of,
            local@,
            *compose,
            *lift,
            final(poses)@,
            final(screws)@,
        ),
{
    let n = values.len();
    let mut relative: Vec<T> = Vec::new();
    let mut l: usize = 0;
    while l < n
        invariant
            n == values@.len(),
            l <= n,
            relative@.len() == l,
            forall|l: usize, v: &J| #[trigger] relative_of.requires((l, v)),
            forall|k: int| 0 <= k < l ==> relative_of.ensures(
                (k as usize, &values@[k]),
                #[trigger] relative@[k],
            ),
        decreases n - l,
    {
        let r = relative_of(l, &values[l]);
        relative.push(r);
        l += 1;
    }
    propagate(t, &relative, local, compose, lift, root_pose, root_screw, poses, screws);
    assert(relative@.len() == t.parents().len());
    assert(forall|l: int| 0 <= l < t.parents().len() ==> relative_of.ensures(
        (l as usize, &values@[l]),
        #[trigger] relative@[l],
    ));
}

/// Sets joint values by name (as `set_joint_values` does) and then
/// recomputes every global pose and screw. When some update names no joint
/// of the tree the result is `UnknownJointName` and the values, poses and
/// screws are all left as they were.
pub fn set_joint_values_and_recompute<J: Copy, T, S, R, F, G>(
    t: &KinematicTopology,
    joints: &Vec<JointRecord>,
    values: &mut Vec<J>,
    updates: &Vec<(String, J)>,
    relative_of: &R,
    local: &Vec<S>,
    compose: &F,
    lift: &G,
    root_pose: T,
    root_screw: S,
    poses: &mut Vec<T>,
    screws: &mut Vec<S>,
) -> (r: Result<(), BuildError>) where R: Fn(usize, &J) -> T, F: Fn(&T, &T) -> T, G: Fn(&T, &S) -> S
    requires
        t.wf(),
        old(values)@.len() == t.len(),
        local@.len() == t.len(),
        old(poses)@.len() == t.len(),
        old(screws)@.len() == t.len(),
        forall|l: usize, v: &J| #[trigger] relative_of.requires((l, v)),
        forall|a: &T, b: &T| #[trigger] compose.requires((a, b)),
        forall|a: &T, b: &S| #[trigger] lift.requires((a, b)),
    ensures
        r is Ok <==> forall|k: int| 0 <= k < updates@.len() ==> names_joint(
            *t,
            joints@,
            #[trigger] updates@[k].0@,
        ),
        r matches Err(e) ==> e == BuildError::UnknownJointName && final(values)@ == old(values)@
            && final(poses)@ == old(poses)@ && final(screws)@ == old(screws)@,
        r is Ok ==> {
            &&& final(values)@.len() == t.len()
            &&& final(poses)@.len() == t.len()
            &&& final(screws)@.len() == t.len()
            &&& forall|l: int| 0 <= l < t.len() ==> #[trigger] final(values)@[l] == latest_value(
                updates@,
                joint_name_of(*t, joints@, l),
                old(values)@[l],
            )
            &&& final(poses)@[t.index.root as int] == root_pose
            &&& final(screws)@[t.index.root as int] == root_screw
            &&& propagated_from_values(
                t.parents(),
                final(values)@,
                *relative_of,
                local@,
                *compose,
                *lift,
                final(poses)@,
                final(screws)@,
            )
        },
{
    match set_joint_values(t, joints, values, updates) {
        Ok(()) => {},
        Err(e) => {
            return Err(e);
        },
    }
    recompute(t, values, relative_of, local, compose, lift, root_pose, root_screw, poses, screws);
    Ok(())
}

/// `relative_of` gives at most one result for each link and joint value.
pub open spec fn relative_is_function<J, T, R>(relative_of: R) -> bool where R: Fn(usize, &J) -> T {
    forall|l: usize, v: &J, r1: T, r2: T|
        #[trigger] relative_of.ensures((l, v), r1) && #[trigger] relative_of.ensures((l, v), r2)
            ==> r1 == r2
}

/// Recomputing twice with unchanged joint values gives identical global
/// poses and screws, whenever the relative poses, composing and lifting are
/// functions of their arguments.
pub proof fn lemma_recompute_repeatable<J, T, S, R, F, G>(
    t: KinematicTopology,
    values: Seq<J>,
    relative_of: R,
    local: Seq<S>,
    compose: F,
    lift: G,
    poses_a: Seq<T>,
    screws_a: Seq<S>,
    poses_b: Seq<T>,
    screws_b: Seq<S>,
) where R: Fn(usize, &J) -> T, F: Fn(&T, &T) -> T, G: Fn(&T, &S) -> S
    requires
        t.wf(),
        poses_a.len() == t.len(),
        poses_b.len() == t.len(),
        screws_a.len() == t.len(),
        screws_b.len() == t.len(),
        poses_a[t.index.root as int] == poses_b[t.index.root as int],
        screws_a[t.index.root as int] == screws_b[t.index.root as int],
        propagated_from_values(t.parents(), values, relative_of, local, compose, lift, poses_a, screws_a),
        propagated_from_values(t.parents(), values, relative_of, local, compose, lift, poses_b, screws_b),
        relative_is_function(relative_of),
        compose_is_function(compose),
        lift_is_function(lift),
    ensures
        poses_a == poses_b,
        screws_a == screws_b,
{
    let n = t.parents().len();
    let rel_a = choose|relative: Seq<T>|
        {
            &&& relative.len() == n
            &&& forall|l: int| 0 <= l < n ==> relative_of.ensures(
                (l as usize, &values[l]),
                #[trigger] relative[l],
            )
            &&& propagated(t.parents(), relative, local, compose, lift, poses_a, screws_a)
        };
    let rel_b = choose|relative: Seq<T>|
        {
            &&& relative.len() == n
            &&& forall|l: int| 0 <= l < n ==> relative_of.ensures(
                (l as usize, &values[l]),
                #[trigger] relative[l],
            )
            &&& propagated(t.parents(), relative, local, compose, lift, poses_b, screws_b)
        };
    assert forall|l: int| 0 <= l < n implies rel_a[l] == rel_b[l] by {
        assert(relative_of.ensures((l as usize, &values[l]), rel_a[l]));
        assert(relative_of.ensures((l as usize, &values[l]), rel_b[l]));
    }
    assert(rel_a =~= rel_b);
    lemma_propagation_repeatable(t, rel_a, local, compose, lift, poses_a, screws_a, poses_b, screws_b);
}

} // verus!
