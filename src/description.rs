//! The flat robot description and its indexing: every link gets a dense id,
//! and every link but the root is tied to the one joint that connects it to
//! its parent.
use vstd::prelude::*;

verus! {

/// How a joint lets the child link move relative to its parent.
#[derive(Clone, Copy, Debug, PartialEq, Eq, Structural)]
pub enum JointKind {
    Fixed,
    Revolute,
    Continuous,
    Prismatic,
    Other,
}

/// The name-level part of a joint: its name, its kind and the names of the two
/// links it connects.
#[derive(Clone, Debug)]
pub struct JointRecord {
    pub name: String,
    pub kind: JointKind,
    pub parent: String,
    pub child: String,
}

/// Why a kinematic tree cannot be built or updated.
#[derive(Clone, Copy, Debug, PartialEq, Eq, Structural)]
pub enum BuildError {
    MalformedDescription,
    DegenerateAxis,
    UnknownJointName,
    UnreachableLink,
}

/// Some link carries the name `name`.
pub open spec fn names_link(names: Seq<String>, name: Seq<char>) -> bool {
    exists|i: int| 0 <= i < names.len() && #[trigger] names[i]@ == name
}

/// No two links share a name.
pub open spec fn distinct_names(names: Seq<String>) -> bool {
    forall|i: int, k: int| 0 <= i < names.len() && 0 <= k < names.len() && i != k
        ==> #[trigger] names[i]@ != #[trigger] names[k]@
}

/// Every joint names an existing parent link and an existing child link.
pub open spec fn references_known(names: Seq<String>, joints: Seq<JointRecord>) -> bool {
    forall|j: int| 0 <= j < joints.len()
        ==> names_link(names, (#[trigger] joints[j]).parent@) && names_link(names, joints[j].child@)
}

/// No link is the child of two joints.
pub open spec fn distinct_children(joints: Seq<JointRecord>) -> bool {
    forall|a: int, b: int| 0 <= a < joints.len() && 0 <= b < joints.len() && a != b
        ==> #[trigger] joints[a].child@ != #[trigger] joints[b].child@
}

/// Some joint has the link named `name` as its child.
pub open spec fn is_child(joints: Seq<JointRecord>, name: Seq<char>) -> bool {
    exists|j: int| 0 <= j < joints.len() && #[trigger] joints[j].child@ == name
}

/// Link `r` is the only link that no joint has as its child.
pub open spec fn is_sole_root(names: Seq<String>, joints: Seq<JointRecord>, r: int) -> bool {
    &&& 0 <= r < names.len()
    &&& !is_child(joints, names[r]@)
    &&& forall|l: int| 0 <= l < names.len() && l != r ==> is_child(joints, #[trigger] names[l]@)
}

/// Exactly one link has no parent joint.
pub open spec fn single_root(names: Seq<String>, joints: Seq<JointRecord>) -> bool {
    exists|r: int| is_sole_root(names, joints, r)
}

/// A description from which a link index can be made.
pub open spec fn well_formed(names: Seq<String>, joints: Seq<JointRecord>) -> bool {
    &&& distinct_names(names)
    &&& references_known(names, joints)
    &&& distinct_children(joints)
    &&& single_root(names, joints)
}

/// For each link id: the joint that connects it to its parent, and that
/// parent's id; and the id of the root.
#[derive(Debug)]
pub struct LinkIndex {
    pub joint_of: Vec<Option<usize>>,
    pub parent_of: Vec<Option<usize>>,
    pub root: usize,
}

/// `idx` is the index of the description: each link is tied to the joint
/// whose child it is, and to the link that joint names as parent.
pub open spec fn indexes(names: Seq<String>, joints: Seq<JointRecord>, idx: LinkIndex) -> bool {
    let n = names.len();
    &&& idx.joint_of@.len() == n
    &&& idx.parent_of@.len() == n
    &&& idx.root < n
    &&& idx.joint_of@[idx.root as int] is None
    &&& forall|l: int| 0 <= l < n ==> match #[trigger] idx.joint_of@[l] {
        Some(j) => j < joints.len() && joints[j as int].child@ == names[l]@,
        None => !is_child(joints, names[l]@),
    }
    &&& forall|l: int| 0 <= l < n ==> match #[trigger] idx.parent_of@[l] {
        Some(p) => idx.joint_of@[l] is Some && p < n
            && names[p as int]@ == joints[idx.joint_of@[l]->0 as int].parent@,
        None => idx.joint_of@[l] is None,
    }
}

/// The id of the first link named `name`.
pub fn find_link(names: &Vec<String>, name: &String) -> (r: Option<usize>)
    ensures
        match r {
            Some(i) => i < names@.len() && names@[i as int]@ == name@,
            None => !names_link(names@, name@),
        },
{
    let mut i: usize = 0;
    while i < names.len()
        invariant
            i <= names@.len(),
            forall|k: int| 0 <= k < i ==> #[trigger] names@[k]@ != name@,
        decreases names@.len() - i,
    {
        if names[i] == *name {
            return Some(i);
        }
        i += 1;
    }
    None
}

/// The index of the first joint whose child is named `name`.
pub fn find_child_joint(joints: &Vec<JointRecord>, name: &String) -> (r: Option<usize>)
    ensures
        match r {
            Some(j) => j < joints@.len() && joints@[j as int].child@ == name@,
            None => !is_child(joints@, name@),
        },
{
    let mut j: usize = 0;
    while j < joints.len()
        invariant
            j <= joints@.len(),
            forall|k: int| 0 <= k < j ==> #[trigger] joints@[k].child@ != name@,
        decreases joints@.len() - j,
    {
        if joints[j].child == *name {
            return Some(j);
        }
        j += 1;
    }
    None
}

/// Whether no two links share a name.
fn check_distinct_names(names: &Vec<String>) -> (r: bool)
    ensures
        r == distinct_names(names@),
{
    let mut i: usize = 0;
    while i < names.len()
        invariant
            i <= names@.len(),
            forall|a: int, b: int| 0 <= a < i && 0 <= b < i && a != b
                ==> #[trigger] names@[a]@ != #[trigger] names@[b]@,
        decreases names@.len() - i,
    {
        let mut k: usize = 0;
        while k < i
            invariant
                i < names@.len(),
                k <= i,
                forall|b: int| 0 <= b < k ==> #[trigger] names@[b]@ != names@[i as int]@,
            decreases i - k,
        {
            if names[k] == names[i] {
                assert(names@[k as int]@ == names@[i as int]@);
                return false;
            }
            k += 1;
        }
        i += 1;
    }
    true
}

/// Whether every joint names links that exist.
fn check_references(names: &Vec<String>, joints: &Vec<JointRecord>) -> (r: bool)
    ensures
        r == references_known(names@, joints@),
{
    let mut j: usize = 0;
    while j < joints.len()
        invariant
            j <= joints@.len(),
            forall|k: int| 0 <= k < j ==> names_link(names@, (#[trigger] joints@[k]).parent@)
                && names_link(names@, joints@[k].child@),
        decreases joints@.len() - j,
    {
        let p = find_link(names, &joints[j].parent);
        let c = find_link(names, &joints[j].child);
        match (p, c) {
            (Some(pi), Some(ci)) => {
                assert(names@[pi as int]@ == joints@[j as int].parent@);
                assert(names@[ci as int]@ == joints@[j as int].child@);
            },
            _ => {
                return false;
            },
        }
        j += 1;
    }
    true
}

/// Whether no two joints share a child.
fn check_distinct_children(joints: &Vec<JointRecord>) -> (r: bool)
    ensures
        r == distinct_children(joints@),
{
    let mut a: usize = 0;
    while a < joints.len()
        invariant
            a <= joints@.len(),
            forall|x: int, y: int| 0 <= x < a && 0 <= y < a && x != y
                ==> #[trigger] joints@[x].child@ != #[trigger] joints@[y].child@,
        decreases joints@.len() - a,
    {
        let mut b: usize = 0;
        while b < a
            invariant
                a < joints@.len(),
                b <= a,
                forall|y: int| 0 <= y < b ==> #[trigger] joints@[y].child@ != joints@[a as int].child@,
            decreases a - b,
        {
            if joints[b].child == joints[a].child {
                assert(joints@[b as int].child@ == joints@[a as int].child@);
                return false;
            }
            b += 1;
        }
        a += 1;
    }
    true
}

/// Indexes a description given as its link names, in id order, and its
/// joints. Fails with `MalformedDescription` exactly when two links share a
/// name, a joint names a link that does not exist, two joints share a child,
/// or the number of links without a parent joint is not one.
pub fn index_description(names: &Vec<String>, joints: &Vec<JointRecord>) -> (r: Result<
    LinkIndex,
    BuildError,
>)
    ensures
        match r {
            Ok(idx) => well_formed(names@, joints@) && indexes(names@, joints@, idx),
            Err(e) => e == BuildError::MalformedDescription && !well_formed(names@, joints@),
        },
{
    if !check_distinct_names(names) || !check_references(names, joints)
        || !check_distinct_children(joints) {
        return Err(BuildError::MalformedDescription);
    }
    let n = names.len();
    let mut joint_of: Vec<Option<usize>> = Vec::new();
    let mut parent_of: Vec<Option<usize>> = Vec::new();
    let mut root: Option<usize> = None;
    let mut l: usize = 0;
    while l < n
        invariant
            n == names@.len(),
            l <= n,
            references_known(names@, joints@),
            joint_of@.len() == l,
            parent_of@.len() == l,
            match root {
                Some(r) => r < l && !is_child(joints@, names@[r as int]@)
                    && forall|k: int| 0 <= k < l && k != r ==> is_child(joints@, #[trigger] names@[k]@),
                None => forall|k: int| 0 <= k < l ==> is_child(joints@, #[trigger] names@[k]@),
            },
            forall|k: int| 0 <= k < l ==> match #[trigger] joint_of@[k] {
                Some(j) => j < joints@.len() && joints@[j as int].child@ == names@[k]@,
                None => !is_child(joints@, names@[k]@),
            },
            forall|k: int| 0 <= k < l ==> match #[trigger] parent_of@[k] {
                Some(p) => joint_of@[k] is Some && p < n
                    && names@[p as int]@ == joints@[joint_of@[k]->0 as int].parent@,
                None => joint_of@[k] is None,
            },
        decreases n - l,
    {
        match find_child_joint(joints, &names[l]) {
            Some(j) => {
                assert(names_link(names@, joints@[j as int].parent@));
                match find_link(names, &joints[j].parent) {
                    Some(p) => {
                        joint_of.push(Some(j));
                        parent_of.push(Some(p));
                    },
                    None => {
                        return Err(BuildError::MalformedDescription);
                    },
                }
            },
            None => {
                match root {
                    Some(r) => {
                        assert forall|x: int| !is_sole_root(names@, joints@, x) by {
                            if x != r {
                                assert(!is_child(joints@, names@[r as int]@));
                            } else {
                                assert(!is_child(joints@, names@[l as int]@));
                            }
                        }
                        return Err(BuildError::MalformedDescription);
                    },
                    None => {
                        root = Some(l);
                    },
                }
                joint_of.push(None);
                parent_of.push(None);
            },
        }
        l += 1;
    }
    match root {
        Some(r) => {
            let idx = LinkIndex { joint_of, parent_of, root: r };
            assert(is_sole_root(names@, joints@, r as int));
            Ok(idx)
        },
        None => {
            assert forall|x: int| !is_sole_root(names@, joints@, x) by {
                if 0 <= x < n {
                    assert(is_child(joints@, names@[x]@));
                }
            }
            Err(BuildError::MalformedDescription)
        },
    }
}

} // verus!
