//! The skeleton description: an arena of joints with explicit child-index
//! lists, and the two traversal orders of the composer's tree passes.
//!
//! A well-formed skeleton is a forest: every joint has at most one parent and
//! every joint is reachable from a root.  Well-formedness is witnessed by a
//! depth assignment that increases by one along every edge.  The top-down
//! order visits every joint exactly once, each parent before all of its
//! children; the bottom-up order is its reverse, each child before its
//! parent.  These two orders are exactly what makes the composer resolve
//! every parent-child edge once, against the parent's rotation from before
//! its own correction.

use vstd::assert_by_contradiction;
use vstd::pervasive::VecAdditionalExecFns;
use vstd::prelude::*;

verus! {

/// One joint of the skeleton: its name (used to couple sensors), the index of
/// its node in the caller's scene document, and its children as arena
/// indices.
#[derive(Debug, Clone)]
pub struct Joint {
    pub name: Option<String>,
    pub node: usize,
    pub children: Vec<usize>,
}

/// A skeleton: an arena of joints.  Indices into `joints` identify them.
#[derive(Debug, Clone)]
pub struct Skeleton {
    pub joints: Vec<Joint>,
}

/// Spec-level value of a [`Joint`].
pub struct JointV {
    pub name: Option<Seq<char>>,
    pub node: int,
    pub children: Seq<int>,
}

impl View for Joint {
    type V = JointV;

    open spec fn view(&self) -> JointV {
        JointV {
            name: match self.name {
                Some(ref n) => Some(n@),
                None => None,
            },
            node: self.node as int,
            children: self.children@.map_values(|c: usize| c as int),
        }
    }
}

impl View for Skeleton {
    type V = Seq<JointV>;

    open spec fn view(&self) -> Seq<JointV> {
        self.joints@.map_values(|j: Joint| j@)
    }
}

/// Whether joint `p` lists joint `c` as a child.
pub open spec fn edge(s: Seq<JointV>, p: int, c: int) -> bool {
    0 <= p < s.len() && s[p].children.contains(c)
}

/// Whether some joint lists `c` as a child.
pub open spec fn has_parent(s: Seq<JointV>, c: int) -> bool {
    exists|p: int| edge(s, p, c)
}

/// A root: a joint that no other joint lists as a child.
pub open spec fn is_root(s: Seq<JointV>, i: int) -> bool {
    0 <= i < s.len() && !has_parent(s, i)
}

/// Structural soundness: every child index is in bounds, and every joint
/// stands in at most one child slot, so it has at most one parent.
pub open spec fn wf_struct(s: Seq<JointV>) -> bool {
    &&& forall|p: int, k: int|
        0 <= p < s.len() && 0 <= k < s[p].children.len() ==> 0 <= #[trigger] s[p].children[k]
            < s.len()
    &&& forall|p1: int, k1: int, p2: int, k2: int|
        0 <= p1 < s.len() && 0 <= k1 < s[p1].children.len() && 0 <= p2 < s.len() && 0 <= k2
            < s[p2].children.len() && #[trigger] s[p1].children[k1] == #[trigger] s[p2].children[k2]
            ==> p1 == p2 && k1 == k2
}

/// A depth witness: one non-negative depth per joint, increasing by one along
/// every edge.  Such an assignment exists exactly when the child lists are
/// acyclic.
pub open spec fn depth_ok(s: Seq<JointV>, d: Seq<int>) -> bool {
    &&& d.len() == s.len()
    &&& forall|i: int| 0 <= i < d.len() ==> 0 <= #[trigger] d[i]
    &&& forall|p: int, k: int|
        0 <= p < s.len() && 0 <= k < s[p].children.len() ==> d[#[trigger] s[p].children[k]] == d[p]
            + 1
}

/// A well-formed skeleton: a forest of joints.
pub open spec fn wf(s: Seq<JointV>) -> bool {
    wf_struct(s) && exists|d: Seq<int>| depth_ok(s, d)
}

/// Every sequence of joints that holds all roots and is closed under children
/// holds every joint of a well-formed skeleton.
proof fn lemma_closed_covers(s: Seq<JointV>, o: Seq<usize>, d: Seq<int>, i: int)
    requires
        s.len() <= usize::MAX,
        wf_struct(s),
        depth_ok(s, d),
        forall|r: int| is_root(s, r) ==> o.contains(r as usize),
        forall|x: int, k: int|
            0 <= x < o.len() && (o[x] as int) < s.len() && 0 <= k < s[o[x] as int].children.len()
                ==> o.contains(#[trigger] s[o[x] as int].children[k] as usize),
        forall|x: int| 0 <= x < o.len() ==> (#[trigger] o[x] as int) < s.len(),
        0 <= i < s.len(),
    ensures
        o.contains(i as usize),
    decreases d[i],
{
    if is_root(s, i) {
        assert(o.contains(i as usize));
    } else {
        let p = choose|p: int| edge(s, p, i);
        assert(edge(s, p, i));
        let k = choose|k: int| 0 <= k < s[p].children.len() && s[p].children[k] == i;
        assert(s[p].children[k] == i);
        assert(d[i] == d[p] + 1);
        lemma_closed_covers(s, o, d, p);
        let x = choose|x: int| 0 <= x < o.len() && o[x] == (p as usize);
        assert((o[x] as int) == p);
        assert(o.contains(s[o[x] as int].children[k] as usize));
        assert(s[o[x] as int].children[k] == i);
        assert(o.contains(i as usize));
    }
}

/// Finds some parent of joint `c`, if one exists.
fn find_parent(skel: &Skeleton, c: usize) -> (r: Option<usize>)
    requires
        (c as int) < skel@.len(),
    ensures
        match r {
            Some(p) => edge(skel@, p as int, c as int),
            None => !has_parent(skel@, c as int),
        },
{
    let ghost sv = skel@;
    let n = skel.joints.len();
    assert(n == sv.len());
    let mut p: usize = 0;
    while p < n
        invariant
            p <= n,
            n == sv.len(),
            sv == skel@,
            forall|p0: int| 0 <= p0 < p ==> !(#[trigger] sv[p0]).children.contains(c as int),
        decreases n - p,
    {
        let cs = &skel.joints[p].children;
        assert(cs@.map_values(|x: usize| x as int) == sv[p as int].children);
        let mut k: usize = 0;
        let m = cs.len();
        while k < m
            invariant
                k <= m,
                p < n,
                n == sv.len(),
                sv == skel@,
                m == cs@.len(),
                cs@.map_values(|x: usize| x as int) == sv[p as int].children,
                forall|k0: int| 0 <= k0 < k ==> sv[p as int].children[k0] != c as int,
            decreases m - k,
        {
            if cs[k] == c {
                assert(sv[p as int].children[k as int] == c as int);
                assert(sv[p as int].children.contains(c as int));
                return Some(p);
            }
            assert(sv[p as int].children[k as int] != c as int);
            k += 1;
        }
        assert(sv[p as int].children.len() == m);
        assert(!sv[p as int].children.contains(c as int));
        p += 1;
    }
    assert forall|p0: int| !edge(sv, p0, c as int) by {
        if 0 <= p0 < sv.len() {
            assert(!sv[p0].children.contains(c as int));
        }
    }
    None
}

/// The roots of the skeleton, in increasing index order.
fn roots(skel: &Skeleton) -> (r: Vec<usize>)
    ensures
        forall|x: int| 0 <= x < r@.len() ==> is_root(skel@, #[trigger] r@[x] as int),
        forall|i: int| is_root(skel@, i) ==> r@.contains(i as usize),
        forall|x1: int, x2: int| 0 <= x1 < x2 < r@.len() ==> r@[x1] < r@[x2],
        r@.no_duplicates(),
{
    let ghost sv = skel@;
    let n = skel.joints.len();
    assert(n == sv.len());
    let mut r: Vec<usize> = Vec::new();
    let mut i: usize = 0;
    while i < n
        invariant
            i <= n,
            n == sv.len(),
            sv == skel@,
            forall|x: int| 0 <= x < r@.len() ==> is_root(sv, #[trigger] r@[x] as int),
            forall|i0: int| 0 <= i0 < i && is_root(sv, i0) ==> r@.contains(i0 as usize),
            forall|x: int| 0 <= x < r@.len() ==> (#[trigger] r@[x] as int) < i,
            forall|x1: int, x2: int| 0 <= x1 < x2 < r@.len() ==> r@[x1] < r@[x2],
        decreases n - i,
    {
        match find_parent(skel, i) {
            None => {
                let ghost prev = r@;
                r.push(i);
                proof {
                    assert forall|i0: int| 0 <= i0 < i + 1 && is_root(sv, i0) implies r@.contains(
                        i0 as usize,
                    ) by {
                        if i0 < i {
                            let x = choose|x: int| 0 <= x < prev.len() && prev[x] == (i0 as usize);
                            assert(r@[x] == (i0 as usize));
                        } else {
                            assert(r@[r@.len() - 1] == (i as usize));
                        }
                    }
                    assert forall|x1: int, x2: int| 0 <= x1 < x2 < r@.len() implies r@[x1]
                        < r@[x2] by {
                        if x2 < r@.len() - 1 {
                            assert(r@[x1] == prev[x1] && r@[x2] == prev[x2]);
                        } else {
                            assert(r@[x2] == (i as usize));
                            assert(r@[x1] == prev[x1]);
                        }
                    }
                }
            },
            Some(_) => {},
        }
        i += 1;
    }
    proof {
        assert forall|x1: int, x2: int|
            0 <= x1 < r@.len() && 0 <= x2 < r@.len() && x1 != x2 implies r@[x1] != r@[x2] by {
            if x1 < x2 {
                assert(r@[x1] < r@[x2]);
            } else {
                assert(r@[x2] < r@[x1]);
            }
        }
    }
    r
}

/// A finite subset of `[0, n)` has at most `n` elements.
proof fn lemma_range_subset_len(seen: Set<int>, n: int)
    requires
        seen.finite(),
        forall|i: int| #[trigger] seen.contains(i) ==> 0 <= i < n,
        0 <= n,
    ensures
        seen.len() <= n,
{
    let range = vstd::set_lib::set_int_range(0, n);
    vstd::set_lib::lemma_int_range(0, n);
    assert(seen.subset_of(range));
    vstd::set_lib::lemma_len_subset(seen, range);
}

/// The set of values of a duplicate-free sequence has the sequence's length.
proof fn lemma_elem_set_len(o: Seq<usize>, seen: Set<int>)
    requires
        seen == Set::<int>::new(|i: int| exists|x: int| 0 <= x < o.len() && o[x] as int == i),
        o.no_duplicates(),
    ensures
        seen.finite(),
        seen.len() == o.len(),
    decreases o.len(),
{
    if o.len() == 0 {
        assert(seen =~= Set::<int>::empty());
    } else {
        let o2 = o.drop_last();
        let last = o.last();
        let seen2 = Set::<int>::new(
            |i: int| exists|x: int| 0 <= x < o2.len() && o2[x] as int == i,
        );
        lemma_elem_set_len(o2, seen2);
        assert_by_contradiction!(!seen2.contains(last as int), {
            let x = choose|x: int| 0 <= x < o2.len() && o2[x] as int == last as int;
            assert(o[x] == o[o.len() - 1]);
        });
        assert forall|i: int| #[trigger] seen.contains(i) implies seen2.insert(last as int).contains(
            i,
        ) by {
            let x = choose|x: int| 0 <= x < o.len() && o[x] as int == i;
            if x < o2.len() {
                assert(o2[x] as int == i);
            } else {
                assert(i == last as int);
            }
        }
        assert forall|i: int| #[trigger] seen2.insert(last as int).contains(i) implies seen.contains(
            i,
        ) by {
            if i == last as int {
                assert(o[o.len() - 1] as int == i);
            } else {
                let x = choose|x: int| 0 <= x < o2.len() && o2[x] as int == i;
                assert(o[x] as int == i);
            }
        }
        assert(seen =~= seen2.insert(last as int));
    }
}

/// Whether slot `(p1, k1)` comes strictly before slot `(p2, k2)` when the
/// child lists are read joint by joint.
pub open spec fn slot_before(p1: int, k1: int, p2: int, k2: int) -> bool {
    p1 < p2 || (p1 == p2 && k1 < k2)
}

/// Scans the child slots in order, marking each joint seen, to decide whether
/// some joint stands in two slots.
fn check_unique_slots(skel: &Skeleton) -> (r: bool)
    requires
        forall|p: int, k: int|
            0 <= p < skel@.len() && 0 <= k < skel@[p].children.len() ==> 0 <= #[trigger] skel@[p].children[k]
                < skel@.len(),
    ensures
        r == (forall|p1: int, k1: int, p2: int, k2: int|
            0 <= p1 < skel@.len() && 0 <= k1 < skel@[p1].children.len() && 0 <= p2 < skel@.len()
                && 0 <= k2 < skel@[p2].children.len() && #[trigger] skel@[p1].children[k1]
                == #[trigger] skel@[p2].children[k2] ==> p1 == p2 && k1 == k2),
{
    let ghost sv = skel@;
    let n = skel.joints.len();
    assert(n == sv.len());
    let mut seen: Vec<bool> = Vec::new();
    let mut z: usize = 0;
    while z < n
        invariant
            z <= n,
            seen@.len() == z,
            forall|i: int| 0 <= i < z ==> !(#[trigger] seen@[i]),
        decreases n - z,
    {
        seen.push(false);
        z += 1;
    }
    let mut p: usize = 0;
    while p < n
        invariant
            p <= n,
            n == sv.len(),
            sv == skel@,
            seen@.len() == n,
            forall|p0: int, k0: int|
                0 <= p0 < sv.len() && 0 <= k0 < sv[p0].children.len() ==> 0
                    <= #[trigger] sv[p0].children[k0] < sv.len(),
            forall|c: int|
                0 <= c < n ==> (#[trigger] seen@[c] == exists|p1: int, k1: int|
                    0 <= p1 < sv.len() && 0 <= k1 < sv[p1].children.len() && slot_before(
                        p1,
                        k1,
                        p as int,
                        0,
                    ) && sv[p1].children[k1] == c),
            forall|p1: int, k1: int, p2: int, k2: int|
                0 <= p1 < sv.len() && 0 <= k1 < sv[p1].children.len() && 0 <= p2 < sv.len() && 0
                    <= k2 < sv[p2].children.len() && slot_before(p1, k1, p as int, 0) && slot_before(
                    p2,
                    k2,
                    p as int,
                    0,
                ) && #[trigger] sv[p1].children[k1] == #[trigger] sv[p2].children[k2] ==> p1 == p2
                    && k1 == k2,
        decreases n - p,
    {
        let cs = &skel.joints[p].children;
        assert(cs@.map_values(|x: usize| x as int) == sv[p as int].children);
        let m = cs.len();
        let mut q: usize = 0;
        while q < m
            invariant
                q <= m,
                p < n,
                n == sv.len(),
                sv == skel@,
                m == cs@.len(),
                cs@.map_values(|x: usize| x as int) == sv[p as int].children,
                seen@.len() == n,
                forall|p0: int, k0: int|
                    0 <= p0 < sv.len() && 0 <= k0 < sv[p0].children.len() ==> 0
                        <= #[trigger] sv[p0].children[k0] < sv.len(),
                forall|c: int|
                    0 <= c < n ==> (#[trigger] seen@[c] == exists|p1: int, k1: int|
                        0 <= p1 < sv.len() && 0 <= k1 < sv[p1].children.len() && slot_before(
                            p1,
                            k1,
                            p as int,
                            q as int,
                        ) && sv[p1].children[k1] == c),
                forall|p1: int, k1: int, p2: int, k2: int|
                    0 <= p1 < sv.len() && 0 <= k1 < sv[p1].children.len() && 0 <= p2 < sv.len() && 0
                        <= k2 < sv[p2].children.len() && slot_before(p1, k1, p as int, q as int)
                        && slot_before(p2, k2, p as int, q as int)
                        && #[trigger] sv[p1].children[k1] == #[trigger] sv[p2].children[k2] ==> p1
                        == p2 && k1 == k2,
            decreases m - q,
        {
            let c = cs[q];
            assert(sv[p as int].children[q as int] == c as int);
            assert((c as int) < n);
            if seen[c] {
                proof {
                    let (p1, k1) = choose|p1: int, k1: int|
                        0 <= p1 < sv.len() && 0 <= k1 < sv[p1].children.len() && slot_before(
                            p1,
                            k1,
                            p as int,
                            q as int,
                        ) && sv[p1].children[k1] == c as int;
                    assert(sv[p1].children[k1] == sv[p as int].children[q as int]);
                    assert(!(p1 == p as int && k1 == q as int));
                }
                return false;
            }
            let ghost prevseen = seen@;
            seen.set(c, true);
            proof {
                assert forall|c0: int|
                    0 <= c0 < n implies (#[trigger] seen@[c0] == exists|p1: int, k1: int|
                    0 <= p1 < sv.len() && 0 <= k1 < sv[p1].children.len() && slot_before(
                        p1,
                        k1,
                        p as int,
                        q as int + 1,
                    ) && sv[p1].children[k1] == c0) by {
                    if c0 == c as int {
                        assert(seen@[c0]);
                        assert(slot_before(p as int, q as int, p as int, q as int + 1));
                        assert(sv[p as int].children[q as int] == c0);
                    } else {
                        assert(seen@[c0] == prevseen[c0]);
                        if seen@[c0] {
                            let (p1, k1) = choose|p1: int, k1: int|
                                0 <= p1 < sv.len() && 0 <= k1 < sv[p1].children.len() && slot_before(
                                    p1,
                                    k1,
                                    p as int,
                                    q as int,
                                ) && sv[p1].children[k1] == c0;
                            assert(slot_before(p1, k1, p as int, q as int + 1));
                        } else {
                            assert_by_contradiction!(
                                !(exists|p1: int, k1: int|
                                    0 <= p1 < sv.len() && 0 <= k1 < sv[p1].children.len()
                                        && slot_before(p1, k1, p as int, q as int + 1)
                                        && sv[p1].children[k1] == c0),
                                {
                                    let (p1, k1) = choose|p1: int, k1: int|
                                        0 <= p1 < sv.len() && 0 <= k1 < sv[p1].children.len()
                                            && slot_before(p1, k1, p as int, q as int + 1)
                                            && sv[p1].children[k1] == c0;
                                    if slot_before(p1, k1, p as int, q as int) {
                                        assert(prevseen[c0]);
                                    } else {
                                        assert(p1 == p as int && k1 == q as int);
                                        assert(c0 == c as int);
                                    }
                                }
                            );
                        }
                    }
                }
                assert forall|p1: int, k1: int, p2: int, k2: int|
                    0 <= p1 < sv.len() && 0 <= k1 < sv[p1].children.len() && 0 <= p2 < sv.len() && 0
                        <= k2 < sv[p2].children.len() && slot_before(p1, k1, p as int, q as int + 1)
                        && slot_before(p2, k2, p as int, q as int + 1)
                        && #[trigger] sv[p1].children[k1] == #[trigger] sv[p2].children[k2] implies
                    p1 == p2 && k1 == k2 by {
                    if slot_before(p1, k1, p as int, q as int) && slot_before(
                        p2,
                        k2,
                        p as int,
                        q as int,
                    ) {
                    } else if !slot_before(p1, k1, p as int, q as int) && !slot_before(
                        p2,
                        k2,
                        p as int,
                        q as int,
                    ) {
                        assert(p1 == p as int && k1 == q as int);
                        assert(p2 == p as int && k2 == q as int);
                    } else if !slot_before(p1, k1, p as int, q as int) {
                        assert(p1 == p as int && k1 == q as int);
                        assert(sv[p2].children[k2] == c as int);
                        assert(prevseen[c as int]);
                    } else {
                        assert(p2 == p as int && k2 == q as int);
                        assert(sv[p1].children[k1] == c as int);
                        assert(prevseen[c as int]);
                    }
                }
            }
            q += 1;
        }
        proof {
            assert(sv[p as int].children.len() == m);
            assert forall|p1: int, k1: int|
                0 <= p1 < sv.len() && 0 <= k1 < sv[p1].children.len() implies (slot_before(
                p1,
                k1,
                p as int,
                m as int,
            ) == slot_before(p1, k1, p as int + 1, 0)) by {
                if p1 == p as int {
                    assert(k1 < m);
                }
            }
            assert forall|c0: int|
                0 <= c0 < n implies (#[trigger] seen@[c0] == exists|p1: int, k1: int|
                0 <= p1 < sv.len() && 0 <= k1 < sv[p1].children.len() && slot_before(
                    p1,
                    k1,
                    p as int + 1,
                    0,
                ) && sv[p1].children[k1] == c0) by {
                if seen@[c0] {
                    let (p1, k1) = choose|p1: int, k1: int|
                        0 <= p1 < sv.len() && 0 <= k1 < sv[p1].children.len() && slot_before(
                            p1,
                            k1,
                            p as int,
                            m as int,
                        ) && sv[p1].children[k1] == c0;
                    assert(slot_before(p1, k1, p as int + 1, 0));
                } else {
                    assert_by_contradiction!(
                        !(exists|p1: int, k1: int|
                            0 <= p1 < sv.len() && 0 <= k1 < sv[p1].children.len()
                                && slot_before(p1, k1, p as int + 1, 0)
                                && sv[p1].children[k1] == c0),
                        {
                            let (p1, k1) = choose|p1: int, k1: int|
                                0 <= p1 < sv.len() && 0 <= k1 < sv[p1].children.len()
                                    && slot_before(p1, k1, p as int + 1, 0)
                                    && sv[p1].children[k1] == c0;
                            assert(slot_before(p1, k1, p as int, m as int));
                        }
                    );
                }
            }
            assert forall|p1: int, k1: int, p2: int, k2: int|
                0 <= p1 < sv.len() && 0 <= k1 < sv[p1].children.len() && 0 <= p2 < sv.len() && 0
                    <= k2 < sv[p2].children.len() && slot_before(p1, k1, p as int + 1, 0)
                    && slot_before(p2, k2, p as int + 1, 0) && #[trigger] sv[p1].children[k1]
                    == #[trigger] sv[p2].children[k2] implies p1 == p2 && k1 == k2 by {
                assert(slot_before(p1, k1, p as int, m as int));
                assert(slot_before(p2, k2, p as int, m as int));
            }
        }
        p += 1;
    }
    proof {
        assert forall|p1: int, k1: int, p2: int, k2: int|
            0 <= p1 < sv.len() && 0 <= k1 < sv[p1].children.len() && 0 <= p2 < sv.len() && 0 <= k2
                < sv[p2].children.len() && #[trigger] sv[p1].children[k1]
                == #[trigger] sv[p2].children[k2] implies p1 == p2 && k1 == k2 by {
            assert(slot_before(p1, k1, n as int, 0));
            assert(slot_before(p2, k2, n as int, 0));
        }
    }
    true
}

/// The top-down traversal order of a well-formed skeleton: every joint exactly
/// once, breadth first, each parent standing before all of its children.
/// `None` exactly when the skeleton is no forest.
pub fn top_down_order(skel: &Skeleton) -> (r: Option<Vec<usize>>)
    ensures
        match r {
            Some(o) => {
                &&& wf(skel@)
                &&& o@.len() == skel@.len()
                &&& forall|x: int| 0 <= x < o@.len() ==> (#[trigger] o@[x] as int) < skel@.len()
                &&& o@.no_duplicates()
                &&& forall|i: int| 0 <= i < skel@.len() ==> #[trigger] o@.contains(i as usize)
                &&& forall|x: int|
                    0 <= x < o@.len() ==> is_root(skel@, #[trigger] o@[x] as int) || exists|y: int|
                        0 <= y < x && edge(skel@, o@[y] as int, o@[x] as int)
            },
            None => !wf(skel@),
        },
{
    let ghost sv = skel@;
    let n = skel.joints.len();
    assert(n == sv.len());
    // bounds of every child index
    let mut p0: usize = 0;
    while p0 < n
        invariant
            p0 <= n,
            n == sv.len(),
            sv == skel@,
            forall|p1: int, k1: int|
                0 <= p1 < p0 && 0 <= k1 < sv[p1].children.len() ==> 0 <= #[trigger] sv[p1].children[k1]
                    < sv.len(),
        decreases n - p0,
    {
        let cs = &skel.joints[p0].children;
        assert(cs@.map_values(|x: usize| x as int) == sv[p0 as int].children);
        let m = cs.len();
        let mut k: usize = 0;
        while k < m
            invariant
                k <= m,
                p0 < n,
                n == sv.len(),
                sv == skel@,
                m == cs@.len(),
                cs@.map_values(|x: usize| x as int) == sv[p0 as int].children,
                forall|k1: int| 0 <= k1 < k ==> 0 <= #[trigger] sv[p0 as int].children[k1] < sv.len(),
            decreases m - k,
        {
            if cs[k] >= n {
                proof {
                    assert(sv[p0 as int].children[k as int] == cs@[k as int] as int);
                    assert(!wf_struct(sv));
                }
                return None;
            }
            assert(0 <= sv[p0 as int].children[k as int] < sv.len());
            k += 1;
        }
        assert(sv[p0 as int].children.len() == m);
        p0 += 1;
    }
    // at most one parent per joint
    if !check_unique_slots(skel) {
        return None;
    }
    assert(wf_struct(sv));
    // breadth-first traversal from the roots, computing a depth witness
    let mut order: Vec<usize> = roots(skel);
    let mut darr: Vec<usize> = Vec::new();
    let mut z: usize = 0;
    while z < n
        invariant
            z <= n,
            darr@.len() == z,
            forall|i: int| 0 <= i < z ==> #[trigger] darr@[i] == 0,
        decreases n - z,
    {
        darr.push(0);
        z += 1;
    }
    proof {
        assert forall|x: int| 0 <= x < order@.len() implies #[trigger] darr@[order@[x] as int]
            <= x by {
            assert(is_root(sv, order@[x] as int));
            assert(darr@[order@[x] as int] == 0);
        }
    }
    let ghost seen0 = Set::<int>::new(
        |i: int| exists|x: int| 0 <= x < order@.len() && order@[x] as int == i,
    );
    let ghost mut seen = seen0;
    proof {
        lemma_elem_set_len(order@, seen0);
        lemma_range_subset_len(seen0, n as int);
    }
    let mut h: usize = 0;
    while h < order.len()
        invariant
            n == sv.len(),
            sv == skel@,
            wf_struct(sv),
            h <= order@.len(),
            darr@.len() == n,
            seen.finite(),
            seen.len() == order@.len(),
            forall|i: int| #[trigger] seen.contains(i) <==> exists|x: int|
                0 <= x < order@.len() && order@[x] as int == i,
            order@.len() <= n,
            order@.no_duplicates(),
            forall|x: int| 0 <= x < order@.len() ==> (#[trigger] order@[x] as int) < n,
            forall|i: int| is_root(sv, i) ==> order@.contains(i as usize),
            forall|x: int| 0 <= x < order@.len() ==> #[trigger] darr@[order@[x] as int] <= x,
            forall|x: int|
                0 <= x < order@.len() ==> is_root(sv, #[trigger] order@[x] as int) || exists|y: int|
                    0 <= y < x && y < h && edge(sv, order@[y] as int, order@[x] as int),
            forall|x: int, k: int|
                0 <= x < h && 0 <= k < sv[order@[x] as int].children.len() ==> darr@[#[trigger] sv[order@[x] as int].children[k]]
                    == darr@[order@[x] as int] + 1,
            forall|x: int, k: int|
                0 <= x < h && 0 <= k < sv[order@[x] as int].children.len() ==> order@.contains(
                    #[trigger] sv[order@[x] as int].children[k] as usize,
                ),
        decreases n - h,
    {
        let pj = order[h];
        let dp = darr[pj];
        assert(dp <= h < order@.len() <= n);
        let ghost base = order@;
        let cs = &skel.joints[pj].children;
        assert(cs@.map_values(|x: usize| x as int) == sv[pj as int].children);
        let m = cs.len();
        let mut q: usize = 0;
        proof {
            assert(sv[pj as int].children.take(0) =~= Seq::<int>::empty());
            assert(order@ =~= base + sv[pj as int].children.take(0).map_values(
                |c0: int| c0 as usize,
            ));
        }
        while q < m
            invariant
                n == sv.len(),
                sv == skel@,
                wf_struct(sv),
                h < base.len(),
                m == cs@.len(),
                q <= m,
                cs@.map_values(|x: usize| x as int) == sv[pj as int].children,
                pj == base[h as int],
                (pj as int) < n,
                darr@.len() == n,
                dp == darr@[pj as int],
                dp < n,
                seen.finite(),
                seen.len() == order@.len(),
                forall|i: int| #[trigger] seen.contains(i) <==> exists|x: int|
                    0 <= x < order@.len() && order@[x] as int == i,
                order@ == base + sv[pj as int].children.take(q as int).map_values(
                    |c0: int| c0 as usize,
                ),
                order@.len() <= n,
                order@.no_duplicates(),
                forall|x: int| 0 <= x < order@.len() ==> (#[trigger] order@[x] as int) < n,
                forall|i: int| is_root(sv, i) ==> order@.contains(i as usize),
                forall|x: int| 0 <= x < order@.len() ==> #[trigger] darr@[order@[x] as int] <= x,
                forall|x: int|
                    0 <= x < base.len() ==> is_root(sv, #[trigger] order@[x] as int) || exists|
                        y: int,
                    |
                        0 <= y < x && y < h && edge(sv, order@[y] as int, order@[x] as int),
                forall|x: int, k: int|
                    0 <= x < h && 0 <= k < sv[order@[x] as int].children.len() ==> darr@[#[trigger] sv[order@[x] as int].children[k]]
                        == darr@[order@[x] as int] + 1,
                forall|x: int, k: int|
                    0 <= x < h && 0 <= k < sv[order@[x] as int].children.len() ==> order@.contains(
                        #[trigger] sv[order@[x] as int].children[k] as usize,
                    ),
                forall|k: int|
                    0 <= k < q ==> darr@[#[trigger] sv[pj as int].children[k]] == dp + 1,
                forall|k: int|
                    0 <= k < q ==> order@.contains(#[trigger] sv[pj as int].children[k] as usize),
            decreases m - q,
        {
            let c = cs[q];
            assert(sv[pj as int].children[q as int] == c as int);
            assert((c as int) < n);
            // `c` cannot be in the order yet: its single parent slot is (pj, q)
            proof {
                assert_by_contradiction!(!order@.contains(c), {
                    let x = choose|x: int| 0 <= x < order@.len() && order@[x] == c;
                    if x < base.len() {
                        assert(order@[x] == base[x]);
                        if is_root(sv, c as int) {
                            assert(sv[pj as int].children.contains(c as int));
                            assert(edge(sv, pj as int, c as int));
                        } else {
                            let y = choose|y: int|
                                0 <= y < x && y < h && edge(sv, order@[y] as int, c as int);
                            let k1 = choose|k1: int|
                                0 <= k1 < sv[order@[y] as int].children.len()
                                    && sv[order@[y] as int].children[k1] == c as int;
                            assert(sv[order@[y] as int].children[k1] == sv[pj as int].children[q as int]);
                            assert(order@[y] as int == pj as int && k1 == q as int);
                            assert(order@[y] == base[h as int]);
                            assert(order@[y] == order@[h as int]);
                            assert(y == h);
                        }
                    } else {
                        let k1 = x - base.len();
                        assert(order@[x] == sv[pj as int].children.take(q as int).map_values(
                            |c0: int| c0 as usize,
                        )[k1]);
                        assert(order@[x] as int == sv[pj as int].children[k1]);
                        assert(sv[pj as int].children[k1] == sv[pj as int].children[q as int]);
                        assert(k1 == q as int);
                    }
                });
            }
            let ghost prevo = order@;
            let ghost prevd = darr@;
            let ghost prevseen = seen;
            order.push(c);
            darr.set(c, dp + 1);
            proof {
                assert(prevo[h as int] == pj);
                assert(prevo.contains(pj));
                assert(pj != c);
                assert(prevd[prevo[h as int] as int] <= h);
                assert(dp <= h);
                seen = seen.insert(c as int);
                assert_by_contradiction!(!prevseen.contains(c as int), {
                    let x = choose|x: int| 0 <= x < prevo.len() && prevo[x] as int == c as int;
                    assert(prevo[x] == c);
                    assert(prevo.contains(c));
                });
                assert(seen.len() == prevseen.len() + 1);
                assert forall|i: int| #[trigger] seen.contains(i) implies exists|x: int|
                    0 <= x < order@.len() && order@[x] as int == i by {
                    if i == c as int {
                        assert(order@[order@.len() - 1] as int == i);
                    } else {
                        let x = choose|x: int| 0 <= x < prevo.len() && prevo[x] as int == i;
                        assert(order@[x] as int == i);
                    }
                }
                assert forall|i: int|
                    (exists|x: int| 0 <= x < order@.len() && order@[x] as int == i) implies
                    #[trigger] seen.contains(i) by {
                    let x = choose|x: int| 0 <= x < order@.len() && order@[x] as int == i;
                    if x < prevo.len() {
                        assert(prevo[x] as int == i);
                    } else {
                        assert(i == c as int);
                    }
                }
                assert forall|i: int| #[trigger] seen.contains(i) implies 0 <= i < n by {
                    let x = choose|x: int| 0 <= x < order@.len() && order@[x] as int == i;
                }
                lemma_range_subset_len(seen, n as int);
                // the order is still the base plus a prefix of the child list
                assert(sv[pj as int].children.take(q as int + 1) =~= sv[pj as int].children.take(
                    q as int,
                ).push(c as int));
                assert(order@ =~= base + sv[pj as int].children.take(q as int + 1).map_values(
                    |c0: int| c0 as usize,
                ));
                // no duplicates: the new element was absent
                assert forall|x1: int, x2: int|
                    0 <= x1 < order@.len() && 0 <= x2 < order@.len() && x1 != x2 implies order@[x1]
                    != order@[x2] by {
                    if x1 < prevo.len() && x2 < prevo.len() {
                        assert(prevo[x1] != prevo[x2]);
                    } else if x1 < prevo.len() {
                        assert(order@[x2] == c);
                        assert(!prevo.contains(c));
                        assert(prevo[x1] != c);
                    } else if x2 < prevo.len() {
                        assert(order@[x1] == c);
                        assert(!prevo.contains(c));
                        assert(prevo[x2] != c);
                    }
                }
                // depth bound per position
                assert forall|x: int| 0 <= x < order@.len() implies #[trigger] darr@[order@[x] as int]
                    <= x by {
                    if x < prevo.len() {
                        assert(order@[x] == prevo[x]);
                        assert(prevo[x] != c);
                        assert(darr@[order@[x] as int] == prevd[order@[x] as int]);
                    } else {
                        assert(order@[x] == c);
                        assert(darr@[c as int] == dp + 1);
                        assert(dp <= h);
                        assert(h < base.len() <= x);
                    }
                }
                // roots stay in the order
                assert forall|i: int| is_root(sv, i) implies order@.contains(i as usize) by {
                    let x = choose|x: int| 0 <= x < prevo.len() && prevo[x] == (i as usize);
                    assert(order@[x] == (i as usize));
                }
                // justification of base elements is unchanged
                assert forall|x: int|
                    0 <= x < base.len() implies is_root(sv, #[trigger] order@[x] as int) || exists|
                    y: int,
                |
                    0 <= y < x && y < h && edge(sv, order@[y] as int, order@[x] as int) by {
                    assert(order@[x] == prevo[x]);
                    if !is_root(sv, prevo[x] as int) {
                        let y = choose|y: int|
                            0 <= y < x && y < h && edge(sv, prevo[y] as int, prevo[x] as int);
                        assert(order@[y] == prevo[y]);
                        assert(edge(sv, order@[y] as int, order@[x] as int));
                    }
                }
                // facts about fully expanded joints survive the write to darr
                assert forall|x: int, k: int|
                    0 <= x < h && 0 <= k < sv[order@[x] as int].children.len() implies darr@[#[trigger] sv[order@[x] as int].children[k]]
                    == darr@[order@[x] as int] + 1 by {
                    assert(order@[x] == prevo[x]);
                    let cc = sv[prevo[x] as int].children[k];
                    assert(prevo.contains(cc as usize));
                    assert(cc != c as int);
                    assert(prevo[x] != c);
                    assert(darr@[cc] == prevd[cc]);
                    assert(darr@[prevo[x] as int] == prevd[prevo[x] as int]);
                }
                assert forall|x: int, k: int|
                    0 <= x < h && 0 <= k < sv[order@[x] as int].children.len() implies order@
                    .contains(#[trigger] sv[order@[x] as int].children[k] as usize) by {
                    assert(order@[x] == prevo[x]);
                    let x2 = choose|x2: int|
                        0 <= x2 < prevo.len() && prevo[x2] == (sv[prevo[x] as int].children[k] as usize);
                    assert(order@[x2] == (sv[order@[x] as int].children[k] as usize));
                }
                // the children handled so far, the new one included
                assert forall|k: int|
                    0 <= k < q + 1 implies darr@[#[trigger] sv[pj as int].children[k]] == dp + 1 by {
                    if k < q {
                        let cc = sv[pj as int].children[k];
                        assert(prevo.contains(cc as usize));
                        assert(cc != c as int);
                        assert(darr@[cc] == prevd[cc]);
                    } else {
                        assert(sv[pj as int].children[k] == c as int);
                    }
                }
                assert forall|k: int|
                    0 <= k < q + 1 implies order@.contains(
                    #[trigger] sv[pj as int].children[k] as usize,
                ) by {
                    if k < q {
                        let x2 = choose|x2: int|
                            0 <= x2 < prevo.len() && prevo[x2] == (sv[pj as int].children[k] as usize);
                        assert(order@[x2] == (sv[pj as int].children[k] as usize));
                    } else {
                        assert(sv[pj as int].children[k] == c as int);
                        assert(order@[order@.len() - 1] == c);
                    }
                }
            }
            q += 1;
        }
        proof {
            assert(sv[pj as int].children.len() == m);
            // the expanded set now includes position h
            assert forall|x: int, k: int|
                0 <= x < h + 1 && 0 <= k < sv[order@[x] as int].children.len() implies darr@[#[trigger] sv[order@[x] as int].children[k]]
                == darr@[order@[x] as int] + 1 by {
                if x == h {
                    assert(order@[x] == pj);
                    assert(darr@[sv[pj as int].children[k]] == dp + 1);
                }
            }
            assert forall|x: int, k: int|
                0 <= x < h + 1 && 0 <= k < sv[order@[x] as int].children.len() implies order@
                .contains(#[trigger] sv[order@[x] as int].children[k] as usize) by {
                if x == h {
                    assert(order@[x] == pj);
                }
            }
            // every element is a root or has its parent earlier in the order
            assert forall|x: int|
                0 <= x < order@.len() implies is_root(sv, #[trigger] order@[x] as int) || exists|
                y: int,
            |
                0 <= y < x && y < h + 1 && edge(sv, order@[y] as int, order@[x] as int) by {
                if x < base.len() {
                    if !is_root(sv, order@[x] as int) {
                        let y = choose|y: int|
                            0 <= y < x && y < h && edge(sv, order@[y] as int, order@[x] as int);
                        assert(0 <= y < x && y < h + 1 && edge(
                            sv,
                            order@[y] as int,
                            order@[x] as int,
                        ));
                    }
                } else {
                    let k1 = x - base.len();
                    assert(order@[x] == sv[pj as int].children.take(m as int).map_values(
                        |c0: int| c0 as usize,
                    )[k1]);
                    assert(order@[x] as int == sv[pj as int].children[k1]);
                    assert(sv[pj as int].children.contains(sv[pj as int].children[k1]));
                    assert(edge(sv, pj as int, order@[x] as int));
                    assert(order@[h as int] == pj);
                    assert(h < x);
                }
            }
        }
        h += 1;
    }
    // the traversal reaches every joint exactly when the skeleton is a forest
    if order.len() != n {
        proof {
            assert_by_contradiction!(!wf(sv), {
                let d = choose|d: Seq<int>| depth_ok(sv, d);
                assert forall|i: int| 0 <= i < n implies #[trigger] order@.contains(i as usize) by {
                    lemma_closed_covers(sv, order@, d, i);
                }
                let range = vstd::set_lib::set_int_range(0, n as int);
                vstd::set_lib::lemma_int_range(0, n as int);
                assert forall|i: int| #[trigger] range.contains(i) implies seen.contains(i) by {
                    assert(order@.contains(i as usize));
                    let x = choose|x: int| 0 <= x < order@.len() && order@[x] == (i as usize);
                    assert(order@[x] as int == i);
                };
                assert(range.subset_of(seen));
                vstd::set_lib::lemma_len_subset(range, seen);
                assert(order@.len() >= n);
            });
        }
        return None;
    }
    proof {
        // every joint is in the order
        let range = vstd::set_lib::set_int_range(0, n as int);
        vstd::set_lib::lemma_int_range(0, n as int);
        assert_by_contradiction!(seen =~= range, {
            let missing = choose|i: int| range.contains(i) && !seen.contains(i);
            assert(seen.subset_of(range.remove(missing)));
            assert(range.remove(missing).len() == n - 1);
            vstd::set_lib::lemma_len_subset(seen, range.remove(missing));
        });
        assert forall|i: int| 0 <= i < sv.len() implies #[trigger] order@.contains(i as usize) by {
            assert(seen.contains(i));
            let x = choose|x: int| 0 <= x < order@.len() && order@[x] as int == i;
            assert(order@[x] == (i as usize));
        }
        // the computed depths witness well-formedness
        let w = darr@.map_values(|u: usize| u as int);
        assert forall|p1: int, k1: int|
            0 <= p1 < sv.len() && 0 <= k1 < sv[p1].children.len() implies w[#[trigger] sv[p1].children[k1]]
            == w[p1] + 1 by {
            assert(order@.contains(p1 as usize));
            let x = choose|x: int| 0 <= x < order@.len() && order@[x] == (p1 as usize);
            assert(x < h);
            assert(order@[x] as int == p1);
            assert(darr@[sv[order@[x] as int].children[k1]] == darr@[order@[x] as int] + 1);
        }
        assert(depth_ok(sv, w));
        assert(wf(sv));
    }
    Some(order)
}

/// The bottom-up traversal order of a well-formed skeleton: every joint
/// exactly once, each child standing before its parent.  `None` exactly when
/// the skeleton is no forest.
pub fn bottom_up_order(skel: &Skeleton) -> (r: Option<Vec<usize>>)
    ensures
        match r {
            Some(o) => {
                &&& wf(skel@)
                &&& o@.len() == skel@.len()
                &&& forall|x: int| 0 <= x < o@.len() ==> (#[trigger] o@[x] as int) < skel@.len()
                &&& o@.no_duplicates()
                &&& forall|i: int| 0 <= i < skel@.len() ==> #[trigger] o@.contains(i as usize)
                &&& forall|x: int|
                    0 <= x < o@.len() ==> is_root(skel@, #[trigger] o@[x] as int) || exists|y: int|
                        x < y < o@.len() && edge(skel@, o@[y] as int, o@[x] as int)
            },
            None => !wf(skel@),
        },
{
    let ghost sv = skel@;
    let td = match top_down_order(skel) {
        Some(td) => td,
        None => {
            return None;
        },
    };
    let len = td.len();
    let mut o: Vec<usize> = Vec::new();
    let mut i: usize = 0;
    while i < len
        invariant
            i <= len,
            len == td@.len(),
            o@.len() == i,
            forall|x: int| 0 <= x < i ==> o@[x] == td@[len - 1 - x],
        decreases len - i,
    {
        o.push(td[len - 1 - i]);
        i += 1;
    }
    proof {
        assert forall|x: int| 0 <= x < o@.len() implies (#[trigger] o@[x] as int) < sv.len() by {
            assert(o@[x] == td@[len - 1 - x]);
        }
        assert forall|x1: int, x2: int|
            0 <= x1 < o@.len() && 0 <= x2 < o@.len() && x1 != x2 implies o@[x1] != o@[x2] by {
            assert(o@[x1] == td@[len - 1 - x1]);
            assert(o@[x2] == td@[len - 1 - x2]);
        }
        assert forall|i0: int| 0 <= i0 < sv.len() implies #[trigger] o@.contains(i0 as usize) by {
            assert(td@.contains(i0 as usize));
            let x = choose|x: int| 0 <= x < td@.len() && td@[x] == (i0 as usize);
            assert(o@[len - 1 - x] == td@[x]);
        }
        assert forall|x: int|
            0 <= x < o@.len() implies is_root(sv, #[trigger] o@[x] as int) || exists|y: int|
            x < y < o@.len() && edge(sv, o@[y] as int, o@[x] as int) by {
            assert(o@[x] == td@[len - 1 - x]);
            if !is_root(sv, o@[x] as int) {
                let y0 = choose|y0: int|
                    0 <= y0 < (len - 1 - x) && #[trigger] edge(
                        sv,
                        td@[y0] as int,
                        td@[len - 1 - x] as int,
                    );
                let y = len - 1 - y0;
                assert(o@[y] == td@[y0]);
                assert(x < y < o@.len());
                assert(edge(sv, o@[y] as int, o@[x] as int));
            }
        }
    }
    Some(o)
}

} // verus!
