use vstd::prelude::*;

use crate::order::compare_bytes;

verus! {

/// The kind of a declared dependency. Only `Normal` dependencies ship.
#[derive(PartialEq, Eq, Structural, Clone, Copy, Debug)]
pub enum DepKind {
    Normal,
    Build,
    Development,
}

/// The identity of a package: its name and version.
pub struct PackageId {
    pub name: Vec<u8>,
    pub version: Vec<u8>,
}

/// A declared dependency: the identity of the package the resolver matched it to,
/// if any, and its kind.
pub struct Dependency {
    pub target: Option<PackageId>,
    pub kind: DepKind,
}

/// A package of the resolved graph with the metadata the report reads.
pub struct Package {
    pub id: PackageId,
    pub license: Option<Vec<u8>>,
    pub license_file: Option<Vec<u8>>,
    pub dependencies: Vec<Dependency>,
}

/// Why a dependency set could not be collected.
#[derive(PartialEq, Eq, Structural, Clone, Copy, Debug)]
pub enum CollectError {
    /// A normal dependency of a member matches no package of the resolved graph.
    Unresolved,
}

pub type Key = (Seq<u8>, Seq<u8>);

pub open spec fn key_of(id: PackageId) -> Key {
    (id.name@, id.version@)
}

/// The identities of `ps`, in order.
pub open spec fn keys(ps: Seq<Package>) -> Seq<Key> {
    Seq::new(ps.len(), |i: int| key_of(ps[i].id))
}

/// The identities of the packages at `idx` in `graph`.
pub open spec fn picked(graph: Seq<Package>, idx: Seq<usize>) -> Seq<Key> {
    Seq::new(idx.len(), |k: int| key_of(graph[idx[k] as int].id))
}

/// `i` is the first position of its identity in `graph`.
pub open spec fn first_of(graph: Seq<Package>, i: int) -> bool {
    0 <= i < graph.len() && forall|j: int| 0 <= j < i ==> key_of(#[trigger] graph[j].id) != key_of(graph[i].id)
}

/// Each index is valid, the first of its identity, and the identities are distinct.
pub open spec fn sound_pick(graph: Seq<Package>, idx: Seq<usize>) -> bool {
    &&& forall|k: int| 0 <= k < idx.len() ==> first_of(graph, #[trigger] idx[k] as int)
    &&& picked(graph, idx).no_duplicates()
}

/// The dependency `b` of member `a` is normal.
pub open spec fn is_normal(members: Seq<Package>, a: int, b: int) -> bool {
    members[a].dependencies@[b].kind == DepKind::Normal
}

/// The normal dependency `b` of member `a` matches a package of `graph`.
pub open spec fn resolved(members: Seq<Package>, graph: Seq<Package>, a: int, b: int) -> bool {
    match members[a].dependencies@[b].target {
        Some(t) => keys(graph).contains(key_of(t)),
        None => false,
    }
}

/// Dependency `b` of member `a` comes before dependency `j` of member `i`.
pub open spec fn before(a: int, b: int, i: int, j: int) -> bool {
    a < i || (a == i && b < j)
}

/// Dependency `b` of member `a` exists and is normal.
pub open spec fn normal_dep(members: Seq<Package>, a: int, b: int) -> bool {
    0 <= a < members.len() && 0 <= b < members[a].dependencies@.len() && is_normal(members, a, b)
}

/// Every normal dependency before position (`i`, `j`) matches a package of `graph`.
pub open spec fn resolved_before(members: Seq<Package>, graph: Seq<Package>, i: int, j: int) -> bool {
    forall|a: int, b: int|
        #![trigger normal_dep(members, a, b)]
        normal_dep(members, a, b) && before(a, b, i, j) ==> resolved(members, graph, a, b)
}

/// The identities that the normal dependencies before position (`i`, `j`) point to.
pub open spec fn targets_before(members: Seq<Package>, i: int, j: int) -> Set<Key> {
    Set::new(
        |k: Key|
            exists|a: int, b: int|
                #![trigger normal_dep(members, a, b)]
                normal_dep(members, a, b) && before(a, b, i, j) && members[a].dependencies@[b].target
                    is Some && key_of(members[a].dependencies@[b].target->0) == k,
    )
}

/// Every normal dependency of every member matches a package of `graph`.
pub open spec fn all_resolved(members: Seq<Package>, graph: Seq<Package>) -> bool {
    resolved_before(members, graph, members.len() as int, 0)
}

/// The identities that the normal dependencies of the members point to.
pub open spec fn normal_targets(members: Seq<Package>) -> Set<Key> {
    targets_before(members, members.len() as int, 0)
}

pub fn same_id(x: &PackageId, y: &PackageId) -> (r: bool)
    ensures
        r == (key_of(*x) == key_of(*y)),
{
    compare_bytes(x.name.as_slice(), y.name.as_slice()) == 0 && compare_bytes(
        x.version.as_slice(),
        y.version.as_slice(),
    ) == 0
}

/// The first position in `graph` of a package with identity `id`.
pub fn find_package(graph: &Vec<Package>, id: &PackageId) -> (r: Option<usize>)
    ensures
        match r {
            Some(i) => first_of(graph@, i as int) && key_of(graph@[i as int].id) == key_of(*id),
            None => !keys(graph@).contains(key_of(*id)),
        },
{
    let mut i: usize = 0;
    while i < graph.len()
        invariant
            i <= graph@.len(),
            forall|j: int| 0 <= j < i ==> key_of(#[trigger] graph@[j].id) != key_of(*id),
        decreases graph@.len() - i,
    {
        if same_id(&graph[i].id, id) {
            return Some(i);
        }
        i = i + 1;
    }
    assert(!keys(graph@).contains(key_of(*id))) by {
        if keys(graph@).contains(key_of(*id)) {
            let j = choose|j: int| 0 <= j < keys(graph@).len() && keys(graph@)[j] == key_of(*id);
            assert(key_of(graph@[j].id) != key_of(*id));
        }
    }
    None
}

/// Whether a member of the workspace has identity `id`.
pub fn is_member(members: &Vec<Package>, id: &PackageId) -> (r: bool)
    ensures
        r == keys(members@).contains(key_of(*id)),
{
    match find_package(members, id) {
        Some(i) => {
            assert(keys(members@)[i as int] == key_of(*id));
            true
        },
        None => false,
    }
}

proof fn lemma_push_picked(graph: Seq<Package>, idx: Seq<usize>, i: usize)
    requires
        sound_pick(graph, idx),
        first_of(graph, i as int),
        !picked(graph, idx).contains(key_of(graph[i as int].id)),
    ensures
        sound_pick(graph, idx.push(i)),
        picked(graph, idx.push(i)) == picked(graph, idx).push(key_of(graph[i as int].id)),
{
    assert(picked(graph, idx.push(i)) =~= picked(graph, idx).push(key_of(graph[i as int].id)));
    assert forall|k: int| 0 <= k < idx.push(i).len() implies first_of(graph, #[trigger] idx.push(i)[k] as int) by {
        if k < idx.len() {
            assert(idx.push(i)[k] == idx[k]);
        }
    }
}

/// Whether a package of this identity was picked already.
fn already_picked(graph: &Vec<Package>, idx: &Vec<usize>, id: &PackageId) -> (r: bool)
    requires
        forall|k: int| 0 <= k < idx@.len() ==> (#[trigger] idx@[k] as int) < graph@.len(),
    ensures
        r == picked(graph@, idx@).contains(key_of(*id)),
{
    let mut k: usize = 0;
    while k < idx.len()
        invariant
            k <= idx@.len(),
            forall|m: int| 0 <= m < idx@.len() ==> (#[trigger] idx@[m] as int) < graph@.len(),
            forall|m: int| 0 <= m < k ==> #[trigger] picked(graph@, idx@)[m] != key_of(*id),
        decreases idx@.len() - k,
    {
        if same_id(&graph[idx[k]].id, id) {
            assert(picked(graph@, idx@)[k as int] == key_of(*id));
            return true;
        }
        k = k + 1;
    }
    false
}

/// Every package of the resolved graph that is not a workspace member, once per
/// identity, in graph order.
pub fn all_dependencies(members: &Vec<Package>, graph: &Vec<Package>) -> (r: Vec<usize>)
    ensures
        sound_pick(graph@, r@),
        picked(graph@, r@).to_set() == keys(graph@).to_set().difference(keys(members@).to_set()),
        forall|k: int, l: int| 0 <= k < l < r@.len() ==> r@[k] < r@[l],
{
    let mut r: Vec<usize> = Vec::new();
    let mut i: usize = 0;
    while i < graph.len()
        invariant
            i <= graph@.len(),
            sound_pick(graph@, r@),
            forall|k: int| 0 <= k < r@.len() ==> (#[trigger] r@[k]) < i,
            forall|k: int, l: int| 0 <= k < l < r@.len() ==> r@[k] < r@[l],
            picked(graph@, r@).to_set() == keys(graph@).subrange(0, i as int).to_set().difference(
                keys(members@).to_set(),
            ),
        decreases graph@.len() - i,
    {
        let ghost before = r@;
        let ghost ki = key_of(graph@[i as int].id);
        let member = is_member(members, &graph[i].id);
        let seen = already_picked(graph, &r, &graph[i].id);
        if !member && !seen {
            proof {
                assert forall|j: int| 0 <= j < i implies key_of(#[trigger] graph@[j].id) != ki by {
                    if key_of(graph@[j].id) == ki {
                        assert(keys(graph@).subrange(0, i as int)[j] == ki);
                        assert(picked(graph@, before).to_set().contains(ki));
                    }
                }
                lemma_push_picked(graph@, before, i);
            }
            r.push(i);
        }
        proof {
            assert(keys(graph@).subrange(0, i + 1) =~= keys(graph@).subrange(0, i as int).push(ki));
            let a = picked(graph@, r@).to_set();
            let b = keys(graph@).subrange(0, i + 1).to_set().difference(keys(members@).to_set());
            assert forall|x: Key| a.contains(x) implies b.contains(x) by {
                if x != ki {
                    let m = choose|m: int| 0 <= m < picked(graph@, r@).len() && picked(graph@, r@)[m] == x;
                    assert(picked(graph@, before)[m] == x);
                    assert(picked(graph@, before).to_set().contains(x));
                    let j = choose|j: int| 0 <= j < i && keys(graph@).subrange(0, i as int)[j] == x;
                    assert(keys(graph@).subrange(0, i + 1)[j] == x);
                } else {
                    assert(keys(graph@).subrange(0, i + 1)[i as int] == x);
                    if member {
                        let m = choose|m: int| 0 <= m < picked(graph@, r@).len() && picked(graph@, r@)[m] == x;
                        if m < before.len() {
                            assert(picked(graph@, before)[m] == x);
                            assert(picked(graph@, before).to_set().contains(x));
                        }
                    }
                }
            }
            assert forall|x: Key| b.contains(x) implies a.contains(x) by {
                let j = choose|j: int| 0 <= j < i + 1 && #[trigger] keys(graph@).subrange(0, i + 1)[j] == x;
                if x == ki && !seen {
                    assert(picked(graph@, r@)[r@.len() - 1] == x);
                } else if x == ki {
                    let m = choose|m: int| 0 <= m < picked(graph@, before).len() && picked(graph@, before)[m] == x;
                    assert(picked(graph@, r@)[m] == x);
                } else {
                    assert(keys(graph@).subrange(0, i as int)[j] == x);
                    assert(picked(graph@, before).to_set().contains(x));
                    let m = choose|m: int| 0 <= m < picked(graph@, before).len() && picked(graph@, before)[m] == x;
                    assert(picked(graph@, r@)[m] == x);
                }
            }
            assert(a =~= b);
        }
        i = i + 1;
    }
    assert(keys(graph@).subrange(0, i as int) =~= keys(graph@));
    r
}

proof fn lemma_next_member(members: Seq<Package>, graph: Seq<Package>, i: int)
    requires
        0 <= i < members.len(),
    ensures
        targets_before(members, i + 1, 0) == targets_before(
            members,
            i,
            members[i].dependencies@.len() as int,
        ),
        resolved_before(members, graph, i + 1, 0) == resolved_before(
            members,
            graph,
            i,
            members[i].dependencies@.len() as int,
        ),
{
    assert(targets_before(members, i + 1, 0) =~= targets_before(
        members,
        i,
        members[i].dependencies@.len() as int,
    ));
}

proof fn lemma_next_dep(members: Seq<Package>, graph: Seq<Package>, i: int, j: int)
    requires
        0 <= i < members.len(),
        0 <= j < members[i].dependencies@.len(),
    ensures
        targets_before(members, i, j + 1) == (if normal_dep(members, i, j)
            && members[i].dependencies@[j].target is Some {
            targets_before(members, i, j).insert(key_of(members[i].dependencies@[j].target->0))
        } else {
            targets_before(members, i, j)
        }),
        resolved_before(members, graph, i, j + 1) == (resolved_before(members, graph, i, j) && (
        normal_dep(members, i, j) ==> resolved(members, graph, i, j))),
{
    let t = targets_before(members, i, j + 1);
    let u = if normal_dep(members, i, j) && members[i].dependencies@[j].target is Some {
        targets_before(members, i, j).insert(key_of(members[i].dependencies@[j].target->0))
    } else {
        targets_before(members, i, j)
    };
    assert forall|k: Key| t.contains(k) implies u.contains(k) by {
        let (a, b) = choose|a: int, b: int|
            #![trigger normal_dep(members, a, b)]
            normal_dep(members, a, b) && before(a, b, i, j + 1)
                && members[a].dependencies@[b].target is Some && key_of(
                members[a].dependencies@[b].target->0,
            ) == k;
        if before(a, b, i, j) {
            assert(targets_before(members, i, j).contains(k));
        }
    }
    assert forall|k: Key| u.contains(k) implies t.contains(k) by {
        if targets_before(members, i, j).contains(k) {
            let (a, b) = choose|a: int, b: int|
                #![trigger normal_dep(members, a, b)]
                normal_dep(members, a, b) && before(a, b, i, j)
                    && members[a].dependencies@[b].target is Some && key_of(
                    members[a].dependencies@[b].target->0,
                ) == k;
            assert(before(a, b, i, j + 1));
        } else {
            assert(normal_dep(members, i, j) && before(i, j, i, j + 1));
        }
    }
    assert(t =~= u);
    if resolved_before(members, graph, i, j) && (normal_dep(members, i, j) ==> resolved(
        members,
        graph,
        i,
        j,
    )) {
        assert forall|a: int, b: int|
            #![trigger normal_dep(members, a, b)]
            normal_dep(members, a, b) && before(a, b, i, j + 1) implies resolved(
            members,
            graph,
            a,
            b,
        ) by {
            if before(a, b, i, j) {
            }
        }
    }
}

/// The packages that the members' normal dependencies resolve to, once per identity,
/// without the workspace members. Build and development dependencies are left out.
/// Fails when a normal dependency matches no package of the resolved graph.
pub fn top_level_dependencies(members: &Vec<Package>, graph: &Vec<Package>) -> (r: Result<
    Vec<usize>,
    CollectError,
>)
    ensures
        r is Ok <==> all_resolved(members@, graph@),
        r matches Ok(idx) ==> sound_pick(graph@, idx@) && picked(graph@, idx@).to_set()
            == normal_targets(members@).difference(keys(members@).to_set()),
{
    let mut r: Vec<usize> = Vec::new();
    let mut i: usize = 0;
    assert(targets_before(members@, 0, 0) =~= Set::empty());
    assert(picked(graph@, r@).to_set() =~= Set::empty());
    while i < members.len()
        invariant
            i <= members@.len(),
            sound_pick(graph@, r@),
            resolved_before(members@, graph@, i as int, 0),
            picked(graph@, r@).to_set() == targets_before(members@, i as int, 0).difference(
                keys(members@).to_set(),
            ),
        decreases members@.len() - i,
    {
        let deps = &members[i].dependencies;
        let mut j: usize = 0;
        assert(targets_before(members@, i as int, 0) == targets_before(members@, i as int, 0));
        while j < deps.len()
            invariant
                i < members@.len(),
                deps == members@[i as int].dependencies,
                j <= deps@.len(),
                sound_pick(graph@, r@),
                resolved_before(members@, graph@, i as int, j as int),
                picked(graph@, r@).to_set() == targets_before(
                    members@,
                    i as int,
                    j as int,
                ).difference(keys(members@).to_set()),
            decreases deps@.len() - j,
        {
            proof {
                lemma_next_dep(members@, graph@, i as int, j as int);
            }
            let dep = &deps[j];
            if dep.kind == DepKind::Normal {
                assert(normal_dep(members@, i as int, j as int));
                let target = match &dep.target {
                    Some(t) => t,
                    None => {
                        return Err(CollectError::Unresolved);
                    },
                };
                let g = match find_package(graph, target) {
                    Some(g) => g,
                    None => {
                        return Err(CollectError::Unresolved);
                    },
                };
                proof {
                    assert(keys(graph@)[g as int] == key_of(*target));
                }
                let ghost before_r = r@;
                let ghost k = key_of(*target);
                let member = is_member(members, target);
                let seen = already_picked(graph, &r, target);
                if !member && !seen {
                    proof {
                        lemma_push_picked(graph@, before_r, g);
                    }
                    r.push(g);
                }
                proof {
                    let a = picked(graph@, r@).to_set();
                    let b = picked(graph@, before_r).to_set();
                    if !member && !seen {
                        picked(graph@, before_r).lemma_push_to_set_commute(k);
                        assert(a =~= b.insert(k));
                    } else {
                        assert(a =~= b);
                    }
                    assert(a =~= targets_before(members@, i as int, j + 1).difference(
                        keys(members@).to_set(),
                    ));
                }
            }
            j = j + 1;
        }
        proof {
            lemma_next_member(members@, graph@, i as int);
        }
        i = i + 1;
    }
    Ok(r)
}

/// A package that no member reaches through a normal dependency (only through build
/// or development ones, or not at all) is not among the top-level targets, while the
/// list of all mode (`all_idx`, as `all_dependencies` returns it) holds it whenever it
/// is in the graph and is not a member.
pub proof fn lemma_only_normal_edges_ship(
    members: Seq<Package>,
    graph: Seq<Package>,
    all_idx: Seq<usize>,
    k: Key,
)
    requires
        forall|a: int, b: int|
            #![trigger normal_dep(members, a, b)]
            normal_dep(members, a, b) && members[a].dependencies@[b].target is Some ==> key_of(
                members[a].dependencies@[b].target->0,
            ) != k,
        picked(graph, all_idx).to_set() == keys(graph).to_set().difference(keys(members).to_set()),
    ensures
        !normal_targets(members).contains(k),
        keys(graph).contains(k) && !keys(members).contains(k) ==> picked(graph, all_idx).contains(
            k,
        ),
{
    if keys(graph).contains(k) && !keys(members).contains(k) {
        assert(keys(graph).to_set().contains(k));
        assert(picked(graph, all_idx).to_set().contains(k));
    }
}

/// A package that two members (or one member twice) reach through normal dependencies
/// is listed exactly once by the top-level collector, unless it is itself a member.
pub proof fn lemma_shared_dependency_listed_once(
    members: Seq<Package>,
    graph: Seq<Package>,
    idx: Seq<usize>,
    a1: int,
    b1: int,
    a2: int,
    b2: int,
)
    requires
        sound_pick(graph, idx),
        picked(graph, idx).to_set() == normal_targets(members).difference(keys(members).to_set()),
        normal_dep(members, a1, b1),
        normal_dep(members, a2, b2),
        members[a1].dependencies@[b1].target is Some,
        members[a2].dependencies@[b2].target is Some,
        key_of(members[a1].dependencies@[b1].target->0) == key_of(
            members[a2].dependencies@[b2].target->0,
        ),
        !keys(members).contains(key_of(members[a1].dependencies@[b1].target->0)),
    ensures
        picked(graph, idx).contains(key_of(members[a1].dependencies@[b1].target->0)),
        forall|m1: int, m2: int|
            0 <= m1 < idx.len() && 0 <= m2 < idx.len() && #[trigger] picked(graph, idx)[m1]
                == key_of(members[a1].dependencies@[b1].target->0) && #[trigger] picked(
                graph,
                idx,
            )[m2] == key_of(members[a1].dependencies@[b1].target->0) ==> m1 == m2,
{
    let k = key_of(members[a1].dependencies@[b1].target->0);
    assert(before(a1, b1, members.len() as int, 0));
    assert(normal_targets(members).contains(k));
    assert(picked(graph, idx).to_set().contains(k));
}

/// No package that either collector lists has the identity of a workspace member, even
/// where the members depend on one another.
pub proof fn lemma_members_never_listed(
    members: Seq<Package>,
    graph: Seq<Package>,
    idx: Seq<usize>,
    wanted: Set<Key>,
    m: int,
)
    requires
        picked(graph, idx).to_set() == wanted.difference(keys(members).to_set()),
        0 <= m < idx.len(),
    ensures
        !keys(members).contains(picked(graph, idx)[m]),
{
    assert(picked(graph, idx).to_set().contains(picked(graph, idx)[m]));
}

} // verus!
