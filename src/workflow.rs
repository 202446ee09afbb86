//! Declarative workflows: specs and their builders, validation (unique ids,
//! known dependencies and endpoints, no cycle), and the order in which
//! their modules become tasks.

use vstd::prelude::*;

use crate::message::{Message, MessageType};
use crate::meta::ComputeContext;
use crate::object::ObjectId;
use crate::object::{attribute_of, string_eq, upsert_pair};
use crate::scheduler::{TaskExecutor, TaskResult};
use crate::task::{deps_completed, has_id, id_completed, with_status, Task, TaskId, TaskPriority, TaskStatus};

verus! {

/// One module of a workflow.
#[derive(Debug, Clone)]
pub struct ModuleSpec {
    pub id: u32,
    pub module_type: String,
    pub name: String,
    /// Parameter name and value pairs; names are unique.
    pub parameters: Vec<(String, String)>,
    /// Ids of the modules this one depends on.
    pub dependencies: Vec<u32>,
    pub priority: TaskPriority,
}

/// A connection from an output port to an input port.
#[derive(Debug, Clone)]
pub struct ConnectionSpec {
    pub from_module: u32,
    pub from_port: String,
    pub to_module: u32,
    pub to_port: String,
}

/// A workflow: modules and the connections between them.
#[derive(Debug, Clone)]
pub struct WorkflowSpec {
    pub id: String,
    pub name: String,
    pub description: String,
    pub modules: Vec<ModuleSpec>,
    pub connections: Vec<ConnectionSpec>,
}

/// Module `b` must run after module `a`: `b` lists `a` as a dependency, or a
/// connection leads from `a` to `b`.
pub open spec fn edge(mods: Seq<ModuleSpec>, conns: Seq<ConnectionSpec>, a: int, b: int) -> bool {
    mods[b].dependencies@.contains(mods[a].id)
        || exists|c: int| 0 <= c < conns.len() && (#[trigger] conns[c]).from_module == mods[a].id
            && conns[c].to_module == mods[b].id
}

/// `order` lists every module position once, and no module comes after one
/// that must run after it (nor must run after itself).
pub open spec fn is_topological_order(mods: Seq<ModuleSpec>, conns: Seq<ConnectionSpec>, order: Seq<usize>) -> bool {
    &&& forall|x: int| 0 <= x < mods.len() ==> #[trigger] order.contains(x as usize)
    &&& forall|i: int| 0 <= i < order.len() ==> (#[trigger] order[i]) < mods.len()
    &&& forall|i: int, j: int| 0 <= i < j < order.len() ==> (#[trigger] order[i]) != (#[trigger] order[j])
    &&& forall|i: int, j: int| 0 <= i <= j < order.len() ==> !edge(mods, conns, #[trigger] order[j] as int, #[trigger] order[i] as int)
}

/// The workflow graph has no cycle: some order of the modules respects
/// every edge.
pub open spec fn acyclic(mods: Seq<ModuleSpec>, conns: Seq<ConnectionSpec>) -> bool {
    exists|order: Seq<usize>| is_topological_order(mods, conns, order)
}

pub open spec fn module_ids_unique(mods: Seq<ModuleSpec>) -> bool {
    forall|a: int, b: int| 0 <= a < b < mods.len() ==> (#[trigger] mods[a]).id != (#[trigger] mods[b]).id
}

pub open spec fn has_module(mods: Seq<ModuleSpec>, id: u32) -> bool {
    exists|k: int| 0 <= k < mods.len() && (#[trigger] mods[k]).id == id
}

/// Every dependency names a module of the workflow.
pub open spec fn dependencies_known(mods: Seq<ModuleSpec>) -> bool {
    forall|b: int, j: int| 0 <= b < mods.len() && 0 <= j < mods[b].dependencies@.len()
        ==> has_module(mods, #[trigger] mods[b].dependencies@[j])
}

/// Both ends of every connection are modules of the workflow.
pub open spec fn endpoints_known(mods: Seq<ModuleSpec>, conns: Seq<ConnectionSpec>) -> bool {
    forall|c: int| 0 <= c < conns.len() ==> has_module(mods, (#[trigger] conns[c]).from_module)
        && has_module(mods, conns[c].to_module)
}

/// Why a workflow was refused.
#[derive(Debug, Clone, Copy, PartialEq, Eq, Structural)]
pub enum WorkflowError {
    /// Two modules share this id.
    DuplicateModule(u32),
    /// A dependency names no module.
    UnknownDependency(u32),
    /// A connection end names no module.
    UnknownEndpoint(u32),
    /// The modules depend on each other in a cycle.
    Cycle,
    /// The workflow's timeout fired before its tasks finished.
    Timeout,
}

/// Position of the module with id `id`.
fn module_position(mods: &Vec<ModuleSpec>, id: u32) -> (r: Option<usize>)
    ensures
        r matches Some(k) ==> k < mods@.len() && mods@[k as int].id == id,
        r is None <==> !has_module(mods@, id),
{
    let n = mods.len();
    let mut k: usize = 0;
    while k < n
        invariant
            n == mods@.len(),
            0 <= k <= n,
            forall|x: int| 0 <= x < k ==> (#[trigger] mods@[x]).id != id,
        decreases n - k,
    {
        if mods[k].id == id {
            assert(mods@[k as int].id == id);
            return Some(k);
        }
        k += 1;
    }
    None
}

/// Number of `false` entries.
pub open spec fn count_unplaced(placed: Seq<bool>) -> nat
    decreases placed.len(),
{
    if placed.len() == 0 {
        0
    } else {
        count_unplaced(placed.drop_last()) + if placed.last() { 0nat } else { 1nat }
    }
}

proof fn lemma_count_unplaced_set(placed: Seq<bool>, i: int)
    requires
        0 <= i < placed.len(),
        !placed[i],
    ensures
        count_unplaced(placed.update(i, true)) + 1 == count_unplaced(placed),
    decreases placed.len(),
{
    if i == placed.len() - 1 {
        assert(placed.update(i, true).drop_last() =~= placed.drop_last());
    } else {
        lemma_count_unplaced_set(placed.drop_last(), i);
        assert(placed.update(i, true).drop_last() =~= placed.drop_last().update(i, true));
    }
}

proof fn lemma_first_unplaced(order: Seq<usize>, placed: Seq<bool>, i0: int) -> (i: int)
    requires
        0 <= i0 < order.len(),
        forall|k: int| 0 <= k < order.len() ==> (#[trigger] order[k]) < placed.len(),
        !placed[order[i0] as int],
    ensures
        0 <= i <= i0,
        !placed[order[i] as int],
        forall|k: int| 0 <= k < i ==> placed[#[trigger] order[k] as int],
    decreases i0,
{
    if exists|k: int| 0 <= k < i0 && !placed[#[trigger] order[k] as int] {
        let k = choose|k: int| 0 <= k < i0 && !placed[#[trigger] order[k] as int];
        lemma_first_unplaced(order, placed, k)
    } else {
        i0
    }
}

/// When every unplaced module must run after another unplaced one, the
/// graph has a cycle.
proof fn lemma_stuck_means_cycle(mods: Seq<ModuleSpec>, conns: Seq<ConnectionSpec>, placed: Seq<bool>, x: int)
    requires
        placed.len() == mods.len(),
        mods.len() <= usize::MAX,
        0 <= x < mods.len(),
        !placed[x],
        forall|b: int| 0 <= b < mods.len() && !placed[b] ==> exists|a: int| 0 <= a < mods.len() && !placed[a]
            && #[trigger] edge(mods, conns, a, b),
    ensures
        !acyclic(mods, conns),
{
    if acyclic(mods, conns) {
        let order = choose|order: Seq<usize>| is_topological_order(mods, conns, order);
        assert(order.contains(x as usize));
        let i0 = choose|i0: int| 0 <= i0 < order.len() && #[trigger] order[i0] == x as usize;
        let i = lemma_first_unplaced(order, placed, i0);
        let o = order[i] as int;
        let a = choose|a: int| 0 <= a < mods.len() && !placed[a] && #[trigger] edge(mods, conns, a, o);
        assert(order.contains(a as usize));
        let j = choose|j: int| 0 <= j < order.len() && #[trigger] order[j] == a as usize;
        if j < i {
            assert(placed[order[j] as int]);
        } else {
            assert(!edge(mods, conns, order[j] as int, order[i] as int));
        }
    }
}

/// Whether every module that `b` must run after is placed.
fn prerequisites_placed(mods: &Vec<ModuleSpec>, conns: &Vec<ConnectionSpec>, placed: &Vec<bool>, b: usize) -> (r: bool)
    requires
        b < mods@.len(),
        placed@.len() == mods@.len(),
        module_ids_unique(mods@),
        dependencies_known(mods@),
        endpoints_known(mods@, conns@),
    ensures
        r <==> forall|a: int| 0 <= a < mods@.len() && !placed@[a] ==> !#[trigger] edge(mods@, conns@, a, b as int),
{
    let deps = &mods[b].dependencies;
    let nd = deps.len();
    let mut j: usize = 0;
    while j < nd
        invariant
            deps@ == mods@[b as int].dependencies@,
            nd == deps@.len(),
            0 <= j <= nd,
            b < mods@.len(),
            placed@.len() == mods@.len(),
            dependencies_known(mods@),
            module_ids_unique(mods@),
            forall|a: int| 0 <= a < mods@.len() && deps@.take(j as int).contains(mods@[a].id) ==> placed@[a],
        decreases nd - j,
    {
        assert(has_module(mods@, mods@[b as int].dependencies@[j as int]));
        match module_position(mods, deps[j]) {
            Some(a) => {
                if !placed[a] {
                    assert(edge(mods@, conns@, a as int, b as int)) by {
                        assert(mods@[b as int].dependencies@[j as int] == mods@[a as int].id);
                    }
                    return false;
                }
                assert forall|x: int| 0 <= x < mods@.len() && deps@.take(j + 1).contains(mods@[x].id) implies placed@[x] by {
                    let w = choose|w: int| 0 <= w < j + 1 && #[trigger] deps@.take(j + 1)[w] == mods@[x].id;
                    if w < j {
                        assert(deps@.take(j as int)[w] == mods@[x].id);
                    } else {
                        if x != a {
                            if x < a {
                                assert(mods@[x].id != mods@[a as int].id);
                            } else {
                                assert(mods@[a as int].id != mods@[x].id);
                            }
                        }
                    }
                }
            },
            None => {
                return false;
            },
        }
        j += 1;
    }
    assert(deps@.take(nd as int) =~= deps@);
    let nc = conns.len();
    let mut c: usize = 0;
    while c < nc
        invariant
            nc == conns@.len(),
            0 <= c <= nc,
            b < mods@.len(),
            placed@.len() == mods@.len(),
            module_ids_unique(mods@),
            endpoints_known(mods@, conns@),
            forall|a: int| 0 <= a < mods@.len() && mods@[b as int].dependencies@.contains(mods@[a].id) ==> placed@[a],
            forall|a: int, x: int| #![trigger conns@[x], mods@[a]] 0 <= a < mods@.len() && 0 <= x < c && conns@[x].from_module == mods@[a].id
                && conns@[x].to_module == mods@[b as int].id ==> placed@[a],
        decreases nc - c,
    {
        if conns[c].to_module == mods[b].id {
            assert(has_module(mods@, conns@[c as int].from_module));
            match module_position(mods, conns[c].from_module) {
                Some(a) => {
                    if !placed[a] {
                        assert(edge(mods@, conns@, a as int, b as int)) by {
                            assert(conns@[c as int].from_module == mods@[a as int].id);
                        }
                        return false;
                    }
                    assert forall|x: int, y: int| #![trigger conns@[y], mods@[x]] 0 <= x < mods@.len() && 0 <= y < c + 1 && conns@[y].from_module == mods@[x].id
                        && conns@[y].to_module == mods@[b as int].id implies placed@[x] by {
                        if y == c && x != a {
                            if x < a {
                                assert(mods@[x].id != mods@[a as int].id);
                            } else {
                                assert(mods@[a as int].id != mods@[x].id);
                            }
                        }
                    }
                },
                None => {
                    return false;
                },
            }
        }
        c += 1;
    }
    true
}

/// A topological order of the module positions, or `None` when the
/// workflow graph has a cycle.
pub fn topological_order(mods: &Vec<ModuleSpec>, conns: &Vec<ConnectionSpec>) -> (r: Option<Vec<usize>>)
    requires
        module_ids_unique(mods@),
        dependencies_known(mods@),
        endpoints_known(mods@, conns@),
    ensures
        r matches Some(order) ==> is_topological_order(mods@, conns@, order@),
        r is None <==> !acyclic(mods@, conns@),
{
    let n = mods.len();
    let mut placed: Vec<bool> = Vec::new();
    let mut i: usize = 0;
    while i < n
        invariant
            0 <= i <= n,
            placed@.len() == i,
            forall|k: int| 0 <= k < i ==> !placed@[k],
        decreases n - i,
    {
        placed.push(false);
        i += 1;
    }
    let mut order: Vec<usize> = Vec::new();
    loop
        invariant
            n == mods@.len(),
            placed@.len() == n,
            module_ids_unique(mods@),
            dependencies_known(mods@),
            endpoints_known(mods@, conns@),
            forall|k: int| 0 <= k < order@.len() ==> (#[trigger] order@[k]) < n,
            forall|a: int, b: int| 0 <= a < b < order@.len() ==> (#[trigger] order@[a]) != (#[trigger] order@[b]),
            forall|x: int| 0 <= x < n ==> (placed@[x] <==> #[trigger] order@.contains(x as usize)),
            forall|k: int, a: int| 0 <= k < order@.len() && 0 <= a < n && #[trigger] edge(mods@, conns@, a, order@[k] as int)
                ==> exists|w: int| 0 <= w < k && #[trigger] order@[w] == a as usize,
        decreases count_unplaced(placed@),
    {
        let mut b: usize = 0;
        let mut any_unplaced = false;
        let ghost mut witness: int = 0;
        while b < n && (placed[b] || !prerequisites_placed(mods, conns, &placed, b))
            invariant
                n == mods@.len(),
                placed@.len() == n,
                0 <= b <= n,
                module_ids_unique(mods@),
                dependencies_known(mods@),
                endpoints_known(mods@, conns@),
                any_unplaced ==> 0 <= witness < n && !placed@[witness],
                forall|x: int| 0 <= x < b ==> !placed@[x] ==> any_unplaced,
                forall|x: int| 0 <= x < b && !placed@[x] ==> exists|a: int| 0 <= a < n && !placed@[a]
                    && #[trigger] edge(mods@, conns@, a, x),
            decreases n - b,
        {
            if !placed[b] {
                any_unplaced = true;
                proof {
                    witness = b as int;
                }
            }
            b += 1;
        }
        if b == n {
            if any_unplaced {
                proof {
                    assert(mods@.len() == mods.len());
                    lemma_stuck_means_cycle(mods@, conns@, placed@, witness);
                }
                return None;
            }
            proof {
                let ord = order@;
                assert(is_topological_order(mods@, conns@, ord)) by {
                    assert forall|i: int, j: int| 0 <= i <= j < ord.len() implies
                        !edge(mods@, conns@, #[trigger] ord[j] as int, #[trigger] ord[i] as int) by {
                        if edge(mods@, conns@, ord[j] as int, ord[i] as int) {
                            let w = choose|w: int| 0 <= w < i && #[trigger] ord[w] == ord[j] as usize;
                        }
                    }
                }
            }
            return Some(order);
        }
        let ghost prev = order@;
        let ghost before = placed@;
        proof {
            lemma_count_unplaced_set(before, b as int);
        }
        order.push(b);
        placed.set(b, true);
        proof {
            assert forall|x: int| 0 <= x < n implies (placed@[x] <==> #[trigger] order@.contains(x as usize)) by {
                if x == b {
                    assert(order@[prev.len() as int] == b);
                } else {
                    if prev.contains(x as usize) {
                        let w = choose|w: int| 0 <= w < prev.len() && #[trigger] prev[w] == x as usize;
                        assert(order@[w] == x as usize);
                    }
                    if order@.contains(x as usize) {
                        let w = choose|w: int| 0 <= w < order@.len() && #[trigger] order@[w] == x as usize;
                        assert(w < prev.len());
                        assert(prev[w] == x as usize);
                    }
                }
            }
            assert forall|a: int, c: int| 0 <= a < c < order@.len() implies (#[trigger] order@[a]) != (#[trigger] order@[c]) by {
                if c == prev.len() {
                    assert(before[prev[a] as int]) by {
                        assert(prev.contains((prev[a] as int) as usize));
                    }
                }
            }
            assert forall|k: int, a: int| 0 <= k < order@.len() && 0 <= a < n && #[trigger] edge(mods@, conns@, a, order@[k] as int)
                implies exists|w: int| 0 <= w < k && #[trigger] order@[w] == a as usize by {
                if k < prev.len() {
                    let w = choose|w: int| 0 <= w < k && #[trigger] prev[w] == a as usize;
                    assert(order@[w] == a as usize);
                } else {
                    assert(before[a]);
                    assert(prev.contains(a as usize));
                    let w = choose|w: int| 0 <= w < prev.len() && #[trigger] prev[w] == a as usize;
                    assert(order@[w] == a as usize);
                }
            }
        }
    }
}

/// Id of the module with a duplicate id, if any.
fn find_duplicate_module(mods: &Vec<ModuleSpec>) -> (r: Option<u32>)
    ensures
        r is None <==> module_ids_unique(mods@),
        r matches Some(id) ==> exists|a: int, b: int| 0 <= a < b < mods@.len() && (#[trigger] mods@[a]).id == id
            && (#[trigger] mods@[b]).id == id,
{
    let n = mods.len();
    let mut b: usize = 0;
    while b < n
        invariant
            n == mods@.len(),
            0 <= b <= n,
            forall|x: int, y: int| 0 <= x < y < b ==> (#[trigger] mods@[x]).id != (#[trigger] mods@[y]).id,
        decreases n - b,
    {
        let mut a: usize = 0;
        while a < b
            invariant
                n == mods@.len(),
                0 <= a <= b < n,
                forall|x: int| 0 <= x < a ==> (#[trigger] mods@[x]).id != mods@[b as int].id,
            decreases b - a,
        {
            if mods[a].id == mods[b].id {
                return Some(mods[b].id);
            }
            a += 1;
        }
        b += 1;
    }
    None
}

/// A dependency id that names no module, if any.
fn find_unknown_dependency(mods: &Vec<ModuleSpec>) -> (r: Option<u32>)
    ensures
        r is None <==> dependencies_known(mods@),
        r matches Some(id) ==> !has_module(mods@, id),
{
    let n = mods.len();
    let mut b: usize = 0;
    while b < n
        invariant
            n == mods@.len(),
            0 <= b <= n,
            forall|x: int, j: int| 0 <= x < b && 0 <= j < mods@[x].dependencies@.len()
                ==> has_module(mods@, #[trigger] mods@[x].dependencies@[j]),
        decreases n - b,
    {
        let m = mods[b].dependencies.len();
        let mut j: usize = 0;
        while j < m
            invariant
                n == mods@.len(),
                0 <= b < n,
                m == mods@[b as int].dependencies@.len(),
                0 <= j <= m,
                forall|x: int, y: int| 0 <= x < b && 0 <= y < mods@[x].dependencies@.len()
                    ==> has_module(mods@, #[trigger] mods@[x].dependencies@[y]),
                forall|y: int| 0 <= y < j ==> has_module(mods@, #[trigger] mods@[b as int].dependencies@[y]),
            decreases m - j,
        {
            let d = mods[b].dependencies[j];
            if module_position(mods, d).is_none() {
                return Some(d);
            }
            j += 1;
        }
        b += 1;
    }
    None
}

/// A connection end that names no module, if any.
fn find_unknown_endpoint(mods: &Vec<ModuleSpec>, conns: &Vec<ConnectionSpec>) -> (r: Option<u32>)
    ensures
        r is None <==> endpoints_known(mods@, conns@),
        r matches Some(id) ==> !has_module(mods@, id),
{
    let n = conns.len();
    let mut c: usize = 0;
    while c < n
        invariant
            n == conns@.len(),
            0 <= c <= n,
            forall|x: int| 0 <= x < c ==> has_module(mods@, (#[trigger] conns@[x]).from_module)
                && has_module(mods@, conns@[x].to_module),
        decreases n - c,
    {
        if module_position(mods, conns[c].from_module).is_none() {
            return Some(conns[c].from_module);
        }
        if module_position(mods, conns[c].to_module).is_none() {
            return Some(conns[c].to_module);
        }
        c += 1;
    }
    None
}

/// A workflow that can run: unique module ids, known dependencies and
/// connection ends, and no cycle.
pub open spec fn valid_workflow(spec: WorkflowSpec) -> bool {
    &&& module_ids_unique(spec.modules@)
    &&& dependencies_known(spec.modules@)
    &&& endpoints_known(spec.modules@, spec.connections@)
    &&& acyclic(spec.modules@, spec.connections@)
}

/// A workflow whose graph has a cycle is never valid, so it never becomes
/// tasks: `validate_workflow` answers `Cycle` exactly when no order of its
/// modules respects every edge, and `begin_workflow` succeeds only on a
/// valid workflow.
pub proof fn law_cyclic_workflows_rejected(spec: WorkflowSpec)
    requires
        !acyclic(spec.modules@, spec.connections@),
    ensures
        !valid_workflow(spec),
{
}

/// Validates a workflow and returns the order in which its modules may run.
pub fn validate_workflow(spec: &WorkflowSpec) -> (r: Result<Vec<usize>, WorkflowError>)
    ensures
        r is Ok <==> valid_workflow(*spec),
        r matches Ok(order) ==> is_topological_order(spec.modules@, spec.connections@, order@),
        !module_ids_unique(spec.modules@) ==> r matches Err(WorkflowError::DuplicateModule(_)),
        module_ids_unique(spec.modules@) && !dependencies_known(spec.modules@)
            ==> r matches Err(WorkflowError::UnknownDependency(_)),
        module_ids_unique(spec.modules@) && dependencies_known(spec.modules@)
            && !endpoints_known(spec.modules@, spec.connections@) ==> r matches Err(WorkflowError::UnknownEndpoint(_)),
        module_ids_unique(spec.modules@) && dependencies_known(spec.modules@)
            && endpoints_known(spec.modules@, spec.connections@) && !acyclic(spec.modules@, spec.connections@)
            ==> r == Err::<Vec<usize>, WorkflowError>(WorkflowError::Cycle),
{
    if let Some(id) = find_duplicate_module(&spec.modules) {
        return Err(WorkflowError::DuplicateModule(id));
    }
    if let Some(id) = find_unknown_dependency(&spec.modules) {
        return Err(WorkflowError::UnknownDependency(id));
    }
    if let Some(id) = find_unknown_endpoint(&spec.modules, &spec.connections) {
        return Err(WorkflowError::UnknownEndpoint(id));
    }
    match topological_order(&spec.modules, &spec.connections) {
        Some(order) => Ok(order),
        None => Err(WorkflowError::Cycle),
    }
}

/// `m` hands object `id`, produced by module `module_id`, to the target of
/// connection `c`, on the connection's input port.
pub open spec fn delivers(m: Message, module_id: u32, c: ConnectionSpec, id: ObjectId) -> bool {
    &&& m.sender == module_id
    &&& m.recipient == c.to_module
    &&& m.message_type matches MessageType::AddObject { object_id, port_name } && object_id == id && port_name@ == c.to_port@
}

/// `c` leaves output port `port` of module `module_id`.
pub open spec fn leaves(c: ConnectionSpec, module_id: u32, port: Seq<char>) -> bool {
    c.from_module == module_id && c.from_port@ == port
}

/// Appends one `AddObject` message per object for connection `c`.
fn deliver_over(out: &mut Vec<Message>, module_id: u32, c: &ConnectionSpec, ids: &Vec<ObjectId>, now_ns: u64)
    ensures
        final(out)@.len() == old(out)@.len() + ids@.len(),
        forall|i: int| 0 <= i < old(out)@.len() ==> #[trigger] final(out)@[i] == old(out)@[i],
        forall|j: int| 0 <= j < ids@.len() ==> delivers(#[trigger] final(out)@[old(out)@.len() + j], module_id, *c, ids@[j]),
{
    let n = ids.len();
    let ghost base = old(out)@;
    let mut j: usize = 0;
    while j < n
        invariant
            n == ids@.len(),
            0 <= j <= n,
            out@.len() == base.len() + j,
            forall|i: int| 0 <= i < base.len() ==> #[trigger] out@[i] == base[i],
            forall|x: int| 0 <= x < j ==> delivers(#[trigger] out@[base.len() + x], module_id, *c, ids@[x]),
        decreases n - j,
    {
        let kind = MessageType::AddObject { object_id: ids[j], port_name: c.to_port.clone() };
        let m = Message::new(module_id, c.to_module, kind, now_ns);
        let ghost prev = out@;
        out.push(m);
        proof {
            assert forall|x: int| 0 <= x < j + 1 implies delivers(#[trigger] out@[base.len() + x], module_id, *c, ids@[x]) by {
                if x < j {
                    assert(out@[base.len() + x] == prev[base.len() + x]);
                }
            }
        }
        j += 1;
    }
}

/// `m` hands one of the module's outputs to the target of a connection
/// leaving that output's port.
pub open spec fn is_delivery(conns: Seq<ConnectionSpec>, module_id: u32, outputs: Seq<(String, Vec<ObjectId>)>, m: Message) -> bool {
    exists|k: int, c: int, j: int| #![trigger leaves(conns[c], module_id, outputs[k].0@), outputs[k].1@[j]]
        0 <= k < outputs.len() && 0 <= c < conns.len() && 0 <= j < outputs[k].1@.len()
        && leaves(conns[c], module_id, outputs[k].0@) && delivers(m, module_id, conns[c], outputs[k].1@[j])
}

/// Some message of `r` hands object `id` over connection `c`.
pub open spec fn delivered(r: Seq<Message>, module_id: u32, c: ConnectionSpec, id: ObjectId) -> bool {
    exists|i: int| 0 <= i < r.len() && delivers(#[trigger] r[i], module_id, c, id)
}

/// The `AddObject` messages that hand a module's outputs downstream: for
/// each output port, each connection leaving it and each object on it, one
/// message to the connection's target module naming its input port.
pub fn add_object_messages(
    conns: &Vec<ConnectionSpec>,
    module_id: u32,
    outputs: &Vec<(String, Vec<ObjectId>)>,
    now_ns: u64,
) -> (r: Vec<Message>)
    ensures
        forall|i: int| 0 <= i < r@.len() ==> is_delivery(conns@, module_id, outputs@, #[trigger] r@[i]),
        forall|k: int, c: int, j: int| #![trigger leaves(conns@[c], module_id, outputs@[k].0@), outputs@[k].1@[j]]
            0 <= k < outputs@.len() && 0 <= c < conns@.len() && 0 <= j < outputs@[k].1@.len()
            && leaves(conns@[c], module_id, outputs@[k].0@)
            ==> delivered(r@, module_id, conns@[c], outputs@[k].1@[j]),
{
    let mut out: Vec<Message> = Vec::new();
    let no = outputs.len();
    let nc = conns.len();
    let mut k: usize = 0;
    while k < no
        invariant
            no == outputs@.len(),
            nc == conns@.len(),
            0 <= k <= no,
            forall|i: int| 0 <= i < out@.len() ==> is_delivery(conns@, module_id, outputs@, #[trigger] out@[i]),
            forall|k2: int, c: int, j: int| #![trigger leaves(conns@[c], module_id, outputs@[k2].0@), outputs@[k2].1@[j]]
                0 <= k2 < k && 0 <= c < conns@.len() && 0 <= j < outputs@[k2].1@.len()
                && leaves(conns@[c], module_id, outputs@[k2].0@)
                ==> delivered(out@, module_id, conns@[c], outputs@[k2].1@[j]),
        decreases no - k,
    {
        let mut c: usize = 0;
        while c < nc
            invariant
                no == outputs@.len(),
                nc == conns@.len(),
                0 <= k < no,
                0 <= c <= nc,
                forall|i: int| 0 <= i < out@.len() ==> is_delivery(conns@, module_id, outputs@, #[trigger] out@[i]),
                forall|k2: int, c2: int, j: int| #![trigger leaves(conns@[c2], module_id, outputs@[k2].0@), outputs@[k2].1@[j]]
                    0 <= k2 <= k && 0 <= c2 < conns@.len() && 0 <= j < outputs@[k2].1@.len()
                    && (k2 < k || c2 < c)
                    && leaves(conns@[c2], module_id, outputs@[k2].0@)
                    ==> delivered(out@, module_id, conns@[c2], outputs@[k2].1@[j]),
            decreases nc - c,
        {
            if conns[c].from_module == module_id && crate::object::string_eq(&conns[c].from_port, outputs[k].0.as_str()) {
                let ghost prev = out@;
                deliver_over(&mut out, module_id, &conns[c], &outputs[k].1, now_ns);
                proof {
                    assert(leaves(conns@[c as int], module_id, outputs@[k as int].0@));
                    assert forall|i: int| 0 <= i < out@.len() implies is_delivery(conns@, module_id, outputs@, #[trigger] out@[i]) by {
                        if i < prev.len() {
                            assert(out@[i] == prev[i]);
                            assert(is_delivery(conns@, module_id, outputs@, prev[i]));
                        } else {
                            let j = i - prev.len();
                            assert(delivers(out@[prev.len() + j], module_id, conns@[c as int], outputs@[k as int].1@[j]));
                            let _ = outputs@[k as int].1@[j];
                        }
                    }
                    assert forall|k2: int, c2: int, j: int| #![trigger leaves(conns@[c2], module_id, outputs@[k2].0@), outputs@[k2].1@[j]]
                        0 <= k2 <= k && 0 <= c2 < conns@.len() && 0 <= j < outputs@[k2].1@.len()
                        && (k2 < k || c2 < c + 1)
                        && leaves(conns@[c2], module_id, outputs@[k2].0@)
                        implies delivered(out@, module_id, conns@[c2], outputs@[k2].1@[j]) by {
                        if k2 < k || c2 < c {
                            assert(delivered(prev, module_id, conns@[c2], outputs@[k2].1@[j]));
                            let i = choose|i: int| 0 <= i < prev.len() && delivers(#[trigger] prev[i], module_id, conns@[c2], outputs@[k2].1@[j]);
                            assert(out@[i] == prev[i]);
                        } else {
                            assert(delivers(out@[prev.len() + j], module_id, conns@[c as int], outputs@[k as int].1@[j]));
                        }
                    }
                }
            }
            c += 1;
        }
        k += 1;
    }
    out
}

/// The task id of the module with id `id`.
pub open spec fn module_task_id(id: u32) -> TaskId {
    TaskId(id as u64)
}

/// `id` is the task id of a module that module `b` must run after.
pub open spec fn is_prerequisite_id(mods: Seq<ModuleSpec>, conns: Seq<ConnectionSpec>, b: int, id: TaskId) -> bool {
    exists|a: int| 0 <= a < mods.len() && #[trigger] edge(mods, conns, a, b) && id == module_task_id(mods[a].id)
}

/// `t` is the task that module `b` becomes: the module's id as task id, a
/// single-rank context, the module's priority, exactly the module's
/// prerequisites as dependencies, and ready when it has none.
pub open spec fn is_module_task(mods: Seq<ModuleSpec>, conns: Seq<ConnectionSpec>, b: int, t: Task) -> bool {
    &&& t.id == module_task_id(mods[b].id)
    &&& t.context == (ComputeContext { module_id: mods[b].id, timestep: 0, iteration: 0, rank: 0, size: 1 })
    &&& t.priority == mods[b].priority
    &&& forall|id: TaskId| t.dependencies@.contains(id) <==> #[trigger] is_prerequisite_id(mods, conns, b, id)
    &&& t.status == if t.dependencies@.len() == 0 { TaskStatus::Ready } else { TaskStatus::Pending }
}

/// Ids of the modules that module `b` must run after: its dependencies, then
/// the sources of connections into it.
fn prerequisite_ids(mods: &Vec<ModuleSpec>, conns: &Vec<ConnectionSpec>, b: usize) -> (r: Vec<TaskId>)
    requires
        b < mods@.len(),
        dependencies_known(mods@),
        endpoints_known(mods@, conns@),
    ensures
        forall|j: int| 0 <= j < r@.len() ==> is_prerequisite_id(mods@, conns@, b as int, #[trigger] r@[j]),
        forall|a: int| 0 <= a < mods@.len() && #[trigger] edge(mods@, conns@, a, b as int)
            ==> r@.contains(module_task_id(mods@[a].id)),
{
    let mut out: Vec<TaskId> = Vec::new();
    let deps = &mods[b].dependencies;
    let nd = deps.len();
    let mut j: usize = 0;
    while j < nd
        invariant
            deps@ == mods@[b as int].dependencies@,
            nd == deps@.len(),
            0 <= j <= nd,
            b < mods@.len(),
            dependencies_known(mods@),
            forall|k: int| 0 <= k < out@.len() ==> is_prerequisite_id(mods@, conns@, b as int, #[trigger] out@[k]),
            forall|k: int| 0 <= k < j ==> out@.contains(TaskId(#[trigger] deps@[k] as u64)),
        decreases nd - j,
    {
        assert(has_module(mods@, deps@[j as int]));
        let ghost a = choose|a: int| 0 <= a < mods@.len() && (#[trigger] mods@[a]).id == deps@[j as int];
        let ghost prev = out@;
        out.push(TaskId(deps[j] as u64));
        proof {
            assert(mods@[b as int].dependencies@.contains(mods@[a].id)) by {
                assert(mods@[b as int].dependencies@[j as int] == mods@[a].id);
            }
            assert(edge(mods@, conns@, a, b as int));
            assert forall|k: int| 0 <= k < j + 1 implies out@.contains(TaskId(#[trigger] deps@[k] as u64)) by {
                if k < j {
                    let w = choose|w: int| 0 <= w < prev.len() && prev[w] == TaskId(deps@[k] as u64);
                    assert(out@[w] == prev[w]);
                } else {
                    assert(out@[prev.len() as int] == TaskId(deps@[k] as u64));
                }
            }
            assert forall|k: int| 0 <= k < out@.len() implies is_prerequisite_id(mods@, conns@, b as int, #[trigger] out@[k]) by {
                if k < prev.len() {
                    assert(out@[k] == prev[k]);
                } else {
                    assert(out@[k] == module_task_id(mods@[a].id));
                }
            }
        }
        j += 1;
    }
    let nc = conns.len();
    let mut c: usize = 0;
    while c < nc
        invariant
            nc == conns@.len(),
            0 <= c <= nc,
            b < mods@.len(),
            endpoints_known(mods@, conns@),
            forall|k: int| 0 <= k < out@.len() ==> is_prerequisite_id(mods@, conns@, b as int, #[trigger] out@[k]),
            forall|k: int| 0 <= k < mods@[b as int].dependencies@.len()
                ==> out@.contains(TaskId(#[trigger] mods@[b as int].dependencies@[k] as u64)),
            forall|x: int| 0 <= x < c && (#[trigger] conns@[x]).to_module == mods@[b as int].id
                ==> out@.contains(TaskId(conns@[x].from_module as u64)),
        decreases nc - c,
    {
        if conns[c].to_module == mods[b].id {
            assert(has_module(mods@, conns@[c as int].from_module));
            let ghost a = choose|a: int| 0 <= a < mods@.len() && (#[trigger] mods@[a]).id == conns@[c as int].from_module;
            let ghost prev = out@;
            out.push(TaskId(conns[c].from_module as u64));
            proof {
                assert forall|y: TaskId| prev.contains(y) implies out@.contains(y) by {
                    let w = choose|w: int| 0 <= w < prev.len() && prev[w] == y;
                    assert(out@[w] == prev[w]);
                }
                assert(out@[prev.len() as int] == TaskId(conns@[c as int].from_module as u64));
                assert forall|k: int| 0 <= k < mods@[b as int].dependencies@.len()
                    implies out@.contains(TaskId(#[trigger] mods@[b as int].dependencies@[k] as u64)) by {
                    assert(prev.contains(TaskId(mods@[b as int].dependencies@[k] as u64)));
                }
                assert forall|x: int| 0 <= x < c + 1 && (#[trigger] conns@[x]).to_module == mods@[b as int].id
                    implies out@.contains(TaskId(conns@[x].from_module as u64)) by {
                    if x < c {
                        assert(prev.contains(TaskId(conns@[x].from_module as u64)));
                    }
                }
                assert(edge(mods@, conns@, a, b as int)) by {
                    assert(conns@[c as int].from_module == mods@[a].id);
                }
                assert forall|k: int| 0 <= k < out@.len() implies is_prerequisite_id(mods@, conns@, b as int, #[trigger] out@[k]) by {
                    if k < prev.len() {
                        assert(out@[k] == prev[k]);
                    } else {
                        assert(out@[k] == module_task_id(mods@[a].id));
                    }
                }
            }
        }
        c += 1;
    }
    proof {
        assert forall|a: int| 0 <= a < mods@.len() && #[trigger] edge(mods@, conns@, a, b as int)
            implies out@.contains(module_task_id(mods@[a].id)) by {
            if mods@[b as int].dependencies@.contains(mods@[a].id) {
                let k = choose|k: int| 0 <= k < mods@[b as int].dependencies@.len()
                    && mods@[b as int].dependencies@[k] == mods@[a].id;
                assert(out@.contains(TaskId(mods@[b as int].dependencies@[k] as u64)));
            } else {
                let x = choose|x: int| 0 <= x < conns@.len() && (#[trigger] conns@[x]).from_module == mods@[a].id
                    && conns@[x].to_module == mods@[b as int].id;
                assert(out@.contains(TaskId(conns@[x].from_module as u64)));
            }
        }
    }
    out
}

/// Turns a valid workflow into tasks, added in topological order: one task
/// per module, with the module's id as task id, a single-rank context, the
/// module's priority, and its prerequisites as dependencies.
pub fn build_tasks(spec: &WorkflowSpec, order: &Vec<usize>, max_concurrent: usize) -> (r: TaskExecutor)
    requires
        valid_workflow(*spec),
        is_topological_order(spec.modules@, spec.connections@, order@),
    ensures
        r.wf(),
        r.results().len() == 0,
        r.graph().max_concurrent() == max_concurrent,
        r.graph().tasks().len() == order@.len(),
        forall|k: int| 0 <= k < order@.len() ==> (#[trigger] r.graph().tasks()[k]).id
            == module_task_id(spec.modules@[order@[k] as int].id),
        forall|k: int| 0 <= k < order@.len()
            ==> is_module_task(spec.modules@, spec.connections@, order@[k] as int, #[trigger] r.graph().tasks()[k]),
{
    let mods = &spec.modules;
    let conns = &spec.connections;
    let mut exec = TaskExecutor::new(max_concurrent);
    let n = order.len();
    let nm = mods.len();
    let mut k: usize = 0;
    while k < n
        invariant
            nm == mods@.len(),
            n == order@.len(),
            0 <= k <= n,
            valid_workflow(*spec),
            mods@ == spec.modules@,
            conns@ == spec.connections@,
            is_topological_order(mods@, conns@, order@),
            exec.wf(),
            exec.results().len() == 0,
            exec.graph().max_concurrent() == max_concurrent,
            exec.graph().tasks().len() == k,
            forall|x: int| 0 <= x < k ==> (#[trigger] exec.graph().tasks()[x]).id == module_task_id(mods@[order@[x] as int].id),
            forall|x: int| 0 <= x < k ==> is_module_task(mods@, conns@, order@[x] as int, #[trigger] exec.graph().tasks()[x]),
            forall|x: int| 0 <= x < k ==> (#[trigger] exec.graph().tasks()[x]).status != TaskStatus::Completed,
        decreases n - k,
    {
        let b = order[k];
        let m = &mods[b];
        let deps = prerequisite_ids(mods, conns, b);
        let ctx = ComputeContext::new(m.id, 0, 1);
        let task = Task {
            id: TaskId(m.id as u64),
            context: ctx,
            dependencies: deps,
            status: TaskStatus::Pending,
            priority: m.priority,
        };
        proof {
            let ts = exec.graph().tasks();
            assert(!has_id(ts, task.id)) by {
                if has_id(ts, task.id) {
                    let x = choose|x: int| 0 <= x < ts.len() && (#[trigger] ts[x]).id == task.id;
                    assert(mods@[order@[x] as int].id == mods@[b as int].id);
                    assert(order@[x] != order@[k as int]);
                    let p = order@[x] as int;
                    if p < b {
                        assert(mods@[p].id != mods@[b as int].id);
                    } else {
                        assert(mods@[b as int].id != mods@[p].id);
                    }
                }
            }
            assert forall|j: int| 0 <= j < task.dependencies@.len() implies has_id(ts, #[trigger] task.dependencies@[j])
                && task.dependencies@[j] != task.id by {
                assert(is_prerequisite_id(mods@, conns@, b as int, task.dependencies@[j]));
                let a = choose|a: int| 0 <= a < mods@.len()
                    && #[trigger] edge(mods@, conns@, a, b as int) && task.dependencies@[j] == module_task_id(mods@[a].id);
                assert(order@.contains(a as usize));
                let w = choose|w: int| 0 <= w < order@.len() && #[trigger] order@[w] == a as usize;
                if w >= k {
                    assert(!edge(mods@, conns@, order@[w] as int, order@[k as int] as int));
                }
                assert(ts[w].id == module_task_id(mods@[a].id));
                if a != b {
                    if a < b {
                        assert(mods@[a].id != mods@[b as int].id);
                    } else {
                        assert(mods@[b as int].id != mods@[a].id);
                    }
                }
            }
            assert(!task.dependencies@.contains(task.id));
            assert(ts.len() < usize::MAX);
        }
        let ghost ts0 = exec.graph().tasks();
        let ghost t0 = task;
        let res = exec.add_task(task);
        assert(res is Ok);
        proof {
            assert(deps_completed(ts0, t0) == (t0.dependencies@.len() == 0)) by {
                if t0.dependencies@.len() > 0 {
                    if id_completed(ts0, t0.dependencies@[0]) {
                        let w = choose|w: int| 0 <= w < ts0.len() && (#[trigger] ts0[w]).id == t0.dependencies@[0]
                            && ts0[w].status == TaskStatus::Completed;
                    }
                }
            }
            let nt = exec.graph().tasks()[k as int];
            assert(nt == with_status(t0, if t0.dependencies@.len() == 0 { TaskStatus::Ready } else { TaskStatus::Pending }));
            assert forall|id: TaskId| nt.dependencies@.contains(id) <==> #[trigger] is_prerequisite_id(mods@, conns@, b as int, id) by {
                if is_prerequisite_id(mods@, conns@, b as int, id) {
                    let a = choose|a: int| 0 <= a < mods@.len() && #[trigger] edge(mods@, conns@, a, b as int)
                        && id == module_task_id(mods@[a].id);
                }
                if nt.dependencies@.contains(id) {
                    let j = choose|j: int| 0 <= j < nt.dependencies@.len() && nt.dependencies@[j] == id;
                }
            }
            assert(is_module_task(mods@, conns@, b as int, nt));
            assert forall|x: int| 0 <= x < k + 1 implies is_module_task(mods@, conns@, order@[x] as int, #[trigger] exec.graph().tasks()[x])
                && exec.graph().tasks()[x].status != TaskStatus::Completed by {
                if x < k {
                    assert(exec.graph().tasks()[x] == ts0[x]);
                }
            }
        }
        k += 1;
    }
    exec
}

/// The sample pipeline: a reader (1), an isosurface filter (2) fed by it,
/// and a renderer (3) fed by the filter.
pub fn create_sample_workflow() -> (r: WorkflowSpec)
    ensures
        r.modules@.len() == 3,
        r.modules@[0].id == 1 && r.modules@[1].id == 2 && r.modules@[2].id == 3,
        r.modules@[0].dependencies@ == Seq::<u32>::empty(),
        r.modules@[1].dependencies@ == seq![1u32],
        r.modules@[2].dependencies@ == seq![2u32],
        r.connections@.len() == 2,
        r.connections@[0].from_module == 1 && r.connections@[0].to_module == 2,
        r.connections@[1].from_module == 2 && r.connections@[1].to_module == 3,
        r.connections@[0].from_port@ == "data_out"@ && r.connections@[0].to_port@ == "data_in"@,
        r.connections@[1].from_port@ == "surface_out"@ && r.connections@[1].to_port@ == "geometry_in"@,
        r.modules@[0].module_type@ == "DataReader"@ && r.modules@[1].module_type@ == "IsoSurface"@
            && r.modules@[2].module_type@ == "Renderer"@,
        attribute_of(r.modules@[0].parameters@, "filename"@) == Some("sample_data.vtk"@),
        attribute_of(r.modules@[0].parameters@, "format"@) == Some("VTK"@),
        attribute_of(r.modules@[1].parameters@, "iso_value"@) == Some("0.5"@),
        r.modules@[2].parameters@.len() == 0,
        valid_workflow(r),
{
    let w0 = WorkflowBuilder::new("sample_workflow", "Sample Scientific Visualization")
        .description("Demonstrates a complete data processing pipeline");
    proof {
        reveal_strlit("filename");
        reveal_strlit("format");
        assert("filename"@ != "format"@) by {
            assert("filename"@.len() != "format"@.len());
        }
    }
    let m1 = w0.add_module("DataReader", "Load Data").parameter("filename", "sample_data.vtk").parameter("format", "VTK");
    assert(m1.builder().spec().modules@.len() == 1);
    let m2 = m1.add_module("IsoSurface", "Extract Surface").parameter("iso_value", "0.5").depends_on(1);
    assert(m2.builder().spec().modules@.drop_last() == m1.builder().spec().modules@);
    let m3 = m2.add_module("Renderer", "Render Results").depends_on(2);
    assert(m3.builder().spec().modules@.drop_last() == m2.builder().spec().modules@);
    let r = m3.connect(1, "data_out", 2, "data_in").connect(2, "surface_out", 3, "geometry_in").build();
    proof {
        let ms = r.modules@;
        assert(ms.len() == 3);
        assert(ms.drop_last() == m2.builder().spec().modules@);
        assert(ms[0] == m1.builder().spec().modules@[0]);
        assert(ms[1] == m2.builder().spec().modules@[1]);
        assert(ms[2] == m3.builder().spec().modules@.last());
        assert(r.connections@.len() == 2);
        assert(r.connections@.drop_last() =~= seq![r.connections@[0]]);
    }
    proof {
        let mods = r.modules@;
        let conns = r.connections@;
        assert(module_ids_unique(mods));
        assert(dependencies_known(mods)) by {
            assert forall|b: int, j: int| 0 <= b < mods.len() && 0 <= j < mods[b].dependencies@.len()
                implies has_module(mods, #[trigger] mods[b].dependencies@[j]) by {
                if b == 1 {
                    assert(mods[0].id == mods[b].dependencies@[j]);
                } else if b == 2 {
                    assert(mods[1].id == mods[b].dependencies@[j]);
                }
            }
        }
        assert(endpoints_known(mods, conns)) by {
            assert forall|c: int| 0 <= c < conns.len() implies has_module(mods, (#[trigger] conns[c]).from_module)
                && has_module(mods, conns[c].to_module) by {
                if c == 0 {
                    assert(mods[0].id == conns[c].from_module);
                    assert(mods[1].id == conns[c].to_module);
                } else {
                    assert(mods[1].id == conns[c].from_module);
                    assert(mods[2].id == conns[c].to_module);
                }
            }
        }
        let order = seq![0usize, 1usize, 2usize];
        assert(is_topological_order(mods, conns, order)) by {
            assert forall|x: int| 0 <= x < mods.len() implies #[trigger] order.contains(x as usize) by {
                assert(order[x] == x as usize);
            }
            assert forall|i: int, j: int| 0 <= i <= j < order.len()
                implies !edge(mods, conns, #[trigger] order[j] as int, #[trigger] order[i] as int) by {
                let a = order[j] as int;
                let b = order[i] as int;
                if mods[b].dependencies@.contains(mods[a].id) {
                    let k = choose|k: int| 0 <= k < mods[b].dependencies@.len() && mods[b].dependencies@[k] == mods[a].id;
                }
                if exists|c: int| 0 <= c < conns.len() && (#[trigger] conns[c]).from_module == mods[a].id
                    && conns[c].to_module == mods[b].id {
                    let c = choose|c: int| 0 <= c < conns.len() && (#[trigger] conns[c]).from_module == mods[a].id
                        && conns[c].to_module == mods[b].id;
                }
            }
        }
    }
    r
}

impl WorkflowSpec {
    pub fn new(id: &str, name: &str) -> (r: Self)
        ensures
            r.id@ == id@ && r.name@ == name@ && r.description@.len() == 0,
            r.modules@.len() == 0 && r.connections@.len() == 0,
    {
        WorkflowSpec {
            id: id.to_string(),
            name: name.to_string(),
            description: String::new(),
            modules: Vec::new(),
            connections: Vec::new(),
        }
    }

    pub fn with_description(self, desc: &str) -> (r: Self)
        ensures
            r.description@ == desc@,
            r.id == self.id && r.name == self.name,
            r.modules@ == self.modules@ && r.connections@ == self.connections@,
    {
        WorkflowSpec { description: desc.to_string(), ..self }
    }

    pub fn add_module(self, module: ModuleSpec) -> (r: Self)
        ensures
            r.modules@ == self.modules@.push(module),
            r.id == self.id && r.name == self.name && r.description == self.description,
            r.connections@ == self.connections@,
    {
        let mut s = self;
        s.modules.push(module);
        s
    }

    pub fn add_connection(self, connection: ConnectionSpec) -> (r: Self)
        ensures
            r.connections@ == self.connections@.push(connection),
            r.id == self.id && r.name == self.name && r.description == self.description,
            r.modules@ == self.modules@,
    {
        let mut s = self;
        s.connections.push(connection);
        s
    }
}

impl ModuleSpec {
    /// A module of normal priority without parameters or dependencies.
    pub fn new(id: u32, module_type: &str, name: &str) -> (r: Self)
        ensures
            r.id == id && r.module_type@ == module_type@ && r.name@ == name@,
            r.parameters@.len() == 0 && r.dependencies@.len() == 0,
            r.priority == TaskPriority::Normal,
    {
        ModuleSpec {
            id,
            module_type: module_type.to_string(),
            name: name.to_string(),
            parameters: Vec::new(),
            dependencies: Vec::new(),
            priority: TaskPriority::Normal,
        }
    }

    /// Sets parameter `name` to `value`, replacing an earlier value.
    pub fn with_parameter(self, name: &str, value: &str) -> (r: Self)
        ensures
            attribute_of(r.parameters@, name@) == Some(value@),
            forall|k: Seq<char>| k != name@ ==> attribute_of(r.parameters@, k) == attribute_of(self.parameters@, k),
            r.id == self.id && r.dependencies@ == self.dependencies@ && r.priority == self.priority,
            r.module_type == self.module_type && r.name == self.name,
    {
        let mut s = self;
        upsert_pair(&mut s.parameters, name.to_string(), value.to_string());
        s
    }

    pub fn depends_on(self, module_id: u32) -> (r: Self)
        ensures
            r.dependencies@ == self.dependencies@.push(module_id),
            r.id == self.id && r.parameters@ == self.parameters@ && r.priority == self.priority,
            r.module_type == self.module_type && r.name == self.name,
    {
        let mut s = self;
        s.dependencies.push(module_id);
        s
    }

    pub fn with_priority(self, priority: TaskPriority) -> (r: Self)
        ensures
            r.priority == priority,
            r.id == self.id && r.parameters@ == self.parameters@ && r.dependencies@ == self.dependencies@,
            r.module_type == self.module_type && r.name == self.name,
    {
        ModuleSpec { priority, ..self }
    }
}

/// Fluent construction of a workflow; module ids are numbered from 1.
pub struct WorkflowBuilder {
    spec: WorkflowSpec,
    next_module_id: u32,
}

/// Configuration of the module just added to a workflow builder.
pub struct ModuleBuilder {
    workflow_builder: WorkflowBuilder,
    module_id: u32,
}

impl WorkflowBuilder {
    pub closed spec fn spec(&self) -> WorkflowSpec {
        self.spec
    }

    pub closed spec fn next_id(&self) -> u32 {
        self.next_module_id
    }

    pub fn new(id: &str, name: &str) -> (r: Self)
        ensures
            r.spec().id@ == id@ && r.spec().name@ == name@,
            r.spec().modules@.len() == 0 && r.spec().connections@.len() == 0,
            r.next_id() == 1,
    {
        WorkflowBuilder { spec: WorkflowSpec::new(id, name), next_module_id: 1 }
    }

    pub fn description(self, desc: &str) -> (r: Self)
        ensures
            r.spec().description@ == desc@,
            r.spec().modules@ == self.spec().modules@,
            r.spec().connections@ == self.spec().connections@,
            r.next_id() == self.next_id(),
    {
        WorkflowBuilder { spec: self.spec.with_description(desc), next_module_id: self.next_module_id }
    }

    /// Appends a module with the next id; ids wrap after `u32::MAX`.
    pub fn add_module(self, module_type: &str, name: &str) -> (r: ModuleBuilder)
        ensures
            r.configures_last(),
            r.module_id() == self.next_id(),
            r.builder().next_id() == self.next_id().wrapping_add(1),
            r.builder().spec().modules@.len() == self.spec().modules@.len() + 1,
            r.builder().spec().modules@.drop_last() == self.spec().modules@,
            r.builder().spec().modules@.last().id == self.next_id(),
            r.builder().spec().modules@.last().module_type@ == module_type@,
            r.builder().spec().modules@.last().name@ == name@,
            r.builder().spec().modules@.last().dependencies@.len() == 0,
            r.builder().spec().connections@ == self.spec().connections@,
            r.builder().spec().modules@.last().parameters@.len() == 0,
            r.builder().spec().modules@.last().priority == TaskPriority::Normal,
    {
        let module_id = self.next_module_id;
        let spec = self.spec.add_module(ModuleSpec::new(module_id, module_type, name));
        let b = WorkflowBuilder { spec, next_module_id: module_id.wrapping_add(1) };
        assert(b.spec.modules@.drop_last() =~= self.spec.modules@);
        ModuleBuilder { workflow_builder: b, module_id }
    }

    pub fn connect(self, from: u32, from_port: &str, to: u32, to_port: &str) -> (r: Self)
        ensures
            r.spec().connections@.len() == self.spec().connections@.len() + 1,
            r.spec().connections@.drop_last() == self.spec().connections@,
            r.spec().connections@.last().from_module == from,
            r.spec().connections@.last().to_module == to,
            r.spec().connections@.last().from_port@ == from_port@,
            r.spec().connections@.last().to_port@ == to_port@,
            r.spec().modules@ == self.spec().modules@,
            r.next_id() == self.next_id(),
            r.spec().id == self.spec().id && r.spec().name == self.spec().name,
            r.spec().description == self.spec().description,
    {
        let c = ConnectionSpec {
            from_module: from,
            from_port: from_port.to_string(),
            to_module: to,
            to_port: to_port.to_string(),
        };
        let r = WorkflowBuilder { spec: self.spec.add_connection(c), next_module_id: self.next_module_id };
        assert(r.spec.connections@.drop_last() =~= self.spec.connections@);
        r
    }

    pub fn build(self) -> (r: WorkflowSpec)
        ensures
            r == self.spec(),
    {
        self.spec
    }
}

impl ModuleBuilder {
    pub closed spec fn builder(&self) -> WorkflowBuilder {
        self.workflow_builder
    }

    pub closed spec fn module_id(&self) -> u32 {
        self.module_id
    }

    /// The last module, when it is the one being configured.
    pub closed spec fn configures_last(&self) -> bool {
        self.workflow_builder.spec.modules@.len() > 0
            && self.workflow_builder.spec.modules@.last().id == self.module_id
    }

    /// Sets a parameter of the module being configured.
    pub fn parameter(self, name: &str, value: &str) -> (r: Self)
        ensures
            r.configures_last() == self.configures_last(),
            self.configures_last() ==> r.builder().spec().modules@.last().id == self.builder().spec().modules@.last().id,
            r.module_id() == self.module_id(),
            r.builder().next_id() == self.builder().next_id(),
            r.builder().spec().modules@.len() == self.builder().spec().modules@.len(),
            r.builder().spec().connections@ == self.builder().spec().connections@,
            self.configures_last() ==> attribute_of(r.builder().spec().modules@.last().parameters@, name@) == Some(value@),
            self.configures_last() ==> r.builder().spec().modules@.last().dependencies@
                == self.builder().spec().modules@.last().dependencies@,
            self.configures_last() ==> r.builder().spec().modules@.drop_last() == self.builder().spec().modules@.drop_last(),
            !self.configures_last() ==> r.builder().spec().modules@ == self.builder().spec().modules@,
            self.configures_last() ==> forall|k: Seq<char>| k != name@ ==> attribute_of(r.builder().spec().modules@.last().parameters@, k)
                == attribute_of(self.builder().spec().modules@.last().parameters@, k),
            self.configures_last() ==> r.builder().spec().modules@.last().module_type == self.builder().spec().modules@.last().module_type && r.builder().spec().modules@.last().name == self.builder().spec().modules@.last().name
                && r.builder().spec().modules@.last().priority == self.builder().spec().modules@.last().priority,
    {
        let mut s = self;
        let n = s.workflow_builder.spec.modules.len();
        if n > 0 && s.workflow_builder.spec.modules[n - 1].id == s.module_id {
            let ghost before = s.workflow_builder.spec.modules@;
            upsert_pair(&mut s.workflow_builder.spec.modules[n - 1].parameters, name.to_string(), value.to_string());
            assert(s.workflow_builder.spec.modules@.drop_last() =~= before.drop_last());
        }
        s
    }

    /// Sets the priority of the module being configured.
    pub fn priority(self, priority: TaskPriority) -> (r: Self)
        ensures
            r.configures_last() == self.configures_last(),
            self.configures_last() ==> r.builder().spec().modules@.last().id == self.builder().spec().modules@.last().id,
            r.module_id() == self.module_id(),
            r.builder().next_id() == self.builder().next_id(),
            r.builder().spec().modules@.len() == self.builder().spec().modules@.len(),
            r.builder().spec().connections@ == self.builder().spec().connections@,
            self.configures_last() ==> r.builder().spec().modules@.last().priority == priority,
            self.configures_last() ==> r.builder().spec().modules@.last().dependencies@
                == self.builder().spec().modules@.last().dependencies@,
            self.configures_last() ==> r.builder().spec().modules@.drop_last() == self.builder().spec().modules@.drop_last(),
            !self.configures_last() ==> r.builder().spec().modules@ == self.builder().spec().modules@,
            self.configures_last() ==> r.builder().spec().modules@.last().module_type == self.builder().spec().modules@.last().module_type && r.builder().spec().modules@.last().name == self.builder().spec().modules@.last().name
                && r.builder().spec().modules@.last().parameters@ == self.builder().spec().modules@.last().parameters@,
    {
        let mut s = self;
        let n = s.workflow_builder.spec.modules.len();
        if n > 0 && s.workflow_builder.spec.modules[n - 1].id == s.module_id {
            let ghost before = s.workflow_builder.spec.modules@;
            s.workflow_builder.spec.modules[n - 1].priority = priority;
            assert(s.workflow_builder.spec.modules@.drop_last() =~= before.drop_last());
        }
        s
    }

    /// Adds a dependency to the module being configured.
    pub fn depends_on(self, dependency_id: u32) -> (r: Self)
        ensures
            r.configures_last() == self.configures_last(),
            self.configures_last() ==> r.builder().spec().modules@.last().id == self.builder().spec().modules@.last().id,
            r.module_id() == self.module_id(),
            r.builder().next_id() == self.builder().next_id(),
            r.builder().spec().modules@.len() == self.builder().spec().modules@.len(),
            r.builder().spec().connections@ == self.builder().spec().connections@,
            self.configures_last() ==> r.builder().spec().modules@.last().dependencies@
                == self.builder().spec().modules@.last().dependencies@.push(dependency_id),
            self.configures_last() ==> r.builder().spec().modules@.last().id == self.module_id(),
            self.configures_last() ==> r.builder().spec().modules@.drop_last() == self.builder().spec().modules@.drop_last(),
            !self.configures_last() ==> r.builder().spec().modules@ == self.builder().spec().modules@,
            self.configures_last() ==> r.builder().spec().modules@.last().module_type == self.builder().spec().modules@.last().module_type && r.builder().spec().modules@.last().name == self.builder().spec().modules@.last().name
                && r.builder().spec().modules@.last().parameters@ == self.builder().spec().modules@.last().parameters@ && r.builder().spec().modules@.last().priority == self.builder().spec().modules@.last().priority,
    {
        let mut s = self;
        let n = s.workflow_builder.spec.modules.len();
        if n > 0 && s.workflow_builder.spec.modules[n - 1].id == s.module_id {
            let ghost before = s.workflow_builder.spec.modules@;
            s.workflow_builder.spec.modules[n - 1].dependencies.push(dependency_id);
            assert(s.workflow_builder.spec.modules@.drop_last() =~= before.drop_last());
        }
        s
    }

    /// Finishes this module and appends the next one.
    pub fn add_module(self, module_type: &str, name: &str) -> (r: ModuleBuilder)
        ensures
            r.configures_last(),
            r.builder().next_id() == self.builder().next_id().wrapping_add(1),
            r.builder().spec().modules@.last().dependencies@.len() == 0,
            r.module_id() == self.builder().next_id(),
            r.builder().spec().modules@.drop_last() == self.builder().spec().modules@,
            r.builder().spec().modules@.last().id == self.builder().next_id(),
            r.builder().spec().modules@.last().module_type@ == module_type@,
            r.builder().spec().connections@ == self.builder().spec().connections@,
            r.builder().spec().modules@.last().name@ == name@,
            r.builder().spec().modules@.last().parameters@.len() == 0,
            r.builder().spec().modules@.last().priority == TaskPriority::Normal,
    {
        self.workflow_builder.add_module(module_type, name)
    }

    /// Finishes this module and adds a connection.
    pub fn connect(self, from: u32, from_port: &str, to: u32, to_port: &str) -> (r: WorkflowBuilder)
        ensures
            r.spec().modules@ == self.builder().spec().modules@,
            r.spec().connections@.len() == self.builder().spec().connections@.len() + 1,
            r.spec().connections@.drop_last() == self.builder().spec().connections@,
            r.spec().connections@.last().from_module == from,
            r.spec().connections@.last().to_module == to,
            r.spec().connections@.last().from_port@ == from_port@,
            r.spec().connections@.last().to_port@ == to_port@,
            r.next_id() == self.builder().next_id(),
            r.spec().id == self.builder().spec().id && r.spec().name == self.builder().spec().name,
            r.spec().description == self.builder().spec().description,
    {
        self.workflow_builder.connect(from, from_port, to, to_port)
    }

    pub fn build(self) -> (r: WorkflowSpec)
        ensures
            r == self.builder().spec(),
    {
        self.workflow_builder.build()
    }
}

/// Lifecycle of a workflow.
#[derive(Debug, Clone, Copy, PartialEq, Eq, Structural)]
pub enum WorkflowStatus {
    Pending,
    Running,
    Completed,
    Failed,
    Cancelled,
}

pub open spec fn is_terminal(s: WorkflowStatus) -> bool {
    s == WorkflowStatus::Completed || s == WorkflowStatus::Failed || s == WorkflowStatus::Cancelled
}

/// The outcome of one workflow run.
#[derive(Debug, Clone)]
pub struct WorkflowResult {
    pub workflow_id: String,
    pub success: bool,
    pub task_results: Vec<TaskResult>,
    /// Wall time of the run, in nanoseconds.
    pub execution_time_ns: u64,
    /// Why the run failed as a whole, if it did: its timeout fired.
    pub error: Option<WorkflowError>,
}

/// What the executor keeps of a workflow.
#[derive(Debug, Clone)]
pub struct WorkflowState {
    pub id: String,
    pub status: WorkflowStatus,
    pub start_time_ns: u64,
    pub tasks_completed: usize,
    pub tasks_total: usize,
    /// Whether its timeout fired.
    pub timed_out: bool,
}

/// Number of successful results.
pub open spec fn count_succeeded(rs: Seq<TaskResult>) -> nat
    decreases rs.len(),
{
    if rs.len() == 0 {
        0
    } else {
        count_succeeded(rs.drop_last()) + if rs.last().success { 1nat } else { 0nat }
    }
}

/// Every result is successful.
pub open spec fn all_succeeded(rs: Seq<TaskResult>) -> bool {
    forall|i: int| 0 <= i < rs.len() ==> (#[trigger] rs[i]).success
}

/// The states of the workflows known to an executor, keyed by workflow id.
pub struct WorkflowExecutor {
    workflows: Vec<WorkflowState>,
    max_concurrent: usize,
}

impl WorkflowExecutor {
    pub closed spec fn states(&self) -> Seq<WorkflowState> {
        self.workflows@
    }

    pub closed spec fn max_concurrent(&self) -> usize {
        self.max_concurrent
    }

    /// The state of workflow `id`, if known.
    pub open spec fn state_of(&self, id: Seq<char>) -> Option<WorkflowState> {
        if exists|k: int| 0 <= k < self.states().len() && (#[trigger] self.states()[k]).id@ == id {
            Some(self.states()[choose|k: int| 0 <= k < self.states().len() && (#[trigger] self.states()[k]).id@ == id])
        } else {
            None
        }
    }

    /// Workflow ids are unique.
    pub closed spec fn wf(&self) -> bool {
        forall|a: int, b: int| 0 <= a < b < self.workflows@.len()
            ==> (#[trigger] self.workflows@[a]).id@ != (#[trigger] self.workflows@[b]).id@
    }

    proof fn lemma_state_at(&self, k: int)
        requires
            self.wf(),
            0 <= k < self.states().len(),
        ensures
            self.state_of(self.states()[k].id@) == Some(self.states()[k]),
    {
        let id = self.states()[k].id@;
        let c = choose|c: int| 0 <= c < self.states().len() && (#[trigger] self.states()[c]).id@ == id;
        if c != k {
            if c < k {
                assert(self.workflows@[c].id@ != self.workflows@[k].id@);
            } else {
                assert(self.workflows@[k].id@ != self.workflows@[c].id@);
            }
        }
    }

    pub fn new(max_concurrent: usize) -> (r: Self)
        ensures
            r.wf(),
            r.states().len() == 0,
            r.max_concurrent() == max_concurrent,
    {
        WorkflowExecutor { workflows: Vec::new(), max_concurrent }
    }

    fn position(&self, id: &str) -> (r: Option<usize>)
        requires
            self.wf(),
        ensures
            r matches Some(k) ==> k < self.states().len() && self.states()[k as int].id@ == id@
                && self.state_of(id@) == Some(self.states()[k as int]),
            r is None <==> self.state_of(id@) is None,
    {
        let n = self.workflows.len();
        let mut k: usize = 0;
        while k < n
            invariant
                self.wf(),
                n == self.workflows@.len(),
                0 <= k <= n,
                forall|x: int| 0 <= x < k ==> (#[trigger] self.workflows@[x]).id@ != id@,
            decreases n - k,
        {
            if string_eq(&self.workflows[k].id, id) {
                proof {
                    self.lemma_state_at(k as int);
                }
                return Some(k);
            }
            k += 1;
        }
        None
    }

    pub fn workflow_status(&self, id: &str) -> (r: Option<WorkflowStatus>)
        requires
            self.wf(),
        ensures
            r == match self.state_of(id@) {
                Some(s) => Some(s.status),
                None => None::<WorkflowStatus>,
            },
    {
        match self.position(id) {
            Some(k) => Some(self.workflows[k].status),
            None => None,
        }
    }

    /// Ids of all known workflows.
    pub fn active_workflows(&self) -> (r: Vec<String>)
        ensures
            r@.len() == self.states().len(),
            forall|k: int| 0 <= k < r@.len() ==> (#[trigger] r@[k])@ == self.states()[k].id@,
    {
        let n = self.workflows.len();
        let mut out: Vec<String> = Vec::new();
        let mut k: usize = 0;
        while k < n
            invariant
                n == self.workflows@.len(),
                0 <= k <= n,
                out@.len() == k,
                forall|x: int| 0 <= x < k ==> (#[trigger] out@[x])@ == self.workflows@[x].id@,
            decreases n - k,
        {
            out.push(self.workflows[k].id.clone());
            k += 1;
        }
        out
    }

    /// Validates `spec`, records it as running, and returns its tasks ready
    /// to be scheduled. A state kept under the same id is replaced.
    pub fn begin_workflow(&mut self, spec: &WorkflowSpec, start_time_ns: u64) -> (r: Result<TaskExecutor, WorkflowError>)
        requires
            old(self).wf(),
        ensures
            final(self).wf(),
            final(self).max_concurrent() == old(self).max_concurrent(),
            r is Ok <==> valid_workflow(*spec),
            r is Err ==> *final(self) == *old(self),
            r matches Ok(exec) ==> exec.wf() && exec.results().len() == 0
                && exec.graph().tasks().len() == spec.modules@.len()
                && exec.graph().max_concurrent() == old(self).max_concurrent(),
            r matches Ok(exec) ==> exists|order: Seq<usize>| {
                &&& is_topological_order(spec.modules@, spec.connections@, order)
                &&& order.len() == exec.graph().tasks().len()
                &&& forall|k: int| 0 <= k < order.len()
                    ==> is_module_task(spec.modules@, spec.connections@, order[k] as int, #[trigger] exec.graph().tasks()[k])
            },
            r is Ok ==> final(self).state_of(spec.id@) == Some(WorkflowState {
                id: spec.id,
                status: WorkflowStatus::Running,
                start_time_ns,
                tasks_completed: 0,
                tasks_total: spec.modules@.len() as usize,
                timed_out: false,
            }),
            r is Err ==> final(self).state_of(spec.id@) == old(self).state_of(spec.id@),
    {
        let order = validate_workflow(spec)?;
        let nmods = spec.modules.len();
        proof {
            assert(forall|x: int| 0 <= x < spec.modules@.len() ==> #[trigger] order@.contains(x as usize));
            lemma_order_len(spec.modules@.len() as int, order@);
        }
        let exec = build_tasks(spec, &order, self.max_concurrent);
        let state = WorkflowState {
            id: spec.id.clone(),
            status: WorkflowStatus::Running,
            start_time_ns,
            tasks_completed: 0,
            tasks_total: spec.modules.len(),
            timed_out: false,
        };
        let ghost st = state;
        match self.position(spec.id.as_str()) {
            Some(k) => {
                self.workflows.set(k, state);
                proof {
                    assert forall|a: int, b: int| 0 <= a < b < self.workflows@.len()
                        implies (#[trigger] self.workflows@[a]).id@ != (#[trigger] self.workflows@[b]).id@ by {
                        assert(old(self).workflows@[a].id@ != old(self).workflows@[b].id@);
                    }
                    self.lemma_state_at(k as int);
                }
            },
            None => {
                self.workflows.push(state);
                proof {
                    assert forall|a: int, b: int| 0 <= a < b < self.workflows@.len()
                        implies (#[trigger] self.workflows@[a]).id@ != (#[trigger] self.workflows@[b]).id@ by {
                        if b == old(self).workflows@.len() {
                            assert(old(self).workflows@[a].id@ != spec.id@);
                        } else {
                            assert(old(self).workflows@[a].id@ != old(self).workflows@[b].id@);
                        }
                    }
                    self.lemma_state_at(old(self).workflows@.len() as int);
                }
            },
        }
        Ok(exec)
    }

    /// Records the results of a run and returns its outcome. The run
    /// succeeded when the workflow was still running and every task produced
    /// a successful result; the workflow then becomes completed, and failed
    /// otherwise. A workflow that already ended (cancelled, or failed by its
    /// timeout) keeps its status.
    pub fn finish_workflow(&mut self, id: &str, task_results: Vec<TaskResult>, execution_time_ns: u64) -> (r: WorkflowResult)
        requires
            old(self).wf(),
        ensures
            final(self).wf(),
            final(self).max_concurrent() == old(self).max_concurrent(),
            r.workflow_id@ == id@,
            r.task_results@ == task_results@,
            r.execution_time_ns == execution_time_ns,
            r.success == (old(self).state_of(id@) is Some
                && old(self).state_of(id@).unwrap().status == WorkflowStatus::Running
                && task_results@.len() == old(self).state_of(id@).unwrap().tasks_total
                && all_succeeded(task_results@)),
            r.success ==> task_results@.len() == old(self).state_of(id@).unwrap().tasks_total
                && all_succeeded(task_results@),
            old(self).state_of(id@) is None ==> *final(self) == *old(self),
            old(self).state_of(id@) matches Some(s) ==> (final(self).state_of(id@) matches Some(t)
                && t.status == (if is_terminal(s.status) {
                    s.status
                } else if r.success {
                    WorkflowStatus::Completed
                } else {
                    WorkflowStatus::Failed
                }) && t.tasks_total == s.tasks_total && t.start_time_ns == s.start_time_ns
                && t.tasks_completed == count_succeeded(task_results@)),
            r.error == if old(self).state_of(id@) matches Some(s) && s.timed_out {
                Some(WorkflowError::Timeout)
            } else {
                None::<WorkflowError>
            },
    {
        let n = task_results.len();
        let mut ok_count: usize = 0;
        let mut all_ok = true;
        let mut i: usize = 0;
        while i < n
            invariant
                n == task_results@.len(),
                0 <= i <= n,
                ok_count <= i,
                ok_count == count_succeeded(task_results@.take(i as int)),
                all_ok == forall|x: int| 0 <= x < i ==> (#[trigger] task_results@[x]).success,
            decreases n - i,
        {
            assert(task_results@.take(i + 1).drop_last() =~= task_results@.take(i as int));
            if task_results[i].success {
                ok_count += 1;
            } else {
                all_ok = false;
            }
            i += 1;
        }
        assert(task_results@.take(n as int) =~= task_results@);
        let mut error: Option<WorkflowError> = None;
        let success = match self.position(id) {
            Some(k) => {
                if self.workflows[k].timed_out {
                    error = Some(WorkflowError::Timeout);
                }
                let s = self.workflows[k].status;
                let success = s == WorkflowStatus::Running && n == self.workflows[k].tasks_total && all_ok;
                let status = if s == WorkflowStatus::Completed || s == WorkflowStatus::Failed || s == WorkflowStatus::Cancelled {
                    s
                } else if success {
                    WorkflowStatus::Completed
                } else {
                    WorkflowStatus::Failed
                };
                let old_state = self.workflows[k].clone_state();
                self.workflows.set(k, WorkflowState { status, tasks_completed: ok_count, ..old_state });
                proof {
                    assert forall|a: int, b: int| 0 <= a < b < self.workflows@.len()
                        implies (#[trigger] self.workflows@[a]).id@ != (#[trigger] self.workflows@[b]).id@ by {
                        assert(old(self).workflows@[a].id@ != old(self).workflows@[b].id@);
                    }
                    self.lemma_state_at(k as int);
                }
                success
            },
            None => false,
        };
        WorkflowResult { workflow_id: id.to_string(), success, task_results, execution_time_ns, error }
    }

    /// Marks a running workflow failed.
    pub fn fail_workflow(&mut self, id: &str) -> (r: bool)
        requires
            old(self).wf(),
        ensures
            final(self).wf(),
            final(self).max_concurrent() == old(self).max_concurrent(),
            r == (old(self).state_of(id@) matches Some(s) && !is_terminal(s.status)),
            !r ==> *final(self) == *old(self),
            r ==> (final(self).state_of(id@) matches Some(t) && t.status == WorkflowStatus::Failed),
    {
        self.set_status_if_live(id, WorkflowStatus::Failed, false)
    }

    /// Marks a running workflow failed because its timeout fired; its result
    /// then reports `Timeout`.
    pub fn time_out_workflow(&mut self, id: &str) -> (r: bool)
        requires
            old(self).wf(),
        ensures
            final(self).wf(),
            final(self).max_concurrent() == old(self).max_concurrent(),
            r == (old(self).state_of(id@) matches Some(s) && !is_terminal(s.status)),
            !r ==> *final(self) == *old(self),
            r ==> (final(self).state_of(id@) matches Some(t) && t.status == WorkflowStatus::Failed && t.timed_out),
    {
        self.set_status_if_live(id, WorkflowStatus::Failed, true)
    }

    /// Cancels a workflow. Cancelling a workflow that has already ended, or
    /// one that is not known, changes nothing and succeeds.
    pub fn cancel_workflow(&mut self, id: &str) -> (r: Result<(), WorkflowError>)
        requires
            old(self).wf(),
        ensures
            final(self).wf(),
            r is Ok,
            final(self).max_concurrent() == old(self).max_concurrent(),
            old(self).state_of(id@) matches Some(s) && is_terminal(s.status) ==> *final(self) == *old(self),
            old(self).state_of(id@) is None ==> *final(self) == *old(self),
            old(self).state_of(id@) matches Some(s) && !is_terminal(s.status)
                ==> (final(self).state_of(id@) matches Some(t) && t.status == WorkflowStatus::Cancelled),
    {
        self.set_status_if_live(id, WorkflowStatus::Cancelled, false);
        Ok(())
    }

    fn set_status_if_live(&mut self, id: &str, status: WorkflowStatus, timed_out: bool) -> (r: bool)
        requires
            old(self).wf(),
        ensures
            final(self).wf(),
            final(self).max_concurrent() == old(self).max_concurrent(),
            r == (old(self).state_of(id@) matches Some(s) && !is_terminal(s.status)),
            !r ==> *final(self) == *old(self),
            r ==> (final(self).state_of(id@) matches Some(t) && t.status == status
                && t.timed_out == (timed_out || old(self).state_of(id@).unwrap().timed_out)
                && t.tasks_total == old(self).state_of(id@).unwrap().tasks_total),
    {
        match self.position(id) {
            Some(k) => {
                let s = self.workflows[k].status;
                if s == WorkflowStatus::Completed || s == WorkflowStatus::Failed || s == WorkflowStatus::Cancelled {
                    return false;
                }
                let old_state = self.workflows[k].clone_state();
                let t = timed_out || old_state.timed_out;
                self.workflows.set(k, WorkflowState { status, timed_out: t, ..old_state });
                proof {
                    assert forall|a: int, b: int| 0 <= a < b < self.workflows@.len()
                        implies (#[trigger] self.workflows@[a]).id@ != (#[trigger] self.workflows@[b]).id@ by {
                        assert(old(self).workflows@[a].id@ != old(self).workflows@[b].id@);
                    }
                    self.lemma_state_at(k as int);
                }
                true
            },
            None => false,
        }
    }

    /// Forgets a workflow that has ended; returns whether it did.
    pub fn remove_workflow(&mut self, id: &str) -> (r: bool)
        requires
            old(self).wf(),
        ensures
            final(self).wf(),
            final(self).max_concurrent() == old(self).max_concurrent(),
            r == (old(self).state_of(id@) matches Some(s) && is_terminal(s.status)),
            !r ==> *final(self) == *old(self),
            r ==> final(self).state_of(id@) is None,
    {
        match self.position(id) {
            Some(k) => {
                let s = self.workflows[k].status;
                if !(s == WorkflowStatus::Completed || s == WorkflowStatus::Failed || s == WorkflowStatus::Cancelled) {
                    return false;
                }
                let ghost old_w = self.workflows@;
                self.workflows.remove(k);
                proof {
                    assert forall|a: int, b: int| 0 <= a < b < self.workflows@.len()
                        implies (#[trigger] self.workflows@[a]).id@ != (#[trigger] self.workflows@[b]).id@ by {
                        let a0 = if a < k { a } else { a + 1 };
                        let b0 = if b < k { b } else { b + 1 };
                        assert(old_w[a0].id@ != old_w[b0].id@);
                    }
                    assert forall|x: int| 0 <= x < self.workflows@.len() implies (#[trigger] self.workflows@[x]).id@ != id@ by {
                        let x0 = if x < k { x } else { x + 1 };
                        if x0 < k {
                            assert(old_w[x0].id@ != old_w[k as int].id@);
                        } else {
                            assert(old_w[k as int].id@ != old_w[x0].id@);
                        }
                    }
                }
                true
            },
            None => false,
        }
    }
}

/// A workflow run that `finish_workflow` reports successful, on a state
/// that `begin_workflow` recorded for `spec`, has exactly one result per
/// module, and every result is a success.
pub proof fn law_successful_run_covers_every_module(
    spec: WorkflowSpec,
    state: WorkflowState,
    results: Seq<TaskResult>,
    success: bool,
)
    requires
        state.tasks_total == spec.modules@.len(),
        success == (state.status == WorkflowStatus::Running && results.len() == state.tasks_total
            && all_succeeded(results)),
        success,
    ensures
        results.len() == spec.modules@.len(),
        forall|i: int| 0 <= i < results.len() ==> (#[trigger] results[i]).success,
{
}

impl WorkflowState {
    /// A copy of the state.
    pub fn clone_state(&self) -> (r: WorkflowState)
        ensures
            r.id@ == self.id@ && r.status == self.status && r.start_time_ns == self.start_time_ns,
            r.tasks_completed == self.tasks_completed && r.tasks_total == self.tasks_total,
            r.timed_out == self.timed_out,
    {
        WorkflowState {
            id: self.id.clone(),
            status: self.status,
            start_time_ns: self.start_time_ns,
            tasks_completed: self.tasks_completed,
            tasks_total: self.tasks_total,
            timed_out: self.timed_out,
        }
    }
}

/// A sequence of distinct positions that covers `0..n` has length `n`.
proof fn lemma_order_len(n: int, order: Seq<usize>)
    requires
        0 <= n <= usize::MAX,
        forall|x: int| 0 <= x < n ==> #[trigger] order.contains(x as usize),
        forall|i: int| 0 <= i < order.len() ==> (#[trigger] order[i]) < n,
        forall|i: int, j: int| 0 <= i < j < order.len() ==> (#[trigger] order[i]) != (#[trigger] order[j]),
    ensures
        order.len() == n,
{
    let s = order.to_set();
    order.unique_seq_to_set();
    assert(s =~= Set::new(|x: usize| 0 <= x < n)) by {
        assert forall|x: usize| s.contains(x) implies 0 <= x < n by {
            let i = choose|i: int| 0 <= i < order.len() && order[i] == x;
        }
        assert forall|x: usize| 0 <= x < n implies s.contains(x) by {
            assert(order.contains((x as int) as usize));
        }
    }
    lemma_range_set_len(n);
}

proof fn lemma_range_set_len(n: int)
    requires
        0 <= n <= usize::MAX,
    ensures
        Set::new(|x: usize| 0 <= x < n).finite(),
        Set::new(|x: usize| 0 <= x < n).len() == n,
    decreases n,
{
    if n == 0 {
        assert(Set::new(|x: usize| 0 <= x < n) =~= Set::<usize>::empty());
    } else {
        lemma_range_set_len(n - 1);
        assert(Set::new(|x: usize| 0 <= x < n) =~= Set::new(|x: usize| 0 <= x < n - 1).insert((n - 1) as usize));
        assert(!Set::new(|x: usize| 0 <= x < n - 1).contains((n - 1) as usize));
    }
}

} // verus!
