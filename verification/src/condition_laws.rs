//! What conditions decide: joining two of them, or cutting one off, changes no outcome.

use vstd::prelude::*;

use crate::condition_arcs::ShortModel;
use crate::condition_safety::{cut_node, cut_nodes, cut_target, truncated};
use crate::conditions::ConditionModel;
use crate::evidence::{ShortCircuitNode, ShortCircuitNodeRef, ShortCircuitTarget};
use crate::guards::{exit_block, joined, opposite, raised, side_to};
use crate::ids::BlockRef;

verus! {

/// Where a decision stands after `n` tests, when `truth` says how the test in each block
/// comes out. At an exit it stays.
pub open spec fn after(
    nodes: Seq<ShortCircuitNode>,
    at: ShortCircuitTarget,
    truth: spec_fn(BlockRef) -> bool,
    n: nat,
) -> ShortCircuitTarget
    decreases n,
{
    if n == 0 {
        at
    } else {
        tested(nodes, after(nodes, at, truth, (n - 1) as nat), truth)
    }
}

/// Where one more test leads.
pub open spec fn tested(
    nodes: Seq<ShortCircuitNode>,
    at: ShortCircuitTarget,
    truth: spec_fn(BlockRef) -> bool,
) -> ShortCircuitTarget {
    match at {
        ShortCircuitTarget::Node(i) => if i.0 < nodes.len() {
            if truth(nodes[i.0 as int].header) {
                nodes[i.0 as int].truthy
            } else {
                nodes[i.0 as int].falsy
            }
        } else {
            at
        },
        _ => at,
    }
}

/// The target is an exit or a node there is.
pub open spec fn target_exists(nodes: Seq<ShortCircuitNode>, t: ShortCircuitTarget) -> bool {
    match t {
        ShortCircuitTarget::Node(i) => i.0 < nodes.len(),
        _ => true,
    }
}

/// The expression starts at a node there is, and leads to such nodes only.
pub open spec fn is_closed(s: ShortModel) -> bool {
    &&& s.entry.0 < s.nodes.len()
    &&& forall|i: int| 0 <= i < s.nodes.len() ==> target_exists(s.nodes, (#[trigger] s.nodes[i]).truthy) && target_exists(s.nodes, s.nodes[i].falsy)
}

/// The decision has come to an end.
pub open spec fn is_exit(t: ShortCircuitTarget) -> bool {
    t == ShortCircuitTarget::TruthyExit || t == ShortCircuitTarget::FalsyExit
}

pub open spec fn start_of(s: ShortModel) -> ShortCircuitTarget {
    ShortCircuitTarget::Node(s.entry)
}

/// The tests one after the other.
proof fn after_composes(
    nodes: Seq<ShortCircuitNode>,
    at: ShortCircuitTarget,
    truth: spec_fn(BlockRef) -> bool,
    m: nat,
    n: nat,
)
    ensures
        after(nodes, at, truth, m + n) == after(nodes, after(nodes, at, truth, m), truth, n),
    decreases n,
{
    if n > 0 {
        after_composes(nodes, at, truth, m, (n - 1) as nat);
    }
}

proof fn exit_stays(nodes: Seq<ShortCircuitNode>, at: ShortCircuitTarget, truth: spec_fn(BlockRef) -> bool, n: nat)
    requires
        is_exit(at),
    ensures
        after(nodes, at, truth, n) == at,
    decreases n,
{
    if n > 0 {
        exit_stays(nodes, at, truth, (n - 1) as nat);
    }
}

proof fn after_exists(s: ShortModel, at: ShortCircuitTarget, truth: spec_fn(BlockRef) -> bool, n: nat)
    requires
        is_closed(s),
        target_exists(s.nodes, at),
    ensures
        target_exists(s.nodes, after(s.nodes, at, truth, n)),
    decreases n,
{
    if n > 0 {
        after_exists(s, at, truth, (n - 1) as nat);
        if let ShortCircuitTarget::Node(i) = after(s.nodes, at, truth, (n - 1) as nat) {
            assert(target_exists(s.nodes, s.nodes[i.0 as int].truthy));
        }
    }
}

/// Behind the nodes of the first condition, the second decides as it does alone.
proof fn second_part(
    root: ConditionModel,
    next: ConditionModel,
    at: ShortCircuitTarget,
    truth: spec_fn(BlockRef) -> bool,
    n: nat,
)
    requires
        joined(root, next) is Some,
        is_closed(next.s),
        root.s.nodes.len() + next.s.nodes.len() <= usize::MAX,
        target_exists(next.s.nodes, at),
    ensures
        after((joined(root, next)->0).s.nodes, raised(at, root.s.nodes.len() as usize), truth, n) == raised(
            after(next.s.nodes, at, truth, n),
            root.s.nodes.len() as usize,
        ),
    decreases n,
{
    if n > 0 {
        let m = joined(root, next)->0;
        let by = root.s.nodes.len() as usize;
        second_part(root, next, at, truth, (n - 1) as nat);
        after_exists(next.s, at, truth, (n - 1) as nat);
        let x = after(next.s.nodes, at, truth, (n - 1) as nat);
        if let ShortCircuitTarget::Node(i) = x {
            assert(m.s.nodes.len() == by + next.s.nodes.len());
            assert(m.s.nodes[by + i.0].header == next.s.nodes[i.0 as int].header);
            assert(m.s.nodes[by + i.0].truthy == raised(next.s.nodes[i.0 as int].truthy, by));
            assert(m.s.nodes[by + i.0].falsy == raised(next.s.nodes[i.0 as int].falsy, by));
        }
    }
}

/// How far the joined condition is when the first one has come to `x`.
spec fn keeps_up(
    root: ConditionModel,
    next: ConditionModel,
    truth: spec_fn(BlockRef) -> bool,
    x: ShortCircuitTarget,
    y: ShortCircuitTarget,
) -> bool {
    let on = side_to(root.s.exit, next.s.header)->0;
    let off = opposite(on);
    let last = side_to(next.s.exit, exit_block(root.s.exit, off))->0;
    if x == on {
        exists|j: nat| y == raised(#[trigger] after(next.s.nodes, start_of(next.s), truth, j), root.s.nodes.len() as usize)
    } else if x == off {
        y == last
    } else {
        y == x
    }
}

proof fn first_part(root: ConditionModel, next: ConditionModel, truth: spec_fn(BlockRef) -> bool, n: nat)
    requires
        joined(root, next) is Some,
        is_closed(root.s),
        is_closed(next.s),
        root.s.nodes.len() + next.s.nodes.len() <= usize::MAX,
    ensures
        keeps_up(
            root,
            next,
            truth,
            after(root.s.nodes, start_of(root.s), truth, n),
            after((joined(root, next)->0).s.nodes, start_of(root.s), truth, n),
        ),
    decreases n,
{
    let m = joined(root, next)->0;
    let by = root.s.nodes.len() as usize;
    if n > 0 {
        let on = side_to(root.s.exit, next.s.header)->0;
        let off = opposite(on);
        first_part(root, next, truth, (n - 1) as nat);
        after_exists(root.s, start_of(root.s), truth, (n - 1) as nat);
        let x = after(root.s.nodes, start_of(root.s), truth, (n - 1) as nat);
        let y = after(m.s.nodes, start_of(root.s), truth, (n - 1) as nat);
        let x1 = after(root.s.nodes, start_of(root.s), truth, n);
        let y1 = after(m.s.nodes, start_of(root.s), truth, n);
        if x == on {
            let j = choose|j: nat| y == raised(#[trigger] after(next.s.nodes, start_of(next.s), truth, j), by);
            second_part(root, next, start_of(next.s), truth, j);
            second_part(root, next, start_of(next.s), truth, j + 1);
            assert(after(m.s.nodes, raised(start_of(next.s), by), truth, j + 1) == tested(m.s.nodes, y, truth));
            assert(y1 == raised(after(next.s.nodes, start_of(next.s), truth, j + 1), by));
        } else if let ShortCircuitTarget::Node(i) = x {
            assert(m.s.nodes[i.0 as int].header == root.s.nodes[i.0 as int].header);
            if x1 == on {
                assert(after(next.s.nodes, start_of(next.s), truth, 0) == start_of(next.s));
                assert(y1 == raised(after(next.s.nodes, start_of(next.s), truth, 0), by));
            }
        }
    }
}

/// Two conditions that are joined decide as they do one after the other. Where the first
/// leads to the second, the second has the last word; where it does not, the way goes on to
/// the block to which the first leads.
pub proof fn joining_changes_no_outcome(
    root: ConditionModel,
    next: ConditionModel,
    truth: spec_fn(BlockRef) -> bool,
    n: nat,
    k: nat,
)
    requires
        joined(root, next) is Some,
        is_closed(root.s),
        is_closed(next.s),
        root.s.nodes.len() + next.s.nodes.len() <= usize::MAX,
        is_exit(after(root.s.nodes, start_of(root.s), truth, n)),
        is_exit(after(next.s.nodes, start_of(next.s), truth, k)),
    ensures
        ({
            let m = (joined(root, next)->0).s;
            let first = after(root.s.nodes, start_of(root.s), truth, n);
            let second = after(next.s.nodes, start_of(next.s), truth, k);
            let whole = after(m.nodes, start_of(m), truth, n + k);
            &&& is_exit(whole)
            &&& exit_block(m.exit, whole) == (if Some(first) == side_to(root.s.exit, next.s.header) {
                exit_block(next.s.exit, second)
            } else {
                exit_block(root.s.exit, first)
            })
        }),
{
    let m = (joined(root, next)->0).s;
    let by = root.s.nodes.len() as usize;
    let on = side_to(root.s.exit, next.s.header)->0;
    let first = after(root.s.nodes, start_of(root.s), truth, n);
    let second = after(next.s.nodes, start_of(next.s), truth, k);
    let y = after(m.nodes, start_of(root.s), truth, n);
    first_part(root, next, truth, n);
    after_composes(m.nodes, start_of(root.s), truth, n, k);
    if first == on {
        let j = choose|j: nat| y == raised(#[trigger] after(next.s.nodes, start_of(next.s), truth, j), by);
        after_exists(next.s, start_of(next.s), truth, j);
        second_part(root, next, after(next.s.nodes, start_of(next.s), truth, j), truth, k);
        after_composes(next.s.nodes, start_of(next.s), truth, j, k);
        after_composes(next.s.nodes, start_of(next.s), truth, k, j);
        exit_stays(next.s.nodes, second, truth, j);
        assert(after(next.s.nodes, start_of(next.s), truth, j + k) == second);
    } else {
        exit_stays(m.nodes, y, truth, k);
    }
}

proof fn cut_nodes_len(nodes: Seq<ShortCircuitNode>, cut: usize, n: nat)
    requires
        cut_nodes(nodes, cut, n) is Some,
    ensures
        (cut_nodes(nodes, cut, n)->0).len() == n,
    decreases n,
{
    if n > 0 {
        cut_nodes_len(nodes, cut, (n - 1) as nat);
    }
}

proof fn cut_nodes_are(nodes: Seq<ShortCircuitNode>, cut: usize, n: nat, i: int)
    requires
        cut_nodes(nodes, cut, n) is Some,
        0 <= i < n,
    ensures
        (cut_nodes(nodes, cut, n)->0).len() == n,
        cut_node(nodes[i], cut) == Some((cut_nodes(nodes, cut, n)->0)[i]),
    decreases n,
{
    cut_nodes_len(nodes, cut, (n - 1) as nat);
    if i < n - 1 {
        cut_nodes_are(nodes, cut, (n - 1) as nat, i);
    }
}

/// A condition that is cut off at a node decides as far as the whole one does: it ends on
/// its true side just when the whole one comes to that node, and otherwise where the whole
/// one ends on its false side.
pub proof fn cutting_changes_no_outcome(s: ShortModel, cut: usize, truth: spec_fn(BlockRef) -> bool, n: nat)
    requires
        truncated(s, cut) is Some,
        s.entry.0 < cut < s.nodes.len(),
        is_exit(after((truncated(s, cut)->0).nodes, start_of(s), truth, n)),
    ensures
        ({
            let t = truncated(s, cut)->0;
            let short = after(t.nodes, start_of(s), truth, n);
            if short == ShortCircuitTarget::TruthyExit {
                (exists|j: nat| j <= n && #[trigger] after(s.nodes, start_of(s), truth, j) == ShortCircuitTarget::Node(ShortCircuitNodeRef(cut)))
                    && exit_block(t.exit, short) == s.nodes[cut as int].header
            } else {
                after(s.nodes, start_of(s), truth, n) == ShortCircuitTarget::FalsyExit && exit_block(t.exit, short) == exit_block(s.exit, short)
            }
        }),
{
    cut_walk(s, cut, truth, n);
}

/// How far the whole condition is when the cut one has come to `x` after `n` tests.
spec fn in_step(s: ShortModel, cut: usize, truth: spec_fn(BlockRef) -> bool, x: ShortCircuitTarget, n: nat) -> bool {
    match x {
        ShortCircuitTarget::TruthyExit => exists|j: nat|
            j <= n && #[trigger] after(s.nodes, start_of(s), truth, j) == ShortCircuitTarget::Node(ShortCircuitNodeRef(cut)),
        ShortCircuitTarget::Node(i) => i.0 < cut && after(s.nodes, start_of(s), truth, n) == x,
        _ => after(s.nodes, start_of(s), truth, n) == x,
    }
}

proof fn cut_walk(s: ShortModel, cut: usize, truth: spec_fn(BlockRef) -> bool, n: nat)
    requires
        truncated(s, cut) is Some,
        s.entry.0 < cut < s.nodes.len(),
    ensures
        in_step(s, cut, truth, after((truncated(s, cut)->0).nodes, start_of(s), truth, n), n),
    decreases n,
{
    let t = truncated(s, cut)->0;
    if n > 0 {
        cut_walk(s, cut, truth, (n - 1) as nat);
        let x = after(t.nodes, start_of(s), truth, (n - 1) as nat);
        let x1 = after(t.nodes, start_of(s), truth, n);
        if let ShortCircuitTarget::Node(i) = x {
            cut_nodes_are(s.nodes, cut, cut as nat, i.0 as int);
            let whole = tested(s.nodes, x, truth);
            assert(after(s.nodes, start_of(s), truth, n) == whole);
            assert(cut_target(whole, cut) == Some(x1));
            if x1 == ShortCircuitTarget::TruthyExit {
                assert(n <= n && after(s.nodes, start_of(s), truth, n) == ShortCircuitTarget::Node(ShortCircuitNodeRef(cut)));
            }
        } else if x == ShortCircuitTarget::TruthyExit {
            let j = choose|j: nat|
                j <= (n - 1) as nat && #[trigger] after(s.nodes, start_of(s), truth, j) == ShortCircuitTarget::Node(ShortCircuitNodeRef(cut));
            assert(j <= n && after(s.nodes, start_of(s), truth, j) == ShortCircuitTarget::Node(ShortCircuitNodeRef(cut)));
        }
    }
}

} // verus!
