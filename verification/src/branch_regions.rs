//! The regions that branches span.

use vstd::prelude::*;

use crate::cfg::Cfg;
use crate::evidence::{BranchCandidate, BranchRegionFact, SinglePassFenceFact};
use crate::graph::GraphFacts;
use crate::ids::BlockRef;
use crate::refine::{branch_at, branches_wf, find_branch, headed_by};
use crate::search::first_where_least;

verus! {

/// The branches with a block behind them, among those that start in the first `n` blocks, by
/// block.
pub open spec fn merging_upto(list: Seq<BranchCandidate>, n: nat) -> Seq<BranchCandidate>
    decreases n,
{
    if n == 0 {
        Seq::empty()
    } else {
        let rest = merging_upto(list, (n - 1) as nat);
        match branch_at(list, BlockRef((n - 1) as usize)) {
            Some(b) => if b.merge is Some {
                rest.push(b)
            } else {
                rest
            },
            None => rest,
        }
    }
}

/// The region is that of the branch: what lies below its header, but not below the block
/// behind it, nor below the exit of a region that runs once.
pub open spec fn spans_branch(
    g: &GraphFacts,
    b: BranchCandidate,
    fence: Option<SinglePassFenceFact>,
    r: &BranchRegionFact,
) -> bool {
    &&& r.header == b.header
    &&& b.merge == Some(r.merge)
    &&& r.kind == b.kind
    &&& r.single_pass_fence == fence
    &&& r.domain.included_blocks@.len() == 0
    &&& r.domain.spans@.len() == 1
    &&& r.domain.spans@[0].root == b.header
    &&& r.domain.spans@[0].excluded_subtrees@ == (match fence {
        Some(f) => seq![r.merge, f.exit],
        None => if g.dom(r.merge, b.header) {
            Seq::empty()
        } else {
            seq![r.merge]
        },
    })
}

/// Lists the regions of the branches by header. The facts about regions that run once come by
/// block.
pub fn analyze_branch_regions(
    cfg: &Cfg,
    graph_facts: &GraphFacts,
    branches: &Vec<BranchCandidate>,
    fences: Vec<Option<SinglePassFenceFact>>,
) -> (r: Vec<BranchRegionFact>)
    requires
        branches_wf(cfg, branches@),
        fences@.len() == cfg.blocks@.len(),
    ensures
        r@.len() == merging_upto(branches@, cfg.blocks@.len()).len(),
        forall|i: int|
            0 <= i < r@.len() ==> spans_branch(
                graph_facts,
                merging_upto(branches@, cfg.blocks@.len())[i],
                fences@[merging_upto(branches@, cfg.blocks@.len())[i].header.0 as int],
                #[trigger] &r@[i],
            ),
{
    let n = cfg.blocks.len();
    let mut slots = fences;
    let mut r: Vec<BranchRegionFact> = Vec::new();
    let mut h: usize = 0;
    while h < n
        invariant
            branches_wf(cfg, branches@),
            n == cfg.blocks@.len(),
            fences@.len() == n,
            slots@.len() == n,
            h <= n,
            forall|k: int| h <= k < n ==> #[trigger] slots@[k] == fences@[k],
            r@.len() == merging_upto(branches@, h as nat).len(),
            forall|i: int|
                0 <= i < r@.len() ==> spans_branch(
                    graph_facts,
                    merging_upto(branches@, h as nat)[i],
                    fences@[merging_upto(branches@, h as nat)[i].header.0 as int],
                    #[trigger] &r@[i],
                ),
        decreases n - h,
    {
        let ghost before = r@;
        let ghost rest = merging_upto(branches@, h as nat);
        if let Some(b) = find_branch(branches, BlockRef(h)) {
            proof {
                let p = headed_by(branches@, BlockRef(h));
                first_where_least(branches@.len(), p);
                assert(b.header == BlockRef(h));
            }
            if let Some(m) = b.merge {
                let mut fence: Option<SinglePassFenceFact> = None;
                std::mem::swap(&mut fence, &mut slots[h]);
                let fact = BranchRegionFact::new(graph_facts, b.header, m, b.kind, fence);
                assert(spans_branch(graph_facts, b, fences@[h as int], &fact));
                r.push(fact);
                proof {
                    assert forall|i: int| 0 <= i < r@.len() implies spans_branch(
                        graph_facts,
                        rest.push(b)[i],
                        fences@[rest.push(b)[i].header.0 as int],
                        #[trigger] &r@[i],
                    ) by {
                        if i < before.len() {
                            assert(spans_branch(graph_facts, rest[i], fences@[rest[i].header.0 as int], &before[i]));
                        }
                    }
                }
            }
        }
        h = h + 1;
    }
    r
}

} // verus!
