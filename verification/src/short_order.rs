//! A total order on short-circuit expressions: by header and size, then by everything else.

use vstd::prelude::*;

use crate::dataflow::SsaValue;
use crate::evidence::{
    ShortCircuitCandidate, ShortCircuitExit, ShortCircuitNode, ShortCircuitTarget,
    ShortCircuitValueIncoming,
};
use crate::ids::BlockRef;

verus! {

/// `a` comes before `b` from position `i` on: at the first difference it is smaller, or it
/// ends there.
pub open spec fn lex_from(a: Seq<usize>, b: Seq<usize>, i: nat) -> bool
    decreases a.len() - i,
{
    if i >= b.len() {
        false
    } else if i >= a.len() {
        true
    } else if a[i as int] != b[i as int] {
        a[i as int] < b[i as int]
    } else {
        lex_from(a, b, i + 1)
    }
}

pub open spec fn lex_less(a: Seq<usize>, b: Seq<usize>) -> bool {
    lex_from(a, b, 0)
}

proof fn lex_from_transitive(a: Seq<usize>, b: Seq<usize>, c: Seq<usize>, i: nat)
    requires
        lex_from(a, b, i),
        lex_from(b, c, i),
    ensures
        lex_from(a, c, i),
    decreases a.len() - i,
{
    if i < a.len() && i < b.len() && i < c.len() && a[i as int] == b[i as int] && b[i as int] == c[i as int] {
        lex_from_transitive(a, b, c, i + 1);
    }
}

proof fn lex_from_total(a: Seq<usize>, b: Seq<usize>, i: nat)
    requires
        i <= a.len(),
        i <= b.len(),
        forall|k: int| 0 <= k < i ==> a[k] == b[k],
        !lex_from(a, b, i),
        !lex_from(b, a, i),
    ensures
        a == b,
    decreases a.len() - i,
{
    if i < a.len() && i < b.len() {
        lex_from_total(a, b, i + 1);
    } else {
        assert(a =~= b);
    }
}

proof fn lex_from_irreflexive(a: Seq<usize>, i: nat)
    ensures
        !lex_from(a, a, i),
    decreases a.len() - i,
{
    if i < a.len() {
        lex_from_irreflexive(a, i + 1);
    }
}

fn lex_before(a: &Vec<usize>, b: &Vec<usize>) -> (r: bool)
    ensures
        r == lex_less(a@, b@),
{
    let n = a.len();
    let m = b.len();
    let mut i: usize = 0;
    while i < n && i < m && a[i] == b[i]
        invariant
            n == a@.len(),
            m == b@.len(),
            i <= n,
            i <= m,
            lex_less(a@, b@) == lex_from(a@, b@, i as nat),
        decreases n - i,
    {
        i = i + 1;
    }
    if i >= m {
        false
    } else if i >= n {
        true
    } else {
        a[i] < b[i]
    }
}

pub open spec fn target_code(t: ShortCircuitTarget) -> Seq<usize> {
    match t {
        ShortCircuitTarget::Node(n) => seq![0usize, n.0],
        ShortCircuitTarget::Value(b) => seq![1usize, b.0],
        ShortCircuitTarget::TruthyExit => seq![2usize, 0usize],
        ShortCircuitTarget::FalsyExit => seq![3usize, 0usize],
    }
}

pub open spec fn option_code(o: Option<usize>) -> Seq<usize> {
    match o {
        None => seq![0usize, 0usize],
        Some(x) => seq![1usize, x],
    }
}

pub open spec fn value_code(v: SsaValue) -> Seq<usize> {
    match v {
        SsaValue::Entry(r) => seq![0usize, r.0],
        SsaValue::Def(d) => seq![1usize, d.0],
        SsaValue::Phi(p) => seq![2usize, p.0],
    }
}

pub open spec fn exit_code(e: ShortCircuitExit) -> Seq<usize> {
    match e {
        ShortCircuitExit::ValueMerge(b) => seq![0usize, b.0, 0usize],
        ShortCircuitExit::BranchExit { truthy, falsy } => seq![1usize, truthy.0, falsy.0],
    }
}

pub open spec fn node_code(n: ShortCircuitNode) -> Seq<usize> {
    seq![1usize, n.id.0, n.header.0] + target_code(n.truthy) + target_code(n.falsy)
}

pub open spec fn incoming_code(i: ShortCircuitValueIncoming) -> Seq<usize> {
    seq![1usize, i.pred.0] + value_code(i.value) + option_code(
        match i.latest_local_def {
            Some(d) => Some(d.0),
            None => None,
        },
    )
}

/// The codes of the first `n` blocks; each is announced, and the end is marked by the caller.
pub open spec fn blocks_code(blocks: Seq<BlockRef>, n: nat) -> Seq<usize>
    decreases n,
{
    if n == 0 {
        Seq::empty()
    } else {
        blocks_code(blocks, (n - 1) as nat) + seq![1usize, blocks[n - 1].0]
    }
}

pub open spec fn nodes_code(nodes: Seq<ShortCircuitNode>, n: nat) -> Seq<usize>
    decreases n,
{
    if n == 0 {
        Seq::empty()
    } else {
        nodes_code(nodes, (n - 1) as nat) + node_code(nodes[n - 1])
    }
}

pub open spec fn incomings_code(list: Seq<ShortCircuitValueIncoming>, n: nat) -> Seq<usize>
    decreases n,
{
    if n == 0 {
        Seq::empty()
    } else {
        incomings_code(list, (n - 1) as nat) + incoming_code(list[n - 1])
    }
}

pub open spec fn reg_option(c: &ShortCircuitCandidate) -> Option<usize> {
    match c.result_reg {
        Some(r) => Some(r.0),
        None => None,
    }
}

pub open spec fn phi_option(c: &ShortCircuitCandidate) -> Option<usize> {
    match c.result_phi_id {
        Some(p) => Some(p.0),
        None => None,
    }
}

pub open spec fn entry_value_code(v: Option<SsaValue>) -> Seq<usize> {
    match v {
        None => seq![0usize, 0usize, 0usize],
        Some(v) => seq![1usize] + value_code(v),
    }
}

/// The header, the sizes and the result register, then all fields in turn; a list is a run of
/// announced elements with a mark at its end.
pub open spec fn short_code(c: &ShortCircuitCandidate) -> Seq<usize> {
    let sizes = seq![c.header.0, c.blocks.seq().len() as usize, c.nodes@.len() as usize] + option_code(reg_option(c));
    let blocks = blocks_code(c.blocks.seq(), c.blocks.seq().len()) + seq![0usize];
    let nodes = seq![c.entry.0] + nodes_code(c.nodes@, c.nodes@.len()) + seq![0usize];
    let results = exit_code(c.exit) + option_code(reg_option(c)) + option_code(phi_option(c)) + entry_value_code(c.entry_value);
    let values = incomings_code(c.value_incomings@, c.value_incomings@.len()) + seq![0usize];
    sizes + blocks + nodes + results + values + seq![if c.reducible { 1usize } else { 0usize }]
}

fn push_pair(code: &mut Vec<usize>, a: usize, b: usize)
    ensures
        final(code)@ == old(code)@ + seq![a, b],
{
    code.push(a);
    code.push(b);
    assert(code@ =~= old(code)@ + seq![a, b]);
}

fn push_one(code: &mut Vec<usize>, a: usize)
    ensures
        final(code)@ == old(code)@ + seq![a],
{
    code.push(a);
    assert(code@ =~= old(code)@ + seq![a]);
}

fn push_target(code: &mut Vec<usize>, t: ShortCircuitTarget)
    ensures
        final(code)@ == old(code)@ + target_code(t),
{
    match t {
        ShortCircuitTarget::Node(n) => push_pair(code, 0, n.0),
        ShortCircuitTarget::Value(b) => push_pair(code, 1, b.0),
        ShortCircuitTarget::TruthyExit => push_pair(code, 2, 0),
        ShortCircuitTarget::FalsyExit => push_pair(code, 3, 0),
    }
}

fn push_option(code: &mut Vec<usize>, o: Option<usize>)
    ensures
        final(code)@ == old(code)@ + option_code(o),
{
    match o {
        None => push_pair(code, 0, 0),
        Some(x) => push_pair(code, 1, x),
    }
}

fn push_value(code: &mut Vec<usize>, v: SsaValue)
    ensures
        final(code)@ == old(code)@ + value_code(v),
{
    match v {
        SsaValue::Entry(r) => push_pair(code, 0, r.0),
        SsaValue::Def(d) => push_pair(code, 1, d.0),
        SsaValue::Phi(p) => push_pair(code, 2, p.0),
    }
}

fn push_blocks(code: &mut Vec<usize>, c: &ShortCircuitCandidate)
    ensures
        final(code)@ == old(code)@ + (blocks_code(c.blocks.seq(), c.blocks.seq().len()) + seq![0usize]),
{
    let ghost start = code@;
    let n = c.blocks.len();
    let mut i: usize = 0;
    assert(code@ =~= start + blocks_code(c.blocks.seq(), 0));
    while i < n
        invariant
            n == c.blocks.seq().len(),
            i <= n,
            code@ == start + blocks_code(c.blocks.seq(), i as nat),
        decreases n - i,
    {
        push_pair(code, 1, c.blocks.at(i).0);
        assert(code@ =~= start + blocks_code(c.blocks.seq(), (i + 1) as nat));
        i = i + 1;
    }
    push_one(code, 0);
    assert(code@ =~= start + (blocks_code(c.blocks.seq(), c.blocks.seq().len()) + seq![0usize]));
}

fn push_node(code: &mut Vec<usize>, n: ShortCircuitNode)
    ensures
        final(code)@ == old(code)@ + node_code(n),
{
    let ghost start = code@;
    push_one(code, 1);
    push_pair(code, n.id.0, n.header.0);
    assert(code@ =~= start + seq![1usize, n.id.0, n.header.0]);
    push_target(code, n.truthy);
    push_target(code, n.falsy);
    assert(code@ =~= start + node_code(n));
}

fn push_nodes(code: &mut Vec<usize>, c: &ShortCircuitCandidate)
    ensures
        final(code)@ == old(code)@ + (seq![c.entry.0] + nodes_code(c.nodes@, c.nodes@.len()) + seq![0usize]),
{
    let ghost outset = code@;
    push_one(code, c.entry.0);
    let ghost start = code@;
    let n = c.nodes.len();
    let mut i: usize = 0;
    assert(code@ =~= start + nodes_code(c.nodes@, 0));
    while i < n
        invariant
            n == c.nodes@.len(),
            i <= n,
            code@ == start + nodes_code(c.nodes@, i as nat),
        decreases n - i,
    {
        push_node(code, c.nodes[i]);
        assert(code@ =~= start + nodes_code(c.nodes@, (i + 1) as nat));
        i = i + 1;
    }
    push_one(code, 0);
    assert(code@ =~= outset + (seq![c.entry.0] + nodes_code(c.nodes@, c.nodes@.len()) + seq![0usize]));
}

fn push_results(code: &mut Vec<usize>, c: &ShortCircuitCandidate)
    ensures
        final(code)@ == old(code)@ + (exit_code(c.exit) + option_code(reg_option(c)) + option_code(phi_option(c))
            + entry_value_code(c.entry_value)),
{
    let ghost start = code@;
    match c.exit {
        ShortCircuitExit::ValueMerge(b) => {
            push_pair(code, 0, b.0);
            push_one(code, 0);
        },
        ShortCircuitExit::BranchExit { truthy, falsy } => {
            push_pair(code, 1, truthy.0);
            push_one(code, falsy.0);
        },
    }
    assert(code@ =~= start + exit_code(c.exit));
    let reg = match c.result_reg {
        Some(r) => Some(r.0),
        None => None,
    };
    push_option(code, reg);
    let phi = match c.result_phi_id {
        Some(p) => Some(p.0),
        None => None,
    };
    push_option(code, phi);
    let ghost before = code@;
    match c.entry_value {
        None => {
            push_pair(code, 0, 0);
            push_one(code, 0);
        },
        Some(v) => {
            push_one(code, 1);
            push_value(code, v);
        },
    }
    assert(code@ =~= before + entry_value_code(c.entry_value));
    assert(code@ =~= start + (exit_code(c.exit) + option_code(reg_option(c)) + option_code(phi_option(c)) + entry_value_code(
        c.entry_value,
    )));
}

fn push_incoming(code: &mut Vec<usize>, v: ShortCircuitValueIncoming)
    ensures
        final(code)@ == old(code)@ + incoming_code(v),
{
    let ghost start = code@;
    push_pair(code, 1, v.pred.0);
    push_value(code, v.value);
    let latest = match v.latest_local_def {
        Some(d) => Some(d.0),
        None => None,
    };
    push_option(code, latest);
    assert(code@ =~= start + incoming_code(v));
}

fn push_incomings(code: &mut Vec<usize>, c: &ShortCircuitCandidate)
    ensures
        final(code)@ == old(code)@ + (incomings_code(c.value_incomings@, c.value_incomings@.len()) + seq![0usize]),
{
    let ghost start = code@;
    let n = c.value_incomings.len();
    let mut i: usize = 0;
    assert(code@ =~= start + incomings_code(c.value_incomings@, 0));
    while i < n
        invariant
            n == c.value_incomings@.len(),
            i <= n,
            code@ == start + incomings_code(c.value_incomings@, i as nat),
        decreases n - i,
    {
        push_incoming(code, c.value_incomings[i]);
        assert(code@ =~= start + incomings_code(c.value_incomings@, (i + 1) as nat));
        i = i + 1;
    }
    push_one(code, 0);
    assert(code@ =~= start + (incomings_code(c.value_incomings@, c.value_incomings@.len()) + seq![0usize]));
}

fn encode(c: &ShortCircuitCandidate) -> (code: Vec<usize>)
    ensures
        code@ == short_code(c),
{
    let mut code: Vec<usize> = Vec::new();
    let reg = match c.result_reg {
        Some(r) => Some(r.0),
        None => None,
    };
    code.push(c.header.0);
    code.push(c.blocks.len());
    code.push(c.nodes.len());
    assert(code@ =~= seq![c.header.0, c.blocks.seq().len() as usize, c.nodes@.len() as usize]);
    push_option(&mut code, reg);
    push_blocks(&mut code, c);
    push_nodes(&mut code, c);
    push_results(&mut code, c);
    push_incomings(&mut code, c);
    let flag: usize = if c.reducible {
        1
    } else {
        0
    };
    push_one(&mut code, flag);
    code
}

/// Some expression of the list has this code.
pub open spec fn has_code(list: Seq<ShortCircuitCandidate>, code: Seq<usize>) -> bool {
    exists|i: int| 0 <= i < list.len() && short_code(&(#[trigger] list[i])) == code
}

/// The list is strictly ordered, so that no expression occurs twice.
pub open spec fn shorts_ordered(list: Seq<ShortCircuitCandidate>) -> bool {
    forall|i: int, j: int| 0 <= i < j < list.len() ==> lex_less(short_code(&(#[trigger] list[i])), short_code(&(#[trigger] list[j])))
}

/// Puts an expression in its place, unless it is there already.
pub fn insert_short(list: &mut Vec<ShortCircuitCandidate>, c: ShortCircuitCandidate)
    requires
        shorts_ordered(old(list)@),
    ensures
        shorts_ordered(final(list)@),
        forall|code: Seq<usize>| #[trigger] has_code(final(list)@, code) <==> has_code(old(list)@, code) || code == short_code(&c),
        forall|i: int| 0 <= i < final(list)@.len() ==> old(list)@.contains(#[trigger] final(list)@[i]) || final(list)@[i] == c,
        final(list)@.len() <= old(list)@.len() + 1,
{
    let code = encode(&c);
    let n = list.len();
    let ghost before = list@;
    let mut at: usize = 0;
    let mut probe = true;
    while at < n && probe
        invariant
            list@ == before,
            n == list@.len(),
            code@ == short_code(&c),
            at <= n,
            forall|i: int| 0 <= i < at ==> lex_less(short_code(&(#[trigger] before[i])), code@),
            !probe ==> at < n && !lex_less(short_code(&before[at as int]), code@),
        decreases (if probe { n - at + 1 } else { 0 }),
    {
        let other = encode(&list[at]);
        if lex_before(&other, &code) {
            at = at + 1;
        } else {
            probe = false;
        }
    }
    if at < n {
        let other = encode(&list[at]);
        if !lex_before(&code, &other) {
            proof {
                lex_from_total(code@, other@, 0);
                assert forall|k: Seq<usize>| #[trigger] has_code(list@, k) <==> has_code(before, k) || k == short_code(&c) by {
                    assert(short_code(&before[at as int]) == short_code(&c));
                }
            }
            return;
        }
    }
    proof {
        assert forall|i: int| at <= i < n implies lex_less(code@, short_code(&(#[trigger] before[i]))) by {
            if i > at {
                assert(lex_less(short_code(&before[at as int]), short_code(&before[i])));
                lex_from_transitive(code@, short_code(&before[at as int]), short_code(&before[i]), 0);
            }
        }
    }
    list.insert(at, c);
    proof {
        let after = list@;
        assert forall|i: int| 0 <= i < after.len() implies #[trigger] after[i] == (if i < at {
            before[i]
        } else if i == at {
            c
        } else {
            before[i - 1]
        }) by {}
        assert forall|i: int, j: int| 0 <= i < j < after.len() implies lex_less(
            short_code(&(#[trigger] after[i])),
            short_code(&(#[trigger] after[j])),
        ) by {
            if j < at {
                assert(lex_less(short_code(&before[i]), short_code(&before[j])));
            } else if i < at && j > at {
                assert(lex_less(short_code(&before[i]), short_code(&before[j - 1])));
            } else if i > at {
                assert(lex_less(short_code(&before[i - 1]), short_code(&before[j - 1])));
            } else if i == at {
                assert(lex_less(code@, short_code(&before[j - 1])));
            } else {
                assert(lex_less(short_code(&before[i]), code@));
            }
        }
        assert forall|k: Seq<usize>| #[trigger] has_code(after, k) <==> has_code(before, k) || k == short_code(&c) by {
            if has_code(before, k) {
                let i = choose|i: int| 0 <= i < before.len() && short_code(&(#[trigger] before[i])) == k;
                if i < at {
                    assert(after[i] == before[i]);
                } else {
                    assert(after[i + 1] == before[i]);
                }
            }
            if k == short_code(&c) {
                assert(short_code(&after[at as int]) == k);
            }
            if has_code(after, k) {
                let i = choose|i: int| 0 <= i < after.len() && short_code(&(#[trigger] after[i])) == k;
                if i < at {
                    assert(short_code(&before[i]) == k);
                } else if i > at {
                    assert(short_code(&before[i - 1]) == k);
                }
            }
        }
    }
}

/// A copy of an expression.
pub fn copy_short(c: &ShortCircuitCandidate) -> (r: ShortCircuitCandidate)
    ensures
        r.header == c.header,
        r.blocks@ == c.blocks@,
        r.blocks.seq() == c.blocks.seq(),
        r.entry == c.entry,
        r.nodes@ == c.nodes@,
        r.exit == c.exit,
        r.result_reg == c.result_reg,
        r.result_phi_id == c.result_phi_id,
        r.entry_value == c.entry_value,
        r.value_incomings@ == c.value_incomings@,
        r.reducible == c.reducible,
        short_code(&r) == short_code(c),
{
    let mut nodes: Vec<ShortCircuitNode> = Vec::new();
    let n = c.nodes.len();
    let mut i: usize = 0;
    while i < n
        invariant
            n == c.nodes@.len(),
            i <= n,
            nodes@ =~= c.nodes@.subrange(0, i as int),
        decreases n - i,
    {
        nodes.push(c.nodes[i]);
        i = i + 1;
    }
    assert(nodes@ =~= c.nodes@);
    let mut value_incomings: Vec<ShortCircuitValueIncoming> = Vec::new();
    let m = c.value_incomings.len();
    let mut k: usize = 0;
    while k < m
        invariant
            m == c.value_incomings@.len(),
            k <= m,
            value_incomings@ =~= c.value_incomings@.subrange(0, k as int),
        decreases m - k,
    {
        value_incomings.push(c.value_incomings[k]);
        k = k + 1;
    }
    assert(value_incomings@ =~= c.value_incomings@);
    ShortCircuitCandidate {
        header: c.header,
        blocks: c.blocks.clone(),
        entry: c.entry,
        nodes,
        exit: c.exit,
        result_reg: c.result_reg,
        result_phi_id: c.result_phi_id,
        entry_value: c.entry_value,
        value_incomings,
        reducible: c.reducible,
    }
}

} // verus!
