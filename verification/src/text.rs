//! Text: numbers, references and lists of them.
//!
//! Each spec function says what a text becomes when something is written behind it.

use vstd::prelude::*;

use crate::cfg::InstrRange;
use crate::dataflow::{DefId, PhiId, SsaValue};
use crate::ids::{BlockRef, EdgeRef, InstrRef, Reg};
use crate::plan::RegionId;

verus! {

/// The decimal digit of a number below ten.
pub open spec fn digit_text(t: Seq<char>, d: nat) -> Seq<char> {
    t + (if d == 0 {
        "0"@
    } else if d == 1 {
        "1"@
    } else if d == 2 {
        "2"@
    } else if d == 3 {
        "3"@
    } else if d == 4 {
        "4"@
    } else if d == 5 {
        "5"@
    } else if d == 6 {
        "6"@
    } else if d == 7 {
        "7"@
    } else if d == 8 {
        "8"@
    } else {
        "9"@
    })
}

/// `t`, then a number in decimal digits.
pub open spec fn number(t: Seq<char>, n: nat) -> Seq<char>
    decreases n,
{
    if n < 10 {
        digit_text(t, n)
    } else {
        digit_text(number(t, n / 10), n % 10)
    }
}

fn put_digit(out: &mut String, d: u128)
    requires
        d < 10,
    ensures
        final(out)@ == digit_text(old(out)@, d as nat),
{
    if d == 0 {
        out.append("0");
    } else if d == 1 {
        out.append("1");
    } else if d == 2 {
        out.append("2");
    } else if d == 3 {
        out.append("3");
    } else if d == 4 {
        out.append("4");
    } else if d == 5 {
        out.append("5");
    } else if d == 6 {
        out.append("6");
    } else if d == 7 {
        out.append("7");
    } else if d == 8 {
        out.append("8");
    } else {
        out.append("9");
    }
}

fn put_wide(out: &mut String, n: u128)
    ensures
        final(out)@ == number(old(out)@, n as nat),
    decreases n,
{
    if n >= 10 {
        put_wide(out, n / 10);
    }
    put_digit(out, n % 10);
}

/// Writes a number.
pub fn put_number(out: &mut String, n: usize)
    ensures
        final(out)@ == number(old(out)@, n as nat),
{
    put_wide(out, n as u128);
}

/// A number in at least three digits.
pub open spec fn padded(t: Seq<char>, n: nat) -> Seq<char> {
    if n < 10 {
        number(t + "00"@, n)
    } else if n < 100 {
        number(t + "0"@, n)
    } else {
        number(t, n)
    }
}

pub fn put_padded(out: &mut String, n: usize)
    ensures
        final(out)@ == padded(old(out)@, n as nat),
{
    if n < 10 {
        out.append("00");
    } else if n < 100 {
        out.append("0");
    }
    put_number(out, n);
}

/// The first instruction of a range, and the one behind it.
pub open spec fn range_text(t: Seq<char>, range: InstrRange) -> Seq<char> {
    let t = number(t + "[@"@, range.start.0 as nat);
    number(t + "..@"@, range.end_at() as nat) + ")"@
}

pub fn write_range(out: &mut String, range: InstrRange)
    ensures
        final(out)@ == range_text(old(out)@, range),
{
    out.append("[@");
    put_number(out, range.start.0);
    out.append("..@");
    put_wide(out, range.start.0 as u128 + range.len as u128);
    out.append(")");
}

pub open spec fn flag_text(t: Seq<char>, b: bool) -> Seq<char> {
    match b {
        true => t + "true"@,
        false => t + "false"@,
    }
}

pub fn write_flag(out: &mut String, b: bool)
    ensures
        final(out)@ == flag_text(old(out)@, b),
{
    match b {
        true => {
            out.append("true");
        },
        false => {
            out.append("false");
        },
    }
}

pub open spec fn block_text(t: Seq<char>, b: BlockRef) -> Seq<char> {
    number(t + "#"@, b.0 as nat)
}

pub fn write_block(out: &mut String, b: BlockRef)
    ensures
        final(out)@ == block_text(old(out)@, b),
{
    out.append("#");
    put_number(out, b.0);
}

pub open spec fn edge_text(t: Seq<char>, e: EdgeRef) -> Seq<char> {
    number(t + "#"@, e.0 as nat)
}

pub fn write_edge(out: &mut String, e: EdgeRef)
    ensures
        final(out)@ == edge_text(old(out)@, e),
{
    out.append("#");
    put_number(out, e.0);
}

pub open spec fn instr_text(t: Seq<char>, i: InstrRef) -> Seq<char> {
    number(t + "@"@, i.0 as nat)
}

pub fn write_instr(out: &mut String, i: InstrRef)
    ensures
        final(out)@ == instr_text(old(out)@, i),
{
    out.append("@");
    put_number(out, i.0);
}

pub open spec fn reg_text(t: Seq<char>, r: Reg) -> Seq<char> {
    number(t + "r"@, r.0 as nat)
}

pub fn write_reg(out: &mut String, r: Reg)
    ensures
        final(out)@ == reg_text(old(out)@, r),
{
    out.append("r");
    put_number(out, r.0);
}

pub open spec fn def_text(t: Seq<char>, d: DefId) -> Seq<char> {
    number(t + "def"@, d.0 as nat)
}

pub fn write_def(out: &mut String, d: DefId)
    ensures
        final(out)@ == def_text(old(out)@, d),
{
    out.append("def");
    put_number(out, d.0);
}

pub open spec fn phi_text(t: Seq<char>, p: PhiId) -> Seq<char> {
    number(t + "phi"@, p.0 as nat)
}

pub fn write_phi(out: &mut String, p: PhiId)
    ensures
        final(out)@ == phi_text(old(out)@, p),
{
    out.append("phi");
    put_number(out, p.0);
}

pub open spec fn value_text(t: Seq<char>, v: SsaValue) -> Seq<char> {
    match v {
        SsaValue::Entry(reg) => {
            let t = reg_text(t + "entry("@, reg);
            t + ")"@
        },
        SsaValue::Def(d) => def_text(t, d),
        SsaValue::Phi(p) => phi_text(t, p),
    }
}

pub fn write_value(out: &mut String, v: SsaValue)
    ensures
        final(out)@ == value_text(old(out)@, v),
{
    match v {
        SsaValue::Entry(reg) => {
            out.append("entry(");
            write_reg(out, reg);
            out.append(")");
        },
        SsaValue::Def(d) => {
            write_def(out, d);
        },
        SsaValue::Phi(p) => {
            write_phi(out, p);
        },
    }
}

/// A block, or a dash.
pub open spec fn optional_block_text(t: Seq<char>, b: Option<BlockRef>) -> Seq<char> {
    match b {
        Some(b) => block_text(t, b),
        None => t + "-"@,
    }
}

pub fn write_optional_block(out: &mut String, b: Option<BlockRef>)
    ensures
        final(out)@ == optional_block_text(old(out)@, b),
{
    match b {
        Some(b) => {
            write_block(out, b);
        },
        None => {
            out.append("-");
        },
    }
}

/// A region, or a dash.
pub open spec fn optional_region_text(t: Seq<char>, r: Option<RegionId>) -> Seq<char> {
    match r {
        Some(r) => number(t + "r"@, r.0 as nat),
        None => t + "-"@,
    }
}

pub fn write_optional_region(out: &mut String, r: Option<RegionId>)
    ensures
        final(out)@ == optional_region_text(old(out)@, r),
{
    match r {
        Some(r) => {
            out.append("r");
            put_number(out, r.0);
        },
        None => {
            out.append("-");
        },
    }
}

/// A definition, or a dash.
pub open spec fn optional_def_text(t: Seq<char>, d: Option<DefId>) -> Seq<char> {
    match d {
        Some(d) => def_text(t, d),
        None => t + "-"@,
    }
}

pub fn write_optional_def(out: &mut String, d: Option<DefId>)
    ensures
        final(out)@ == optional_def_text(old(out)@, d),
{
    match d {
        Some(d) => {
            write_def(out, d);
        },
        None => {
            out.append("-");
        },
    }
}

/// The first `n` blocks, with commas between them.
pub open spec fn block_list_text(t: Seq<char>, list: Seq<BlockRef>, n: nat) -> Seq<char>
    decreases n,
{
    if n == 0 {
        t
    } else {
        let t = block_list_text(t, list, (n - 1) as nat);
        let t = if n > 1 {
            t + ", "@
        } else {
            t
        };
        let x = list[n - 1];
        block_text(t, x)
    }
}

pub fn write_block_list(out: &mut String, list: &Vec<BlockRef>)
    ensures
        final(out)@ == block_list_text(old(out)@, list@, list@.len()),
{
    let n = list.len();
    let ghost t = out@;
    let mut i: usize = 0;
    while i < n
        invariant
            n == list@.len(),
            i <= n,
            out@ == block_list_text(t, list@, i as nat),
        decreases n - i,
    {
        if i > 0 {
            out.append(", ");
        }
        let x = list[i];
        write_block(out, x);
        i = i + 1;
    }
}

/// The first `n` edges, with commas between them.
pub open spec fn edge_list_text(t: Seq<char>, list: Seq<EdgeRef>, n: nat) -> Seq<char>
    decreases n,
{
    if n == 0 {
        t
    } else {
        let t = edge_list_text(t, list, (n - 1) as nat);
        let t = if n > 1 {
            t + ", "@
        } else {
            t
        };
        let x = list[n - 1];
        edge_text(t, x)
    }
}

pub fn write_edge_list(out: &mut String, list: &Vec<EdgeRef>)
    ensures
        final(out)@ == edge_list_text(old(out)@, list@, list@.len()),
{
    let n = list.len();
    let ghost t = out@;
    let mut i: usize = 0;
    while i < n
        invariant
            n == list@.len(),
            i <= n,
            out@ == edge_list_text(t, list@, i as nat),
        decreases n - i,
    {
        if i > 0 {
            out.append(", ");
        }
        let x = list[i];
        write_edge(out, x);
        i = i + 1;
    }
}

/// The first `n` instructions, with commas between them.
pub open spec fn instr_list_text(t: Seq<char>, list: Seq<InstrRef>, n: nat) -> Seq<char>
    decreases n,
{
    if n == 0 {
        t
    } else {
        let t = instr_list_text(t, list, (n - 1) as nat);
        let t = if n > 1 {
            t + ", "@
        } else {
            t
        };
        let x = list[n - 1];
        instr_text(t, x)
    }
}

pub fn write_instr_list(out: &mut String, list: &Vec<InstrRef>)
    ensures
        final(out)@ == instr_list_text(old(out)@, list@, list@.len()),
{
    let n = list.len();
    let ghost t = out@;
    let mut i: usize = 0;
    while i < n
        invariant
            n == list@.len(),
            i <= n,
            out@ == instr_list_text(t, list@, i as nat),
        decreases n - i,
    {
        if i > 0 {
            out.append(", ");
        }
        let x = list[i];
        write_instr(out, x);
        i = i + 1;
    }
}

/// The first `n` registers, with commas between them.
pub open spec fn reg_list_text(t: Seq<char>, list: Seq<Reg>, n: nat) -> Seq<char>
    decreases n,
{
    if n == 0 {
        t
    } else {
        let t = reg_list_text(t, list, (n - 1) as nat);
        let t = if n > 1 {
            t + ", "@
        } else {
            t
        };
        let x = list[n - 1];
        reg_text(t, x)
    }
}

pub fn write_reg_list(out: &mut String, list: &Vec<Reg>)
    ensures
        final(out)@ == reg_list_text(old(out)@, list@, list@.len()),
{
    let n = list.len();
    let ghost t = out@;
    let mut i: usize = 0;
    while i < n
        invariant
            n == list@.len(),
            i <= n,
            out@ == reg_list_text(t, list@, i as nat),
        decreases n - i,
    {
        if i > 0 {
            out.append(", ");
        }
        let x = list[i];
        write_reg(out, x);
        i = i + 1;
    }
}

/// A list in brackets; a dash stands for an empty one.
pub open spec fn block_set_text(t: Seq<char>, list: Seq<BlockRef>) -> Seq<char> {
    if list.len() == 0 {
        t + "[-]"@
    } else {
        block_list_text(t + "["@, list, list.len()) + "]"@
    }
}

pub fn write_block_set(out: &mut String, list: &Vec<BlockRef>)
    ensures
        final(out)@ == block_set_text(old(out)@, list@),
{
    if list.len() == 0 {
        out.append("[-]");
    } else {
        out.append("[");
        write_block_list(out, list);
        out.append("]");
    }
}

/// A list in brackets; a dash stands for an empty one.
pub open spec fn edge_set_text(t: Seq<char>, list: Seq<EdgeRef>) -> Seq<char> {
    if list.len() == 0 {
        t + "[-]"@
    } else {
        edge_list_text(t + "["@, list, list.len()) + "]"@
    }
}

pub fn write_edge_set(out: &mut String, list: &Vec<EdgeRef>)
    ensures
        final(out)@ == edge_set_text(old(out)@, list@),
{
    if list.len() == 0 {
        out.append("[-]");
    } else {
        out.append("[");
        write_edge_list(out, list);
        out.append("]");
    }
}

/// A list in brackets; a dash stands for an empty one.
pub open spec fn reg_set_text(t: Seq<char>, list: Seq<Reg>) -> Seq<char> {
    if list.len() == 0 {
        t + "[-]"@
    } else {
        reg_list_text(t + "["@, list, list.len()) + "]"@
    }
}

pub fn write_reg_set(out: &mut String, list: &Vec<Reg>)
    ensures
        final(out)@ == reg_set_text(old(out)@, list@),
{
    if list.len() == 0 {
        out.append("[-]");
    } else {
        out.append("[");
        write_reg_list(out, list);
        out.append("]");
    }
}

} // verus!
