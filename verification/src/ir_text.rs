//! The textual form of a generated module: the durable artifact of one
//! compilation. The text is a pure function of the module, so equal modules
//! always serialize to byte-identical artifacts.

use vstd::prelude::*;
use vstd::string::StringExecFns;

use crate::codegen::BasicBlock;
use crate::codegen::BlockView;
use crate::codegen::Instr;
use crate::codegen::IrModule;
use crate::codegen::ModuleView;
use crate::codegen::Terminator;

verus! {

/// The decimal digits of `n`, most significant first.
pub open spec fn dec_digits(n: nat) -> Seq<char>
    decreases n,
{
    if n < 10 {
        digit_text(n)
    } else {
        dec_digits(n / 10) + digit_text(n % 10)
    }
}

/// One decimal digit as text.
pub open spec fn digit_text(d: nat) -> Seq<char> {
    if d == 0 {
        "0"@
    } else if d == 1 {
        "1"@
    } else if d == 2 {
        "2"@
    } else if d == 3 {
        "3"@
    } else if d == 4 {
        "4"@
    } else if d == 5 {
        "5"@
    } else if d == 6 {
        "6"@
    } else if d == 7 {
        "7"@
    } else if d == 8 {
        "8"@
    } else {
        "9"@
    }
}

/// A possibly negative offset as text.
pub open spec fn int_text(v: int) -> Seq<char> {
    if v < 0 {
        "-"@ + dec_digits((-v) as nat)
    } else {
        dec_digits(v as nat)
    }
}

/// The text of one instruction, as one indented line.
pub open spec fn instr_text(i: Instr) -> Seq<char> {
    match i {
        Instr::AllocaDataPtr => "  alloca_data_ptr\n"@,
        Instr::CallCalloc { count, size } => "  call calloc "@ + dec_digits(count as nat) + " "@
            + dec_digits(size as nat) + "\n"@,
        Instr::StoreDataPtr => "  store_data_ptr\n"@,
        Instr::LoadDataPtr => "  load_data_ptr\n"@,
        Instr::LoadCell => "  load_cell\n"@,
        Instr::AddCell { amount } => "  add_cell "@ + dec_digits(amount as nat) + "\n"@,
        Instr::StoreCell => "  store_cell\n"@,
        Instr::PtrOffset { offset } => "  move_ptr "@ + int_text(offset as int) + "\n"@,
        Instr::SignExtend => "  sign_extend\n"@,
        Instr::CallPutchar => "  call putchar\n"@,
        Instr::CompareNeZero => "  cmp_ne_zero\n"@,
    }
}

/// The text of a block's terminator; a finished module has one in every
/// block, an unfinished block contributes nothing.
pub open spec fn term_text(t: Option<Terminator>) -> Seq<char> {
    match t {
        Some(Terminator::Branch { target }) => "  br block"@ + dec_digits(target as nat) + "\n"@,
        Some(Terminator::CondBranch { if_true, if_false }) => "  cond_br block"@ + dec_digits(
            if_true as nat,
        ) + " block"@ + dec_digits(if_false as nat) + "\n"@,
        Some(Terminator::Return) => "  ret\n"@,
        None => ""@,
    }
}

/// The text of the first `i` instructions of a block.
pub open spec fn instrs_text(s: Seq<Instr>) -> Seq<char>
    decreases s.len(),
{
    if s.len() == 0 {
        Seq::empty()
    } else {
        instrs_text(s.drop_last()) + instr_text(s.last())
    }
}

/// The text of one block: its label line, its instructions, its terminator.
pub open spec fn block_text(bv: BlockView, idx: int) -> Seq<char> {
    "block"@ + dec_digits(idx as nat) + ":\n"@ + instrs_text(bv.instrs) + term_text(bv.term)
}

/// The text of the first `i` blocks.
pub open spec fn blocks_text(blocks: Seq<BlockView>, i: int) -> Seq<char>
    decreases i,
{
    if i <= 0 {
        Seq::empty()
    } else {
        blocks_text(blocks, i - 1) + block_text(blocks[i - 1], i - 1)
    }
}

/// The declarations shared by every generated module: the external
/// allocator and output routines, and the program entry.
pub open spec fn header_text() -> Seq<char> {
    "module bfc\ndeclare calloc(i64 i64) i8ptr\ndeclare putchar(i32) i32\ndefine main() i32\n"@
}

/// The whole textual artifact of a module.
pub open spec fn module_text(m: ModuleView) -> Seq<char> {
    header_text() + blocks_text(m.blocks, m.blocks.len() as int)
}

/// One decimal digit as a borrowed literal.
fn digit_lit(d: u64) -> (s: &'static str)
    requires
        d < 10,
    ensures
        s@ == digit_text(d as nat),
{
    if d == 0 {
        "0"
    } else if d == 1 {
        "1"
    } else if d == 2 {
        "2"
    } else if d == 3 {
        "3"
    } else if d == 4 {
        "4"
    } else if d == 5 {
        "5"
    } else if d == 6 {
        "6"
    } else if d == 7 {
        "7"
    } else if d == 8 {
        "8"
    } else {
        "9"
    }
}

/// Append the decimal digits of `n`.
fn append_dec(out: &mut String, n: u64)
    ensures
        final(out)@ == old(out)@ + dec_digits(n as nat),
    decreases n,
{
    if n >= 10 {
        proof {
            assert(n / 10 < n) by (nonlinear_arith)
                requires
                    n >= 10,
            ;
        }
        append_dec(out, n / 10);
        out.append(digit_lit(n % 10));
        proof {
            assert(old(out)@ + (dec_digits((n / 10) as nat) + digit_text((n % 10) as nat))
                =~= (old(out)@ + dec_digits((n / 10) as nat)) + digit_text((n % 10) as nat));
        }
    } else {
        out.append(digit_lit(n));
    }
}

/// Append a possibly negative offset.
fn append_int(out: &mut String, v: i32)
    ensures
        final(out)@ == old(out)@ + int_text(v as int),
{
    if v < 0 {
        out.append("-");
        let mag = (-(v as i64)) as u64;
        append_dec(out, mag);
        proof {
            assert(old(out)@ + ("-"@ + dec_digits(mag as nat)) =~= (old(out)@ + "-"@)
                + dec_digits(mag as nat));
        }
    } else {
        append_dec(out, v as u64);
    }
}

/// Append the line of one instruction.
fn append_instr(out: &mut String, i: Instr)
    ensures
        final(out)@ == old(out)@ + instr_text(i),
{
    match i {
        Instr::AllocaDataPtr => {
            out.append("  alloca_data_ptr\n");
        }
        Instr::CallCalloc { count, size } => {
            out.append("  call calloc ");
            append_dec(out, count);
            out.append(" ");
            append_dec(out, size);
            out.append("\n");
            proof {
                assert(old(out)@ + ("  call calloc "@ + dec_digits(count as nat) + " "@
                    + dec_digits(size as nat) + "\n"@) =~= ((((old(out)@ + "  call calloc "@)
                    + dec_digits(count as nat)) + " "@) + dec_digits(size as nat)) + "\n"@);
            }
        }
        Instr::StoreDataPtr => {
            out.append("  store_data_ptr\n");
        }
        Instr::LoadDataPtr => {
            out.append("  load_data_ptr\n");
        }
        Instr::LoadCell => {
            out.append("  load_cell\n");
        }
        Instr::AddCell { amount } => {
            out.append("  add_cell ");
            append_dec(out, amount as u64);
            out.append("\n");
            proof {
                assert(old(out)@ + ("  add_cell "@ + dec_digits(amount as nat) + "\n"@) =~= ((old(
                    out,
                )@ + "  add_cell "@) + dec_digits(amount as nat)) + "\n"@);
            }
        }
        Instr::StoreCell => {
            out.append("  store_cell\n");
        }
        Instr::PtrOffset { offset } => {
            out.append("  move_ptr ");
            append_int(out, offset);
            out.append("\n");
            proof {
                assert(old(out)@ + ("  move_ptr "@ + int_text(offset as int) + "\n"@) =~= ((old(
                    out,
                )@ + "  move_ptr "@) + int_text(offset as int)) + "\n"@);
            }
        }
        Instr::SignExtend => {
            out.append("  sign_extend\n");
        }
        Instr::CallPutchar => {
            out.append("  call putchar\n");
        }
        Instr::CompareNeZero => {
            out.append("  cmp_ne_zero\n");
        }
    }
}

/// Append the line of a terminator.
fn append_term(out: &mut String, t: Option<Terminator>)
    ensures
        final(out)@ == old(out)@ + term_text(t),
{
    match t {
        Some(Terminator::Branch { target }) => {
            out.append("  br block");
            append_dec(out, target as u64);
            out.append("\n");
            proof {
                assert(old(out)@ + ("  br block"@ + dec_digits(target as nat) + "\n"@) =~= ((old(
                    out,
                )@ + "  br block"@) + dec_digits(target as nat)) + "\n"@);
            }
        }
        Some(Terminator::CondBranch { if_true, if_false }) => {
            out.append("  cond_br block");
            append_dec(out, if_true as u64);
            out.append(" block");
            append_dec(out, if_false as u64);
            out.append("\n");
            proof {
                assert(old(out)@ + ("  cond_br block"@ + dec_digits(if_true as nat) + " block"@
                    + dec_digits(if_false as nat) + "\n"@) =~= ((((old(out)@ + "  cond_br block"@)
                    + dec_digits(if_true as nat)) + " block"@) + dec_digits(if_false as nat))
                    + "\n"@);
            }
        }
        Some(Terminator::Return) => {
            out.append("  ret\n");
        }
        None => {
            proof {
                reveal_strlit("");
                assert(old(out)@ + ""@ =~= old(out)@);
            }
        }
    }
}

/// Append the text of one block.
fn append_block(out: &mut String, b: &BasicBlock, idx: usize)
    ensures
        final(out)@ == old(out)@ + block_text(b@, idx as int),
{
    out.append("block");
    append_dec(out, idx as u64);
    out.append(":\n");
    let ghost mid = out@;
    let n = b.instrs.len();
    let mut i: usize = 0;
    proof {
        assert(b.instrs@.take(0) =~= Seq::<Instr>::empty());
        assert(out@ + Seq::<char>::empty() =~= out@);
    }
    while i < n
        invariant
            i <= n,
            n == b.instrs@.len(),
            out@ == mid + instrs_text(b.instrs@.take(i as int)),
        decreases n - i,
    {
        proof {
            assert(b.instrs@.take(i + 1).drop_last() =~= b.instrs@.take(i as int));
            assert(b.instrs@.take(i + 1).last() == b.instrs@[i as int]);
        }
        append_instr(out, b.instrs[i]);
        proof {
            assert(out@ =~= mid + (instrs_text(b.instrs@.take(i as int)) + instr_text(
                b.instrs@[i as int],
            )));
        }
        i = i + 1;
    }
    proof {
        assert(b.instrs@.take(n as int) =~= b.instrs@);
    }
    append_term(out, b.term);
    proof {
        assert(out@ =~= old(out)@ + ("block"@ + dec_digits(idx as nat) + ":\n"@ + instrs_text(
            b.instrs@,
        ) + term_text(b.term)));
    }
}

/// Serialize the whole module to its textual artifact.
pub fn module_to_text(m: &IrModule) -> (out: String)
    ensures
        out@ == module_text(m@),
{
    let mut out = String::new();
    out.append(
        "module bfc\ndeclare calloc(i64 i64) i8ptr\ndeclare putchar(i32) i32\ndefine main() i32\n",
    );
    let ghost hdr = out@;
    let n = m.blocks.len();
    let mut i: usize = 0;
    proof {
        assert(out@ + Seq::<char>::empty() =~= out@);
    }
    while i < n
        invariant
            i <= n,
            n == m.blocks@.len(),
            hdr == header_text(),
            out@ == hdr + blocks_text(m@.blocks, i as int),
        decreases n - i,
    {
        append_block(&mut out, &m.blocks[i], i);
        proof {
            assert(m@.blocks[i as int] == m.blocks@[i as int]@);
            assert(out@ =~= hdr + (blocks_text(m@.blocks, i as int) + block_text(
                m@.blocks[i as int],
                i as int,
            )));
        }
        i = i + 1;
    }
    proof {
        assert(m@.blocks.len() == m.blocks@.len());
    }
    out
}

} // verus!
