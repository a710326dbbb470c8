//! Lowering: the syntax tree becomes one function with an explicit
//! basic-block control-flow graph over a flat byte tape.
//!
//! Basic blocks live in a growable list and are named by index, so the graph
//! needs no pointers and no cycles in the data. One cursor names the block
//! instructions are currently appended to. Each loop allocates three blocks
//! (condition check, body entry, exit), branches into the check, and pushes
//! a context on an explicit stack; the close marker that follows the loop
//! pops the context, emits the back-edge to the check, and moves the cursor
//! to the exit. The whole lowering is mirrored by spec functions, and every
//! emitting function is proved equal to its spec counterpart.

use vstd::prelude::*;

use crate::lexer::Token;
use crate::lexer::balanced;
use crate::lexer::bracket_sum;
use crate::lexer::lemma_bracket_sum_concat;
use crate::parser::Node;
use crate::parser::flat_node;
use crate::parser::flat_nodes;
use crate::parser::lemma_flat_node_nonempty;
use crate::parser::lemma_flat_nodes_skip_succ;
use crate::parser::lemma_flat_nodes_split;
use crate::parser::lemma_flat_nodes_take_succ;
use crate::parser::node_children;
use crate::parser::wf_nodes;

verus! {

broadcast use vstd::std_specs::vec::axiom_spec_len;

/// Cells of the memory tape, allocated once at function entry.
pub const TAPE_CELLS: u64 = 1024;

/// The primitive value types of the generated function.
#[derive(Debug, PartialEq, Eq, Structural, Clone, Copy)]
pub enum IrType {
    I8,
    I32,
    I64,
    PtrI8,
}

/// The signature of one routine of the generated module.
#[derive(Debug, PartialEq, Eq)]
pub struct FnSig {
    pub params: Vec<IrType>,
    pub ret: IrType,
}

/// The shared type and signature descriptors of the generated module: the
/// program entry takes nothing and returns a machine integer; the external
/// allocator takes a count and an element size and returns a byte pointer;
/// the external output routine takes and returns a machine integer.
pub struct Types {
    pub i32_type: IrType,
    pub i64_type: IrType,
    pub i8_type: IrType,
    pub i8_ptr_type: IrType,
    pub main_fn_type: FnSig,
    pub calloc_fn_type: FnSig,
    pub putchar_fn_type: FnSig,
}

impl Types {
    /// The fixed descriptors every generated module shares.
    pub fn new() -> (t: Types)
        ensures
            t.i32_type == IrType::I32,
            t.i64_type == IrType::I64,
            t.i8_type == IrType::I8,
            t.i8_ptr_type == IrType::PtrI8,
            t.main_fn_type.params@ == Seq::<IrType>::empty(),
            t.main_fn_type.ret == IrType::I32,
            t.calloc_fn_type.params@ == seq![IrType::I64, IrType::I64],
            t.calloc_fn_type.ret == IrType::PtrI8,
            t.putchar_fn_type.params@ == seq![IrType::I32],
            t.putchar_fn_type.ret == IrType::I32,
    {
        let mut calloc_params: Vec<IrType> = Vec::new();
        calloc_params.push(IrType::I64);
        calloc_params.push(IrType::I64);
        let mut putchar_params: Vec<IrType> = Vec::new();
        putchar_params.push(IrType::I32);
        proof {
            assert(calloc_params@ =~= seq![IrType::I64, IrType::I64]);
            assert(putchar_params@ =~= seq![IrType::I32]);
        }
        Types {
            i32_type: IrType::I32,
            i64_type: IrType::I64,
            i8_type: IrType::I8,
            i8_ptr_type: IrType::PtrI8,
            main_fn_type: FnSig { params: Vec::new(), ret: IrType::I32 },
            calloc_fn_type: FnSig { params: calloc_params, ret: IrType::PtrI8 },
            putchar_fn_type: FnSig { params: putchar_params, ret: IrType::I32 },
        }
    }
}

/// One instruction of a basic block. The generated function keeps its data
/// pointer in one stack slot; an instruction that produces a value hands it
/// implicitly to the next instruction that consumes one.
#[derive(Debug, PartialEq, Eq, Structural, Clone, Copy)]
pub enum Instr {
    /// Reserve the slot that holds the data pointer.
    AllocaDataPtr,
    /// Call the external allocator for `count` zeroed cells of `size` bytes.
    CallCalloc { count: u64, size: u64 },
    /// Store the pointer just produced into the data-pointer slot.
    StoreDataPtr,
    /// Load the data pointer from its slot.
    LoadDataPtr,
    /// Load the cell byte the loaded data pointer addresses.
    LoadCell,
    /// Add `amount` to the loaded byte, with eight-bit wraparound.
    AddCell { amount: u8 },
    /// Store the byte just computed back through the loaded data pointer.
    StoreCell,
    /// Offset the loaded data pointer by `offset` cells, without any bounds
    /// check: out-of-range addressing is the generated program's own
    /// undefined behavior.
    PtrOffset { offset: i32 },
    /// Sign-extend the loaded byte to the output routine's parameter width.
    SignExtend,
    /// Call the external single-character output routine.
    CallPutchar,
    /// Compare the loaded byte against zero (not equal).
    CompareNeZero,
}

/// The single control transfer that ends a finished basic block.
#[derive(Debug, PartialEq, Eq, Structural, Clone, Copy)]
pub enum Terminator {
    /// Unconditional branch to the block of the given index.
    Branch { target: usize },
    /// Branch on the comparison the block just computed.
    CondBranch { if_true: usize, if_false: usize },
    /// Return from the generated function.
    Return,
}

/// The mathematical value of one basic block.
#[verifier::ext_equal]
pub struct BlockView {
    pub instrs: Seq<Instr>,
    pub term: Option<Terminator>,
}

/// One basic block: an ordered instruction list and, once the block is
/// finished, exactly one terminator.
#[derive(Debug)]
pub struct BasicBlock {
    pub instrs: Vec<Instr>,
    pub term: Option<Terminator>,
}

impl View for BasicBlock {
    type V = BlockView;

    open spec fn view(&self) -> BlockView {
        BlockView { instrs: self.instrs@, term: self.term }
    }
}

/// The mathematical value of a generated module.
#[verifier::ext_equal]
pub struct ModuleView {
    pub blocks: Seq<BlockView>,
}

/// The generated module: one function as a flat list of basic blocks; the
/// block of index zero is the entry.
#[derive(Debug)]
pub struct IrModule {
    pub blocks: Vec<BasicBlock>,
}

impl View for IrModule {
    type V = ModuleView;

    open spec fn view(&self) -> ModuleView {
        ModuleView { blocks: self.blocks@.map_values(|b: BasicBlock| b@) }
    }
}

/// The three blocks of one loop being generated: its condition check, its
/// body entry, and the block following the loop.
#[derive(Debug, PartialEq, Eq, Structural, Clone, Copy)]
pub struct Loop {
    pub check: usize,
    pub if_true: usize,
    pub if_false: usize,
}

/// The whole state of one generation in flight: the blocks so far, the
/// index of the block under the emission cursor, and the stack of open
/// loop contexts.
#[verifier::ext_equal]
pub struct GenState {
    pub blocks: Seq<BlockView>,
    pub cur: int,
    pub stack: Seq<Loop>,
}

/// The generation state is usable: the cursor names a block and every open
/// context names blocks.
pub open spec fn builder_ok(st: GenState) -> bool {
    &&& 0 <= st.cur < st.blocks.len()
    &&& forall|k: int|
        0 <= k < st.stack.len() ==> (#[trigger] st.stack[k]).check < st.blocks.len()
            && st.stack[k].if_true < st.blocks.len() && st.stack[k].if_false < st.blocks.len()
}

/// Append one instruction to the block under the cursor.
pub open spec fn spec_emit(st: GenState, ins: Instr) -> GenState {
    GenState {
        blocks: st.blocks.update(
            st.cur,
            BlockView { instrs: st.blocks[st.cur].instrs.push(ins), term: st.blocks[st.cur].term },
        ),
        cur: st.cur,
        stack: st.stack,
    }
}

/// Give the block under the cursor its terminator.
pub open spec fn spec_terminate(st: GenState, t: Terminator) -> GenState {
    GenState {
        blocks: st.blocks.update(
            st.cur,
            BlockView { instrs: st.blocks[st.cur].instrs, term: Some(t) },
        ),
        cur: st.cur,
        stack: st.stack,
    }
}

/// Append one fresh, empty, unterminated block.
pub open spec fn spec_add_block(st: GenState) -> GenState {
    GenState {
        blocks: st.blocks.push(BlockView { instrs: Seq::empty(), term: None }),
        cur: st.cur,
        stack: st.stack,
    }
}

/// Open a loop: allocate check, body and exit blocks, branch from the
/// current block into the check, emit the zero test there, branch on it,
/// and leave the cursor at the body entry with the context pushed.
pub open spec fn spec_start_loop(st: GenState) -> GenState {
    let check = st.blocks.len() as int;
    let ctx = Loop {
        check: check as usize,
        if_true: (check + 1) as usize,
        if_false: (check + 2) as usize,
    };
    let st1 = spec_add_block(spec_add_block(spec_add_block(st)));
    let st2 = spec_terminate(st1, Terminator::Branch { target: ctx.check });
    let st3 = GenState { blocks: st2.blocks, cur: check, stack: st2.stack };
    let st4 = spec_emit(spec_emit(spec_emit(st3, Instr::LoadDataPtr), Instr::LoadCell), Instr::CompareNeZero);
    let st5 = spec_terminate(
        st4,
        Terminator::CondBranch { if_true: ctx.if_true, if_false: ctx.if_false },
    );
    GenState { blocks: st5.blocks, cur: check + 1, stack: st5.stack.push(ctx) }
}

/// Close the innermost loop: pop its context, emit the back-edge from the
/// current block to the context's check, and move the cursor to the exit so
/// later siblings land after the loop. Without an open context the state is
/// left unchanged; lowering never reaches that case on well-formed input.
pub open spec fn spec_close_loop(st: GenState) -> GenState {
    if st.stack.len() == 0 {
        st
    } else {
        let ctx = st.stack.last();
        let st1 = spec_terminate(st, Terminator::Branch { target: ctx.check });
        GenState { blocks: st1.blocks, cur: ctx.if_false as int, stack: st.stack.drop_last() }
    }
}

/// Lower one node of the syntax tree.
pub open spec fn spec_lower_node(st: GenState, n: Node) -> GenState
    decreases n,
{
    match n {
        Node::PlusNode => spec_emit(
            spec_emit(
                spec_emit(spec_emit(st, Instr::LoadDataPtr), Instr::LoadCell),
                Instr::AddCell { amount: 1 },
            ),
            Instr::StoreCell,
        ),
        Node::MinusNode => spec_emit(
            spec_emit(
                spec_emit(spec_emit(st, Instr::LoadDataPtr), Instr::LoadCell),
                Instr::AddCell { amount: 255 },
            ),
            Instr::StoreCell,
        ),
        Node::IncrementPtrNode => spec_emit(
            spec_emit(spec_emit(st, Instr::LoadDataPtr), Instr::PtrOffset { offset: 1 }),
            Instr::StoreDataPtr,
        ),
        Node::DecrementPtrNode => spec_emit(
            spec_emit(spec_emit(st, Instr::LoadDataPtr), Instr::PtrOffset { offset: -1i32 }),
            Instr::StoreDataPtr,
        ),
        Node::PrintCurrPosNode => spec_emit(
            spec_emit(spec_emit(spec_emit(st, Instr::LoadDataPtr), Instr::LoadCell), Instr::SignExtend),
            Instr::CallPutchar,
        ),
        Node::LoopCloseNode => spec_close_loop(st),
        Node::Expr(_) => st,
        Node::LoopExpr(v) => spec_lower_nodes(spec_start_loop(st), v@),
    }
}

/// Lower a node list left to right, sharing one evolving state.
pub open spec fn spec_lower_nodes(st: GenState, s: Seq<Node>) -> GenState
    decreases s,
{
    if s.len() == 0 {
        st
    } else {
        spec_lower_nodes(spec_lower_node(st, s[0]), s.drop_first())
    }
}

/// The entry prologue: one block holding the data-pointer slot, the tape
/// allocation, and the store of the returned pointer.
pub open spec fn spec_prologue() -> GenState {
    let st0 = GenState {
        blocks: seq![BlockView { instrs: Seq::empty(), term: None }],
        cur: 0,
        stack: Seq::empty(),
    };
    spec_emit(
        spec_emit(
            spec_emit(st0, Instr::AllocaDataPtr),
            Instr::CallCalloc { count: TAPE_CELLS, size: 1 },
        ),
        Instr::StoreDataPtr,
    )
}

/// The whole generation: prologue, lowering of the top-level sequence, and
/// the final return terminator in the block left under the cursor.
pub open spec fn spec_generate(input: Node) -> GenState {
    let st1 = spec_prologue();
    let st2 = if input is Expr {
        spec_lower_nodes(st1, node_children(input))
    } else {
        st1
    };
    spec_terminate(st2, Terminator::Return)
}

/// Every prefix of the token span keeps at least `d` contexts available:
/// lowering it from a stack of depth `d` never pops an empty stack.
pub open spec fn sums_ok(toks: Seq<Token>, d: int) -> bool {
    forall|i: int| 0 <= i <= toks.len() ==> d + bracket_sum(#[trigger] toks.take(i)) >= 0
}

/// The function under construction: its blocks, the emission cursor, and
/// the stack of open loop contexts.
pub struct FuncBuilder {
    pub blocks: Vec<BasicBlock>,
    pub cur: usize,
    pub stack: Vec<Loop>,
}

impl View for FuncBuilder {
    type V = GenState;

    open spec fn view(&self) -> GenState {
        GenState {
            blocks: self.blocks@.map_values(|b: BasicBlock| b@),
            cur: self.cur as int,
            stack: self.stack@,
        }
    }
}

/// Append one instruction to the block under the cursor.
fn emit(fb: &mut FuncBuilder, ins: Instr)
    requires
        builder_ok(old(fb)@),
    ensures
        final(fb)@ == spec_emit(old(fb)@, ins),
        builder_ok(final(fb)@),
{
    let c = fb.cur;
    fb.blocks[c].instrs.push(ins);
    proof {
        assert(final(fb)@.blocks =~= spec_emit(old(fb)@, ins).blocks);
        assert(final(fb)@ =~= spec_emit(old(fb)@, ins));
    }
}

/// Give the block under the cursor its terminator.
fn set_term(fb: &mut FuncBuilder, t: Terminator)
    requires
        builder_ok(old(fb)@),
    ensures
        final(fb)@ == spec_terminate(old(fb)@, t),
        builder_ok(final(fb)@),
{
    let c = fb.cur;
    fb.blocks[c].term = Some(t);
    proof {
        assert(final(fb)@.blocks =~= spec_terminate(old(fb)@, t).blocks);
        assert(final(fb)@ =~= spec_terminate(old(fb)@, t));
    }
}

/// Append one fresh, empty, unterminated block.
fn add_block(fb: &mut FuncBuilder)
    requires
        builder_ok(old(fb)@),
    ensures
        final(fb)@ == spec_add_block(old(fb)@),
        builder_ok(final(fb)@),
{
    fb.blocks.push(BasicBlock { instrs: Vec::new(), term: None });
    proof {
        assert(final(fb)@.blocks =~= spec_add_block(old(fb)@).blocks);
        assert(final(fb)@ =~= spec_add_block(old(fb)@));
    }
}

/// Lowering one more node continues from the state the prefix reached.
pub proof fn lemma_lower_nodes_snoc(st: GenState, s: Seq<Node>, n: Node)
    ensures
        spec_lower_nodes(st, s.push(n)) == spec_lower_node(spec_lower_nodes(st, s), n),
    decreases s.len(),
{
    if s.len() == 0 {
        assert(s.push(n)[0] == n);
        assert(s.push(n).drop_first() =~= Seq::<Node>::empty());
        assert(spec_lower_nodes(spec_lower_node(st, n), Seq::<Node>::empty()) == spec_lower_node(
            st,
            n,
        ));
        assert(spec_lower_nodes(st, Seq::<Node>::empty()) == st);
    } else {
        lemma_lower_nodes_snoc(spec_lower_node(st, s[0]), s.drop_first(), n);
        assert(s.push(n)[0] == s[0]);
        assert(s.push(n).drop_first() =~= s.drop_first().push(n));
    }
}

/// Splitting a token span splits its availability bound.
pub proof fn lemma_sums_ok_shift(a: Seq<Token>, b: Seq<Token>, d: int)
    requires
        sums_ok(a + b, d),
    ensures
        sums_ok(a, d),
        sums_ok(b, d + bracket_sum(a)),
{
    assert forall|p: int| 0 <= p <= a.len() implies d + bracket_sum(#[trigger] a.take(p)) >= 0 by {
        assert((a + b).take(p) =~= a.take(p));
    }
    assert forall|p: int| 0 <= p <= b.len() implies d + bracket_sum(a) + bracket_sum(
        #[trigger] b.take(p),
    ) >= 0 by {
        assert((a + b).take(a.len() as int + p) =~= a + b.take(p));
        lemma_bracket_sum_concat(a, b.take(p));
    }
}

/// The bracket sum of each single token.
proof fn lemma_bracket_sum_units()
    ensures
        bracket_sum(seq![Token::LeftBracketToken]) == 1,
        bracket_sum(seq![Token::RightBracketToken]) == -1,
        bracket_sum(seq![Token::PlusToken]) == 0,
        bracket_sum(seq![Token::MinusToken]) == 0,
        bracket_sum(seq![Token::GreaterThanToken]) == 0,
        bracket_sum(seq![Token::SmallerThanToken]) == 0,
        bracket_sum(seq![Token::DotToken]) == 0,
{
    assert(bracket_sum(Seq::<Token>::empty()) == 0);
    assert(seq![Token::LeftBracketToken].drop_last() =~= Seq::<Token>::empty());
    assert(seq![Token::RightBracketToken].drop_last() =~= Seq::<Token>::empty());
    assert(seq![Token::PlusToken].drop_last() =~= Seq::<Token>::empty());
    assert(seq![Token::MinusToken].drop_last() =~= Seq::<Token>::empty());
    assert(seq![Token::GreaterThanToken].drop_last() =~= Seq::<Token>::empty());
    assert(seq![Token::SmallerThanToken].drop_last() =~= Seq::<Token>::empty());
    assert(seq![Token::DotToken].drop_last() =~= Seq::<Token>::empty());
}

/// Whether a block's terminator is an unconditional branch to block `c`.
pub open spec fn is_branch_to(bv: BlockView, c: int) -> bool {
    match bv.term {
        Some(Terminator::Branch { target }) => target == c,
        _ => false,
    }
}

/// Whether block `j` is a loop check: it ends in a conditional branch.
pub open spec fn is_check(blocks: Seq<BlockView>, j: int) -> bool {
    match blocks[j].term {
        Some(Terminator::CondBranch { .. }) => true,
        _ => false,
    }
}

/// How many blocks with index in `[lo, hi)` branch unconditionally to `c`.
pub open spec fn count_branches_to(blocks: Seq<BlockView>, c: int, lo: int, hi: int) -> int
    decreases hi - lo,
{
    if lo >= hi {
        0
    } else {
        count_branches_to(blocks, c, lo, hi - 1) + (if 0 <= hi - 1 < blocks.len()
            && is_branch_to(blocks[hi - 1], c) {
            1int
        } else {
            0int
        })
    }
}

/// Counting only reads the terminators of the range.
proof fn lemma_count_frame(b1: Seq<BlockView>, b2: Seq<BlockView>, c: int, lo: int, hi: int)
    requires
        b1.len() == b2.len(),
        forall|j: int|
            lo <= j < hi && 0 <= j < b1.len() ==> (#[trigger] b1[j]).term == b2[j].term,
    ensures
        count_branches_to(b1, c, lo, hi) == count_branches_to(b2, c, lo, hi),
    decreases hi - lo,
{
    if lo < hi {
        lemma_count_frame(b1, b2, c, lo, hi - 1);
    }
}

/// A range without a branch to `c` counts zero.
proof fn lemma_count_zero(b: Seq<BlockView>, c: int, lo: int, hi: int)
    requires
        forall|j: int| lo <= j < hi && 0 <= j < b.len() ==> !is_branch_to(#[trigger] b[j], c),
    ensures
        count_branches_to(b, c, lo, hi) == 0,
    decreases hi - lo,
{
    if lo < hi {
        lemma_count_zero(b, c, lo, hi - 1);
    }
}

/// Counting splits at any point of the range.
proof fn lemma_count_split(b: Seq<BlockView>, c: int, lo: int, mid: int, hi: int)
    requires
        lo <= mid <= hi,
    ensures
        count_branches_to(b, c, lo, hi) == count_branches_to(b, c, lo, mid) + count_branches_to(
            b,
            c,
            mid,
            hi,
        ),
    decreases hi - mid,
{
    if mid < hi {
        lemma_count_split(b, c, lo, mid, hi - 1);
    }
}

/// Replacing one block changes a count by the two contributions.
proof fn lemma_count_update(b: Seq<BlockView>, c: int, lo: int, hi: int, j: int, bv: BlockView)
    requires
        lo <= j < hi,
        0 <= j < b.len(),
    ensures
        count_branches_to(b.update(j, bv), c, lo, hi) == count_branches_to(b, c, lo, hi) + (
        if is_branch_to(bv, c) {
            1int
        } else {
            0int
        }) - (if is_branch_to(b[j], c) {
            1int
        } else {
            0int
        }),
{
    lemma_count_split(b, c, lo, j, hi);
    lemma_count_split(b.update(j, bv), c, lo, j, hi);
    lemma_count_frame(b, b.update(j, bv), c, lo, j);
    assert(count_branches_to(b, c, j, j) == 0);
    assert(count_branches_to(b.update(j, bv), c, j, j) == 0);
    assert(b.update(j, bv)[j] == bv);
    assert(count_branches_to(b, c, j, hi) == count_branches_to(b, c, j, j + 1)
        + count_branches_to(b, c, j + 1, hi)) by {
        lemma_count_split(b, c, j, j + 1, hi);
    }
    assert(count_branches_to(b.update(j, bv), c, j, hi) == count_branches_to(
        b.update(j, bv),
        c,
        j,
        j + 1,
    ) + count_branches_to(b.update(j, bv), c, j + 1, hi)) by {
        lemma_count_split(b.update(j, bv), c, j, j + 1, hi);
    }
    lemma_count_frame(b, b.update(j, bv), c, j + 1, hi);
}

/// Whether some open context's exit block is block `j`.
pub open spec fn on_stack_exit(st: GenState, j: int) -> bool {
    exists|k: int| 0 <= k < st.stack.len() && (#[trigger] st.stack[k]).if_false == j
}

/// Whether some open context's check block is block `j`.
pub open spec fn on_stack_check(st: GenState, j: int) -> bool {
    exists|k: int| 0 <= k < st.stack.len() && (#[trigger] st.stack[k]).check == j
}

/// The terminator of block `j` is well formed: branch targets exist, and a
/// conditional branch goes to the very next block on true (the loop body)
/// and to the one after on false (the block following the loop).
pub open spec fn block_term_ok(blocks: Seq<BlockView>, j: int) -> bool {
    match blocks[j].term {
        Some(Terminator::Branch { target }) => target < blocks.len(),
        Some(Terminator::CondBranch { if_true, if_false }) => if_true == j + 1 && if_false == j
            + 2 && j + 2 < blocks.len(),
        _ => true,
    }
}

/// The structural invariant of generation. Unterminated blocks are exactly
/// the block under the cursor and the exit blocks of open loops; every
/// terminator is well formed; every check block has exactly one entry edge
/// from before it, and its back-edge exactly when its loop is closed; open
/// contexts name consecutive fresh blocks, nest in order, and lie behind
/// the cursor.
pub open spec fn cfg_inv(st: GenState) -> bool {
    &&& builder_ok(st)
    &&& st.blocks[st.cur].term is None
    &&& forall|j: int|
        0 <= j < st.blocks.len() && (#[trigger] st.blocks[j]).term is None ==> j == st.cur
            || on_stack_exit(st, j)
    &&& forall|j: int| 0 <= j < st.blocks.len() ==> #[trigger] block_term_ok(st.blocks, j)
    &&& forall|j: int|
        0 <= j < st.blocks.len() && #[trigger] is_check(st.blocks, j) ==> count_branches_to(
            st.blocks,
            j,
            0,
            j,
        ) == 1 && count_branches_to(st.blocks, j, j, st.blocks.len() as int) == (
        if on_stack_check(st, j) {
            0int
        } else {
            1int
        })
    &&& forall|k: int|
        0 <= k < st.stack.len() ==> {
            let ctx = #[trigger] st.stack[k];
            &&& ctx.if_true == ctx.check + 1
            &&& ctx.if_false == ctx.check + 2
            &&& ctx.check + 2 < st.blocks.len()
            &&& is_check(st.blocks, ctx.check as int)
            &&& st.blocks[ctx.if_false as int].term is None
            &&& (ctx.check as int) < st.cur
            &&& ctx.if_false as int != st.cur
        }
    &&& forall|k1: int, k2: int|
        0 <= k1 < k2 < st.stack.len() ==> (#[trigger] st.stack[k1]).check < (
        #[trigger] st.stack[k2]).check
}

/// The finished graph is well formed: every block has exactly one
/// terminator, every target exists, every check branches to its body and
/// its post-loop block, and every check has exactly one entry edge before
/// it and exactly one back-edge after it.
pub open spec fn cfg_wf(blocks: Seq<BlockView>) -> bool {
    &&& forall|j: int| 0 <= j < blocks.len() ==> (#[trigger] blocks[j]).term is Some
    &&& forall|j: int| 0 <= j < blocks.len() ==> #[trigger] block_term_ok(blocks, j)
    &&& forall|j: int|
        0 <= j < blocks.len() && #[trigger] is_check(blocks, j) ==> count_branches_to(
            blocks,
            j,
            0,
            j,
        ) == 1 && count_branches_to(blocks, j, j, blocks.len() as int) == 1
}

/// A state with the same cursor, stack, block count and terminators as a
/// structurally sound state is itself structurally sound.
proof fn lemma_cfg_same_terms(st: GenState, st2: GenState)
    requires
        cfg_inv(st),
        st2.cur == st.cur,
        st2.stack == st.stack,
        st2.blocks.len() == st.blocks.len(),
        forall|j: int|
            0 <= j < st.blocks.len() ==> (#[trigger] st2.blocks[j]).term == st.blocks[j].term,
    ensures
        cfg_inv(st2),
{
    let n = st.blocks.len() as int;
    assert forall|j: int| 0 <= j < n implies #[trigger] block_term_ok(st2.blocks, j) by {
        assert(block_term_ok(st.blocks, j));
    }
    assert forall|j: int|
        0 <= j < n && #[trigger] is_check(st2.blocks, j) implies count_branches_to(
        st2.blocks,
        j,
        0,
        j,
    ) == 1 && count_branches_to(st2.blocks, j, j, n) == (if on_stack_check(st2, j) {
        0int
    } else {
        1int
    }) by {
        assert(is_check(st.blocks, j));
        lemma_count_frame(st.blocks, st2.blocks, j, 0, j);
        lemma_count_frame(st.blocks, st2.blocks, j, j, n);
    }
}

/// Emitting an instruction preserves the structural invariant.
proof fn lemma_cfg_emit(st: GenState, ins: Instr)
    requires
        cfg_inv(st),
    ensures
        cfg_inv(spec_emit(st, ins)),
{
    lemma_cfg_same_terms(st, spec_emit(st, ins));
}

/// Opening a loop preserves the structural invariant.
proof fn lemma_cfg_start_loop(st: GenState)
    requires
        cfg_inv(st),
        st.blocks.len() + 2 <= usize::MAX,
    ensures
        cfg_inv(spec_start_loop(st)),
{
    let st2 = spec_start_loop(st);
    let bl = st.blocks;
    let n = bl.len() as int;
    let c = n;
    let b = st2.blocks;
    assert(b.len() == n + 3);
    assert(b[st.cur].term == Some(Terminator::Branch { target: c as usize }));
    assert(b[c] matches BlockView { term: Some(Terminator::CondBranch { if_true, if_false }), .. }
        && if_true == c + 1 && if_false == c + 2);
    assert(b[c + 1].term is None);
    assert(b[c + 2].term is None);
    assert forall|j: int| 0 <= j < n && j != st.cur implies (#[trigger] b[j]).term == bl[j].term
        by {}
    // every old terminator target misses the fresh check block
    assert forall|j: int| 0 <= j < n implies !is_branch_to(#[trigger] bl[j], c) by {
        assert(block_term_ok(bl, j));
    }
    // terminators are well formed
    assert forall|j: int| 0 <= j < b.len() implies #[trigger] block_term_ok(b, j) by {
        if j < n && j != st.cur {
            assert(block_term_ok(bl, j));
        }
    }
    // entry and back-edge counts of each check block
    assert forall|j: int|
        0 <= j < b.len() && #[trigger] is_check(b, j) implies count_branches_to(b, j, 0, j) == 1
        && count_branches_to(b, j, j, b.len() as int) == (if on_stack_check(st2, j) {
        0int
    } else {
        1int
    }) by {
        if j < n {
            assert(j != st.cur);
            assert(is_check(bl, j));
            assert(count_branches_to(bl, j, 0, j) == 1);
            assert(count_branches_to(bl, j, j, n) == (if on_stack_check(st, j) {
                0int
            } else {
                1int
            }));
            if st.cur < j {
                lemma_count_frame_range(bl, b, j, 0, j, st.cur, c);
                lemma_count_frame_range(bl, b, j, j, n, st.cur, c);
            } else {
                lemma_count_frame_range(bl, b, j, 0, j, st.cur, c);
                lemma_count_frame_range(bl, b, j, j, n, st.cur, c);
            }
            assert(count_branches_to(b, j, n, n + 3) == 0) by {
                lemma_count_zero(b, j, n, n + 3);
            }
            lemma_count_split(b, j, j, n, n + 3);
            assert(on_stack_check(st2, j) == on_stack_check(st, j)) by {
                if on_stack_check(st, j) {
                    let k = choose|k: int|
                        0 <= k < st.stack.len() && (#[trigger] st.stack[k]).check == j;
                    assert(st2.stack[k].check == j);
                }
                if on_stack_check(st2, j) {
                    let k = choose|k: int|
                        0 <= k < st2.stack.len() && (#[trigger] st2.stack[k]).check == j;
                    assert(k < st.stack.len());
                    assert(st.stack[k].check == j);
                }
            }
        } else {
            assert(j == c);
            assert(count_branches_to(b, c, 0, c) == 1) by {
                lemma_count_zero(bl, c, 0, c);
                lemma_count_frame_entry(bl, b, c, st.cur);
            }
            assert(count_branches_to(b, c, c, c + 3) == 0) by {
                lemma_count_zero(b, c, c, c + 3);
            }
            assert(on_stack_check(st2, c)) by {
                assert(st2.stack[st.stack.len() as int].check == c);
            }
        }
    }
    // unterminated blocks are the cursor and the open exits
    assert forall|j: int|
        0 <= j < b.len() && (#[trigger] b[j]).term is None implies j == st2.cur || on_stack_exit(
        st2,
        j,
    ) by {
        if j < n && j != st.cur {
            assert(bl[j].term is None);
            if j != st.cur {
                if on_stack_exit(st, j) {
                    let k = choose|k: int|
                        0 <= k < st.stack.len() && (#[trigger] st.stack[k]).if_false == j;
                    assert(st2.stack[k].if_false == j);
                }
            }
        } else if j == c + 2 {
            assert(st2.stack[st.stack.len() as int].if_false == j);
        }
    }
    // the open contexts still name their blocks correctly
    assert forall|k: int| 0 <= k < st2.stack.len() implies {
        let ctx = #[trigger] st2.stack[k];
        &&& ctx.if_true == ctx.check + 1
        &&& ctx.if_false == ctx.check + 2
        &&& ctx.check + 2 < st2.blocks.len()
        &&& is_check(st2.blocks, ctx.check as int)
        &&& st2.blocks[ctx.if_false as int].term is None
        &&& (ctx.check as int) < st2.cur
        &&& ctx.if_false as int != st2.cur
    } by {
        if k < st.stack.len() {
            let ctx = st.stack[k];
            assert(st2.stack[k] == ctx);
            assert(is_check(bl, ctx.check as int));
            assert(ctx.check as int != st.cur);
            assert(ctx.if_false as int != st.cur);
        }
    }
}

/// Counting is unchanged by the loop-opening rewrite outside the fresh
/// blocks, because the only changed old terminator branches to the fresh
/// check and contributes to no older count.
proof fn lemma_count_frame_range(
    bl: Seq<BlockView>,
    b: Seq<BlockView>,
    target: int,
    lo: int,
    hi: int,
    cur: int,
    c: int,
)
    requires
        hi <= bl.len(),
        target < c,
        c <= usize::MAX,
        0 <= cur < bl.len(),
        b.len() >= bl.len(),
        forall|j: int| 0 <= j < bl.len() && j != cur ==> (#[trigger] b[j]).term == bl[j].term,
        b[cur].term == Some(Terminator::Branch { target: c as usize }),
        bl[cur].term is None,
        c == bl.len(),
    ensures
        count_branches_to(b, target, lo, hi) == count_branches_to(bl, target, lo, hi),
    decreases hi - lo,
{
    if lo < hi {
        lemma_count_frame_range(bl, b, target, lo, hi - 1, cur, c);
        if hi - 1 == cur {
            assert(!is_branch_to(b[cur], target));
            assert(!is_branch_to(bl[cur], target));
        }
    }
}

/// The fresh check block's only entry edge is the branch just written.
proof fn lemma_count_frame_entry(bl: Seq<BlockView>, b: Seq<BlockView>, c: int, cur: int)
    requires
        0 <= cur < bl.len(),
        c == bl.len(),
        c <= usize::MAX,
        b.len() >= bl.len(),
        forall|j: int| 0 <= j < bl.len() && j != cur ==> (#[trigger] b[j]).term == bl[j].term,
        b[cur].term == Some(Terminator::Branch { target: c as usize }),
        count_branches_to(bl, c, 0, c) == 0,
        forall|j: int| 0 <= j < bl.len() ==> !is_branch_to(#[trigger] bl[j], c),
    ensures
        count_branches_to(b, c, 0, c) == 1,
{
    lemma_count_entry_rec(bl, b, c, cur, 0, c);
}

/// Helper induction for the entry count of the fresh check block.
proof fn lemma_count_entry_rec(bl: Seq<BlockView>, b: Seq<BlockView>, c: int, cur: int, lo: int, hi: int)
    requires
        0 <= cur < bl.len(),
        c == bl.len(),
        c <= usize::MAX,
        b.len() >= bl.len(),
        forall|j: int| 0 <= j < bl.len() && j != cur ==> (#[trigger] b[j]).term == bl[j].term,
        b[cur].term == Some(Terminator::Branch { target: c as usize }),
        forall|j: int| 0 <= j < bl.len() ==> !is_branch_to(#[trigger] bl[j], c),
        hi <= c,
    ensures
        count_branches_to(b, c, lo, hi) == (if lo <= cur < hi {
            1int
        } else {
            0int
        }),
    decreases hi - lo,
{
    if lo < hi {
        lemma_count_entry_rec(bl, b, c, cur, lo, hi - 1);
    }
}

/// Closing a loop preserves the structural invariant.
proof fn lemma_cfg_close_loop(st: GenState)
    requires
        cfg_inv(st),
        st.stack.len() > 0,
    ensures
        cfg_inv(spec_close_loop(st)),
{
    let st2 = spec_close_loop(st);
    let bl = st.blocks;
    let n = bl.len() as int;
    let top = st.stack.last();
    let ktop = st.stack.len() - 1;
    assert(st.stack[ktop as int] == top);
    let c = top.check as int;
    let b = st2.blocks;
    assert(b.len() == n);
    assert(b == bl.update(st.cur, BlockView { instrs: bl[st.cur].instrs, term: Some(
        Terminator::Branch { target: top.check },
    ) }));
    assert forall|j: int| 0 <= j < n && j != st.cur implies (#[trigger] b[j]).term == bl[j].term
        by {}
    assert(b[st.cur].term == Some(Terminator::Branch { target: top.check }));
    assert(c < st.cur);
    assert(st2.cur == top.if_false as int);
    assert(b[st2.cur].term is None) by {
        assert(top.if_false as int != st.cur);
        assert(bl[top.if_false as int].term is None);
    }
    // terminators remain well formed
    assert forall|j: int| 0 <= j < n implies #[trigger] block_term_ok(b, j) by {
        assert(block_term_ok(bl, j));
    }
    // counts: the new branch is the back-edge of the loop just closed
    assert forall|j: int|
        0 <= j < n && #[trigger] is_check(b, j) implies count_branches_to(b, j, 0, j) == 1
        && count_branches_to(b, j, j, n) == (if on_stack_check(st2, j) {
        0int
    } else {
        1int
    }) by {
        assert(j != st.cur);
        assert(is_check(bl, j));
        assert(count_branches_to(bl, j, 0, j) == 1);
        assert(count_branches_to(bl, j, j, n) == (if on_stack_check(st, j) {
            0int
        } else {
            1int
        }));
        if j == c {
            assert(on_stack_check(st, j));
            assert(count_branches_to(bl, j, j, n) == 0);
            assert(count_branches_to(b, j, 0, j) == 1) by {
                lemma_count_frame(bl, b, j, 0, j);
            }
            assert(count_branches_to(b, j, j, n) == 1) by {
                lemma_count_update(bl, j, j, n, st.cur, b[st.cur]);
            }
            assert(!on_stack_check(st2, j)) by {
                if on_stack_check(st2, j) {
                    let k = choose|k: int|
                        0 <= k < st2.stack.len() && (#[trigger] st2.stack[k]).check == j;
                    assert(st.stack[k].check == j);
                    assert(k < ktop);
                    assert(st.stack[k].check < st.stack[ktop as int].check);
                }
            }
        } else {
            assert(!is_branch_to(b[st.cur], j));
            assert(!is_branch_to(bl[st.cur], j));
            if st.cur < j {
                assert(count_branches_to(b, j, 0, j) == 1) by {
                    lemma_count_update(bl, j, 0, j, st.cur, b[st.cur]);
                }
                assert(count_branches_to(b, j, j, n) == count_branches_to(bl, j, j, n)) by {
                    lemma_count_frame(bl, b, j, j, n);
                }
            } else {
                assert(count_branches_to(b, j, 0, j) == 1) by {
                    lemma_count_frame(bl, b, j, 0, j);
                }
                assert(count_branches_to(b, j, j, n) == count_branches_to(bl, j, j, n)) by {
                    lemma_count_update(bl, j, j, n, st.cur, b[st.cur]);
                }
            }
            assert(on_stack_check(st2, j) == on_stack_check(st, j)) by {
                if on_stack_check(st, j) {
                    let k = choose|k: int|
                        0 <= k < st.stack.len() && (#[trigger] st.stack[k]).check == j;
                    assert(k != ktop);
                    assert(st2.stack[k].check == j);
                }
                if on_stack_check(st2, j) {
                    let k = choose|k: int|
                        0 <= k < st2.stack.len() && (#[trigger] st2.stack[k]).check == j;
                    assert(st.stack[k].check == j);
                }
            }
        }
    }
    // unterminated blocks are the new cursor and the remaining open exits
    assert forall|j: int|
        0 <= j < n && (#[trigger] b[j]).term is None implies j == st2.cur || on_stack_exit(
        st2,
        j,
    ) by {
        if j != st.cur {
            assert(bl[j].term is None);
            if j != st.cur && on_stack_exit(st, j) {
                let k = choose|k: int|
                    0 <= k < st.stack.len() && (#[trigger] st.stack[k]).if_false == j;
                if k == ktop {
                    assert(j == st2.cur);
                } else {
                    assert(st2.stack[k].if_false == j);
                }
            }
        }
    }
    // the remaining contexts still name their blocks correctly
    assert forall|k: int| 0 <= k < st2.stack.len() implies {
        let ctx = #[trigger] st2.stack[k];
        &&& ctx.if_true == ctx.check + 1
        &&& ctx.if_false == ctx.check + 2
        &&& ctx.check + 2 < st2.blocks.len()
        &&& is_check(st2.blocks, ctx.check as int)
        &&& st2.blocks[ctx.if_false as int].term is None
        &&& (ctx.check as int) < st2.cur
        &&& ctx.if_false as int != st2.cur
    } by {
        let ctx = st.stack[k];
        assert(st2.stack[k] == ctx);
        assert(ctx.check as int != st.cur);
        assert(is_check(b, ctx.check as int));
        assert(ctx.if_false as int != st.cur);
        assert(bl[ctx.if_false as int].term is None);
        assert(ctx.check < top.check);
    }
}

/// The final return terminator finishes a well-formed graph when every
/// loop has been closed.
proof fn lemma_cfg_finish(st: GenState)
    requires
        cfg_inv(st),
        st.stack.len() == 0,
    ensures
        cfg_wf(spec_terminate(st, Terminator::Return).blocks),
{
    let bl = st.blocks;
    let n = bl.len() as int;
    let b = spec_terminate(st, Terminator::Return).blocks;
    assert(b.len() == n);
    assert forall|j: int| 0 <= j < n && j != st.cur implies (#[trigger] b[j]).term == bl[j].term
        by {}
    assert forall|j: int| 0 <= j < n implies (#[trigger] b[j]).term is Some by {
        if j != st.cur && bl[j].term is None {
            assert(j == st.cur || on_stack_exit(st, j));
        }
    }
    assert forall|j: int| 0 <= j < n implies #[trigger] block_term_ok(b, j) by {
        assert(block_term_ok(bl, j));
    }
    assert forall|j: int|
        0 <= j < n && #[trigger] is_check(b, j) implies count_branches_to(b, j, 0, j) == 1
        && count_branches_to(b, j, j, n) == 1 by {
        assert(j != st.cur);
        assert(is_check(bl, j));
        assert(!on_stack_check(st, j));
        assert(!is_branch_to(b[st.cur], j));
        assert(!is_branch_to(bl[st.cur], j));
        if st.cur < j {
            lemma_count_update(bl, j, 0, j, st.cur, b[st.cur]);
            lemma_count_frame(bl, b, j, j, n);
        } else {
            lemma_count_frame(bl, b, j, 0, j);
            lemma_count_update(bl, j, j, n, st.cur, b[st.cur]);
        }
    }
}

/// Lowering a leaf node preserves the structural invariant.
proof fn lemma_cfg_lower_leaf(st: GenState, n: Node)
    requires
        cfg_inv(st),
        !(n is Expr),
        !(n is LoopExpr),
        !(n is LoopCloseNode),
    ensures
        cfg_inv(spec_lower_node(st, n)),
{
    let s1 = spec_emit(st, Instr::LoadDataPtr);
    lemma_cfg_emit(st, Instr::LoadDataPtr);
    match n {
        Node::PlusNode => {
            let s2 = spec_emit(s1, Instr::LoadCell);
            lemma_cfg_emit(s1, Instr::LoadCell);
            let s3 = spec_emit(s2, Instr::AddCell { amount: 1 });
            lemma_cfg_emit(s2, Instr::AddCell { amount: 1 });
            lemma_cfg_emit(s3, Instr::StoreCell);
        }
        Node::MinusNode => {
            let s2 = spec_emit(s1, Instr::LoadCell);
            lemma_cfg_emit(s1, Instr::LoadCell);
            let s3 = spec_emit(s2, Instr::AddCell { amount: 255 });
            lemma_cfg_emit(s2, Instr::AddCell { amount: 255 });
            lemma_cfg_emit(s3, Instr::StoreCell);
        }
        Node::IncrementPtrNode => {
            let s2 = spec_emit(s1, Instr::PtrOffset { offset: 1 });
            lemma_cfg_emit(s1, Instr::PtrOffset { offset: 1 });
            lemma_cfg_emit(s2, Instr::StoreDataPtr);
        }
        Node::DecrementPtrNode => {
            let s2 = spec_emit(s1, Instr::PtrOffset { offset: -1i32 });
            lemma_cfg_emit(s1, Instr::PtrOffset { offset: -1i32 });
            lemma_cfg_emit(s2, Instr::StoreDataPtr);
        }
        Node::PrintCurrPosNode => {
            let s2 = spec_emit(s1, Instr::LoadCell);
            lemma_cfg_emit(s1, Instr::LoadCell);
            let s3 = spec_emit(s2, Instr::SignExtend);
            lemma_cfg_emit(s2, Instr::SignExtend);
            lemma_cfg_emit(s3, Instr::CallPutchar);
        }
        _ => {}
    }
}

/// Law: lowering is determined by the token sequence alone. Two well-shaped
/// node lists that flatten to the same tokens lower any state to the same
/// state, so whatever tree the parser built, the generated graph is the
/// same.
pub proof fn lemma_lower_deterministic(st: GenState, a: Seq<Node>, b: Seq<Node>)
    requires
        wf_nodes(a),
        wf_nodes(b),
        flat_nodes(a) == flat_nodes(b),
    ensures
        spec_lower_nodes(st, a) == spec_lower_nodes(st, b),
    decreases a,
{
    reveal_with_fuel(flat_nodes, 3);
    reveal_with_fuel(spec_lower_nodes, 3);
    if a.len() == 0 {
        if b.len() != 0 {
            lemma_flat_node_nonempty(b[0]);
            assert(flat_nodes(b).len() >= 1);
            assert(false);
        }
    } else if b.len() == 0 {
        lemma_flat_node_nonempty(a[0]);
        assert(flat_nodes(a).len() >= 1);
        assert(false);
    } else {
        lemma_flat_node_nonempty(a[0]);
        lemma_flat_node_nonempty(b[0]);
        assert(flat_nodes(a)[0] == flat_node(a[0])[0]);
        assert(flat_nodes(b)[0] == flat_node(b[0])[0]);
        if a[0] is LoopExpr {
            assert(b[0] is LoopExpr);
            let va = node_children(a[0]);
            let vb = node_children(b[0]);
            let ta = a.subrange(2, a.len() as int);
            let tb = b.subrange(2, b.len() as int);
            let fa = flat_nodes(va);
            let fb = flat_nodes(vb);
            let ra = flat_nodes(ta);
            let rb = flat_nodes(tb);
            assert(a.drop_first()[0] == a[1]);
            assert(b.drop_first()[0] == b[1]);
            assert(a.drop_first().drop_first() =~= ta);
            assert(b.drop_first().drop_first() =~= tb);
            assert(flat_nodes(a.drop_first()) == seq![Token::RightBracketToken] + ra);
            assert(flat_nodes(b.drop_first()) == seq![Token::RightBracketToken] + rb);
            assert(flat_nodes(a) == (seq![Token::LeftBracketToken] + fa) + (seq![
                Token::RightBracketToken,
            ] + ra));
            assert((seq![Token::LeftBracketToken] + fa) + (seq![Token::RightBracketToken] + ra)
                =~= seq![Token::LeftBracketToken] + (fa + seq![Token::RightBracketToken] + ra));
            assert((seq![Token::LeftBracketToken] + fb) + (seq![Token::RightBracketToken] + rb)
                =~= seq![Token::LeftBracketToken] + (fb + seq![Token::RightBracketToken] + rb));
            assert(fa + seq![Token::RightBracketToken] + ra =~= (seq![Token::LeftBracketToken] + (
            fa + seq![Token::RightBracketToken] + ra)).drop_first());
            assert(fb + seq![Token::RightBracketToken] + rb =~= (seq![Token::LeftBracketToken] + (
            fb + seq![Token::RightBracketToken] + rb)).drop_first());
            assert(fa + seq![Token::RightBracketToken] + ra == fb + seq![Token::RightBracketToken]
                + rb);
            crate::parser::lemma_balanced_prefix_cancel(fa, ra, fb, rb);
            lemma_lower_deterministic(spec_start_loop(st), va, vb);
            let st2 = spec_lower_nodes(spec_start_loop(st), va);
            assert(spec_lower_node(st, a[0]) == st2);
            assert(spec_lower_node(st, b[0]) == st2);
            let st3 = spec_close_loop(st2);
            assert(spec_lower_node(st2, a[1]) == st3);
            assert(spec_lower_node(st2, b[1]) == st3);
            lemma_lower_deterministic(st3, ta, tb);
            assert(spec_lower_nodes(st, a) == spec_lower_nodes(st2, a.drop_first()));
            assert(spec_lower_nodes(st2, a.drop_first()) == spec_lower_nodes(
                st3,
                a.drop_first().drop_first(),
            ));
            assert(spec_lower_nodes(st, b) == spec_lower_nodes(st2, b.drop_first()));
            assert(spec_lower_nodes(st2, b.drop_first()) == spec_lower_nodes(
                st3,
                b.drop_first().drop_first(),
            ));
        } else {
            assert(a[0] == b[0]);
            assert(flat_node(a[0]).len() == 1);
            assert(flat_nodes(a).len() == 1 + flat_nodes(a.drop_first()).len());
            assert(flat_nodes(b).len() == 1 + flat_nodes(b.drop_first()).len());
            assert forall|i: int| 0 <= i < flat_nodes(a.drop_first()).len() implies flat_nodes(
                a.drop_first(),
            )[i] == flat_nodes(b.drop_first())[i] by {
                assert(flat_nodes(a)[i + 1] == flat_nodes(a.drop_first())[i]);
                assert(flat_nodes(b)[i + 1] == flat_nodes(b.drop_first())[i]);
            }
            assert(flat_nodes(a.drop_first()) =~= flat_nodes(b.drop_first()));
            lemma_lower_deterministic(spec_lower_node(st, a[0]), a.drop_first(), b.drop_first());
        }
    }
}

/// Drives one generation: the syntax tree it lowers.
pub struct Codegen {
    pub input: Node,
}

impl Codegen {
    /// Emit the load of the data pointer from its slot.
    pub fn load_current_pointer(&self, fb: &mut FuncBuilder)
        requires
            builder_ok(old(fb)@),
        ensures
            final(fb)@ == spec_emit(old(fb)@, Instr::LoadDataPtr),
            builder_ok(final(fb)@),
    {
        emit(fb, Instr::LoadDataPtr);
    }

    /// Emit the load of the cell byte under the data pointer.
    pub fn load_current_value(&self, fb: &mut FuncBuilder)
        requires
            builder_ok(old(fb)@),
        ensures
            final(fb)@ == spec_emit(spec_emit(old(fb)@, Instr::LoadDataPtr), Instr::LoadCell),
            builder_ok(final(fb)@),
    {
        self.load_current_pointer(fb);
        emit(fb, Instr::LoadCell);
    }

    /// Emit the change of the current cell by `amount` with eight-bit
    /// wraparound: load the data pointer, load the byte there, add, store
    /// back.
    pub fn emit_change_data_value(&self, fb: &mut FuncBuilder, amount: u8)
        requires
            builder_ok(old(fb)@),
        ensures
            final(fb)@ == spec_emit(
                spec_emit(
                    spec_emit(spec_emit(old(fb)@, Instr::LoadDataPtr), Instr::LoadCell),
                    Instr::AddCell { amount },
                ),
                Instr::StoreCell,
            ),
            builder_ok(final(fb)@),
    {
        self.load_current_value(fb);
        emit(fb, Instr::AddCell { amount });
        emit(fb, Instr::StoreCell);
    }

    /// Emit the move of the data pointer by `offset` cells: load it, offset
    /// it, store it back into its slot. No bounds check, by design.
    pub fn emit_move_pointer(&self, fb: &mut FuncBuilder, offset: i32)
        requires
            builder_ok(old(fb)@),
        ensures
            final(fb)@ == spec_emit(
                spec_emit(spec_emit(old(fb)@, Instr::LoadDataPtr), Instr::PtrOffset { offset }),
                Instr::StoreDataPtr,
            ),
            builder_ok(final(fb)@),
    {
        self.load_current_pointer(fb);
        emit(fb, Instr::PtrOffset { offset });
        emit(fb, Instr::StoreDataPtr);
    }

    /// Emit the output of the current cell: load it, sign-extend it to the
    /// output routine's width, call the routine.
    pub fn emit_putchar(&self, fb: &mut FuncBuilder)
        requires
            builder_ok(old(fb)@),
        ensures
            final(fb)@ == spec_emit(
                spec_emit(
                    spec_emit(spec_emit(old(fb)@, Instr::LoadDataPtr), Instr::LoadCell),
                    Instr::SignExtend,
                ),
                Instr::CallPutchar,
            ),
            builder_ok(final(fb)@),
    {
        self.load_current_value(fb);
        emit(fb, Instr::SignExtend);
        emit(fb, Instr::CallPutchar);
    }

    /// Open a loop: allocate its check, body and exit blocks, branch into
    /// the check, emit the zero test and the conditional branch there, and
    /// leave the cursor at the body entry with the context pushed.
    pub fn build_start_loop(&self, fb: &mut FuncBuilder)
        requires
            builder_ok(old(fb)@),
        ensures
            final(fb)@ == spec_start_loop(old(fb)@),
            builder_ok(final(fb)@),
    {
        let check = fb.blocks.len();
        add_block(fb);
        add_block(fb);
        add_block(fb);
        let total = fb.blocks.len();
        proof {
            assert(total == check + 3);
        }
        set_term(fb, Terminator::Branch { target: check });
        fb.cur = check;
        emit(fb, Instr::LoadDataPtr);
        emit(fb, Instr::LoadCell);
        emit(fb, Instr::CompareNeZero);
        set_term(fb, Terminator::CondBranch { if_true: check + 1, if_false: check + 2 });
        fb.cur = check + 1;
        fb.stack.push(Loop { check, if_true: check + 1, if_false: check + 2 });
        proof {
            assert(final(fb)@ =~= spec_start_loop(old(fb)@));
        }
    }

    /// Close the innermost loop: pop its context, emit the back-edge from
    /// the current block to the context's check, and move the cursor to the
    /// exit. An empty stack would mean an earlier stage was bypassed, so it
    /// is excluded outright.
    pub fn build_loop_close(&self, fb: &mut FuncBuilder)
        requires
            builder_ok(old(fb)@),
            old(fb)@.stack.len() > 0,
        ensures
            final(fb)@ == spec_close_loop(old(fb)@),
            builder_ok(final(fb)@),
    {
        proof {
            assert(old(fb)@.stack[old(fb)@.stack.len() - 1] == old(fb)@.stack.last());
        }
        let ctx_opt = fb.stack.pop();
        match ctx_opt {
            Some(ctx) => {
                set_term(fb, Terminator::Branch { target: ctx.check });
                fb.cur = ctx.if_false;
                proof {
                    assert(final(fb)@ =~= spec_close_loop(old(fb)@));
                }
            }
            None => {
                // the stack is non-empty by precondition, so the pop always
                // yields a context
                proof {
                    assert(false);
                }
            }
        }
    }

    /// Lower a node list left to right, sharing one evolving state: leaves
    /// become instruction runs in the current block, a loop node opens a
    /// loop and lowers its children with the same stack, and a close marker
    /// closes the innermost loop.
    pub fn match_input(&self, fb: &mut FuncBuilder, input: &Vec<Node>)
        requires
            builder_ok(old(fb)@),
            sums_ok(flat_nodes(input@), old(fb)@.stack.len() as int),
        ensures
            final(fb)@ == spec_lower_nodes(old(fb)@, input@),
            builder_ok(final(fb)@),
            final(fb)@.stack.len() == old(fb)@.stack.len() + bracket_sum(flat_nodes(input@)),
            cfg_inv(old(fb)@) ==> cfg_inv(final(fb)@),
        decreases input@,
    {
        let ghost st0 = fb@;
        let ghost s = input@;
        let n = input.len();
        let mut i: usize = 0;
        proof {
            assert(s.take(0) =~= Seq::<Node>::empty());
            assert(flat_nodes(Seq::<Node>::empty()) == Seq::<Token>::empty());
            assert(bracket_sum(Seq::<Token>::empty()) == 0);
        }
        while i < n
            invariant
                i <= n,
                n == s.len(),
                s == input@,
                builder_ok(fb@),
                fb@ == spec_lower_nodes(st0, s.take(i as int)),
                fb@.stack.len() == st0.stack.len() + bracket_sum(flat_nodes(s.take(i as int))),
                sums_ok(flat_nodes(s), st0.stack.len() as int),
                cfg_inv(st0) ==> cfg_inv(fb@),
            decreases n - i,
        {
            let ghost st_i = fb@;
            proof {
                assert(s.take(i + 1) =~= s.take(i as int).push(s[i as int]));
                lemma_lower_nodes_snoc(st0, s.take(i as int), s[i as int]);
                lemma_flat_nodes_take_succ(s, i as int);
                lemma_bracket_sum_concat(flat_nodes(s.take(i as int)), flat_node(s[i as int]));
                lemma_flat_nodes_split(s, i as int);
                lemma_flat_nodes_skip_succ(s, i as int);
                lemma_bracket_sum_units();
            }
            let node = &input[i];
            match node {
                Node::PlusNode => {
                    self.emit_change_data_value(fb, 1);
                    proof {
                        if cfg_inv(st_i) {
                            lemma_cfg_lower_leaf(st_i, s[i as int]);
                        }
                    }
                }
                Node::MinusNode => {
                    self.emit_change_data_value(fb, 255);
                    proof {
                        if cfg_inv(st_i) {
                            lemma_cfg_lower_leaf(st_i, s[i as int]);
                        }
                    }
                }
                Node::IncrementPtrNode => {
                    self.emit_move_pointer(fb, 1);
                    proof {
                        if cfg_inv(st_i) {
                            lemma_cfg_lower_leaf(st_i, s[i as int]);
                        }
                    }
                }
                Node::DecrementPtrNode => {
                    self.emit_move_pointer(fb, -1);
                    proof {
                        if cfg_inv(st_i) {
                            lemma_cfg_lower_leaf(st_i, s[i as int]);
                        }
                    }
                }
                Node::PrintCurrPosNode => {
                    self.emit_putchar(fb);
                    proof {
                        if cfg_inv(st_i) {
                            lemma_cfg_lower_leaf(st_i, s[i as int]);
                        }
                    }
                }
                Node::LoopExpr(expr_val) => {
                    let ghost body = (**expr_val)@;
                    proof {
                        let ghost a = flat_nodes(s.take(i as int));
                        let ghost rest = flat_nodes(s.skip(i + 1));
                        lemma_sums_ok_shift(a, flat_nodes(s.skip(i as int)),
                            st0.stack.len() as int);
                        assert(flat_nodes(s.skip(i as int)) =~= seq![Token::LeftBracketToken] + (
                        flat_nodes(body) + rest));
                        lemma_sums_ok_shift(
                            seq![Token::LeftBracketToken],
                            flat_nodes(body) + rest,
                            st0.stack.len() as int + bracket_sum(a),
                        );
                        lemma_sums_ok_shift(
                            flat_nodes(body),
                            rest,
                            st0.stack.len() as int + bracket_sum(a) + 1,
                        );
                        lemma_bracket_sum_concat(seq![Token::LeftBracketToken], flat_nodes(body));
                    }
                    self.build_start_loop(fb);
                    proof {
                        assert(vstd::std_specs::vec::spec_vec_len(&fb.blocks)
                            == fb.blocks@.len());
                        assert(st_i.blocks.len() + 2 <= usize::MAX);
                        if cfg_inv(st_i) {
                            lemma_cfg_start_loop(st_i);
                        }
                    }
                    self.match_input(fb, &**expr_val);
                }
                Node::LoopCloseNode => {
                    proof {
                        let ghost a = flat_nodes(s.take(i as int));
                        assert(flat_nodes(s).take(a.len() as int + 1) =~= a.push(
                            Token::RightBracketToken,
                        ));
                        assert(a.push(Token::RightBracketToken) =~= a + seq![
                            Token::RightBracketToken,
                        ]);
                        lemma_bracket_sum_concat(a, seq![Token::RightBracketToken]);
                        assert(st0.stack.len() + bracket_sum(flat_nodes(s).take(a.len() as int + 1))
                            >= 0);
                        if cfg_inv(st_i) {
                            lemma_cfg_close_loop(st_i);
                        }
                    }
                    self.build_loop_close(fb);
                }
                Node::Expr(_) => {
                }
            }
            i = i + 1;
        }
        proof {
            assert(s.take(n as int) =~= s);
        }
    }

    /// Generate the whole module: the entry prologue that allocates the
    /// tape, the lowering of the top-level sequence, and the final return
    /// terminator. The stack of loop contexts is created empty and, because
    /// the input flattens to a balanced token sequence, is empty again at
    /// the end.
    pub fn generate_llvm(&self) -> (m: IrModule)
        requires
            balanced(flat_nodes(node_children(self.input))),
        ensures
            m@.blocks == spec_generate(self.input).blocks,
            spec_generate(self.input).stack.len() == 0,
            cfg_wf(m@.blocks),
    {
        let mut entry: Vec<BasicBlock> = Vec::new();
        entry.push(BasicBlock { instrs: Vec::new(), term: None });
        let mut fb = FuncBuilder { blocks: entry, cur: 0, stack: Vec::new() };
        let ghost g0 = fb@;
        proof {
            assert(fb@.blocks =~= seq![BlockView { instrs: Seq::empty(), term: None }]);
            assert(cfg_inv(g0));
        }
        emit(&mut fb, Instr::AllocaDataPtr);
        emit(&mut fb, Instr::CallCalloc { count: TAPE_CELLS, size: 1 });
        emit(&mut fb, Instr::StoreDataPtr);
        proof {
            assert(fb@ =~= spec_prologue());
            lemma_cfg_emit(g0, Instr::AllocaDataPtr);
            lemma_cfg_emit(spec_emit(g0, Instr::AllocaDataPtr), Instr::CallCalloc { count: TAPE_CELLS, size: 1 });
            lemma_cfg_emit(
                spec_emit(spec_emit(g0, Instr::AllocaDataPtr), Instr::CallCalloc { count: TAPE_CELLS, size: 1 }),
                Instr::StoreDataPtr,
            );
            assert(cfg_inv(fb@));
        }
        match &self.input {
            Node::Expr(expr_val) => {
                proof {
                    assert(sums_ok(flat_nodes((**expr_val)@), 0));
                }
                self.match_input(&mut fb, &**expr_val);
            }
            _ => {}
        }
        let ghost gpre = fb@;
        proof {
            assert(cfg_inv(gpre));
            assert(gpre.stack.len() == 0);
            lemma_cfg_finish(gpre);
        }
        set_term(&mut fb, Terminator::Return);
        let m = IrModule { blocks: fb.blocks };
        proof {
            assert(m@.blocks =~= spec_generate(self.input).blocks);
            assert(m@.blocks == spec_terminate(gpre, Terminator::Return).blocks);
        }
        m
    }
}

} // verus!
