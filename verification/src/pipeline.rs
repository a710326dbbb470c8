//! The whole in-process pipeline: source bytes are lexed, the loop brackets
//! are checked, the tokens are parsed, and the tree is lowered to the
//! control-flow graph. Reading the source file and writing the textual
//! artifact stay with the caller.

use vstd::prelude::*;

use crate::codegen::Codegen;
use crate::codegen::IrModule;
use crate::codegen::ModuleView;
use crate::codegen::lemma_lower_deterministic;
use crate::codegen::spec_generate;
use crate::codegen::spec_prologue;
use crate::ir_text::module_text;
use crate::lexer::Lexer;
use crate::lexer::LexerError;
use crate::lexer::Token;
use crate::lexer::balanced;
use crate::lexer::lex_spec;
use crate::lexer::token_of;
use crate::parser::Node;
use crate::parser::Parser;
use crate::parser::flat_nodes;
use crate::parser::lemma_flat_node_nonempty;
use crate::parser::node_children;
use crate::parser::wf_nodes;

verus! {

/// What one successful compilation produces: the parsed tree and the
/// generated module.
pub struct Compilation {
    pub ast: Node,
    pub module: IrModule,
}

/// Run the three in-process stages on raw source bytes. Fails exactly on
/// unbalanced loop brackets, with nothing generated; succeeds on every
/// other input with the parsed tree and the generated graph.
pub fn compile(source: &[u8]) -> (r: Result<Compilation, LexerError>)
    ensures
        r is Ok <==> balanced(lex_spec(source@)),
        r is Err ==> r == Err::<Compilation, LexerError>(LexerError::BracketsInvalidError),
        r matches Ok(c) ==> {
            &&& c.ast is Expr
            &&& flat_nodes(node_children(c.ast)) == lex_spec(source@)
            &&& wf_nodes(node_children(c.ast))
            &&& c.module@.blocks == spec_generate(c.ast).blocks
        },
{
    let lx = Lexer::new(source);
    match lx.check_loops() {
        Err(e) => Err(e),
        Ok(()) => {
            let mut px = Parser::new(lx.tokens);
            let ast = px.parse_all();
            let cg = Codegen { input: ast };
            let module = cg.generate_llvm();
            Ok(Compilation { ast: cg.input, module })
        },
    }
}

/// The token stream of a source without command bytes is empty.
proof fn lemma_lex_no_commands(source: Seq<u8>)
    requires
        forall|i: int| 0 <= i < source.len() ==> token_of(#[trigger] source[i]) is None,
    ensures
        lex_spec(source) == Seq::<Token>::empty(),
    decreases source.len(),
{
    if source.len() > 0 {
        assert forall|i: int| 0 <= i < source.drop_last().len() implies token_of(
            #[trigger] source.drop_last()[i],
        ) is None by {
            assert(source.drop_last()[i] == source[i]);
        }
        lemma_lex_no_commands(source.drop_last());
    }
}

/// A well-shaped node list that flattens to no tokens has no nodes.
pub proof fn lemma_flat_empty_nodes(s: Seq<Node>)
    requires
        flat_nodes(s).len() == 0,
        wf_nodes(s),
    ensures
        s == Seq::<Node>::empty(),
{
    if s.len() > 0 {
        lemma_flat_node_nonempty(s[0]);
        assert(flat_nodes(s).len() >= 1);
        assert(false);
    }
    assert(s =~= Seq::<Node>::empty());
}

/// Law: for a source of only non-command bytes, the token sequence is
/// empty and the parsed tree is an empty top-level sequence.
pub proof fn lemma_non_command_source(source: Seq<u8>, ast: Node)
    requires
        forall|i: int| 0 <= i < source.len() ==> token_of(#[trigger] source[i]) is None,
        ast is Expr,
        flat_nodes(node_children(ast)) == lex_spec(source),
        wf_nodes(node_children(ast)),
    ensures
        lex_spec(source) == Seq::<Token>::empty(),
        node_children(ast) == Seq::<Node>::empty(),
{
    lemma_lex_no_commands(source);
    lemma_flat_empty_nodes(node_children(ast));
}

/// Law: the pipeline is deterministic. Whatever well-shaped tree stands
/// between one source and the generator, the generated state — blocks,
/// cursor and stack — is the same, and so is the textual artifact:
/// re-running the pipeline on an unchanged source yields a bit-identical
/// result.
pub proof fn lemma_pipeline_deterministic(source: Seq<u8>, ast1: Node, ast2: Node)
    requires
        ast1 is Expr,
        ast2 is Expr,
        flat_nodes(node_children(ast1)) == lex_spec(source),
        flat_nodes(node_children(ast2)) == lex_spec(source),
        wf_nodes(node_children(ast1)),
        wf_nodes(node_children(ast2)),
    ensures
        spec_generate(ast1) == spec_generate(ast2),
        module_text(ModuleView { blocks: spec_generate(ast1).blocks }) == module_text(
            ModuleView { blocks: spec_generate(ast2).blocks },
        ),
{
    lemma_lower_deterministic(spec_prologue(), node_children(ast1), node_children(ast2));
}

} // verus!
