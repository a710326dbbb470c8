//! The two post-generation collaborators, reduced to their decisions: the
//! optimizer's fixed pass list, and the exact command lines that turn the
//! textual artifact into an executable. Running the passes and spawning the
//! tools is the caller's work; what to run is decided and proved here.

use vstd::prelude::*;
use vstd::string::StringExecFns;

verus! {

/// One pass of the fixed optimization pipeline.
#[derive(Debug, PartialEq, Eq, Structural, Clone, Copy)]
pub enum Pass {
    VerifyStructure,
    EliminateCommonSubexpressions,
    SimplifyControlFlow,
    ReplaceAggregatesWithScalars,
    CombineInstructions,
    Vectorize,
}

/// Configures the optimizer collaborator with its fixed pass list.
pub struct Optimizer;

impl Optimizer {
    /// The optimizer carries no state of its own.
    pub fn new() -> (o: Optimizer) {
        Optimizer
    }

    /// The fixed pass list, applied once and in this order: structural
    /// verification, common-subexpression elimination, control-flow
    /// simplification, aggregate-scalar replacement, instruction combining,
    /// vectorization, and a final structural verification.
    pub fn pass_pipeline(&self) -> (passes: Vec<Pass>)
        ensures
            passes@ == seq![
                Pass::VerifyStructure,
                Pass::EliminateCommonSubexpressions,
                Pass::SimplifyControlFlow,
                Pass::ReplaceAggregatesWithScalars,
                Pass::CombineInstructions,
                Pass::Vectorize,
                Pass::VerifyStructure,
            ],
    {
        let mut passes: Vec<Pass> = Vec::new();
        passes.push(Pass::VerifyStructure);
        passes.push(Pass::EliminateCommonSubexpressions);
        passes.push(Pass::SimplifyControlFlow);
        passes.push(Pass::ReplaceAggregatesWithScalars);
        passes.push(Pass::CombineInstructions);
        passes.push(Pass::Vectorize);
        passes.push(Pass::VerifyStructure);
        proof {
            assert(passes@ =~= seq![
                Pass::VerifyStructure,
                Pass::EliminateCommonSubexpressions,
                Pass::SimplifyControlFlow,
                Pass::ReplaceAggregatesWithScalars,
                Pass::CombineInstructions,
                Pass::Vectorize,
                Pass::VerifyStructure,
            ]);
        }
        passes
    }
}

/// Names the artifacts of one compilation and decides the exact command
/// lines that assemble, link and clean up. The caller runs them in order
/// and aborts on the first failure.
pub struct BinaryGenerator {
    pub input: String,
}

impl BinaryGenerator {
    /// A generator for the artifact whose base name is `filename`.
    pub fn new(filename: String) -> (g: Self)
        ensures
            g.input@ == filename@,
    {
        BinaryGenerator { input: filename }
    }

    /// The command that assembles the textual artifact into bitcode.
    pub fn bitcode_command(&self) -> (c: Vec<String>)
        ensures
            c@.len() == 4,
            c@[0]@ == "llvm-as"@,
            c@[1]@ == self.input@ + ".ll"@,
            c@[2]@ == "-o"@,
            c@[3]@ == self.input@ + ".bc"@,
    {
        let mut c: Vec<String> = Vec::new();
        c.push("llvm-as".to_owned());
        let mut ll = self.input.clone();
        ll.append(".ll");
        c.push(ll);
        c.push("-o".to_owned());
        let mut bc = self.input.clone();
        bc.append(".bc");
        c.push(bc);
        c
    }

    /// The command that compiles the bitcode into an object file.
    pub fn assembly_command(&self) -> (c: Vec<String>)
        ensures
            c@.len() == 5,
            c@[0]@ == "llc"@,
            c@[1]@ == "-filetype=obj"@,
            c@[2]@ == self.input@ + ".bc"@,
            c@[3]@ == "-o"@,
            c@[4]@ == self.input@ + ".o"@,
    {
        let mut c: Vec<String> = Vec::new();
        c.push("llc".to_owned());
        c.push("-filetype=obj".to_owned());
        let mut bc = self.input.clone();
        bc.append(".bc");
        c.push(bc);
        c.push("-o".to_owned());
        let mut obj = self.input.clone();
        obj.append(".o");
        c.push(obj);
        c
    }

    /// The command that links the object file into the executable that
    /// shares the input's base name.
    pub fn executable_command(&self) -> (c: Vec<String>)
        ensures
            c@.len() == 4,
            c@[0]@ == "clang"@,
            c@[1]@ == self.input@ + ".o"@,
            c@[2]@ == "-o"@,
            c@[3]@ == self.input@,
    {
        let mut c: Vec<String> = Vec::new();
        c.push("clang".to_owned());
        let mut obj = self.input.clone();
        obj.append(".o");
        c.push(obj);
        c.push("-o".to_owned());
        c.push(self.input.clone());
        c
    }

    /// The command that deletes the three intermediate artifacts.
    pub fn cleanup_command(&self) -> (c: Vec<String>)
        ensures
            c@.len() == 5,
            c@[0]@ == "rm"@,
            c@[1]@ == "-rf"@,
            c@[2]@ == self.input@ + ".ll"@,
            c@[3]@ == self.input@ + ".bc"@,
            c@[4]@ == self.input@ + ".o"@,
    {
        let mut c: Vec<String> = Vec::new();
        c.push("rm".to_owned());
        c.push("-rf".to_owned());
        let mut ll = self.input.clone();
        ll.append(".ll");
        c.push(ll);
        let mut bc = self.input.clone();
        bc.append(".bc");
        c.push(bc);
        let mut obj = self.input.clone();
        obj.append(".o");
        c.push(obj);
        c
    }
}

} // verus!
