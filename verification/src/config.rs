//! Execution configuration.
//!
//! A run is configured with the judge ("tester") command, the solver
//! command, and a fixed argument list for each. Reading and writing the
//! configuration file, and the interactive setup around it, live
//! outside this crate; the types and the spawn argument order are owed
//! here.

use vstd::prelude::*;

verus! {

/// How the problem itself scores solutions. The baseline update is
/// minimizing regardless of this declaration; it is recorded, not
/// consulted.
pub enum ProblemScoring {
    Maximize,
    Minimize,
}

/// Problem-level configuration.
pub struct ProblemConfig {
    pub score: ProblemScoring,
}

/// The commands a run invokes: the judge and the solver, each with its
/// fixed arguments.
pub struct ExecConfig {
    pub tester_cmd: String,
    pub tester_arg: Vec<String>,
    pub solver_cmd: String,
    pub solver_arg: Vec<String>,
}

/// Top-level configuration.
pub struct Config {
    pub problem_config: ProblemConfig,
    pub exec_config: ExecConfig,
}

/// The judge command assumed when none is configured.
pub fn default_tester_cmd() -> (r: String)
    ensures
        r@ == "./tools/target/release/tester"@,
{
    "./tools/target/release/tester".to_owned()
}

/// The solver command assumed when none is configured.
pub fn default_solver_cmd() -> (r: String)
    ensures
        r@ == "./a.out"@,
{
    "./a.out".to_owned()
}

impl Default for ExecConfig {
    /// The default execution commands: judge and solver in their
    /// conventional build locations, no extra arguments.
    fn default() -> (r: ExecConfig)
        ensures
            r.tester_cmd@ == "./tools/target/release/tester"@,
            r.tester_arg@.len() == 0,
            r.solver_cmd@ == "./a.out"@,
            r.solver_arg@.len() == 0,
    {
        ExecConfig {
            tester_cmd: default_tester_cmd(),
            tester_arg: Vec::new(),
            solver_cmd: default_solver_cmd(),
            solver_arg: Vec::new(),
        }
    }
}

/// The argument vector the judge is spawned with: the judge's own
/// arguments, then the solver command, then the solver's arguments.
/// The judge is the one that runs the solver; this crate's caller only
/// spawns the judge.
pub fn build_command_args(cfg: &ExecConfig) -> (r: Vec<String>)
    ensures
        r@ == cfg.tester_arg@ + seq![cfg.solver_cmd] + cfg.solver_arg@,
{
    let mut r: Vec<String> = Vec::new();
    let mut i: usize = 0;
    while i < cfg.tester_arg.len()
        invariant
            i <= cfg.tester_arg@.len(),
            r@ =~= cfg.tester_arg@.take(i as int),
        decreases cfg.tester_arg@.len() - i,
    {
        r.push(cfg.tester_arg[i].clone());
        i = i + 1;
    }
    proof {
        assert(cfg.tester_arg@.take(cfg.tester_arg@.len() as int) =~= cfg.tester_arg@);
    }
    r.push(cfg.solver_cmd.clone());
    let mut j: usize = 0;
    while j < cfg.solver_arg.len()
        invariant
            j <= cfg.solver_arg@.len(),
            r@ =~= cfg.tester_arg@ + seq![cfg.solver_cmd] + cfg.solver_arg@.take(j as int),
        decreases cfg.solver_arg@.len() - j,
    {
        r.push(cfg.solver_arg[j].clone());
        j = j + 1;
    }
    proof {
        assert(cfg.solver_arg@.take(cfg.solver_arg@.len() as int) =~= cfg.solver_arg@);
        assert(r@ =~= cfg.tester_arg@ + seq![cfg.solver_cmd] + cfg.solver_arg@);
    }
    r
}

} // verus!
