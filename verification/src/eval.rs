//! The evaluator: turns one parsed line into the effect the session must
//! perform. Builtins that only compute are decided here; everything that
//! touches the machine (the working directory, files, processes) is handed
//! back as an `Action` for the surrounding session loop to perform.
use crate::cli::{spec_from_text, Command, GrammarError, SpecCommand};
use crate::parse::{exprs_view, pairs_view, Expr, Redir, SpecExpr};
use crate::var::{spec_append, spec_remove, Vars};
use vstd::prelude::*;

verus! {

/// The disposition after one line: go on reading, or end this process.
#[derive(Debug, Clone, Copy, PartialEq, Eq, Structural)]
pub enum Output {
    Norm,
    Exit,
}

/// Why a line could not be evaluated.
#[derive(Debug, Clone, Copy, PartialEq, Eq, Structural)]
pub enum EvalError {
    /// No stage at all was handed in.
    NoExpression,
    /// A stage's command text held no word.
    EmptyCommand,
    /// `cd` needed the home directory and none is set.
    MissingHome,
    /// `export -n` with no variable operands.
    ExportUsage,
}

/// What the session loop must do for one evaluated line. Only the builtins
/// that merely compute are finished here; each variant below names the one
/// machine effect left to perform.
#[derive(Debug)]
pub enum Action {
    /// Nothing left to do (`export`, `exit`).
    NoEffect,
    /// Change the working directory to `target` (home already resolved).
    ChangeDir { target: Vec<u8> },
    /// List the directory, `None` meaning the current one, one entry per line.
    ListDir { path: Option<Vec<u8>> },
    /// Print this line, and a newline, to the console.
    Print { line: Vec<u8> },
    /// Print the absolute working directory to the console.
    PrintCwd,
    /// Run the program with the arguments; feed it the `inputs` files line by
    /// line; write each output line to every `outputs` (truncating) and
    /// `appends` (appending) file, or to the console when both lists are
    /// empty.
    Run {
        program: Vec<u8>,
        args: Vec<Vec<u8>>,
        inputs: Vec<Vec<u8>>,
        outputs: Vec<Vec<u8>>,
        appends: Vec<Vec<u8>>,
    },
    /// Respawn this interpreter once per serialized stage line, feeding each
    /// child its line on standard input and relaying stage outputs in order.
    Pipeline { lines: Vec<Vec<u8>> },
}

/// The mathematical shadow of `Action`.
pub enum SpecAction {
    NoEffect,
    ChangeDir { target: Seq<u8> },
    ListDir { path: Option<Seq<u8>> },
    Print { line: Seq<u8> },
    PrintCwd,
    Run {
        program: Seq<u8>,
        args: Seq<Seq<u8>>,
        inputs: Seq<Seq<u8>>,
        outputs: Seq<Seq<u8>>,
        appends: Seq<Seq<u8>>,
    },
    Pipeline { lines: Seq<Seq<u8>> },
}

impl View for Action {
    type V = SpecAction;

    open spec fn view(&self) -> SpecAction {
        match self {
            Action::NoEffect => SpecAction::NoEffect,
            Action::ChangeDir { target } => SpecAction::ChangeDir { target: target@ },
            Action::ListDir { path } => SpecAction::ListDir {
                path: match path {
                    Some(p) => Some(p@),
                    None => None,
                },
            },
            Action::Print { line } => SpecAction::Print { line: line@ },
            Action::PrintCwd => SpecAction::PrintCwd,
            Action::Run { program, args, inputs, outputs, appends } => SpecAction::Run {
                program: program@,
                args: crate::cli::words_seq(args@),
                inputs: crate::cli::words_seq(inputs@),
                outputs: crate::cli::words_seq(outputs@),
                appends: crate::cli::words_seq(appends@),
            },
            Action::Pipeline { lines } => SpecAction::Pipeline {
                lines: crate::cli::words_seq(lines@),
            },
        }
    }
}

pub open spec fn opt_bytes_view(o: Option<Vec<u8>>) -> Option<Seq<u8>> {
    match o {
        Some(v) => Some(v@),
        None => None,
    }
}

pub open spec fn lit_tilde() -> Seq<u8> {
    seq![126u8]
}

/// Where `cd` goes: a missing path or the word `~` means the home directory,
/// which must then be set; anything else is taken as given.
pub open spec fn spec_cd_target(path: Option<Seq<u8>>, home: Option<Seq<u8>>) -> Result<
    Seq<u8>,
    EvalError,
> {
    match path {
        None => match home {
            Some(h) => Ok(h),
            None => Err(EvalError::MissingHome),
        },
        Some(p) => if p == lit_tilde() {
            match home {
                Some(h) => Ok(h),
                None => Err(EvalError::MissingHome),
            }
        } else {
            Ok(p)
        },
    }
}

/// An empty `ls` operand means the current directory.
pub open spec fn spec_norm_path(path: Option<Seq<u8>>) -> Option<Seq<u8>> {
    match path {
        Some(p) => if p.len() == 0 {
            None
        } else {
            Some(p)
        },
        None => None,
    }
}

/// The filenames of one redirection kind, in the order written.
pub open spec fn files_of(rs: Seq<(Redir, Seq<u8>)>, k: Redir) -> Seq<Seq<u8>>
    decreases rs.len(),
{
    if rs.len() == 0 {
        Seq::empty()
    } else {
        (if rs[0].0 == k {
            seq![rs[0].1]
        } else {
            Seq::empty()
        }) + files_of(rs.skip(1), k)
    }
}

/// The operator text of one redirection kind.
pub open spec fn op_lit(k: Redir) -> Seq<u8> {
    match k {
        Redir::Input => seq![60u8],
        Redir::Output => seq![62u8],
        Redir::Append => seq![62u8, 62u8],
    }
}

/// The serialized redirection suffix: ` <op> <file>` for each pair, in order.
pub open spec fn ser_redirs(rs: Seq<(Redir, Seq<u8>)>) -> Seq<u8>
    decreases rs.len(),
{
    if rs.len() == 0 {
        Seq::empty()
    } else {
        seq![32u8] + op_lit(rs[0].0) + seq![32u8] + rs[0].1 + ser_redirs(rs.skip(1))
    }
}

/// The pairs of one redirection kind, in the order written.
pub open spec fn of_kind(rs: Seq<(Redir, Seq<u8>)>, k: Redir) -> Seq<(Redir, Seq<u8>)>
    decreases rs.len(),
{
    if rs.len() == 0 {
        Seq::empty()
    } else {
        (if rs[0].0 == k {
            seq![rs[0]]
        } else {
            Seq::empty()
        }) + of_kind(rs.skip(1), k)
    }
}

/// A stage's redirections grouped by kind: inputs, then outputs, then
/// appends, each group in the order written.
pub open spec fn kind_grouped(rs: Seq<(Redir, Seq<u8>)>) -> Seq<(Redir, Seq<u8>)> {
    of_kind(rs, Redir::Input) + of_kind(rs, Redir::Output) + of_kind(rs, Redir::Append)
}

/// One stage serialized for the pipeline respawn, its redirections grouped
/// by kind: `exec <cmd> [< in]* [> out]* [>> app]*`.
pub open spec fn spec_serialize(cmd: Seq<u8>, rs: Seq<(Redir, Seq<u8>)>) -> Seq<u8> {
    crate::cli::lit_exec() + seq![32u8] + cmd + ser_redirs(kind_grouped(rs))
}

/// The serialized command lines of a multi-stage pipeline.
pub open spec fn lines_of(es: Seq<SpecExpr>) -> Seq<Seq<u8>> {
    es.map_values(|e: SpecExpr| spec_serialize(e.cmd->0, e.redirs))
}

/// What evaluating one classified command does: the action left to perform,
/// the disposition, and the variable store afterwards.
pub open spec fn spec_eval_one(
    c: SpecCommand,
    redirs: Seq<(Redir, Seq<u8>)>,
    home: Option<Seq<u8>>,
    m: Map<Seq<u8>, Seq<u8>>,
) -> Result<(SpecAction, Output, Map<Seq<u8>, Seq<u8>>), EvalError> {
    match c {
        SpecCommand::Cd { path } => match spec_cd_target(path, home) {
            Ok(t) => Ok((SpecAction::ChangeDir { target: t }, Output::Norm, m)),
            Err(e) => Err(e),
        },
        SpecCommand::Ls { path } => Ok(
            (SpecAction::ListDir { path: spec_norm_path(path) }, Output::Norm, m),
        ),
        SpecCommand::Echo { s } => Ok(
            (
                SpecAction::Print {
                    line: match s {
                        Some(t) => t,
                        None => Seq::empty(),
                    },
                },
                Output::Norm,
                m,
            ),
        ),
        SpecCommand::Pwd => Ok((SpecAction::PrintCwd, Output::Norm, m)),
        SpecCommand::Exec { program, args } => Ok(
            (
                SpecAction::Run {
                    program,
                    args,
                    inputs: files_of(redirs, Redir::Input),
                    outputs: files_of(redirs, Redir::Output),
                    appends: files_of(redirs, Redir::Append),
                },
                Output::Exit,
                m,
            ),
        ),
        SpecCommand::External { program, args } => Ok(
            (
                SpecAction::Run {
                    program,
                    args,
                    inputs: files_of(redirs, Redir::Input),
                    outputs: files_of(redirs, Redir::Output),
                    appends: files_of(redirs, Redir::Append),
                },
                Output::Norm,
                m,
            ),
        ),
        SpecCommand::Export { n, vars } => if n && vars.len() == 0 {
            Err(EvalError::ExportUsage)
        } else if n {
            Ok(
                (
                    SpecAction::NoEffect,
                    Output::Norm,
                    spec_remove(m, vars.map_values(|p: (Seq<u8>, Seq<u8>)| p.0)),
                ),
            )
        } else {
            Ok((SpecAction::NoEffect, Output::Norm, spec_append(m, vars)))
        },
        SpecCommand::Exit => Ok((SpecAction::NoEffect, Output::Exit, m)),
    }
}

/// What evaluating a whole line's stages does. One stage is classified and
/// evaluated; two or more become the serialized pipeline respawn lines; none
/// at all is an error. Only a single evaluated `export` changes the store.
pub open spec fn spec_eval(
    es: Seq<SpecExpr>,
    home: Option<Seq<u8>>,
    m: Map<Seq<u8>, Seq<u8>>,
) -> Result<(SpecAction, Output, Map<Seq<u8>, Seq<u8>>), EvalError> {
    if es.len() == 0 {
        Err(EvalError::NoExpression)
    } else if es.len() == 1 {
        match spec_from_text(es[0].cmd->0) {
            Ok(c) => spec_eval_one(c, es[0].redirs, home, m),
            Err(GrammarError::EmptyCommand) => Err(EvalError::EmptyCommand),
        }
    } else {
        Ok((SpecAction::Pipeline { lines: lines_of(es) }, Output::Norm, m))
    }
}

/// Splits a stage's redirections into the input, output and append file
/// lists, each in the order written.
fn partition_redirs(redirs: &Vec<(Redir, Vec<u8>)>) -> (r: (Vec<Vec<u8>>, Vec<Vec<u8>>, Vec<
    Vec<u8>,
>))
    ensures
        crate::cli::words_seq(r.0@) == files_of(pairs_view(redirs@), Redir::Input),
        crate::cli::words_seq(r.1@) == files_of(pairs_view(redirs@), Redir::Output),
        crate::cli::words_seq(r.2@) == files_of(pairs_view(redirs@), Redir::Append),
{
    let ghost rv = pairs_view(redirs@);
    let mut inputs: Vec<Vec<u8>> = Vec::new();
    let mut outputs: Vec<Vec<u8>> = Vec::new();
    let mut appends: Vec<Vec<u8>> = Vec::new();
    let n = redirs.len();
    let mut i: usize = 0;
    proof {
        assert(rv.skip(0) =~= rv);
        assert(crate::cli::words_seq(inputs@) =~= Seq::<Seq<u8>>::empty());
        assert(crate::cli::words_seq(outputs@) =~= Seq::<Seq<u8>>::empty());
        assert(crate::cli::words_seq(appends@) =~= Seq::<Seq<u8>>::empty());
        assert(Seq::<Seq<u8>>::empty() + files_of(rv, Redir::Input) =~= files_of(
            rv,
            Redir::Input,
        ));
        assert(Seq::<Seq<u8>>::empty() + files_of(rv, Redir::Output) =~= files_of(
            rv,
            Redir::Output,
        ));
        assert(Seq::<Seq<u8>>::empty() + files_of(rv, Redir::Append) =~= files_of(
            rv,
            Redir::Append,
        ));
    }
    while i < n
        invariant
            i <= n,
            n == redirs@.len(),
            rv == pairs_view(redirs@),
            files_of(rv, Redir::Input) == crate::cli::words_seq(inputs@) + files_of(
                rv.skip(i as int),
                Redir::Input,
            ),
            files_of(rv, Redir::Output) == crate::cli::words_seq(outputs@) + files_of(
                rv.skip(i as int),
                Redir::Output,
            ),
            files_of(rv, Redir::Append) == crate::cli::words_seq(appends@) + files_of(
                rv.skip(i as int),
                Redir::Append,
            ),
        decreases n - i,
    {
        let ghost rem = rv.skip(i as int);
        proof {
            assert(rem[0] == rv[i as int]);
            assert(rem.skip(1) =~= rv.skip(i + 1 as int));
        }
        let f = crate::parse::dup_bytes(&redirs[i].1);
        let ghost f0 = f@;
        let ghost iv = crate::cli::words_seq(inputs@);
        let ghost ov = crate::cli::words_seq(outputs@);
        let ghost av = crate::cli::words_seq(appends@);
        match redirs[i].0 {
            Redir::Input => {
                inputs.push(f);
                proof {
                    assert(crate::cli::words_seq(inputs@) =~= iv.push(f0));
                    assert(iv + (seq![rem[0].1] + files_of(rem.skip(1), Redir::Input)) =~= iv.push(
                        f0,
                    ) + files_of(rem.skip(1), Redir::Input));
                    assert(Seq::<Seq<u8>>::empty() + files_of(rem.skip(1), Redir::Output)
                        =~= files_of(rem.skip(1), Redir::Output));
                    assert(Seq::<Seq<u8>>::empty() + files_of(rem.skip(1), Redir::Append)
                        =~= files_of(rem.skip(1), Redir::Append));
                }
            },
            Redir::Output => {
                outputs.push(f);
                proof {
                    assert(crate::cli::words_seq(outputs@) =~= ov.push(f0));
                    assert(ov + (seq![rem[0].1] + files_of(rem.skip(1), Redir::Output)) =~= ov.push(
                        f0,
                    ) + files_of(rem.skip(1), Redir::Output));
                    assert(Seq::<Seq<u8>>::empty() + files_of(rem.skip(1), Redir::Input)
                        =~= files_of(rem.skip(1), Redir::Input));
                    assert(Seq::<Seq<u8>>::empty() + files_of(rem.skip(1), Redir::Append)
                        =~= files_of(rem.skip(1), Redir::Append));
                }
            },
            Redir::Append => {
                appends.push(f);
                proof {
                    assert(crate::cli::words_seq(appends@) =~= av.push(f0));
                    assert(av + (seq![rem[0].1] + files_of(rem.skip(1), Redir::Append)) =~= av.push(
                        f0,
                    ) + files_of(rem.skip(1), Redir::Append));
                    assert(Seq::<Seq<u8>>::empty() + files_of(rem.skip(1), Redir::Input)
                        =~= files_of(rem.skip(1), Redir::Input));
                    assert(Seq::<Seq<u8>>::empty() + files_of(rem.skip(1), Redir::Output)
                        =~= files_of(rem.skip(1), Redir::Output));
                }
            },
        }
        i = i + 1;
    }
    proof {
        assert(rv.skip(n as int) =~= Seq::<(Redir, Seq<u8>)>::empty());
        assert(crate::cli::words_seq(inputs@) + Seq::<Seq<u8>>::empty() =~= crate::cli::words_seq(
            inputs@,
        ));
        assert(crate::cli::words_seq(outputs@) + Seq::<Seq<u8>>::empty() =~= crate::cli::words_seq(
            outputs@,
        ));
        assert(crate::cli::words_seq(appends@) + Seq::<Seq<u8>>::empty() =~= crate::cli::words_seq(
            appends@,
        ));
    }
    (inputs, outputs, appends)
}

/// Appends every pair of one kind, in the order written.
fn push_kind(out: &mut Vec<(Redir, Vec<u8>)>, redirs: &Vec<(Redir, Vec<u8>)>, k: Redir)
    ensures
        pairs_view(final(out)@) == pairs_view(old(out)@) + of_kind(pairs_view(redirs@), k),
{
    let ghost rv = pairs_view(redirs@);
    let ghost orig = pairs_view(out@);
    let ghost mut emitted: Seq<(Redir, Seq<u8>)> = Seq::empty();
    let n = redirs.len();
    let mut i: usize = 0;
    proof {
        assert(rv.skip(0) =~= rv);
        assert(orig + emitted =~= orig);
        assert(Seq::<(Redir, Seq<u8>)>::empty() + of_kind(rv, k) =~= of_kind(rv, k));
    }
    while i < n
        invariant
            i <= n,
            n == redirs@.len(),
            rv == pairs_view(redirs@),
            pairs_view(out@) == orig + emitted,
            of_kind(rv, k) == emitted + of_kind(rv.skip(i as int), k),
        decreases n - i,
    {
        let ghost rem = rv.skip(i as int);
        proof {
            assert(rem[0] == rv[i as int]);
            assert(rem.skip(1) =~= rv.skip(i + 1 as int));
        }
        if redirs[i].0 == k {
            let f = crate::parse::dup_bytes(&redirs[i].1);
            let ghost o0 = pairs_view(out@);
            out.push((k, f));
            proof {
                assert(pairs_view(out@) =~= o0.push(rem[0]));
                emitted = emitted.push(rem[0]);
                assert(orig + emitted =~= pairs_view(out@));
                assert(emitted.drop_last() + (seq![rem[0]] + of_kind(rem.skip(1), k))
                    =~= emitted + of_kind(rem.skip(1), k));
            }
        } else {
            proof {
                assert(Seq::<(Redir, Seq<u8>)>::empty() + of_kind(rem.skip(1), k) =~= of_kind(
                    rem.skip(1),
                    k,
                ));
            }
        }
        i = i + 1;
    }
    proof {
        assert(rv.skip(n as int) =~= Seq::<(Redir, Seq<u8>)>::empty());
        assert(emitted + Seq::<(Redir, Seq<u8>)>::empty() =~= emitted);
    }
}

/// Serializes one stage back into an `exec` command line, the redirections
/// grouped by kind: inputs, then outputs, then appends.
pub fn serialize_stage(cmd: &Vec<u8>, redirs: &Vec<(Redir, Vec<u8>)>) -> (r: Vec<u8>)
    ensures
        r@ == spec_serialize(cmd@, pairs_view(redirs@)),
{
    let mut g: Vec<(Redir, Vec<u8>)> = Vec::new();
    push_kind(&mut g, redirs, Redir::Input);
    push_kind(&mut g, redirs, Redir::Output);
    push_kind(&mut g, redirs, Redir::Append);
    proof {
        assert(pairs_view(g@) =~= kind_grouped(pairs_view(redirs@)));
    }
    let redirs = &g;
    let ghost rv = pairs_view(redirs@);
    let mut out: Vec<u8> = vec![101, 120, 101, 99, 32];
    crate::parse::append_bytes(&mut out, cmd);
    proof {
        assert(out@ =~= crate::cli::lit_exec() + seq![32u8] + cmd@);
        assert(rv.skip(0) =~= rv);
    }
    let ghost head = out@;
    let n = redirs.len();
    let mut i: usize = 0;
    while i < n
        invariant
            i <= n,
            n == redirs@.len(),
            rv == pairs_view(redirs@),
            head == crate::cli::lit_exec() + seq![32u8] + cmd@,
            out@ + ser_redirs(rv.skip(i as int)) == head + ser_redirs(rv),
        decreases n - i,
    {
        let ghost rem = rv.skip(i as int);
        let ghost o0 = out@;
        proof {
            assert(rem[0] == rv[i as int]);
            assert(rem.skip(1) =~= rv.skip(i + 1 as int));
        }
        out.push(32);
        match redirs[i].0 {
            Redir::Input => {
                out.push(60);
            },
            Redir::Output => {
                out.push(62);
            },
            Redir::Append => {
                out.push(62);
                out.push(62);
            },
        }
        out.push(32);
        crate::parse::append_bytes(&mut out, &redirs[i].1);
        proof {
            assert(out@ =~= o0 + (seq![32u8] + op_lit(rem[0].0) + seq![32u8] + rem[0].1));
            assert(o0 + (seq![32u8] + op_lit(rem[0].0) + seq![32u8] + rem[0].1) + ser_redirs(
                rem.skip(1),
            ) =~= o0 + ser_redirs(rem));
        }
        i = i + 1;
    }
    proof {
        assert(rv.skip(n as int) =~= Seq::<(Redir, Seq<u8>)>::empty());
        assert(ser_redirs(rv.skip(n as int)) =~= Seq::<u8>::empty());
        assert(out@ + Seq::<u8>::empty() =~= out@);
    }
    out
}

/// Evaluates one line's stages against the variable store. One stage is
/// classified and either finished here (`export`, `exit`) or handed back as
/// the machine effect to perform; two or more stages become the serialized
/// pipeline respawn lines. Only `export` changes the store, and a failed
/// line leaves it untouched.
pub fn eval(exprs: Vec<Expr>, vars: &mut Vars, home: Option<Vec<u8>>) -> (r: Result<
    (Action, Output),
    EvalError,
>)
    requires
        old(vars).wf(),
        forall|i: int| 0 <= i < exprs@.len() ==> (#[trigger] exprs@[i]@.cmd) is Some,
    ensures
        final(vars).wf(),
        (match spec_eval(exprs_view(exprs@), opt_bytes_view(home), old(vars)@) {
            Ok((a, o, m2)) => r matches Ok(p) && p.0@ == a && p.1 == o && final(vars)@ == m2,
            Err(e) => r matches Err(e2) && e2 == e && final(vars)@ == old(vars)@,
        }),
{
    let ghost es = exprs_view(exprs@);
    let ghost hv = opt_bytes_view(home);
    let ghost m0 = vars@;
    let n = exprs.len();
    if n == 0 {
        return Err(EvalError::NoExpression);
    }
    if n == 1 {
        let mut exprs = exprs;
        let e = exprs.remove(0);
        let ghost ev = e@;
        proof {
            assert(ev == es[0]);
        }
        let cmd: Vec<u8> = match e.cmd {
            Some(c) => c,
            None => {
                // ruled out by the precondition: every stage carries a command
                proof {
                    assert(false);
                }
                return Err(EvalError::NoExpression);
            },
        };
        let redirs = e.redirs;
        proof {
            assert(ev.cmd->0 == cmd@);
            assert(ev.redirs == pairs_view(redirs@));
        }
        let c = match crate::cli::command_from_text(cmd.as_slice()) {
            Ok(c) => c,
            Err(GrammarError::EmptyCommand) => {
                return Err(EvalError::EmptyCommand);
            },
        };
        let ghost sc = c@;
        match c {
            Command::Cd { path } => {
                let target: Vec<u8> = match path {
                    None => match home {
                        Some(h) => h,
                        None => {
                            return Err(EvalError::MissingHome);
                        },
                    },
                    Some(p) => {
                        let tilde: Vec<u8> = vec![126];
                        proof {
                            assert(tilde@ =~= lit_tilde());
                        }
                        if crate::var::bytes_eq(&p, tilde.as_slice()) {
                            match home {
                                Some(h) => h,
                                None => {
                                    return Err(EvalError::MissingHome);
                                },
                            }
                        } else {
                            p
                        }
                    },
                };
                Ok((Action::ChangeDir { target }, Output::Norm))
            },
            Command::Ls { path } => {
                let norm: Option<Vec<u8>> = match path {
                    Some(p) => {
                        if p.len() == 0 {
                            None
                        } else {
                            Some(p)
                        }
                    },
                    None => None,
                };
                Ok((Action::ListDir { path: norm }, Output::Norm))
            },
            Command::Echo { s } => {
                let line: Vec<u8> = match s {
                    Some(t) => t,
                    None => Vec::new(),
                };
                Ok((Action::Print { line }, Output::Norm))
            },
            Command::Pwd => Ok((Action::PrintCwd, Output::Norm)),
            Command::Exec { program, args } => {
                let (inputs, outputs, appends) = partition_redirs(&redirs);
                Ok((Action::Run { program, args, inputs, outputs, appends }, Output::Exit))
            },
            Command::External { program, args } => {
                let (inputs, outputs, appends) = partition_redirs(&redirs);
                Ok((Action::Run { program, args, inputs, outputs, appends }, Output::Norm))
            },
            Command::Export { n: flag, vars: ops } => {
                if flag && ops.len() == 0 {
                    return Err(EvalError::ExportUsage);
                }
                if flag {
                    vars.remove(ops);
                } else {
                    vars.append(ops);
                }
                Ok((Action::NoEffect, Output::Norm))
            },
            Command::Exit => Ok((Action::NoEffect, Output::Exit)),
        }
    } else {
        let mut lines: Vec<Vec<u8>> = Vec::new();
        let mut i: usize = 0;
        proof {
            assert(crate::cli::words_seq(lines@) =~= lines_of(es.take(0)));
        }
        while i < n
            invariant
                i <= n,
                n == exprs@.len(),
                es == exprs_view(exprs@),
                forall|k: int| 0 <= k < exprs@.len() ==> (#[trigger] exprs@[k]@.cmd) is Some,
                crate::cli::words_seq(lines@) == lines_of(es.take(i as int)),
            decreases n - i,
        {
            let line: Vec<u8> = match &exprs[i].cmd {
                Some(c) => serialize_stage(c, &exprs[i].redirs),
                None => {
                    // ruled out by the precondition: every stage carries a command
                    proof {
                        assert(false);
                    }
                    Vec::new()
                },
            };
            let ghost l0 = line@;
            let ghost lv = crate::cli::words_seq(lines@);
            lines.push(line);
            proof {
                assert(l0 == spec_serialize(es[i as int].cmd->0, es[i as int].redirs));
                assert(crate::cli::words_seq(lines@) =~= lv.push(l0));
                assert(es.take(i + 1 as int).drop_last() =~= es.take(i as int));
                assert(lines_of(es.take(i + 1 as int)) =~= lines_of(es.take(i as int)).push(
                    spec_serialize(es[i as int].cmd->0, es[i as int].redirs),
                ));
            }
            i = i + 1;
        }
        proof {
            assert(es.take(n as int) =~= es);
        }
        Ok((Action::Pipeline { lines }, Output::Norm))
    }
}

/// The byte text `: no such file or directory`.
pub open spec fn lit_no_such_file() -> Seq<u8> {
    seq![
        58u8, 32u8, 110u8, 111u8, 32u8, 115u8, 117u8, 99u8, 104u8, 32u8, 102u8, 105u8, 108u8,
        101u8, 32u8, 111u8, 114u8, 32u8, 100u8, 105u8, 114u8, 101u8, 99u8, 116u8, 111u8, 114u8,
        121u8,
    ]
}

/// The message for a `cd` whose target does not exist: the target, then
/// `: no such file or directory`. A missing target is the one failure `cd`
/// reports in its own words; every other failure passes through unchanged.
pub fn no_such_file_message(target: &Vec<u8>) -> (r: Vec<u8>)
    ensures
        r@ == target@ + lit_no_such_file(),
{
    let mut r = crate::parse::dup_bytes(target);
    let suffix: Vec<u8> = vec![
        58, 32, 110, 111, 32, 115, 117, 99, 104, 32, 102, 105, 108, 101, 32, 111, 114, 32, 100,
        105, 114, 101, 99, 116, 111, 114, 121,
    ];
    proof {
        assert(suffix@ =~= lit_no_such_file());
    }
    crate::parse::append_bytes(&mut r, &suffix);
    r
}

} // verus!
