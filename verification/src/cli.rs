//! The command grammar: re-lexes one stage's command text with shell
//! word-splitting rules (this pass dequotes) and classifies the words as a
//! builtin invocation or a generic external invocation.
use crate::var::{spec_var_of, Var};
use vstd::prelude::*;

verus! {

/// Why a command text yields no command at all.
#[derive(Debug, Clone, Copy, PartialEq, Eq, Structural)]
pub enum GrammarError {
    /// The text holds no word: empty, blank, or nothing but a comment.
    EmptyCommand,
}

/// One classified command.
///
/// The builtin shapes are `cd [path]`, `ls [path]`, `echo [text]`, `pwd`,
/// `exit`, `export [-n] KEY=VALUE...`, and the internal `exec PROGRAM
/// [ARGS...]` used by the pipeline respawn; any other word list is an
/// external program invocation.
#[derive(Debug)]
pub enum Command {
    Cd { path: Option<Vec<u8>> },
    Ls { path: Option<Vec<u8>> },
    Echo { s: Option<Vec<u8>> },
    Pwd,
    Exec { program: Vec<u8>, args: Vec<Vec<u8>> },
    External { program: Vec<u8>, args: Vec<Vec<u8>> },
    Export { n: bool, vars: Vec<Var> },
    Exit,
}

/// The mathematical shadow of `Command`.
pub enum SpecCommand {
    Cd { path: Option<Seq<u8>> },
    Ls { path: Option<Seq<u8>> },
    Echo { s: Option<Seq<u8>> },
    Pwd,
    Exec { program: Seq<u8>, args: Seq<Seq<u8>> },
    External { program: Seq<u8>, args: Seq<Seq<u8>> },
    Export { n: bool, vars: Seq<(Seq<u8>, Seq<u8>)> },
    Exit,
}

impl View for Command {
    type V = SpecCommand;

    open spec fn view(&self) -> SpecCommand {
        match self {
            Command::Cd { path } => SpecCommand::Cd {
                path: match path {
                    Some(p) => Some(p@),
                    None => None,
                },
            },
            Command::Ls { path } => SpecCommand::Ls {
                path: match path {
                    Some(p) => Some(p@),
                    None => None,
                },
            },
            Command::Echo { s } => SpecCommand::Echo {
                s: match s {
                    Some(t) => Some(t@),
                    None => None,
                },
            },
            Command::Pwd => SpecCommand::Pwd,
            Command::Exec { program, args } => SpecCommand::Exec {
                program: program@,
                args: words_seq(args@),
            },
            Command::External { program, args } => SpecCommand::External {
                program: program@,
                args: words_seq(args@),
            },
            Command::Export { n, vars } => SpecCommand::Export {
                n: *n,
                vars: crate::var::vars_view(vars@),
            },
            Command::Exit => SpecCommand::Exit,
        }
    }
}

pub open spec fn words_seq(ws: Seq<Vec<u8>>) -> Seq<Seq<u8>> {
    ws.map_values(|w: Vec<u8>| w@)
}

/// What `shlex::bytes::split` returns on the given bytes: the dequoted
/// words, or nothing when the text is erroneous (an unclosed quote, a
/// trailing backslash).
pub uninterp spec fn words_of(s: Seq<u8>) -> Option<Seq<Seq<u8>>>;

/// Relies on shlex::bytes::split for shell word-splitting with dequoting;
/// its result is a function of the input bytes alone, and None exactly on
/// erroneous input.
#[verifier::external_body]
fn split_words(s: &[u8]) -> (r: Option<Vec<Vec<u8>>>)
    ensures
        (match r {
            Some(ws) => words_of(s@) == Some(words_seq(ws@)),
            None => words_of(s@) == None::<Seq<Seq<u8>>>,
        }),
{
    shlex::bytes::split(s)
}

pub open spec fn lit_cd() -> Seq<u8> {
    seq![99u8, 100u8]
}

pub open spec fn lit_ls() -> Seq<u8> {
    seq![108u8, 115u8]
}

pub open spec fn lit_echo() -> Seq<u8> {
    seq![101u8, 99u8, 104u8, 111u8]
}

pub open spec fn lit_pwd() -> Seq<u8> {
    seq![112u8, 119u8, 100u8]
}

pub open spec fn lit_exit() -> Seq<u8> {
    seq![101u8, 120u8, 105u8, 116u8]
}

pub open spec fn lit_exec() -> Seq<u8> {
    seq![101u8, 120u8, 101u8, 99u8]
}

pub open spec fn lit_export() -> Seq<u8> {
    seq![101u8, 120u8, 112u8, 111u8, 114u8, 116u8]
}

pub open spec fn lit_dash_n() -> Seq<u8> {
    seq![45u8, 110u8]
}

/// An option-like word: a dash followed by at least one more byte. A builtin
/// does not take such a word as an operand; it forces the external fallback.
pub open spec fn is_flag(w: Seq<u8>) -> bool {
    w.len() >= 2 && w[0] == 45
}

/// The generic external interpretation of a word list.
pub open spec fn spec_external(ws: Seq<Seq<u8>>) -> SpecCommand {
    SpecCommand::External { program: ws[0], args: ws.skip(1) }
}

/// Every word parses as a `KEY=VALUE` variable and none looks like a flag.
pub open spec fn all_var_words(ops: Seq<Seq<u8>>) -> bool {
    forall|i: int| 0 <= i < ops.len() ==> (#[trigger] spec_var_of(ops[i])) is Ok && !is_flag(
        ops[i],
    )
}

pub open spec fn vars_of_words(ops: Seq<Seq<u8>>) -> Seq<(Seq<u8>, Seq<u8>)> {
    ops.map_values(|w: Seq<u8>| spec_var_of(w)->Ok_0)
}

/// How `export`'s operands read: an optional leading `-n`, then variables.
/// An operand that is no valid variable, or any other flag-like word, makes
/// the whole word list external.
pub open spec fn spec_export(ws: Seq<Seq<u8>>) -> SpecCommand {
    let rest = ws.skip(1);
    let n = rest.len() >= 1 && rest[0] == lit_dash_n();
    let ops = if n {
        rest.skip(1)
    } else {
        rest
    };
    if all_var_words(ops) {
        SpecCommand::Export { n, vars: vars_of_words(ops) }
    } else {
        spec_external(ws)
    }
}

/// The builtin vocabulary over a dequoted word list. A word list that fits
/// no builtin shape, among them one with too many operands or a flag-like
/// operand, is an external invocation of its first word.
pub open spec fn spec_command_of_words(ws: Seq<Seq<u8>>) -> Result<SpecCommand, GrammarError> {
    if ws.len() == 0 {
        Err(GrammarError::EmptyCommand)
    } else {
        let head = ws[0];
        if head == lit_cd() {
            if ws.len() == 1 {
                Ok(SpecCommand::Cd { path: None })
            } else if ws.len() == 2 && !is_flag(ws[1]) {
                Ok(SpecCommand::Cd { path: Some(ws[1]) })
            } else {
                Ok(spec_external(ws))
            }
        } else if head == lit_ls() {
            if ws.len() == 1 {
                Ok(SpecCommand::Ls { path: None })
            } else if ws.len() == 2 && !is_flag(ws[1]) {
                Ok(SpecCommand::Ls { path: Some(ws[1]) })
            } else {
                Ok(spec_external(ws))
            }
        } else if head == lit_echo() {
            if ws.len() == 1 {
                Ok(SpecCommand::Echo { s: None })
            } else if ws.len() == 2 && !is_flag(ws[1]) {
                Ok(SpecCommand::Echo { s: Some(ws[1]) })
            } else {
                Ok(spec_external(ws))
            }
        } else if head == lit_pwd() {
            if ws.len() == 1 {
                Ok(SpecCommand::Pwd)
            } else {
                Ok(spec_external(ws))
            }
        } else if head == lit_exit() {
            if ws.len() == 1 {
                Ok(SpecCommand::Exit)
            } else {
                Ok(spec_external(ws))
            }
        } else if head == lit_exec() {
            if ws.len() >= 2 && !is_flag(ws[1]) {
                Ok(SpecCommand::Exec { program: ws[1], args: ws.skip(2) })
            } else {
                Ok(spec_external(ws))
            }
        } else if head == lit_export() {
            Ok(spec_export(ws))
        } else {
            Ok(spec_external(ws))
        }
    }
}

/// Whitespace-splitting without any quoting rules: the raw words, used when
/// the dequoting pass rejects the text.
pub open spec fn spec_raw_words(s: Seq<u8>) -> Seq<Seq<u8>>
    decreases s.len(),
    via spec_raw_words_decreases
{
    if s.len() == 0 {
        Seq::empty()
    } else if crate::scan::is_blank(s[0]) {
        spec_raw_words(s.skip(1))
    } else {
        match find_blank(s, 1) {
            None => seq![s],
            Some(j) => seq![s.take(j)] + spec_raw_words(s.skip(j)),
        }
    }
}

/// The first space or tab at or after `from` (with `from >= 1`).
pub open spec fn find_blank(s: Seq<u8>, from: int) -> Option<int>
    decreases s.len() - from,
{
    if from < 1 || from >= s.len() {
        None
    } else if crate::scan::is_blank(s[from]) {
        Some(from)
    } else {
        find_blank(s, from + 1)
    }
}

pub proof fn lemma_find_blank_bounds(s: Seq<u8>, from: int, j: int)
    requires
        find_blank(s, from) == Some(j),
    ensures
        from <= j < s.len(),
        1 <= j,
    decreases s.len() - from,
{
    if !(from < 1 || from >= s.len()) {
        if crate::scan::is_blank(s[from]) {
        } else {
            lemma_find_blank_bounds(s, from + 1, j);
        }
    }
}

#[via_fn]
proof fn spec_raw_words_decreases(s: Seq<u8>) {
    if s.len() > 0 && !crate::scan::is_blank(s[0]) {
        if let Some(j) = find_blank(s, 1) {
            lemma_find_blank_bounds(s, 1, j);
        }
    }
}

/// What classifying a command text yields: the dequoted words fed to the
/// builtin vocabulary; when dequoting rejects the text, the external path
/// over the raw whitespace-split words instead; and no command at all when
/// no word is left either way.
pub open spec fn spec_from_text(t: Seq<u8>) -> Result<SpecCommand, GrammarError> {
    match words_of(t) {
        Some(ws) => spec_command_of_words(ws),
        None => {
            let rw = spec_raw_words(t);
            if rw.len() == 0 {
                Err(GrammarError::EmptyCommand)
            } else {
                Ok(spec_external(rw))
            }
        },
    }
}

/// Splits raw bytes on spaces and tabs, with no quoting rules.
fn raw_words(text: &[u8]) -> (r: Vec<Vec<u8>>)
    ensures
        words_seq(r@) == spec_raw_words(text@),
{
    let n = text.len();
    let mut out: Vec<Vec<u8>> = Vec::new();
    let mut i: usize = 0;
    let ghost mut emitted: Seq<Seq<u8>> = Seq::empty();
    proof {
        assert(text@.skip(0) =~= text@);
        assert(words_seq(out@) =~= emitted);
        assert(emitted + spec_raw_words(text@) =~= spec_raw_words(text@));
    }
    while i < n
        invariant
            i <= n,
            n == text@.len(),
            words_seq(out@) == emitted,
            spec_raw_words(text@) == emitted + spec_raw_words(text@.skip(i as int)),
        decreases n - i,
    {
        let ghost suffix = text@.skip(i as int);
        let b = text[i];
        proof {
            assert(suffix[0] == b);
        }
        if b == 32 || b == 9 {
            i = i + 1;
            proof {
                assert(suffix.skip(1) =~= text@.skip(i as int));
            }
        } else {
            let mut j = i + 1;
            let mut stop = false;
            while j < n && !stop
                invariant
                    i + 1 <= j <= n,
                    i < n,
                    n == text@.len(),
                    suffix == text@.skip(i as int),
                    !stop ==> find_blank(suffix, 1) == find_blank(suffix, j - i),
                    stop ==> i < j < n && find_blank(suffix, 1) == Some(j - i),
                decreases n - j + (if stop { 0int } else { 1int }),
            {
                let d = text[j];
                proof {
                    assert(suffix[j - i] == d);
                }
                if d == 32 || d == 9 {
                    stop = true;
                } else {
                    j = j + 1;
                }
            }
            let w = crate::scan::copy_range(text, i, j);
            let ghost w0 = w@;
            let ghost out0 = words_seq(out@);
            out.push(w);
            proof {
                assert(words_seq(out@) =~= out0.push(w0));
                emitted = emitted.push(w0);
            }
            if stop {
                proof {
                    assert(w0 =~= suffix.take(j - i));
                    assert(suffix.skip(j - i) =~= text@.skip(j as int));
                    assert(spec_raw_words(suffix) =~= seq![suffix.take(j - i)] + spec_raw_words(
                        text@.skip(j as int),
                    ));
                    assert(out0 + (seq![w0] + spec_raw_words(text@.skip(j as int))) =~= out0.push(
                        w0,
                    ) + spec_raw_words(text@.skip(j as int)));
                }
                i = j;
            } else {
                proof {
                    assert(find_blank(suffix, n - i) is None);
                    assert(w0 =~= suffix);
                    assert(spec_raw_words(suffix) =~= seq![suffix]);
                    assert(text@.skip(n as int) =~= Seq::<u8>::empty());
                    assert(spec_raw_words(text@.skip(n as int)) =~= Seq::<Seq<u8>>::empty());
                    assert(out0 + seq![w0] =~= out0.push(w0));
                    assert(out0.push(w0) + Seq::<Seq<u8>>::empty() =~= out0.push(w0));
                }
                i = n;
            }
        }
    }
    proof {
        assert(text@.skip(n as int) =~= Seq::<u8>::empty());
        assert(emitted + Seq::<Seq<u8>>::empty() =~= emitted);
    }
    out
}

/// Compares one word to a keyword given as plain bytes.
fn word_is(w: &Vec<u8>, kw: &[u8]) -> (r: bool)
    ensures
        r == (w@ == kw@),
{
    crate::var::bytes_eq(w, kw)
}

impl Command {
    /// Classifies a dequoted word list against the builtin vocabulary; a
    /// list that fits no builtin shape is an external invocation. An empty
    /// list holds no command.
    pub fn from_words(words: Vec<Vec<u8>>) -> (r: Result<Command, GrammarError>)
        ensures
            (match r {
                Ok(c) => spec_command_of_words(words_seq(words@)) == Ok::<
                    SpecCommand,
                    GrammarError,
                >(c@),
                Err(e) => spec_command_of_words(words_seq(words@)) == Err::<
                    SpecCommand,
                    GrammarError,
                >(e),
            }),
    {
        let ghost ws = words_seq(words@);
        let n = words.len();
        if n == 0 {
            return Err(GrammarError::EmptyCommand);
        }
        let kw_cd: Vec<u8> = vec![99, 100];
        let kw_ls: Vec<u8> = vec![108, 115];
        let kw_echo: Vec<u8> = vec![101, 99, 104, 111];
        let kw_pwd: Vec<u8> = vec![112, 119, 100];
        let kw_exit: Vec<u8> = vec![101, 120, 105, 116];
        let kw_exec: Vec<u8> = vec![101, 120, 101, 99];
        let kw_export: Vec<u8> = vec![101, 120, 112, 111, 114, 116];
        proof {
            assert(kw_cd@ =~= lit_cd());
            assert(kw_ls@ =~= lit_ls());
            assert(kw_echo@ =~= lit_echo());
            assert(kw_pwd@ =~= lit_pwd());
            assert(kw_exit@ =~= lit_exit());
            assert(kw_exec@ =~= lit_exec());
            assert(kw_export@ =~= lit_export());
            assert(ws[0] == words@[0]@);
        }
        if word_is(&words[0], kw_cd.as_slice()) {
            if n == 1 {
                return Ok(Command::Cd { path: None });
            }
            if n == 2 && !flag_like(&words[1]) {
                proof {
                    assert(ws[1] == words@[1]@);
                }
                let p = crate::parse::dup_bytes(&words[1]);
                return Ok(Command::Cd { path: Some(p) });
            }
            return Ok(external_of(words));
        }
        if word_is(&words[0], kw_ls.as_slice()) {
            if n == 1 {
                return Ok(Command::Ls { path: None });
            }
            if n == 2 && !flag_like(&words[1]) {
                proof {
                    assert(ws[1] == words@[1]@);
                }
                let p = crate::parse::dup_bytes(&words[1]);
                return Ok(Command::Ls { path: Some(p) });
            }
            return Ok(external_of(words));
        }
        if word_is(&words[0], kw_echo.as_slice()) {
            if n == 1 {
                return Ok(Command::Echo { s: None });
            }
            if n == 2 && !flag_like(&words[1]) {
                proof {
                    assert(ws[1] == words@[1]@);
                }
                let p = crate::parse::dup_bytes(&words[1]);
                return Ok(Command::Echo { s: Some(p) });
            }
            return Ok(external_of(words));
        }
        if word_is(&words[0], kw_pwd.as_slice()) {
            if n == 1 {
                return Ok(Command::Pwd);
            }
            return Ok(external_of(words));
        }
        if word_is(&words[0], kw_exit.as_slice()) {
            if n == 1 {
                return Ok(Command::Exit);
            }
            return Ok(external_of(words));
        }
        if word_is(&words[0], kw_exec.as_slice()) {
            if n >= 2 && !flag_like(&words[1]) {
                proof {
                    assert(ws[1] == words@[1]@);
                }
                let program = crate::parse::dup_bytes(&words[1]);
                let args = copy_tail(&words, 2);
                proof {
                    assert(words_seq(args@) =~= ws.skip(2));
                }
                return Ok(Command::Exec { program, args });
            }
            return Ok(external_of(words));
        }
        if word_is(&words[0], kw_export.as_slice()) {
            return Ok(export_of(words));
        }
        Ok(external_of(words))
    }
}

/// An option-like word: a dash and at least one more byte.
fn flag_like(w: &Vec<u8>) -> (r: bool)
    ensures
        r == is_flag(w@),
{
    w.len() >= 2 && w[0] == 45
}

/// Copies `words[from..]`.
fn copy_tail(words: &Vec<Vec<u8>>, from: usize) -> (r: Vec<Vec<u8>>)
    requires
        from <= words@.len(),
    ensures
        words_seq(r@) == words_seq(words@).skip(from as int),
{
    let n = words.len();
    let mut out: Vec<Vec<u8>> = Vec::new();
    let mut i: usize = from;
    proof {
        assert(words_seq(out@) =~= words_seq(words@).subrange(from as int, from as int));
    }
    while i < n
        invariant
            from <= i <= n,
            n == words@.len(),
            words_seq(out@) == words_seq(words@).subrange(from as int, i as int),
        decreases n - i,
    {
        let w = crate::parse::dup_bytes(&words[i]);
        let ghost o0 = words_seq(out@);
        out.push(w);
        proof {
            assert(words_seq(out@) =~= o0.push(words@[i as int]@));
            assert(o0.push(words@[i as int]@) =~= words_seq(words@).subrange(
                from as int,
                i + 1 as int,
            ));
        }
        i = i + 1;
    }
    proof {
        assert(words_seq(words@).subrange(from as int, n as int) =~= words_seq(words@).skip(
            from as int,
        ));
    }
    out
}

/// The external interpretation: first word the program, the rest its
/// arguments.
fn external_of(words: Vec<Vec<u8>>) -> (r: Command)
    requires
        words@.len() > 0,
    ensures
        r@ == spec_external(words_seq(words@)),
{
    let program = crate::parse::dup_bytes(&words[0]);
    let args = copy_tail(&words, 1);
    proof {
        assert(words_seq(words@)[0] == words@[0]@);
    }
    Command::External { program, args }
}

/// Reads `export`'s operands: an optional leading `-n`, then variables;
/// any invalid variable or other flag falls back to the external path.
fn export_of(words: Vec<Vec<u8>>) -> (r: Command)
    requires
        words@.len() > 0,
        words_seq(words@)[0] == lit_export(),
    ensures
        r@ == spec_export(words_seq(words@)),
{
    let ghost ws = words_seq(words@);
    let n = words.len();
    let kw_dash_n: Vec<u8> = vec![45, 110];
    proof {
        assert(kw_dash_n@ =~= lit_dash_n());
        assert(ws.skip(1).len() == n - 1);
        if n > 1 {
            assert(ws.skip(1)[0] == ws[1]);
            assert(ws[1] == words@[1]@);
        }
    }
    let has_n = n > 1 && word_is(&words[1], kw_dash_n.as_slice());
    let start: usize = if has_n {
        2
    } else {
        1
    };
    let ghost ops = if has_n {
        ws.skip(2)
    } else {
        ws.skip(1)
    };
    proof {
        if has_n {
            assert(ws.skip(1).skip(1) =~= ws.skip(2));
        }
        assert(ops =~= ws.skip(start as int));
    }
    let mut vars: Vec<Var> = Vec::new();
    let mut i: usize = start;
    proof {
        assert(crate::var::vars_view(vars@) =~= Seq::<(Seq<u8>, Seq<u8>)>::empty());
    }
    while i < n
        invariant
            start <= i <= n,
            n == words@.len(),
            ws == words_seq(words@),
            ws[0] == lit_export(),
            has_n == (n > 1 && ws[1] == lit_dash_n()),
            start == (if has_n { 2usize } else { 1usize }),
            ops == ws.skip(start as int),
            forall|m: int| start <= m < i ==> (#[trigger] spec_var_of(ws[m])) is Ok && !is_flag(
                ws[m],
            ),
            crate::var::vars_view(vars@) == ws.subrange(start as int, i as int).map_values(
                |w: Seq<u8>| spec_var_of(w)->Ok_0,
            ),
        decreases n - i,
    {
        proof {
            assert(ws[i as int] == words@[i as int]@);
        }
        if flag_like(&words[i]) {
            return external_of_exported(words, Ghost(i as int));
        }
        match Var::from_word(words[i].as_slice()) {
            Ok(v) => {
                let ghost v0 = crate::var::vars_view(vars@);
                vars.push(v);
                proof {
                    assert(crate::var::vars_view(vars@) =~= v0.push(
                        spec_var_of(ws[i as int])->Ok_0,
                    ));
                    assert(v0.push(spec_var_of(ws[i as int])->Ok_0) =~= ws.subrange(
                        start as int,
                        i + 1 as int,
                    ).map_values(|w: Seq<u8>| spec_var_of(w)->Ok_0));
                }
            },
            Err(_) => {
                return external_of_exported(words, Ghost(i as int));
            },
        }
        i = i + 1;
    }
    proof {
        assert(ws.subrange(start as int, n as int) =~= ops);
        assert(forall|m: int| 0 <= m < ops.len() ==> ops[m] == ws[m + start]);
        assert(all_var_words(ops));
        assert(crate::var::vars_view(vars@) =~= vars_of_words(ops));
    }
    Command::Export { n: has_n, vars }
}

/// The external fallback out of `export_of`, once operand `bad` failed.
fn external_of_exported(words: Vec<Vec<u8>>, Ghost(bad): Ghost<int>) -> (r: Command)
    requires
        words@.len() > 0,
        words_seq(words@)[0] == lit_export(),
        0 < bad < words@.len(),
        !((spec_var_of(words_seq(words@)[bad]) is Ok) && !is_flag(words_seq(words@)[bad])),
        (words@.len() > 1 && words_seq(words@)[1] == lit_dash_n()) ==> bad >= 2,
    ensures
        r@ == spec_export(words_seq(words@)),
{
    let ghost ws = words_seq(words@);
    proof {
        let rest = ws.skip(1);
        let has = rest.len() >= 1 && rest[0] == lit_dash_n();
        let ops = if has {
            rest.skip(1)
        } else {
            rest
        };
        assert(rest.skip(1) =~= ws.skip(2));
        if has {
            assert(bad >= 2);
            assert(ops[bad - 2] == ws[bad]);
        } else {
            assert(ops[bad - 1] == ws[bad]);
        }
        assert(!all_var_words(ops));
    }
    external_of(words)
}

/// Classifies one stage's command text: word-split with dequoting, then the
/// builtin vocabulary; when dequoting rejects the text, the raw words go the
/// external path. Fails only when no word is left.
pub fn command_from_text(text: &[u8]) -> (r: Result<Command, GrammarError>)
    ensures
        (match r {
            Ok(c) => spec_from_text(text@) == Ok::<SpecCommand, GrammarError>(c@),
            Err(e) => spec_from_text(text@) == Err::<SpecCommand, GrammarError>(e),
        }),
{
    match split_words(text) {
        Some(ws) => Command::from_words(ws),
        None => {
            let rw = raw_words(text);
            if rw.len() == 0 {
                Err(GrammarError::EmptyCommand)
            } else {
                Ok(external_of(rw))
            }
        },
    }
}

} // verus!
