//! The parser: consumes one line's token sequence, splits it into pipeline
//! stages at pipe boundaries, reconstructs multi-word command texts, and
//! pairs trailing redirection operators with their filename operands.
use crate::scan::{MetaToken, SpecMeta, SpecToken, Token};
use vstd::prelude::*;

verus! {

/// Why a token sequence is not a valid pipeline.
#[derive(Debug, Clone, Copy, PartialEq, Eq, Structural)]
pub enum ParseError {
    /// A stage begins with something other than a command word.
    MissingCommand,
    /// A token where one of the redirection operators was expected.
    MissRedir,
    /// A redirection operator with no filename word after it.
    MissingFilename,
}

/// The three redirection kinds.
#[derive(Debug, Clone, Copy, PartialEq, Eq, Structural)]
pub enum Redir {
    Input,
    Output,
    Append,
}

pub open spec fn pairs_view(s: Seq<(Redir, Vec<u8>)>) -> Seq<(Redir, Seq<u8>)> {
    s.map_values(|p: (Redir, Vec<u8>)| (p.0, p.1@))
}

/// One pipeline stage: a command text and its redirections, in the order
/// written. `cmd` is `None` only for a malformed stage; `parse` never
/// returns one.
#[derive(Debug)]
pub struct Expr {
    pub cmd: Option<Vec<u8>>,
    pub redirs: Vec<(Redir, Vec<u8>)>,
}

/// The mathematical shadow of `Expr`.
pub struct SpecExpr {
    pub cmd: Option<Seq<u8>>,
    pub redirs: Seq<(Redir, Seq<u8>)>,
}

impl View for Expr {
    type V = SpecExpr;

    open spec fn view(&self) -> SpecExpr {
        SpecExpr {
            cmd: match self.cmd {
                Some(c) => Some(c@),
                None => None,
            },
            redirs: pairs_view(self.redirs@),
        }
    }
}

pub open spec fn metas_view(s: Seq<MetaToken>) -> Seq<SpecMeta> {
    s.map_values(|m: MetaToken| m@)
}

pub open spec fn exprs_view(s: Seq<Expr>) -> Seq<SpecExpr> {
    s.map_values(|e: Expr| e@)
}

/// What `parse` returns, abstractly.
pub open spec fn parse_view(r: Result<Vec<Expr>, ParseError>) -> Result<Seq<SpecExpr>, ParseError> {
    match r {
        Ok(es) => Ok(exprs_view(es@)),
        Err(e) => Err(e),
    }
}

/// Squashing, after a run of adjacent words joined into `acc` (first word at
/// offset `pos`) that is still open.
pub open spec fn spec_squash_acc(ts: Seq<SpecMeta>, acc: Seq<u8>, pos: nat) -> Seq<SpecMeta>
    decreases ts.len(),
{
    if ts.len() == 0 {
        seq![SpecMeta { token: SpecToken::Word(acc), pos }]
    } else {
        match ts[0].token {
            SpecToken::Word(w) => spec_squash_acc(ts.skip(1), acc + seq![32u8] + w, pos),
            _ => seq![SpecMeta { token: SpecToken::Word(acc), pos }] + (seq![ts[0]]
                + spec_squash(ts.skip(1))),
        }
    }
}

/// Merges every run of consecutive word tokens into one word token whose
/// lexeme is the run's lexemes joined with single spaces; every other token
/// passes through unchanged and bounds the runs. The merged token keeps the
/// offset of the run's first word.
pub open spec fn spec_squash(ts: Seq<SpecMeta>) -> Seq<SpecMeta>
    decreases ts.len(),
{
    if ts.len() == 0 {
        Seq::empty()
    } else {
        match ts[0].token {
            SpecToken::Word(w) => spec_squash_acc(ts.skip(1), w, ts[0].pos),
            _ => seq![ts[0]] + spec_squash(ts.skip(1)),
        }
    }
}

/// The first position `j` at or after `from` where `ts[j]` is a pipe token.
pub open spec fn find_pipe(ts: Seq<SpecMeta>, from: int) -> Option<int>
    decreases ts.len() - from,
{
    if from < 0 || from >= ts.len() {
        None
    } else if ts[from].token is Pipe {
        Some(from)
    } else {
        find_pipe(ts, from + 1)
    }
}

pub proof fn lemma_find_pipe_bounds(ts: Seq<SpecMeta>, from: int, j: int)
    requires
        find_pipe(ts, from) == Some(j),
    ensures
        from <= j < ts.len(),
        0 <= j,
    decreases ts.len() - from,
{
    if !(from < 0 || from >= ts.len()) {
        if ts[from].token is Pipe {
        } else {
            lemma_find_pipe_bounds(ts, from + 1, j);
        }
    }
}

/// Splits a squashed token sequence into groups at each pipe token; the pipes
/// themselves are discarded.
pub open spec fn spec_groups(ts: Seq<SpecMeta>) -> Seq<Seq<SpecMeta>>
    decreases ts.len(),
    via spec_groups_decreases
{
    match find_pipe(ts, 0) {
        None => seq![ts],
        Some(j) => seq![ts.take(j)] + spec_groups(ts.skip(j + 1)),
    }
}

#[via_fn]
proof fn spec_groups_decreases(ts: Seq<SpecMeta>) {
    if let Some(j) = find_pipe(ts, 0) {
        lemma_find_pipe_bounds(ts, 0, j);
    }
}

/// The redirection kind an operator token names.
pub open spec fn redir_kind(t: SpecToken) -> Redir {
    match t {
        SpecToken::Input => Redir::Input,
        SpecToken::Output => Redir::Output,
        _ => Redir::Append,
    }
}

/// Consumes the tokens after a stage's command word in strict pairs: a
/// redirection operator, then a filename word. A single leftover token is
/// tolerated only when it is no operator (the final stage's end marker): a
/// dangling operator with no filename after it always fails.
pub open spec fn spec_redirs(rest: Seq<SpecMeta>) -> Result<Seq<(Redir, Seq<u8>)>, ParseError>
    decreases rest.len(),
{
    if rest.len() == 0 {
        Ok(Seq::empty())
    } else if rest.len() == 1 {
        match rest[0].token {
            SpecToken::Input | SpecToken::Output | SpecToken::Append => Err(
                ParseError::MissingFilename,
            ),
            _ => Ok(Seq::empty()),
        }
    } else {
        match rest[0].token {
            SpecToken::Input | SpecToken::Output | SpecToken::Append => match rest[1].token {
                SpecToken::Word(f) => match spec_redirs(rest.skip(2)) {
                    Ok(tail) => Ok(seq![(redir_kind(rest[0].token), f)] + tail),
                    Err(e) => Err(e),
                },
                _ => Err(ParseError::MissingFilename),
            },
            _ => Err(ParseError::MissRedir),
        }
    }
}

/// One group between pipes: a command word first, then redirection pairs.
/// A group that does not begin with a word token has no command and is
/// malformed.
pub open spec fn spec_group(g: Seq<SpecMeta>) -> Result<SpecExpr, ParseError> {
    if g.len() == 0 {
        Err(ParseError::MissingCommand)
    } else {
        match g[0].token {
            SpecToken::Word(w) => match spec_redirs(g.skip(1)) {
                Ok(rs) => Ok(SpecExpr { cmd: Some(w), redirs: rs }),
                Err(e) => Err(e),
            },
            _ => Err(ParseError::MissingCommand),
        }
    }
}

/// Parses every group, in order; the first malformed group decides the error.
pub open spec fn spec_parse_groups(gs: Seq<Seq<SpecMeta>>) -> Result<Seq<SpecExpr>, ParseError>
    decreases gs.len(),
{
    if gs.len() == 0 {
        Ok(Seq::empty())
    } else {
        match spec_group(gs[0]) {
            Ok(e) => match spec_parse_groups(gs.skip(1)) {
                Ok(rest) => Ok(seq![e] + rest),
                Err(er) => Err(er),
            },
            Err(e) => Err(e),
        }
    }
}

/// What `parse` yields on a token sequence: squash, split at pipes, then
/// read each group as a command word followed by redirection pairs.
pub open spec fn spec_parse(ts: Seq<SpecMeta>) -> Result<Seq<SpecExpr>, ParseError> {
    spec_parse_groups(spec_groups(spec_squash(ts)))
}

/// Appends all of `src` to `dst`.
pub fn append_bytes(dst: &mut Vec<u8>, src: &Vec<u8>)
    ensures
        final(dst)@ == old(dst)@ + src@,
{
    let mut k: usize = 0;
    proof {
        assert(dst@ =~= old(dst)@ + src@.subrange(0, 0));
    }
    while k < src.len()
        invariant
            k <= src@.len(),
            dst@ == old(dst)@ + src@.subrange(0, k as int),
        decreases src@.len() - k,
    {
        dst.push(src[k]);
        proof {
            assert(dst@ =~= old(dst)@ + src@.subrange(0, k + 1 as int));
        }
        k = k + 1;
    }
    proof {
        assert(src@.subrange(0, src@.len() as int) =~= src@);
    }
}

/// Copies a byte vector.
pub fn dup_bytes(src: &Vec<u8>) -> (r: Vec<u8>)
    ensures
        r@ == src@,
{
    let mut r: Vec<u8> = Vec::new();
    append_bytes(&mut r, src);
    proof {
        assert(Seq::<u8>::empty() + src@ =~= src@);
    }
    r
}

proof fn lemma_metas_push(v: Seq<MetaToken>, x: MetaToken, pre: Seq<SpecMeta>)
    requires
        metas_view(v) == pre,
    ensures
        metas_view(v.push(x)) == pre.push(x@),
{
    assert(metas_view(v.push(x)) =~= metas_view(v).push(x@));
    assert(metas_view(v).push(x@) =~= pre.push(x@));
}

proof fn lemma_exprs_push(v: Seq<Expr>, x: Expr, pre: Seq<SpecExpr>)
    requires
        exprs_view(v) == pre,
    ensures
        exprs_view(v.push(x)) == pre.push(x@),
{
    assert(exprs_view(v.push(x)) =~= exprs_view(v).push(x@));
    assert(exprs_view(v).push(x@) =~= pre.push(x@));
}

/// Merges every run of consecutive `String` tokens into one, joining their
/// lexemes with single spaces; other tokens pass through and bound the runs.
pub fn squash(tokens: Vec<MetaToken>) -> (r: Vec<MetaToken>)
    ensures
        metas_view(r@) == spec_squash(metas_view(tokens@)),
{
    let ghost whole = metas_view(tokens@);
    let mut out: Vec<MetaToken> = Vec::new();
    let mut acc: Option<(Vec<u8>, usize)> = None;
    let mut i: usize = 0;
    let n = tokens.len();
    proof {
        assert(whole.skip(0) =~= whole);
        assert(metas_view(out@) =~= Seq::<SpecMeta>::empty());
        assert(Seq::<SpecMeta>::empty() + spec_squash(whole) =~= spec_squash(whole));
    }
    while i < n
        invariant
            i <= n,
            n == tokens@.len(),
            whole == metas_view(tokens@),
            acc is None ==> spec_squash(whole) == metas_view(out@) + spec_squash(
                whole.skip(i as int),
            ),
            acc matches Some((a, p)) ==> spec_squash(whole) == metas_view(out@)
                + spec_squash_acc(whole.skip(i as int), a@, p as nat),
        decreases n - i,
    {
        let ghost rem = whole.skip(i as int);
        proof {
            assert(rem[0] == whole[i as int]);
            assert(rem.skip(1) =~= whole.skip(i + 1 as int));
        }
        let pos = tokens[i].pos;
        match &tokens[i].token {
            Token::String { lex } => {
                proof {
                    assert(rem[0].token == SpecToken::Word(lex@));
                    assert(rem[0].pos == pos as nat);
                }
                match &mut acc {
                    None => {
                        acc = Some((dup_bytes(lex), pos));
                    },
                    Some((a, _)) => {
                        let ghost a0 = a@;
                        a.push(32);
                        append_bytes(a, lex);
                        proof {
                            assert(a@ =~= a0 + seq![32u8] + lex@);
                        }
                    },
                }
            },
            _ => {
                proof {
                    assert(!(rem[0].token is Word));
                }
                let ghost out0 = metas_view(out@);
                let ghost acc0 = acc;
                if acc.is_some() {
                    let (a, p) = acc.unwrap();
                    acc = None;
                    let m = MetaToken { token: Token::String { lex: a }, pos: p };
                    proof {
                        lemma_metas_push(out@, m, out0);
                    }
                    out.push(m);
                }
                let ghost out1 = metas_view(out@);
                let m2 = MetaToken {
                    token: match &tokens[i].token {
                        Token::Eos => Token::Eos,
                        Token::Pipe => Token::Pipe,
                        Token::Input => Token::Input,
                        Token::Output => Token::Output,
                        Token::Append => Token::Append,
                        Token::String { lex } => Token::String { lex: dup_bytes(lex) },
                    },
                    pos,
                };
                proof {
                    assert(m2@ == whole[i as int]);
                    lemma_metas_push(out@, m2, out1);
                }
                out.push(m2);
                proof {
                    let t = spec_squash(rem.skip(1));
                    if acc0 is None {
                        assert(out0 + (seq![rem[0]] + t) =~= out1.push(rem[0]) + t);
                    } else {
                        let av = acc0->Some_0.0@;
                        let pv = acc0->Some_0.1 as nat;
                        assert(spec_squash_acc(rem, av, pv) == seq![
                            SpecMeta { token: SpecToken::Word(av), pos: pv },
                        ] + (seq![rem[0]] + t));
                        assert(out0 + (seq![SpecMeta { token: SpecToken::Word(av), pos: pv }]
                            + (seq![rem[0]] + t)) =~= out1.push(rem[0]) + t);
                    }
                    assert(metas_view(out@) == out1.push(rem[0]));
                }
            },
        }
        i = i + 1;
    }
    proof {
        assert(whole.skip(n as int) =~= Seq::<SpecMeta>::empty());
    }
    if acc.is_some() {
        let (a, p) = acc.unwrap();
        let ghost out0 = metas_view(out@);
        let m = MetaToken { token: Token::String { lex: a }, pos: p };
        proof {
            lemma_metas_push(out@, m, out0);
            assert(out0 + seq![m@] =~= out0.push(m@));
        }
        out.push(m);
    } else {
        proof {
            assert(metas_view(out@) + Seq::<SpecMeta>::empty() =~= metas_view(out@));
        }
    }
    out
}

/// Reads one group as a command word followed by redirection pairs.
fn parse_group(ts: &Vec<MetaToken>, start: usize, end: usize) -> (r: Result<Expr, ParseError>)
    requires
        start <= end <= ts@.len(),
    ensures
        (match r {
            Ok(e) => spec_group(metas_view(ts@).subrange(start as int, end as int)) == Ok::<SpecExpr, ParseError>(e@),
            Err(er) => spec_group(metas_view(ts@).subrange(start as int, end as int)) == Err::<SpecExpr, ParseError>(er),
        }),
{
    let ghost g = metas_view(ts@).subrange(start as int, end as int);
    if start == end {
        return Err(ParseError::MissingCommand);
    }
    proof {
        assert(g[0] == metas_view(ts@)[start as int]);
    }
    let cmd: Vec<u8> = match &ts[start].token {
        Token::String { lex } => {
            proof {
                assert(g[0].token == SpecToken::Word(lex@));
            }
            dup_bytes(lex)
        },
        _ => {
            return Err(ParseError::MissingCommand);
        },
    };
    let mut redirs: Vec<(Redir, Vec<u8>)> = Vec::new();
    let mut k: usize = start + 1;
    proof {
        assert(g.skip(1) =~= g.skip((k - start) as int));
        assert(pairs_view(redirs@) =~= Seq::<(Redir, Seq<u8>)>::empty());
        if let Ok(tail) = spec_redirs(g.skip(1)) {
            assert(Seq::<(Redir, Seq<u8>)>::empty() + tail =~= tail);
        }
    }
    while end - k > 1
        invariant
            start + 1 <= k <= end <= ts@.len(),
            g == metas_view(ts@).subrange(start as int, end as int),
            0 < g.len(),
            g[0].token == SpecToken::Word(cmd@),
            (match spec_redirs(g.skip((k - start) as int)) {
                Ok(tail) => spec_redirs(g.skip(1)) == Ok::<Seq<(Redir, Seq<u8>)>, ParseError>(pairs_view(redirs@) + tail),
                Err(e) => spec_redirs(g.skip(1)) == Err::<Seq<(Redir, Seq<u8>)>, ParseError>(e),
            }),
        decreases end - k,
    {
        let ghost rest = g.skip((k - start) as int);
        proof {
            assert(rest.len() == end - k);
            assert(rest[0] == metas_view(ts@)[k as int]);
            assert(rest[1] == metas_view(ts@)[k + 1 as int]);
            assert(rest.skip(2) =~= g.skip((k + 2 - start) as int));
        }
        let rd = match &ts[k].token {
            Token::Input => Redir::Input,
            Token::Output => Redir::Output,
            Token::Append => Redir::Append,
            _ => {
                proof {
                    assert(!(rest[0].token is Input) && !(rest[0].token is Output) && !(
                    rest[0].token is Append));
                    assert(spec_redirs(rest) == Err::<Seq<(Redir, Seq<u8>)>, ParseError>(
                        ParseError::MissRedir,
                    ));
                    assert(g[0].token is Word);
                    assert(spec_group(g) == Err::<SpecExpr, ParseError>(ParseError::MissRedir));
                }
                return Err(ParseError::MissRedir);
            },
        };
        let f: Vec<u8> = match &ts[k + 1].token {
            Token::String { lex } => dup_bytes(lex),
            _ => {
                proof {
                    assert(!(rest[1].token is Word));
                    assert(rest[0].token is Input || rest[0].token is Output || rest[0].token
                        is Append);
                    assert(spec_redirs(rest) == Err::<Seq<(Redir, Seq<u8>)>, ParseError>(
                        ParseError::MissingFilename,
                    ));
                    assert(g[0].token is Word);
                    assert(spec_group(g) == Err::<SpecExpr, ParseError>(
                        ParseError::MissingFilename,
                    ));
                }
                return Err(ParseError::MissingFilename);
            },
        };
        let ghost rv0 = pairs_view(redirs@);
        let ghost pair_spec = (rd, f@);
        redirs.push((rd, f));
        proof {
            assert(pairs_view(redirs@) =~= rv0.push(pair_spec));
            assert(pair_spec == (redir_kind(rest[0].token), rest[1].token->Word_0));
            if let Ok(tail) = spec_redirs(rest.skip(2)) {
                assert(rv0.push(pair_spec) + tail =~= rv0 + (seq![pair_spec] + tail));
            }
        }
        k = k + 2;
    }
    proof {
        assert(g.skip((k - start) as int).len() < 2);
    }
    if k < end {
        // exactly one token left: a dangling operator is an error, the final
        // stage's end marker is the one tolerated leftover
        let ghost rest = g.skip((k - start) as int);
        proof {
            assert(rest.len() == 1);
            assert(rest[0] == metas_view(ts@)[k as int]);
        }
        match &ts[k].token {
            Token::Input | Token::Output | Token::Append => {
                proof {
                    assert(rest[0].token is Input || rest[0].token is Output || rest[0].token
                        is Append);
                    assert(spec_redirs(rest) == Err::<Seq<(Redir, Seq<u8>)>, ParseError>(
                        ParseError::MissingFilename,
                    ));
                    assert(spec_group(g) == Err::<SpecExpr, ParseError>(
                        ParseError::MissingFilename,
                    ));
                }
                return Err(ParseError::MissingFilename);
            },
            _ => {
                proof {
                    assert(!(rest[0].token is Input) && !(rest[0].token is Output) && !(
                    rest[0].token is Append));
                }
            },
        }
    }
    proof {
        assert(pairs_view(redirs@) + Seq::<(Redir, Seq<u8>)>::empty() =~= pairs_view(redirs@));
    }
    let e = Expr { cmd: Some(cmd), redirs };
    Ok(e)
}

/// Turns one line's token sequence into its pipeline stages, or the first
/// grammar violation: a stage with no leading command word, a token in
/// operator position that is no operator, or an operator with no filename.
pub fn parse(tokens: Vec<MetaToken>) -> (r: Result<Vec<Expr>, ParseError>)
    ensures
        parse_view(r) == spec_parse(metas_view(tokens@)),
{
    let ghost whole = metas_view(tokens@);
    let sq = squash(tokens);
    let ghost sv = metas_view(sq@);
    let mut res: Vec<Expr> = Vec::new();
    let mut i: usize = 0;
    let n = sq.len();
    proof {
        assert(sv.skip(0) =~= sv);
        assert(exprs_view(res@) =~= Seq::<SpecExpr>::empty());
        if let Ok(tail) = spec_parse_groups(spec_groups(sv)) {
            assert(Seq::<SpecExpr>::empty() + tail =~= tail);
        }
    }
    loop
        invariant
            i <= n,
            n == sv.len(),
            sv == metas_view(sq@),
            whole == metas_view(tokens@),
            spec_parse(whole) == spec_parse_groups(spec_groups(sv)),
            (match spec_parse_groups(spec_groups(sv.skip(i as int))) {
                Ok(tail) => spec_parse_groups(spec_groups(sv)) == Ok::<Seq<SpecExpr>, ParseError>(exprs_view(res@) + tail),
                Err(e) => spec_parse_groups(spec_groups(sv)) == Err::<Seq<SpecExpr>, ParseError>(e),
            }),
        decreases n - i + 1,
    {
        let ghost rem = sv.skip(i as int);
        // find the next pipe, or the end
        let mut j: usize = i;
        let mut piped = false;
        while j < n && !piped
            invariant
                i <= j <= n,
                n == sv.len(),
                sv == metas_view(sq@),
                rem == sv.skip(i as int),
                !piped ==> find_pipe(rem, 0) == find_pipe(rem, j - i),
                piped ==> i <= j < n && find_pipe(rem, 0) == Some(j - i),
            decreases n - j + (if piped { 0int } else { 1int }),
        {
            proof {
                assert(rem[j - i] == sv[j as int]);
            }
            let is_pipe = match &sq[j].token {
                Token::Pipe => true,
                _ => false,
            };
            if is_pipe {
                piped = true;
            } else {
                j = j + 1;
            }
        }
        proof {
            if piped {
                assert(rem.take(j - i) =~= sv.subrange(i as int, j as int));
            } else {
                assert(find_pipe(rem, n - i) is None);
                assert(rem =~= sv.subrange(i as int, j as int));
            }
        }
        let e = match parse_group(&sq, i, j) {
            Ok(e) => e,
            Err(er) => {
                proof {
                    assert(spec_groups(rem)[0] == (if piped {
                        rem.take(j - i)
                    } else {
                        rem
                    }));
                    assert(spec_parse_groups(spec_groups(rem)) == Err::<
                        Seq<SpecExpr>,
                        ParseError,
                    >(er));
                }
                return Err(er);
            },
        };
        let ghost rv0 = exprs_view(res@);
        proof {
            lemma_exprs_push(res@, e, rv0);
        }
        res.push(e);
        if piped {
            proof {
                assert(spec_groups(rem) == seq![rem.take(j - i)] + spec_groups(
                    rem.skip(j - i + 1),
                ));
                assert((seq![rem.take(j - i)] + spec_groups(rem.skip(j - i + 1))).skip(1)
                    =~= spec_groups(rem.skip(j - i + 1)));
                assert(rem.skip(j - i + 1) =~= sv.skip(j + 1 as int));
                if let Ok(tail) = spec_parse_groups(spec_groups(sv.skip(j + 1 as int))) {
                    assert(rv0.push(e@) + tail =~= rv0 + (seq![e@] + tail));
                }
            }
            i = j + 1;
        } else {
            proof {
                assert(spec_groups(rem) =~= seq![rem]);
                assert(seq![rem].skip(1) =~= Seq::<Seq<SpecMeta>>::empty());
                assert(spec_parse_groups(Seq::<Seq<SpecMeta>>::empty()) == Ok::<
                    Seq<SpecExpr>,
                    ParseError,
                >(Seq::<SpecExpr>::empty()));
                assert(rv0 + (seq![e@] + Seq::<SpecExpr>::empty()) =~= rv0.push(e@));
            }
            return Ok(res);
        }
    }
}

} // verus!
