//! One line's whole interpretation: scan, collect the scan's items, parse,
//! evaluate. The surrounding loop only reads a line, calls in here, performs
//! the returned action and reports errors.
use crate::eval::{opt_bytes_view, spec_eval, Action, EvalError, Output, SpecAction};
use crate::parse::{exprs_view, metas_view, spec_parse, ParseError, SpecExpr};
use crate::scan::{item_view, items_view, spec_scan, MetaToken, ScanError, SpecMeta};
use crate::var::Vars;
use vstd::prelude::*;

verus! {

/// Why a line failed, at whichever phase it did.
#[derive(Debug)]
pub enum LineError {
    /// Every failed scan item, in source order; the line is not evaluated.
    Scan(Vec<ScanError>),
    Parse(ParseError),
    Eval(EvalError),
}

/// The mathematical shadow of `LineError`; scan failures are their offsets.
pub enum SpecLineError {
    Scan(Seq<nat>),
    Parse(ParseError),
    Eval(EvalError),
}

impl View for LineError {
    type V = SpecLineError;

    open spec fn view(&self) -> SpecLineError {
        match self {
            LineError::Scan(errs) => SpecLineError::Scan(errs_view(errs@)),
            LineError::Parse(e) => SpecLineError::Parse(*e),
            LineError::Eval(e) => SpecLineError::Eval(*e),
        }
    }
}

pub open spec fn errs_view(s: Seq<ScanError>) -> Seq<nat> {
    s.map_values(|e: ScanError| e.pos as nat)
}

/// The tokens among the scan's items, in order.
pub open spec fn oks_of(items: Seq<Result<SpecMeta, nat>>) -> Seq<SpecMeta>
    decreases items.len(),
{
    if items.len() == 0 {
        Seq::empty()
    } else {
        (match items[0] {
            Ok(m) => seq![m],
            Err(_) => Seq::empty(),
        }) + oks_of(items.skip(1))
    }
}

/// The failures among the scan's items, in order.
pub open spec fn errs_of(items: Seq<Result<SpecMeta, nat>>) -> Seq<nat>
    decreases items.len(),
{
    if items.len() == 0 {
        Seq::empty()
    } else {
        (match items[0] {
            Ok(_) => Seq::empty(),
            Err(p) => seq![p],
        }) + errs_of(items.skip(1))
    }
}

/// What interpreting one line does to the session: the action and
/// disposition, and the store afterwards; or the first failure, at scan,
/// parse or evaluation, with the store untouched. A scan with any failed
/// item fails as a whole, though every failure is surfaced.
pub open spec fn spec_interpret(
    line: Seq<u8>,
    home: Option<Seq<u8>>,
    m: Map<Seq<u8>, Seq<u8>>,
) -> Result<(SpecAction, Output, Map<Seq<u8>, Seq<u8>>), SpecLineError> {
    let items = spec_scan(line, 0);
    let errs = errs_of(items);
    if errs.len() > 0 {
        Err(SpecLineError::Scan(errs))
    } else {
        match spec_parse(oks_of(items)) {
            Err(pe) => Err(SpecLineError::Parse(pe)),
            Ok(es) => match spec_eval(es, home, m) {
                Ok(x) => Ok(x),
                Err(ee) => Err(SpecLineError::Eval(ee)),
            },
        }
    }
}

/// Splits the scan's items into the recognized tokens and the failures,
/// both in source order.
pub fn collect_scan(results: Vec<Result<MetaToken, ScanError>>) -> (r: (Vec<MetaToken>, Vec<
    ScanError,
>))
    ensures
        metas_view(r.0@) == oks_of(items_view(results@)),
        errs_view(r.1@) == errs_of(items_view(results@)),
{
    let ghost whole = items_view(results@);
    let mut toks: Vec<MetaToken> = Vec::new();
    let mut errs: Vec<ScanError> = Vec::new();
    let mut rest = results;
    proof {
        assert(items_view(rest@) =~= whole);
        assert(metas_view(toks@) =~= Seq::<SpecMeta>::empty());
        assert(errs_view(errs@) =~= Seq::<nat>::empty());
        assert(Seq::<SpecMeta>::empty() + oks_of(whole) =~= oks_of(whole));
        assert(Seq::<nat>::empty() + errs_of(whole) =~= errs_of(whole));
    }
    while rest.len() > 0
        invariant
            oks_of(whole) == metas_view(toks@) + oks_of(items_view(rest@)),
            errs_of(whole) == errs_view(errs@) + errs_of(items_view(rest@)),
        decreases rest@.len(),
    {
        let ghost rv = items_view(rest@);
        let it = rest.remove(0);
        proof {
            assert(rv[0] == item_view(it));
            assert(items_view(rest@) =~= rv.skip(1));
        }
        match it {
            Ok(m) => {
                let ghost t0 = metas_view(toks@);
                toks.push(m);
                proof {
                    assert(metas_view(toks@) =~= t0.push(rv[0]->Ok_0));
                    assert(t0 + (seq![rv[0]->Ok_0] + oks_of(rv.skip(1))) =~= t0.push(rv[0]->Ok_0)
                        + oks_of(rv.skip(1)));
                }
            },
            Err(e) => {
                let ghost e0 = errs_view(errs@);
                errs.push(e);
                proof {
                    assert(errs_view(errs@) =~= e0.push(rv[0]->Err_0));
                    assert(e0 + (seq![rv[0]->Err_0] + errs_of(rv.skip(1))) =~= e0.push(
                        rv[0]->Err_0,
                    ) + errs_of(rv.skip(1)));
                }
            },
        }
    }
    proof {
        assert(items_view(rest@) =~= Seq::<Result<SpecMeta, nat>>::empty());
        assert(metas_view(toks@) + Seq::<SpecMeta>::empty() =~= metas_view(toks@));
        assert(errs_view(errs@) + Seq::<nat>::empty() =~= errs_view(errs@));
    }
    (toks, errs)
}

proof fn lemma_groups_cmds_some(gs: Seq<Seq<SpecMeta>>)
    ensures
        (match crate::parse::spec_parse_groups(gs) {
            Ok(es) => forall|i: int| 0 <= i < es.len() ==> (#[trigger] es[i].cmd) is Some,
            Err(_) => true,
        }),
    decreases gs.len(),
{
    if gs.len() > 0 {
        lemma_groups_cmds_some(gs.skip(1));
        if let Ok(e) = crate::parse::spec_group(gs[0]) {
            if let Ok(rest) = crate::parse::spec_parse_groups(gs.skip(1)) {
                let es = seq![e] + rest;
                assert(e.cmd is Some);
                assert(forall|i: int| 0 <= i < es.len() ==> (#[trigger] es[i].cmd) is Some) by {
                    assert(es[0] == e);
                    assert(forall|i: int| 1 <= i < es.len() ==> es[i] == rest[i - 1]);
                }
            }
        }
    }
}

/// Every stage a successful parse yields has a command text.
pub proof fn lemma_parse_cmds_some(ts: Seq<SpecMeta>, es: Seq<SpecExpr>)
    requires
        spec_parse(ts) == Ok::<Seq<SpecExpr>, ParseError>(es),
    ensures
        forall|i: int| 0 <= i < es.len() ==> (#[trigger] es[i].cmd) is Some,
{
    lemma_groups_cmds_some(crate::parse::spec_groups(crate::parse::spec_squash(ts)));
}

/// Interprets one line against the session state: scan, then parse, then
/// evaluate. The returned action is what the session loop still has to
/// perform; any failure leaves the variable store untouched.
pub fn interpret_line(line: &[u8], vars: &mut Vars, home: Option<Vec<u8>>) -> (r: Result<
    (Action, Output),
    LineError,
>)
    requires
        old(vars).wf(),
    ensures
        final(vars).wf(),
        (match spec_interpret(line@, opt_bytes_view(home), old(vars)@) {
            Ok((a, o, m2)) => r matches Ok(p) && p.0@ == a && p.1 == o && final(vars)@ == m2,
            Err(e) => r matches Err(le) && le@ == e && final(vars)@ == old(vars)@,
        }),
{
    let ghost items = spec_scan(line@, 0);
    let mut results: Vec<Result<MetaToken, ScanError>> = Vec::new();
    crate::scan::scan(line, &mut results);
    proof {
        assert(items_view(results@) =~= Seq::<Result<SpecMeta, nat>>::empty() + items);
        assert(Seq::<Result<SpecMeta, nat>>::empty() + items =~= items);
    }
    let (toks, errs) = collect_scan(results);
    if errs.len() > 0 {
        proof {
            assert(errs_of(items).len() > 0);
        }
        return Err(LineError::Scan(errs));
    }
    proof {
        assert(errs_of(items).len() == 0);
    }
    let exprs = match crate::parse::parse(toks) {
        Ok(es) => es,
        Err(pe) => {
            return Err(LineError::Parse(pe));
        },
    };
    proof {
        lemma_parse_cmds_some(oks_of(items), exprs_view(exprs@));
        assert forall|i: int| 0 <= i < exprs@.len() implies (#[trigger] exprs@[i]@.cmd) is Some by {
            assert(exprs_view(exprs@)[i] == exprs@[i]@);
            assert(exprs_view(exprs@)[i].cmd is Some);
        }
    }
    match crate::eval::eval(exprs, vars, home) {
        Ok(p) => Ok(p),
        Err(ee) => Err(LineError::Eval(ee)),
    }
}

/// A user record: an optional stable id, and a name.
#[derive(Debug, Clone)]
pub struct User {
    pub id: Option<String>,
    pub username: String,
}

} // verus!
