//! The properties the components promise together, stated and proved over
//! the same spec functions their contracts use: how quoted literals scan,
//! that a dangling redirection operator never goes unnoticed, and that a
//! serialized pipeline stage reads back as the stage it came from.
use crate::eval::{kind_grouped, of_kind, op_lit, ser_redirs, spec_serialize};
use crate::parse::{
    redir_kind, spec_group, spec_groups, spec_parse, spec_parse_groups, spec_redirs, spec_squash,
    spec_squash_acc, ParseError, Redir, SpecExpr,
};
use crate::cli::find_blank;
use crate::scan::{
    find_close, find_delim, is_blank, is_word_delim, spec_scan, SpecMeta, SpecToken, BS,
};
use crate::session::{errs_of, oks_of};
use vstd::multiset::Multiset;
use vstd::prelude::*;

verus! {

/// Where the closing quote of a literal opened by `q` lies: the first
/// position holding `q` that a backslash does not shield, or nowhere.
pub proof fn lemma_find_close_characterization(s: Seq<u8>, q: u8, from: int)
    requires
        1 <= from,
    ensures
        (match find_close(s, q, from) {
            Some(j) => from <= j < s.len() && s[j] == q && s[j - 1] != BS && (forall|k: int|
                from <= k < j ==> !((#[trigger] s[k]) == q && s[k - 1] != BS)),
            None => forall|k: int| from <= k < s.len() ==> !((#[trigger] s[k]) == q && s[k - 1]
                != BS),
        }),
    decreases s.len() - from,
{
    if !(from < 1 || from >= s.len()) {
        if s[from] == q && s[from - 1] != BS {
        } else {
            lemma_find_close_characterization(s, q, from + 1);
        }
    }
}

/// How a quoted literal scans. When an unescaped closing quote exists, the
/// lexer yields exactly one token for it, spanning from the opening to the
/// closing quote inclusive, and scanning goes on after it; when none
/// exists, it yields the unterminated-string failure at the opening quote's
/// offset and nothing more from that position but the end marker.
pub proof fn lemma_scan_quoted(s: Seq<u8>, base: nat)
    requires
        s.len() > 0,
        s[0] == 39 || s[0] == 34,
    ensures
        (match find_close(s, s[0], 1) {
            Some(j) => spec_scan(s, base) == seq![
                Ok::<SpecMeta, nat>(SpecMeta { token: SpecToken::Word(s.take(j + 1)), pos: base }),
            ] + spec_scan(s.skip(j + 1), (base + j + 1) as nat),
            None => spec_scan(s, base) == seq![
                Err::<SpecMeta, nat>(base),
                Ok::<SpecMeta, nat>(
                    SpecMeta { token: SpecToken::Eos, pos: (base + s.len()) as nat },
                ),
            ],
        }),
{
}

/// A token in operator position.
pub open spec fn is_op(t: SpecToken) -> bool {
    t is Input || t is Output || t is Append
}

/// Where the dangling operator of such a shape stands: last, or just
/// before the end marker.
pub open spec fn dangling_at(rest: Seq<SpecMeta>) -> int {
    if rest.len() % 2 == 1 {
        rest.len() - 1
    } else {
        rest.len() - 2
    }
}

/// `rest` holds complete operator/filename pairs, then one dangling
/// operator — last of all for a stage that a pipe cuts off, or followed by
/// the end marker in the final stage.
pub open spec fn dangling_shape(rest: Seq<SpecMeta>) -> bool {
    let d = dangling_at(rest);
    &&& rest.len() >= 1
    &&& (forall|i: int| 0 <= i < dangling_at(rest) && i % 2 == 0 ==> is_op(
        #[trigger] rest[i].token,
    ))
    &&& (forall|i: int|
        0 <= i < dangling_at(rest) && i % 2 == 1 ==> (#[trigger] rest[i].token) is Word)
    &&& is_op(rest[d].token)
    &&& (rest.len() % 2 == 0 ==> rest[rest.len() - 1].token is Eos)
}

/// A dangling redirection operator is never dropped: tokens after the
/// command word that end in an operator — alone, or with only the end
/// marker behind it — always fail with the missing-filename error.
pub proof fn lemma_dangling_operator(rest: Seq<SpecMeta>)
    requires
        dangling_shape(rest),
    ensures
        spec_redirs(rest) == Err::<Seq<(Redir, Seq<u8>)>, ParseError>(ParseError::MissingFilename),
    decreases rest.len(),
{
    if rest.len() == 1 {
        assert(is_op(rest[0].token));
    } else if rest.len() == 2 {
        assert(is_op(rest[0].token));
        assert(rest[1].token is Eos);
    } else {
        assert(is_op(rest[0].token));
        assert(rest[1].token is Word);
        let tail = rest.skip(2);
        assert(tail.len() == rest.len() - 2);
        assert(forall|i: int| 0 <= i < tail.len() ==> #[trigger] tail[i] == rest[i + 2]);
        assert(dangling_shape(tail)) by {
            assert(dangling_at(tail) == dangling_at(rest) - 2);
            assert(forall|i: int|
                0 <= i < dangling_at(tail) && i % 2 == 0 ==> is_op(#[trigger] tail[i].token)) by {
                assert(forall|i: int|
                    0 <= i < dangling_at(tail) && i % 2 == 0 ==> tail[i] == rest[i + 2] && (i + 2)
                        % 2 == 0);
            }
            assert(forall|i: int|
                0 <= i < dangling_at(tail) && i % 2 == 1 ==> (#[trigger] tail[i].token) is Word)
                by {
                assert(forall|i: int|
                    0 <= i < dangling_at(tail) && i % 2 == 1 ==> tail[i] == rest[i + 2] && (i + 2)
                        % 2 == 1);
            }
            assert(tail[dangling_at(tail)] == rest[dangling_at(rest)]);
            if rest.len() % 2 == 0 {
                assert(tail[tail.len() - 1] == rest[rest.len() - 1]);
            }
        }
        lemma_dangling_operator(tail);
    }
}

/// No pipe token up from `from` means no split point.
pub proof fn lemma_find_pipe_none(ts: Seq<SpecMeta>, from: int)
    requires
        forall|i: int| from <= i < ts.len() ==> !((#[trigger] ts[i].token) is Pipe),
    ensures
        crate::parse::find_pipe(ts, from) is None,
    decreases ts.len() - from,
{
    if !(from < 0 || from >= ts.len()) {
        lemma_find_pipe_none(ts, from + 1);
    }
}

/// Tokens with no two adjacent word tokens pass through squashing
/// unchanged.
pub proof fn lemma_squash_id(ts: Seq<SpecMeta>)
    requires
        forall|i: int|
            0 <= i < ts.len() - 1 ==> !((#[trigger] ts[i].token) is Word
                && ts[i + 1].token is Word),
    ensures
        spec_squash(ts) == ts,
    decreases ts.len(),
{
    if ts.len() == 0 {
        assert(spec_squash(ts) =~= ts);
    } else {
        match ts[0].token {
            SpecToken::Word(w) => {
                let rest = ts.skip(1);
                assert(forall|i: int| 0 <= i < rest.len() ==> #[trigger] rest[i] == ts[i + 1]);
                if rest.len() == 0 {
                    assert(spec_squash_acc(rest, w, ts[0].pos) == seq![
                        SpecMeta { token: SpecToken::Word(w), pos: ts[0].pos },
                    ]);
                    assert(SpecMeta { token: SpecToken::Word(w), pos: ts[0].pos } == ts[0]);
                    assert(spec_squash(ts) =~= ts);
                } else {
                    assert(rest[0] == ts[1]);
                    assert(!(ts[1].token is Word));
                    let tail = rest.skip(1);
                    assert(forall|i: int|
                        0 <= i < tail.len() - 1 ==> !((#[trigger] tail[i].token) is Word && tail[i
                            + 1].token is Word)) by {
                        assert(forall|i: int|
                            0 <= i < tail.len() ==> #[trigger] tail[i] == ts[i + 2]);
                    }
                    lemma_squash_id(tail);
                    assert(spec_squash_acc(rest, w, ts[0].pos) == seq![
                        SpecMeta { token: SpecToken::Word(w), pos: ts[0].pos },
                    ] + (seq![rest[0]] + spec_squash(tail)));
                    assert(SpecMeta { token: SpecToken::Word(w), pos: ts[0].pos } == ts[0]);
                    assert(seq![ts[0]] + (seq![ts[1]] + tail) =~= ts);
                }
            },
            _ => {
                let rest = ts.skip(1);
                assert(forall|i: int|
                    0 <= i < rest.len() - 1 ==> !((#[trigger] rest[i].token) is Word && rest[i
                        + 1].token is Word)) by {
                    assert(forall|i: int| 0 <= i < rest.len() ==> #[trigger] rest[i] == ts[i + 1]);
                }
                lemma_squash_id(rest);
                assert(seq![ts[0]] + rest =~= ts);
            },
        }
    }
}

/// The trailing-operator law at the parser's door: a stage of a command
/// word, complete redirection pairs and a dangling operator — cut off by the
/// line's end marker or standing last where a pipe cut the stage — fails
/// with the missing-filename error; the operator is never silently dropped.
pub proof fn lemma_trailing_operator_parse(ts: Seq<SpecMeta>)
    requires
        ts.len() >= 2,
        ts[0].token is Word,
        forall|i: int|
            0 <= i < ts.len() - 1 ==> !((#[trigger] ts[i].token) is Word
                && ts[i + 1].token is Word),
        forall|i: int| 0 <= i < ts.len() ==> !((#[trigger] ts[i].token) is Pipe),
        dangling_shape(ts.skip(1)),
    ensures
        spec_parse(ts) == Err::<Seq<SpecExpr>, ParseError>(ParseError::MissingFilename),
{
    lemma_squash_id(ts);
    lemma_find_pipe_none(ts, 0);
    assert(spec_groups(ts) == seq![ts]);
    lemma_dangling_operator(ts.skip(1));
    assert(spec_group(ts) == Err::<SpecExpr, ParseError>(ParseError::MissingFilename));
    assert(seq![ts][0] == ts);
    assert(spec_parse_groups(seq![ts]) == Err::<Seq<SpecExpr>, ParseError>(
        ParseError::MissingFilename,
    ));
}

/// A byte that may stand in a word the serializer emits: no delimiter, no
/// tab, no backslash.
pub open spec fn plain_byte(b: u8) -> bool {
    !is_word_delim(b) && b != 9 && b != 92
}

/// A word of plain bytes, as a filename handed to the serializer must be.
pub open spec fn plain_word(w: Seq<u8>) -> bool {
    w.len() > 0 && forall|i: int| 0 <= i < w.len() ==> plain_byte(#[trigger] w[i])
}

/// A command text of plain words joined by single spaces: nonempty, no
/// space at either end, no two adjacent spaces, every other byte plain.
pub open spec fn plain_text(c: Seq<u8>) -> bool {
    &&& c.len() > 0
    &&& c[0] != 32
    &&& c[c.len() - 1] != 32
    &&& (forall|i: int| 0 <= i < c.len() ==> ((#[trigger] c[i]) == 32 || plain_byte(c[i])))
    &&& (forall|i: int| 0 <= i < c.len() - 1 ==> !((#[trigger] c[i]) == 32 && c[i + 1] == 32))
}

proof fn lemma_find_delim_is(s: Seq<u8>, from: int, m: int)
    requires
        1 <= from <= m < s.len(),
        forall|k: int|
            from <= k < m ==> !(is_word_delim(#[trigger] s[k]) && s[k - 1] != BS),
        is_word_delim(s[m]) && s[m - 1] != BS,
    ensures
        find_delim(s, from) == Some(m),
    decreases m - from,
{
    if from < m {
        lemma_find_delim_is(s, from + 1, m);
    }
}

proof fn lemma_find_delim_no(s: Seq<u8>, from: int)
    requires
        1 <= from,
        forall|k: int|
            from <= k < s.len() ==> !(is_word_delim(#[trigger] s[k]) && s[k - 1] != BS),
    ensures
        find_delim(s, from) is None,
    decreases s.len() - from,
{
    if from < s.len() {
        lemma_find_delim_no(s, from + 1);
    }
}

/// How one plain word scans when a delimiter, or the end of the line,
/// follows it: one word token, then the rest.
pub proof fn lemma_scan_word(w: Seq<u8>, rest: Seq<u8>, b: nat)
    requires
        plain_word(w),
        rest.len() == 0 || is_word_delim(rest[0]),
    ensures
        spec_scan(w + rest, b) == seq![
            Ok::<SpecMeta, nat>(SpecMeta { token: SpecToken::Word(w), pos: b }),
        ] + (if rest.len() == 0 {
            seq![
                Ok::<SpecMeta, nat>(
                    SpecMeta { token: SpecToken::Eos, pos: (b + w.len()) as nat },
                ),
            ]
        } else {
            spec_scan(rest, (b + w.len()) as nat)
        }),
{
    let s = w + rest;
    assert(s[0] == w[0]);
    assert(plain_byte(w[0]));
    assert(!is_blank(s[0]) && s[0] != 124 && s[0] != 60 && s[0] != 62 && s[0] != 39 && s[0]
        != 34);
    assert(forall|k: int| 1 <= k < w.len() ==> #[trigger] s[k] == w[k]);
    assert(forall|k: int|
        1 <= k < w.len() ==> !(is_word_delim(#[trigger] s[k]) && s[k - 1] != BS));
    if rest.len() == 0 {
        assert(s =~= w);
        lemma_find_delim_no(s, 1);
        assert(spec_scan(s, b) == seq![
            Ok::<SpecMeta, nat>(SpecMeta { token: SpecToken::Word(s), pos: b }),
            Ok::<SpecMeta, nat>(SpecMeta { token: SpecToken::Eos, pos: (b + s.len()) as nat }),
        ]);
        assert(seq![
            Ok::<SpecMeta, nat>(SpecMeta { token: SpecToken::Word(w), pos: b }),
        ] + seq![
            Ok::<SpecMeta, nat>(SpecMeta { token: SpecToken::Eos, pos: (b + w.len()) as nat }),
        ] =~= seq![
            Ok::<SpecMeta, nat>(SpecMeta { token: SpecToken::Word(s), pos: b }),
            Ok::<SpecMeta, nat>(SpecMeta { token: SpecToken::Eos, pos: (b + s.len()) as nat }),
        ]);
    } else {
        let m = w.len() as int;
        assert(s[m] == rest[0]);
        assert(s[m - 1] == w[w.len() - 1]);
        assert(s[m - 1] != BS);
        lemma_find_delim_is(s, 1, m);
        assert(s.take(m) =~= w);
        assert(s.skip(m) =~= rest);
    }
}

proof fn lemma_find_blank_char(s: Seq<u8>, from: int)
    requires
        1 <= from,
    ensures
        (match find_blank(s, from) {
            Some(j) => from <= j < s.len() && is_blank(s[j]) && (forall|k: int|
                from <= k < j ==> !is_blank(#[trigger] s[k])),
            None => forall|k: int| from <= k < s.len() ==> !is_blank(#[trigger] s[k]),
        }),
    decreases s.len() - from,
{
    if !(from < 1 || from >= s.len()) {
        if !is_blank(s[from]) {
            lemma_find_blank_char(s, from + 1);
        } else {
            lemma_find_blank_char(s, from + 1);
        }
    }
}

/// The space-split words of a plain command text, with the byte offset each
/// would scan at.
pub open spec fn word_metas(c: Seq<u8>, b: nat) -> Seq<SpecMeta>
    decreases c.len(),
    via word_metas_decreases
{
    if c.len() == 0 {
        Seq::empty()
    } else {
        match find_blank(c, 1) {
            None => seq![SpecMeta { token: SpecToken::Word(c), pos: b }],
            Some(j) => seq![SpecMeta { token: SpecToken::Word(c.take(j)), pos: b }] + word_metas(
                c.skip(j + 1),
                (b + j + 1) as nat,
            ),
        }
    }
}

#[via_fn]
proof fn word_metas_decreases(c: Seq<u8>, b: nat) {
    if c.len() > 0 {
        if let Some(j) = find_blank(c, 1) {
            crate::cli::lemma_find_blank_bounds(c, 1, j);
        }
    }
}

/// Scan items that are all tokens, no failures.
pub open spec fn as_items(ms: Seq<SpecMeta>) -> Seq<Result<SpecMeta, nat>> {
    ms.map_values(|m: SpecMeta| Ok::<SpecMeta, nat>(m))
}

proof fn lemma_as_items_clean(ms: Seq<SpecMeta>)
    ensures
        errs_of(as_items(ms)) == Seq::<nat>::empty(),
        oks_of(as_items(ms)) == ms,
    decreases ms.len(),
{
    if ms.len() == 0 {
        assert(as_items(ms) =~= Seq::<Result<SpecMeta, nat>>::empty());
        assert(oks_of(as_items(ms)) =~= ms);
    } else {
        assert(as_items(ms).skip(1) =~= as_items(ms.skip(1)));
        lemma_as_items_clean(ms.skip(1));
        assert(as_items(ms)[0] == Ok::<SpecMeta, nat>(ms[0]));
        assert(errs_of(as_items(ms)) =~= Seq::<nat>::empty());
        assert(oks_of(as_items(ms)) =~= seq![ms[0]] + ms.skip(1));
        assert(seq![ms[0]] + ms.skip(1) =~= ms);
    }
}

/// How a plain command text scans when a space, or nothing, follows it: one
/// word token per space-split word, then the rest.
pub proof fn lemma_scan_cmd(c: Seq<u8>, rest: Seq<u8>, b: nat)
    requires
        plain_text(c),
        rest.len() == 0 || rest[0] == 32,
    ensures
        spec_scan(c + rest, b) == as_items(word_metas(c, b)) + (if rest.len() == 0 {
            seq![
                Ok::<SpecMeta, nat>(
                    SpecMeta { token: SpecToken::Eos, pos: (b + c.len()) as nat },
                ),
            ]
        } else {
            spec_scan(rest, (b + c.len()) as nat)
        }),
    decreases c.len(),
{
    lemma_find_blank_char(c, 1);
    match find_blank(c, 1) {
        None => {
            assert(plain_word(c)) by {
                assert(forall|i: int| 1 <= i < c.len() ==> !is_blank(#[trigger] c[i]));
                assert(forall|i: int| 0 <= i < c.len() ==> plain_byte(#[trigger] c[i])) by {
                    assert(forall|i: int|
                        0 <= i < c.len() ==> ((#[trigger] c[i]) == 32 || plain_byte(c[i])));
                    assert(!is_blank(c[0]) || c[0] != 32);
                    assert(forall|i: int| 0 <= i < c.len() ==> c[i] != 32);
                }
            }
            lemma_scan_word(c, rest, b);
            assert(word_metas(c, b) == seq![SpecMeta { token: SpecToken::Word(c), pos: b }]);
            assert(as_items(word_metas(c, b)) =~= seq![
                Ok::<SpecMeta, nat>(SpecMeta { token: SpecToken::Word(c), pos: b }),
            ]);
        },
        Some(j) => {
            let w = c.take(j);
            let cp = c.skip(j + 1);
            assert(is_blank(c[j]));
            assert(c[j] == 32 || plain_byte(c[j]));
            assert(c[j] == 32);
            assert(j < c.len() - 1) by {
                assert(c[c.len() - 1] != 32);
            }
            assert(cp.len() == c.len() - j - 1);
            assert(forall|i: int| 0 <= i < cp.len() ==> #[trigger] cp[i] == c[i + j + 1]);
            assert(plain_word(w)) by {
                assert(forall|i: int| 0 <= i < j ==> #[trigger] w[i] == c[i]);
                assert(forall|i: int| 1 <= i < j ==> !is_blank(#[trigger] c[i]));
                assert(c[0] != 32);
                assert(forall|i: int| 0 <= i < j ==> c[i] != 32);
                assert(forall|i: int| 0 <= i < j ==> plain_byte(#[trigger] w[i]));
            }
            assert(plain_text(cp)) by {
                assert(cp[0] == c[j + 1]);
                assert(!(c[j] == 32 && c[j + 1] == 32));
                assert(cp[cp.len() - 1] == c[c.len() - 1]);
                assert(forall|i: int|
                    0 <= i < cp.len() ==> ((#[trigger] cp[i]) == 32 || plain_byte(cp[i])));
                assert(forall|i: int|
                    0 <= i < cp.len() - 1 ==> !((#[trigger] cp[i]) == 32 && cp[i + 1] == 32)) by {
                    assert(forall|i: int|
                        0 <= i < cp.len() - 1 ==> cp[i] == c[i + j + 1] && #[trigger] cp[i + 1]
                            == c[i + j + 2]);
                }
            }
            let rest1 = c.skip(j) + rest;
            assert(c + rest =~= w + rest1);
            assert(rest1[0] == c[j]);
            assert(is_word_delim(rest1[0]));
            lemma_scan_word(w, rest1, b);
            assert(rest1.len() > 0);
            assert(spec_scan(w + rest1, b) == seq![
                Ok::<SpecMeta, nat>(SpecMeta { token: SpecToken::Word(w), pos: b }),
            ] + spec_scan(rest1, (b + j) as nat));
            assert(is_blank(rest1[0]));
            assert(rest1.skip(1) =~= cp + rest);
            assert(spec_scan(rest1, (b + j) as nat) == spec_scan(cp + rest, (b + j + 1) as nat));
            lemma_scan_cmd(cp, rest, (b + j + 1) as nat);
            let tailpart = if rest.len() == 0 {
                seq![
                    Ok::<SpecMeta, nat>(
                        SpecMeta { token: SpecToken::Eos, pos: (b + c.len()) as nat },
                    ),
                ]
            } else {
                spec_scan(rest, (b + c.len()) as nat)
            };
            assert((b + j + 1) + cp.len() == b + c.len());
            assert(word_metas(c, b) == seq![SpecMeta { token: SpecToken::Word(w), pos: b }]
                + word_metas(cp, (b + j + 1) as nat));
            assert(as_items(word_metas(c, b)) =~= seq![
                Ok::<SpecMeta, nat>(SpecMeta { token: SpecToken::Word(w), pos: b }),
            ] + as_items(word_metas(cp, (b + j + 1) as nat)));
            assert(seq![
                Ok::<SpecMeta, nat>(SpecMeta { token: SpecToken::Word(w), pos: b }),
            ] + (as_items(word_metas(cp, (b + j + 1) as nat)) + tailpart) =~= (seq![
                Ok::<SpecMeta, nat>(SpecMeta { token: SpecToken::Word(w), pos: b }),
            ] + as_items(word_metas(cp, (b + j + 1) as nat))) + tailpart);
        },
    }
}

/// The token an operator serializes to.
pub open spec fn op_token(k: Redir) -> SpecToken {
    match k {
        Redir::Input => SpecToken::Input,
        Redir::Output => SpecToken::Output,
        Redir::Append => SpecToken::Append,
    }
}

/// The tokens a serialized redirection suffix scans to: an operator token
/// and a filename word per pair, at the offsets they scan at.
pub open spec fn redir_metas(rs: Seq<(Redir, Seq<u8>)>, b: nat) -> Seq<SpecMeta>
    decreases rs.len(),
{
    if rs.len() == 0 {
        Seq::empty()
    } else {
        let opl = op_lit(rs[0].0).len();
        seq![
            SpecMeta { token: op_token(rs[0].0), pos: (b + 1) as nat },
            SpecMeta { token: SpecToken::Word(rs[0].1), pos: (b + 2 + opl) as nat },
        ] + redir_metas(rs.skip(1), (b + 2 + opl + rs[0].1.len()) as nat)
    }
}

/// How a serialized redirection suffix scans: the pairs' tokens, then the
/// end marker.
#[verifier::rlimit(60)]
pub proof fn lemma_scan_redirs(rs: Seq<(Redir, Seq<u8>)>, b: nat)
    requires
        forall|i: int| 0 <= i < rs.len() ==> plain_word((#[trigger] rs[i]).1),
    ensures
        spec_scan(ser_redirs(rs), b) == as_items(redir_metas(rs, b)) + seq![
            Ok::<SpecMeta, nat>(
                SpecMeta { token: SpecToken::Eos, pos: (b + ser_redirs(rs).len()) as nat },
            ),
        ],
    decreases rs.len(),
{
    if rs.len() == 0 {
        assert(ser_redirs(rs) == Seq::<u8>::empty());
        assert(as_items(redir_metas(rs, b)) =~= Seq::<Result<SpecMeta, nat>>::empty());
        assert(Seq::<Result<SpecMeta, nat>>::empty() + seq![
            Ok::<SpecMeta, nat>(SpecMeta { token: SpecToken::Eos, pos: b }),
        ] =~= seq![Ok::<SpecMeta, nat>(SpecMeta { token: SpecToken::Eos, pos: b })]);
    } else {
        let k = rs[0].0;
        let f = rs[0].1;
        let op = op_lit(k);
        let opl = op.len();
        let serp = ser_redirs(rs.skip(1));
        let s = ser_redirs(rs);
        assert(s == seq![32u8] + op + seq![32u8] + f + serp);
        assert(s.len() == 2 + opl + f.len() + serp.len());
        assert(s[0] == 32);
        assert(spec_scan(s, b) == spec_scan(s.skip(1), (b + 1) as nat));
        let s1 = s.skip(1);
        assert(s1 =~= op + (seq![32u8] + f + serp));
        let s2 = s.skip(1 + opl as int);
        assert(s2 =~= seq![32u8] + f + serp);
        assert(s2[0] == 32);
        match k {
            Redir::Input => {
                assert(s1[0] == 60);
                assert(s1.skip(1) =~= s2);
                assert(spec_scan(s1, (b + 1) as nat) == seq![
                    Ok::<SpecMeta, nat>(SpecMeta { token: SpecToken::Input, pos: (b + 1) as nat }),
                ] + spec_scan(s2, (b + 2) as nat));
            },
            Redir::Output => {
                assert(s1[0] == 62);
                assert(s1[1] == 32);
                assert(!(s1.len() >= 2 && s1[1] == 62));
                assert(s1.skip(1) =~= s2);
                assert(spec_scan(s1, (b + 1) as nat) == seq![
                    Ok::<SpecMeta, nat>(
                        SpecMeta { token: SpecToken::Output, pos: (b + 1) as nat },
                    ),
                ] + spec_scan(s2, (b + 2) as nat));
            },
            Redir::Append => {
                assert(s1[0] == 62);
                assert(s1[1] == 62);
                assert(s1.skip(2) =~= s2);
                assert(spec_scan(s1, (b + 1) as nat) == seq![
                    Ok::<SpecMeta, nat>(
                        SpecMeta { token: SpecToken::Append, pos: (b + 1) as nat },
                    ),
                ] + spec_scan(s2, (b + 3) as nat));
            },
        }
        let bw = (b + 2 + opl) as nat;
        assert(spec_scan(s2, (bw - 1) as nat) == spec_scan(s2.skip(1), bw));
        assert(s2.skip(1) =~= f + serp);
        assert(serp.len() == 0 || is_word_delim(serp[0])) by {
            if rs.skip(1).len() > 0 {
                assert(serp[0] == 32);
            }
        }
        lemma_scan_word(f, serp, bw);
        lemma_scan_redirs(rs.skip(1), (bw + f.len()) as nat);
        if rs.skip(1).len() == 0 {
            assert(serp.len() == 0);
            assert(spec_scan(f + serp, bw) == seq![
                Ok::<SpecMeta, nat>(SpecMeta { token: SpecToken::Word(f), pos: bw }),
            ] + seq![
                Ok::<SpecMeta, nat>(
                    SpecMeta { token: SpecToken::Eos, pos: (bw + f.len()) as nat },
                ),
            ]);
            assert(spec_scan(serp, (bw + f.len()) as nat) == seq![
                Ok::<SpecMeta, nat>(
                    SpecMeta { token: SpecToken::Eos, pos: (bw + f.len()) as nat },
                ),
            ]) by {
                assert(serp =~= Seq::<u8>::empty());
            }
        } else {
            assert(spec_scan(f + serp, bw) == seq![
                Ok::<SpecMeta, nat>(SpecMeta { token: SpecToken::Word(f), pos: bw }),
            ] + spec_scan(serp, (bw + f.len()) as nat));
        }
        let head = seq![
            Ok::<SpecMeta, nat>(SpecMeta { token: op_token(k), pos: (b + 1) as nat }),
            Ok::<SpecMeta, nat>(SpecMeta { token: SpecToken::Word(f), pos: bw }),
        ];
        let mid = as_items(redir_metas(rs.skip(1), (bw + f.len()) as nat));
        let eos = seq![
            Ok::<SpecMeta, nat>(
                SpecMeta { token: SpecToken::Eos, pos: (b + s.len()) as nat },
            ),
        ];
        assert((bw + f.len()) + serp.len() == b + s.len());
        assert(spec_scan(s, b) =~= head + (mid + eos));
        assert(redir_metas(rs, b) == seq![
            SpecMeta { token: op_token(k), pos: (b + 1) as nat },
            SpecMeta { token: SpecToken::Word(f), pos: bw },
        ] + redir_metas(rs.skip(1), (bw + f.len()) as nat));
        assert(as_items(redir_metas(rs, b)) =~= head + mid);
        assert(head + (mid + eos) =~= (head + mid) + eos);
    }
}

proof fn lemma_redir_metas_shape(rs: Seq<(Redir, Seq<u8>)>, b: nat)
    ensures
        redir_metas(rs, b).len() == 2 * rs.len(),
        forall|i: int|
            0 <= i < 2 * rs.len() && i % 2 == 0 ==> is_op(
                (#[trigger] redir_metas(rs, b)[i]).token,
            ),
        forall|i: int|
            0 <= i < 2 * rs.len() && i % 2 == 1 ==> (#[trigger] redir_metas(rs, b)[i]).token
                is Word,
    decreases rs.len(),
{
    if rs.len() > 0 {
        let b2 = (b + 2 + op_lit(rs[0].0).len() + rs[0].1.len()) as nat;
        lemma_redir_metas_shape(rs.skip(1), b2);
        let ms = redir_metas(rs, b);
        assert(is_op(op_token(rs[0].0)));
        assert forall|i: int| 0 <= i < 2 * rs.len() && i % 2 == 0 implies is_op(
            (#[trigger] ms[i]).token,
        ) by {
            if i >= 2 {
                assert(ms[i] == redir_metas(rs.skip(1), b2)[i - 2]);
                assert((i - 2) % 2 == 0);
            }
        }
        assert forall|i: int| 0 <= i < 2 * rs.len() && i % 2 == 1 implies (
        #[trigger] ms[i]).token is Word by {
            if i >= 2 {
                assert(ms[i] == redir_metas(rs.skip(1), b2)[i - 2]);
                assert((i - 2) % 2 == 1);
            }
        }
    }
}

/// Squashing a word run: the accumulated text, a space, and the plain
/// command text's words join into one word token; what follows the run is
/// squashed on its own.
proof fn lemma_squash_acc_words(c: Seq<u8>, b: nat, acc: Seq<u8>, pos: nat, tail: Seq<SpecMeta>)
    requires
        plain_text(c),
        tail.len() == 0 || !(tail[0].token is Word),
    ensures
        spec_squash_acc(word_metas(c, b) + tail, acc, pos) == seq![
            SpecMeta { token: SpecToken::Word(acc + seq![32u8] + c), pos },
        ] + spec_squash(tail),
    decreases c.len(),
{
    lemma_find_blank_char(c, 1);
    match find_blank(c, 1) {
        None => {
            let ts = word_metas(c, b) + tail;
            assert(ts[0] == SpecMeta { token: SpecToken::Word(c), pos: b });
            assert(ts.skip(1) =~= tail);
            if tail.len() == 0 {
                assert(spec_squash_acc(ts, acc, pos) == spec_squash_acc(
                    tail,
                    acc + seq![32u8] + c,
                    pos,
                ));
                assert(spec_squash(tail) == Seq::<SpecMeta>::empty());
                assert(seq![
                    SpecMeta { token: SpecToken::Word(acc + seq![32u8] + c), pos },
                ] + Seq::<SpecMeta>::empty() =~= seq![
                    SpecMeta { token: SpecToken::Word(acc + seq![32u8] + c), pos },
                ]);
            } else {
                assert(spec_squash_acc(ts, acc, pos) == spec_squash_acc(
                    tail,
                    acc + seq![32u8] + c,
                    pos,
                ));
                assert(tail.skip(1) =~= tail.skip(1));
                assert(spec_squash_acc(tail, acc + seq![32u8] + c, pos) == seq![
                    SpecMeta { token: SpecToken::Word(acc + seq![32u8] + c), pos },
                ] + (seq![tail[0]] + spec_squash(tail.skip(1))));
                assert(spec_squash(tail) == seq![tail[0]] + spec_squash(tail.skip(1)));
            }
        },
        Some(j) => {
            let w = c.take(j);
            let cp = c.skip(j + 1);
            assert(c[j] == 32 || plain_byte(c[j]));
            assert(c[j] == 32);
            assert(j < c.len() - 1) by {
                assert(c[c.len() - 1] != 32);
            }
            assert(plain_text(cp)) by {
                assert(forall|i: int| 0 <= i < cp.len() ==> #[trigger] cp[i] == c[i + j + 1]);
                assert(cp[0] == c[j + 1]);
                assert(!(c[j] == 32 && c[j + 1] == 32));
                assert(cp[cp.len() - 1] == c[c.len() - 1]);
                assert(forall|i: int|
                    0 <= i < cp.len() - 1 ==> !((#[trigger] cp[i]) == 32 && cp[i + 1] == 32)) by {
                    assert(forall|i: int|
                        0 <= i < cp.len() - 1 ==> cp[i] == c[i + j + 1] && #[trigger] cp[i + 1]
                            == c[i + j + 2]);
                }
            }
            let bp = (b + j + 1) as nat;
            let ts = word_metas(c, b) + tail;
            assert(word_metas(c, b) == seq![SpecMeta { token: SpecToken::Word(w), pos: b }]
                + word_metas(cp, bp));
            assert(ts[0] == SpecMeta { token: SpecToken::Word(w), pos: b });
            assert(ts.skip(1) =~= word_metas(cp, bp) + tail);
            assert(spec_squash_acc(ts, acc, pos) == spec_squash_acc(
                word_metas(cp, bp) + tail,
                acc + seq![32u8] + w,
                pos,
            ));
            lemma_squash_acc_words(cp, bp, acc + seq![32u8] + w, pos, tail);
            assert(acc + seq![32u8] + w + seq![32u8] + cp =~= acc + seq![32u8] + c) by {
                assert(w + seq![32u8] + cp =~= c);
            }
        },
    }
}

/// The serialized redirection tokens followed by the end marker read back
/// as exactly the pairs they came from, in order; the end marker is the
/// harmless leftover of the pair-wise consumption.
proof fn lemma_redirs_read_back(rs: Seq<(Redir, Seq<u8>)>, b: nat, eos: SpecMeta)
    requires
        eos.token is Eos,
    ensures
        spec_redirs(redir_metas(rs, b) + seq![eos]) == Ok::<Seq<(Redir, Seq<u8>)>, ParseError>(
            rs,
        ),
    decreases rs.len(),
{
    let ts = redir_metas(rs, b) + seq![eos];
    if rs.len() == 0 {
        assert(ts.len() == 1);
        assert(rs =~= Seq::<(Redir, Seq<u8>)>::empty());
    } else {
        let k = rs[0].0;
        let f = rs[0].1;
        let b2 = (b + 2 + op_lit(k).len() + f.len()) as nat;
        assert(ts[0] == SpecMeta { token: op_token(k), pos: (b + 1) as nat });
        assert(ts[1] == SpecMeta {
            token: SpecToken::Word(f),
            pos: (b + 2 + op_lit(k).len()) as nat,
        });
        assert(ts.len() >= 2);
        assert(redir_kind(op_token(k)) == k);
        assert(ts.skip(2) =~= redir_metas(rs.skip(1), b2) + seq![eos]);
        lemma_redirs_read_back(rs.skip(1), b2, eos);
        assert(spec_redirs(ts) == Ok::<Seq<(Redir, Seq<u8>)>, ParseError>(
            seq![(k, f)] + rs.skip(1),
        ));
        assert(seq![(k, f)] + rs.skip(1) =~= rs);
    }
}


/// Grouping keeps every filename, so plain filenames stay plain.
proof fn lemma_of_kind_plain(rs: Seq<(Redir, Seq<u8>)>, k: Redir)
    requires
        forall|i: int| 0 <= i < rs.len() ==> plain_word((#[trigger] rs[i]).1),
    ensures
        forall|i: int| 0 <= i < of_kind(rs, k).len() ==> plain_word((#[trigger] of_kind(rs, k)[i]).1),
    decreases rs.len(),
{
    if rs.len() > 0 {
        let t = rs.skip(1);
        assert(forall|i: int| 0 <= i < t.len() ==> (#[trigger] t[i]) == rs[i + 1]);
        lemma_of_kind_plain(t, k);
        let g = of_kind(rs, k);
        assert forall|i: int| 0 <= i < g.len() implies plain_word((#[trigger] g[i]).1) by {
            if rs[0].0 == k {
                if i == 0 {
                    assert(g[0] == rs[0]);
                } else {
                    assert(g[i] == of_kind(t, k)[i - 1]);
                }
            } else {
                assert(g[i] == of_kind(t, k)[i]);
            }
        }
    }
}

proof fn lemma_grouped_plain(rs: Seq<(Redir, Seq<u8>)>)
    requires
        forall|i: int| 0 <= i < rs.len() ==> plain_word((#[trigger] rs[i]).1),
    ensures
        forall|i: int|
            0 <= i < kind_grouped(rs).len() ==> plain_word((#[trigger] kind_grouped(rs)[i]).1),
{
    lemma_of_kind_plain(rs, Redir::Input);
    lemma_of_kind_plain(rs, Redir::Output);
    lemma_of_kind_plain(rs, Redir::Append);
    let g = kind_grouped(rs);
    assert forall|i: int| 0 <= i < g.len() implies plain_word((#[trigger] g[i]).1) by {
        let a = of_kind(rs, Redir::Input);
        let b = of_kind(rs, Redir::Output);
        let c = of_kind(rs, Redir::Append);
        if i < a.len() {
            assert(g[i] == a[i]);
        } else if i < a.len() + b.len() {
            assert(g[i] == b[i - a.len()]);
        } else {
            assert(g[i] == c[i - a.len() - b.len()]);
        }
    }
}

proof fn lemma_grouped_nonempty(rs: Seq<(Redir, Seq<u8>)>)
    requires
        rs.len() > 0,
    ensures
        kind_grouped(rs).len() > 0,
{
    match rs[0].0 {
        Redir::Input => {
            assert(of_kind(rs, Redir::Input).len() > 0);
        },
        Redir::Output => {
            assert(of_kind(rs, Redir::Output).len() > 0);
        },
        Redir::Append => {
            assert(of_kind(rs, Redir::Append).len() > 0);
        },
    }
}

/// Grouping the redirections by kind keeps exactly the same multiset of
/// pairs.
pub proof fn lemma_grouped_multiset(rs: Seq<(Redir, Seq<u8>)>)
    ensures
        kind_grouped(rs).to_multiset() == rs.to_multiset(),
    decreases rs.len(),
{
    broadcast use vstd::seq_lib::group_to_multiset_ensures;

    let a = of_kind(rs, Redir::Input);
    let b = of_kind(rs, Redir::Output);
    let c = of_kind(rs, Redir::Append);
    vstd::seq_lib::lemma_multiset_commutative(a + b, c);
    vstd::seq_lib::lemma_multiset_commutative(a, b);
    if rs.len() == 0 {
        assert(a =~= Seq::<(Redir, Seq<u8>)>::empty());
        assert(b =~= Seq::<(Redir, Seq<u8>)>::empty());
        assert(c =~= Seq::<(Redir, Seq<u8>)>::empty());
        assert(kind_grouped(rs) =~= Seq::<(Redir, Seq<u8>)>::empty());
        assert(kind_grouped(rs).to_multiset() =~= rs.to_multiset());
    } else {
        let t = rs.skip(1);
        lemma_grouped_multiset(t);
        let ta = of_kind(t, Redir::Input);
        let tb = of_kind(t, Redir::Output);
        let tc = of_kind(t, Redir::Append);
        vstd::seq_lib::lemma_multiset_commutative(ta + tb, tc);
        vstd::seq_lib::lemma_multiset_commutative(ta, tb);
        assert(seq![rs[0]] + t =~= rs);
        vstd::seq_lib::lemma_multiset_commutative(seq![rs[0]], t);
        assert(seq![rs[0]] =~= Seq::<(Redir, Seq<u8>)>::empty().push(rs[0]));
        assert(seq![rs[0]].to_multiset() =~= Multiset::<(Redir, Seq<u8>)>::empty().insert(
            rs[0],
        )) by {
            assert(Seq::<(Redir, Seq<u8>)>::empty().to_multiset() =~= Multiset::<(
                Redir,
                Seq<u8>,
            )>::empty());
        }
        match rs[0].0 {
            Redir::Input => {
                assert(a == seq![rs[0]] + ta);
                assert(b == tb);
                assert(c == tc);
                vstd::seq_lib::lemma_multiset_commutative(seq![rs[0]], ta);
            },
            Redir::Output => {
                assert(a == ta);
                assert(b == seq![rs[0]] + tb);
                assert(c == tc);
                vstd::seq_lib::lemma_multiset_commutative(seq![rs[0]], tb);
            },
            Redir::Append => {
                assert(a == ta);
                assert(b == tb);
                assert(c == seq![rs[0]] + tc);
                vstd::seq_lib::lemma_multiset_commutative(seq![rs[0]], tc);
            },
        }
        assert(kind_grouped(rs).to_multiset() =~= rs.to_multiset());
    }
}

/// A stage's command text and redirection pairs rendered as one `exec`
/// respawn line, the pairs in the order given.
pub open spec fn rendered_line(cmd: Seq<u8>, rs: Seq<(Redir, Seq<u8>)>) -> Seq<u8> {
    crate::cli::lit_exec() + seq![32u8] + cmd + ser_redirs(rs)
}

/// How a whole rendered stage line scans: the `exec` word, the command's
/// words, the redirection pairs' tokens, the end marker — every item a
/// token, none a failure.
#[verifier::rlimit(60)]
proof fn lemma_scan_rendered(cmd: Seq<u8>, rs: Seq<(Redir, Seq<u8>)>)
    requires
        plain_text(cmd),
        forall|i: int| 0 <= i < rs.len() ==> plain_word((#[trigger] rs[i]).1),
    ensures
        spec_scan(rendered_line(cmd, rs), 0) == as_items(
            seq![SpecMeta { token: SpecToken::Word(crate::cli::lit_exec()), pos: 0 }]
                + word_metas(cmd, 5) + redir_metas(rs, (5 + cmd.len()) as nat) + seq![
                SpecMeta {
                    token: SpecToken::Eos,
                    pos: (5 + cmd.len() + ser_redirs(rs).len()) as nat,
                },
            ],
        ),
{
    let ex = crate::cli::lit_exec();
    let ser = ser_redirs(rs);
    let line = rendered_line(cmd, rs);
    assert(plain_word(ex)) by {
        assert(ex[0] == 101 && ex[1] == 120 && ex[2] == 101 && ex[3] == 99);
        assert(plain_byte(101) && plain_byte(120) && plain_byte(99));
        assert forall|i: int| 0 <= i < ex.len() implies plain_byte(#[trigger] ex[i]) by {
            if i == 0 || i == 2 {
                assert(ex[i] == 101);
            } else if i == 1 {
                assert(ex[i] == 120);
            } else {
                assert(ex[i] == 99);
            }
        }
    }
    let rest0 = seq![32u8] + cmd + ser;
    assert(line =~= ex + rest0);
    assert(rest0[0] == 32);
    assert(is_word_delim(rest0[0]));
    lemma_scan_word(ex, rest0, 0);
    assert(rest0.len() > 0);
    assert(spec_scan(line, 0) == seq![
        Ok::<SpecMeta, nat>(SpecMeta { token: SpecToken::Word(ex), pos: 0 }),
    ] + spec_scan(rest0, 4));
    assert(is_blank(rest0[0]));
    assert(rest0.skip(1) =~= cmd + ser);
    assert(spec_scan(rest0, 4) == spec_scan(cmd + ser, 5));
    assert(ser.len() == 0 || ser[0] == 32) by {
        if rs.len() > 0 {
            assert(ser == seq![32u8] + op_lit(rs[0].0) + seq![32u8] + rs[0].1 + ser_redirs(
                rs.skip(1),
            ));
        }
    }
    lemma_scan_cmd(cmd, ser, 5);
    let bm = (5 + cmd.len()) as nat;
    let m_eos = SpecMeta { token: SpecToken::Eos, pos: (5 + cmd.len() + ser.len()) as nat };
    if rs.len() == 0 {
        assert(ser.len() == 0);
        assert(spec_scan(cmd + ser, 5) == as_items(word_metas(cmd, 5)) + seq![
            Ok::<SpecMeta, nat>(m_eos),
        ]);
        assert(redir_metas(rs, bm) =~= Seq::<SpecMeta>::empty());
    } else {
        assert(ser.len() > 0);
        lemma_scan_redirs(rs, bm);
        assert(spec_scan(cmd + ser, 5) == as_items(word_metas(cmd, 5)) + (as_items(
            redir_metas(rs, bm),
        ) + seq![Ok::<SpecMeta, nat>(m_eos)]));
    }
    let grand = seq![SpecMeta { token: SpecToken::Word(ex), pos: 0 }] + word_metas(cmd, 5)
        + redir_metas(rs, bm) + seq![m_eos];
    assert(spec_scan(line, 0) =~= as_items(grand));
}

/// Round trip, order preserved: a stage's command text and redirection
/// pairs rendered as one `exec` line and then scanned, squashed and parsed
/// again come back as exactly one stage, whose command text is the
/// `exec`-prefixed command and whose redirection pairs are the originals in
/// the order rendered — for command texts of plain space-joined words and
/// plain filenames.
#[verifier::rlimit(60)]
pub proof fn lemma_rendered_roundtrip(cmd: Seq<u8>, rs: Seq<(Redir, Seq<u8>)>)
    requires
        plain_text(cmd),
        forall|i: int| 0 <= i < rs.len() ==> plain_word((#[trigger] rs[i]).1),
    ensures
        errs_of(spec_scan(rendered_line(cmd, rs), 0)).len() == 0,
        spec_parse(oks_of(spec_scan(rendered_line(cmd, rs), 0))) == Ok::<
            Seq<SpecExpr>,
            ParseError,
        >(
            seq![
                SpecExpr {
                    cmd: Some(crate::cli::lit_exec() + seq![32u8] + cmd),
                    redirs: rs,
                },
            ],
        ),
{
    let ex = crate::cli::lit_exec();
    let ser = ser_redirs(rs);
    let bm = (5 + cmd.len()) as nat;
    let m_eos = SpecMeta { token: SpecToken::Eos, pos: (5 + cmd.len() + ser.len()) as nat };
    let grand = seq![SpecMeta { token: SpecToken::Word(ex), pos: 0 }] + word_metas(cmd, 5)
        + redir_metas(rs, bm) + seq![m_eos];
    lemma_scan_rendered(cmd, rs);
    lemma_as_items_clean(grand);
    let tail = redir_metas(rs, bm) + seq![m_eos];
    lemma_redir_metas_shape(rs, bm);
    assert(grand[0] == SpecMeta { token: SpecToken::Word(ex), pos: 0 });
    assert(grand.skip(1) =~= word_metas(cmd, 5) + tail);
    assert(tail.len() == 0 || !(tail[0].token is Word)) by {
        if rs.len() > 0 {
            assert(tail[0] == redir_metas(rs, bm)[0]);
            assert(is_op(redir_metas(rs, bm)[0].token));
        } else {
            assert(tail[0] == m_eos);
        }
    }
    lemma_squash_acc_words(cmd, 5, ex, 0, tail);
    assert(spec_squash(grand) == seq![
        SpecMeta { token: SpecToken::Word(ex + seq![32u8] + cmd), pos: 0 },
    ] + spec_squash(tail));
    assert(forall|i: int|
        0 <= i < tail.len() - 1 ==> !((#[trigger] tail[i].token) is Word && tail[i
            + 1].token is Word)) by {
        assert forall|i: int|
            0 <= i < tail.len() - 1 implies !((#[trigger] tail[i].token) is Word && tail[i
                + 1].token is Word) by {
            if i % 2 == 0 {
                assert(tail[i] == redir_metas(rs, bm)[i]);
                assert(is_op(tail[i].token));
            } else {
                if i + 1 < 2 * rs.len() {
                    assert(tail[i + 1] == redir_metas(rs, bm)[i + 1]);
                    assert(is_op(tail[i + 1].token));
                } else {
                    assert(tail[i + 1] == m_eos);
                }
            }
        }
    }
    lemma_squash_id(tail);
    let exec_cmd = ex + seq![32u8] + cmd;
    let squashed = seq![SpecMeta { token: SpecToken::Word(exec_cmd), pos: 0 }] + tail;
    assert(spec_squash(grand) == squashed);
    assert(forall|i: int| 0 <= i < squashed.len() ==> !((#[trigger] squashed[i].token) is Pipe))
        by {
        assert forall|i: int|
            0 <= i < squashed.len() implies !((#[trigger] squashed[i].token) is Pipe) by {
            if i == 0 {
            } else if i - 1 < 2 * rs.len() {
                assert(squashed[i] == redir_metas(rs, bm)[i - 1]);
                if (i - 1) % 2 == 0 {
                    assert(is_op(squashed[i].token));
                } else {
                    assert(squashed[i].token is Word);
                }
            } else {
                assert(squashed[i] == m_eos);
            }
        }
    }
    lemma_find_pipe_none(squashed, 0);
    assert(spec_groups(squashed) == seq![squashed]);
    assert(squashed[0].token == SpecToken::Word(exec_cmd));
    assert(squashed.skip(1) =~= tail);
    lemma_redirs_read_back(rs, bm, m_eos);
    let e = SpecExpr { cmd: Some(exec_cmd), redirs: rs };
    assert(spec_group(squashed) == Ok::<SpecExpr, ParseError>(e));
    assert(seq![squashed][0] == squashed);
    assert(seq![squashed].skip(1) =~= Seq::<Seq<SpecMeta>>::empty());
    assert(spec_parse_groups(Seq::<Seq<SpecMeta>>::empty()) == Ok::<Seq<SpecExpr>, ParseError>(
        Seq::<SpecExpr>::empty(),
    ));
    assert(spec_parse_groups(seq![squashed]) == Ok::<Seq<SpecExpr>, ParseError>(
        seq![e] + Seq::<SpecExpr>::empty(),
    ));
    assert(seq![e] + Seq::<SpecExpr>::empty() =~= seq![e]);
}

/// Round trip of the serializer itself: `spec_serialize` renders the pairs
/// grouped by kind, so its line reads back as exactly one stage whose
/// command text is the `exec`-prefixed command and whose redirection pairs
/// are the originals grouped by kind — the same multiset of pairs.
pub proof fn lemma_serialize_roundtrip(cmd: Seq<u8>, rs: Seq<(Redir, Seq<u8>)>)
    requires
        plain_text(cmd),
        forall|i: int| 0 <= i < rs.len() ==> plain_word((#[trigger] rs[i]).1),
    ensures
        errs_of(spec_scan(spec_serialize(cmd, rs), 0)).len() == 0,
        spec_parse(oks_of(spec_scan(spec_serialize(cmd, rs), 0))) == Ok::<
            Seq<SpecExpr>,
            ParseError,
        >(
            seq![
                SpecExpr {
                    cmd: Some(crate::cli::lit_exec() + seq![32u8] + cmd),
                    redirs: kind_grouped(rs),
                },
            ],
        ),
        kind_grouped(rs).to_multiset() == rs.to_multiset(),
{
    lemma_grouped_plain(rs);
    lemma_grouped_multiset(rs);
    assert(spec_serialize(cmd, rs) == rendered_line(cmd, kind_grouped(rs)));
    lemma_rendered_roundtrip(cmd, kind_grouped(rs));
}

/// Whether one scan item is the end-of-input marker.
pub open spec fn is_eos_item(it: Result<SpecMeta, nat>) -> bool {
    it matches Ok(m) && m.token is Eos
}

/// Every scan ends in exactly one end-of-input marker: the last item is the
/// marker, at the line's end, and no item before it is one.
pub proof fn lemma_scan_terminator(s: Seq<u8>, base: nat)
    ensures
        spec_scan(s, base).len() >= 1,
        spec_scan(s, base).last() == Ok::<SpecMeta, nat>(
            SpecMeta { token: SpecToken::Eos, pos: (base + s.len()) as nat },
        ),
        forall|i: int|
            0 <= i < spec_scan(s, base).len() - 1 ==> !is_eos_item(
                #[trigger] spec_scan(s, base)[i],
            ),
    decreases s.len(),
{
    let items = spec_scan(s, base);
    if s.len() == 0 {
    } else {
        let c = s[0];
        if is_blank(c) {
            lemma_scan_terminator(s.skip(1), base + 1);
        } else if c == 124 || c == 60 || (c == 62 && !(s.len() >= 2 && s[1] == 62)) {
            lemma_scan_terminator(s.skip(1), base + 1);
            let rest = spec_scan(s.skip(1), (base + 1) as nat);
            assert(items.len() == 1 + rest.len());
            assert(items.last() == rest.last());
            assert(forall|i: int| 1 <= i < items.len() ==> #[trigger] items[i] == rest[i - 1]);
        } else if c == 62 {
            lemma_scan_terminator(s.skip(2), base + 2);
            let rest = spec_scan(s.skip(2), (base + 2) as nat);
            assert(items.last() == rest.last());
            assert(forall|i: int| 1 <= i < items.len() ==> #[trigger] items[i] == rest[i - 1]);
        } else if c == 39 || c == 34 {
            match find_close(s, c, 1) {
                Some(j) => {
                    crate::scan::lemma_find_close_bounds(s, c, 1, j);
                    lemma_scan_terminator(s.skip(j + 1), (base + j + 1) as nat);
                    let rest = spec_scan(s.skip(j + 1), (base + j + 1) as nat);
                    assert(items.last() == rest.last());
                    assert(forall|i: int|
                        1 <= i < items.len() ==> #[trigger] items[i] == rest[i - 1]);
                },
                None => {
                },
            }
        } else {
            match find_delim(s, 1) {
                Some(j) => {
                    crate::scan::lemma_find_delim_bounds(s, 1, j);
                    lemma_scan_terminator(s.skip(j), (base + j) as nat);
                    let rest = spec_scan(s.skip(j), (base + j) as nat);
                    assert(items.last() == rest.last());
                    assert(forall|i: int|
                        1 <= i < items.len() ==> #[trigger] items[i] == rest[i - 1]);
                },
                None => {
                },
            }
        }
    }
}

proof fn lemma_parse_groups_len(gs: Seq<Seq<SpecMeta>>)
    ensures
        (match spec_parse_groups(gs) {
            Ok(es) => es.len() == gs.len(),
            Err(_) => true,
        }),
    decreases gs.len(),
{
    if gs.len() > 0 {
        lemma_parse_groups_len(gs.skip(1));
    }
}

/// A line that parses at all yields at least one stage: splitting at pipes
/// always leaves at least one group, and every group becomes one stage.
pub proof fn lemma_parse_yields_a_stage(ts: Seq<SpecMeta>, es: Seq<SpecExpr>)
    requires
        spec_parse(ts) == Ok::<Seq<SpecExpr>, ParseError>(es),
    ensures
        es.len() >= 1,
{
    let sq = spec_squash(ts);
    assert(spec_groups(sq).len() >= 1) by {
        match crate::parse::find_pipe(sq, 0) {
            None => {},
            Some(j) => {},
        }
    }
    lemma_parse_groups_len(spec_groups(sq));
}

} // verus!
