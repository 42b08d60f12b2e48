//! The lexer: turns one line of raw bytes into a sequence of typed tokens
//! with byte offsets, surfacing per-token failures (an unterminated quote)
//! without aborting the whole pass.
use vstd::prelude::*;

verus! {

/// A backslash, which shields the byte after it from ending a word or a quote.
pub const BS: u8 = 92;

/// One lexical unit of an input line.
///
/// A `String` token owns its raw lexeme: for a quoted literal the quotes are
/// retained here, and dequoting happens later, in the command grammar.
#[derive(Debug, Clone)]
pub enum Token {
    Eos,
    Pipe,
    Input,
    Output,
    Append,
    String { lex: Vec<u8> },
}

/// A token plus the byte offset in the source line where it started.
/// The offset serves diagnostics only.
#[derive(Debug, Clone)]
pub struct MetaToken {
    pub token: Token,
    pub pos: usize,
}

/// The lexer's one failure: no unescaped closing quote before end of line.
/// `pos` is the byte offset of the opening quote.
#[derive(Debug, Clone, PartialEq, Eq, Structural)]
pub struct ScanError {
    pub pos: usize,
}

/// The mathematical shadow of `Token`: lexemes are byte sequences.
pub enum SpecToken {
    Eos,
    Pipe,
    Input,
    Output,
    Append,
    Word(Seq<u8>),
}

/// The mathematical shadow of `MetaToken`.
pub struct SpecMeta {
    pub token: SpecToken,
    pub pos: nat,
}

impl View for Token {
    type V = SpecToken;

    open spec fn view(&self) -> SpecToken {
        match self {
            Token::Eos => SpecToken::Eos,
            Token::Pipe => SpecToken::Pipe,
            Token::Input => SpecToken::Input,
            Token::Output => SpecToken::Output,
            Token::Append => SpecToken::Append,
            Token::String { lex } => SpecToken::Word(lex@),
        }
    }
}

impl View for MetaToken {
    type V = SpecMeta;

    open spec fn view(&self) -> SpecMeta {
        SpecMeta { token: self.token@, pos: self.pos as nat }
    }
}

/// One scan item, abstractly: a token, or the offset of an unterminated quote.
pub open spec fn item_view(r: Result<MetaToken, ScanError>) -> Result<SpecMeta, nat> {
    match r {
        Ok(m) => Ok(m@),
        Err(e) => Err(e.pos as nat),
    }
}

pub open spec fn items_view(s: Seq<Result<MetaToken, ScanError>>) -> Seq<Result<SpecMeta, nat>> {
    s.map_values(|r: Result<MetaToken, ScanError>| item_view(r))
}

proof fn lemma_emit(
    tv0: Seq<Result<MetaToken, ScanError>>,
    it: Result<MetaToken, ScanError>,
    orig: Seq<Result<SpecMeta, nat>>,
    em0: Seq<Result<SpecMeta, nat>>,
)
    requires
        items_view(tv0) == orig + em0,
    ensures
        items_view(tv0.push(it)) == orig + em0.push(item_view(it)),
{
    assert(items_view(tv0.push(it)) =~= items_view(tv0).push(item_view(it)));
    assert(items_view(tv0).push(item_view(it)) =~= orig + em0.push(item_view(it)));
}

/// Space or tab: skipped between tokens, never part of one.
pub open spec fn is_blank(b: u8) -> bool {
    b == 32 || b == 9
}

/// The bytes that end a bareword run when not shielded by a backslash.
/// A tab does not: a tab inside a bareword stays in the lexeme.
pub open spec fn is_word_delim(b: u8) -> bool {
    ||| b == 124  // |
    ||| b == 60  // <
    ||| b == 62  // >
    ||| b == 34  // "
    ||| b == 39  // '
    ||| b == 40  // (
    ||| b == 41  // )
    ||| b == 32  // space
}

/// The first position `j` at or after `from` (with `from >= 1`) where `s[j]`
/// closes a quote opened by `q`: it equals `q` and is not preceded by a
/// backslash. `None` when no such position exists.
pub open spec fn find_close(s: Seq<u8>, q: u8, from: int) -> Option<int>
    decreases s.len() - from,
{
    if from < 1 || from >= s.len() {
        None
    } else if s[from] == q && s[from - 1] != BS {
        Some(from)
    } else {
        find_close(s, q, from + 1)
    }
}

/// The first position `j` at or after `from` (with `from >= 1`) where `s[j]`
/// is a word delimiter not preceded by a backslash. `None` when the word runs
/// to the end of `s`.
pub open spec fn find_delim(s: Seq<u8>, from: int) -> Option<int>
    decreases s.len() - from,
{
    if from < 1 || from >= s.len() {
        None
    } else if is_word_delim(s[from]) && s[from - 1] != BS {
        Some(from)
    } else {
        find_delim(s, from + 1)
    }
}

pub proof fn lemma_find_close_bounds(s: Seq<u8>, q: u8, from: int, j: int)
    requires
        find_close(s, q, from) == Some(j),
    ensures
        from <= j < s.len(),
        1 <= j,
    decreases s.len() - from,
{
    if !(from < 1 || from >= s.len()) {
        if s[from] == q && s[from - 1] != BS {
        } else {
            lemma_find_close_bounds(s, q, from + 1, j);
        }
    }
}

pub proof fn lemma_find_delim_bounds(s: Seq<u8>, from: int, j: int)
    requires
        find_delim(s, from) == Some(j),
    ensures
        from <= j < s.len(),
        1 <= j,
    decreases s.len() - from,
{
    if !(from < 1 || from >= s.len()) {
        if is_word_delim(s[from]) && s[from - 1] != BS {
        } else {
            lemma_find_delim_bounds(s, from + 1, j);
        }
    }
}

/// What scanning the suffix `s` of a line yields, when `s` starts at byte
/// offset `base` of that line.
///
/// Whitespace is skipped; `|`, `<`, `>` and `>>` are operators; a quote opens
/// a literal that runs to the matching unescaped quote, kept with both quote
/// bytes in the lexeme; any other byte starts a bareword that runs to the
/// next unshielded delimiter. An unterminated quote yields a failure at the
/// opening quote's offset and the rest of the line is discarded. The sequence
/// always ends with exactly one `Eos` marker.
pub open spec fn spec_scan(s: Seq<u8>, base: nat) -> Seq<Result<SpecMeta, nat>>
    decreases s.len(),
    via spec_scan_decreases
{
    if s.len() == 0 {
        seq![Ok(SpecMeta { token: SpecToken::Eos, pos: base })]
    } else {
        let c = s[0];
        if is_blank(c) {
            spec_scan(s.skip(1), base + 1)
        } else if c == 124 {
            seq![Ok(SpecMeta { token: SpecToken::Pipe, pos: base })] + spec_scan(
                s.skip(1),
                base + 1,
            )
        } else if c == 60 {
            seq![Ok(SpecMeta { token: SpecToken::Input, pos: base })] + spec_scan(
                s.skip(1),
                base + 1,
            )
        } else if c == 62 {
            if s.len() >= 2 && s[1] == 62 {
                seq![Ok(SpecMeta { token: SpecToken::Append, pos: base })] + spec_scan(
                    s.skip(2),
                    base + 2,
                )
            } else {
                seq![Ok(SpecMeta { token: SpecToken::Output, pos: base })] + spec_scan(
                    s.skip(1),
                    base + 1,
                )
            }
        } else if c == 39 || c == 34 {
            match find_close(s, c, 1) {
                Some(j) => seq![
                    Ok(SpecMeta { token: SpecToken::Word(s.take(j + 1)), pos: base }),
                ] + spec_scan(s.skip(j + 1), (base + j + 1) as nat),
                None => seq![
                    Err(base),
                    Ok(SpecMeta { token: SpecToken::Eos, pos: (base + s.len()) as nat }),
                ],
            }
        } else {
            match find_delim(s, 1) {
                Some(j) => seq![
                    Ok(SpecMeta { token: SpecToken::Word(s.take(j)), pos: base }),
                ] + spec_scan(s.skip(j), (base + j) as nat),
                None => seq![
                    Ok(SpecMeta { token: SpecToken::Word(s), pos: base }),
                    Ok(SpecMeta { token: SpecToken::Eos, pos: (base + s.len()) as nat }),
                ],
            }
        }
    }
}

#[via_fn]
proof fn spec_scan_decreases(s: Seq<u8>, base: nat) {
    if s.len() > 0 {
        let c = s[0];
        if c == 39 || c == 34 {
            if let Some(j) = find_close(s, c, 1) {
                lemma_find_close_bounds(s, c, 1, j);
            }
        } else if !is_blank(c) && c != 124 && c != 60 && c != 62 {
            if let Some(j) = find_delim(s, 1) {
                lemma_find_delim_bounds(s, 1, j);
            }
        }
    }
}

/// Copies `s[a..b]` into a fresh vector.
pub(crate) fn copy_range(s: &[u8], a: usize, b: usize) -> (r: Vec<u8>)
    requires
        a <= b <= s@.len(),
    ensures
        r@ == s@.subrange(a as int, b as int),
{
    let mut r: Vec<u8> = Vec::new();
    proof {
        assert(r@ =~= s@.subrange(a as int, a as int));
    }
    let mut k: usize = a;
    while k < b
        invariant
            a <= k <= b <= s@.len(),
            r@ == s@.subrange(a as int, k as int),
        decreases b - k,
    {
        r.push(s[k]);
        proof {
            assert(r@ =~= s@.subrange(a as int, k + 1 as int));
        }
        k = k + 1;
    }
    r
}

/// Scans one line of raw bytes and appends every token or failure, in source
/// order, to `tokens`. The appended items are exactly `spec_scan` of the line.
pub fn scan(content: &[u8], tokens: &mut Vec<Result<MetaToken, ScanError>>)
    ensures
        items_view(final(tokens)@) == items_view(old(tokens)@) + spec_scan(content@, 0),
{
    let ghost orig = items_view(tokens@);
    let ghost whole = spec_scan(content@, 0);
    let ghost mut emitted: Seq<Result<SpecMeta, nat>> = Seq::empty();
    let n = content.len();
    let mut i: usize = 0;
    proof {
        assert(content@.skip(0) =~= content@);
        assert(orig + emitted =~= orig);
    }
    while i < n
        invariant
            i <= n,
            n == content@.len(),
            items_view(tokens@) == orig + emitted,
            whole == spec_scan(content@, 0),
            whole == emitted + spec_scan(content@.skip(i as int), i as nat),
        decreases n - i,
    {
        let ghost i0 = i as int;
        let ghost suffix = content@.skip(i0);
        let b = content[i];
        proof {
            assert(suffix[0] == b);
            assert(suffix.len() == n - i0);
        }
        if b == 32 || b == 9 {
            i = i + 1;
            proof {
                assert(suffix.skip(1) =~= content@.skip(i as int));
                assert(spec_scan(suffix, i0 as nat) == spec_scan(content@.skip(i as int), i as nat));
            }
        } else if b == 124 || b == 60 {
            let t = if b == 124 { Token::Pipe } else { Token::Input };
            let it: Result<MetaToken, ScanError> = Ok(MetaToken { token: t, pos: i });
            let ghost tv0 = tokens@;
            let ghost em0 = emitted;
            tokens.push(it);
            i = i + 1;
            proof {
                let x = item_view(it);
                emitted = em0.push(x);
                lemma_emit(tv0, it, orig, em0);
                assert(items_view(tokens@) == orig + emitted);
                assert(suffix.skip(1) =~= content@.skip(i as int));
                assert(spec_scan(suffix, i0 as nat) =~= seq![x] + spec_scan(
                    content@.skip(i as int),
                    i as nat,
                ));
                assert(whole =~= emitted + spec_scan(content@.skip(i as int), i as nat));
            }
        } else if b == 62 {
            let two = i + 1 < n && content[i + 1] == 62;
            let t = if two { Token::Append } else { Token::Output };
            let it: Result<MetaToken, ScanError> = Ok(MetaToken { token: t, pos: i });
            let ghost tv0 = tokens@;
            let ghost em0 = emitted;
            tokens.push(it);
            i = if two { i + 2 } else { i + 1 };
            proof {
                if two {
                    assert(suffix[1] == 62);
                } else {
                    assert(!(suffix.len() >= 2 && suffix[1] == 62));
                }
                let x = item_view(it);
                emitted = em0.push(x);
                lemma_emit(tv0, it, orig, em0);
                assert(items_view(tokens@) == orig + emitted);
                assert(suffix.skip(i as int - i0) =~= content@.skip(i as int));
                assert(spec_scan(suffix, i0 as nat) =~= seq![x] + spec_scan(
                    content@.skip(i as int),
                    i as nat,
                ));
                assert(whole =~= emitted + spec_scan(content@.skip(i as int), i as nat));
            }
        } else if b == 39 || b == 34 {
            // a quoted literal: look for the matching unescaped quote
            let mut j = i + 1;
            let mut close: Option<usize> = None;
            while j < n && close.is_none()
                invariant
                    i + 1 <= j <= n,
                    i0 == i as int,
                    i < n,
                    n == content@.len(),
                    suffix == content@.skip(i0),
                    b == suffix[0],
                    close is None ==> find_close(suffix, b, 1) == find_close(suffix, b, j - i0),
                    close matches Some(jj) ==> i0 < jj < n && find_close(suffix, b, 1) == Some(
                        jj - i0,
                    ),
                decreases n - j + (if close is None { 1int } else { 0int }),
            {
                if content[j] == b && content[j - 1] != BS {
                    proof {
                        assert(suffix[j - i0] == b && suffix[j - i0 - 1] != BS);
                    }
                    close = Some(j);
                } else {
                    proof {
                        assert(!(suffix[j - i0] == b && suffix[j - i0 - 1] != BS));
                    }
                    j = j + 1;
                }
            }
            match close {
                Some(jj) => {
                    let lex = copy_range(content, i, jj + 1);
                    proof {
                        assert(lex@ =~= suffix.take(jj + 1 - i0));
                    }
                    let it: Result<MetaToken, ScanError> = Ok(
                        MetaToken { token: Token::String { lex }, pos: i },
                    );
                    let ghost tv0 = tokens@;
                    let ghost em0 = emitted;
                    tokens.push(it);
                    i = jj + 1;
                    proof {
                        let x = item_view(it);
                        emitted = em0.push(x);
                        lemma_emit(tv0, it, orig, em0);
                        assert(items_view(tokens@) == orig + emitted);
                        assert(suffix.skip(i as int - i0) =~= content@.skip(i as int));
                        assert(spec_scan(suffix, i0 as nat) =~= seq![x] + spec_scan(
                            content@.skip(i as int),
                            i as nat,
                        ));
                        assert(whole =~= emitted + spec_scan(content@.skip(i as int), i as nat));
                    }
                },
                None => {
                    let it: Result<MetaToken, ScanError> = Err(ScanError { pos: i });
                    let ghost tv0 = tokens@;
                    let ghost em0 = emitted;
                    tokens.push(it);
                    i = n;
                    proof {
                        assert(find_close(suffix, b, 1) == find_close(suffix, b, n - i0));
                        assert(find_close(suffix, b, n - i0) is None);
                        let x = item_view(it);
                        emitted = em0.push(x);
                        lemma_emit(tv0, it, orig, em0);
                        assert(items_view(tokens@) == orig + emitted);
                        assert(content@.skip(n as int) =~= Seq::<u8>::empty());
                        assert(spec_scan(content@.skip(n as int), n as nat) =~= seq![
                            Ok(SpecMeta { token: SpecToken::Eos, pos: n as nat }),
                        ]);
                        assert(spec_scan(suffix, i0 as nat) =~= seq![x] + spec_scan(
                            content@.skip(n as int),
                            n as nat,
                        ));
                        assert(whole =~= emitted + spec_scan(content@.skip(i as int), i as nat));
                    }
                },
            }
        } else {
            // a bareword: run to the next unshielded delimiter
            let mut j = i + 1;
            let mut end: Option<usize> = None;
            while j < n && end.is_none()
                invariant
                    i + 1 <= j <= n,
                    i0 == i as int,
                    i < n,
                    n == content@.len(),
                    suffix == content@.skip(i0),
                    b == suffix[0],
                    end is None ==> find_delim(suffix, 1) == find_delim(suffix, j - i0),
                    end matches Some(jj) ==> i0 < jj < n && find_delim(suffix, 1) == Some(
                        jj - i0,
                    ),
                decreases n - j + (if end is None { 1int } else { 0int }),
            {
                let d = content[j];
                if (d == 124 || d == 60 || d == 62 || d == 34 || d == 39 || d == 40 || d == 41
                    || d == 32) && content[j - 1] != BS {
                    proof {
                        assert(is_word_delim(suffix[j - i0]) && suffix[j - i0 - 1] != BS);
                    }
                    end = Some(j);
                } else {
                    proof {
                        assert(!(is_word_delim(suffix[j - i0]) && suffix[j - i0 - 1] != BS));
                    }
                    j = j + 1;
                }
            }
            match end {
                Some(jj) => {
                    let lex = copy_range(content, i, jj);
                    proof {
                        assert(lex@ =~= suffix.take(jj - i0));
                    }
                    let it: Result<MetaToken, ScanError> = Ok(
                        MetaToken { token: Token::String { lex }, pos: i },
                    );
                    let ghost tv0 = tokens@;
                    let ghost em0 = emitted;
                    tokens.push(it);
                    i = jj;
                    proof {
                        let x = item_view(it);
                        emitted = em0.push(x);
                        lemma_emit(tv0, it, orig, em0);
                        assert(items_view(tokens@) == orig + emitted);
                        assert(suffix.skip(i as int - i0) =~= content@.skip(i as int));
                        assert(spec_scan(suffix, i0 as nat) =~= seq![x] + spec_scan(
                            content@.skip(i as int),
                            i as nat,
                        ));
                        assert(whole =~= emitted + spec_scan(content@.skip(i as int), i as nat));
                    }
                },
                None => {
                    let lex = copy_range(content, i, n);
                    proof {
                        assert(lex@ =~= suffix);
                    }
                    let it: Result<MetaToken, ScanError> = Ok(
                        MetaToken { token: Token::String { lex }, pos: i },
                    );
                    let ghost tv0 = tokens@;
                    let ghost em0 = emitted;
                    tokens.push(it);
                    i = n;
                    proof {
                        assert(find_delim(suffix, 1) == find_delim(suffix, n - i0));
                        assert(find_delim(suffix, n - i0) is None);
                        let x = item_view(it);
                        emitted = em0.push(x);
                        lemma_emit(tv0, it, orig, em0);
                        assert(items_view(tokens@) == orig + emitted);
                        assert(content@.skip(n as int) =~= Seq::<u8>::empty());
                        assert(spec_scan(content@.skip(n as int), n as nat) =~= seq![
                            Ok(SpecMeta { token: SpecToken::Eos, pos: n as nat }),
                        ]);
                        assert(spec_scan(suffix, i0 as nat) =~= seq![x] + spec_scan(
                            content@.skip(n as int),
                            n as nat,
                        ));
                        assert(whole =~= emitted + spec_scan(content@.skip(i as int), i as nat));
                    }
                },
            }
        }
    }
    let it: Result<MetaToken, ScanError> = Ok(MetaToken { token: Token::Eos, pos: n });
    let ghost tv0 = tokens@;
    let ghost em0 = emitted;
    tokens.push(it);
    proof {
        let x = item_view(it);
        emitted = em0.push(x);
        lemma_emit(tv0, it, orig, em0);
        assert(items_view(tokens@) == orig + emitted);
        assert(content@.skip(n as int) =~= Seq::<u8>::empty());
        assert(spec_scan(content@.skip(n as int), n as nat) =~= seq![x]);
        assert(whole =~= emitted);
        assert(items_view(tokens@) =~= orig + whole);
    }
}

} // verus!
