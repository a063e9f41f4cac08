//! Parser for the diagram surface syntax.
//!
//! Statements are separated by newlines or semicolons; a statement whose
//! first non-blank characters are `#` or `//` is a comment. A statement is
//! either an alias binding `alias <ident> = "<label>"` or a message
//! `<ident> ARROW <ident>` with an optional `: "<payload>"`, where `ARROW`
//! is one of `->`, `-->`, `<-`, `<--`. The two `<-` forms swap source and
//! target; the doubled shafts mark the message dashed. Identifiers are
//! ASCII letters, digits and underscores, not starting with a digit, and
//! the keyword `alias` is reserved. A quoted string holds every character
//! up to the next quote; it cannot hold a quote, a newline or a semicolon.

use crate::layout::EdgeStyle;
use vstd::prelude::*;
use vstd::string::{StrSliceExecFns, StringExecFns};

verus! {

/// The parser for the sequence-diagram surface syntax.
pub struct SequenceDiagramParser;

/// An `alias <id> = "<label>"` binding.
#[derive(Debug, Clone)]
pub struct Alias {
    /// The ID of the node
    pub id: String,
    /// The label of the node
    pub label: String,
}

/// A message statement.
#[derive(Debug, Clone)]
pub struct Message {
    /// The sender of the message
    pub source: String,
    /// The recipient of the message
    pub target: String,
    /// The edge label
    pub payload: String,
    /// The edge's line style
    pub edge_style: EdgeStyle,
}

/// A parsed diagram: aliases and messages, each in input order.
#[derive(Debug, Clone)]
pub struct SequenceDiagram {
    /// List of aliases
    pub aliases: Vec<Alias>,
    /// List of messages
    pub messages: Vec<Message>,
}

/// Why the input was rejected.
#[derive(Debug)]
pub enum ParserError {
    SyntaxError(String),
}

/// The mathematical shadow of an `Alias`.
pub ghost struct AliasV {
    pub id: Seq<char>,
    pub label: Seq<char>,
}

/// The mathematical shadow of a `Message`.
pub ghost struct PMsgV {
    pub source: Seq<char>,
    pub target: Seq<char>,
    pub payload: Seq<char>,
    pub dashed: bool,
}

/// The mathematical shadow of a `SequenceDiagram`.
pub ghost struct DiagV {
    pub aliases: Seq<AliasV>,
    pub messages: Seq<PMsgV>,
}

impl View for Alias {
    type V = AliasV;

    open spec fn view(&self) -> AliasV {
        AliasV { id: self.id@, label: self.label@ }
    }
}

impl View for Message {
    type V = PMsgV;

    open spec fn view(&self) -> PMsgV {
        PMsgV {
            source: self.source@,
            target: self.target@,
            payload: self.payload@,
            dashed: self.edge_style is Dashed,
        }
    }
}

impl View for SequenceDiagram {
    type V = DiagV;

    open spec fn view(&self) -> DiagV {
        DiagV {
            aliases: Seq::new(self.aliases@.len(), |i: int| self.aliases@[i]@),
            messages: Seq::new(self.messages@.len(), |i: int| self.messages@[i]@),
        }
    }
}

impl Default for SequenceDiagram {
    /// A diagram with no aliases and no messages.
    fn default() -> (d: SequenceDiagram)
        ensures
            d@.aliases.len() == 0,
            d@.messages.len() == 0,
    {
        SequenceDiagram { aliases: Vec::new(), messages: Vec::new() }
    }
}

/// A statement-internal blank character.
pub open spec fn is_ws(c: char) -> bool {
    c == ' ' || c == '\t' || c == '\r'
}

/// A statement separator.
pub open spec fn is_sep(c: char) -> bool {
    c == '\n' || c == ';'
}

/// A character that may open an identifier.
pub open spec fn is_ident_start(c: char) -> bool {
    (97 <= c as u32 <= 122) || (65 <= c as u32 <= 90) || c as u32 == 95
}

/// A character that may continue an identifier.
pub open spec fn is_ident_char(c: char) -> bool {
    is_ident_start(c) || (48 <= c as u32 <= 57)
}

/// The reserved word.
pub open spec fn alias_kw() -> Seq<char> {
    seq!['a', 'l', 'i', 'a', 's']
}

/// `s` without its leading blanks.
pub open spec fn skip_ws(s: Seq<char>) -> Seq<char>
    decreases s.len(),
{
    if s.len() > 0 && is_ws(s[0]) {
        skip_ws(s.drop_first())
    } else {
        s
    }
}

/// How many identifier characters open `s`.
pub open spec fn ident_len(s: Seq<char>) -> int
    decreases s.len(),
{
    if s.len() > 0 && is_ident_char(s[0]) {
        1 + ident_len(s.drop_first())
    } else {
        0
    }
}

/// The index of the first quote in `s`, or `-1`.
pub open spec fn find_quote(s: Seq<char>) -> int
    decreases s.len(),
{
    if s.len() == 0 {
        -1
    } else if s[0] == '"' {
        0
    } else {
        let r = find_quote(s.drop_first());
        if r < 0 {
            -1
        } else {
            r + 1
        }
    }
}

/// An identifier never runs past the end of the input.
pub proof fn lemma_ident_len_le(s: Seq<char>)
    ensures
        0 <= ident_len(s) <= s.len(),
    decreases s.len(),
{
    if s.len() > 0 && is_ident_char(s[0]) {
        lemma_ident_len_le(s.drop_first());
    }
}

/// The first quote's index, when there is one, is within the input.
pub proof fn lemma_find_quote_le(s: Seq<char>)
    ensures
        -1 <= find_quote(s) < s.len(),
    decreases s.len(),
{
    if s.len() > 0 && s[0] != '"' {
        lemma_find_quote_le(s.drop_first());
    }
}

/// A lexical token.
pub ghost enum TokV {
    Ident(Seq<char>),
    Arrow { dashed: bool, rtl: bool },
    Colon,
    Equals,
    Quoted(Seq<char>),
}

/// Prepend already-lexed tokens to the outcome of lexing the rest.
pub open spec fn tk_prepend(a: Seq<TokV>, b: Option<Seq<TokV>>) -> Option<Seq<TokV>> {
    match b {
        Option::None => Option::None,
        Option::Some(r) => Option::Some(a + r),
    }
}

/// Lex a statement: blanks are skipped, every other character must open an
/// identifier, an arrow, a colon, an equals sign or a quoted string.
pub open spec fn tokenize(s: Seq<char>) -> Option<Seq<TokV>>
    decreases s.len(),
    via tokenize_dec
{
    if s.len() == 0 {
        Option::Some(Seq::empty())
    } else if is_ws(s[0]) {
        tokenize(s.drop_first())
    } else if is_ident_start(s[0]) {
        let n = ident_len(s);
        tk_prepend(seq![TokV::Ident(s.take(n))], tokenize(s.skip(n)))
    } else if s[0] == '-' {
        if s.len() >= 2 && s[1] == '>' {
            tk_prepend(seq![TokV::Arrow { dashed: false, rtl: false }], tokenize(s.skip(2)))
        } else if s.len() >= 3 && s[1] == '-' && s[2] == '>' {
            tk_prepend(seq![TokV::Arrow { dashed: true, rtl: false }], tokenize(s.skip(3)))
        } else {
            Option::None
        }
    } else if s[0] == '<' {
        if s.len() >= 3 && s[1] == '-' && s[2] == '-' {
            tk_prepend(seq![TokV::Arrow { dashed: true, rtl: true }], tokenize(s.skip(3)))
        } else if s.len() >= 2 && s[1] == '-' {
            tk_prepend(seq![TokV::Arrow { dashed: false, rtl: true }], tokenize(s.skip(2)))
        } else {
            Option::None
        }
    } else if s[0] == ':' {
        tk_prepend(seq![TokV::Colon], tokenize(s.drop_first()))
    } else if s[0] == '=' {
        tk_prepend(seq![TokV::Equals], tokenize(s.drop_first()))
    } else if s[0] == '"' {
        let j = find_quote(s.drop_first());
        if j < 0 {
            Option::None
        } else {
            tk_prepend(seq![TokV::Quoted(s.drop_first().take(j))], tokenize(s.skip(j + 2)))
        }
    } else {
        Option::None
    }
}

#[via_fn]
proof fn tokenize_dec(s: Seq<char>) {
    lemma_ident_len_le(s);
    if s.len() > 0 {
        lemma_find_quote_le(s.drop_first());
        if is_ident_start(s[0]) {
            assert(is_ident_char(s[0]));
            assert(ident_len(s) == 1 + ident_len(s.drop_first()));
            lemma_ident_len_le(s.drop_first());
        }
    }
}

/// A parsed statement.
pub ghost enum StmtV {
    AliasS { id: Seq<char>, label: Seq<char> },
    MsgS { source: Seq<char>, target: Seq<char>, payload: Seq<char>, dashed: bool },
}

/// The identifier a token holds, if it is one.
pub open spec fn tok_ident(t: TokV) -> Option<Seq<char>> {
    match t {
        TokV::Ident(s) => Option::Some(s),
        _ => Option::None,
    }
}

/// The string a token holds, if it is a quoted one.
pub open spec fn tok_quoted(t: TokV) -> Option<Seq<char>> {
    match t {
        TokV::Quoted(s) => Option::Some(s),
        _ => Option::None,
    }
}

/// A usable (non-keyword) identifier token.
pub open spec fn is_name_tok(t: TokV) -> bool {
    tok_ident(t) is Some && tok_ident(t)->0 != alias_kw()
}

/// Match a token list against the statement forms. `None` is a syntax
/// error; `Some(None)` an empty statement.
pub open spec fn stmt_pattern(toks: Seq<TokV>) -> Option<Option<StmtV>> {
    if toks.len() == 0 {
        Option::Some(Option::None)
    } else if toks.len() == 4 {
        if tok_ident(toks[0]) == Option::Some(alias_kw()) && is_name_tok(toks[1]) && toks[2]
            is Equals && tok_quoted(toks[3]) is Some {
            Option::Some(
                Option::Some(
                    StmtV::AliasS { id: tok_ident(toks[1])->0, label: tok_quoted(toks[3])->0 },
                ),
            )
        } else {
            Option::None
        }
    } else if toks.len() == 3 {
        if is_name_tok(toks[0]) && toks[1] is Arrow && is_name_tok(toks[2]) {
            Option::Some(
                Option::Some(
                    msg_stmt(
                        tok_ident(toks[0])->0,
                        tok_ident(toks[2])->0,
                        Seq::empty(),
                        toks[1]->dashed,
                        toks[1]->rtl,
                    ),
                ),
            )
        } else {
            Option::None
        }
    } else if toks.len() == 5 {
        if is_name_tok(toks[0]) && toks[1] is Arrow && is_name_tok(toks[2]) && toks[3] is Colon
            && tok_quoted(toks[4]) is Some {
            Option::Some(
                Option::Some(
                    msg_stmt(
                        tok_ident(toks[0])->0,
                        tok_ident(toks[2])->0,
                        tok_quoted(toks[4])->0,
                        toks[1]->dashed,
                        toks[1]->rtl,
                    ),
                ),
            )
        } else {
            Option::None
        }
    } else {
        Option::None
    }
}

/// A message statement: the `<-` forms swap source and target.
pub open spec fn msg_stmt(a: Seq<char>, b: Seq<char>, payload: Seq<char>, dashed: bool, rtl: bool) -> StmtV {
    if rtl {
        StmtV::MsgS { source: b, target: a, payload, dashed }
    } else {
        StmtV::MsgS { source: a, target: b, payload, dashed }
    }
}

/// Parse one statement's characters: a blank or comment statement yields
/// nothing, anything else is lexed and matched.
pub open spec fn stmt_of_chars(t: Seq<char>) -> Option<Option<StmtV>> {
    let u = skip_ws(t);
    if u.len() == 0 {
        Option::Some(Option::None)
    } else if u[0] == '#' || (u.len() >= 2 && u[0] == '/' && u[1] == '/') {
        Option::Some(Option::None)
    } else {
        match tokenize(t) {
            Option::None => Option::None,
            Option::Some(toks) => stmt_pattern(toks),
        }
    }
}

/// Split the input into statements at newlines and semicolons.
pub open spec fn split_stmts(s: Seq<char>) -> Seq<Seq<char>>
    decreases s.len(),
{
    if s.len() == 0 {
        seq![Seq::empty()]
    } else if is_sep(s[0]) {
        seq![Seq::<char>::empty()] + split_stmts(s.drop_first())
    } else {
        let r = split_stmts(s.drop_first());
        seq![seq![s[0]] + r[0]] + r.drop_first()
    }
}

/// A statement's yield, as a sequence of zero or one statements.
pub open spec fn ostmts(o: Option<StmtV>) -> Seq<StmtV> {
    match o {
        Option::None => Seq::empty(),
        Option::Some(st) => seq![st],
    }
}

/// Prepend already-parsed statements to the outcome of parsing the rest.
pub open spec fn st_prepend(a: Seq<StmtV>, b: Option<Seq<StmtV>>) -> Option<Seq<StmtV>> {
    match b {
        Option::None => Option::None,
        Option::Some(r) => Option::Some(a + r),
    }
}

/// Parse every statement; any bad statement rejects the whole input.
pub open spec fn parse_stmts(ss: Seq<Seq<char>>) -> Option<Seq<StmtV>>
    decreases ss.len(),
{
    if ss.len() == 0 {
        Option::Some(Seq::empty())
    } else {
        match stmt_of_chars(ss[0]) {
            Option::None => Option::None,
            Option::Some(o) => st_prepend(ostmts(o), parse_stmts(ss.drop_first())),
        }
    }
}

/// Gather parsed statements into a diagram: aliases and messages each keep
/// their input order.
pub open spec fn diag_of(stmts: Seq<StmtV>) -> DiagV
    decreases stmts.len(),
{
    if stmts.len() == 0 {
        DiagV { aliases: Seq::empty(), messages: Seq::empty() }
    } else {
        let d = diag_of(stmts.drop_last());
        match stmts.last() {
            StmtV::AliasS { id, label } => DiagV {
                aliases: d.aliases.push(AliasV { id, label }),
                messages: d.messages,
            },
            StmtV::MsgS { source, target, payload, dashed } => DiagV {
                aliases: d.aliases,
                messages: d.messages.push(PMsgV { source, target, payload, dashed }),
            },
        }
    }
}

/// The whole grammar: split, parse each statement, gather.
pub open spec fn spec_parse(s: Seq<char>) -> Option<DiagV> {
    match parse_stmts(split_stmts(s)) {
        Option::None => Option::None,
        Option::Some(stmts) => Option::Some(diag_of(stmts)),
    }
}

/// Splitting yields at least one statement.
pub proof fn lemma_split_nonempty(s: Seq<char>)
    ensures
        split_stmts(s).len() >= 1,
    decreases s.len(),
{
    if s.len() > 0 {
        lemma_split_nonempty(s.drop_first());
    }
}

/// A separator-free prefix of length `k` is the first statement when a
/// separator follows it; when it is the whole input, it is the only one.
pub proof fn lemma_split_scan(s: Seq<char>, k: int)
    requires
        0 <= k <= s.len(),
        forall|i: int| 0 <= i < k ==> !is_sep(#[trigger] s[i]),
        k < s.len() ==> is_sep(s[k]),
    ensures
        k < s.len() ==> split_stmts(s) == seq![s.take(k)] + split_stmts(s.skip(k + 1)),
        k == s.len() ==> split_stmts(s) == seq![s],
    decreases k, s.len(),
{
    lemma_split_nonempty(s);
    if k == s.len() {
        if s.len() == 0 {
            assert(s =~= Seq::<char>::empty());
            assert(split_stmts(s) =~= seq![s]);
        } else {
            let t = s.drop_first();
            lemma_split_scan(t, k - 1);
            let r = split_stmts(t);
            assert(r == seq![t]);
            assert(seq![s[0]] + r[0] =~= s);
            assert(r.drop_first() =~= Seq::<Seq<char>>::empty());
            assert(split_stmts(s) =~= seq![s]);
        }
    } else if k == 0 {
        assert(is_sep(s[0]));
        assert(s.take(0) =~= Seq::<char>::empty());
        assert(s.skip(1) =~= s.drop_first());
        assert(split_stmts(s) =~= seq![s.take(0)] + split_stmts(s.skip(1)));
    } else {
        let t = s.drop_first();
        lemma_split_scan(t, k - 1);
        assert(t.skip(k) =~= s.skip(k + 1));
        let r = split_stmts(t);
        assert(r == seq![t.take(k - 1)] + split_stmts(t.skip(k)));
        assert(r[0] == t.take(k - 1));
        assert(seq![s[0]] + t.take(k - 1) =~= s.take(k));
        assert(r.drop_first() =~= split_stmts(s.skip(k + 1)));
        assert(split_stmts(s) =~= seq![s.take(k)] + split_stmts(s.skip(k + 1)));
    }
}

/// A blank prefix of length `j` is all that `skip_ws` removes when a
/// non-blank character (or the end) follows it.
pub proof fn lemma_skip_ws_scan(s: Seq<char>, j: int)
    requires
        0 <= j <= s.len(),
        forall|i: int| 0 <= i < j ==> is_ws(#[trigger] s[i]),
        j < s.len() ==> !is_ws(s[j]),
    ensures
        skip_ws(s) =~= s.skip(j),
    decreases j,
{
    if j == 0 {
        assert(s.skip(0) =~= s);
    } else {
        let t = s.drop_first();
        lemma_skip_ws_scan(t, j - 1);
        assert(t.skip(j - 1) =~= s.skip(j));
    }
}

/// An identifier-character prefix of length `j` is the identifier's length
/// when a non-identifier character (or the end) follows it.
pub proof fn lemma_ident_scan(s: Seq<char>, j: int)
    requires
        0 <= j <= s.len(),
        forall|i: int| 0 <= i < j ==> is_ident_char(#[trigger] s[i]),
        j < s.len() ==> !is_ident_char(s[j]),
    ensures
        ident_len(s) == j,
    decreases j,
{
    if j > 0 {
        lemma_ident_scan(s.drop_first(), j - 1);
    }
}

/// An executable token.
pub enum TokE {
    Ident(String),
    Arrow { dashed: bool, rtl: bool },
    Colon,
    Equals,
    Quoted(String),
}

impl View for TokE {
    type V = TokV;

    open spec fn view(&self) -> TokV {
        match self {
            TokE::Ident(s) => TokV::Ident(s@),
            TokE::Arrow { dashed, rtl } => TokV::Arrow { dashed: *dashed, rtl: *rtl },
            TokE::Colon => TokV::Colon,
            TokE::Equals => TokV::Equals,
            TokE::Quoted(s) => TokV::Quoted(s@),
        }
    }
}

/// The mathematical values of a token list.
pub open spec fn toks_views(v: Seq<TokE>) -> Seq<TokV> {
    Seq::new(v.len(), |i: int| v[i]@)
}

/// A token's text fits in `cap` characters.
pub open spec fn tok_small(t: TokV, cap: int) -> bool {
    match t {
        TokV::Ident(s) => s.len() <= cap,
        TokV::Quoted(s) => s.len() <= cap,
        _ => true,
    }
}

fn ws_char(c: char) -> (r: bool)
    ensures
        r == is_ws(c),
{
    c == ' ' || c == '\t' || c == '\r'
}

fn sep_char(c: char) -> (r: bool)
    ensures
        r == is_sep(c),
{
    c == '\n' || c == ';'
}

fn ident_start_char(c: char) -> (r: bool)
    ensures
        r == is_ident_start(c),
{
    let u = c as u32;
    (97 <= u && u <= 122) || (65 <= u && u <= 90) || u == 95
}

fn ident_char(c: char) -> (r: bool)
    ensures
        r == is_ident_char(c),
{
    let u = c as u32;
    ident_start_char(c) || (48 <= u && u <= 57)
}

/// The characters `[from, idx)` of `chars`, as a string.
fn collect_range(chars: &Vec<char>, from: usize, to: usize) -> (r: String)
    requires
        from <= to <= chars@.len(),
    ensures
        r@ == chars@.subrange(from as int, to as int),
{
    let mut s = String::new();
    for idx in from..to
        invariant
            from <= idx <= to <= chars@.len(),
            s@ == chars@.subrange(from as int, idx as int),
    {
        s.push(chars[idx]);
        proof {
            assert(s@ =~= chars@.subrange(from as int, idx + 1));
        }
    }
    s
}

/// Lex the characters `[from, to)` of `chars` as one statement.
#[verifier::rlimit(60)]
fn tokenize_range(chars: &Vec<char>, from: usize, to: usize) -> (r: Result<Vec<TokE>, ()>)
    requires
        from <= to <= chars@.len(),
    ensures
        match r {
            Ok(t) => {
                &&& tokenize(chars@.subrange(from as int, to as int)) == Option::Some(
                    toks_views(t@),
                )
                &&& t@.len() <= to - from
                &&& forall|i: int|
                    0 <= i < t@.len() ==> tok_small(#[trigger] toks_views(t@)[i], to - from)
            },
            Err(_) => tokenize(chars@.subrange(from as int, to as int)) is None,
        },
{
    let ghost stmt = chars@.subrange(from as int, to as int);
    let mut toks: Vec<TokE> = Vec::new();
    let mut tp = from;
    proof {
        assert(Seq::<TokV>::empty() + tokenize(stmt)->0 =~= tokenize(stmt)->0);
        assert(toks_views(toks@) =~= Seq::<TokV>::empty());
        assert(stmt.skip(0) =~= stmt);
    }
    loop
        invariant
            from <= tp <= to <= chars@.len(),
            stmt == chars@.subrange(from as int, to as int),
            tokenize(stmt) == tk_prepend(
                toks_views(toks@),
                tokenize(stmt.skip(tp - from)),
            ),
            toks@.len() <= tp - from,
            forall|i: int|
                0 <= i < toks@.len() ==> tok_small(#[trigger] toks_views(toks@)[i], to - from),
        decreases to - tp,
    {
        if tp >= to {
            proof {
                assert(stmt.skip(tp - from) =~= Seq::<char>::empty());
                assert(tokenize(stmt.skip(tp - from)) == Option::Some(Seq::<TokV>::empty()));
                assert(toks_views(toks@) + Seq::<TokV>::empty() =~= toks_views(toks@));
            }
            return Ok(toks);
        }
        let ghost rest = stmt.skip(tp - from);
        proof {
            assert(rest.len() == to - tp);
            assert(forall|i: int|
                0 <= i < rest.len() ==> #[trigger] rest[i] == chars@[tp + i]);
        }
        let c = chars[tp];
        let ghost old_toks = toks@;
        if ws_char(c) {
            proof {
                assert(rest.drop_first() =~= stmt.skip(tp + 1 - from));
            }
            tp = tp + 1;
        } else if ident_start_char(c) {
            let mut e = tp + 1;
            while e < to && ident_char(chars[e])
                invariant
                    tp < e <= to <= chars@.len(),
                    forall|i: int| tp <= i < e ==> is_ident_char(#[trigger] chars@[i]),
                decreases to - e,
            {
                e = e + 1;
            }
            proof {
                lemma_ident_scan(rest, e - tp);
                assert(ident_len(rest) == e - tp);
            }
            let sstr = collect_range(chars, tp, e);
            proof {
                assert(sstr@ =~= rest.take(e - tp));
                assert(rest.skip(e - tp) =~= stmt.skip(e - from));
                assert(tokenize(rest) == tk_prepend(
                    seq![TokV::Ident(rest.take(e - tp))],
                    tokenize(stmt.skip(e - from)),
                ));
            }
            toks.push(TokE::Ident(sstr));
            proof {
                assert(toks_views(toks@) =~= toks_views(old_toks) + seq![toks@.last()@]);
                assert(toks@.last()@ == TokV::Ident(rest.take(e - tp)));
                if tokenize(stmt.skip(e - from)) is Some {
                    assert(toks_views(old_toks) + (seq![TokV::Ident(rest.take(e - tp))] + tokenize(
                        stmt.skip(e - from),
                    )->0) =~= toks_views(toks@) + tokenize(stmt.skip(e - from))->0);
                }
            }
            tp = e;
        } else if c == '-' {
            if to - tp >= 2 && chars[tp + 1] == '>' {
                proof {
                    assert(rest.skip(2) =~= stmt.skip(tp + 2 - from));
                }
                toks.push(TokE::Arrow { dashed: false, rtl: false });
                proof {
                    assert(toks_views(toks@) =~= toks_views(old_toks) + seq![toks@.last()@]);
                    if tokenize(stmt.skip(tp + 2 - from)) is Some {
                        assert(toks_views(old_toks) + (seq![TokV::Arrow { dashed: false, rtl: false }]
                            + tokenize(stmt.skip(tp + 2 - from))->0) =~= toks_views(toks@)
                            + tokenize(stmt.skip(tp + 2 - from))->0);
                    }
                }
                tp = tp + 2;
            } else if to - tp >= 3 && chars[tp + 1] == '-' && chars[tp + 2] == '>' {
                proof {
                    assert(rest.skip(3) =~= stmt.skip(tp + 3 - from));
                }
                toks.push(TokE::Arrow { dashed: true, rtl: false });
                proof {
                    assert(toks_views(toks@) =~= toks_views(old_toks) + seq![toks@.last()@]);
                    if tokenize(stmt.skip(tp + 3 - from)) is Some {
                        assert(toks_views(old_toks) + (seq![TokV::Arrow { dashed: true, rtl: false }]
                            + tokenize(stmt.skip(tp + 3 - from))->0) =~= toks_views(toks@)
                            + tokenize(stmt.skip(tp + 3 - from))->0);
                    }
                }
                tp = tp + 3;
            } else {
                return Err(());
            }
        } else if c == '<' {
            if to - tp >= 3 && chars[tp + 1] == '-' && chars[tp + 2] == '-' {
                proof {
                    assert(rest.skip(3) =~= stmt.skip(tp + 3 - from));
                }
                toks.push(TokE::Arrow { dashed: true, rtl: true });
                proof {
                    assert(toks_views(toks@) =~= toks_views(old_toks) + seq![toks@.last()@]);
                    if tokenize(stmt.skip(tp + 3 - from)) is Some {
                        assert(toks_views(old_toks) + (seq![TokV::Arrow { dashed: true, rtl: true }]
                            + tokenize(stmt.skip(tp + 3 - from))->0) =~= toks_views(toks@)
                            + tokenize(stmt.skip(tp + 3 - from))->0);
                    }
                }
                tp = tp + 3;
            } else if to - tp >= 2 && chars[tp + 1] == '-' {
                proof {
                    assert(rest.skip(2) =~= stmt.skip(tp + 2 - from));
                }
                toks.push(TokE::Arrow { dashed: false, rtl: true });
                proof {
                    assert(toks_views(toks@) =~= toks_views(old_toks) + seq![toks@.last()@]);
                    if tokenize(stmt.skip(tp + 2 - from)) is Some {
                        assert(toks_views(old_toks) + (seq![TokV::Arrow { dashed: false, rtl: true }]
                            + tokenize(stmt.skip(tp + 2 - from))->0) =~= toks_views(toks@)
                            + tokenize(stmt.skip(tp + 2 - from))->0);
                    }
                }
                tp = tp + 2;
            } else {
                return Err(());
            }
        } else if c == ':' {
            proof {
                assert(rest.drop_first() =~= stmt.skip(tp + 1 - from));
            }
            toks.push(TokE::Colon);
            proof {
                assert(toks_views(toks@) =~= toks_views(old_toks) + seq![toks@.last()@]);
                if tokenize(stmt.skip(tp + 1 - from)) is Some {
                    assert(toks_views(old_toks) + (seq![TokV::Colon] + tokenize(
                        stmt.skip(tp + 1 - from),
                    )->0) =~= toks_views(toks@) + tokenize(stmt.skip(tp + 1 - from))->0);
                }
            }
            tp = tp + 1;
        } else if c == '=' {
            proof {
                assert(rest.drop_first() =~= stmt.skip(tp + 1 - from));
            }
            toks.push(TokE::Equals);
            proof {
                assert(toks_views(toks@) =~= toks_views(old_toks) + seq![toks@.last()@]);
                if tokenize(stmt.skip(tp + 1 - from)) is Some {
                    assert(toks_views(old_toks) + (seq![TokV::Equals] + tokenize(
                        stmt.skip(tp + 1 - from),
                    )->0) =~= toks_views(toks@) + tokenize(stmt.skip(tp + 1 - from))->0);
                }
            }
            tp = tp + 1;
        } else if c == '"' {
            let mut e = tp + 1;
            while e < to && chars[e] != '"'
                invariant
                    tp < e <= to <= chars@.len(),
                    forall|i: int| tp + 1 <= i < e ==> #[trigger] chars@[i] != '"',
                decreases to - e,
            {
                e = e + 1;
            }
            if e >= to {
                proof {
                    lemma_quote_scan(rest.drop_first(), e - tp - 1);
                    assert(find_quote(rest.drop_first()) == -1);
                }
                return Err(());
            }
            proof {
                lemma_quote_scan(rest.drop_first(), e - tp - 1);
                assert(find_quote(rest.drop_first()) == e - tp - 1);
            }
            let sstr = collect_range(chars, tp + 1, e);
            let ghost j = e - tp - 1;
            proof {
                assert(sstr@ =~= rest.drop_first().take(j));
                assert(rest.skip(j + 2) =~= stmt.skip(e + 1 - from));
            }
            toks.push(TokE::Quoted(sstr));
            proof {
                assert(toks_views(toks@) =~= toks_views(old_toks) + seq![toks@.last()@]);
                assert(toks@.last()@ == TokV::Quoted(rest.drop_first().take(j)));
                if tokenize(stmt.skip(e + 1 - from)) is Some {
                    assert(toks_views(old_toks) + (seq![TokV::Quoted(rest.drop_first().take(j))]
                        + tokenize(stmt.skip(e + 1 - from))->0) =~= toks_views(toks@) + tokenize(
                        stmt.skip(e + 1 - from),
                    )->0);
                }
            }
            tp = e + 1;
        } else {
            return Err(());
        }
    }
}

/// Every string in the diagram has at most `cap` characters.
pub open spec fn diag_strings_le(d: DiagV, cap: int) -> bool {
    &&& forall|i: int|
        0 <= i < d.aliases.len() ==> (#[trigger] d.aliases[i]).id.len() <= cap
            && d.aliases[i].label.len() <= cap
    &&& forall|i: int|
        0 <= i < d.messages.len() ==> (#[trigger] d.messages[i]).source.len() <= cap
            && d.messages[i].target.len() <= cap && d.messages[i].payload.len() <= cap
}

/// The string `s` spells the reserved word.
fn is_kw_alias(s: &String) -> (r: bool)
    ensures
        r == (s@ == alias_kw()),
{
    let k = String::from_str("alias");
    proof {
        reveal_strlit("alias");
        assert(k@ =~= alias_kw());
    }
    *s == k
}

fn tok_is_kw(t: &TokE) -> (r: bool)
    ensures
        r == (tok_ident(t@) == Option::Some(alias_kw())),
{
    match t {
        TokE::Ident(s) => is_kw_alias(s),
        _ => false,
    }
}

fn tok_is_name(t: &TokE) -> (r: bool)
    ensures
        r == is_name_tok(t@),
{
    match t {
        TokE::Ident(s) => !is_kw_alias(s),
        _ => false,
    }
}

fn tok_is_equals(t: &TokE) -> (r: bool)
    ensures
        r == (t@ is Equals),
{
    matches!(t, TokE::Equals)
}

fn tok_is_colon(t: &TokE) -> (r: bool)
    ensures
        r == (t@ is Colon),
{
    matches!(t, TokE::Colon)
}

fn tok_is_arrow(t: &TokE) -> (r: bool)
    ensures
        r == (t@ is Arrow),
{
    matches!(t, TokE::Arrow { .. })
}

fn tok_is_quoted(t: &TokE) -> (r: bool)
    ensures
        r == (tok_quoted(t@) is Some),
{
    matches!(t, TokE::Quoted(_))
}

fn tok_ident_str(t: &TokE) -> (r: String)
    requires
        tok_ident(t@) is Some,
    ensures
        r@ == tok_ident(t@)->0,
{
    match t {
        TokE::Ident(s) => s.clone(),
        _ => {
            proof {
                assert(false);
            }
            String::new()
        },
    }
}

fn tok_quoted_str(t: &TokE) -> (r: String)
    requires
        tok_quoted(t@) is Some,
    ensures
        r@ == tok_quoted(t@)->0,
{
    match t {
        TokE::Quoted(s) => s.clone(),
        _ => {
            proof {
                assert(false);
            }
            String::new()
        },
    }
}

fn tok_arrow_flags(t: &TokE) -> (r: (bool, bool))
    requires
        t@ is Arrow,
    ensures
        r.0 == t@->dashed,
        r.1 == t@->rtl,
{
    match t {
        TokE::Arrow { dashed, rtl } => (*dashed, *rtl),
        _ => {
            proof {
                assert(false);
            }
            (false, false)
        },
    }
}

/// A failed statement parse fails the whole grammar.
proof fn lemma_spec_parse_none(s: Seq<char>)
    requires
        parse_stmts(split_stmts(s)) is None,
    ensures
        spec_parse(s) is None,
{
}

/// A successful statement parse yields the gathered diagram.
proof fn lemma_spec_parse_some(s: Seq<char>, stmts: Seq<StmtV>)
    requires
        parse_stmts(split_stmts(s)) == Option::Some(stmts),
    ensures
        spec_parse(s) == Option::Some(diag_of(stmts)),
{
}

/// Parse a diagram description: an error on any statement rejects the whole
/// input.
#[verifier::rlimit(100)]
pub fn diagram(input: String) -> (r: Result<SequenceDiagram, ParserError>)
    ensures
        match r {
            Ok(d) => {
                &&& spec_parse(input@) == Option::Some(d@)
                &&& 3 * (d@.aliases.len() + d@.messages.len()) <= input@.len()
                &&& diag_strings_le(d@, input@.len() as int)
            },
            Err(_) => spec_parse(input@) is None,
        },
{
    let ghost full = input@;
    let istr = input.as_str();
    let len = istr.unicode_len();
    let mut chars: Vec<char> = Vec::new();
    for i in 0..len
        invariant
            len == full.len(),
            istr@ == full,
            chars@ =~= full.take(i as int),
    {
        chars.push(istr.get_char(i));
    }
    proof {
        assert(chars@ =~= full);
    }
    let mut aliases: Vec<Alias> = Vec::new();
    let mut messages: Vec<Message> = Vec::new();
    let ghost mut stmts_done: Seq<StmtV> = Seq::empty();
    let mut scount: usize = 0;
    let mut p: usize = 0;
    let mut done: bool = false;
    proof {
        assert(full.skip(0) =~= full);
        if parse_stmts(split_stmts(full)) is Some {
            assert(Seq::<StmtV>::empty() + parse_stmts(split_stmts(full))->0 =~= parse_stmts(
                split_stmts(full),
            )->0);
        }
        assert(Seq::new(aliases@.len(), |i: int| aliases@[i]@) =~= Seq::<AliasV>::empty());
        assert(Seq::new(messages@.len(), |i: int| messages@[i]@) =~= Seq::<PMsgV>::empty());
    }
    while !done
        invariant
            full == input@,
            chars@ == full,
            len == full.len(),
            p <= len,
            aliases@.len() + messages@.len() == scount,
            scount == stmts_done.len(),
            Seq::new(aliases@.len(), |i: int| aliases@[i]@) == diag_of(stmts_done).aliases,
            Seq::new(messages@.len(), |i: int| messages@[i]@) == diag_of(stmts_done).messages,
            diag_strings_le(diag_of(stmts_done), full.len() as int),
            !done ==> st_prepend(stmts_done, parse_stmts(split_stmts(full.skip(p as int))))
                == parse_stmts(split_stmts(full)),
            !done ==> 3 * (scount as int) <= p as int,
            done ==> parse_stmts(split_stmts(full)) == Option::Some(stmts_done),
            done ==> 3 * (scount as int) <= full.len(),
        decreases len - p + (if done {
            0int
        } else {
            1int
        }),
    {
        let ghost suffix = full.skip(p as int);
        let mut q = p;
        while q < len && !sep_char(chars[q])
            invariant
                p <= q <= len,
                chars@ == full,
                len == full.len(),
                forall|i: int| p <= i < q ==> !is_sep(#[trigger] full[i]),
            decreases len - q,
        {
            q = q + 1;
        }
        let ghost stmt = full.subrange(p as int, q as int);
        proof {
            assert(forall|i: int|
                0 <= i < q - p ==> suffix[i] == full[p + i] && !is_sep(#[trigger] suffix[i]));
            if q < len {
                assert(is_sep(suffix[q - p]));
            }
            lemma_split_scan(suffix, q as int - p as int);
            assert(suffix.take(q - p) =~= stmt);
            if q < len {
                assert(suffix.skip(q - p + 1) =~= full.skip(q as int + 1));
            }
        }
        // find the first non-blank character of the statement
        let mut t = p;
        while t < q && ws_char(chars[t])
            invariant
                p <= t <= q <= len,
                chars@ == full,
                len == full.len(),
                forall|i: int| p <= i < t ==> is_ws(#[trigger] full[i]),
            decreases q - t,
        {
            t = t + 1;
        }
        proof {
            assert(forall|i: int| 0 <= i < t - p ==> is_ws(#[trigger] stmt[i]));
            if t < q {
                assert(!is_ws(stmt[t - p]));
            }
            lemma_skip_ws_scan(stmt, t as int - p as int);
            assert(skip_ws(stmt) =~= stmt.skip(t - p));
        }
        let ghost u = skip_ws(stmt);
        let blank = t == q;
        let comment = if blank {
            false
        } else {
            chars[t] == '#' || (q - t >= 2 && chars[t] == '/' && chars[t + 1] == '/')
        };
        proof {
            assert(u.len() == q - t);
            if !blank {
                assert(u[0] == full[t as int]);
                if q - t >= 2 {
                    assert(u[1] == full[t as int + 1]);
                }
            }
        }
        if blank || comment {
            proof {
                assert(stmt_of_chars(stmt) == Option::Some(Option::<StmtV>::None));
                let gs = split_stmts(suffix);
                assert(gs[0] == stmt);
                if q < len {
                    assert(gs.drop_first() =~= split_stmts(full.skip(q as int + 1)));
                    assert(parse_stmts(gs) == st_prepend(
                        ostmts(Option::None),
                        parse_stmts(split_stmts(full.skip(q as int + 1))),
                    ));
                    match parse_stmts(split_stmts(full.skip(q as int + 1))) {
                        Option::None => {},
                        Option::Some(rr) => {
                            assert(ostmts(Option::None) + rr =~= rr);
                            assert(stmts_done + rr =~= stmts_done + (ostmts(Option::None) + rr));
                        },
                    }
                } else {
                    assert(gs =~= seq![stmt]);
                    assert(gs.drop_first() =~= Seq::<Seq<char>>::empty());
                    assert(parse_stmts(gs.drop_first()) == Option::Some(Seq::<StmtV>::empty()));
                    assert(ostmts(Option::None) + Seq::<StmtV>::empty() =~= Seq::<StmtV>::empty());
                    assert(parse_stmts(gs) == Option::Some(Seq::<StmtV>::empty()));
                    assert(stmts_done + Seq::<StmtV>::empty() =~= stmts_done);
                }
            }
        } else {
            let toks = match tokenize_range(&chars, p, q) {
                Ok(v) => v,
                Err(_) => {
                    proof {
                        assert(stmt_of_chars(stmt) is None);
                        let gs = split_stmts(suffix);
                        assert(gs[0] == stmt);
                        assert(parse_stmts(gs) is None);
                        assert(parse_stmts(split_stmts(full)) is None);
                        lemma_spec_parse_none(full);
                    }
                    return Err(ParserError::SyntaxError(String::from_str("unexpected character")));
                },
            };
            let tl = toks.len();
            let ghost tv = toks_views(toks@);
            let ghost emitted: Option<StmtV>;
            if tl == 0 {
                proof {
                    emitted = Option::None;
                    assert(stmt_pattern(tv) == Option::Some(Option::<StmtV>::None));
                }
            } else if tl == 4 && tok_is_kw(&toks[0]) && tok_is_name(&toks[1]) && tok_is_equals(
                &toks[2],
            ) && tok_is_quoted(&toks[3]) {
                let id = tok_ident_str(&toks[1]);
                let label = tok_quoted_str(&toks[3]);
                let ghost st = StmtV::AliasS { id: id@, label: label@ };
                proof {
                    emitted = Option::Some(st);
                    assert(tv[0] == toks@[0]@ && tv[1] == toks@[1]@ && tv[2] == toks@[2]@ && tv[3]
                        == toks@[3]@);
                    assert(stmt_pattern(tv) == Option::Some(Option::Some(st)));
                }
                aliases.push(Alias { id, label });
            } else if tl == 3 && tok_is_name(&toks[0]) && tok_is_arrow(&toks[1]) && tok_is_name(
                &toks[2],
            ) {
                let fl = tok_arrow_flags(&toks[1]);
                let a = tok_ident_str(&toks[0]);
                let b = tok_ident_str(&toks[2]);
                let ghost st = msg_stmt(a@, b@, Seq::empty(), fl.0, fl.1);
                proof {
                    emitted = Option::Some(st);
                    assert(tv[0] == toks@[0]@ && tv[1] == toks@[1]@ && tv[2] == toks@[2]@);
                    assert(stmt_pattern(tv) == Option::Some(Option::Some(st)));
                }
                let style = if fl.0 {
                    EdgeStyle::Dashed
                } else {
                    EdgeStyle::Continuous
                };
                let msg = if fl.1 {
                    Message { source: b, target: a, payload: String::new(), edge_style: style }
                } else {
                    Message { source: a, target: b, payload: String::new(), edge_style: style }
                };
                messages.push(msg);
            } else if tl == 5 && tok_is_name(&toks[0]) && tok_is_arrow(&toks[1]) && tok_is_name(
                &toks[2],
            ) && tok_is_colon(&toks[3]) && tok_is_quoted(&toks[4]) {
                let fl = tok_arrow_flags(&toks[1]);
                let a = tok_ident_str(&toks[0]);
                let b = tok_ident_str(&toks[2]);
                let payload = tok_quoted_str(&toks[4]);
                let ghost st = msg_stmt(a@, b@, payload@, fl.0, fl.1);
                proof {
                    emitted = Option::Some(st);
                    assert(tv[0] == toks@[0]@ && tv[1] == toks@[1]@ && tv[2] == toks@[2]@ && tv[3]
                        == toks@[3]@ && tv[4] == toks@[4]@);
                    assert(stmt_pattern(tv) == Option::Some(Option::Some(st)));
                }
                let style = if fl.0 {
                    EdgeStyle::Dashed
                } else {
                    EdgeStyle::Continuous
                };
                let msg = if fl.1 {
                    Message { source: b, target: a, payload, edge_style: style }
                } else {
                    Message { source: a, target: b, payload, edge_style: style }
                };
                messages.push(msg);
            } else {
                proof {
                    assert(stmt_pattern(tv) is None);
                    assert(stmt_of_chars(stmt) is None);
                    let gs = split_stmts(suffix);
                    assert(gs[0] == stmt);
                    assert(parse_stmts(gs) is None);
                    assert(parse_stmts(split_stmts(full)) is None);
                    lemma_spec_parse_none(full);
                }
                return Err(ParserError::SyntaxError(String::from_str("malformed statement")));
            }
            proof {
                assert(stmt_of_chars(stmt) == Option::Some(emitted));
            }
            if tl > 0 {
                scount = scount + 1;
                proof {
                    let st = emitted->0;
                    let prev = stmts_done;
                    stmts_done = stmts_done.push(st);
                    assert(stmts_done.drop_last() =~= prev);
                    assert(stmts_done.last() == st);
                    assert(ostmts(emitted) =~= seq![st]);
                    match st {
                        StmtV::AliasS { id, label } => {
                            assert(Seq::new(aliases@.len(), |i: int| aliases@[i]@) =~= diag_of(
                                stmts_done,
                            ).aliases);
                            assert(Seq::new(messages@.len(), |i: int| messages@[i]@) =~= diag_of(
                                stmts_done,
                            ).messages);
                        },
                        StmtV::MsgS { source, target, payload, dashed } => {
                            assert(Seq::new(aliases@.len(), |i: int| aliases@[i]@) =~= diag_of(
                                stmts_done,
                            ).aliases);
                            assert(Seq::new(messages@.len(), |i: int| messages@[i]@) =~= diag_of(
                                stmts_done,
                            ).messages);
                        },
                    }
                }
            } else {
                proof {
                    assert(ostmts(emitted) =~= Seq::<StmtV>::empty());
                }
            }
            proof {
                // the statement had at least `tl` characters, and an emitted
                // one at least three
                if tl > 0 {
                    assert(tl >= 3);
                    assert(q as int - p as int >= 3);
                }
                let gs = split_stmts(suffix);
                assert(gs[0] == stmt);
                let prev_done = if tl > 0 {
                    stmts_done.drop_last()
                } else {
                    stmts_done
                };
                if q < len {
                    assert(gs.drop_first() =~= split_stmts(full.skip(q as int + 1)));
                    assert(parse_stmts(gs) == st_prepend(
                        ostmts(emitted),
                        parse_stmts(split_stmts(full.skip(q as int + 1))),
                    ));
                    match parse_stmts(split_stmts(full.skip(q as int + 1))) {
                        Option::None => {},
                        Option::Some(rr) => {
                            assert(prev_done + (ostmts(emitted) + rr) =~= stmts_done + rr);
                        },
                    }
                } else {
                    assert(gs =~= seq![stmt]);
                    assert(gs.drop_first() =~= Seq::<Seq<char>>::empty());
                    assert(parse_stmts(gs.drop_first()) == Option::Some(Seq::<StmtV>::empty()));
                    assert(ostmts(emitted) + Seq::<StmtV>::empty() =~= ostmts(emitted));
                    assert(parse_stmts(gs) == Option::Some(ostmts(emitted)));
                    assert(prev_done + ostmts(emitted) =~= stmts_done);
                }
            }
        }
        if q == len {
            done = true;
        } else {
            p = q + 1;
        }
    }
    let d = SequenceDiagram { aliases, messages };
    proof {
        assert(d@.aliases == diag_of(stmts_done).aliases);
        assert(d@.messages == diag_of(stmts_done).messages);
        assert(d@ == diag_of(stmts_done));
        lemma_spec_parse_some(full, stmts_done);
    }
    Ok(d)
}

/// A quote-free prefix of length `j` places the first quote at `j`, or
/// nowhere when it is the whole input.
pub proof fn lemma_quote_scan(s: Seq<char>, j: int)
    requires
        0 <= j <= s.len(),
        forall|i: int| 0 <= i < j ==> #[trigger] s[i] != '"',
        j < s.len() ==> s[j] == '"',
    ensures
        j < s.len() ==> find_quote(s) == j,
        j == s.len() ==> find_quote(s) == -1,
    decreases j,
{
    if j > 0 {
        lemma_quote_scan(s.drop_first(), j - 1);
    }
}

} // verus!
