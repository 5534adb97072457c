//! The parser: a recursive-descent consumer of the lexical token stream
//! that builds the emit plan. Host expressions — interpolation values,
//! guards, match scrutinees and patterns, loop iterables, `let` bindings,
//! escape-hatch bodies — are captured as opaque text and assigned slots;
//! the parser never interprets them.

use vstd::prelude::*;
use crate::escape::EscapeCtx;
use crate::escape::escape_comment;
use crate::escape::escape_cdata;
use crate::escape::escape_comment_push;
use crate::escape::escape_cdata_push;
use crate::plan::EmitNode;
use crate::plan::InterpInfo;
use crate::plan::Slots;
use crate::plan::nodes_view;
use crate::plan::lemma_nodes_view_push;
use crate::plan::lemma_nodes_view_index;
use crate::plan::lemma_branches_view_push;
use crate::plan::branches_view;
use crate::plan::Branch;
use crate::plan::MatchInfo;
use crate::plan::LoopInfo;
use crate::plan::Plan;
use crate::plan::node_wf;
use crate::plan::nodes_wf;
use crate::plan::branches_wf;
use crate::plan::plan_wf;
use crate::plan::slots_extend;
use crate::plan::lemma_node_wf_mono;
use crate::plan::lemma_nodes_wf_mono;
use crate::plan::lemma_branches_wf_mono;
use crate::plan::lemma_nodes_wf_concat;
use crate::token::SrcToken;
use crate::token::Token;
use crate::token::TokenV;
use crate::token::tokens_view;
use crate::token::lemma_tokens_view_index;
use crate::token::str_eq;
use crate::escape::push_char;
use vstd::string::StringExecFns;
use vstd::string::StrSliceExecFns;
use crate::token::ParseError;
use crate::token::ParseFault;
use crate::token::FaultV;
use crate::plan::NodeV;
use crate::plan::BranchV;
use crate::plan::SlotsV;
use crate::plan::InterpInfoV;
use crate::plan::MatchInfoV;
use crate::plan::LoopInfoV;
use crate::plan::LetInfo;
use crate::plan::LetInfoV;
use crate::plan::PlanV;

verus! {

/// The opaque text of one token, as handed to the host for evaluation.
pub open spec fn token_text(t: TokenV) -> Seq<char>
    decreases t, 0int,
{
    match t {
        TokenV::Ident(s) => s,
        TokenV::Text(s) => s,
        TokenV::Punct(c) => seq![c],
        TokenV::Brace(ts) => "{"@ + tokens_text(ts, 0, ts.len() as int) + "}"@,
        TokenV::Paren(ts) => "("@ + tokens_text(ts, 0, ts.len() as int) + ")"@,
        TokenV::Bracket(ts) => "["@ + tokens_text(ts, 0, ts.len() as int) + "]"@,
        TokenV::Comment(ts) => tokens_text(ts, 0, ts.len() as int),
        TokenV::CharData(ts) => tokens_text(ts, 0, ts.len() as int),
    }
}

/// The opaque text of the tokens in `[i, end)`, concatenated.
pub open spec fn tokens_text(ts: Seq<TokenV>, i: int, end: int) -> Seq<char>
    decreases ts, end - i,
{
    if i < 0 || i >= end || i >= ts.len() {
        Seq::empty()
    } else {
        token_text(ts[i]) + tokens_text(ts, i + 1, end)
    }
}

/// The index of the first brace group in `[i, end)`, or `end`.
pub open spec fn until_brace(ts: Seq<TokenV>, i: int, end: int) -> int
    decreases end - i,
{
    if i < 0 || i >= end || i >= ts.len() {
        end
    } else if ts[i] is Brace {
        i
    } else {
        until_brace(ts, i + 1, end)
    }
}

/// The index of the first `in` keyword in `[i, end)`, or `end`.
pub open spec fn until_in(ts: Seq<TokenV>, i: int, end: int) -> int
    decreases end - i,
{
    if i < 0 || i >= end || i >= ts.len() {
        end
    } else if ts[i] == TokenV::Ident("in"@) {
        i
    } else {
        until_in(ts, i + 1, end)
    }
}

/// The index of the first `;` in `[i, end)`, or `end`.
pub open spec fn until_semi(ts: Seq<TokenV>, i: int, end: int) -> int
    decreases end - i,
{
    if i < 0 || i >= end || i >= ts.len() {
        end
    } else if ts[i] == TokenV::Punct(';') {
        i
    } else {
        until_semi(ts, i + 1, end)
    }
}

/// The index of the first `,` in `[i, end)`, or `end`.
pub open spec fn until_comma(ts: Seq<TokenV>, i: int, end: int) -> int
    decreases end - i,
{
    if i < 0 || i >= end || i >= ts.len() {
        end
    } else if ts[i] == TokenV::Punct(',') {
        i
    } else {
        until_comma(ts, i + 1, end)
    }
}

/// The index of the first `=>` in `[i, end)`, or `end`.
pub open spec fn until_arrow(ts: Seq<TokenV>, i: int, end: int) -> int
    decreases end - i,
{
    if i < 0 || i >= end || i >= ts.len() {
        end
    } else if i + 1 < end && i + 1 < ts.len() && ts[i] == TokenV::Punct('=') && ts[i + 1]
        == TokenV::Punct('>') {
        i
    } else {
        until_arrow(ts, i + 1, end)
    }
}

/// The index of the first `;` or `:` in `[i, end)`, or `end`. Either
/// character separates an interpolation's expression from its forwarded
/// format specifier; the semicolon form exists because a colon also joins
/// namespaced names.
pub open spec fn find_sep(ts: Seq<TokenV>, i: int, end: int) -> int
    decreases end - i,
{
    if i < 0 || i >= end || i >= ts.len() {
        end
    } else if ts[i] == TokenV::Punct(';') || ts[i] == TokenV::Punct(':') {
        i
    } else {
        find_sep(ts, i + 1, end)
    }
}

/// The index of the first `=` in `[i, end)`, or `end`.
pub open spec fn until_eq(ts: Seq<TokenV>, i: int, end: int) -> int
    decreases end - i,
{
    if i < 0 || i >= end || i >= ts.len() {
        end
    } else if ts[i] == TokenV::Punct('=') {
        i
    } else {
        until_eq(ts, i + 1, end)
    }
}

/// The index just past the run of text tokens starting at `i`.
pub open spec fn text_run_end(ts: Seq<TokenV>, i: int, end: int) -> int
    decreases end - i,
{
    if i < 0 || i >= end || i >= ts.len() {
        i
    } else if ts[i] is Text {
        text_run_end(ts, i + 1, end)
    } else {
        i
    }
}

/// The concatenated text of the run of text tokens starting at `i`.
pub open spec fn text_run(ts: Seq<TokenV>, i: int, end: int) -> Seq<char>
    decreases end - i,
{
    if i < 0 || i >= end || i >= ts.len() {
        Seq::empty()
    } else {
        match ts[i] {
            TokenV::Text(t) => t + text_run(ts, i + 1, end),
            _ => Seq::empty(),
        }
    }
}

/// True for the characters that continue a name after its first fragment.
pub open spec fn is_name_sep(c: char) -> bool {
    c == '-' || c == '.'
}

/// Name continuation: fragments joined by `-` or `.`.
pub open spec fn sp_name_cont(ts: Seq<TokenV>, i: int, end: int, acc: Seq<char>) -> (Seq<
    char,
>, int)
    decreases end - i,
{
    if i < 0 || i + 1 >= end || i + 1 >= ts.len() {
        (acc, i)
    } else {
        match (ts[i], ts[i + 1]) {
            (TokenV::Punct(c), TokenV::Ident(f)) => {
                if is_name_sep(c) {
                    sp_name_cont(ts, i + 2, end, acc + seq![c] + f)
                } else {
                    (acc, i)
                }
            },
            _ => (acc, i),
        }
    }
}

/// A possibly-namespaced name: a single literal string taken whole, or
/// identifier fragments where the first joiner may be `:`, `-` or `.` and
/// later joiners `-` or `.`.
pub open spec fn sp_name(ts: Seq<TokenV>, i: int, end: int) -> Result<(Seq<char>, int), FaultV> {
    if i < 0 || i >= end || i >= ts.len() {
        Err(FaultV { kind: ParseError::ExpectedIdentifierOrLiteral, at: i })
    } else {
        match ts[i] {
            TokenV::Text(s) => Ok((s, i + 1)),
            TokenV::Ident(f) => {
                if i + 2 < end && i + 2 <= ts.len() {
                    match (ts[i + 1], ts[i + 2]) {
                        (TokenV::Punct(c), TokenV::Ident(g)) => {
                            if c == ':' || is_name_sep(c) {
                                Ok(sp_name_cont(ts, i + 3, end, f + seq![c] + g))
                            } else {
                                Ok((f, i + 1))
                            }
                        },
                        _ => Ok((f, i + 1)),
                    }
                } else {
                    Ok((f, i + 1))
                }
            },
            _ => Err(FaultV { kind: ParseError::ExpectedIdentifierOrLiteral, at: i }),
        }
    }
}

/// An interpolation from the tokens of a braced group: the expression text
/// before the first `;` or `:`, the format specifier after it. An empty
/// expression is rejected. The new slot escapes under `ictx`.
pub open spec fn sp_interp(inner: Seq<TokenV>, at: int, ictx: EscapeCtx, st: SlotsV) -> Result<
    (NodeV, SlotsV),
    FaultV,
> {
    let n = inner.len() as int;
    let k = find_sep(inner, 0, n);
    if k == 0 {
        Err(FaultV { kind: ParseError::UnexpectedToken, at })
    } else {
        let expr = tokens_text(inner, 0, k);
        let fspec = if k < n {
            Some(tokens_text(inner, k + 1, n))
        } else {
            None
        };
        let slot = st.values.len() as usize;
        let st1 = SlotsV { values: st.values.push(InterpInfoV { expr, format_spec: fspec }), ..st };
        Ok((NodeV::Interp { slot, ctx: ictx }, st1))
    }
}

/// The body pieces of a comment or CDATA block: literal text is escaped
/// for the block once, at compile time; interpolations escape at render
/// time under the block's context.
pub open spec fn sp_frags(
    body: Seq<TokenV>,
    j: int,
    at: int,
    ctx: EscapeCtx,
    st: SlotsV,
) -> Result<(Seq<NodeV>, SlotsV), FaultV>
    decreases body.len() - j,
{
    if j < 0 || j >= body.len() {
        Ok((Seq::empty(), st))
    } else {
        match body[j] {
            TokenV::Text(t) => {
                let lit = if ctx is Comment {
                    escape_comment(t)
                } else {
                    escape_cdata(t)
                };
                match sp_frags(body, j + 1, at, ctx, st) {
                    Ok((rest, st1)) => Ok((seq![NodeV::Literal(lit)] + rest, st1)),
                    Err(f) => Err(f),
                }
            },
            TokenV::Brace(inner) => match sp_interp(inner, at, ctx, st) {
                Ok((node, st1)) => match sp_frags(body, j + 1, at, ctx, st1) {
                    Ok((rest, st2)) => Ok((seq![node] + rest, st2)),
                    Err(f) => Err(f),
                },
                Err(f) => Err(f),
            },
            _ => Err(FaultV { kind: ParseError::UnexpectedToken, at }),
        }
    }
}

/// The elements of a bracket-list attribute value: `"text": guard` pairs
/// separated by commas, a trailing comma tolerated. Each element writes
/// its text and one space when its guard holds at render time.
pub open spec fn sp_pairs(inner: Seq<TokenV>, j: int, at: int, st: SlotsV) -> Result<
    (Seq<NodeV>, SlotsV),
    FaultV,
>
    decreases inner.len() - j,
{
    let n = inner.len() as int;
    if j < 0 || j >= n {
        Ok((Seq::empty(), st))
    } else {
        match inner[j] {
            TokenV::Text(t) => {
                if j + 1 < n && inner[j + 1] == TokenV::Punct(':') {
                    let k = until_comma(inner, j + 2, n);
                    let cond = tokens_text(inner, j + 2, k);
                    let slot = st.guards.len() as usize;
                    let st1 = SlotsV { guards: st.guards.push(cond), ..st };
                    let next = if j + 2 <= k && k < n {
                        k + 1
                    } else if k >= n {
                        n
                    } else {
                        j + 2
                    };
                    match sp_pairs(inner, next, at, st1) {
                        Ok((rest, st2)) => Ok(
                            (seq![NodeV::Gated { guard: slot, text: t }] + rest, st2),
                        ),
                        Err(f) => Err(f),
                    }
                } else {
                    Err(FaultV { kind: ParseError::UnexpectedToken, at })
                }
            },
            _ => Err(FaultV { kind: ParseError::ExpectedIdentifierOrLiteral, at }),
        }
    }
}

/// Saturating 64-bit addition.
pub open spec fn sat_add64(a: u64, b: u64) -> u64 {
    if a + b > u64::MAX {
        u64::MAX
    } else {
        (a + b) as u64
    }
}

/// The weight of one token: its own count plus its children's.
pub open spec fn token_weight(t: TokenV) -> u64
    decreases t, 1int,
{
    match t {
        TokenV::Ident(_) => 1,
        TokenV::Text(_) => 1,
        TokenV::Punct(_) => 1,
        TokenV::Brace(ts) => sat_add64(2, tokens_weight(ts, 0)),
        TokenV::Paren(ts) => sat_add64(2, tokens_weight(ts, 0)),
        TokenV::Bracket(ts) => sat_add64(2, tokens_weight(ts, 0)),
        TokenV::Comment(ts) => sat_add64(2, tokens_weight(ts, 0)),
        TokenV::CharData(ts) => sat_add64(2, tokens_weight(ts, 0)),
    }
}

/// The total weight of the tokens from `i` on.
pub open spec fn tokens_weight(ts: Seq<TokenV>, i: int) -> u64
    decreases ts, ts.len() - i,
{
    if i < 0 || i >= ts.len() {
        0
    } else {
        sat_add64(token_weight(ts[i]), tokens_weight(ts, i + 1))
    }
}

/// The recursion allowance the parser runs with: ample for the stream's
/// weight, so that parsing is cut short only on inputs of absurd size.
pub open spec fn fuel_for(ts: Seq<TokenV>) -> u64 {
    let w = tokens_weight(ts, 0);
    if w >= 0x00ff_ffff_ffff_ffff {
        u64::MAX
    } else {
        (16 * w + 16) as u64
    }
}

/// Empty slot tables.
pub open spec fn slots_empty() -> SlotsV {
    SlotsV {
        values: Seq::empty(),
        guards: Seq::empty(),
        matches: Seq::empty(),
        loops: Seq::empty(),
        raws: Seq::empty(),
        lets: Seq::empty(),
    }
}

/// The emit nodes of the tokens in `[i, end)`: constructs parsed one after
/// the other until the range is exhausted.
pub open spec fn sp_nodes(
    toks: Seq<TokenV>,
    i: int,
    end: int,
    ictx: EscapeCtx,
    st: SlotsV,
    fuel: u64,
) -> Result<(Seq<NodeV>, SlotsV), FaultV>
    decreases fuel,
{
    if fuel == 0 {
        Err(FaultV { kind: ParseError::UnexpectedToken, at: i })
    } else if i >= end {
        Ok((Seq::empty(), st))
    } else {
        match sp_item(toks, i, end, ictx, st, (fuel - 1) as u64) {
            Err(f) => Err(f),
            Ok((ns, j, st1)) => match sp_nodes(toks, j, end, ictx, st1, (fuel - 1) as u64) {
                Err(f) => Err(f),
                Ok((rest, st2)) => Ok((ns + rest, st2)),
            },
        }
    }
}

/// One construct starting at `i`: its emit nodes, the position after it,
/// and the grown slot tables.
pub open spec fn sp_item(
    toks: Seq<TokenV>,
    i: int,
    end: int,
    ictx: EscapeCtx,
    st: SlotsV,
    fuel: u64,
) -> Result<(Seq<NodeV>, int, SlotsV), FaultV>
    decreases fuel,
{
    if fuel == 0 || i < 0 || i >= end {
        Err(FaultV { kind: ParseError::UnexpectedToken, at: i })
    } else {
        match toks[i] {
            TokenV::Text(t) => Ok(
                (
                    seq![NodeV::Literal(text_run(toks, i, end))],
                    text_run_end(toks, i, end),
                    st,
                ),
            ),
            TokenV::Brace(inner) => match sp_interp(inner, i, ictx, st) {
                Ok((node, st1)) => Ok((seq![node], i + 1, st1)),
                Err(f) => Err(f),
            },
            TokenV::Paren(inner) => match sp_nodes(
                inner,
                0,
                inner.len() as int,
                ictx,
                st,
                (fuel - 1) as u64,
            ) {
                Ok((ns, st1)) => Ok((seq![NodeV::Group(ns)], i + 1, st1)),
                Err(f) => Err(f),
            },
            TokenV::Bracket(_) => Err(FaultV { kind: ParseError::UnexpectedToken, at: i }),
            TokenV::Comment(body) => match sp_frags(body, 0, i, EscapeCtx::Comment, st) {
                Ok((ns, st1)) => Ok(
                    (
                        seq![NodeV::Literal("<!-- "@)] + ns + seq![NodeV::Literal(" -->"@)],
                        i + 1,
                        st1,
                    ),
                ),
                Err(f) => Err(f),
            },
            TokenV::CharData(body) => match sp_frags(body, 0, i, EscapeCtx::CharData, st) {
                Ok((ns, st1)) => Ok(
                    (
                        seq![NodeV::Literal("<![CDATA["@)] + ns + seq![NodeV::Literal("]]>"@)],
                        i + 1,
                        st1,
                    ),
                ),
                Err(f) => Err(f),
            },
            TokenV::Punct(c) => {
                if c == '<' {
                    sp_tag(toks, i, end, st, (fuel - 1) as u64)
                } else if c == '|' {
                    sp_hatch(toks, i, end, st)
                } else {
                    Err(FaultV { kind: ParseError::UnexpectedToken, at: i })
                }
            },
            TokenV::Ident(s) => {
                if s == "if"@ {
                    match sp_if_chain(toks, i, end, ictx, st, Seq::empty(), (fuel - 1) as u64) {
                        Ok((node, j, st1)) => Ok((seq![node], j, st1)),
                        Err(f) => Err(f),
                    }
                } else if s == "match"@ {
                    match sp_match(toks, i, end, ictx, st, (fuel - 1) as u64) {
                        Ok((node, j, st1)) => Ok((seq![node], j, st1)),
                        Err(f) => Err(f),
                    }
                } else if s == "for"@ {
                    match sp_for(toks, i, end, ictx, st, (fuel - 1) as u64) {
                        Ok((node, j, st1)) => Ok((seq![node], j, st1)),
                        Err(f) => Err(f),
                    }
                } else if s == "let"@ {
                    let k = until_semi(toks, i + 1, end);
                    if k >= end {
                        Err(FaultV { kind: ParseError::UnexpectedToken, at: k })
                    } else {
                        let eq = until_eq(toks, i + 1, k);
                        let slot = st.lets.len() as usize;
                        let st1 = SlotsV {
                            lets: st.lets.push(
                                LetInfoV {
                                    pattern: tokens_text(toks, i + 1, eq),
                                    expr: tokens_text(
                                        toks,
                                        if eq < k {
                                            eq + 1
                                        } else {
                                            k
                                        },
                                        k,
                                    ),
                                },
                            ),
                            ..st
                        };
                        match sp_nodes(toks, k + 1, end, ictx, st1, (fuel - 1) as u64) {
                            Err(f) => Err(f),
                            Ok((rest, st2)) => Ok(
                                (seq![NodeV::Scope { slot, body: rest }], end, st2),
                            ),
                        }
                    }
                } else {
                    Err(FaultV { kind: ParseError::UnexpectedToken, at: i })
                }
            },
        }
    }
}

/// A construct opened by `<`: a closing tag, a doctype, a processing
/// instruction, or an open tag with attributes, closed by `>` or `/>`.
pub open spec fn sp_tag(toks: Seq<TokenV>, i: int, end: int, st: SlotsV, fuel: u64) -> Result<
    (Seq<NodeV>, int, SlotsV),
    FaultV,
>
    decreases fuel,
{
    if fuel == 0 {
        Err(FaultV { kind: ParseError::UnexpectedToken, at: i })
    } else if i + 1 >= end {
        Err(FaultV { kind: ParseError::ExpectedIdentifierOrLiteral, at: i + 1 })
    } else if toks[i + 1] == TokenV::Punct('/') {
        match sp_name(toks, i + 2, end) {
            Err(f) => Err(f),
            Ok((name, j)) => {
                if j < end && toks[j] == TokenV::Punct('>') {
                    Ok((seq![NodeV::Literal("</"@ + name + ">"@)], j + 1, st))
                } else {
                    Err(FaultV { kind: ParseError::InvalidClosingTag, at: j })
                }
            },
        }
    } else if toks[i + 1] == TokenV::Punct('!') {
        match sp_name(toks, i + 2, end) {
            Err(f) => Err(f),
            Ok((name, j)) => sp_tag_tail(toks, j, end, "<!"@ + name, st, (fuel - 1) as u64),
        }
    } else if toks[i + 1] == TokenV::Punct('?') {
        match sp_name(toks, i + 2, end) {
            Err(f) => Err(f),
            Ok((name, j)) => match sp_attrs(toks, j, end, st, (fuel - 1) as u64) {
                Err(f) => Err(f),
                Ok((ans, k, st1)) => {
                    if k + 1 < end && toks[k] == TokenV::Punct('?') && toks[k + 1]
                        == TokenV::Punct('>') {
                        Ok(
                            (
                                seq![NodeV::Literal("<?"@ + name)] + ans + seq![
                                    NodeV::Literal("?>"@),
                                ],
                                k + 2,
                                st1,
                            ),
                        )
                    } else {
                        Err(FaultV { kind: ParseError::MissingClosingBracket, at: k })
                    }
                },
            },
        }
    } else {
        match sp_name(toks, i + 1, end) {
            Err(f) => Err(f),
            Ok((name, j)) => sp_tag_tail(toks, j, end, "<"@ + name, st, (fuel - 1) as u64),
        }
    }
}

/// The attributes and closer of an open tag or doctype whose opening text
/// is already known: `>` for an open tag, `/>` (with one space before it)
/// for a self-closing one.
pub open spec fn sp_tag_tail(
    toks: Seq<TokenV>,
    j: int,
    end: int,
    opening: Seq<char>,
    st: SlotsV,
    fuel: u64,
) -> Result<(Seq<NodeV>, int, SlotsV), FaultV>
    decreases fuel,
{
    if fuel == 0 {
        Err(FaultV { kind: ParseError::UnexpectedToken, at: j })
    } else {
        match sp_attrs(toks, j, end, st, (fuel - 1) as u64) {
            Err(f) => Err(f),
            Ok((ans, k, st1)) => {
                if k < end && toks[k] == TokenV::Punct('>') {
                    Ok(
                        (
                            seq![NodeV::Literal(opening)] + ans + seq![NodeV::Literal(">"@)],
                            k + 1,
                            st1,
                        ),
                    )
                } else if k + 1 < end && toks[k] == TokenV::Punct('/') && toks[k + 1]
                    == TokenV::Punct('>') {
                    Ok(
                        (
                            seq![NodeV::Literal(opening)] + ans + seq![NodeV::Literal(" />"@)],
                            k + 2,
                            st1,
                        ),
                    )
                } else {
                    Err(FaultV { kind: ParseError::MissingClosingBracket, at: k })
                }
            },
        }
    }
}

/// Zero or more attributes: a name, optionally `=` and a value. The list
/// ends at the first token that cannot start a name.
pub open spec fn sp_attrs(toks: Seq<TokenV>, i: int, end: int, st: SlotsV, fuel: u64) -> Result<
    (Seq<NodeV>, int, SlotsV),
    FaultV,
>
    decreases fuel,
{
    if fuel == 0 {
        Err(FaultV { kind: ParseError::UnexpectedToken, at: i })
    } else if i < 0 || i >= end {
        Ok((Seq::empty(), i, st))
    } else if toks[i] is Ident || toks[i] is Text {
        match sp_name(toks, i, end) {
            Err(f) => Err(f),
            Ok((aname, j)) => {
                if j < end && toks[j] == TokenV::Punct('=') {
                    match sp_attr_value(toks, j + 1, end, aname, st, (fuel - 1) as u64) {
                        Err(f) => Err(f),
                        Ok((vns, k, st1)) => match sp_attrs(toks, k, end, st1, (fuel - 1) as u64) {
                            Err(f) => Err(f),
                            Ok((rest, m, st2)) => Ok((vns + rest, m, st2)),
                        },
                    }
                } else {
                    match sp_attrs(toks, j, end, st, (fuel - 1) as u64) {
                        Err(f) => Err(f),
                        Ok((rest, m, st2)) => Ok(
                            (seq![NodeV::Literal(" "@ + aname)] + rest, m, st2),
                        ),
                    }
                }
            },
        }
    } else {
        Ok((Seq::empty(), i, st))
    }
}

/// An attribute value after `name=`: a literal inserted raw in quotes, an
/// interpolation escaped as an attribute value, a bracket list of guarded
/// texts, a parenthesized sub-template, or a closure escape hatch.
pub open spec fn sp_attr_value(
    toks: Seq<TokenV>,
    i: int,
    end: int,
    name: Seq<char>,
    st: SlotsV,
    fuel: u64,
) -> Result<(Seq<NodeV>, int, SlotsV), FaultV>
    decreases fuel,
{
    if fuel == 0 || i < 0 || i >= end {
        Err(FaultV { kind: ParseError::UnexpectedToken, at: i })
    } else {
        let open = " "@ + name + "=\""@;
        match toks[i] {
            TokenV::Text(t) => Ok((seq![NodeV::Literal(open + t + "\""@)], i + 1, st)),
            TokenV::Brace(inner) => match sp_interp(inner, i, EscapeCtx::AttrValue, st) {
                Err(f) => Err(f),
                Ok((node, st1)) => Ok(
                    (
                        seq![NodeV::Literal(open)] + seq![node] + seq![NodeV::Literal("\""@)],
                        i + 1,
                        st1,
                    ),
                ),
            },
            TokenV::Bracket(inner) => match sp_pairs(inner, 0, i, st) {
                Err(f) => Err(f),
                Ok((gs, st1)) => Ok(
                    (seq![NodeV::Literal(open)] + gs + seq![NodeV::Literal("\""@)], i + 1, st1),
                ),
            },
            TokenV::Paren(inner) => match sp_nodes(
                inner,
                0,
                inner.len() as int,
                EscapeCtx::AttrValue,
                st,
                (fuel - 1) as u64,
            ) {
                Err(f) => Err(f),
                Ok((ns, st1)) => Ok(
                    (
                        seq![NodeV::Literal(open)] + seq![NodeV::Group(ns)] + seq![
                            NodeV::Literal("\""@),
                        ],
                        i + 1,
                        st1,
                    ),
                ),
            },
            TokenV::Punct(c) => {
                if c == '|' && i + 2 < end && toks[i + 1] is Ident && toks[i + 2] == TokenV::Punct(
                    '|',
                ) {
                    if i + 3 < end && toks[i + 3] is Brace {
                        match toks[i + 3] {
                            TokenV::Brace(b) => {
                                let slot = st.raws.len() as usize;
                                let st1 = SlotsV {
                                    raws: st.raws.push(tokens_text(b, 0, b.len() as int)),
                                    ..st
                                };
                                Ok(
                                    (
                                        seq![NodeV::Literal(open)] + seq![NodeV::Raw { slot }]
                                            + seq![NodeV::Literal("\""@)],
                                        i + 4,
                                        st1,
                                    ),
                                )
                            },
                            _ => Err(FaultV { kind: ParseError::UnexpectedToken, at: i + 3 }),
                        }
                    } else {
                        let k = until_semi(toks, i + 3, end);
                        if k >= end {
                            Err(FaultV { kind: ParseError::UnexpectedToken, at: k })
                        } else {
                            let slot = st.raws.len() as usize;
                            let st1 = SlotsV {
                                raws: st.raws.push(tokens_text(toks, i + 3, k)),
                                ..st
                            };
                            Ok(
                                (
                                    seq![NodeV::Literal(open)] + seq![NodeV::Raw { slot }] + seq![
                                        NodeV::Literal("\""@),
                                    ],
                                    k + 1,
                                    st1,
                                ),
                            )
                        }
                    }
                } else {
                    Err(FaultV { kind: ParseError::UnexpectedToken, at: i })
                }
            },
            _ => Err(FaultV { kind: ParseError::UnexpectedToken, at: i }),
        }
    }
}

/// An `if` chain from the keyword at `i`: the guard is everything up to
/// the body's brace, taken opaquely (an `if let` binding included); each
/// `else if` adds a branch; a final `else` supplies the otherwise body.
pub open spec fn sp_if_chain(
    toks: Seq<TokenV>,
    i: int,
    end: int,
    ictx: EscapeCtx,
    st: SlotsV,
    acc: Seq<BranchV>,
    fuel: u64,
) -> Result<(NodeV, int, SlotsV), FaultV>
    decreases fuel,
{
    if fuel == 0 {
        Err(FaultV { kind: ParseError::UnexpectedToken, at: i })
    } else {
        let j = until_brace(toks, i + 1, end);
        if j >= end {
            Err(FaultV { kind: ParseError::UnexpectedToken, at: j })
        } else {
            match toks[j] {
                TokenV::Brace(b) => {
                    let gslot = st.guards.len() as usize;
                    let st1 = SlotsV { guards: st.guards.push(tokens_text(toks, i + 1, j)), ..st };
                    match sp_nodes(b, 0, b.len() as int, ictx, st1, (fuel - 1) as u64) {
                        Err(f) => Err(f),
                        Ok((bn, st2)) => {
                            let acc2 = acc.push(BranchV { guard: gslot, body: bn });
                            if j + 2 < end && toks[j + 1] == TokenV::Ident("else"@) && toks[j + 2]
                                == TokenV::Ident("if"@) {
                                sp_if_chain(toks, j + 2, end, ictx, st2, acc2, (fuel - 1) as u64)
                            } else if j + 2 < end && toks[j + 1] == TokenV::Ident("else"@) {
                                match toks[j + 2] {
                                    TokenV::Brace(eb) => match sp_nodes(
                                        eb,
                                        0,
                                        eb.len() as int,
                                        ictx,
                                        st2,
                                        (fuel - 1) as u64,
                                    ) {
                                        Err(f) => Err(f),
                                        Ok((en, st3)) => Ok(
                                            (
                                                NodeV::Cond { branches: acc2, otherwise: en },
                                                j + 3,
                                                st3,
                                            ),
                                        ),
                                    },
                                    _ => Err(
                                        FaultV { kind: ParseError::UnexpectedToken, at: j + 2 },
                                    ),
                                }
                            } else if j + 1 < end && toks[j + 1] == TokenV::Ident("else"@) {
                                Err(FaultV { kind: ParseError::UnexpectedToken, at: j + 2 })
                            } else {
                                Ok(
                                    (
                                        NodeV::Cond { branches: acc2, otherwise: Seq::empty() },
                                        j + 1,
                                        st2,
                                    ),
                                )
                            }
                        },
                    }
                },
                _ => Err(FaultV { kind: ParseError::UnexpectedToken, at: j }),
            }
        }
    }
}

/// A `match` from the keyword at `i`: the scrutinee is everything up to
/// the arms' brace, taken opaquely; the arms parse in order.
pub open spec fn sp_match(
    toks: Seq<TokenV>,
    i: int,
    end: int,
    ictx: EscapeCtx,
    st: SlotsV,
    fuel: u64,
) -> Result<(NodeV, int, SlotsV), FaultV>
    decreases fuel,
{
    if fuel == 0 {
        Err(FaultV { kind: ParseError::UnexpectedToken, at: i })
    } else {
        let j = until_brace(toks, i + 1, end);
        if j >= end {
            Err(FaultV { kind: ParseError::UnexpectedToken, at: j })
        } else {
            match toks[j] {
                TokenV::Brace(arms_toks) => match sp_arms(
                    arms_toks,
                    0,
                    i,
                    ictx,
                    st,
                    (fuel - 1) as u64,
                ) {
                    Err(f) => Err(f),
                    Ok((pats, arms, st1)) => {
                        let sel = st1.matches.len() as usize;
                        let st2 = SlotsV {
                            matches: st1.matches.push(
                                MatchInfoV {
                                    scrutinee: tokens_text(toks, i + 1, j),
                                    patterns: pats,
                                },
                            ),
                            ..st1
                        };
                        Ok((NodeV::Match { sel, arms }, j + 1, st2))
                    },
                },
                _ => Err(FaultV { kind: ParseError::UnexpectedToken, at: j }),
            }
        }
    }
}

/// The arms of a match: `pattern => body` pairs, the body either a braced
/// block with an optional trailing comma, or everything up to the next
/// comma.
pub open spec fn sp_arms(
    ts: Seq<TokenV>,
    j: int,
    at: int,
    ictx: EscapeCtx,
    st: SlotsV,
    fuel: u64,
) -> Result<(Seq<Seq<char>>, Seq<NodeV>, SlotsV), FaultV>
    decreases fuel,
{
    if fuel == 0 {
        Err(FaultV { kind: ParseError::UnexpectedToken, at })
    } else {
        let n = ts.len() as int;
        if j < 0 || j >= n {
            Ok((Seq::empty(), Seq::empty(), st))
        } else {
            let k = until_arrow(ts, j, n);
            if k >= n {
                Err(FaultV { kind: ParseError::UnexpectedToken, at })
            } else {
                let pat = tokens_text(ts, j, k);
                let m = if k + 2 > n {
                    n
                } else {
                    k + 2
                };
                if m < n && ts[m] is Brace {
                    match ts[m] {
                        TokenV::Brace(b) => match sp_nodes(
                            b,
                            0,
                            b.len() as int,
                            ictx,
                            st,
                            (fuel - 1) as u64,
                        ) {
                            Err(f) => Err(f),
                            Ok((bn, st1)) => {
                                let next = if m + 1 < n && ts[m + 1] == TokenV::Punct(',') {
                                    m + 2
                                } else {
                                    m + 1
                                };
                                match sp_arms(ts, next, at, ictx, st1, (fuel - 1) as u64) {
                                    Err(f) => Err(f),
                                    Ok((ps, ars, st2)) => Ok(
                                        (
                                            seq![pat] + ps,
                                            seq![NodeV::Group(bn)] + ars,
                                            st2,
                                        ),
                                    ),
                                }
                            },
                        },
                        _ => Err(FaultV { kind: ParseError::UnexpectedToken, at }),
                    }
                } else {
                    let c = until_comma(ts, m, n);
                    match sp_nodes(ts, m, c, ictx, st, (fuel - 1) as u64) {
                        Err(f) => Err(f),
                        Ok((bn, st1)) => {
                            let next = if m <= c && c < n {
                                c + 1
                            } else if c >= n {
                                n
                            } else {
                                m
                            };
                            match sp_arms(ts, next, at, ictx, st1, (fuel - 1) as u64) {
                                Err(f) => Err(f),
                                Ok((ps, ars, st2)) => Ok(
                                    (seq![pat] + ps, seq![NodeV::Group(bn)] + ars, st2),
                                ),
                            }
                        },
                    }
                }
            }
        }
    }
}

/// A `for` loop from the keyword at `i`: the binder pattern up to `in` and
/// the iterable up to the body's brace, both taken opaquely.
pub open spec fn sp_for(
    toks: Seq<TokenV>,
    i: int,
    end: int,
    ictx: EscapeCtx,
    st: SlotsV,
    fuel: u64,
) -> Result<(NodeV, int, SlotsV), FaultV>
    decreases fuel,
{
    if fuel == 0 {
        Err(FaultV { kind: ParseError::UnexpectedToken, at: i })
    } else {
        let p = until_in(toks, i + 1, end);
        if p >= end {
            Err(FaultV { kind: ParseError::UnexpectedToken, at: p })
        } else {
            let j = until_brace(toks, p + 1, end);
            if j >= end {
                Err(FaultV { kind: ParseError::UnexpectedToken, at: j })
            } else {
                match toks[j] {
                    TokenV::Brace(b) => match sp_nodes(
                        b,
                        0,
                        b.len() as int,
                        ictx,
                        st,
                        (fuel - 1) as u64,
                    ) {
                        Err(f) => Err(f),
                        Ok((bn, st1)) => {
                            let slot = st1.loops.len() as usize;
                            let st2 = SlotsV {
                                loops: st1.loops.push(
                                    LoopInfoV {
                                        pattern: tokens_text(toks, i + 1, p),
                                        iterable: tokens_text(toks, p + 1, j),
                                    },
                                ),
                                ..st1
                            };
                            Ok((NodeV::Loop { slot, body: bn }, j + 1, st2))
                        },
                    },
                    _ => Err(FaultV { kind: ParseError::UnexpectedToken, at: j }),
                }
            }
        }
    }
}

/// An escape hatch at text position: `|name|` followed by a braced block,
/// or a statement up to `;`. The body is host code, captured opaquely; at
/// render time its output is written with no escaping.
pub open spec fn sp_hatch(toks: Seq<TokenV>, i: int, end: int, st: SlotsV) -> Result<
    (Seq<NodeV>, int, SlotsV),
    FaultV,
> {
    if i + 2 < end && toks[i + 1] is Ident && toks[i + 2] == TokenV::Punct('|') {
        if i + 3 < end && toks[i + 3] is Brace {
            match toks[i + 3] {
                TokenV::Brace(b) => {
                    let slot = st.raws.len() as usize;
                    let st1 = SlotsV { raws: st.raws.push(tokens_text(b, 0, b.len() as int)), ..st };
                    Ok((seq![NodeV::Raw { slot }], i + 4, st1))
                },
                _ => Err(FaultV { kind: ParseError::UnexpectedToken, at: i + 3 }),
            }
        } else {
            let k = until_semi(toks, i + 3, end);
            if k >= end {
                Err(FaultV { kind: ParseError::UnexpectedToken, at: k })
            } else {
                let slot = st.raws.len() as usize;
                let st1 = SlotsV { raws: st.raws.push(tokens_text(toks, i + 3, k)), ..st };
                Ok((seq![NodeV::Raw { slot }], k + 1, st1))
            }
        }
    } else {
        Err(FaultV { kind: ParseError::UnexpectedToken, at: i })
    }
}

/// The index of the first brace group in `[i, end)`, or `end`.
fn p_until_brace(toks: &Vec<Token>, i: usize, end: usize) -> (r: usize)
    requires
        i <= end,
        end <= toks@.len(),
    ensures
        r as int == until_brace(tokens_view(toks@), i as int, end as int),
        i <= r <= end,
    decreases end - i,
{
    proof {
        lemma_tokens_view_index(toks@);
    }
    if i >= end {
        end
    } else {
        match &toks[i] {
            Token::Brace(_) => i,
            _ => p_until_brace(toks, i + 1, end),
        }
    }
}

/// The index of the first `in` keyword in `[i, end)`, or `end`.
fn p_until_in(toks: &Vec<Token>, i: usize, end: usize) -> (r: usize)
    requires
        i <= end,
        end <= toks@.len(),
    ensures
        r as int == until_in(tokens_view(toks@), i as int, end as int),
        i <= r <= end,
    decreases end - i,
{
    proof {
        lemma_tokens_view_index(toks@);
    }
    if i >= end {
        end
    } else {
        let hit = match &toks[i] {
            Token::Ident(s) => str_eq(s.as_str(), "in"),
            _ => false,
        };
        if hit {
            i
        } else {
            p_until_in(toks, i + 1, end)
        }
    }
}

/// The index of the first `;` in `[i, end)`, or `end`.
fn p_until_semi(toks: &Vec<Token>, i: usize, end: usize) -> (r: usize)
    requires
        i <= end,
        end <= toks@.len(),
    ensures
        r as int == until_semi(tokens_view(toks@), i as int, end as int),
        i <= r <= end,
    decreases end - i,
{
    proof {
        lemma_tokens_view_index(toks@);
    }
    if i >= end {
        end
    } else {
        let hit = match &toks[i] {
            Token::Punct(c) => *c == ';',
            _ => false,
        };
        if hit {
            i
        } else {
            p_until_semi(toks, i + 1, end)
        }
    }
}

/// The index of the first `,` in `[i, end)`, or `end`.
fn p_until_comma(toks: &Vec<Token>, i: usize, end: usize) -> (r: usize)
    requires
        i <= end,
        end <= toks@.len(),
    ensures
        r as int == until_comma(tokens_view(toks@), i as int, end as int),
        i <= r <= end,
    decreases end - i,
{
    proof {
        lemma_tokens_view_index(toks@);
    }
    if i >= end {
        end
    } else {
        let hit = match &toks[i] {
            Token::Punct(c) => *c == ',',
            _ => false,
        };
        if hit {
            i
        } else {
            p_until_comma(toks, i + 1, end)
        }
    }
}

/// The index of the first `=>` in `[i, end)`, or `end`.
fn p_until_arrow(toks: &Vec<Token>, i: usize, end: usize) -> (r: usize)
    requires
        i <= end,
        end <= toks@.len(),
    ensures
        r as int == until_arrow(tokens_view(toks@), i as int, end as int),
        i <= r <= end,
    decreases end - i,
{
    proof {
        lemma_tokens_view_index(toks@);
    }
    if i >= end {
        end
    } else {
        let eq = match &toks[i] {
            Token::Punct(c) => *c == '=',
            _ => false,
        };
        let gt = if eq && end - i > 1 {
            match &toks[i + 1] {
                Token::Punct(c) => *c == '>',
                _ => false,
            }
        } else {
            false
        };
        if gt {
            i
        } else {
            p_until_arrow(toks, i + 1, end)
        }
    }
}

/// The index of the first `;` or `:` in `[i, end)`, or `end`.
fn p_find_sep(toks: &Vec<Token>, i: usize, end: usize) -> (r: usize)
    requires
        i <= end,
        end <= toks@.len(),
    ensures
        r as int == find_sep(tokens_view(toks@), i as int, end as int),
        i <= r <= end,
    decreases end - i,
{
    proof {
        lemma_tokens_view_index(toks@);
    }
    if i >= end {
        end
    } else {
        let hit = match &toks[i] {
            Token::Punct(c) => *c == ';' || *c == ':',
            _ => false,
        };
        if hit {
            i
        } else {
            p_find_sep(toks, i + 1, end)
        }
    }
}

/// The index of the first `=` in `[i, end)`, or `end`.
fn p_until_eq(toks: &Vec<Token>, i: usize, end: usize) -> (r: usize)
    requires
        i <= end,
        end <= toks@.len(),
    ensures
        r as int == until_eq(tokens_view(toks@), i as int, end as int),
        i <= r <= end,
    decreases end - i,
{
    proof {
        lemma_tokens_view_index(toks@);
    }
    if i >= end {
        end
    } else {
        let hit = match &toks[i] {
            Token::Punct(c) => *c == '=',
            _ => false,
        };
        if hit {
            i
        } else {
            p_until_eq(toks, i + 1, end)
        }
    }
}

/// The concatenated text and end of the run of text tokens starting at `i`.
fn p_text_run(toks: &Vec<Token>, i: usize, end: usize) -> (r: (String, usize))
    requires
        i <= end,
        end <= toks@.len(),
    ensures
        r.0@ == text_run(tokens_view(toks@), i as int, end as int),
        r.1 as int == text_run_end(tokens_view(toks@), i as int, end as int),
        i <= r.1 <= end,
    decreases end - i,
{
    proof {
        lemma_tokens_view_index(toks@);
    }
    if i >= end {
        return (String::new(), i);
    }
    match &toks[i] {
        Token::Text(t) => {
            let (rest, j) = p_text_run(toks, i + 1, end);
            let mut s = t.clone();
            s.append(rest.as_str());
            (s, j)
        },
        _ => (String::new(), i),
    }
}

/// Appends the opaque text of one token.
fn p_token_text(t: &Token, out: &mut String)
    ensures
        final(out)@ == old(out)@ + token_text(t@),
    decreases t, 0int,
{
    match t {
        Token::Ident(s) => out.append(s.as_str()),
        Token::Text(s) => out.append(s.as_str()),
        Token::Punct(c) => push_char(out, *c),
        Token::Brace(ts) => {
            let ghost base = out@;
            proof {
                lemma_tokens_view_index(ts@);
            }
            out.append("{");
            p_tokens_text(ts, 0, ts.len(), out);
            out.append("}");
            proof {
                assert(out@ =~= base + ("{"@ + tokens_text(tokens_view(ts@), 0, ts@.len() as int)
                    + "}"@));
            }
        },
        Token::Paren(ts) => {
            let ghost base = out@;
            proof {
                lemma_tokens_view_index(ts@);
            }
            out.append("(");
            p_tokens_text(ts, 0, ts.len(), out);
            out.append(")");
            proof {
                assert(out@ =~= base + ("("@ + tokens_text(tokens_view(ts@), 0, ts@.len() as int)
                    + ")"@));
            }
        },
        Token::Bracket(ts) => {
            let ghost base = out@;
            proof {
                lemma_tokens_view_index(ts@);
            }
            out.append("[");
            p_tokens_text(ts, 0, ts.len(), out);
            out.append("]");
            proof {
                assert(out@ =~= base + ("["@ + tokens_text(tokens_view(ts@), 0, ts@.len() as int)
                    + "]"@));
            }
        },
        Token::Comment(ts) => {
            proof {
                lemma_tokens_view_index(ts@);
            }
            p_tokens_text(ts, 0, ts.len(), out);
        },
        Token::CharData(ts) => {
            proof {
                lemma_tokens_view_index(ts@);
            }
            p_tokens_text(ts, 0, ts.len(), out);
        },
    }
}

/// Appends the opaque text of the tokens in `[i, end)`.
fn p_tokens_text(toks: &Vec<Token>, i: usize, end: usize, out: &mut String)
    requires
        i <= end,
        end <= toks@.len(),
    ensures
        final(out)@ == old(out)@ + tokens_text(tokens_view(toks@), i as int, end as int),
    decreases toks, end - i,
{
    proof {
        lemma_tokens_view_index(toks@);
    }
    if i >= end {
        proof {
            assert(old(out)@ + Seq::<char>::empty() =~= old(out)@);
        }
    } else {
        let ghost base = out@;
        p_token_text(&toks[i], out);
        p_tokens_text(toks, i + 1, end, out);
        proof {
            assert(out@ =~= base + (token_text(tokens_view(toks@)[i as int]) + tokens_text(
                tokens_view(toks@),
                i + 1,
                end as int,
            )));
        }
    }
}

/// The opaque text of the tokens in `[i, end)` as a new string.
fn p_text_of(toks: &Vec<Token>, i: usize, end: usize) -> (r: String)
    requires
        i <= end,
        end <= toks@.len(),
    ensures
        r@ == tokens_text(tokens_view(toks@), i as int, end as int),
{
    let mut s = String::new();
    p_tokens_text(toks, i, end, &mut s);
    proof {
        assert(Seq::<char>::empty() + tokens_text(tokens_view(toks@), i as int, end as int)
            =~= tokens_text(tokens_view(toks@), i as int, end as int));
    }
    s
}

/// Name continuation: fragments joined by `-` or `.`.
fn p_name_cont(toks: &Vec<Token>, i: usize, end: usize, acc: String) -> (r: (String, usize))
    requires
        i <= end,
        end <= toks@.len(),
    ensures
        ({
            let sp = sp_name_cont(tokens_view(toks@), i as int, end as int, acc@);
            r.0@ == sp.0 && r.1 as int == sp.1 && r.1 <= end
        }),
    decreases end - i,
{
    proof {
        lemma_tokens_view_index(toks@);
    }
    if i >= end || end - i < 2 {
        (acc, i)
    } else {
        let sep = match &toks[i] {
            Token::Punct(c) => {
                if *c == '-' || *c == '.' {
                    Some(*c)
                } else {
                    None
                }
            },
            _ => None,
        };
        match sep {
            Some(c) => match &toks[i + 1] {
                Token::Ident(f) => {
                    let mut acc = acc;
                    push_char(&mut acc, c);
                    acc.append(f.as_str());
                    p_name_cont(toks, i + 2, end, acc)
                },
                _ => (acc, i),
            },
            None => (acc, i),
        }
    }
}

/// A possibly-namespaced name.
fn p_name(toks: &Vec<Token>, i: usize, end: usize) -> (r: Result<(String, usize), ParseFault>)
    requires
        i <= end,
        end <= toks@.len(),
    ensures
        ({
            let sp = sp_name(tokens_view(toks@), i as int, end as int);
            match r {
                Ok((s, j)) => sp == Ok::<(Seq<char>, int), FaultV>((s@, j as int)) && j <= end,
                Err(f) => sp == Err::<(Seq<char>, int), FaultV>(f@),
            }
        }),
{
    proof {
        lemma_tokens_view_index(toks@);
    }
    if i >= end {
        return Err(ParseFault { kind: ParseError::ExpectedIdentifierOrLiteral, at: i });
    }
    match &toks[i] {
        Token::Text(s) => Ok((s.clone(), i + 1)),
        Token::Ident(f) => {
            if end - i > 2 {
                let sep = match &toks[i + 1] {
                    Token::Punct(c) => {
                        if *c == ':' || *c == '-' || *c == '.' {
                            Some(*c)
                        } else {
                            None
                        }
                    },
                    _ => None,
                };
                match sep {
                    Some(c) => match &toks[i + 2] {
                        Token::Ident(g) => {
                            let mut acc = f.clone();
                            push_char(&mut acc, c);
                            acc.append(g.as_str());
                            Ok(p_name_cont(toks, i + 3, end, acc))
                        },
                        _ => Ok((f.clone(), i + 1)),
                    },
                    None => Ok((f.clone(), i + 1)),
                }
            } else {
                Ok((f.clone(), i + 1))
            }
        },
        _ => Err(ParseFault { kind: ParseError::ExpectedIdentifierOrLiteral, at: i }),
    }
}

/// True when token `i` is the identifier `w`.
fn ident_at(toks: &Vec<Token>, i: usize, w: &str) -> (r: bool)
    requires
        i < toks@.len(),
    ensures
        r == (tokens_view(toks@)[i as int] == TokenV::Ident(w@)),
{
    proof {
        lemma_tokens_view_index(toks@);
    }
    match &toks[i] {
        Token::Ident(s) => str_eq(s.as_str(), w),
        _ => false,
    }
}

/// True when token `i` is the punctuation character `c`.
fn tok_punct_at(toks: &Vec<Token>, i: usize, c: char) -> (r: bool)
    requires
        i < toks@.len(),
    ensures
        r == (tokens_view(toks@)[i as int] == TokenV::Punct(c)),
{
    proof {
        lemma_tokens_view_index(toks@);
    }
    match &toks[i] {
        Token::Punct(p) => *p == c,
        _ => false,
    }
}

/// The concatenation of two strings.
fn lit2(a: &str, b: &str) -> (r: String)
    ensures
        r@ == a@ + b@,
{
    let mut s = String::new();
    s.append(a);
    s.append(b);
    proof {
        assert(s@ =~= a@ + b@);
    }
    s
}

/// The concatenation of three strings.
fn lit3(a: &str, b: &str, c: &str) -> (r: String)
    ensures
        r@ == a@ + b@ + c@,
{
    let mut s = String::new();
    s.append(a);
    s.append(b);
    s.append(c);
    proof {
        assert(s@ =~= a@ + b@ + c@);
    }
    s
}

/// An interpolation from a braced group; the new slot is appended to the
/// tables in place.
fn p_interp(inner: &Vec<Token>, at: usize, ictx: EscapeCtx, st: &mut Slots) -> (r: Result<
    EmitNode,
    ParseFault,
>)
    ensures
        ({
            let sp = sp_interp(tokens_view(inner@), at as int, ictx, old(st)@);
            match r {
                Ok(node) => sp is Ok && node@ == sp->Ok_0.0 && final(st)@ == sp->Ok_0.1,
                Err(f) => sp == Err::<(NodeV, SlotsV), FaultV>(f@) && *final(st) == *old(st),
            }
        }),
{
    proof {
        lemma_tokens_view_index(inner@);
    }
    let n = inner.len();
    let k = p_find_sep(inner, 0, n);
    if k == 0 {
        return Err(ParseFault { kind: ParseError::UnexpectedToken, at });
    }
    let expr = p_text_of(inner, 0, k);
    let fspec = if k < n {
        Some(p_text_of(inner, k + 1, n))
    } else {
        None
    };
    let slot = st.values.len();
    let info = InterpInfo { expr, format_spec: fspec };
    let ghost infov = info@;
    st.values.push(info);
    proof {
        assert(st@.values =~= old(st)@.values.push(infov));
        assert(st@ == (SlotsV { values: old(st)@.values.push(infov), ..old(st)@ }));
    }
    Ok(EmitNode::Interp { slot, ctx: ictx })
}

/// The body pieces of a comment or CDATA block, appended to `out`.
fn p_frags(
    body: &Vec<Token>,
    j: usize,
    at: usize,
    ctx: EscapeCtx,
    st: &mut Slots,
    out: &mut Vec<EmitNode>,
) -> (r: Result<(), ParseFault>)
    requires
        j <= body@.len(),
    ensures
        ({
            let sp = sp_frags(tokens_view(body@), j as int, at as int, ctx, old(st)@);
            match r {
                Ok(_) => sp is Ok && nodes_view(final(out)@) == nodes_view(old(out)@)
                    + sp->Ok_0.0 && final(st)@ == sp->Ok_0.1,
                Err(f) => sp == Err::<(Seq<NodeV>, SlotsV), FaultV>(f@),
            }
        }),
    decreases body@.len() - j,
{
    proof {
        lemma_tokens_view_index(body@);
    }
    if j >= body.len() {
        proof {
            assert(nodes_view(out@) + Seq::<NodeV>::empty() =~= nodes_view(out@));
        }
        return Ok(());
    }
    match &body[j] {
        Token::Text(t) => {
            let mut lit = String::new();
            match ctx {
                EscapeCtx::Comment => escape_comment_push(t.as_str(), &mut lit),
                _ => escape_cdata_push(t.as_str(), &mut lit),
            }
            proof {
                assert(lit@ =~= if ctx is Comment {
                    escape_comment(t@)
                } else {
                    escape_cdata(t@)
                });
            }
            let node = EmitNode::Literal(lit);
            let ghost nv = node@;
            let ghost base = nodes_view(out@);
            proof {
                lemma_nodes_view_push(out@, node);
            }
            out.push(node);
            let ghost mid = st@;
            match p_frags(body, j + 1, at, ctx, st, out) {
                Ok(_) => {
                    proof {
                        let sp1 = sp_frags(tokens_view(body@), j + 1, at as int, ctx, mid);
                        assert(base.push(nv) + sp1->Ok_0.0 =~= base + (seq![nv] + sp1->Ok_0.0));
                    }
                    Ok(())
                },
                Err(f) => Err(f),
            }
        },
        Token::Brace(inner) => {
            let node = match p_interp(inner, at, ctx, st) {
                Ok(n) => n,
                Err(f) => {
                    return Err(f);
                },
            };
            let ghost nv = node@;
            let ghost base = nodes_view(out@);
            proof {
                lemma_nodes_view_push(out@, node);
            }
            out.push(node);
            let ghost mid = st@;
            match p_frags(body, j + 1, at, ctx, st, out) {
                Ok(_) => {
                    proof {
                        let sp1 = sp_frags(tokens_view(body@), j + 1, at as int, ctx, mid);
                        assert(base.push(nv) + sp1->Ok_0.0 =~= base + (seq![nv] + sp1->Ok_0.0));
                    }
                    Ok(())
                },
                Err(f) => Err(f),
            }
        },
        _ => Err(ParseFault { kind: ParseError::UnexpectedToken, at }),
    }
}

proof fn lemma_nodes_wf_single(n: NodeV, st: SlotsV)
    requires
        node_wf(n, st),
    ensures
        nodes_wf(seq![n], st),
{
    assert(seq![n][0] == n);
    assert(seq![n].drop_first() =~= Seq::<NodeV>::empty());
    assert(nodes_wf(Seq::<NodeV>::empty(), st));
}

proof fn lemma_sp_interp_wf(inner: Seq<TokenV>, at: int, ictx: EscapeCtx, st: SlotsV)
    ensures
        sp_interp(inner, at, ictx, st) is Ok ==> slots_extend(
            st,
            sp_interp(inner, at, ictx, st)->Ok_0.1,
        ) && node_wf(sp_interp(inner, at, ictx, st)->Ok_0.0, sp_interp(inner, at, ictx, st)->Ok_0.1),
{
}

proof fn lemma_sp_frags_wf(body: Seq<TokenV>, j: int, at: int, ctx: EscapeCtx, st: SlotsV)
    ensures
        sp_frags(body, j, at, ctx, st) is Ok ==> slots_extend(
            st,
            sp_frags(body, j, at, ctx, st)->Ok_0.1,
        ) && nodes_wf(sp_frags(body, j, at, ctx, st)->Ok_0.0, sp_frags(body, j, at, ctx, st)->Ok_0.1),
    decreases body.len() - j,
{
    if j < 0 || j >= body.len() {
    } else {
        match body[j] {
            TokenV::Text(t) => {
                let lit = if ctx is Comment {
                    escape_comment(t)
                } else {
                    escape_cdata(t)
                };
                lemma_sp_frags_wf(body, j + 1, at, ctx, st);
                match sp_frags(body, j + 1, at, ctx, st) {
                    Ok((rest, st1)) => {
                        lemma_nodes_wf_single(NodeV::Literal(lit), st1);
                        lemma_nodes_wf_concat(seq![NodeV::Literal(lit)], rest, st1);
                    },
                    Err(_) => {},
                }
            },
            TokenV::Brace(inner) => {
                lemma_sp_interp_wf(inner, at, ctx, st);
                match sp_interp(inner, at, ctx, st) {
                    Ok((node, st1)) => {
                        lemma_sp_frags_wf(body, j + 1, at, ctx, st1);
                        match sp_frags(body, j + 1, at, ctx, st1) {
                            Ok((rest, st2)) => {
                                lemma_node_wf_mono(node, st1, st2);
                                lemma_nodes_wf_single(node, st2);
                                lemma_nodes_wf_concat(seq![node], rest, st2);
                            },
                            Err(_) => {},
                        }
                    },
                    Err(_) => {},
                }
            },
            _ => {},
        }
    }
}

proof fn lemma_sp_pairs_wf(inner: Seq<TokenV>, j: int, at: int, st: SlotsV)
    ensures
        sp_pairs(inner, j, at, st) is Ok ==> slots_extend(st, sp_pairs(inner, j, at, st)->Ok_0.1)
            && nodes_wf(sp_pairs(inner, j, at, st)->Ok_0.0, sp_pairs(inner, j, at, st)->Ok_0.1),
    decreases inner.len() - j,
{
    let n = inner.len() as int;
    if j < 0 || j >= n {
    } else {
        match inner[j] {
            TokenV::Text(t) => {
                if j + 1 < n && inner[j + 1] == TokenV::Punct(':') {
                    let k = until_comma(inner, j + 2, n);
                    let slot = st.guards.len() as usize;
                    let st1 = SlotsV {
                        guards: st.guards.push(tokens_text(inner, j + 2, k)),
                        ..st
                    };
                    let next = if j + 2 <= k && k < n {
                        k + 1
                    } else if k >= n {
                        n
                    } else {
                        j + 2
                    };
                    lemma_sp_pairs_wf(inner, next, at, st1);
                    match sp_pairs(inner, next, at, st1) {
                        Ok((rest, st2)) => {
                            let g = NodeV::Gated { guard: slot, text: t };
                            lemma_node_wf_mono(g, st1, st2);
                            lemma_nodes_wf_single(g, st2);
                            lemma_nodes_wf_concat(seq![g], rest, st2);
                        },
                        Err(_) => {},
                    }
                }
            },
            _ => {},
        }
    }
}

proof fn lemma_sp_hatch_wf(toks: Seq<TokenV>, i: int, end: int, st: SlotsV)
    ensures
        sp_hatch(toks, i, end, st) is Ok ==> slots_extend(st, sp_hatch(toks, i, end, st)->Ok_0.2)
            && nodes_wf(sp_hatch(toks, i, end, st)->Ok_0.0, sp_hatch(toks, i, end, st)->Ok_0.2),
{
    match sp_hatch(toks, i, end, st) {
        Ok((ns, j, st1)) => {
            assert(ns.len() == 1 && ns[0] is Raw);
            lemma_nodes_wf_single(ns[0], st1);
            assert(ns =~= seq![ns[0]]);
        },
        Err(_) => {},
    }
}

proof fn lemma_sp_nodes_wf(
    toks: Seq<TokenV>,
    i: int,
    end: int,
    ictx: EscapeCtx,
    st: SlotsV,
    fuel: u64,
)
    ensures
        sp_nodes(toks, i, end, ictx, st, fuel) is Ok ==> slots_extend(
            st,
            sp_nodes(toks, i, end, ictx, st, fuel)->Ok_0.1,
        ) && nodes_wf(
            sp_nodes(toks, i, end, ictx, st, fuel)->Ok_0.0,
            sp_nodes(toks, i, end, ictx, st, fuel)->Ok_0.1,
        ),
    decreases fuel, 0int,
{
    if fuel == 0 || i >= end {
    } else {
        lemma_sp_item_wf(toks, i, end, ictx, st, (fuel - 1) as u64);
        match sp_item(toks, i, end, ictx, st, (fuel - 1) as u64) {
            Ok((ns, j, st1)) => {
                lemma_sp_nodes_wf(toks, j, end, ictx, st1, (fuel - 1) as u64);
                match sp_nodes(toks, j, end, ictx, st1, (fuel - 1) as u64) {
                    Ok((rest, st2)) => {
                        lemma_nodes_wf_mono(ns, st1, st2);
                        lemma_nodes_wf_concat(ns, rest, st2);
                    },
                    Err(_) => {},
                }
            },
            Err(_) => {},
        }
    }
}

proof fn lemma_sp_item_wf(
    toks: Seq<TokenV>,
    i: int,
    end: int,
    ictx: EscapeCtx,
    st: SlotsV,
    fuel: u64,
)
    ensures
        sp_item(toks, i, end, ictx, st, fuel) is Ok ==> slots_extend(
            st,
            sp_item(toks, i, end, ictx, st, fuel)->Ok_0.2,
        ) && nodes_wf(
            sp_item(toks, i, end, ictx, st, fuel)->Ok_0.0,
            sp_item(toks, i, end, ictx, st, fuel)->Ok_0.2,
        ),
    decreases fuel, 1int,
{
    if fuel == 0 || i < 0 || i >= end {
    } else {
        match toks[i] {
            TokenV::Text(t) => {
                lemma_nodes_wf_single(NodeV::Literal(text_run(toks, i, end)), st);
            },
            TokenV::Brace(inner) => {
                lemma_sp_interp_wf(inner, i, ictx, st);
                match sp_interp(inner, i, ictx, st) {
                    Ok((node, st1)) => {
                        lemma_nodes_wf_single(node, st1);
                    },
                    Err(_) => {},
                }
            },
            TokenV::Paren(inner) => {
                lemma_sp_nodes_wf(inner, 0, inner.len() as int, ictx, st, (fuel - 1) as u64);
                match sp_nodes(inner, 0, inner.len() as int, ictx, st, (fuel - 1) as u64) {
                    Ok((ns, st1)) => {
                        lemma_nodes_wf_single(NodeV::Group(ns), st1);
                    },
                    Err(_) => {},
                }
            },
            TokenV::Bracket(_) => {},
            TokenV::Comment(body) => {
                lemma_sp_frags_wf(body, 0, i, EscapeCtx::Comment, st);
                match sp_frags(body, 0, i, EscapeCtx::Comment, st) {
                    Ok((ns, st1)) => {
                        lemma_nodes_wf_single(NodeV::Literal("<!-- "@), st1);
                        lemma_nodes_wf_single(NodeV::Literal(" -->"@), st1);
                        lemma_nodes_wf_concat(seq![NodeV::Literal("<!-- "@)], ns, st1);
                        lemma_nodes_wf_concat(
                            seq![NodeV::Literal("<!-- "@)] + ns,
                            seq![NodeV::Literal(" -->"@)],
                            st1,
                        );
                    },
                    Err(_) => {},
                }
            },
            TokenV::CharData(body) => {
                lemma_sp_frags_wf(body, 0, i, EscapeCtx::CharData, st);
                match sp_frags(body, 0, i, EscapeCtx::CharData, st) {
                    Ok((ns, st1)) => {
                        lemma_nodes_wf_single(NodeV::Literal("<![CDATA["@), st1);
                        lemma_nodes_wf_single(NodeV::Literal("]]>"@), st1);
                        lemma_nodes_wf_concat(seq![NodeV::Literal("<![CDATA["@)], ns, st1);
                        lemma_nodes_wf_concat(
                            seq![NodeV::Literal("<![CDATA["@)] + ns,
                            seq![NodeV::Literal("]]>"@)],
                            st1,
                        );
                    },
                    Err(_) => {},
                }
            },
            TokenV::Punct(c) => {
                if c == '<' {
                    lemma_sp_tag_wf(toks, i, end, st, (fuel - 1) as u64);
                } else if c == '|' {
                    lemma_sp_hatch_wf(toks, i, end, st);
                }
            },
            TokenV::Ident(s) => {
                if s == "if"@ {
                    lemma_sp_if_chain_wf(
                        toks,
                        i,
                        end,
                        ictx,
                        st,
                        Seq::empty(),
                        (fuel - 1) as u64,
                    );
                    match sp_if_chain(toks, i, end, ictx, st, Seq::empty(), (fuel - 1) as u64) {
                        Ok((node, j, st1)) => {
                            lemma_nodes_wf_single(node, st1);
                        },
                        Err(_) => {},
                    }
                } else if s == "match"@ {
                    lemma_sp_match_wf(toks, i, end, ictx, st, (fuel - 1) as u64);
                    match sp_match(toks, i, end, ictx, st, (fuel - 1) as u64) {
                        Ok((node, j, st1)) => {
                            lemma_nodes_wf_single(node, st1);
                        },
                        Err(_) => {},
                    }
                } else if s == "for"@ {
                    lemma_sp_for_wf(toks, i, end, ictx, st, (fuel - 1) as u64);
                    match sp_for(toks, i, end, ictx, st, (fuel - 1) as u64) {
                        Ok((node, j, st1)) => {
                            lemma_nodes_wf_single(node, st1);
                        },
                        Err(_) => {},
                    }
                } else if s == "let"@ {
                    let k = until_semi(toks, i + 1, end);
                    if k < end {
                        let eq = until_eq(toks, i + 1, k);
                        let slot = st.lets.len() as usize;
                        let st1 = SlotsV {
                            lets: st.lets.push(
                                LetInfoV {
                                    pattern: tokens_text(toks, i + 1, eq),
                                    expr: tokens_text(
                                        toks,
                                        if eq < k {
                                            eq + 1
                                        } else {
                                            k
                                        },
                                        k,
                                    ),
                                },
                            ),
                            ..st
                        };
                        lemma_sp_nodes_wf(toks, k + 1, end, ictx, st1, (fuel - 1) as u64);
                        match sp_nodes(toks, k + 1, end, ictx, st1, (fuel - 1) as u64) {
                            Ok((rest, st2)) => {
                                lemma_nodes_wf_single(NodeV::Scope { slot, body: rest }, st2);
                            },
                            Err(_) => {},
                        }
                    }
                }
            },
        }
    }
}

proof fn lemma_sp_tag_wf(toks: Seq<TokenV>, i: int, end: int, st: SlotsV, fuel: u64)
    ensures
        sp_tag(toks, i, end, st, fuel) is Ok ==> slots_extend(
            st,
            sp_tag(toks, i, end, st, fuel)->Ok_0.2,
        ) && nodes_wf(sp_tag(toks, i, end, st, fuel)->Ok_0.0, sp_tag(toks, i, end, st, fuel)->Ok_0.2),
    decreases fuel, 1int,
{
    if fuel == 0 || i + 1 >= end {
    } else if toks[i + 1] == TokenV::Punct('/') {
        match sp_name(toks, i + 2, end) {
            Ok((name, j)) => {
                if j < end && toks[j] == TokenV::Punct('>') {
                    lemma_nodes_wf_single(NodeV::Literal("</"@ + name + ">"@), st);
                }
            },
            Err(_) => {},
        }
    } else if toks[i + 1] == TokenV::Punct('!') {
        match sp_name(toks, i + 2, end) {
            Ok((name, j)) => {
                lemma_sp_tag_tail_wf(toks, j, end, "<!"@ + name, st, (fuel - 1) as u64);
            },
            Err(_) => {},
        }
    } else if toks[i + 1] == TokenV::Punct('?') {
        match sp_name(toks, i + 2, end) {
            Ok((name, j)) => {
                lemma_sp_attrs_wf(toks, j, end, st, (fuel - 1) as u64);
                match sp_attrs(toks, j, end, st, (fuel - 1) as u64) {
                    Ok((ans, k, st1)) => {
                        if k + 1 < end && toks[k] == TokenV::Punct('?') && toks[k + 1]
                            == TokenV::Punct('>') {
                            lemma_nodes_wf_single(NodeV::Literal("<?"@ + name), st1);
                            lemma_nodes_wf_single(NodeV::Literal("?>"@), st1);
                            lemma_nodes_wf_concat(seq![NodeV::Literal("<?"@ + name)], ans, st1);
                            lemma_nodes_wf_concat(
                                seq![NodeV::Literal("<?"@ + name)] + ans,
                                seq![NodeV::Literal("?>"@)],
                                st1,
                            );
                        }
                    },
                    Err(_) => {},
                }
            },
            Err(_) => {},
        }
    } else {
        match sp_name(toks, i + 1, end) {
            Ok((name, j)) => {
                lemma_sp_tag_tail_wf(toks, j, end, "<"@ + name, st, (fuel - 1) as u64);
            },
            Err(_) => {},
        }
    }
}

proof fn lemma_sp_tag_tail_wf(
    toks: Seq<TokenV>,
    j: int,
    end: int,
    opening: Seq<char>,
    st: SlotsV,
    fuel: u64,
)
    ensures
        sp_tag_tail(toks, j, end, opening, st, fuel) is Ok ==> slots_extend(
            st,
            sp_tag_tail(toks, j, end, opening, st, fuel)->Ok_0.2,
        ) && nodes_wf(
            sp_tag_tail(toks, j, end, opening, st, fuel)->Ok_0.0,
            sp_tag_tail(toks, j, end, opening, st, fuel)->Ok_0.2,
        ),
    decreases fuel, 0int,
{
    if fuel == 0 {
    } else {
        lemma_sp_attrs_wf(toks, j, end, st, (fuel - 1) as u64);
        match sp_attrs(toks, j, end, st, (fuel - 1) as u64) {
            Ok((ans, k, st1)) => {
                lemma_nodes_wf_single(NodeV::Literal(opening), st1);
                if k < end && toks[k] == TokenV::Punct('>') {
                    lemma_nodes_wf_single(NodeV::Literal(">"@), st1);
                    lemma_nodes_wf_concat(seq![NodeV::Literal(opening)], ans, st1);
                    lemma_nodes_wf_concat(
                        seq![NodeV::Literal(opening)] + ans,
                        seq![NodeV::Literal(">"@)],
                        st1,
                    );
                } else if k + 1 < end && toks[k] == TokenV::Punct('/') && toks[k + 1]
                    == TokenV::Punct('>') {
                    lemma_nodes_wf_single(NodeV::Literal(" />"@), st1);
                    lemma_nodes_wf_concat(seq![NodeV::Literal(opening)], ans, st1);
                    lemma_nodes_wf_concat(
                        seq![NodeV::Literal(opening)] + ans,
                        seq![NodeV::Literal(" />"@)],
                        st1,
                    );
                }
            },
            Err(_) => {},
        }
    }
}

proof fn lemma_sp_attrs_wf(toks: Seq<TokenV>, i: int, end: int, st: SlotsV, fuel: u64)
    ensures
        sp_attrs(toks, i, end, st, fuel) is Ok ==> slots_extend(
            st,
            sp_attrs(toks, i, end, st, fuel)->Ok_0.2,
        ) && nodes_wf(
            sp_attrs(toks, i, end, st, fuel)->Ok_0.0,
            sp_attrs(toks, i, end, st, fuel)->Ok_0.2,
        ),
    decreases fuel, 0int,
{
    if fuel == 0 || i < 0 || i >= end {
    } else if toks[i] is Ident || toks[i] is Text {
        match sp_name(toks, i, end) {
            Ok((aname, j)) => {
                if j < end && toks[j] == TokenV::Punct('=') {
                    lemma_sp_attr_value_wf(toks, j + 1, end, aname, st, (fuel - 1) as u64);
                    match sp_attr_value(toks, j + 1, end, aname, st, (fuel - 1) as u64) {
                        Ok((vns, k, st1)) => {
                            lemma_sp_attrs_wf(toks, k, end, st1, (fuel - 1) as u64);
                            match sp_attrs(toks, k, end, st1, (fuel - 1) as u64) {
                                Ok((rest, m, st2)) => {
                                    lemma_nodes_wf_mono(vns, st1, st2);
                                    lemma_nodes_wf_concat(vns, rest, st2);
                                },
                                Err(_) => {},
                            }
                        },
                        Err(_) => {},
                    }
                } else {
                    lemma_sp_attrs_wf(toks, j, end, st, (fuel - 1) as u64);
                    match sp_attrs(toks, j, end, st, (fuel - 1) as u64) {
                        Ok((rest, m, st2)) => {
                            lemma_nodes_wf_single(NodeV::Literal(" "@ + aname), st2);
                            lemma_nodes_wf_concat(seq![NodeV::Literal(" "@ + aname)], rest, st2);
                        },
                        Err(_) => {},
                    }
                }
            },
            Err(_) => {},
        }
    }
}

proof fn lemma_sp_attr_value_wf(
    toks: Seq<TokenV>,
    i: int,
    end: int,
    name: Seq<char>,
    st: SlotsV,
    fuel: u64,
)
    ensures
        sp_attr_value(toks, i, end, name, st, fuel) is Ok ==> slots_extend(
            st,
            sp_attr_value(toks, i, end, name, st, fuel)->Ok_0.2,
        ) && nodes_wf(
            sp_attr_value(toks, i, end, name, st, fuel)->Ok_0.0,
            sp_attr_value(toks, i, end, name, st, fuel)->Ok_0.2,
        ),
    decreases fuel, 0int,
{
    if fuel == 0 || i < 0 || i >= end {
    } else {
        let open = " "@ + name + "=\""@;
        match toks[i] {
            TokenV::Text(t) => {
                lemma_nodes_wf_single(NodeV::Literal(open + t + "\""@), st);
            },
            TokenV::Brace(inner) => {
                lemma_sp_interp_wf(inner, i, EscapeCtx::AttrValue, st);
                match sp_interp(inner, i, EscapeCtx::AttrValue, st) {
                    Ok((node, st1)) => {
                        lemma_nodes_wf_single(NodeV::Literal(open), st1);
                        lemma_nodes_wf_single(node, st1);
                        lemma_nodes_wf_single(NodeV::Literal("\""@), st1);
                        lemma_nodes_wf_concat(seq![NodeV::Literal(open)], seq![node], st1);
                        lemma_nodes_wf_concat(
                            seq![NodeV::Literal(open)] + seq![node],
                            seq![NodeV::Literal("\""@)],
                            st1,
                        );
                    },
                    Err(_) => {},
                }
            },
            TokenV::Bracket(inner) => {
                lemma_sp_pairs_wf(inner, 0, i, st);
                match sp_pairs(inner, 0, i, st) {
                    Ok((gs, st1)) => {
                        lemma_nodes_wf_single(NodeV::Literal(open), st1);
                        lemma_nodes_wf_single(NodeV::Literal("\""@), st1);
                        lemma_nodes_wf_concat(seq![NodeV::Literal(open)], gs, st1);
                        lemma_nodes_wf_concat(
                            seq![NodeV::Literal(open)] + gs,
                            seq![NodeV::Literal("\""@)],
                            st1,
                        );
                    },
                    Err(_) => {},
                }
            },
            TokenV::Paren(inner) => {
                lemma_sp_nodes_wf(
                    inner,
                    0,
                    inner.len() as int,
                    EscapeCtx::AttrValue,
                    st,
                    (fuel - 1) as u64,
                );
                match sp_nodes(
                    inner,
                    0,
                    inner.len() as int,
                    EscapeCtx::AttrValue,
                    st,
                    (fuel - 1) as u64,
                ) {
                    Ok((ns, st1)) => {
                        lemma_nodes_wf_single(NodeV::Literal(open), st1);
                        lemma_nodes_wf_single(NodeV::Group(ns), st1);
                        lemma_nodes_wf_single(NodeV::Literal("\""@), st1);
                        lemma_nodes_wf_concat(seq![NodeV::Literal(open)], seq![NodeV::Group(ns)], st1);
                        lemma_nodes_wf_concat(
                            seq![NodeV::Literal(open)] + seq![NodeV::Group(ns)],
                            seq![NodeV::Literal("\""@)],
                            st1,
                        );
                    },
                    Err(_) => {},
                }
            },
            TokenV::Punct(c) => {
                if c == '|' && i + 2 < end && toks[i + 1] is Ident && toks[i + 2] == TokenV::Punct(
                    '|',
                ) {
                    if i + 3 < end && toks[i + 3] is Brace {
                        match toks[i + 3] {
                            TokenV::Brace(b) => {
                                let slot = st.raws.len() as usize;
                                let st1 = SlotsV {
                                    raws: st.raws.push(tokens_text(b, 0, b.len() as int)),
                                    ..st
                                };
                                lemma_nodes_wf_single(NodeV::Literal(open), st1);
                                lemma_nodes_wf_single(NodeV::Raw { slot }, st1);
                                lemma_nodes_wf_single(NodeV::Literal("\""@), st1);
                                lemma_nodes_wf_concat(
                                    seq![NodeV::Literal(open)],
                                    seq![NodeV::Raw { slot }],
                                    st1,
                                );
                                lemma_nodes_wf_concat(
                                    seq![NodeV::Literal(open)] + seq![NodeV::Raw { slot }],
                                    seq![NodeV::Literal("\""@)],
                                    st1,
                                );
                            },
                            _ => {},
                        }
                    } else {
                        let k = until_semi(toks, i + 3, end);
                        if k < end {
                            let slot = st.raws.len() as usize;
                            let st1 = SlotsV {
                                raws: st.raws.push(tokens_text(toks, i + 3, k)),
                                ..st
                            };
                            lemma_nodes_wf_single(NodeV::Literal(open), st1);
                            lemma_nodes_wf_single(NodeV::Raw { slot }, st1);
                            lemma_nodes_wf_single(NodeV::Literal("\""@), st1);
                            lemma_nodes_wf_concat(
                                seq![NodeV::Literal(open)],
                                seq![NodeV::Raw { slot }],
                                st1,
                            );
                            lemma_nodes_wf_concat(
                                seq![NodeV::Literal(open)] + seq![NodeV::Raw { slot }],
                                seq![NodeV::Literal("\""@)],
                                st1,
                            );
                        }
                    }
                }
            },
            _ => {},
        }
    }
}

proof fn lemma_sp_if_chain_wf(
    toks: Seq<TokenV>,
    i: int,
    end: int,
    ictx: EscapeCtx,
    st: SlotsV,
    acc: Seq<BranchV>,
    fuel: u64,
)
    requires
        branches_wf(acc, st),
    ensures
        sp_if_chain(toks, i, end, ictx, st, acc, fuel) is Ok ==> slots_extend(
            st,
            sp_if_chain(toks, i, end, ictx, st, acc, fuel)->Ok_0.2,
        ) && node_wf(
            sp_if_chain(toks, i, end, ictx, st, acc, fuel)->Ok_0.0,
            sp_if_chain(toks, i, end, ictx, st, acc, fuel)->Ok_0.2,
        ),
    decreases fuel, 0int,
{
    if fuel == 0 {
    } else {
        let j = until_brace(toks, i + 1, end);
        if j >= end {
        } else {
            match toks[j] {
                TokenV::Brace(b) => {
                    let gslot = st.guards.len() as usize;
                    let st1 = SlotsV { guards: st.guards.push(tokens_text(toks, i + 1, j)), ..st };
                    lemma_branches_wf_mono(acc, st, st1);
                    lemma_sp_nodes_wf(b, 0, b.len() as int, ictx, st1, (fuel - 1) as u64);
                    match sp_nodes(b, 0, b.len() as int, ictx, st1, (fuel - 1) as u64) {
                        Ok((bn, st2)) => {
                            lemma_branches_wf_mono(acc, st1, st2);
                            let br = BranchV { guard: gslot, body: bn };
                            let acc2 = acc.push(br);
                            lemma_branches_wf_push(acc, br, st2);
                            if j + 2 < end && toks[j + 1] == TokenV::Ident("else"@) && toks[j + 2]
                                == TokenV::Ident("if"@) {
                                lemma_sp_if_chain_wf(
                                    toks,
                                    j + 2,
                                    end,
                                    ictx,
                                    st2,
                                    acc2,
                                    (fuel - 1) as u64,
                                );
                            } else if j + 2 < end && toks[j + 1] == TokenV::Ident("else"@) {
                                match toks[j + 2] {
                                    TokenV::Brace(eb) => {
                                        lemma_sp_nodes_wf(
                                            eb,
                                            0,
                                            eb.len() as int,
                                            ictx,
                                            st2,
                                            (fuel - 1) as u64,
                                        );
                                        match sp_nodes(
                                            eb,
                                            0,
                                            eb.len() as int,
                                            ictx,
                                            st2,
                                            (fuel - 1) as u64,
                                        ) {
                                            Ok((en, st3)) => {
                                                lemma_branches_wf_mono(acc2, st2, st3);
                                            },
                                            Err(_) => {},
                                        }
                                    },
                                    _ => {},
                                }
                            } else {
                            }
                        },
                        Err(_) => {},
                    }
                },
                _ => {},
            }
        }
    }
}

proof fn lemma_branches_wf_push(bs: Seq<BranchV>, b: BranchV, st: SlotsV)
    requires
        branches_wf(bs, st),
        (b.guard as int) < st.guards.len(),
        nodes_wf(b.body, st),
    ensures
        branches_wf(bs.push(b), st),
    decreases bs.len(),
{
    if bs.len() == 0 {
        assert(bs.push(b)[0] == b);
        assert(bs.push(b).drop_first() =~= Seq::<BranchV>::empty());
        assert(branches_wf(Seq::<BranchV>::empty(), st));
    } else {
        assert(bs.push(b)[0] == bs[0]);
        assert(bs.push(b).drop_first() =~= bs.drop_first().push(b));
        lemma_branches_wf_push(bs.drop_first(), b, st);
    }
}

proof fn lemma_sp_match_wf(
    toks: Seq<TokenV>,
    i: int,
    end: int,
    ictx: EscapeCtx,
    st: SlotsV,
    fuel: u64,
)
    ensures
        sp_match(toks, i, end, ictx, st, fuel) is Ok ==> slots_extend(
            st,
            sp_match(toks, i, end, ictx, st, fuel)->Ok_0.2,
        ) && node_wf(
            sp_match(toks, i, end, ictx, st, fuel)->Ok_0.0,
            sp_match(toks, i, end, ictx, st, fuel)->Ok_0.2,
        ),
    decreases fuel, 0int,
{
    if fuel == 0 {
    } else {
        let j = until_brace(toks, i + 1, end);
        if j >= end {
        } else {
            match toks[j] {
                TokenV::Brace(arms_toks) => {
                    lemma_sp_arms_wf(arms_toks, 0, i, ictx, st, (fuel - 1) as u64);
                    match sp_arms(arms_toks, 0, i, ictx, st, (fuel - 1) as u64) {
                        Ok((pats, arms, st1)) => {
                            let st2 = SlotsV {
                                matches: st1.matches.push(
                                    MatchInfoV {
                                        scrutinee: tokens_text(toks, i + 1, j),
                                        patterns: pats,
                                    },
                                ),
                                ..st1
                            };
                            lemma_nodes_wf_mono(arms, st1, st2);
                        },
                        Err(_) => {},
                    }
                },
                _ => {},
            }
        }
    }
}

proof fn lemma_sp_arms_wf(
    ts: Seq<TokenV>,
    j: int,
    at: int,
    ictx: EscapeCtx,
    st: SlotsV,
    fuel: u64,
)
    ensures
        sp_arms(ts, j, at, ictx, st, fuel) is Ok ==> slots_extend(
            st,
            sp_arms(ts, j, at, ictx, st, fuel)->Ok_0.2,
        ) && nodes_wf(
            sp_arms(ts, j, at, ictx, st, fuel)->Ok_0.1,
            sp_arms(ts, j, at, ictx, st, fuel)->Ok_0.2,
        ),
    decreases fuel, 0int,
{
    if fuel == 0 {
    } else {
        let n = ts.len() as int;
        if j < 0 || j >= n {
        } else {
            let k = until_arrow(ts, j, n);
            if k >= n {
            } else {
                let m = if k + 2 > n {
                    n
                } else {
                    k + 2
                };
                if m < n && ts[m] is Brace {
                    match ts[m] {
                        TokenV::Brace(b) => {
                            lemma_sp_nodes_wf(b, 0, b.len() as int, ictx, st, (fuel - 1) as u64);
                            match sp_nodes(b, 0, b.len() as int, ictx, st, (fuel - 1) as u64) {
                                Ok((bn, st1)) => {
                                    let next = if m + 1 < n && ts[m + 1] == TokenV::Punct(',') {
                                        m + 2
                                    } else {
                                        m + 1
                                    };
                                    lemma_sp_arms_wf(ts, next, at, ictx, st1, (fuel - 1) as u64);
                                    match sp_arms(ts, next, at, ictx, st1, (fuel - 1) as u64) {
                                        Ok((ps, ars, st2)) => {
                                            lemma_nodes_wf_mono(bn, st1, st2);
                                            lemma_nodes_wf_single(NodeV::Group(bn), st2);
                                            lemma_nodes_wf_concat(seq![NodeV::Group(bn)], ars, st2);
                                        },
                                        Err(_) => {},
                                    }
                                },
                                Err(_) => {},
                            }
                        },
                        _ => {},
                    }
                } else {
                    let c = until_comma(ts, m, n);
                    lemma_sp_nodes_wf(ts, m, c, ictx, st, (fuel - 1) as u64);
                    match sp_nodes(ts, m, c, ictx, st, (fuel - 1) as u64) {
                        Ok((bn, st1)) => {
                            let next = if m <= c && c < n {
                                c + 1
                            } else if c >= n {
                                n
                            } else {
                                m
                            };
                            lemma_sp_arms_wf(ts, next, at, ictx, st1, (fuel - 1) as u64);
                            match sp_arms(ts, next, at, ictx, st1, (fuel - 1) as u64) {
                                Ok((ps, ars, st2)) => {
                                    lemma_nodes_wf_mono(bn, st1, st2);
                                    lemma_nodes_wf_single(NodeV::Group(bn), st2);
                                    lemma_nodes_wf_concat(seq![NodeV::Group(bn)], ars, st2);
                                },
                                Err(_) => {},
                            }
                        },
                        Err(_) => {},
                    }
                }
            }
        }
    }
}

proof fn lemma_sp_for_wf(
    toks: Seq<TokenV>,
    i: int,
    end: int,
    ictx: EscapeCtx,
    st: SlotsV,
    fuel: u64,
)
    ensures
        sp_for(toks, i, end, ictx, st, fuel) is Ok ==> slots_extend(
            st,
            sp_for(toks, i, end, ictx, st, fuel)->Ok_0.2,
        ) && node_wf(
            sp_for(toks, i, end, ictx, st, fuel)->Ok_0.0,
            sp_for(toks, i, end, ictx, st, fuel)->Ok_0.2,
        ),
    decreases fuel, 0int,
{
    if fuel == 0 {
    } else {
        let p = until_in(toks, i + 1, end);
        if p >= end {
        } else {
            let j = until_brace(toks, p + 1, end);
            if j >= end {
            } else {
                match toks[j] {
                    TokenV::Brace(b) => {
                        lemma_sp_nodes_wf(b, 0, b.len() as int, ictx, st, (fuel - 1) as u64);
                        match sp_nodes(b, 0, b.len() as int, ictx, st, (fuel - 1) as u64) {
                            Ok((bn, st1)) => {
                                let st2 = SlotsV {
                                    loops: st1.loops.push(
                                        LoopInfoV {
                                            pattern: tokens_text(toks, i + 1, p),
                                            iterable: tokens_text(toks, p + 1, j),
                                        },
                                    ),
                                    ..st1
                                };
                                lemma_nodes_wf_mono(bn, st1, st2);
                            },
                            Err(_) => {},
                        }
                    },
                    _ => {},
                }
            }
        }
    }
}

/// The end of a text run never lies before its start.
proof fn lemma_text_run_end_ge(ts: Seq<TokenV>, i: int, end: int)
    ensures
        text_run_end(ts, i, end) >= i,
    decreases end - i,
{
    if i < 0 || i >= end || i >= ts.len() {
    } else if ts[i] is Text {
        lemma_text_run_end_ge(ts, i + 1, end);
    }
}

/// Adjacent literal-text tokens coalesce into one: a construct that starts
/// at a text token is exactly one literal node holding the concatenated
/// text of the whole adjacent run of text tokens, so no boundary between
/// adjacent literal fragments survives into the plan, and rendering writes
/// the run with a single write.
pub proof fn lemma_adjacent_text_coalesced(
    toks: Seq<TokenV>,
    i: int,
    end: int,
    ictx: EscapeCtx,
    st: SlotsV,
    fuel: u64,
)
    requires
        fuel > 0,
        0 <= i < end,
        i < toks.len(),
        toks[i] is Text,
    ensures
        sp_item(toks, i, end, ictx, st, fuel) == Ok::<(Seq<NodeV>, int, SlotsV), FaultV>(
            (
                seq![NodeV::Literal(toks[i]->Text_0 + text_run(toks, i + 1, end))],
                text_run_end(toks, i, end),
                st,
            ),
        ),
        i + 1 < end && i + 1 < toks.len() && toks[i + 1] is Text ==> text_run_end(toks, i, end)
            >= i + 2,
{
    assert(text_run(toks, i, end) == toks[i]->Text_0 + text_run(toks, i + 1, end));
    if i + 1 < end && i + 1 < toks.len() && toks[i + 1] is Text {
        lemma_text_run_end_ge(toks, i + 2, end);
        assert(text_run_end(toks, i + 1, end) == text_run_end(toks, i + 2, end));
    }
}

/// No slot reference in a compiled plan dangles: whenever parsing
/// succeeds, every slot a node of the plan refers to lies inside the
/// plan's own tables. Unresolved references are a build-time fault, never
/// a render-time one.
pub proof fn lemma_parse_wf(src: Seq<crate::token::SrcTokenV>)
    ensures
        sp_parse(src) is Ok ==> plan_wf(sp_parse(src)->Ok_0),
{
    match crate::token::sp_tokenize(src) {
        Ok(ts) => {
            lemma_sp_nodes_wf(
                ts,
                0,
                ts.len() as int,
                EscapeCtx::Text,
                slots_empty(),
                fuel_for(ts),
            );
        },
        Err(_) => {},
    }
}

/// True when token `i` is an identifier.
fn is_ident_at(toks: &Vec<Token>, i: usize) -> (r: bool)
    requires
        i < toks@.len(),
    ensures
        r == (tokens_view(toks@)[i as int] is Ident),
{
    proof {
        lemma_tokens_view_index(toks@);
    }
    match &toks[i] {
        Token::Ident(_) => true,
        _ => false,
    }
}

/// True when token `i` is a brace group.
fn is_brace_at(toks: &Vec<Token>, i: usize) -> (r: bool)
    requires
        i < toks@.len(),
    ensures
        r == (tokens_view(toks@)[i as int] is Brace),
{
    proof {
        lemma_tokens_view_index(toks@);
    }
    match &toks[i] {
        Token::Brace(_) => true,
        _ => false,
    }
}

/// The elements of a bracket-list attribute value, appended to `out`.
fn p_pairs(
    inner: &Vec<Token>,
    j: usize,
    at: usize,
    st: &mut Slots,
    out: &mut Vec<EmitNode>,
) -> (r: Result<(), ParseFault>)
    requires
        j <= inner@.len(),
    ensures
        ({
            let sp = sp_pairs(tokens_view(inner@), j as int, at as int, old(st)@);
            match r {
                Ok(_) => sp is Ok && nodes_view(final(out)@) == nodes_view(old(out)@)
                    + sp->Ok_0.0 && final(st)@ == sp->Ok_0.1,
                Err(f) => sp == Err::<(Seq<NodeV>, SlotsV), FaultV>(f@),
            }
        }),
    decreases inner@.len() - j,
{
    proof {
        lemma_tokens_view_index(inner@);
    }
    let n = inner.len();
    if j >= n {
        proof {
            assert(nodes_view(out@) + Seq::<NodeV>::empty() =~= nodes_view(out@));
        }
        return Ok(());
    }
    match &inner[j] {
        Token::Text(t) => {
            if n - j > 1 && tok_punct_at(inner, j + 1, ':') {
                let k = p_until_comma(inner, j + 2, n);
                let cond = p_text_of(inner, j + 2, k);
                let slot = st.guards.len();
                let ghost condv = cond@;
                st.guards.push(cond);
                proof {
                    assert(st@.guards =~= old(st)@.guards.push(condv));
                    assert(st@ == (SlotsV { guards: old(st)@.guards.push(condv), ..old(st)@ }));
                }
                let next = if k < n {
                    k + 1
                } else {
                    n
                };
                let node = EmitNode::Gated { guard: slot, text: t.clone() };
                let ghost nv = node@;
                let ghost base = nodes_view(out@);
                proof {
                    lemma_nodes_view_push(out@, node);
                }
                out.push(node);
                let ghost mid = st@;
                match p_pairs(inner, next, at, st, out) {
                    Ok(_) => {
                        proof {
                            let sp1 = sp_pairs(tokens_view(inner@), next as int, at as int, mid);
                            assert(base.push(nv) + sp1->Ok_0.0 =~= base + (seq![nv]
                                + sp1->Ok_0.0));
                        }
                        Ok(())
                    },
                    Err(f) => Err(f),
                }
            } else {
                Err(ParseFault { kind: ParseError::UnexpectedToken, at })
            }
        },
        _ => Err(ParseFault { kind: ParseError::ExpectedIdentifierOrLiteral, at }),
    }
}

/// The emit nodes of the tokens in `[i, end)`, appended to `out`.
fn p_nodes(
    toks: &Vec<Token>,
    i: usize,
    end: usize,
    ictx: EscapeCtx,
    st: &mut Slots,
    fuel: u64,
    out: &mut Vec<EmitNode>,
) -> (r: Result<(), ParseFault>)
    requires
        i <= end,
        end <= toks@.len(),
    ensures
        ({
            let sp = sp_nodes(tokens_view(toks@), i as int, end as int, ictx, old(st)@, fuel);
            match r {
                Ok(_) => sp is Ok && nodes_view(final(out)@) == nodes_view(old(out)@)
                    + sp->Ok_0.0 && final(st)@ == sp->Ok_0.1,
                Err(f) => sp == Err::<(Seq<NodeV>, SlotsV), FaultV>(f@),
            }
        }),
    decreases fuel,
{
    if fuel == 0 {
        return Err(ParseFault { kind: ParseError::UnexpectedToken, at: i });
    }
    if i >= end {
        proof {
            assert(nodes_view(out@) + Seq::<NodeV>::empty() =~= nodes_view(out@));
        }
        return Ok(());
    }
    let ghost base = nodes_view(out@);
    let j = match p_item(toks, i, end, ictx, st, fuel - 1, out) {
        Ok(j) => j,
        Err(f) => {
            return Err(f);
        },
    };
    let ghost mid_st = st@;
    match p_nodes(toks, j, end, ictx, st, fuel - 1, out) {
        Ok(_) => {
            proof {
                let sp1 = sp_item(
                    tokens_view(toks@),
                    i as int,
                    end as int,
                    ictx,
                    old(st)@,
                    (fuel - 1) as u64,
                );
                let sp2 = sp_nodes(
                    tokens_view(toks@),
                    j as int,
                    end as int,
                    ictx,
                    mid_st,
                    (fuel - 1) as u64,
                );
                assert(base + sp1->Ok_0.0 + sp2->Ok_0.0 =~= base + (sp1->Ok_0.0 + sp2->Ok_0.0));
            }
            Ok(())
        },
        Err(f) => Err(f),
    }
}

/// One construct starting at `i`, appended to `out`; returns the position
/// after it.
#[verifier::rlimit(60)]
fn p_item(
    toks: &Vec<Token>,
    i: usize,
    end: usize,
    ictx: EscapeCtx,
    st: &mut Slots,
    fuel: u64,
    out: &mut Vec<EmitNode>,
) -> (r: Result<usize, ParseFault>)
    requires
        i <= end,
        end <= toks@.len(),
    ensures
        ({
            let sp = sp_item(tokens_view(toks@), i as int, end as int, ictx, old(st)@, fuel);
            match r {
                Ok(j) => sp is Ok && nodes_view(final(out)@) == nodes_view(old(out)@)
                    + sp->Ok_0.0 && j as int == sp->Ok_0.1 && final(st)@ == sp->Ok_0.2 && j
                    <= end,
                Err(f) => sp == Err::<(Seq<NodeV>, int, SlotsV), FaultV>(f@),
            }
        }),
    decreases fuel,
{
    proof {
        lemma_tokens_view_index(toks@);
    }
    if fuel == 0 || i >= end {
        return Err(ParseFault { kind: ParseError::UnexpectedToken, at: i });
    }
    let ghost base = nodes_view(out@);
    match &toks[i] {
        Token::Text(t) => {
            let (txt, j) = p_text_run(toks, i, end);
            let node = EmitNode::Literal(txt);
            proof {
                lemma_nodes_view_push(out@, node);
                assert(base.push(node@) =~= base + seq![node@]);
            }
            out.push(node);
            Ok(j)
        },
        Token::Brace(inner) => {
            let node = match p_interp(inner, i, ictx, st) {
                Ok(n) => n,
                Err(f) => {
                    return Err(f);
                },
            };
            proof {
                lemma_nodes_view_push(out@, node);
                assert(base.push(node@) =~= base + seq![node@]);
            }
            out.push(node);
            Ok(i + 1)
        },
        Token::Paren(inner) => {
            proof {
                lemma_tokens_view_index(inner@);
            }
            let mut ns: Vec<EmitNode> = Vec::new();
            match p_nodes(inner, 0, inner.len(), ictx, st, fuel - 1, &mut ns) {
                Ok(_) => {},
                Err(f) => {
                    return Err(f);
                },
            }
            let node = EmitNode::Group(ns);
            proof {
                lemma_nodes_view_push(out@, node);
                assert(base.push(node@) =~= base + seq![node@]);
            }
            out.push(node);
            Ok(i + 1)
        },
        Token::Bracket(_) => Err(ParseFault { kind: ParseError::UnexpectedToken, at: i }),
        Token::Comment(body) => {
            let n1 = EmitNode::Literal(String::from_str("<!-- "));
            let ghost n1v = n1@;
            proof {
                lemma_nodes_view_push(out@, n1);
            }
            out.push(n1);
            match p_frags(body, 0, i, EscapeCtx::Comment, st, out) {
                Ok(_) => {},
                Err(f) => {
                    return Err(f);
                },
            }
            let n2 = EmitNode::Literal(String::from_str(" -->"));
            let ghost n2v = n2@;
            proof {
                lemma_nodes_view_push(out@, n2);
            }
            out.push(n2);
            proof {
                let sp1 = sp_frags(tokens_view(body@), 0, i as int, EscapeCtx::Comment, old(st)@);
                assert(base.push(n1v) + sp1->Ok_0.0 + seq![n2v] =~= base + (seq![n1v]
                    + sp1->Ok_0.0 + seq![n2v]));
            }
            Ok(i + 1)
        },
        Token::CharData(body) => {
            let n1 = EmitNode::Literal(String::from_str("<![CDATA["));
            let ghost n1v = n1@;
            proof {
                lemma_nodes_view_push(out@, n1);
            }
            out.push(n1);
            match p_frags(body, 0, i, EscapeCtx::CharData, st, out) {
                Ok(_) => {},
                Err(f) => {
                    return Err(f);
                },
            }
            let n2 = EmitNode::Literal(String::from_str("]]>"));
            let ghost n2v = n2@;
            proof {
                lemma_nodes_view_push(out@, n2);
            }
            out.push(n2);
            proof {
                let sp1 = sp_frags(tokens_view(body@), 0, i as int, EscapeCtx::CharData, old(st)@);
                assert(base.push(n1v) + sp1->Ok_0.0 + seq![n2v] =~= base + (seq![n1v]
                    + sp1->Ok_0.0 + seq![n2v]));
            }
            Ok(i + 1)
        },
        Token::Punct(c) => {
            if *c == '<' {
                p_tag(toks, i, end, st, fuel - 1, out)
            } else if *c == '|' {
                p_hatch(toks, i, end, st, out)
            } else {
                Err(ParseFault { kind: ParseError::UnexpectedToken, at: i })
            }
        },
        Token::Ident(s) => {
            if str_eq(s.as_str(), "if") {
                let (node, j) = match p_if_chain(toks, i, end, ictx, st, Vec::new(), fuel - 1) {
                    Ok(r) => r,
                    Err(f) => {
                        return Err(f);
                    },
                };
                proof {
                    lemma_nodes_view_push(out@, node);
                    assert(base.push(node@) =~= base + seq![node@]);
                }
                out.push(node);
                Ok(j)
            } else if str_eq(s.as_str(), "match") {
                let (node, j) = match p_match(toks, i, end, ictx, st, fuel - 1) {
                    Ok(r) => r,
                    Err(f) => {
                        return Err(f);
                    },
                };
                proof {
                    lemma_nodes_view_push(out@, node);
                    assert(base.push(node@) =~= base + seq![node@]);
                }
                out.push(node);
                Ok(j)
            } else if str_eq(s.as_str(), "for") {
                let (node, j) = match p_for(toks, i, end, ictx, st, fuel - 1) {
                    Ok(r) => r,
                    Err(f) => {
                        return Err(f);
                    },
                };
                proof {
                    lemma_nodes_view_push(out@, node);
                    assert(base.push(node@) =~= base + seq![node@]);
                }
                out.push(node);
                Ok(j)
            } else if str_eq(s.as_str(), "let") {
                let k = p_until_semi(toks, i + 1, end);
                if k >= end {
                    Err(ParseFault { kind: ParseError::UnexpectedToken, at: k })
                } else {
                    let eq = p_until_eq(toks, i + 1, k);
                    let slot = st.lets.len();
                    let pattern = p_text_of(toks, i + 1, eq);
                    let ex_start = if eq < k {
                        eq + 1
                    } else {
                        k
                    };
                    let expr = p_text_of(toks, ex_start, k);
                    let info = LetInfo { pattern, expr };
                    let ghost infov = info@;
                    st.lets.push(info);
                    proof {
                        assert(st@.lets =~= old(st)@.lets.push(infov));
                        assert(st@ == (SlotsV { lets: old(st)@.lets.push(infov), ..old(st)@ }));
                    }
                    let ghost mid = st@;
                    let mut body: Vec<EmitNode> = Vec::new();
                    match p_nodes(toks, k + 1, end, ictx, st, fuel - 1, &mut body) {
                        Ok(_) => {},
                        Err(f) => {
                            return Err(f);
                        },
                    }
                    proof {
                        lemma_nodes_view_index(body@);
                        let spn = sp_nodes(
                            tokens_view(toks@),
                            k + 1,
                            end as int,
                            ictx,
                            mid,
                            (fuel - 1) as u64,
                        );
                        assert(nodes_view(body@) =~= Seq::<NodeV>::empty() + spn->Ok_0.0);
                    }
                    let node = EmitNode::Scope { slot, body };
                    proof {
                        lemma_nodes_view_push(out@, node);
                        assert(base.push(node@) =~= base + seq![node@]);
                    }
                    out.push(node);
                    Ok(end)
                }
            } else {
                Err(ParseFault { kind: ParseError::UnexpectedToken, at: i })
            }
        },
    }
}

/// A construct opened by `<`, appended to `out`.
#[verifier::rlimit(60)]
fn p_tag(
    toks: &Vec<Token>,
    i: usize,
    end: usize,
    st: &mut Slots,
    fuel: u64,
    out: &mut Vec<EmitNode>,
) -> (r: Result<usize, ParseFault>)
    requires
        i < end,
        end <= toks@.len(),
    ensures
        ({
            let sp = sp_tag(tokens_view(toks@), i as int, end as int, old(st)@, fuel);
            match r {
                Ok(j) => sp is Ok && nodes_view(final(out)@) == nodes_view(old(out)@)
                    + sp->Ok_0.0 && j as int == sp->Ok_0.1 && final(st)@ == sp->Ok_0.2 && j
                    <= end,
                Err(f) => sp == Err::<(Seq<NodeV>, int, SlotsV), FaultV>(f@),
            }
        }),
    decreases fuel,
{
    proof {
        lemma_tokens_view_index(toks@);
    }
    if fuel == 0 {
        return Err(ParseFault { kind: ParseError::UnexpectedToken, at: i });
    }
    if end - i < 2 {
        return Err(ParseFault { kind: ParseError::ExpectedIdentifierOrLiteral, at: i + 1 });
    }
    let ghost base = nodes_view(out@);
    if tok_punct_at(toks, i + 1, '/') {
        match p_name(toks, i + 2, end) {
            Err(f) => Err(f),
            Ok((name, j)) => {
                if j < end && tok_punct_at(toks, j, '>') {
                    let node = EmitNode::Literal(lit3("</", name.as_str(), ">"));
                    proof {
                        lemma_nodes_view_push(out@, node);
                        assert(base.push(node@) =~= base + seq![node@]);
                    }
                    out.push(node);
                    Ok(j + 1)
                } else {
                    Err(ParseFault { kind: ParseError::InvalidClosingTag, at: j })
                }
            },
        }
    } else if tok_punct_at(toks, i + 1, '!') {
        match p_name(toks, i + 2, end) {
            Err(f) => Err(f),
            Ok((name, j)) => p_tag_tail(toks, j, end, lit2("<!", name.as_str()), st, fuel - 1, out),
        }
    } else if tok_punct_at(toks, i + 1, '?') {
        match p_name(toks, i + 2, end) {
            Err(f) => Err(f),
            Ok((name, j)) => {
                let n1 = EmitNode::Literal(lit2("<?", name.as_str()));
                let ghost n1v = n1@;
                proof {
                    lemma_nodes_view_push(out@, n1);
                }
                out.push(n1);
                let k = match p_attrs(toks, j, end, st, fuel - 1, out) {
                    Ok(k) => k,
                    Err(f) => {
                        return Err(f);
                    },
                };
                if end - k > 1 && tok_punct_at(toks, k, '?') && tok_punct_at(toks, k + 1, '>') {
                    let n2 = EmitNode::Literal(String::from_str("?>"));
                    let ghost n2v = n2@;
                    proof {
                        lemma_nodes_view_push(out@, n2);
                    }
                    out.push(n2);
                    proof {
                        let sp1 = sp_attrs(
                            tokens_view(toks@),
                            j as int,
                            end as int,
                            old(st)@,
                            (fuel - 1) as u64,
                        );
                        assert(base.push(n1v) + sp1->Ok_0.0 + seq![n2v] =~= base + (seq![n1v]
                            + sp1->Ok_0.0 + seq![n2v]));
                    }
                    Ok(k + 2)
                } else {
                    Err(ParseFault { kind: ParseError::MissingClosingBracket, at: k })
                }
            },
        }
    } else {
        match p_name(toks, i + 1, end) {
            Err(f) => Err(f),
            Ok((name, j)) => p_tag_tail(toks, j, end, lit2("<", name.as_str()), st, fuel - 1, out),
        }
    }
}

/// The attributes and closer of an open tag or doctype, appended to `out`.
#[verifier::rlimit(60)]
fn p_tag_tail(
    toks: &Vec<Token>,
    j: usize,
    end: usize,
    opening: String,
    st: &mut Slots,
    fuel: u64,
    out: &mut Vec<EmitNode>,
) -> (r: Result<usize, ParseFault>)
    requires
        j <= end,
        end <= toks@.len(),
    ensures
        ({
            let sp = sp_tag_tail(
                tokens_view(toks@),
                j as int,
                end as int,
                opening@,
                old(st)@,
                fuel,
            );
            match r {
                Ok(k) => sp is Ok && nodes_view(final(out)@) == nodes_view(old(out)@)
                    + sp->Ok_0.0 && k as int == sp->Ok_0.1 && final(st)@ == sp->Ok_0.2 && k
                    <= end,
                Err(f) => sp == Err::<(Seq<NodeV>, int, SlotsV), FaultV>(f@),
            }
        }),
    decreases fuel,
{
    proof {
        lemma_tokens_view_index(toks@);
    }
    if fuel == 0 {
        return Err(ParseFault { kind: ParseError::UnexpectedToken, at: j });
    }
    let ghost base = nodes_view(out@);
    let n1 = EmitNode::Literal(opening);
    let ghost n1v = n1@;
    proof {
        lemma_nodes_view_push(out@, n1);
    }
    out.push(n1);
    let k = match p_attrs(toks, j, end, st, fuel - 1, out) {
        Ok(k) => k,
        Err(f) => {
            return Err(f);
        },
    };
    let ghost sp1 = sp_attrs(tokens_view(toks@), j as int, end as int, old(st)@, (fuel - 1) as u64);
    if k < end && tok_punct_at(toks, k, '>') {
        let n2 = EmitNode::Literal(String::from_str(">"));
        let ghost n2v = n2@;
        proof {
            lemma_nodes_view_push(out@, n2);
        }
        out.push(n2);
        proof {
            assert(base.push(n1v) + sp1->Ok_0.0 + seq![n2v] =~= base + (seq![n1v] + sp1->Ok_0.0
                + seq![n2v]));
        }
        Ok(k + 1)
    } else if end - k > 1 && tok_punct_at(toks, k, '/') && tok_punct_at(toks, k + 1, '>') {
        let n2 = EmitNode::Literal(String::from_str(" />"));
        let ghost n2v = n2@;
        proof {
            lemma_nodes_view_push(out@, n2);
        }
        out.push(n2);
        proof {
            assert(base.push(n1v) + sp1->Ok_0.0 + seq![n2v] =~= base + (seq![n1v] + sp1->Ok_0.0
                + seq![n2v]));
        }
        Ok(k + 2)
    } else {
        Err(ParseFault { kind: ParseError::MissingClosingBracket, at: k })
    }
}

/// Zero or more attributes, appended to `out`; returns the position of the
/// first token that cannot start a name.
fn p_attrs(
    toks: &Vec<Token>,
    i: usize,
    end: usize,
    st: &mut Slots,
    fuel: u64,
    out: &mut Vec<EmitNode>,
) -> (r: Result<usize, ParseFault>)
    requires
        i <= end,
        end <= toks@.len(),
    ensures
        ({
            let sp = sp_attrs(tokens_view(toks@), i as int, end as int, old(st)@, fuel);
            match r {
                Ok(j) => sp is Ok && nodes_view(final(out)@) == nodes_view(old(out)@)
                    + sp->Ok_0.0 && j as int == sp->Ok_0.1 && final(st)@ == sp->Ok_0.2 && j
                    <= end,
                Err(f) => sp == Err::<(Seq<NodeV>, int, SlotsV), FaultV>(f@),
            }
        }),
    decreases fuel,
{
    proof {
        lemma_tokens_view_index(toks@);
    }
    if fuel == 0 {
        return Err(ParseFault { kind: ParseError::UnexpectedToken, at: i });
    }
    if i >= end {
        proof {
            assert(nodes_view(out@) + Seq::<NodeV>::empty() =~= nodes_view(out@));
        }
        return Ok(i);
    }
    let starts = match &toks[i] {
        Token::Ident(_) => true,
        Token::Text(_) => true,
        _ => false,
    };
    if !starts {
        proof {
            assert(nodes_view(out@) + Seq::<NodeV>::empty() =~= nodes_view(out@));
        }
        return Ok(i);
    }
    let ghost base = nodes_view(out@);
    let (aname, j) = match p_name(toks, i, end) {
        Ok(r) => r,
        Err(f) => {
            return Err(f);
        },
    };
    if j < end && tok_punct_at(toks, j, '=') {
        let k = match p_attr_value(toks, j + 1, end, aname, st, fuel - 1, out) {
            Ok(k) => k,
            Err(f) => {
                return Err(f);
            },
        };
        let ghost mid_st = st@;
        let ghost sp1 = sp_attr_value(
            tokens_view(toks@),
            j + 1,
            end as int,
            aname@,
            old(st)@,
            (fuel - 1) as u64,
        );
        match p_attrs(toks, k, end, st, fuel - 1, out) {
            Ok(m) => {
                proof {
                    let sp2 = sp_attrs(
                        tokens_view(toks@),
                        k as int,
                        end as int,
                        mid_st,
                        (fuel - 1) as u64,
                    );
                    assert(base + sp1->Ok_0.0 + sp2->Ok_0.0 =~= base + (sp1->Ok_0.0
                        + sp2->Ok_0.0));
                }
                Ok(m)
            },
            Err(f) => Err(f),
        }
    } else {
        let node = EmitNode::Literal(lit2(" ", aname.as_str()));
        let ghost nv = node@;
        proof {
            lemma_nodes_view_push(out@, node);
        }
        out.push(node);
        match p_attrs(toks, j, end, st, fuel - 1, out) {
            Ok(m) => {
                proof {
                    let sp2 = sp_attrs(
                        tokens_view(toks@),
                        j as int,
                        end as int,
                        old(st)@,
                        (fuel - 1) as u64,
                    );
                    assert(base.push(nv) + sp2->Ok_0.0 =~= base + (seq![nv] + sp2->Ok_0.0));
                }
                Ok(m)
            },
            Err(f) => Err(f),
        }
    }
}

/// An attribute value after `name=`, appended to `out`.
#[verifier::rlimit(80)]
fn p_attr_value(
    toks: &Vec<Token>,
    i: usize,
    end: usize,
    name: String,
    st: &mut Slots,
    fuel: u64,
    out: &mut Vec<EmitNode>,
) -> (r: Result<usize, ParseFault>)
    requires
        i <= end,
        end <= toks@.len(),
    ensures
        ({
            let sp = sp_attr_value(tokens_view(toks@), i as int, end as int, name@, old(st)@, fuel);
            match r {
                Ok(k) => sp is Ok && nodes_view(final(out)@) == nodes_view(old(out)@)
                    + sp->Ok_0.0 && k as int == sp->Ok_0.1 && final(st)@ == sp->Ok_0.2 && k
                    <= end,
                Err(f) => sp == Err::<(Seq<NodeV>, int, SlotsV), FaultV>(f@),
            }
        }),
    decreases fuel,
{
    proof {
        lemma_tokens_view_index(toks@);
    }
    if fuel == 0 || i >= end {
        return Err(ParseFault { kind: ParseError::UnexpectedToken, at: i });
    }
    let open = lit3(" ", name.as_str(), "=\"");
    let ghost openv = open@;
    let ghost base = nodes_view(out@);
    match &toks[i] {
        Token::Text(t) => {
            let mut l = open;
            l.append(t.as_str());
            l.append("\"");
            proof {
                assert(l@ =~= openv + t@ + "\""@);
            }
            let node = EmitNode::Literal(l);
            proof {
                lemma_nodes_view_push(out@, node);
                assert(base.push(node@) =~= base + seq![node@]);
            }
            out.push(node);
            Ok(i + 1)
        },
        Token::Brace(inner) => {
            let node = match p_interp(inner, i, EscapeCtx::AttrValue, st) {
                Ok(n) => n,
                Err(f) => {
                    return Err(f);
                },
            };
            let ghost nv = node@;
            let n1 = EmitNode::Literal(open);
            proof {
                lemma_nodes_view_push(out@, n1);
            }
            out.push(n1);
            proof {
                lemma_nodes_view_push(out@, node);
            }
            out.push(node);
            let n2 = EmitNode::Literal(String::from_str("\""));
            let ghost n2v = n2@;
            proof {
                lemma_nodes_view_push(out@, n2);
            }
            out.push(n2);
            proof {
                assert(base.push(NodeV::Literal(openv)).push(nv).push(n2v) =~= base + (seq![
                    NodeV::Literal(openv),
                ] + seq![nv] + seq![n2v]));
            }
            Ok(i + 1)
        },
        Token::Bracket(inner) => {
            let n1 = EmitNode::Literal(open);
            proof {
                lemma_nodes_view_push(out@, n1);
            }
            out.push(n1);
            match p_pairs(inner, 0, i, st, out) {
                Ok(_) => {},
                Err(f) => {
                    return Err(f);
                },
            }
            let n2 = EmitNode::Literal(String::from_str("\""));
            let ghost n2v = n2@;
            proof {
                lemma_nodes_view_push(out@, n2);
            }
            out.push(n2);
            proof {
                let sp1 = sp_pairs(tokens_view(inner@), 0, i as int, old(st)@);
                assert(base.push(NodeV::Literal(openv)) + sp1->Ok_0.0 + seq![n2v] =~= base + (
                seq![NodeV::Literal(openv)] + sp1->Ok_0.0 + seq![n2v]));
            }
            Ok(i + 1)
        },
        Token::Paren(inner) => {
            proof {
                lemma_tokens_view_index(inner@);
            }
            let mut sub: Vec<EmitNode> = Vec::new();
            match p_nodes(inner, 0, inner.len(), EscapeCtx::AttrValue, st, fuel - 1, &mut sub) {
                Ok(_) => {},
                Err(f) => {
                    return Err(f);
                },
            }
            let n1 = EmitNode::Literal(open);
            proof {
                lemma_nodes_view_push(out@, n1);
            }
            out.push(n1);
            let node = EmitNode::Group(sub);
            let ghost nv = node@;
            proof {
                lemma_nodes_view_push(out@, node);
            }
            out.push(node);
            let n2 = EmitNode::Literal(String::from_str("\""));
            let ghost n2v = n2@;
            proof {
                lemma_nodes_view_push(out@, n2);
            }
            out.push(n2);
            proof {
                assert(base.push(NodeV::Literal(openv)).push(nv).push(n2v) =~= base + (seq![
                    NodeV::Literal(openv),
                ] + seq![nv] + seq![n2v]));
            }
            Ok(i + 1)
        },
        Token::Punct(c) => {
            if *c == '|' && end - i > 2 && is_ident_at(toks, i + 1) && tok_punct_at(
                toks,
                i + 2,
                '|',
            ) {
                if end - i > 3 && is_brace_at(toks, i + 3) {
                    match &toks[i + 3] {
                        Token::Brace(b) => {
                            proof {
                                lemma_tokens_view_index(b@);
                            }
                            let slot = st.raws.len();
                            let text = p_text_of(b, 0, b.len());
                            let ghost textv = text@;
                            st.raws.push(text);
                            proof {
                                assert(st@.raws =~= old(st)@.raws.push(textv));
                                assert(st@ == (SlotsV {
                                    raws: old(st)@.raws.push(textv),
                                    ..old(st)@
                                }));
                            }
                            let n1 = EmitNode::Literal(open);
                            proof {
                                lemma_nodes_view_push(out@, n1);
                            }
                            out.push(n1);
                            let node = EmitNode::Raw { slot };
                            let ghost nv = node@;
                            proof {
                                lemma_nodes_view_push(out@, node);
                            }
                            out.push(node);
                            let n2 = EmitNode::Literal(String::from_str("\""));
                            let ghost n2v = n2@;
                            proof {
                                lemma_nodes_view_push(out@, n2);
                            }
                            out.push(n2);
                            proof {
                                assert(base.push(NodeV::Literal(openv)).push(nv).push(n2v)
                                    =~= base + (seq![NodeV::Literal(openv)] + seq![nv] + seq![
                                    n2v,
                                ]));
                            }
                            Ok(i + 4)
                        },
                        _ => Err(ParseFault { kind: ParseError::UnexpectedToken, at: i + 3 }),
                    }
                } else {
                    let k = p_until_semi(toks, i + 3, end);
                    if k >= end {
                        Err(ParseFault { kind: ParseError::UnexpectedToken, at: k })
                    } else {
                        let slot = st.raws.len();
                        let text = p_text_of(toks, i + 3, k);
                        let ghost textv = text@;
                        st.raws.push(text);
                        proof {
                            assert(st@.raws =~= old(st)@.raws.push(textv));
                            assert(st@ == (SlotsV { raws: old(st)@.raws.push(textv), ..old(st)@ }));
                        }
                        let n1 = EmitNode::Literal(open);
                        proof {
                            lemma_nodes_view_push(out@, n1);
                        }
                        out.push(n1);
                        let node = EmitNode::Raw { slot };
                        let ghost nv = node@;
                        proof {
                            lemma_nodes_view_push(out@, node);
                        }
                        out.push(node);
                        let n2 = EmitNode::Literal(String::from_str("\""));
                        let ghost n2v = n2@;
                        proof {
                            lemma_nodes_view_push(out@, n2);
                        }
                        out.push(n2);
                        proof {
                            assert(base.push(NodeV::Literal(openv)).push(nv).push(n2v) =~= base
                                + (seq![NodeV::Literal(openv)] + seq![nv] + seq![n2v]));
                        }
                        Ok(k + 1)
                    }
                }
            } else {
                Err(ParseFault { kind: ParseError::UnexpectedToken, at: i })
            }
        },
        _ => Err(ParseFault { kind: ParseError::UnexpectedToken, at: i }),
    }
}

/// An `if` chain from the keyword at `i`.
fn p_if_chain(
    toks: &Vec<Token>,
    i: usize,
    end: usize,
    ictx: EscapeCtx,
    st: &mut Slots,
    branches: Vec<Branch>,
    fuel: u64,
) -> (r: Result<(EmitNode, usize), ParseFault>)
    requires
        i < end,
        end <= toks@.len(),
    ensures
        ({
            let sp = sp_if_chain(
                tokens_view(toks@),
                i as int,
                end as int,
                ictx,
                old(st)@,
                branches_view(branches@),
                fuel,
            );
            match r {
                Ok((node, j)) => sp is Ok && node@ == sp->Ok_0.0 && j as int == sp->Ok_0.1
                    && final(st)@ == sp->Ok_0.2 && j <= end,
                Err(f) => sp == Err::<(NodeV, int, SlotsV), FaultV>(f@),
            }
        }),
    decreases fuel,
{
    proof {
        lemma_tokens_view_index(toks@);
    }
    if fuel == 0 {
        return Err(ParseFault { kind: ParseError::UnexpectedToken, at: i });
    }
    let j = p_until_brace(toks, i + 1, end);
    if j >= end {
        return Err(ParseFault { kind: ParseError::UnexpectedToken, at: j });
    }
    match &toks[j] {
        Token::Brace(b) => {
            proof {
                lemma_tokens_view_index(b@);
            }
            let gslot = st.guards.len();
            let gtext = p_text_of(toks, i + 1, j);
            let ghost gtextv = gtext@;
            st.guards.push(gtext);
            proof {
                assert(st@.guards =~= old(st)@.guards.push(gtextv));
                assert(st@ == (SlotsV { guards: old(st)@.guards.push(gtextv), ..old(st)@ }));
            }
            let mut bn: Vec<EmitNode> = Vec::new();
            match p_nodes(b, 0, b.len(), ictx, st, fuel - 1, &mut bn) {
                Ok(_) => {},
                Err(f) => {
                    return Err(f);
                },
            }
            proof {
                lemma_nodes_view_index(bn@);
            }
            let mut branches = branches;
            let ghost bsv = branches_view(branches@);
            let br = Branch { guard: gslot, body: bn };
            let ghost brv = BranchV { guard: br.guard, body: nodes_view(br.body@) };
            proof {
                lemma_branches_view_push(branches@, br);
            }
            branches.push(br);
            if end - j > 2 && ident_at(toks, j + 1, "else") && ident_at(toks, j + 2, "if") {
                p_if_chain(toks, j + 2, end, ictx, st, branches, fuel - 1)
            } else if end - j > 2 && ident_at(toks, j + 1, "else") {
                match &toks[j + 2] {
                    Token::Brace(eb) => {
                        proof {
                            lemma_tokens_view_index(eb@);
                        }
                        let mut en: Vec<EmitNode> = Vec::new();
                        match p_nodes(eb, 0, eb.len(), ictx, st, fuel - 1, &mut en) {
                            Ok(_) => {},
                            Err(f) => {
                                return Err(f);
                            },
                        }
                        proof {
                            lemma_nodes_view_index(en@);
                        }
                        Ok((EmitNode::Cond { branches, otherwise: en }, j + 3))
                    },
                    _ => Err(ParseFault { kind: ParseError::UnexpectedToken, at: j + 2 }),
                }
            } else if end - j > 1 && ident_at(toks, j + 1, "else") {
                Err(ParseFault { kind: ParseError::UnexpectedToken, at: j + 2 })
            } else {
                proof {
                    assert(nodes_view(Seq::<EmitNode>::empty()) == Seq::<NodeV>::empty());
                }
                Ok((EmitNode::Cond { branches, otherwise: Vec::new() }, j + 1))
            }
        },
        _ => Err(ParseFault { kind: ParseError::UnexpectedToken, at: j }),
    }
}

/// A `match` from the keyword at `i`.
fn p_match(
    toks: &Vec<Token>,
    i: usize,
    end: usize,
    ictx: EscapeCtx,
    st: &mut Slots,
    fuel: u64,
) -> (r: Result<(EmitNode, usize), ParseFault>)
    requires
        i < end,
        end <= toks@.len(),
    ensures
        ({
            let sp = sp_match(tokens_view(toks@), i as int, end as int, ictx, old(st)@, fuel);
            match r {
                Ok((node, j)) => sp is Ok && node@ == sp->Ok_0.0 && j as int == sp->Ok_0.1
                    && final(st)@ == sp->Ok_0.2 && j <= end,
                Err(f) => sp == Err::<(NodeV, int, SlotsV), FaultV>(f@),
            }
        }),
    decreases fuel,
{
    proof {
        lemma_tokens_view_index(toks@);
    }
    if fuel == 0 {
        return Err(ParseFault { kind: ParseError::UnexpectedToken, at: i });
    }
    let j = p_until_brace(toks, i + 1, end);
    if j >= end {
        return Err(ParseFault { kind: ParseError::UnexpectedToken, at: j });
    }
    match &toks[j] {
        Token::Brace(arms_toks) => {
            proof {
                lemma_tokens_view_index(arms_toks@);
            }
            let mut pats: Vec<String> = Vec::new();
            let mut arms: Vec<EmitNode> = Vec::new();
            match p_arms(arms_toks, 0, i, ictx, st, fuel - 1, &mut pats, &mut arms) {
                Ok(_) => {},
                Err(f) => {
                    return Err(f);
                },
            }
            let sel = st.matches.len();
            let scrut = p_text_of(toks, i + 1, j);
            let info = MatchInfo { scrutinee: scrut, patterns: pats };
            let ghost infov = info@;
            st.matches.push(info);
            proof {
                let sp1 = sp_arms(tokens_view(arms_toks@), 0, i as int, ictx, old(st)@, (fuel
                    - 1) as u64);
                assert(st@.matches =~= sp1->Ok_0.2.matches.push(infov));
                assert(st@ == (SlotsV { matches: sp1->Ok_0.2.matches.push(infov), ..sp1->Ok_0.2 }));
                assert(infov.patterns =~= Seq::<Seq<char>>::empty() + sp1->Ok_0.0);
                lemma_nodes_view_index(arms@);
                assert(nodes_view(arms@) =~= Seq::<NodeV>::empty() + sp1->Ok_0.1);
            }
            Ok((EmitNode::Match { sel, arms }, j + 1))
        },
        _ => Err(ParseFault { kind: ParseError::UnexpectedToken, at: j }),
    }
}

/// The arms of a match, appended to `pats` and `arms`.
#[verifier::rlimit(80)]
fn p_arms(
    ts: &Vec<Token>,
    j: usize,
    at: usize,
    ictx: EscapeCtx,
    st: &mut Slots,
    fuel: u64,
    pats: &mut Vec<String>,
    arms: &mut Vec<EmitNode>,
) -> (r: Result<(), ParseFault>)
    requires
        j <= ts@.len(),
    ensures
        ({
            let sp = sp_arms(tokens_view(ts@), j as int, at as int, ictx, old(st)@, fuel);
            match r {
                Ok(_) => sp is Ok && final(pats).deep_view() == old(pats).deep_view()
                    + sp->Ok_0.0 && nodes_view(final(arms)@) == nodes_view(old(arms)@)
                    + sp->Ok_0.1 && final(st)@ == sp->Ok_0.2,
                Err(f) => sp == Err::<(Seq<Seq<char>>, Seq<NodeV>, SlotsV), FaultV>(f@),
            }
        }),
    decreases fuel,
{
    proof {
        lemma_tokens_view_index(ts@);
    }
    if fuel == 0 {
        return Err(ParseFault { kind: ParseError::UnexpectedToken, at });
    }
    let n = ts.len();
    if j >= n {
        proof {
            assert(pats.deep_view() + Seq::<Seq<char>>::empty() =~= pats.deep_view());
            assert(nodes_view(arms@) + Seq::<NodeV>::empty() =~= nodes_view(arms@));
        }
        return Ok(());
    }
    let k = p_until_arrow(ts, j, n);
    if k >= n {
        return Err(ParseFault { kind: ParseError::UnexpectedToken, at });
    }
    let pat = p_text_of(ts, j, k);
    let ghost patv = pat@;
    let m = if n - k > 2 {
        k + 2
    } else {
        n
    };
    let ghost pbase = pats.deep_view();
    let ghost abase = nodes_view(arms@);
    if m < n && is_brace_at(ts, m) {
        match &ts[m] {
            Token::Brace(b) => {
                proof {
                    lemma_tokens_view_index(b@);
                }
                let mut bn: Vec<EmitNode> = Vec::new();
                match p_nodes(b, 0, b.len(), ictx, st, fuel - 1, &mut bn) {
                    Ok(_) => {},
                    Err(f) => {
                        return Err(f);
                    },
                }
                proof {
                    lemma_nodes_view_index(bn@);
                }
                let next = if n - m > 1 && tok_punct_at(ts, m + 1, ',') {
                    m + 2
                } else {
                    m + 1
                };
                pats.push(pat);
                let arm = EmitNode::Group(bn);
                let ghost armv = arm@;
                proof {
                    assert(pats.deep_view() =~= pbase.push(patv));
                    lemma_nodes_view_push(arms@, arm);
                }
                arms.push(arm);
                let ghost mid = st@;
                match p_arms(ts, next, at, ictx, st, fuel - 1, pats, arms) {
                    Ok(_) => {
                        proof {
                            let sp1 = sp_arms(
                                tokens_view(ts@),
                                next as int,
                                at as int,
                                ictx,
                                mid,
                                (fuel - 1) as u64,
                            );
                            assert(pbase.push(patv) + sp1->Ok_0.0 =~= pbase + (seq![patv]
                                + sp1->Ok_0.0));
                            assert(abase.push(armv) + sp1->Ok_0.1 =~= abase + (seq![armv]
                                + sp1->Ok_0.1));
                        }
                        Ok(())
                    },
                    Err(f) => Err(f),
                }
            },
            _ => Err(ParseFault { kind: ParseError::UnexpectedToken, at }),
        }
    } else {
        let c = p_until_comma(ts, m, n);
        let mut bn: Vec<EmitNode> = Vec::new();
        match p_nodes(ts, m, c, ictx, st, fuel - 1, &mut bn) {
            Ok(_) => {},
            Err(f) => {
                return Err(f);
            },
        }
        proof {
            lemma_nodes_view_index(bn@);
        }
        let next = if c < n {
            c + 1
        } else {
            n
        };
        pats.push(pat);
        let arm = EmitNode::Group(bn);
        let ghost armv = arm@;
        proof {
            assert(pats.deep_view() =~= pbase.push(patv));
            lemma_nodes_view_push(arms@, arm);
        }
        arms.push(arm);
        let ghost mid = st@;
        match p_arms(ts, next, at, ictx, st, fuel - 1, pats, arms) {
            Ok(_) => {
                proof {
                    let sp1 = sp_arms(
                        tokens_view(ts@),
                        next as int,
                        at as int,
                        ictx,
                        mid,
                        (fuel - 1) as u64,
                    );
                    assert(pbase.push(patv) + sp1->Ok_0.0 =~= pbase + (seq![patv] + sp1->Ok_0.0));
                    assert(abase.push(armv) + sp1->Ok_0.1 =~= abase + (seq![armv] + sp1->Ok_0.1));
                }
                Ok(())
            },
            Err(f) => Err(f),
        }
    }
}

/// A `for` loop from the keyword at `i`.
fn p_for(
    toks: &Vec<Token>,
    i: usize,
    end: usize,
    ictx: EscapeCtx,
    st: &mut Slots,
    fuel: u64,
) -> (r: Result<(EmitNode, usize), ParseFault>)
    requires
        i < end,
        end <= toks@.len(),
    ensures
        ({
            let sp = sp_for(tokens_view(toks@), i as int, end as int, ictx, old(st)@, fuel);
            match r {
                Ok((node, j)) => sp is Ok && node@ == sp->Ok_0.0 && j as int == sp->Ok_0.1
                    && final(st)@ == sp->Ok_0.2 && j <= end,
                Err(f) => sp == Err::<(NodeV, int, SlotsV), FaultV>(f@),
            }
        }),
    decreases fuel,
{
    proof {
        lemma_tokens_view_index(toks@);
    }
    if fuel == 0 {
        return Err(ParseFault { kind: ParseError::UnexpectedToken, at: i });
    }
    let p = p_until_in(toks, i + 1, end);
    if p >= end {
        return Err(ParseFault { kind: ParseError::UnexpectedToken, at: p });
    }
    let j = p_until_brace(toks, p + 1, end);
    if j >= end {
        return Err(ParseFault { kind: ParseError::UnexpectedToken, at: j });
    }
    match &toks[j] {
        Token::Brace(b) => {
            proof {
                lemma_tokens_view_index(b@);
            }
            let mut bn: Vec<EmitNode> = Vec::new();
            match p_nodes(b, 0, b.len(), ictx, st, fuel - 1, &mut bn) {
                Ok(_) => {},
                Err(f) => {
                    return Err(f);
                },
            }
            proof {
                lemma_nodes_view_index(bn@);
            }
            let slot = st.loops.len();
            let pat = p_text_of(toks, i + 1, p);
            let iter = p_text_of(toks, p + 1, j);
            let info = LoopInfo { pattern: pat, iterable: iter };
            let ghost infov = info@;
            let ghost mid = st@;
            st.loops.push(info);
            proof {
                assert(st@.loops =~= mid.loops.push(infov));
                assert(st@ == (SlotsV { loops: mid.loops.push(infov), ..mid }));
                let spb = sp_nodes(tokens_view(b@), 0, b@.len() as int, ictx, old(st)@, (fuel
                    - 1) as u64);
                assert(nodes_view(bn@) =~= Seq::<NodeV>::empty() + spb->Ok_0.0);
            }
            Ok((EmitNode::Loop { slot, body: bn }, j + 1))
        },
        _ => Err(ParseFault { kind: ParseError::UnexpectedToken, at: j }),
    }
}

/// An escape hatch at text position, appended to `out`.
fn p_hatch(toks: &Vec<Token>, i: usize, end: usize, st: &mut Slots, out: &mut Vec<EmitNode>) -> (r:
    Result<usize, ParseFault>)
    requires
        i < end,
        end <= toks@.len(),
    ensures
        ({
            let sp = sp_hatch(tokens_view(toks@), i as int, end as int, old(st)@);
            match r {
                Ok(j) => sp is Ok && nodes_view(final(out)@) == nodes_view(old(out)@)
                    + sp->Ok_0.0 && j as int == sp->Ok_0.1 && final(st)@ == sp->Ok_0.2 && j
                    <= end,
                Err(f) => sp == Err::<(Seq<NodeV>, int, SlotsV), FaultV>(f@),
            }
        }),
{
    proof {
        lemma_tokens_view_index(toks@);
    }
    let ghost base = nodes_view(out@);
    if end - i > 2 && is_ident_at(toks, i + 1) && tok_punct_at(toks, i + 2, '|') {
        if end - i > 3 && is_brace_at(toks, i + 3) {
            match &toks[i + 3] {
                Token::Brace(b) => {
                    proof {
                        lemma_tokens_view_index(b@);
                    }
                    let slot = st.raws.len();
                    let text = p_text_of(b, 0, b.len());
                    let ghost textv = text@;
                    st.raws.push(text);
                    proof {
                        assert(st@.raws =~= old(st)@.raws.push(textv));
                        assert(st@ == (SlotsV { raws: old(st)@.raws.push(textv), ..old(st)@ }));
                    }
                    let node = EmitNode::Raw { slot };
                    proof {
                        lemma_nodes_view_push(out@, node);
                        assert(base.push(node@) =~= base + seq![node@]);
                    }
                    out.push(node);
                    Ok(i + 4)
                },
                _ => Err(ParseFault { kind: ParseError::UnexpectedToken, at: i + 3 }),
            }
        } else {
            let k = p_until_semi(toks, i + 3, end);
            if k >= end {
                Err(ParseFault { kind: ParseError::UnexpectedToken, at: k })
            } else {
                let slot = st.raws.len();
                let text = p_text_of(toks, i + 3, k);
                let ghost textv = text@;
                st.raws.push(text);
                proof {
                    assert(st@.raws =~= old(st)@.raws.push(textv));
                    assert(st@ == (SlotsV { raws: old(st)@.raws.push(textv), ..old(st)@ }));
                }
                let node = EmitNode::Raw { slot };
                proof {
                    lemma_nodes_view_push(out@, node);
                    assert(base.push(node@) =~= base + seq![node@]);
                }
                out.push(node);
                Ok(k + 1)
            }
        }
    } else {
        Err(ParseFault { kind: ParseError::UnexpectedToken, at: i })
    }
}

/// Saturating 64-bit addition.
fn sat_add64_exec(a: u64, b: u64) -> (r: u64)
    ensures
        r == sat_add64(a, b),
{
    if a > u64::MAX - b {
        u64::MAX
    } else {
        a + b
    }
}

/// The weight of one token.
fn p_token_weight(t: &Token) -> (r: u64)
    ensures
        r == token_weight(t@),
    decreases t, 1int,
{
    match t {
        Token::Ident(_) => 1,
        Token::Text(_) => 1,
        Token::Punct(_) => 1,
        Token::Brace(ts) => sat_add64_exec(2, p_tokens_weight(ts, 0)),
        Token::Paren(ts) => sat_add64_exec(2, p_tokens_weight(ts, 0)),
        Token::Bracket(ts) => sat_add64_exec(2, p_tokens_weight(ts, 0)),
        Token::Comment(ts) => sat_add64_exec(2, p_tokens_weight(ts, 0)),
        Token::CharData(ts) => sat_add64_exec(2, p_tokens_weight(ts, 0)),
    }
}

/// The total weight of the tokens from `i` on.
fn p_tokens_weight(ts: &Vec<Token>, i: usize) -> (r: u64)
    requires
        i <= ts@.len(),
    ensures
        r == tokens_weight(tokens_view(ts@), i as int),
    decreases ts, ts@.len() - i,
{
    proof {
        lemma_tokens_view_index(ts@);
    }
    if i >= ts.len() {
        0
    } else {
        sat_add64_exec(p_token_weight(&ts[i]), p_tokens_weight(ts, i + 1))
    }
}

/// The parser's recursion allowance for a token stream.
fn p_fuel_for(ts: &Vec<Token>) -> (r: u64)
    ensures
        r == fuel_for(tokens_view(ts@)),
{
    let w = p_tokens_weight(ts, 0);
    if w >= 0x00ff_ffff_ffff_ffff {
        u64::MAX
    } else {
        16 * w + 16
    }
}

/// Compiles a source token stream into an emit plan: tokenize, then parse
/// every construct to the end of the stream. On success the plan's slot
/// tables list, in order, every host expression the plan refers to; on
/// failure the fault names the offending construct and its rough position,
/// and the same input always yields the same outcome.
pub fn parse(src: &Vec<SrcToken>) -> (r: Result<Plan, ParseFault>)
    ensures
        ({
            let sp = sp_parse(crate::token::src_view(src@));
            match r {
                Ok(plan) => sp is Ok && plan@ == sp->Ok_0,
                Err(f) => sp == Err::<PlanV, FaultV>(f@),
            }
        }),
{
    let ts = match crate::token::tokenize(src) {
        Ok(ts) => ts,
        Err(f) => {
            return Err(f);
        },
    };
    let fuel = p_fuel_for(&ts);
    let mut st = Slots::new();
    let mut root: Vec<EmitNode> = Vec::new();
    let ghost st0 = st@;
    proof {
        lemma_tokens_view_index(ts@);
        assert(st0 == slots_empty());
    }
    match p_nodes(&ts, 0, ts.len(), EscapeCtx::Text, &mut st, fuel, &mut root) {
        Ok(_) => {
            proof {
                lemma_tokens_view_index(ts@);
                assert(st0 == slots_empty());
                let spn = sp_nodes(
                    tokens_view(ts@),
                    0,
                    ts@.len() as int,
                    EscapeCtx::Text,
                    slots_empty(),
                    fuel,
                );
                assert(spn is Ok);
                assert(nodes_view(Seq::<EmitNode>::empty()) == Seq::<NodeV>::empty());
                assert(nodes_view(root@) =~= Seq::<NodeV>::empty() + spn->Ok_0.0);
                let spp = sp_parse(crate::token::src_view(src@));
                assert(spp is Ok);
                assert(spp->Ok_0 == (PlanV { root: spn->Ok_0.0, slots: spn->Ok_0.1 }));
                assert(spp->Ok_0 == (PlanV { root: nodes_view(root@), slots: st@ }));
            }
            Ok(Plan { root, slots: st })
        },
        Err(f) => Err(f),
    }
}

/// The plan of a whole source stream: tokenize, then parse every construct
/// to the end. Success and every fault are fixed by the input alone.
pub open spec fn sp_parse(src: Seq<crate::token::SrcTokenV>) -> Result<PlanV, FaultV> {
    match crate::token::sp_tokenize(src) {
        Err(f) => Err(f),
        Ok(ts) => match sp_nodes(
            ts,
            0,
            ts.len() as int,
            EscapeCtx::Text,
            slots_empty(),
            fuel_for(ts),
        ) {
            Err(f) => Err(f),
            Ok((ns, st)) => Ok(PlanV { root: ns, slots: st }),
        },
    }
}

} // verus!
