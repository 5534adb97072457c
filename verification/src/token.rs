//! Lexical layer: the source token stream handed in by the host, the
//! grouped token stream the tokenizer produces from it, and the tokenizer
//! itself.

use vstd::prelude::*;
use vstd::string::StrSliceExecFns;
use vstd::string::StringExecFns;
use crate::escape::push_char;

verus! {

/// A group delimiter.
#[derive(Clone, Copy, PartialEq, Eq, Structural, Debug)]
pub enum Delim {
    Brace,
    Paren,
    Bracket,
}

/// One token of the host's markup stream, as the host's lexer hands it in:
/// words, literals, single punctuation characters and raw group delimiters.
pub enum SrcToken {
    /// An identifier or keyword.
    Ident(String),
    /// A string literal (its content, unquoted).
    LitStr(String),
    /// An unsigned integer literal.
    LitInt(u64),
    /// A character literal.
    LitChar(char),
    /// A single punctuation character.
    Punct(char),
    /// An opening delimiter.
    Open(Delim),
    /// A closing delimiter.
    Close(Delim),
}

/// The mathematical value of a source token.
pub enum SrcTokenV {
    Ident(Seq<char>),
    LitStr(Seq<char>),
    LitInt(u64),
    LitChar(char),
    Punct(char),
    Open(Delim),
    Close(Delim),
}

impl View for SrcToken {
    type V = SrcTokenV;

    open spec fn view(&self) -> SrcTokenV {
        match self {
            SrcToken::Ident(s) => SrcTokenV::Ident(s@),
            SrcToken::LitStr(s) => SrcTokenV::LitStr(s@),
            SrcToken::LitInt(n) => SrcTokenV::LitInt(*n),
            SrcToken::LitChar(c) => SrcTokenV::LitChar(*c),
            SrcToken::Punct(c) => SrcTokenV::Punct(*c),
            SrcToken::Open(d) => SrcTokenV::Open(*d),
            SrcToken::Close(d) => SrcTokenV::Close(*d),
        }
    }
}

/// The values of a source token sequence.
pub open spec fn src_view(ts: Seq<SrcToken>) -> Seq<SrcTokenV> {
    Seq::new(ts.len(), |i: int| ts[i]@)
}

/// One lexical token after grouping: text literals, identifiers,
/// punctuation, balanced groups captured whole, and comment and CDATA
/// blocks captured with their body pieces.
pub enum Token {
    /// An identifier or keyword.
    Ident(String),
    /// Literal text, inserted into output as it stands.
    Text(String),
    /// A single punctuation character.
    Punct(char),
    /// A braced group `{ ... }`.
    Brace(Vec<Token>),
    /// A parenthesized group `( ... )`.
    Paren(Vec<Token>),
    /// A bracketed group `[ ... ]`.
    Bracket(Vec<Token>),
    /// A `<!-- ... -->` block; the body holds text and braced groups only.
    Comment(Vec<Token>),
    /// A `<![CDATA[ ... ]]>` block; the body holds text and braced groups only.
    CharData(Vec<Token>),
}

/// The mathematical value of a lexical token.
pub enum TokenV {
    Ident(Seq<char>),
    Text(Seq<char>),
    Punct(char),
    Brace(Seq<TokenV>),
    Paren(Seq<TokenV>),
    Bracket(Seq<TokenV>),
    Comment(Seq<TokenV>),
    CharData(Seq<TokenV>),
}

/// The value of a lexical token, groups included.
pub open spec fn token_view(t: Token) -> TokenV
    decreases t, 1int,
{
    match t {
        Token::Ident(s) => TokenV::Ident(s@),
        Token::Text(s) => TokenV::Text(s@),
        Token::Punct(c) => TokenV::Punct(c),
        Token::Brace(ts) => TokenV::Brace(tokens_view(ts@)),
        Token::Paren(ts) => TokenV::Paren(tokens_view(ts@)),
        Token::Bracket(ts) => TokenV::Bracket(tokens_view(ts@)),
        Token::Comment(ts) => TokenV::Comment(tokens_view(ts@)),
        Token::CharData(ts) => TokenV::CharData(tokens_view(ts@)),
    }
}

/// The values of a lexical token sequence.
pub open spec fn tokens_view(ts: Seq<Token>) -> Seq<TokenV>
    decreases ts, 0int,
{
    if ts.len() == 0 {
        Seq::empty()
    } else {
        seq![token_view(ts[0])] + tokens_view(ts.drop_first())
    }
}

impl View for Token {
    type V = TokenV;

    open spec fn view(&self) -> TokenV {
        token_view(*self)
    }
}

/// Length and element values of a token sequence's view.
pub proof fn lemma_tokens_view_index(ts: Seq<Token>)
    ensures
        tokens_view(ts).len() == ts.len(),
        forall|i: int| 0 <= i < ts.len() ==> tokens_view(ts)[i] == token_view(ts[i]),
    decreases ts,
{
    if ts.len() > 0 {
        lemma_tokens_view_index(ts.drop_first());
        assert forall|i: int| 0 <= i < ts.len() implies tokens_view(ts)[i] == token_view(
            ts[i],
        ) by {
            if i > 0 {
                assert(tokens_view(ts)[i] == tokens_view(ts.drop_first())[i - 1]);
                assert(ts.drop_first()[i - 1] == ts[i]);
            }
        }
    }
}

} // verus!

verus! {

/// The decimal digit character for `d` in `0 ..= 9`.
pub open spec fn dec_digit(d: int) -> char {
    if d == 0 {
        '0'
    } else if d == 1 {
        '1'
    } else if d == 2 {
        '2'
    } else if d == 3 {
        '3'
    } else if d == 4 {
        '4'
    } else if d == 5 {
        '5'
    } else if d == 6 {
        '6'
    } else if d == 7 {
        '7'
    } else if d == 8 {
        '8'
    } else {
        '9'
    }
}

/// The decimal digits of `n`, most significant first.
pub open spec fn u64_dec_spec(n: int) -> Seq<char>
    decreases n,
{
    if n < 10 {
        seq![dec_digit(n)]
    } else {
        u64_dec_spec(n / 10).push(dec_digit(n % 10))
    }
}

fn digit_char(d: u64) -> (r: char)
    requires
        d < 10,
    ensures
        r == dec_digit(d as int),
{
    if d == 0 {
        '0'
    } else if d == 1 {
        '1'
    } else if d == 2 {
        '2'
    } else if d == 3 {
        '3'
    } else if d == 4 {
        '4'
    } else if d == 5 {
        '5'
    } else if d == 6 {
        '6'
    } else if d == 7 {
        '7'
    } else if d == 8 {
        '8'
    } else {
        '9'
    }
}

/// Writes `n` in decimal.
pub fn u64_dec(n: u64) -> (r: String)
    ensures
        r@ == u64_dec_spec(n as int),
    decreases n,
{
    if n < 10 {
        let mut s = String::new();
        push_char(&mut s, digit_char(n));
        proof {
            assert(Seq::<char>::empty() + seq![dec_digit(n as int)] =~= seq![
                dec_digit(n as int),
            ]);
        }
        s
    } else {
        let mut s = u64_dec(n / 10);
        push_char(&mut s, digit_char(n % 10));
        s
    }
}

/// The kinds of build-time faults. All are permanent for a given input:
/// the same token stream always faults the same way.
#[derive(Clone, Copy, PartialEq, Eq, Structural, Debug)]
pub enum ParseError {
    /// A token that no production allows here.
    UnexpectedToken,
    /// A comment, CDATA section, brace, parenthesis or bracket never closed.
    UnterminatedConstruct,
    /// A name was expected: an identifier or a literal string.
    ExpectedIdentifierOrLiteral,
    /// A tag missing its closing `>` or `/>`.
    MissingClosingBracket,
    /// A malformed closing tag, such as `</x/>`.
    InvalidClosingTag,
}

/// A build-time fault: its kind and the index of the source token at which
/// it was noticed.
#[derive(Clone, Copy, PartialEq, Eq, Structural, Debug)]
pub struct ParseFault {
    pub kind: ParseError,
    pub at: usize,
}

/// The mathematical value of a fault.
pub struct FaultV {
    pub kind: ParseError,
    pub at: int,
}

impl View for ParseFault {
    type V = FaultV;

    open spec fn view(&self) -> FaultV {
        FaultV { kind: self.kind, at: self.at as int }
    }
}

/// The context the tokenizer is reading in: the top level, inside a
/// delimited group, or inside a comment or CDATA block.
#[derive(Clone, Copy, PartialEq, Eq, Structural, Debug)]
pub enum CtxKind {
    Top,
    Group(Delim),
    Comment,
    CData,
}

/// A suspended context: what was accumulated before descending into a
/// group or block, and where that descent started.
pub struct Frame {
    pub kind: CtxKind,
    pub acc: Vec<Token>,
    pub at: usize,
}

/// The mathematical value of a suspended context.
pub struct FrameV {
    pub kind: CtxKind,
    pub acc: Seq<TokenV>,
    pub at: int,
}

impl View for Frame {
    type V = FrameV;

    open spec fn view(&self) -> FrameV {
        FrameV { kind: self.kind, acc: tokens_view(self.acc@), at: self.at as int }
    }
}

/// The values of a frame stack.
pub open spec fn frames_view(fs: Seq<Frame>) -> Seq<FrameV> {
    Seq::new(fs.len(), |i: int| fs[i]@)
}

/// The text a source token contributes when it is read verbatim, as inside
/// a comment or CDATA body.
pub open spec fn src_text(t: SrcTokenV) -> Seq<char> {
    match t {
        SrcTokenV::Ident(s) => s,
        SrcTokenV::LitStr(s) => s,
        SrcTokenV::LitInt(n) => u64_dec_spec(n as int),
        SrcTokenV::LitChar(c) => seq![c],
        SrcTokenV::Punct(c) => seq![c],
        SrcTokenV::Open(Delim::Brace) => seq!['{'],
        SrcTokenV::Open(Delim::Paren) => seq!['('],
        SrcTokenV::Open(Delim::Bracket) => seq!['['],
        SrcTokenV::Close(Delim::Brace) => seq!['}'],
        SrcTokenV::Close(Delim::Paren) => seq![')'],
        SrcTokenV::Close(Delim::Bracket) => seq![']'],
    }
}

/// Appends text to a token list, merging it into a trailing text token so
/// that adjacent literal pieces form one unit.
pub open spec fn push_text(acc: Seq<TokenV>, t: Seq<char>) -> Seq<TokenV> {
    if acc.len() > 0 && acc.last() is Text {
        acc.update(acc.len() - 1, TokenV::Text(acc.last()->Text_0 + t))
    } else {
        acc.push(TokenV::Text(t))
    }
}

/// The group token for a closed delimiter.
pub open spec fn group_token(d: Delim, acc: Seq<TokenV>) -> TokenV {
    match d {
        Delim::Brace => TokenV::Brace(acc),
        Delim::Paren => TokenV::Paren(acc),
        Delim::Bracket => TokenV::Bracket(acc),
    }
}

/// True when `<!--` starts at `i`.
pub open spec fn comment_opens(src: Seq<SrcTokenV>, i: int) -> bool {
    &&& i + 3 < src.len()
    &&& src[i] == SrcTokenV::Punct('<')
    &&& src[i + 1] == SrcTokenV::Punct('!')
    &&& src[i + 2] == SrcTokenV::Punct('-')
    &&& src[i + 3] == SrcTokenV::Punct('-')
}

/// True when `-->` starts at `i`.
pub open spec fn comment_closes(src: Seq<SrcTokenV>, i: int) -> bool {
    &&& i + 2 < src.len()
    &&& src[i] == SrcTokenV::Punct('-')
    &&& src[i + 1] == SrcTokenV::Punct('-')
    &&& src[i + 2] == SrcTokenV::Punct('>')
}

/// True when `<![CDATA[` starts at `i`.
pub open spec fn cdata_opens(src: Seq<SrcTokenV>, i: int) -> bool {
    &&& i + 4 < src.len()
    &&& src[i] == SrcTokenV::Punct('<')
    &&& src[i + 1] == SrcTokenV::Punct('!')
    &&& src[i + 2] == SrcTokenV::Open(Delim::Bracket)
    &&& src[i + 3] == SrcTokenV::Ident("CDATA"@)
    &&& src[i + 4] == SrcTokenV::Open(Delim::Bracket)
}

/// True when `]]>` starts at `i`.
pub open spec fn cdata_closes(src: Seq<SrcTokenV>, i: int) -> bool {
    &&& i + 2 < src.len()
    &&& src[i] == SrcTokenV::Close(Delim::Bracket)
    &&& src[i + 1] == SrcTokenV::Close(Delim::Bracket)
    &&& src[i + 2] == SrcTokenV::Punct('>')
}

/// What the tokenizer produces from position `i` onward, given the
/// suspended contexts, the tokens of the current context, its kind, and
/// the position where it started.
///
/// Groups nest; comment and CDATA blocks collect text and braced groups
/// and coalesce adjacent text pieces; literal tokens elsewhere become text
/// tokens as they stand. A context still open at the end of input is an
/// unterminated construct.
pub open spec fn sp_tokenize_at(
    src: Seq<SrcTokenV>,
    i: int,
    frames: Seq<FrameV>,
    cur: Seq<TokenV>,
    ck: CtxKind,
    cat: int,
) -> Result<Seq<TokenV>, FaultV>
    decreases src.len() - i,
{
    if i < 0 || i >= src.len() {
        if ck is Top {
            Ok(cur)
        } else {
            Err(FaultV { kind: ParseError::UnterminatedConstruct, at: cat })
        }
    } else if ck is Comment {
        if comment_closes(src, i) {
            if frames.len() == 0 {
                Err(FaultV { kind: ParseError::UnexpectedToken, at: i })
            } else {
                let f = frames.last();
                sp_tokenize_at(
                    src,
                    i + 3,
                    frames.drop_last(),
                    f.acc.push(TokenV::Comment(cur)),
                    f.kind,
                    f.at,
                )
            }
        } else if src[i] == SrcTokenV::Open(Delim::Brace) {
            sp_tokenize_at(
                src,
                i + 1,
                frames.push(FrameV { kind: ck, acc: cur, at: cat }),
                Seq::empty(),
                CtxKind::Group(Delim::Brace),
                i,
            )
        } else {
            sp_tokenize_at(src, i + 1, frames, push_text(cur, src_text(src[i])), ck, cat)
        }
    } else if ck is CData {
        if cdata_closes(src, i) {
            if frames.len() == 0 {
                Err(FaultV { kind: ParseError::UnexpectedToken, at: i })
            } else {
                let f = frames.last();
                sp_tokenize_at(
                    src,
                    i + 3,
                    frames.drop_last(),
                    f.acc.push(TokenV::CharData(cur)),
                    f.kind,
                    f.at,
                )
            }
        } else if src[i] == SrcTokenV::Open(Delim::Brace) {
            sp_tokenize_at(
                src,
                i + 1,
                frames.push(FrameV { kind: ck, acc: cur, at: cat }),
                Seq::empty(),
                CtxKind::Group(Delim::Brace),
                i,
            )
        } else {
            sp_tokenize_at(src, i + 1, frames, push_text(cur, src_text(src[i])), ck, cat)
        }
    } else if comment_opens(src, i) {
        sp_tokenize_at(
            src,
            i + 4,
            frames.push(FrameV { kind: ck, acc: cur, at: cat }),
            Seq::empty(),
            CtxKind::Comment,
            i,
        )
    } else if cdata_opens(src, i) {
        sp_tokenize_at(
            src,
            i + 5,
            frames.push(FrameV { kind: ck, acc: cur, at: cat }),
            Seq::empty(),
            CtxKind::CData,
            i,
        )
    } else {
        match src[i] {
            SrcTokenV::Open(d) => sp_tokenize_at(
                src,
                i + 1,
                frames.push(FrameV { kind: ck, acc: cur, at: cat }),
                Seq::empty(),
                CtxKind::Group(d),
                i,
            ),
            SrcTokenV::Close(d) => {
                if ck == CtxKind::Group(d) && frames.len() > 0 {
                    let f = frames.last();
                    sp_tokenize_at(
                        src,
                        i + 1,
                        frames.drop_last(),
                        f.acc.push(group_token(d, cur)),
                        f.kind,
                        f.at,
                    )
                } else {
                    Err(FaultV { kind: ParseError::UnexpectedToken, at: i })
                }
            },
            SrcTokenV::Ident(s) => sp_tokenize_at(
                src,
                i + 1,
                frames,
                cur.push(TokenV::Ident(s)),
                ck,
                cat,
            ),
            SrcTokenV::LitStr(s) => sp_tokenize_at(
                src,
                i + 1,
                frames,
                cur.push(TokenV::Text(s)),
                ck,
                cat,
            ),
            SrcTokenV::LitInt(n) => sp_tokenize_at(
                src,
                i + 1,
                frames,
                cur.push(TokenV::Text(u64_dec_spec(n as int))),
                ck,
                cat,
            ),
            SrcTokenV::LitChar(c) => sp_tokenize_at(
                src,
                i + 1,
                frames,
                cur.push(TokenV::Text(seq![c])),
                ck,
                cat,
            ),
            SrcTokenV::Punct(c) => sp_tokenize_at(
                src,
                i + 1,
                frames,
                cur.push(TokenV::Punct(c)),
                ck,
                cat,
            ),
        }
    }
}

/// The token stream of a whole source stream.
pub open spec fn sp_tokenize(src: Seq<SrcTokenV>) -> Result<Seq<TokenV>, FaultV> {
    sp_tokenize_at(src, 0, Seq::empty(), Seq::empty(), CtxKind::Top, 0)
}

/// Pushing a token commutes with taking views.
pub proof fn lemma_tokens_view_push(ts: Seq<Token>, t: Token)
    ensures
        tokens_view(ts.push(t)) == tokens_view(ts).push(token_view(t)),
{
    lemma_tokens_view_index(ts);
    lemma_tokens_view_index(ts.push(t));
    assert(tokens_view(ts.push(t)) =~= tokens_view(ts).push(token_view(t)));
}

/// True when the two strings hold the same characters.
pub fn str_eq(a: &str, b: &str) -> (r: bool)
    ensures
        r == (a@ == b@),
{
    let na = a.unicode_len();
    let nb = b.unicode_len();
    if na != nb {
        proof {
            assert(a@.len() != b@.len());
        }
        return false;
    }
    let mut i: usize = 0;
    while i < na
        invariant
            na == a@.len(),
            na == b@.len(),
            i <= na,
            forall|j: int| 0 <= j < i ==> a@[j] == b@[j],
        decreases na - i,
    {
        if a.get_char(i) != b.get_char(i) {
            return false;
        }
        i = i + 1;
    }
    proof {
        assert(a@ =~= b@);
    }
    true
}

/// A string of one character.
fn one_char(c: char) -> (r: String)
    ensures
        r@ == seq![c],
{
    let mut s = String::new();
    push_char(&mut s, c);
    proof {
        assert(Seq::<char>::empty() + seq![c] =~= seq![c]);
    }
    s
}

/// The verbatim text of one source token.
fn src_text_exec(t: &SrcToken) -> (r: String)
    ensures
        r@ == src_text(t@),
{
    match t {
        SrcToken::Ident(s) => s.clone(),
        SrcToken::LitStr(s) => s.clone(),
        SrcToken::LitInt(n) => u64_dec(*n),
        SrcToken::LitChar(c) => one_char(*c),
        SrcToken::Punct(c) => one_char(*c),
        SrcToken::Open(d) => match d {
            Delim::Brace => one_char('{'),
            Delim::Paren => one_char('('),
            Delim::Bracket => one_char('['),
        },
        SrcToken::Close(d) => match d {
            Delim::Brace => one_char('}'),
            Delim::Paren => one_char(')'),
            Delim::Bracket => one_char(']'),
        },
    }
}

/// Appends text to the token list, merging into a trailing text token.
fn push_text_exec(acc: &mut Vec<Token>, t: String)
    ensures
        tokens_view(final(acc)@) == push_text(tokens_view(old(acc)@), t@),
{
    let ghost oldv = tokens_view(old(acc)@);
    let ghost tv = t@;
    proof {
        lemma_tokens_view_index(old(acc)@);
    }
    let n = acc.len();
    let is_text = if n > 0 {
        match &acc[n - 1] {
            Token::Text(_) => true,
            _ => false,
        }
    } else {
        false
    };
    if is_text {
        let last = acc.pop().unwrap();
        match last {
            Token::Text(s) => {
                let joined = s.concat(t.as_str());
                acc.push(Token::Text(joined));
                proof {
                    lemma_tokens_view_index(acc@);
                    assert(tokens_view(acc@) =~= push_text(oldv, tv));
                }
            },
            other => {
                proof {
                    assert(false);
                }
                acc.push(other);
            },
        }
    } else {
        acc.push(Token::Text(t));
        proof {
            lemma_tokens_view_index(acc@);
            assert(tokens_view(acc@) =~= push_text(oldv, tv));
        }
    }
}

/// The group token for a closed delimiter.
fn group_token_exec(d: Delim, acc: Vec<Token>) -> (t: Token)
    ensures
        token_view(t) == group_token(d, tokens_view(acc@)),
{
    match d {
        Delim::Brace => Token::Brace(acc),
        Delim::Paren => Token::Paren(acc),
        Delim::Bracket => Token::Bracket(acc),
    }
}

/// True when token `i` is the punctuation character `c`.
fn punct_at(src: &Vec<SrcToken>, i: usize, c: char) -> (r: bool)
    requires
        i < src@.len(),
    ensures
        r == (src_view(src@)[i as int] == SrcTokenV::Punct(c)),
{
    proof {
        assert(src_view(src@)[i as int] == src@[i as int]@);
    }
    match &src[i] {
        SrcToken::Punct(p) => *p == c,
        _ => false,
    }
}

/// True when token `i` opens the given delimiter.
fn open_at(src: &Vec<SrcToken>, i: usize, d: Delim) -> (r: bool)
    requires
        i < src@.len(),
    ensures
        r == (src_view(src@)[i as int] == SrcTokenV::Open(d)),
{
    proof {
        assert(src_view(src@)[i as int] == src@[i as int]@);
    }
    match &src[i] {
        SrcToken::Open(d2) => *d2 == d,
        _ => false,
    }
}

/// True when token `i` closes the given delimiter.
fn close_at(src: &Vec<SrcToken>, i: usize, d: Delim) -> (r: bool)
    requires
        i < src@.len(),
    ensures
        r == (src_view(src@)[i as int] == SrcTokenV::Close(d)),
{
    proof {
        assert(src_view(src@)[i as int] == src@[i as int]@);
    }
    match &src[i] {
        SrcToken::Close(d2) => *d2 == d,
        _ => false,
    }
}

/// True when token `i` is the identifier `CDATA`.
fn cdata_ident_at(src: &Vec<SrcToken>, i: usize) -> (r: bool)
    requires
        i < src@.len(),
    ensures
        r == (src_view(src@)[i as int] == SrcTokenV::Ident("CDATA"@)),
{
    proof {
        assert(src_view(src@)[i as int] == src@[i as int]@);
    }
    match &src[i] {
        SrcToken::Ident(s) => str_eq(s.as_str(), "CDATA"),
        _ => false,
    }
}

fn comment_opens_exec(src: &Vec<SrcToken>, i: usize) -> (r: bool)
    requires
        i < src@.len(),
    ensures
        r == comment_opens(src_view(src@), i as int),
{
    src.len() - i > 3 && punct_at(src, i, '<') && punct_at(src, i + 1, '!') && punct_at(
        src,
        i + 2,
        '-',
    ) && punct_at(src, i + 3, '-')
}

fn comment_closes_exec(src: &Vec<SrcToken>, i: usize) -> (r: bool)
    requires
        i < src@.len(),
    ensures
        r == comment_closes(src_view(src@), i as int),
{
    src.len() - i > 2 && punct_at(src, i, '-') && punct_at(src, i + 1, '-') && punct_at(
        src,
        i + 2,
        '>',
    )
}

fn cdata_opens_exec(src: &Vec<SrcToken>, i: usize) -> (r: bool)
    requires
        i < src@.len(),
    ensures
        r == cdata_opens(src_view(src@), i as int),
{
    src.len() - i > 4 && punct_at(src, i, '<') && punct_at(src, i + 1, '!') && open_at(
        src,
        i + 2,
        Delim::Bracket,
    ) && cdata_ident_at(src, i + 3) && open_at(src, i + 4, Delim::Bracket)
}

fn cdata_closes_exec(src: &Vec<SrcToken>, i: usize) -> (r: bool)
    requires
        i < src@.len(),
    ensures
        r == cdata_closes(src_view(src@), i as int),
{
    src.len() - i > 2 && close_at(src, i, Delim::Bracket) && close_at(src, i + 1, Delim::Bracket)
        && punct_at(src, i + 2, '>')
}

/// Runs the tokenizer from position `i` in the given context.
fn tokenize_at(
    src: &Vec<SrcToken>,
    i: usize,
    frames: Vec<Frame>,
    cur: Vec<Token>,
    ck: CtxKind,
    cat: usize,
) -> (r: Result<Vec<Token>, ParseFault>)
    ensures
        ({
            let sp = sp_tokenize_at(
                src_view(src@),
                i as int,
                frames_view(frames@),
                tokens_view(cur@),
                ck,
                cat as int,
            );
            match r {
                Ok(ts) => sp == Ok::<Seq<TokenV>, FaultV>(tokens_view(ts@)),
                Err(f) => sp == Err::<Seq<TokenV>, FaultV>(f@),
            }
        }),
    decreases src@.len() - i,
{
    let ghost sv = src_view(src@);
    let ghost fv = frames_view(frames@);
    let ghost cv = tokens_view(cur@);
    if i >= src.len() {
        if let CtxKind::Top = ck {
            Ok(cur)
        } else {
            Err(ParseFault { kind: ParseError::UnterminatedConstruct, at: cat })
        }
    } else {
        proof {
            assert(sv[i as int] == src@[i as int]@);
        }
        match ck {
            CtxKind::Comment => {
                if comment_closes_exec(src, i) {
                    if frames.len() == 0 {
                        Err(ParseFault { kind: ParseError::UnexpectedToken, at: i })
                    } else {
                        let mut frames = frames;
                        let mut f = frames.pop().unwrap();
                        proof {
                            assert(f@ == fv.last());
                            assert(frames_view(frames@) =~= fv.drop_last());
                            lemma_tokens_view_push(f.acc@, Token::Comment(cur));
                        }
                        let ghost fa = tokens_view(f.acc@);
                        f.acc.push(Token::Comment(cur));
                        proof {
                            assert(tokens_view(f.acc@) == fa.push(TokenV::Comment(cv)));
                        }
                        tokenize_at(src, i + 3, frames, f.acc, f.kind, f.at)
                    }
                } else if open_at(src, i, Delim::Brace) {
                    let mut frames = frames;
                    frames.push(Frame { kind: ck, acc: cur, at: cat });
                    proof {
                        assert(frames_view(frames@) =~= fv.push(
                            FrameV { kind: ck, acc: cv, at: cat as int },
                        ));
                        assert(tokens_view(Seq::<Token>::empty()) == Seq::<TokenV>::empty());
                    }
                    tokenize_at(src, i + 1, frames, Vec::new(), CtxKind::Group(Delim::Brace), i)
                } else {
                    let txt = src_text_exec(&src[i]);
                    let mut cur = cur;
                    push_text_exec(&mut cur, txt);
                    tokenize_at(src, i + 1, frames, cur, ck, cat)
                }
            },
            CtxKind::CData => {
                if cdata_closes_exec(src, i) {
                    if frames.len() == 0 {
                        Err(ParseFault { kind: ParseError::UnexpectedToken, at: i })
                    } else {
                        let mut frames = frames;
                        let mut f = frames.pop().unwrap();
                        proof {
                            assert(f@ == fv.last());
                            assert(frames_view(frames@) =~= fv.drop_last());
                            lemma_tokens_view_push(f.acc@, Token::CharData(cur));
                        }
                        let ghost fa = tokens_view(f.acc@);
                        f.acc.push(Token::CharData(cur));
                        proof {
                            assert(tokens_view(f.acc@) == fa.push(TokenV::CharData(cv)));
                        }
                        tokenize_at(src, i + 3, frames, f.acc, f.kind, f.at)
                    }
                } else if open_at(src, i, Delim::Brace) {
                    let mut frames = frames;
                    frames.push(Frame { kind: ck, acc: cur, at: cat });
                    proof {
                        assert(frames_view(frames@) =~= fv.push(
                            FrameV { kind: ck, acc: cv, at: cat as int },
                        ));
                        assert(tokens_view(Seq::<Token>::empty()) == Seq::<TokenV>::empty());
                    }
                    tokenize_at(src, i + 1, frames, Vec::new(), CtxKind::Group(Delim::Brace), i)
                } else {
                    let txt = src_text_exec(&src[i]);
                    let mut cur = cur;
                    push_text_exec(&mut cur, txt);
                    tokenize_at(src, i + 1, frames, cur, ck, cat)
                }
            },
            _ => {
                if comment_opens_exec(src, i) {
                    let mut frames = frames;
                    frames.push(Frame { kind: ck, acc: cur, at: cat });
                    proof {
                        assert(frames_view(frames@) =~= fv.push(
                            FrameV { kind: ck, acc: cv, at: cat as int },
                        ));
                        assert(tokens_view(Seq::<Token>::empty()) == Seq::<TokenV>::empty());
                    }
                    tokenize_at(src, i + 4, frames, Vec::new(), CtxKind::Comment, i)
                } else if cdata_opens_exec(src, i) {
                    let mut frames = frames;
                    frames.push(Frame { kind: ck, acc: cur, at: cat });
                    proof {
                        assert(frames_view(frames@) =~= fv.push(
                            FrameV { kind: ck, acc: cv, at: cat as int },
                        ));
                        assert(tokens_view(Seq::<Token>::empty()) == Seq::<TokenV>::empty());
                    }
                    tokenize_at(src, i + 5, frames, Vec::new(), CtxKind::CData, i)
                } else {
                    match &src[i] {
                        SrcToken::Open(d) => {
                            let mut frames = frames;
                            frames.push(Frame { kind: ck, acc: cur, at: cat });
                            proof {
                                assert(frames_view(frames@) =~= fv.push(
                                    FrameV { kind: ck, acc: cv, at: cat as int },
                                ));
                                assert(tokens_view(Seq::<Token>::empty())
                                    == Seq::<TokenV>::empty());
                            }
                            tokenize_at(src, i + 1, frames, Vec::new(), CtxKind::Group(*d), i)
                        },
                        SrcToken::Close(d) => {
                            if ck == CtxKind::Group(*d) && frames.len() > 0 {
                                let mut frames = frames;
                                let mut f = frames.pop().unwrap();
                                let g = group_token_exec(*d, cur);
                                proof {
                                    assert(f@ == fv.last());
                                    assert(frames_view(frames@) =~= fv.drop_last());
                                    lemma_tokens_view_push(f.acc@, g);
                                }
                                let ghost fa = tokens_view(f.acc@);
                                f.acc.push(g);
                                tokenize_at(src, i + 1, frames, f.acc, f.kind, f.at)
                            } else {
                                Err(ParseFault { kind: ParseError::UnexpectedToken, at: i })
                            }
                        },
                        SrcToken::Ident(s) => {
                            let mut cur = cur;
                            let d = s.clone();
                            proof {
                                lemma_tokens_view_push(cur@, Token::Ident(d));
                            }
                            cur.push(Token::Ident(d));
                            tokenize_at(src, i + 1, frames, cur, ck, cat)
                        },
                        SrcToken::LitStr(s) => {
                            let mut cur = cur;
                            let d = s.clone();
                            proof {
                                lemma_tokens_view_push(cur@, Token::Text(d));
                            }
                            cur.push(Token::Text(d));
                            tokenize_at(src, i + 1, frames, cur, ck, cat)
                        },
                        SrcToken::LitInt(n) => {
                            let mut cur = cur;
                            let d = u64_dec(*n);
                            proof {
                                lemma_tokens_view_push(cur@, Token::Text(d));
                            }
                            cur.push(Token::Text(d));
                            tokenize_at(src, i + 1, frames, cur, ck, cat)
                        },
                        SrcToken::LitChar(c) => {
                            let mut cur = cur;
                            let d = one_char(*c);
                            proof {
                                lemma_tokens_view_push(cur@, Token::Text(d));
                            }
                            cur.push(Token::Text(d));
                            tokenize_at(src, i + 1, frames, cur, ck, cat)
                        },
                        SrcToken::Punct(c) => {
                            let mut cur = cur;
                            proof {
                                lemma_tokens_view_push(cur@, Token::Punct(*c));
                            }
                            cur.push(Token::Punct(*c));
                            tokenize_at(src, i + 1, frames, cur, ck, cat)
                        },
                    }
                }
            },
        }
    }
}

/// Turns the host's source token stream into the grouped lexical token
/// stream: balanced groups captured whole, comment and CDATA blocks
/// collected with their body pieces, literals turned into text tokens.
/// An unclosed group or block is an unterminated construct.
pub fn tokenize(src: &Vec<SrcToken>) -> (r: Result<Vec<Token>, ParseFault>)
    ensures
        ({
            let sp = sp_tokenize(src_view(src@));
            match r {
                Ok(ts) => sp == Ok::<Seq<TokenV>, FaultV>(tokens_view(ts@)),
                Err(f) => sp == Err::<Seq<TokenV>, FaultV>(f@),
            }
        }),
{
    proof {
        assert(frames_view(Seq::<Frame>::empty()) =~= Seq::<FrameV>::empty());
        assert(tokens_view(Seq::<Token>::empty()) == Seq::<TokenV>::empty());
    }
    tokenize_at(src, 0, Vec::new(), Vec::new(), CtxKind::Top, 0)
}

} // verus!
