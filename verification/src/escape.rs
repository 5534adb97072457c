//! Escaping for the xml contexts: element text, attribute values,
//! comment bodies and CDATA sections.

use vstd::prelude::*;
use vstd::string::StrSliceExecFns;
use vstd::string::StringExecFns;

verus! {

/// The escaping contexts. Each selects which characters or substrings are
/// neutralized before being appended to output.
#[derive(Clone, Copy, PartialEq, Eq, Structural, Debug)]
pub enum EscapeCtx {
    /// Element text: `<`, `&`, `>` become entities.
    Text,
    /// Attribute values: the text set plus `'` and `"`.
    AttrValue,
    /// Comment bodies: every occurrence of `--` is deleted.
    Comment,
    /// CDATA sections: every `]]>` is split into `]]]]><![CDATA[>`.
    CharData,
}

/// True for the characters replaced in element text.
pub open spec fn is_text_special(c: char) -> bool {
    c == '<' || c == '&' || c == '>'
}

/// True for the characters replaced in attribute values.
pub open spec fn is_attr_special(c: char) -> bool {
    is_text_special(c) || c == '\'' || c == '"'
}

/// The entity for one special character; any other character passes through.
pub open spec fn char_entity(c: char) -> Seq<char> {
    if c == '<' {
        "&lt;"@
    } else if c == '&' {
        "&amp;"@
    } else if c == '>' {
        "&gt;"@
    } else if c == '\'' {
        "&apos;"@
    } else if c == '"' {
        "&quot;"@
    } else {
        seq![c]
    }
}

/// Element-text escaping: `<`, `&`, `>` are replaced by entities,
/// everything else (quotes included) passes through unchanged.
pub open spec fn escape_text(s: Seq<char>) -> Seq<char>
    decreases s.len(),
{
    if s.len() == 0 {
        Seq::empty()
    } else if is_text_special(s[0]) {
        char_entity(s[0]) + escape_text(s.drop_first())
    } else {
        seq![s[0]] + escape_text(s.drop_first())
    }
}

/// Attribute-value escaping: the text set plus `'` and `"`.
pub open spec fn escape_attr(s: Seq<char>) -> Seq<char>
    decreases s.len(),
{
    if s.len() == 0 {
        Seq::empty()
    } else if is_attr_special(s[0]) {
        char_entity(s[0]) + escape_attr(s.drop_first())
    } else {
        seq![s[0]] + escape_attr(s.drop_first())
    }
}

/// Comment escaping deletes every occurrence of the substring `--`,
/// scanning left to right; it inserts no entity. This is only correct when
/// the whole comment body is escaped as one contiguous string: a `--` split
/// across two separate calls is not seen.
pub open spec fn escape_comment(s: Seq<char>) -> Seq<char>
    decreases s.len(),
{
    if s.len() < 2 {
        s
    } else if s[0] == '-' && s[1] == '-' {
        escape_comment(s.skip(2))
    } else {
        seq![s[0]] + escape_comment(s.drop_first())
    }
}

/// What one `]]>` becomes in a CDATA section: the section is closed and a
/// new one opened around the `>`.
pub open spec fn cdata_split() -> Seq<char> {
    "]]]]><![CDATA[>"@
}

/// CDATA escaping replaces every occurrence of `]]>` with the section
/// split, scanning left to right. The same single-unit caveat as for
/// comments applies.
pub open spec fn escape_cdata(s: Seq<char>) -> Seq<char>
    decreases s.len(),
{
    if s.len() < 3 {
        s
    } else if s[0] == ']' && s[1] == ']' && s[2] == '>' {
        cdata_split() + escape_cdata(s.skip(3))
    } else {
        seq![s[0]] + escape_cdata(s.drop_first())
    }
}

/// Escaping by context.
pub open spec fn escape_ctx(ctx: EscapeCtx, s: Seq<char>) -> Seq<char> {
    match ctx {
        EscapeCtx::Text => escape_text(s),
        EscapeCtx::AttrValue => escape_attr(s),
        EscapeCtx::Comment => escape_comment(s),
        EscapeCtx::CharData => escape_cdata(s),
    }
}

/// Relies on `String::push`: appends exactly one character.
#[verifier::external_body]
pub(crate) fn push_char(out: &mut String, c: char)
    ensures
        final(out)@ == old(out)@ + seq![c],
{
    out.push(c);
}

/// Appends the element-text escaping of `s` to `out`.
pub fn escape_text_push(s: &str, out: &mut String)
    ensures
        final(out)@ == old(out)@ + escape_text(s@),
{
    let ghost base = out@;
    let n = s.unicode_len();
    let mut i: usize = 0;
    while i < n
        invariant
            n == s@.len(),
            i <= n,
            out@ == base + escape_text(s@.take(i as int)),
        decreases n - i,
    {
        let c = s.get_char(i);
        proof {
            lemma_escape_text_snoc(s@.take(i as int), c);
            assert(s@.take(i as int).push(c) =~= s@.take(i + 1 as int));
        }
        if c == '<' {
            out.append("&lt;");
        } else if c == '&' {
            out.append("&amp;");
        } else if c == '>' {
            out.append("&gt;");
        } else {
            push_char(out, c);
        }
        i = i + 1;
    }
    proof {
        assert(s@.take(n as int) =~= s@);
    }
}

/// Appends the attribute-value escaping of `s` to `out`.
pub fn escape_attr_push(s: &str, out: &mut String)
    ensures
        final(out)@ == old(out)@ + escape_attr(s@),
{
    let ghost base = out@;
    let n = s.unicode_len();
    let mut i: usize = 0;
    while i < n
        invariant
            n == s@.len(),
            i <= n,
            out@ == base + escape_attr(s@.take(i as int)),
        decreases n - i,
    {
        let c = s.get_char(i);
        proof {
            lemma_escape_attr_snoc(s@.take(i as int), c);
            assert(s@.take(i as int).push(c) =~= s@.take(i + 1 as int));
        }
        if c == '<' {
            out.append("&lt;");
        } else if c == '&' {
            out.append("&amp;");
        } else if c == '>' {
            out.append("&gt;");
        } else if c == '\'' {
            out.append("&apos;");
        } else if c == '"' {
            out.append("&quot;");
        } else {
            push_char(out, c);
        }
        i = i + 1;
    }
    proof {
        assert(s@.take(n as int) =~= s@);
    }
}

/// Appends the comment escaping of `s` to `out`, deleting every `--`.
///
/// The whole comment body must be passed as one string: occurrences of
/// `--` split across two calls are not seen.
pub fn escape_comment_push(s: &str, out: &mut String)
    ensures
        final(out)@ == old(out)@ + escape_comment(s@),
{
    let ghost base = out@;
    let n = s.unicode_len();
    let mut i: usize = 0;
    proof {
        assert(s@.skip(0) =~= s@);
    }
    while i < n
        invariant
            n == s@.len(),
            i <= n,
            base + escape_comment(s@) == out@ + escape_comment(s@.skip(i as int)),
        decreases n - i,
    {
        let c = s.get_char(i);
        if i + 1 < n && c == '-' && s.get_char(i + 1) == '-' {
            proof {
                assert(s@.skip(i as int).skip(2) =~= s@.skip(i + 2 as int));
            }
            i = i + 2;
        } else {
            proof {
                if i + 1 < n {
                    assert(s@.skip(i as int).drop_first() =~= s@.skip(i + 1 as int));
                } else {
                    assert(s@.skip(i as int) =~= seq![s@[i as int]]);
                    assert(s@.skip(i + 1 as int) =~= Seq::<char>::empty());
                }
            }
            push_char(out, c);
            i = i + 1;
        }
    }
    proof {
        assert(s@.skip(n as int) =~= Seq::<char>::empty());
    }
}

/// Appends the CDATA escaping of `s` to `out`, splitting the section
/// around every `]]>`.
///
/// The whole CDATA body must be passed as one string: occurrences of
/// `]]>` split across two calls are not seen.
pub fn escape_cdata_push(s: &str, out: &mut String)
    ensures
        final(out)@ == old(out)@ + escape_cdata(s@),
{
    let ghost base = out@;
    let n = s.unicode_len();
    let mut i: usize = 0;
    proof {
        assert(s@.skip(0) =~= s@);
    }
    while i < n
        invariant
            n == s@.len(),
            i <= n,
            base + escape_cdata(s@) == out@ + escape_cdata(s@.skip(i as int)),
        decreases n - i,
    {
        let c = s.get_char(i);
        if n - i > 2 && c == ']' && s.get_char(i + 1) == ']' && s.get_char(i + 2) == '>' {
            proof {
                assert(s@.skip(i as int).skip(3) =~= s@.skip(i + 3 as int));
            }
            out.append("]]]]><![CDATA[>");
            i = i + 3;
        } else {
            proof {
                if n - i > 2 {
                    assert(s@.skip(i as int).drop_first() =~= s@.skip(i + 1 as int));
                } else if i + 1 < n {
                    assert(s@.skip(i as int).drop_first() =~= s@.skip(i + 1 as int));
                    assert(s@.skip(i as int).len() == 2);
                    assert(s@.skip(i + 1 as int).len() == 1);
                } else {
                    assert(s@.skip(i as int) =~= seq![s@[i as int]]);
                    assert(s@.skip(i + 1 as int) =~= Seq::<char>::empty());
                }
            }
            push_char(out, c);
            i = i + 1;
        }
    }
    proof {
        assert(s@.skip(n as int) =~= Seq::<char>::empty());
    }
}

/// Appends the escaping of `s` under `ctx` to `out`.
pub fn escape_push(ctx: EscapeCtx, s: &str, out: &mut String)
    ensures
        final(out)@ == old(out)@ + escape_ctx(ctx, s@),
{
    match ctx {
        EscapeCtx::Text => escape_text_push(s, out),
        EscapeCtx::AttrValue => escape_attr_push(s, out),
        EscapeCtx::Comment => escape_comment_push(s, out),
        EscapeCtx::CharData => escape_cdata_push(s, out),
    }
}

/// The error a write sink may report. Writes into the owned buffers of
/// this module always succeed; the type exists so that callers written
/// against a fallible sink keep their shape.
#[derive(Clone, Copy, PartialEq, Eq, Structural, Debug)]
pub struct WriteFailed;

/// A sink that escapes `<`, `&`, `>` in everything written to it.
pub struct EscapeText {
    pub inner: String,
}

impl EscapeText {
    /// Wraps an output buffer; writes land in it escaped.
    pub fn wrap(inner: String) -> (r: EscapeText)
        ensures
            r.inner@ == inner@,
    {
        EscapeText { inner }
    }

    /// Appends `s` to the buffer with element-text escaping. Never fails.
    pub fn write_str(&mut self, s: &str) -> (r: Result<(), WriteFailed>)
        ensures
            final(self).inner@ == old(self).inner@ + escape_text(s@),
            r == Ok::<(), WriteFailed>(()),
    {
        escape_text_push(s, &mut self.inner);
        Ok(())
    }

    /// Appends already-formatted text, escaped the same way as `write_str`.
    pub fn write_fmt(&mut self, args: &str) -> (r: Result<(), WriteFailed>)
        ensures
            final(self).inner@ == old(self).inner@ + escape_text(args@),
            r == Ok::<(), WriteFailed>(()),
    {
        self.write_str(args)
    }

    /// Hands the buffer back.
    pub fn into_inner(self) -> (r: String)
        ensures
            r@ == self.inner@,
    {
        self.inner
    }
}

/// A sink that escapes `<`, `&`, `>`, `'`, `"` in everything written to it.
pub struct EscapeAttrValue {
    pub inner: String,
}

impl EscapeAttrValue {
    /// Wraps an output buffer; writes land in it escaped.
    pub fn wrap(inner: String) -> (r: EscapeAttrValue)
        ensures
            r.inner@ == inner@,
    {
        EscapeAttrValue { inner }
    }

    /// Appends `s` to the buffer with attribute-value escaping. Never fails.
    pub fn write_str(&mut self, s: &str) -> (r: Result<(), WriteFailed>)
        ensures
            final(self).inner@ == old(self).inner@ + escape_attr(s@),
            r == Ok::<(), WriteFailed>(()),
    {
        escape_attr_push(s, &mut self.inner);
        Ok(())
    }

    /// Appends already-formatted text, escaped the same way as `write_str`.
    pub fn write_fmt(&mut self, args: &str) -> (r: Result<(), WriteFailed>)
        ensures
            final(self).inner@ == old(self).inner@ + escape_attr(args@),
            r == Ok::<(), WriteFailed>(()),
    {
        self.write_str(args)
    }

    /// Hands the buffer back.
    pub fn into_inner(self) -> (r: String)
        ensures
            r@ == self.inner@,
    {
        self.inner
    }
}

/// A sink that deletes `--` in everything written to it.
///
/// Each write is escaped on its own: a `--` split across two writes is
/// not caught, so a whole comment body should be written in one call.
pub struct EscapeComment {
    pub inner: String,
}

impl EscapeComment {
    /// Wraps an output buffer; writes land in it escaped.
    pub fn wrap(inner: String) -> (r: EscapeComment)
        ensures
            r.inner@ == inner@,
    {
        EscapeComment { inner }
    }

    /// Appends `s` to the buffer with comment escaping. Never fails.
    pub fn write_str(&mut self, s: &str) -> (r: Result<(), WriteFailed>)
        ensures
            final(self).inner@ == old(self).inner@ + escape_comment(s@),
            r == Ok::<(), WriteFailed>(()),
    {
        escape_comment_push(s, &mut self.inner);
        Ok(())
    }

    /// Appends already-formatted text, escaped the same way as `write_str`.
    pub fn write_fmt(&mut self, args: &str) -> (r: Result<(), WriteFailed>)
        ensures
            final(self).inner@ == old(self).inner@ + escape_comment(args@),
            r == Ok::<(), WriteFailed>(()),
    {
        self.write_str(args)
    }

    /// Hands the buffer back.
    pub fn into_inner(self) -> (r: String)
        ensures
            r@ == self.inner@,
    {
        self.inner
    }
}

/// A sink that splits `]]>` in everything written to it.
///
/// Each write is escaped on its own: a `]]>` split across two writes is
/// not caught, so a whole CDATA body should be written in one call.
pub struct EscapeCharData {
    pub inner: String,
}

impl EscapeCharData {
    /// Wraps an output buffer; writes land in it escaped.
    pub fn wrap(inner: String) -> (r: EscapeCharData)
        ensures
            r.inner@ == inner@,
    {
        EscapeCharData { inner }
    }

    /// Appends `s` to the buffer with CDATA escaping. Never fails.
    pub fn write_str(&mut self, s: &str) -> (r: Result<(), WriteFailed>)
        ensures
            final(self).inner@ == old(self).inner@ + escape_cdata(s@),
            r == Ok::<(), WriteFailed>(()),
    {
        escape_cdata_push(s, &mut self.inner);
        Ok(())
    }

    /// Appends already-formatted text, escaped the same way as `write_str`.
    pub fn write_fmt(&mut self, args: &str) -> (r: Result<(), WriteFailed>)
        ensures
            final(self).inner@ == old(self).inner@ + escape_cdata(args@),
            r == Ok::<(), WriteFailed>(()),
    {
        self.write_str(args)
    }

    /// Hands the buffer back.
    pub fn into_inner(self) -> (r: String)
        ensures
            r@ == self.inner@,
    {
        self.inner
    }
}

/// Escapes `&`, `<`, `>`, `"`, `'` with their equivalent entities.
pub fn escape(value: &str) -> (r: String)
    ensures
        r@ == escape_attr(value@),
{
    let mut out = String::new();
    escape_attr_push(value, &mut out);
    out
}

/// True when `s` holds none of the characters that `Text` escaping replaces.
pub open spec fn text_safe(s: Seq<char>) -> bool {
    forall|i: int| 0 <= i < s.len() ==> !is_text_special(s[i])
}

/// True when `s` holds none of the characters that `AttrValue` escaping replaces.
pub open spec fn attr_safe(s: Seq<char>) -> bool {
    forall|i: int| 0 <= i < s.len() ==> !is_attr_special(s[i])
}

/// True when `s` holds no occurrence of the substring `--`.
pub open spec fn comment_safe(s: Seq<char>) -> bool {
    forall|i: int| 0 <= i && i + 2 <= s.len() ==> !(#[trigger] s[i] == '-' && s[i + 1] == '-')
}

/// True when `s` holds no occurrence of the substring `]]>`.
pub open spec fn cdata_safe(s: Seq<char>) -> bool {
    forall|i: int|
        0 <= i && i + 3 <= s.len() ==> !(#[trigger] s[i] == ']' && s[i + 1] == ']' && s[i + 2]
            == '>')
}

/// True when `s` holds none of the characters or substrings that `ctx`
/// escaping replaces.
pub open spec fn ctx_safe(ctx: EscapeCtx, s: Seq<char>) -> bool {
    match ctx {
        EscapeCtx::Text => text_safe(s),
        EscapeCtx::AttrValue => attr_safe(s),
        EscapeCtx::Comment => comment_safe(s),
        EscapeCtx::CharData => cdata_safe(s),
    }
}

proof fn lemma_escape_text_safe(s: Seq<char>)
    requires
        text_safe(s),
    ensures
        escape_text(s) == s,
    decreases s.len(),
{
    if s.len() == 0 {
        assert(escape_text(s) =~= s);
    } else {
        assert(!is_text_special(s[0]));
        assert forall|j: int| 0 <= j < s.drop_first().len() implies !is_text_special(
            s.drop_first()[j],
        ) by {
            assert(s.drop_first()[j] == s[j + 1]);
        }
        lemma_escape_text_safe(s.drop_first());
        assert(seq![s[0]] + s.drop_first() =~= s);
    }
}

proof fn lemma_escape_attr_safe(s: Seq<char>)
    requires
        attr_safe(s),
    ensures
        escape_attr(s) == s,
    decreases s.len(),
{
    if s.len() == 0 {
        assert(escape_attr(s) =~= s);
    } else {
        assert(!is_attr_special(s[0]));
        assert forall|j: int| 0 <= j < s.drop_first().len() implies !is_attr_special(
            s.drop_first()[j],
        ) by {
            assert(s.drop_first()[j] == s[j + 1]);
        }
        lemma_escape_attr_safe(s.drop_first());
        assert(seq![s[0]] + s.drop_first() =~= s);
    }
}

proof fn lemma_escape_comment_safe(s: Seq<char>)
    requires
        comment_safe(s),
    ensures
        escape_comment(s) == s,
    decreases s.len(),
{
    if s.len() < 2 {
    } else {
        assert(!(s[0] == '-' && s[1] == '-'));
        assert forall|j: int| 0 <= j && j + 2 <= s.drop_first().len() implies !(#[trigger] s.drop_first()[j]
            == '-' && s.drop_first()[j + 1] == '-') by {
            assert(s.drop_first()[j] == s[j + 1]);
            assert(s.drop_first()[j + 1] == s[j + 2]);
        }
        lemma_escape_comment_safe(s.drop_first());
        assert(seq![s[0]] + s.drop_first() =~= s);
    }
}

proof fn lemma_escape_cdata_safe(s: Seq<char>)
    requires
        cdata_safe(s),
    ensures
        escape_cdata(s) == s,
    decreases s.len(),
{
    if s.len() < 3 {
    } else {
        assert(!(s[0] == ']' && s[1] == ']' && s[2] == '>'));
        assert forall|j: int| 0 <= j && j + 3 <= s.drop_first().len() implies !(#[trigger] s.drop_first()[j]
            == ']' && s.drop_first()[j + 1] == ']' && s.drop_first()[j + 2] == '>') by {
            assert(s.drop_first()[j] == s[j + 1]);
            assert(s.drop_first()[j + 1] == s[j + 2]);
            assert(s.drop_first()[j + 2] == s[j + 3]);
        }
        lemma_escape_cdata_safe(s.drop_first());
        assert(seq![s[0]] + s.drop_first() =~= s);
    }
}

/// Escaping is not invertible in general: comment escaping sends both
/// `--` and the empty string to the empty string, so no function can
/// recover the input from the output.
pub proof fn lemma_escape_comment_not_injective()
    ensures
        escape_comment("--"@) == escape_comment(""@),
        "--"@ != ""@,
{
    reveal_strlit("--");
    reveal_strlit("");
    assert("--"@.len() == 2);
    assert("--"@[0] == '-' && "--"@[1] == '-');
    assert("--"@.skip(2) =~= Seq::<char>::empty());
    assert(escape_comment("--"@) == escape_comment("--"@.skip(2)));
    assert(""@ =~= Seq::<char>::empty());
}

/// Escaping is the identity on safe input: a string holding none of the
/// context's reserved characters or substrings comes through unchanged.
pub proof fn lemma_escape_safe_identity(ctx: EscapeCtx, s: Seq<char>)
    requires
        ctx_safe(ctx, s),
    ensures
        escape_ctx(ctx, s) == s,
{
    match ctx {
        EscapeCtx::Text => lemma_escape_text_safe(s),
        EscapeCtx::AttrValue => lemma_escape_attr_safe(s),
        EscapeCtx::Comment => lemma_escape_comment_safe(s),
        EscapeCtx::CharData => lemma_escape_cdata_safe(s),
    }
}

/// One step of text escaping, pulled off the front of the remainder.
proof fn lemma_escape_text_snoc(s: Seq<char>, c: char)
    ensures
        escape_text(s.push(c)) == escape_text(s) + (if is_text_special(c) {
            char_entity(c)
        } else {
            seq![c]
        }),
    decreases s.len(),
{
    if s.len() == 0 {
        assert(s.push(c).drop_first() =~= Seq::<char>::empty());
        assert(escape_text(s.push(c).drop_first()) == Seq::<char>::empty());
        if is_text_special(c) {
            assert(escape_text(s.push(c)) =~= char_entity(c));
            assert(escape_text(s) + char_entity(c) =~= char_entity(c));
        } else {
            assert(escape_text(s.push(c)) =~= seq![c]);
            assert(escape_text(s) + seq![c] =~= seq![c]);
        }
    } else {
        assert(s.push(c).drop_first() =~= s.drop_first().push(c));
        lemma_escape_text_snoc(s.drop_first(), c);
        let step = if is_text_special(c) {
            char_entity(c)
        } else {
            seq![c]
        };
        let head = if is_text_special(s[0]) {
            char_entity(s[0])
        } else {
            seq![s[0]]
        };
        assert(escape_text(s.push(c)) == head + (escape_text(s.drop_first()) + step));
        assert(head + (escape_text(s.drop_first()) + step) =~= (head + escape_text(
            s.drop_first(),
        )) + step);
    }
}

/// One step of attribute-value escaping, pulled off the front of the remainder.
proof fn lemma_escape_attr_snoc(s: Seq<char>, c: char)
    ensures
        escape_attr(s.push(c)) == escape_attr(s) + (if is_attr_special(c) {
            char_entity(c)
        } else {
            seq![c]
        }),
    decreases s.len(),
{
    if s.len() == 0 {
        assert(s.push(c).drop_first() =~= Seq::<char>::empty());
        assert(escape_attr(s.push(c).drop_first()) == Seq::<char>::empty());
        if is_attr_special(c) {
            assert(escape_attr(s.push(c)) =~= char_entity(c));
            assert(escape_attr(s) + char_entity(c) =~= char_entity(c));
        } else {
            assert(escape_attr(s.push(c)) =~= seq![c]);
            assert(escape_attr(s) + seq![c] =~= seq![c]);
        }
    } else {
        assert(s.push(c).drop_first() =~= s.drop_first().push(c));
        lemma_escape_attr_snoc(s.drop_first(), c);
        let step = if is_attr_special(c) {
            char_entity(c)
        } else {
            seq![c]
        };
        let head = if is_attr_special(s[0]) {
            char_entity(s[0])
        } else {
            seq![s[0]]
        };
        assert(escape_attr(s.push(c)) == head + (escape_attr(s.drop_first()) + step));
        assert(head + (escape_attr(s.drop_first()) + step) =~= (head + escape_attr(
            s.drop_first(),
        )) + step);
    }
}

} // verus!

