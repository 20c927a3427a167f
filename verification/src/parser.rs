//! Character classes of the addr-spec grammar, parse errors, and the
//! single-pass recursive-descent parser.

use vstd::prelude::*;
use vstd::utf8::encode_utf8;

use crate::grammar::ParseOptions;
use crate::grammar::atext_end;
use crate::grammar::content_cont;
use crate::grammar::dot_atom_at;
use crate::grammar::empty_label_at;
use crate::grammar::find_char;
use crate::grammar::fws_end;
use crate::grammar::is_valid_dot_atom;
use crate::grammar::cfws_end;
use crate::grammar::comment_end;
use crate::grammar::comments_end;
use crate::grammar::domain_at;
use crate::grammar::domain_literal_at;
use crate::grammar::domain_literal_folded_at;
use crate::grammar::dtext_end;
use crate::grammar::local_part_at;
use crate::grammar::spec_parse_at;
use crate::grammar::lemma_content_cont_push;
use crate::grammar::quoted_string_at;
use crate::grammar::step_fws;
use crate::grammar::ws_end;
use crate::text::byte_off;
use crate::unicode::nfc_of;
use crate::unicode::spec_normalize_field;

verus! {

broadcast use vstd::slice::group_slice_axioms;

/// ASCII control characters (U+0000..=U+001F and U+007F) other than
/// horizontal tab: the characters that may never appear in a stored local
/// part, not even behind an escape in the serialized form.
pub open spec fn spec_is_ascii_control_and_not_htab(chr: char) -> bool {
    ((chr as u32) < 0x20 || (chr as u32) == 0x7f) && (chr as u32) != 0x9
}

/// ASCII control characters or the space: the characters that end or poison
/// every unquoted scan of the grammar.
pub open spec fn spec_is_ascii_control_or_space(chr: char) -> bool {
    (chr as u32) < 0x20 || (chr as u32) == 0x7f || (chr as u32) == 0x20
}

/// Characters that cannot stand in a dot-atom: controls, the space, and the
/// reserved delimiters of RFC 5322.
pub open spec fn spec_is_not_atext(chr: char) -> bool {
    spec_is_ascii_control_or_space(chr) || chr == '"' || chr == '(' || chr == ')' || chr == ','
        || chr == ':' || chr == '<' || chr == '>' || chr == '@' || chr == '[' || chr == ']'
        || chr == '\\'
}

/// Characters that cannot stand in a domain literal: controls, the space,
/// and the brackets and backslash that delimit or escape the literal form.
pub open spec fn spec_is_not_dtext(chr: char) -> bool {
    spec_is_ascii_control_or_space(chr) || chr == '[' || chr == ']' || chr == '\\'
}

pub fn is_ascii_control_and_not_htab(chr: char) -> (r: bool)
    ensures
        r == spec_is_ascii_control_and_not_htab(chr),
{
    let u = chr as u32;
    (u < 0x20 || u == 0x7f) && u != 0x9
}

pub fn is_ascii_control_or_space(chr: char) -> (r: bool)
    ensures
        r == spec_is_ascii_control_or_space(chr),
{
    let u = chr as u32;
    u < 0x20 || u == 0x7f || u == 0x20
}

pub fn is_not_atext(chr: char) -> (r: bool)
    ensures
        r == spec_is_not_atext(chr),
{
    is_ascii_control_or_space(chr) || chr == '"' || chr == '(' || chr == ')' || chr == ','
        || chr == ':' || chr == '<' || chr == '>' || chr == '@' || chr == '[' || chr == ']'
        || chr == '\\'
}

pub fn is_not_dtext(chr: char) -> (r: bool)
    ensures
        r == spec_is_not_dtext(chr),
{
    is_ascii_control_or_space(chr) || chr == '[' || chr == ']' || chr == '\\'
}

/// An error from parsing or constructing an address specification: a static
/// diagnostic message and the byte index into the original input at which
/// the violation was detected.
#[derive(Clone, Copy, PartialEq, Eq, PartialOrd, Ord, Hash, Debug)]
pub struct ParseError(pub &'static str, pub usize);

impl ParseError {
    /// Returns the static error message.
    pub fn message(&self) -> (r: &'static str)
        ensures
            r@ == self.0@,
    {
        self.0
    }

    /// Returns the byte index where the error occurred.
    pub fn index(&self) -> (r: usize)
        ensures
            r == self.1,
    {
        self.1
    }
}

/// The recursive-descent parser: a cursor over the characters of one input
/// string, tracking the byte offset of the cursor for error reporting.
pub struct Parser {
    input: Vec<char>,
    pos: usize,
    byte_pos: usize,
    options: ParseOptions,
}

impl Parser {
    /// The characters of the input being parsed.
    pub closed spec fn text(&self) -> Seq<char> {
        self.input@
    }

    /// The character position of the cursor.
    pub closed spec fn position(&self) -> int {
        self.pos as int
    }

    /// The options this parser was constructed with.
    pub closed spec fn opts(&self) -> ParseOptions {
        self.options
    }

    /// The cursor sits inside the input and the tracked byte offset agrees
    /// with the character position.
    pub closed spec fn wf(&self) -> bool {
        &&& self.pos <= self.input@.len()
        &&& self.byte_pos == byte_off(self.input@, self.pos as int)
        &&& encode_utf8(self.input@).len() <= usize::MAX
    }

    /// A well-formed parser's cursor always sits inside its input.
    pub proof fn lemma_wf_position(&self)
        requires
            self.wf(),
        ensures
            0 <= self.position() <= self.text().len(),
    {
    }

    /// A parser over `input` with the given options, at the start.
    pub fn with_options(input: &str, options: ParseOptions) -> (p: Parser)
        ensures
            p.wf(),
            p.text() == input@,
            p.position() == 0,
            p.opts() == options,
    {
        let bytes = input.as_bytes();
        let _total = bytes.len();
        proof {
            crate::text::lemma_byte_off_zero(input@);
        }
        let chars = crate::text::str_to_chars(input);
        Parser { input: chars, pos: 0, byte_pos: 0, options }
    }

    /// A parser over `input` with every optional sub-grammar enabled.
    pub fn new(input: &str) -> (p: Parser)
        ensures
            p.wf(),
            p.text() == input@,
            p.position() == 0,
            p.opts() == ParseOptions::spec_all(),
    {
        Parser::with_options(input, ParseOptions::all())
    }

    /// Consumes one character, keeping the byte offset in step.
    fn advance(&mut self)
        requires
            old(self).wf(),
            old(self).position() < old(self).text().len(),
        ensures
            final(self).wf(),
            final(self).text() == old(self).text(),
            final(self).opts() == old(self).opts(),
            final(self).position() == old(self).position() + 1,
    {
        let c = self.input[self.pos];
        let w = crate::text::char_utf8_len(c);
        proof {
            crate::text::lemma_byte_off_step(self.input@, self.pos as int);
            crate::text::lemma_byte_off_le(self.input@, self.pos + 1, self.input@.len() as int);
            crate::text::lemma_byte_off_end(self.input@);
            crate::text::lemma_len_le_bytes(self.input@);
        }
        self.byte_pos = self.byte_pos + w;
        self.pos = self.pos + 1;
    }

    /// Consumes `pattern` if it stands at the cursor.
    fn eat_chr(&mut self, pattern: char) -> (r: bool)
        requires
            old(self).wf(),
        ensures
            final(self).wf(),
            final(self).text() == old(self).text(),
            final(self).opts() == old(self).opts(),
            r == (old(self).position() < old(self).text().len() && old(self).text()[old(
                self,
            ).position()] == pattern),
            final(self).position() == if r {
                old(self).position() + 1
            } else {
                old(self).position()
            },
    {
        if self.pos < self.input.len() && self.input[self.pos] == pattern {
            self.advance();
            true
        } else {
            false
        }
    }

    /// Consumes the run of spaces and horizontal tabs at the cursor.
    fn skip_ws(&mut self)
        requires
            old(self).wf(),
        ensures
            final(self).wf(),
            final(self).text() == old(self).text(),
            final(self).opts() == old(self).opts(),
            final(self).position() == ws_end(old(self).text(), old(self).position()),
    {
        loop
            invariant
                self.wf(),
                self.text() == old(self).text(),
                self.opts() == old(self).opts(),
                ws_end(old(self).text(), old(self).position()) == ws_end(
                    self.text(),
                    self.position(),
                ),
            ensures
                self.wf(),
                self.text() == old(self).text(),
                self.opts() == old(self).opts(),
                self.position() == ws_end(old(self).text(), old(self).position()),
            decreases self.text().len() - self.position(),
        {
            if self.pos < self.input.len() {
                let c = self.input[self.pos];
                if c == ' ' || c == '\t' {
                    self.advance();
                } else {
                    proof {
                        assert(ws_end(self.text(), self.position()) == self.position());
                    }
                    break ;
                }
            } else {
                proof {
                    assert(ws_end(self.text(), self.position()) == self.position());
                }
                break ;
            }
        }
    }

    /// Consumes folding whitespace at the cursor: a run of spaces and tabs,
    /// optionally continued across a single CRLF fold.
    fn skip_fws(&mut self)
        requires
            old(self).wf(),
        ensures
            final(self).wf(),
            final(self).text() == old(self).text(),
            final(self).opts() == old(self).opts(),
            final(self).position() == fws_end(old(self).text(), old(self).position()),
    {
        self.skip_ws();
        proof {
            crate::text::lemma_len_le_bytes(self.text());
        }
        if self.pos < self.input.len() && self.pos + 1 < self.input.len() {
            let a = self.input[self.pos];
            let b = self.input[self.pos + 1];
            if a == '\r' && b == '\n' {
                self.advance();
                self.advance();
                self.skip_ws();
            }
        }
    }

    /// Consumes the character after a backslash: a quoted pair admits any
    /// character but a control character other than horizontal tab.
    fn parse_quoted_pair(&mut self) -> (r: Result<char, ParseError>)
        requires
            old(self).wf(),
        ensures
            final(self).wf(),
            final(self).text() == old(self).text(),
            final(self).opts() == old(self).opts(),
            ({
                let s = old(self).text();
                let i = old(self).position();
                if i >= s.len() {
                    r matches Err(pe) && pe.0@ == "unexpected end of quoted pair"@ && pe.1
                        == byte_off(s, s.len() as int)
                } else if spec_is_ascii_control_and_not_htab(s[i]) {
                    r matches Err(pe) && pe.0@ == "invalid character in quoted pair"@ && pe.1
                        == byte_off(s, i)
                } else {
                    r matches Ok(c) && c == s[i] && final(self).position() == i + 1
                }
            }),
    {
        if self.pos >= self.input.len() {
            return Err(ParseError("unexpected end of quoted pair", self.byte_pos));
        }
        let c = self.input[self.pos];
        if is_ascii_control_and_not_htab(c) {
            return Err(ParseError("invalid character in quoted pair", self.byte_pos));
        }
        self.advance();
        Ok(c)
    }

    /// Scans a dot-atom at the cursor: the longest run of characters that
    /// may stand in one, which must be non-empty and, split on `.`, have no
    /// empty label. On failure the cursor does not move and the error
    /// carries `empty_label_error_text` and the byte offset of the first
    /// violation: the start of the empty label, or the trailing dot itself
    /// when the empty label is the trailing one.
    pub fn parse_dot_atom(&mut self, empty_label_error_text: &'static str) -> (r: Result<
        String,
        ParseError,
    >)
        requires
            old(self).wf(),
        ensures
            final(self).wf(),
            final(self).text() == old(self).text(),
            final(self).opts() == old(self).opts(),
            ({
                let s = old(self).text();
                let i = old(self).position();
                match dot_atom_at(s, i) {
                    Ok(e) => r matches Ok(sp) && sp@ == s.subrange(i, e) && final(self).position()
                        == e,
                    Err(p) => r matches Err(pe) && pe.0@ == empty_label_error_text@ && pe.1
                        == byte_off(s, p) && final(self).position() == i,
                }
            }),
    {
        let ghost s = self.input@;
        let ghost i0 = self.pos as int;
        proof {
            crate::text::lemma_len_le_bytes(s);
        }
        let mut e = self.pos;
        loop
            invariant
                *self == *old(self),
                self.wf(),
                i0 <= e <= s.len(),
                s == self.input@,
                i0 == self.pos as int,
                atext_end(s, i0) == atext_end(s, e as int),
                s.len() <= usize::MAX,
            ensures
                *self == *old(self),
                i0 <= e <= s.len(),
                atext_end(s, i0) == e as int,
            decreases s.len() - e,
        {
            if e < self.input.len() {
                if !is_not_atext(self.input[e]) {
                    proof {
                        assert(atext_end(s, e as int) == atext_end(s, e + 1));
                    }
                    e = e + 1;
                } else {
                    proof {
                        assert(atext_end(s, e as int) == e as int);
                    }
                    break ;
                }
            } else {
                proof {
                    assert(atext_end(s, e as int) == e as int);
                }
                break ;
            }
        }
        let ghost span = s.subrange(i0, e as int);
        let mut st = self.pos;
        loop
            invariant
                *self == *old(self),
                self.wf(),
                s == self.input@,
                i0 == self.pos as int,
                i0 <= st <= e <= s.len(),
                s.len() <= usize::MAX,
                atext_end(s, i0) == e as int,
                span == s.subrange(i0, e as int),
                empty_label_at(span, 0) == empty_label_at(span, st - i0),
            ensures
                *self == *old(self),
                i0 <= st <= e,
                empty_label_at(span, 0) is None,
            decreases e - st,
        {
            let mut d = st;
            loop
                invariant
                    *self == *old(self),
                    s == self.input@,
                    i0 == self.pos as int,
                    i0 <= st <= d <= e <= s.len(),
                    s.len() <= usize::MAX,
                    span == s.subrange(i0, e as int),
                    find_char(span, st - i0, '.') == find_char(span, d - i0, '.'),
                ensures
                    *self == *old(self),
                    st <= d <= e,
                    find_char(span, st - i0, '.') == d - i0,
                    d < e ==> s[d as int] == '.',
                decreases e - d,
            {
                if d < e {
                    if self.input[d] == '.' {
                        proof {
                            assert(span[d - i0] == s[d as int]);
                            assert(find_char(span, d - i0, '.') == d - i0);
                        }
                        break ;
                    } else {
                        proof {
                            assert(span[d - i0] == s[d as int]);
                            assert(find_char(span, d - i0, '.') == find_char(span, d + 1 - i0, '.'));
                        }
                        d = d + 1;
                    }
                } else {
                    proof {
                        assert(d - i0 >= span.len());
                        assert(find_char(span, d - i0, '.') == span.len());
                        assert(span.len() == e - i0);
                    }
                    break ;
                }
            }
            if d == st {
                let errpos = if st == e && st > self.pos {
                    st - 1
                } else {
                    st
                };
                proof {
                    assert(empty_label_at(span, st - i0) == Some(st - i0));
                    assert(errpos as int == i0 + crate::grammar::empty_label_offset(
                        span,
                        st - i0,
                    ));
                    crate::text::lemma_byte_off_le(s, errpos as int, s.len() as int);
                    crate::text::lemma_byte_off_end(s);
                    crate::text::lemma_byte_off_le(s, i0, errpos as int);
                }
                let off = crate::text::byte_distance(&self.input, self.pos, errpos);
                return Err(ParseError(empty_label_error_text, self.byte_pos + off));
            }
            if d == e {
                proof {
                    assert(find_char(span, st - i0, '.') == span.len());
                    assert(empty_label_at(span, st - i0) is None);
                }
                break ;
            }
            proof {
                assert(find_char(span, st - i0, '.') == d - i0);
                assert(empty_label_at(span, st - i0) == empty_label_at(span, d + 1 - i0));
            }
            st = d + 1;
        }
        proof {
            assert(dot_atom_at(s, i0) == Ok::<int, int>(e as int));
            crate::text::lemma_byte_off_le(s, e as int, s.len() as int);
            crate::text::lemma_byte_off_end(s);
        }
        let result_chars = crate::text::vec_slice_chars(&self.input, self.pos, e);
        let dist = crate::text::byte_distance(&self.input, self.pos, e);
        self.byte_pos = self.byte_pos + dist;
        self.pos = e;
        Ok(crate::text::chars_to_string(&result_chars))
    }

    /// Scans the body of a quoted string, the opening quote already
    /// consumed: characters and quoted pairs accumulate verbatim until the
    /// closing quote, with folding whitespace skipped when that sub-grammar
    /// is enabled.
    fn parse_quoted_string(&mut self) -> (r: Result<String, ParseError>)
        requires
            old(self).wf(),
        ensures
            final(self).wf(),
            final(self).text() == old(self).text(),
            final(self).opts() == old(self).opts(),
            ({
                let s = old(self).text();
                let ws = old(self).opts().white_spaces;
                match quoted_string_at(s, step_fws(s, old(self).position(), ws), ws) {
                    Ok(p) => r matches Ok(q) && q@ == p.0 && final(self).position() == p.1,
                    Err(err) => r matches Err(pe) && pe.0@ == err.msg && pe.1 == err.off,
                }
            }),
    {
        let ghost s = self.input@;
        let ghost ws = self.options.white_spaces;
        proof {
            crate::text::lemma_len_le_bytes(s);
        }
        if self.options.white_spaces {
            self.skip_fws();
        }
        let ghost p1 = self.position();
        let mut acc: Vec<char> = Vec::new();
        loop
            invariant
                self.wf(),
                s == old(self).text(),
                ws == old(self).opts().white_spaces,
                p1 == step_fws(s, old(self).position(), ws),
                self.text() == s,
                self.opts() == old(self).opts(),
                0 <= p1 <= s.len(),
                s.len() <= usize::MAX,
                content_cont(quoted_string_at(s, self.position(), ws), acc@) == quoted_string_at(
                    s,
                    p1,
                    ws,
                ),
            decreases s.len() - self.position(),
        {
            if self.pos >= self.input.len() {
                return Err(ParseError("expected '\"' for quoted local part", self.byte_pos));
            }
            let c = self.input[self.pos];
            if c == '"' {
                let ghost i = self.position();
                self.advance();
                proof {
                    assert(acc@ + Seq::<char>::empty() =~= acc@);
                }
                return Ok(crate::text::chars_to_string(&acc));
            }
            if c == '\\' {
                let ghost i = self.position();
                let ghost acc0 = acc@;
                self.advance();
                match self.parse_quoted_pair() {
                    Err(e) => {
                        return Err(e);
                    },
                    Ok(ch) => {
                        acc.push(ch);
                        if self.options.white_spaces {
                            self.skip_fws();
                        }
                        proof {
                            let rest = quoted_string_at(s, step_fws(s, i + 2, ws), ws);
                            crate::grammar::lemma_step_fws(s, i + 2, ws);
                            assert(self.position() == step_fws(s, i + 2, ws));
                            assert(quoted_string_at(s, i, ws) == content_cont(rest, seq![s[i + 1]]));
                            lemma_content_cont_push(rest, acc0, ch);
                        }
                    },
                }
            } else if is_ascii_control_or_space(c) {
                return Err(ParseError("invalid character in quoted local part", self.byte_pos));
            } else {
                let ghost i = self.position();
                let ghost acc0 = acc@;
                self.advance();
                acc.push(c);
                if self.options.white_spaces {
                    self.skip_fws();
                }
                proof {
                    let rest = quoted_string_at(s, step_fws(s, i + 1, ws), ws);
                    crate::grammar::lemma_step_fws(s, i + 1, ws);
                    assert(self.position() == step_fws(s, i + 1, ws));
                    assert(quoted_string_at(s, i, ws) == content_cont(rest, seq![s[i]]));
                    lemma_content_cont_push(rest, acc0, c);
                }
            }
        }
    }

    /// Scans the body of a comment, the opening parenthesis already
    /// consumed: nested parentheses and quoted pairs are tracked until the
    /// parenthesis that closes the comment.
    fn parse_comment(&mut self) -> (r: Result<(), ParseError>)
        requires
            old(self).wf(),
            old(self).opts().white_spaces,
            old(self).position() >= 1,
        ensures
            final(self).wf(),
            final(self).text() == old(self).text(),
            final(self).opts() == old(self).opts(),
            ({
                let s = old(self).text();
                match comment_end(s, fws_end(s, old(self).position()), 1, true) {
                    Ok(e) => r is Ok && final(self).position() == e,
                    Err(err) => r matches Err(pe) && pe.0@ == err.msg && pe.1 == err.off,
                }
            }),
    {
        let ghost s = self.input@;
        proof {
            crate::text::lemma_len_le_bytes(s);
        }
        self.skip_fws();
        proof {
            crate::grammar::lemma_fws_end(s, old(self).position());
        }
        let ghost p1 = self.position();
        let mut nest: usize = 1;
        loop
            invariant
                self.wf(),
                s == old(self).text(),
                self.text() == s,
                self.opts() == old(self).opts(),
                p1 == fws_end(s, old(self).position()),
                old(self).position() >= 1,
                0 <= p1 <= s.len(),
                s.len() <= usize::MAX,
                1 <= nest <= self.position(),
                comment_end(s, p1, 1, true) == comment_end(s, self.position(), nest as nat, true),
            decreases s.len() - self.position(),
        {
            if self.pos >= self.input.len() {
                return Err(ParseError("expected ')' for comment", self.byte_pos));
            }
            let c = self.input[self.pos];
            if c == ')' {
                let ghost i = self.position();
                self.advance();
                if nest == 1 {
                    return Ok(());
                }
                nest = nest - 1;
                self.skip_fws();
                proof {
                    crate::grammar::lemma_fws_end(s, i + 1);
                }
            } else if c == '\\' {
                let ghost i = self.position();
                self.advance();
                match self.parse_quoted_pair() {
                    Err(e) => {
                        return Err(e);
                    },
                    Ok(_) => {
                        self.skip_fws();
                        proof {
                            crate::grammar::lemma_fws_end(s, i + 2);
                        }
                    },
                }
            } else if c == '(' {
                let ghost i = self.position();
                self.advance();
                nest = nest + 1;
                self.skip_fws();
                proof {
                    crate::grammar::lemma_fws_end(s, i + 1);
                }
            } else if is_ascii_control_or_space(c) {
                return Err(ParseError("invalid character in comment", self.byte_pos));
            } else {
                let ghost i = self.position();
                self.advance();
                self.skip_fws();
                proof {
                    crate::grammar::lemma_fws_end(s, i + 1);
                }
            }
        }
    }

    /// Consumes the comments and folding whitespace that the enabled
    /// sub-grammars skip between tokens.
    fn parse_cfws(&mut self) -> (r: Result<(), ParseError>)
        requires
            old(self).wf(),
        ensures
            final(self).wf(),
            final(self).text() == old(self).text(),
            final(self).opts() == old(self).opts(),
            ({
                let s = old(self).text();
                match cfws_end(s, old(self).position(), old(self).opts()) {
                    Ok(e) => r is Ok && final(self).position() == e,
                    Err(err) => r matches Err(pe) && pe.0@ == err.msg && pe.1 == err.off,
                }
            }),
    {
        let ghost s = self.input@;
        if !self.options.white_spaces {
            return Ok(());
        }
        self.skip_fws();
        if !self.options.comments {
            return Ok(());
        }
        let ghost p1 = self.position();
        loop
            invariant
                self.wf(),
                s == old(self).text(),
                self.text() == s,
                self.opts() == old(self).opts(),
                self.opts().white_spaces,
                self.opts().comments,
                p1 == fws_end(s, old(self).position()),
                0 <= p1 <= s.len(),
                comments_end(s, p1) == comments_end(s, self.position()),
            decreases s.len() - self.position(),
        {
            let ghost j = self.position();
            if !self.eat_chr('(') {
                return Ok(());
            }
            match self.parse_comment() {
                Err(e) => {
                    return Err(e);
                },
                Ok(()) => (),
            }
            let ghost e = self.position();
            self.skip_fws();
            proof {
                crate::grammar::lemma_fws_end(s, j + 1);
                crate::grammar::lemma_comment_end(s, fws_end(s, j + 1), 1, true);
                crate::grammar::lemma_fws_end(s, e);
            }
        }
    }

    /// Requires the single `@` between the local part and the domain.
    fn skip_at(&mut self) -> (r: Result<(), ParseError>)
        requires
            old(self).wf(),
        ensures
            final(self).wf(),
            final(self).text() == old(self).text(),
            final(self).opts() == old(self).opts(),
            ({
                let s = old(self).text();
                let i = old(self).position();
                if i < s.len() && s[i] == '@' {
                    r is Ok && final(self).position() == i + 1
                } else {
                    r matches Err(pe) && pe.0@ == "expected '@'"@ && pe.1 == byte_off(s, i)
                }
            }),
    {
        if self.eat_chr('@') {
            return Ok(());
        }
        Err(ParseError("expected '@'", self.byte_pos))
    }

    /// Scans the body of a domain literal, the opening bracket already
    /// consumed: characters accumulate verbatim until the closing bracket,
    /// with folding whitespace skipped when that sub-grammar is enabled.
    fn parse_domain_literal(&mut self) -> (r: Result<String, ParseError>)
        requires
            old(self).wf(),
        ensures
            final(self).wf(),
            final(self).text() == old(self).text(),
            final(self).opts() == old(self).opts(),
            ({
                let s = old(self).text();
                match domain_literal_at(s, old(self).position(), old(self).opts().white_spaces) {
                    Ok(p) => r matches Ok(d) && d@ == p.0 && final(self).position() == p.1,
                    Err(err) => r matches Err(pe) && pe.0@ == err.msg && pe.1 == err.off,
                }
            }),
    {
        let ghost s = self.input@;
        proof {
            crate::text::lemma_len_le_bytes(s);
        }
        if self.options.white_spaces {
            self.skip_fws();
            let ghost p1 = self.position();
            let mut acc: Vec<char> = Vec::new();
            loop
                invariant
                    self.wf(),
                    s == old(self).text(),
                    self.text() == s,
                    self.opts() == old(self).opts(),
                    old(self).opts().white_spaces,
                    p1 == fws_end(s, old(self).position()),
                    0 <= p1 <= s.len(),
                    s.len() <= usize::MAX,
                    content_cont(domain_literal_folded_at(s, self.position()), acc@)
                        == domain_literal_folded_at(s, p1),
                decreases s.len() - self.position(),
            {
                if self.pos >= self.input.len() {
                    return Err(ParseError("expected ']' for domain literal", self.byte_pos));
                }
                let c = self.input[self.pos];
                if c == ']' {
                    self.advance();
                    proof {
                        assert(acc@ + Seq::<char>::empty() =~= acc@);
                    }
                    return Ok(crate::text::chars_to_string(&acc));
                }
                if is_not_dtext(c) {
                    return Err(ParseError("invalid character in literal domain", self.byte_pos));
                }
                let ghost i = self.position();
                let ghost acc0 = acc@;
                self.advance();
                acc.push(c);
                self.skip_fws();
                proof {
                    let rest = domain_literal_folded_at(s, fws_end(s, i + 1));
                    crate::grammar::lemma_fws_end(s, i + 1);
                    assert(self.position() == fws_end(s, i + 1));
                    assert(domain_literal_folded_at(s, i) == content_cont(rest, seq![s[i]]));
                    lemma_content_cont_push(rest, acc0, c);
                }
            }
        } else {
            let ghost i0 = self.pos as int;
            let mut e = self.pos;
            loop
                invariant
                    *self == *old(self),
                    self.wf(),
                    s == self.input@,
                    i0 == self.pos as int,
                    i0 <= e <= s.len(),
                    s.len() <= usize::MAX,
                    dtext_end(s, i0) == dtext_end(s, e as int),
                ensures
                    *self == *old(self),
                    i0 <= e <= s.len(),
                    dtext_end(s, i0) == e as int,
                decreases s.len() - e,
            {
                if e < self.input.len() {
                    if !is_not_dtext(self.input[e]) {
                        proof {
                            assert(dtext_end(s, e as int) == dtext_end(s, e + 1));
                        }
                        e = e + 1;
                    } else {
                        proof {
                            assert(dtext_end(s, e as int) == e as int);
                        }
                        break ;
                    }
                } else {
                    proof {
                        assert(dtext_end(s, e as int) == e as int);
                    }
                    break ;
                }
            }
            let result_chars = crate::text::vec_slice_chars(&self.input, self.pos, e);
            let dist = crate::text::byte_distance(&self.input, self.pos, e);
            proof {
                crate::text::lemma_byte_off_le(s, e as int, s.len() as int);
                crate::text::lemma_byte_off_end(s);
            }
            self.byte_pos = self.byte_pos + dist;
            self.pos = e;
            if self.eat_chr(']') {
                Ok(crate::text::chars_to_string(&result_chars))
            } else {
                Err(ParseError("expected ']' for domain literal", self.byte_pos))
            }
        }
    }

    /// Normalizes one scanned field when normalization is enabled, and
    /// passes it through byte-identically when it is not.
    fn normalize_field(&self, value: String) -> (r: String)
        ensures
            r@ == spec_normalize_field(value@, self.opts().normalization),
            self.opts().normalization ==> nfc_of(r@) == r@,
            (forall|k: int|
                0 <= k < value@.len() ==> !spec_is_ascii_control_and_not_htab(
                    #[trigger] value@[k],
                )) ==> (forall|k: int|
                0 <= k < r@.len() ==> !spec_is_ascii_control_and_not_htab(#[trigger] r@[k])),
            is_valid_dot_atom(value@) ==> is_valid_dot_atom(r@),
            (forall|k: int| 0 <= k < value@.len() ==> !spec_is_not_dtext(#[trigger] value@[k]))
                ==> (forall|k: int| 0 <= k < r@.len() ==> !spec_is_not_dtext(#[trigger] r@[k])),
            vstd::utf8::is_ascii_chars(value@) ==> r@ == value@,
    {
        if self.options.normalization {
            crate::unicode::normalize(value.as_str())
        } else {
            value
        }
    }

    /// Scans the local part at the cursor: a quoted string when a quote
    /// stands there, a dot-atom otherwise. The result is stored in
    /// normalized form when normalization is enabled.
    pub fn parse_local_part(&mut self) -> (r: Result<String, ParseError>)
        requires
            old(self).wf(),
        ensures
            final(self).wf(),
            final(self).text() == old(self).text(),
            final(self).opts() == old(self).opts(),
            ({
                let s = old(self).text();
                let i = old(self).position();
                let opts = old(self).opts();
                match local_part_at(s, i, opts) {
                    Ok(p) => r matches Ok(lp) && lp@ == spec_normalize_field(
                        p.0,
                        opts.normalization,
                    ) && (opts.normalization ==> nfc_of(lp@) == lp@) && (forall|k: int|
                        0 <= k < lp@.len() ==> !spec_is_ascii_control_and_not_htab(
                            #[trigger] lp@[k],
                        )) && final(self).position() == p.1,
                    Err(err) => r matches Err(pe) && pe.0@ == err.msg && pe.1 == err.off,
                }
            }),
    {
        let ghost s = self.text();
        let ghost i = self.position();
        let ghost ws = self.opts().white_spaces;
        if self.eat_chr('"') {
            proof {
                crate::grammar::lemma_step_fws(s, i + 1, ws);
                crate::grammar::lemma_quoted_content_wf(s, step_fws(s, i + 1, ws), ws);
            }
            match self.parse_quoted_string() {
                Ok(raw) => Ok(self.normalize_field(raw)),
                Err(e) => Err(e),
            }
        } else {
            proof {
                crate::grammar::lemma_dot_atom_wf(s, i);
            }
            match self.parse_dot_atom("empty label in local part") {
                Ok(raw) => {
                    proof {
                        assert forall|k: int|
                            0 <= k < raw@.len() implies !spec_is_ascii_control_and_not_htab(
                            #[trigger] raw@[k],
                        ) by {
                            assert(!spec_is_not_atext(raw@[k]));
                        }
                    }
                    Ok(self.normalize_field(raw))
                },
                Err(e) => Err(e),
            }
        }
    }

    /// Scans the domain at the cursor: a domain literal when that
    /// sub-grammar is enabled and a bracket stands there, a dot-atom
    /// otherwise. Returns the (normalized) domain text and whether it was a
    /// literal.
    pub fn parse_domain(&mut self) -> (r: Result<(String, bool), ParseError>)
        requires
            old(self).wf(),
        ensures
            final(self).wf(),
            final(self).text() == old(self).text(),
            final(self).opts() == old(self).opts(),
            ({
                let s = old(self).text();
                let i = old(self).position();
                let opts = old(self).opts();
                match domain_at(s, i, opts) {
                    Ok(p) => r matches Ok(d) && d.0@ == spec_normalize_field(
                        p.0,
                        opts.normalization,
                    ) && (opts.normalization ==> nfc_of(d.0@) == d.0@) && d.1 == p.1 && (d.1
                        ==> opts.literals) && (d.1 ==> forall|k: int|
                        0 <= k < d.0@.len() ==> !spec_is_not_dtext(#[trigger] d.0@[k])) && (!d.1
                        ==> is_valid_dot_atom(d.0@)) && final(self).position() == p.2,
                    Err(err) => r matches Err(pe) && pe.0@ == err.msg && pe.1 == err.off,
                }
            }),
    {
        let ghost s = self.text();
        let ghost i = self.position();
        let ghost ws = self.opts().white_spaces;
        let lit = if self.options.literals {
            self.eat_chr('[')
        } else {
            false
        };
        if lit {
            proof {
                crate::grammar::lemma_literal_content_wf(s, i + 1, ws);
            }
            match self.parse_domain_literal() {
                Ok(raw) => {
                    let d = self.normalize_field(raw);
                    Ok((d, true))
                },
                Err(e) => Err(e),
            }
        } else {
            proof {
                crate::grammar::lemma_dot_atom_wf(s, i);
            }
            match self.parse_dot_atom("empty label in domain") {
                Ok(raw) => {
                    let d = self.normalize_field(raw);
                    Ok((d, false))
                },
                Err(e) => Err(e),
            }
        }
    }

    /// Requires the cursor to stand at the end of the input; any remaining
    /// character is a hard failure carrying `message`.
    pub fn check_end(&self, message: &'static str) -> (r: Result<(), ParseError>)
        requires
            self.wf(),
        ensures
            if self.position() == self.text().len() {
                r is Ok
            } else {
                r matches Err(pe) && pe.0@ == message@ && pe.1 == byte_off(
                    self.text(),
                    self.position(),
                )
            },
    {
        if self.pos == self.input.len() {
            Ok(())
        } else {
            Err(ParseError(message, self.byte_pos))
        }
    }

    /// Parses the whole remaining input as one addr-spec: optional CFWS
    /// around each token, the local part, `@`, the domain, and the end of
    /// the input; yields the address or the first violation with its byte
    /// offset.
    pub fn parse(self) -> (r: Result<crate::AddrSpec, ParseError>)
        requires
            self.wf(),
        ensures
            ({
                let s = self.text();
                let i = self.position();
                let opts = self.opts();
                match spec_parse_at(s, i, opts) {
                    Ok(sa) => r matches Ok(a) && a@.local == sa.local && a@.domain == sa.domain
                        && a@.literal == sa.literal && (opts.normalization ==> nfc_of(a@.local)
                        == a@.local && nfc_of(a@.domain) == a@.domain) && (forall|k: int|
                        0 <= k < a@.local.len() ==> !spec_is_ascii_control_and_not_htab(
                            #[trigger] a@.local[k],
                        )) && (a@.literal ==> opts.literals) && (a@.literal ==> forall|k: int|
                        0 <= k < a@.domain.len() ==> !spec_is_not_dtext(#[trigger] a@.domain[k]))
                        && (!a@.literal ==> is_valid_dot_atom(a@.domain)),
                    Err(err) => r matches Err(pe) && pe.0@ == err.msg && pe.1 == err.off,
                }
            }),
    {
        let mut p = self;
        match p.parse_cfws() {
            Ok(()) => (),
            Err(e) => {
                return Err(e);
            },
        }
        let local_part = match p.parse_local_part() {
            Ok(l) => l,
            Err(e) => {
                return Err(e);
            },
        };
        match p.parse_cfws() {
            Ok(()) => (),
            Err(e) => {
                return Err(e);
            },
        }
        match p.skip_at() {
            Ok(()) => (),
            Err(e) => {
                return Err(e);
            },
        }
        match p.parse_cfws() {
            Ok(()) => (),
            Err(e) => {
                return Err(e);
            },
        }
        let (domain, literal) = match p.parse_domain() {
            Ok(d) => d,
            Err(e) => {
                return Err(e);
            },
        };
        match p.parse_cfws() {
            Ok(()) => (),
            Err(e) => {
                return Err(e);
            },
        }
        match p.check_end("expected end of address") {
            Ok(()) => (),
            Err(e) => {
                return Err(e);
            },
        }
        Ok(crate::AddrSpec { local_part, domain, literal })
    }
}

} // verus!
