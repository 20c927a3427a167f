//! The addr-spec grammar as a mathematical model: pure functions over
//! character sequences that say, position by position, what the parser
//! recognizes, what it yields, and at which byte offset it fails.
//!
//! Every index passed around is a character position into the full input;
//! reported error offsets are byte offsets of the UTF-8 encoding, computed
//! with [`byte_off`].

use vstd::prelude::*;

use crate::parser::spec_is_ascii_control_and_not_htab;
use crate::parser::spec_is_ascii_control_or_space;
use crate::parser::spec_is_not_atext;
use crate::parser::spec_is_not_dtext;
use crate::text::byte_off;
use crate::unicode::nfc_of;

verus! {

/// Which optional sub-grammars a parse recognizes, and whether the fields
/// of the result are NFC-normalized. Disabled sub-grammars are hard errors,
/// not extensions that are silently accepted.
#[derive(Clone, Copy, Debug)]
pub struct ParseOptions {
    /// Skip folding whitespace between tokens and inside quoted strings,
    /// comments, and domain literals.
    pub white_spaces: bool,
    /// Recognize parenthesized, arbitrarily nested comments wherever folding
    /// whitespace is skipped. Effective only together with `white_spaces`.
    pub comments: bool,
    /// Recognize bracket-delimited literal domains.
    pub literals: bool,
    /// NFC-normalize the local part and the domain of a successful parse.
    pub normalization: bool,
}

impl ParseOptions {
    /// Every optional sub-grammar enabled.
    pub open spec fn spec_all() -> ParseOptions {
        ParseOptions { white_spaces: true, comments: true, literals: true, normalization: true }
    }

    /// Every optional sub-grammar enabled.
    pub fn all() -> (r: ParseOptions)
        ensures
            r == ParseOptions::spec_all(),
    {
        ParseOptions { white_spaces: true, comments: true, literals: true, normalization: true }
    }
}

/// A positioned failure: a diagnostic message and the byte offset into the
/// original input at which the violation was detected.
#[verifier::ext_equal]
pub struct SpecErr {
    pub msg: Seq<char>,
    pub off: int,
}

/// The raw (not yet normalized) outcome of a successful parse.
#[verifier::ext_equal]
pub struct SpecAddr {
    pub local: Seq<char>,
    pub domain: Seq<char>,
    pub literal: bool,
}

/// The first position at or after `i` that does not hold a space or a
/// horizontal tab (or the end of the input).
pub open spec fn ws_end(s: Seq<char>, i: int) -> int
    decreases s.len() - i,
{
    if 0 <= i < s.len() && (s[i] == ' ' || s[i] == '\t') {
        ws_end(s, i + 1)
    } else {
        i
    }
}

pub proof fn lemma_ws_end(s: Seq<char>, i: int)
    requires
        0 <= i <= s.len(),
    ensures
        i <= ws_end(s, i) <= s.len(),
    decreases s.len() - i,
{
    if i < s.len() && (s[i] == ' ' || s[i] == '\t') {
        lemma_ws_end(s, i + 1);
    }
}

/// The position reached by skipping folding whitespace from `i`: a run of
/// spaces and tabs, optionally continued across a single CRLF fold.
pub open spec fn fws_end(s: Seq<char>, i: int) -> int {
    let j = ws_end(s, i);
    if j + 1 < s.len() && s[j] == '\r' && s[j + 1] == '\n' {
        ws_end(s, j + 2)
    } else {
        j
    }
}

pub proof fn lemma_fws_end(s: Seq<char>, i: int)
    requires
        0 <= i <= s.len(),
    ensures
        i <= fws_end(s, i) <= s.len(),
{
    lemma_ws_end(s, i);
    let j = ws_end(s, i);
    if j + 1 < s.len() && s[j] == '\r' && s[j + 1] == '\n' {
        lemma_ws_end(s, j + 2);
    }
}

/// `fws_end(s, i)` when the whitespace sub-grammar is enabled, `i` itself
/// when it is not.
pub open spec fn step_fws(s: Seq<char>, i: int, ws: bool) -> int {
    if ws {
        fws_end(s, i)
    } else {
        i
    }
}

pub proof fn lemma_step_fws(s: Seq<char>, i: int, ws: bool)
    requires
        0 <= i <= s.len(),
    ensures
        i <= step_fws(s, i, ws) <= s.len(),
{
    if ws {
        lemma_fws_end(s, i);
    }
}

/// The first position at or after `i` holding character `c`, or the length
/// of `s` if there is none.
pub open spec fn find_char(s: Seq<char>, i: int, c: char) -> int
    decreases s.len() - i,
{
    if 0 <= i < s.len() {
        if s[i] == c {
            i
        } else {
            find_char(s, i + 1, c)
        }
    } else {
        s.len() as int
    }
}

pub proof fn lemma_find_char(s: Seq<char>, i: int, c: char)
    requires
        0 <= i <= s.len(),
    ensures
        i <= find_char(s, i, c) <= s.len(),
        find_char(s, i, c) < s.len() ==> s[find_char(s, i, c)] == c,
        forall|k: int| i <= k < find_char(s, i, c) ==> s[k] != c,
    decreases s.len() - i,
{
    if i < s.len() && s[i] != c {
        lemma_find_char(s, i + 1, c);
    }
}

/// The start of the first empty dot-separated label of `span` at or after
/// label start `start`, if any: zero for an empty span or a leading dot,
/// the position after a doubled dot, or the span's end after a trailing
/// dot. The offset the grammar reports is derived from it by
/// [`empty_label_offset`].
pub open spec fn empty_label_at(span: Seq<char>, start: int) -> Option<int>
    decreases span.len() - start,
    when 0 <= start <= span.len()
    via empty_label_at_decreases
{
    let d = find_char(span, start, '.');
    if d == start {
        Some(start)
    } else if d >= span.len() {
        None
    } else {
        empty_label_at(span, d + 1)
    }
}

#[via_fn]
proof fn empty_label_at_decreases(span: Seq<char>, start: int) {
    lemma_find_char(span, start, '.');
}

/// The first position at or after `i` whose character cannot stand in a
/// dot-atom (or the end of the input): the end of the dot-atom scan.
pub open spec fn atext_end(s: Seq<char>, i: int) -> int
    decreases s.len() - i,
{
    if 0 <= i < s.len() && !spec_is_not_atext(s[i]) {
        atext_end(s, i + 1)
    } else {
        i
    }
}

pub proof fn lemma_atext_end(s: Seq<char>, i: int)
    requires
        0 <= i <= s.len(),
    ensures
        i <= atext_end(s, i) <= s.len(),
        forall|k: int| i <= k < atext_end(s, i) ==> !spec_is_not_atext(s[k]),
        atext_end(s, i) < s.len() ==> spec_is_not_atext(s[atext_end(s, i)]),
    decreases s.len() - i,
{
    if i < s.len() && !spec_is_not_atext(s[i]) {
        lemma_atext_end(s, i + 1);
    }
}

/// The reported offset of an empty label within a scanned span: the label's
/// start — except that a trailing empty label is reported at the trailing
/// dot itself, the position just before it.
pub open spec fn empty_label_offset(span: Seq<char>, rel: int) -> int {
    if rel == span.len() && rel > 0 {
        rel - 1
    } else {
        rel
    }
}

/// The dot-atom production scanned from `i`: on success, the position after
/// the scanned span; on failure, the reported character position of the
/// first empty-label violation — index zero for an empty span or a leading
/// dot, the start of the empty label for a doubled dot, or the index of the
/// trailing dot.
pub open spec fn dot_atom_at(s: Seq<char>, i: int) -> Result<int, int>
    recommends
        0 <= i <= s.len(),
{
    let e = atext_end(s, i);
    match empty_label_at(s.subrange(i, e), 0) {
        Some(rel) => Err(i + empty_label_offset(s.subrange(i, e), rel)),
        None => Ok(e),
    }
}

/// A dot-atom is valid when it is non-empty and, split on `.`, has no empty
/// label — equivalently, when the stored text could have been produced by
/// the unquoted dot-atom grammar.
pub open spec fn is_valid_dot_atom(span: Seq<char>) -> bool {
    &&& forall|k: int| 0 <= k < span.len() ==> !spec_is_not_atext(#[trigger] span[k])
    &&& empty_label_at(span, 0) is None
}

/// The body of a comment, entered past its opening parenthesis, with `nest`
/// open parentheses pending; `i` already sits past any folding whitespace.
/// On success, the position after the parenthesis that closes the comment.
pub open spec fn comment_end(s: Seq<char>, i: int, nest: nat, ws: bool) -> Result<int, SpecErr>
    decreases s.len() - i,
    when 0 <= i <= s.len()
    via comment_end_decreases
{
    if i >= s.len() {
        Err(SpecErr { msg: "expected ')' for comment"@, off: byte_off(s, s.len() as int) })
    } else if s[i] == ')' {
        if nest == 1 {
            Ok(i + 1)
        } else {
            comment_end(s, step_fws(s, i + 1, ws), (nest - 1) as nat, ws)
        }
    } else if s[i] == '\\' {
        if i + 1 >= s.len() {
            Err(SpecErr { msg: "unexpected end of quoted pair"@, off: byte_off(s, s.len() as int) })
        } else if spec_is_ascii_control_and_not_htab(s[i + 1]) {
            Err(SpecErr { msg: "invalid character in quoted pair"@, off: byte_off(s, i + 1) })
        } else {
            comment_end(s, step_fws(s, i + 2, ws), nest, ws)
        }
    } else if s[i] == '(' {
        comment_end(s, step_fws(s, i + 1, ws), nest + 1, ws)
    } else if spec_is_ascii_control_or_space(s[i]) {
        Err(SpecErr { msg: "invalid character in comment"@, off: byte_off(s, i) })
    } else {
        comment_end(s, step_fws(s, i + 1, ws), nest, ws)
    }
}

#[via_fn]
proof fn comment_end_decreases(s: Seq<char>, i: int, nest: nat, ws: bool) {
    if i < s.len() {
        lemma_step_fws(s, i + 1, ws);
        if i + 1 < s.len() {
            lemma_step_fws(s, i + 2, ws);
        }
    }
}

pub proof fn lemma_comment_end(s: Seq<char>, i: int, nest: nat, ws: bool)
    requires
        0 <= i <= s.len(),
    ensures
        comment_end(s, i, nest, ws) matches Ok(e) ==> i < e <= s.len(),
    decreases s.len() - i,
{
    if i < s.len() {
        lemma_step_fws(s, i + 1, ws);
        if i + 1 < s.len() {
            lemma_step_fws(s, i + 2, ws);
        }
        if s[i] == ')' {
            if nest != 1 {
                lemma_comment_end(s, step_fws(s, i + 1, ws), (nest - 1) as nat, ws);
            }
        } else if s[i] == '\\' {
            if i + 1 < s.len() && !spec_is_ascii_control_and_not_htab(s[i + 1]) {
                lemma_comment_end(s, step_fws(s, i + 2, ws), nest, ws);
            }
        } else if s[i] == '(' {
            lemma_comment_end(s, step_fws(s, i + 1, ws), nest + 1, ws);
        } else if !spec_is_ascii_control_or_space(s[i]) {
            lemma_comment_end(s, step_fws(s, i + 1, ws), nest, ws);
        }
    }
}

/// The comments that follow one run of folding whitespace: as long as an
/// opening parenthesis stands at `j`, one comment and the folding
/// whitespace after it are consumed.
pub open spec fn comments_end(s: Seq<char>, j: int) -> Result<int, SpecErr>
    decreases s.len() - j,
    when 0 <= j <= s.len()
    via comments_end_decreases
{
    if j < s.len() && s[j] == '(' {
        match comment_end(s, fws_end(s, j + 1), 1, true) {
            Ok(e) => comments_end(s, fws_end(s, e)),
            Err(err) => Err(err),
        }
    } else {
        Ok(j)
    }
}

#[via_fn]
proof fn comments_end_decreases(s: Seq<char>, j: int) {
    if j < s.len() && s[j] == '(' {
        lemma_fws_end(s, j + 1);
        lemma_comment_end(s, fws_end(s, j + 1), 1, true);
        match comment_end(s, fws_end(s, j + 1), 1, true) {
            Ok(e) => lemma_fws_end(s, e),
            Err(_) => (),
        }
    }
}

pub proof fn lemma_comments_end(s: Seq<char>, j: int)
    requires
        0 <= j <= s.len(),
    ensures
        comments_end(s, j) matches Ok(e) ==> j <= e <= s.len(),
    decreases s.len() - j,
{
    if j < s.len() && s[j] == '(' {
        lemma_fws_end(s, j + 1);
        lemma_comment_end(s, fws_end(s, j + 1), 1, true);
        match comment_end(s, fws_end(s, j + 1), 1, true) {
            Ok(e) => {
                lemma_fws_end(s, e);
                lemma_comments_end(s, fws_end(s, e));
            },
            Err(_) => (),
        }
    }
}

/// Comments and folding whitespace between tokens, as far as the enabled
/// sub-grammars skip them.
pub open spec fn cfws_end(s: Seq<char>, i: int, opts: ParseOptions) -> Result<int, SpecErr> {
    if !opts.white_spaces {
        Ok(i)
    } else if opts.comments {
        comments_end(s, fws_end(s, i))
    } else {
        Ok(fws_end(s, i))
    }
}

pub proof fn lemma_cfws_end(s: Seq<char>, i: int, opts: ParseOptions)
    requires
        0 <= i <= s.len(),
    ensures
        cfws_end(s, i, opts) matches Ok(e) ==> i <= e <= s.len(),
{
    if opts.white_spaces {
        lemma_fws_end(s, i);
        if opts.comments {
            lemma_comments_end(s, fws_end(s, i));
        }
    }
}

/// The body of a quoted string, entered past its opening quote; `i` already
/// sits past any folding whitespace. On success, the accumulated unescaped
/// content and the position after the closing quote.
pub open spec fn quoted_string_at(s: Seq<char>, i: int, ws: bool) -> Result<
    (Seq<char>, int),
    SpecErr,
>
    decreases s.len() - i,
    when 0 <= i <= s.len()
    via quoted_string_at_decreases
{
    if i >= s.len() {
        Err(
            SpecErr {
                msg: "expected '\"' for quoted local part"@,
                off: byte_off(s, s.len() as int),
            },
        )
    } else if s[i] == '"' {
        Ok((Seq::<char>::empty(), i + 1))
    } else if s[i] == '\\' {
        if i + 1 >= s.len() {
            Err(SpecErr { msg: "unexpected end of quoted pair"@, off: byte_off(s, s.len() as int) })
        } else if spec_is_ascii_control_and_not_htab(s[i + 1]) {
            Err(SpecErr { msg: "invalid character in quoted pair"@, off: byte_off(s, i + 1) })
        } else {
            match quoted_string_at(s, step_fws(s, i + 2, ws), ws) {
                Ok((content, e)) => Ok((seq![s[i + 1]] + content, e)),
                Err(err) => Err(err),
            }
        }
    } else if spec_is_ascii_control_or_space(s[i]) {
        Err(SpecErr { msg: "invalid character in quoted local part"@, off: byte_off(s, i) })
    } else {
        match quoted_string_at(s, step_fws(s, i + 1, ws), ws) {
            Ok((content, e)) => Ok((seq![s[i]] + content, e)),
            Err(err) => Err(err),
        }
    }
}

#[via_fn]
proof fn quoted_string_at_decreases(s: Seq<char>, i: int, ws: bool) {
    if i < s.len() {
        lemma_step_fws(s, i + 1, ws);
        if i + 1 < s.len() {
            lemma_step_fws(s, i + 2, ws);
        }
    }
}

pub proof fn lemma_quoted_string_at(s: Seq<char>, i: int, ws: bool)
    requires
        0 <= i <= s.len(),
    ensures
        quoted_string_at(s, i, ws) matches Ok((content, e)) ==> i < e <= s.len(),
    decreases s.len() - i,
{
    if i < s.len() {
        lemma_step_fws(s, i + 1, ws);
        if i + 1 < s.len() {
            lemma_step_fws(s, i + 2, ws);
        }
        if s[i] == '"' {
        } else if s[i] == '\\' {
            if i + 1 < s.len() && !spec_is_ascii_control_and_not_htab(s[i + 1]) {
                lemma_quoted_string_at(s, step_fws(s, i + 2, ws), ws);
            }
        } else if !spec_is_ascii_control_or_space(s[i]) {
            lemma_quoted_string_at(s, step_fws(s, i + 1, ws), ws);
        }
    }
}

/// Prepends already-accumulated content to the outcome of scanning the rest
/// of a quoted string or domain literal.
pub open spec fn content_cont(r: Result<(Seq<char>, int), SpecErr>, acc: Seq<char>) -> Result<
    (Seq<char>, int),
    SpecErr,
> {
    match r {
        Ok(p) => Ok((acc + p.0, p.1)),
        Err(e) => Err(e),
    }
}

pub proof fn lemma_content_cont_push(r: Result<(Seq<char>, int), SpecErr>, acc: Seq<char>, c: char)
    ensures
        content_cont(content_cont(r, seq![c]), acc) == content_cont(r, acc.push(c)),
{
    match r {
        Ok(p) => {
            assert(acc + (seq![c] + p.0) =~= acc.push(c) + p.0);
        },
        Err(_) => {},
    }
}

/// The local part at `i`: a quoted string when a quote stands there, a
/// dot-atom otherwise. On success, the raw content and the position after it.
pub open spec fn local_part_at(s: Seq<char>, i: int, opts: ParseOptions) -> Result<
    (Seq<char>, int),
    SpecErr,
>
    recommends
        0 <= i <= s.len(),
{
    if i < s.len() && s[i] == '"' {
        quoted_string_at(s, step_fws(s, i + 1, opts.white_spaces), opts.white_spaces)
    } else {
        match dot_atom_at(s, i) {
            Ok(e) => Ok((s.subrange(i, e), e)),
            Err(p) => Err(SpecErr { msg: "empty label in local part"@, off: byte_off(s, p) }),
        }
    }
}

/// The first position at or after `i` whose character cannot stand in a
/// domain literal (or the end of the input).
pub open spec fn dtext_end(s: Seq<char>, i: int) -> int
    decreases s.len() - i,
{
    if 0 <= i < s.len() && !spec_is_not_dtext(s[i]) {
        dtext_end(s, i + 1)
    } else {
        i
    }
}

pub proof fn lemma_dtext_end(s: Seq<char>, i: int)
    requires
        0 <= i <= s.len(),
    ensures
        i <= dtext_end(s, i) <= s.len(),
        forall|k: int| i <= k < dtext_end(s, i) ==> !spec_is_not_dtext(s[k]),
        dtext_end(s, i) < s.len() ==> spec_is_not_dtext(s[dtext_end(s, i)]),
    decreases s.len() - i,
{
    if i < s.len() && !spec_is_not_dtext(s[i]) {
        lemma_dtext_end(s, i + 1);
    }
}

/// The body of a domain literal with folding whitespace enabled, entered
/// past its opening bracket and past any folding whitespace. On success,
/// the accumulated content and the position after the closing bracket.
pub open spec fn domain_literal_folded_at(s: Seq<char>, i: int) -> Result<(Seq<char>, int), SpecErr>
    decreases s.len() - i,
    when 0 <= i <= s.len()
    via domain_literal_folded_at_decreases
{
    if i >= s.len() {
        Err(
            SpecErr {
                msg: "expected ']' for domain literal"@,
                off: byte_off(s, s.len() as int),
            },
        )
    } else if s[i] == ']' {
        Ok((Seq::<char>::empty(), i + 1))
    } else if spec_is_not_dtext(s[i]) {
        Err(SpecErr { msg: "invalid character in literal domain"@, off: byte_off(s, i) })
    } else {
        match domain_literal_folded_at(s, fws_end(s, i + 1)) {
            Ok((content, e)) => Ok((seq![s[i]] + content, e)),
            Err(err) => Err(err),
        }
    }
}

#[via_fn]
proof fn domain_literal_folded_at_decreases(s: Seq<char>, i: int) {
    if i < s.len() {
        lemma_fws_end(s, i + 1);
    }
}

/// The domain literal entered past its opening bracket. With folding
/// whitespace disabled, the scan stops at the first non-dtext character,
/// which must be the closing bracket.
pub open spec fn domain_literal_at(s: Seq<char>, i: int, ws: bool) -> Result<
    (Seq<char>, int),
    SpecErr,
>
    recommends
        0 <= i <= s.len(),
{
    if ws {
        domain_literal_folded_at(s, fws_end(s, i))
    } else {
        let e = dtext_end(s, i);
        if e < s.len() && s[e] == ']' {
            Ok((s.subrange(i, e), e + 1))
        } else {
            Err(SpecErr { msg: "expected ']' for domain literal"@, off: byte_off(s, e) })
        }
    }
}

/// The domain at `i`: a domain literal when that sub-grammar is enabled and
/// a bracket stands there, a dot-atom otherwise. On success, the raw domain
/// text, whether it was a literal, and the position after it.
pub open spec fn domain_at(s: Seq<char>, i: int, opts: ParseOptions) -> Result<
    (Seq<char>, bool, int),
    SpecErr,
>
    recommends
        0 <= i <= s.len(),
{
    if opts.literals && i < s.len() && s[i] == '[' {
        match domain_literal_at(s, i + 1, opts.white_spaces) {
            Ok((content, e)) => Ok((content, true, e)),
            Err(err) => Err(err),
        }
    } else {
        match dot_atom_at(s, i) {
            Ok(e) => Ok((s.subrange(i, e), false, e)),
            Err(p) => Err(SpecErr { msg: "empty label in domain"@, off: byte_off(s, p) }),
        }
    }
}

/// The entire addr-spec grammar from position `i`, before normalization:
/// optional CFWS around each token, the local part, `@`, the domain, and
/// the end of the input.
pub open spec fn parse_raw_at(s: Seq<char>, i: int, opts: ParseOptions) -> Result<
    SpecAddr,
    SpecErr,
>
    recommends
        0 <= i <= s.len(),
{
    match cfws_end(s, i, opts) {
        Err(err) => Err(err),
        Ok(i1) => match local_part_at(s, i1, opts) {
            Err(err) => Err(err),
            Ok((local, i2)) => match cfws_end(s, i2, opts) {
                Err(err) => Err(err),
                Ok(i3) => if !(i3 < s.len() && s[i3] == '@') {
                    Err(SpecErr { msg: "expected '@'"@, off: byte_off(s, i3) })
                } else {
                    match cfws_end(s, i3 + 1, opts) {
                        Err(err) => Err(err),
                        Ok(i4) => match domain_at(s, i4, opts) {
                            Err(err) => Err(err),
                            Ok((domain, literal, i5)) => match cfws_end(s, i5, opts) {
                                Err(err) => Err(err),
                                Ok(i6) => if i6 < s.len() {
                                    Err(
                                        SpecErr {
                                            msg: "expected end of address"@,
                                            off: byte_off(s, i6),
                                        },
                                    )
                                } else {
                                    Ok(SpecAddr { local, domain, literal })
                                },
                            },
                        },
                    }
                },
            },
        },
    }
}

/// The entire addr-spec grammar from position `i`, fields normalized as the
/// options ask: the complete model of what the parser returns.
pub open spec fn spec_parse_at(s: Seq<char>, i: int, opts: ParseOptions) -> Result<
    SpecAddr,
    SpecErr,
> {
    match parse_raw_at(s, i, opts) {
        Err(err) => Err(err),
        Ok(raw) => Ok(
            SpecAddr {
                local: crate::unicode::spec_normalize_field(raw.local, opts.normalization),
                domain: crate::unicode::spec_normalize_field(raw.domain, opts.normalization),
                literal: raw.literal,
            },
        ),
    }
}

/// The entire addr-spec grammar applied to `s`, fields normalized as the
/// options ask: the complete model of parsing.
pub open spec fn spec_parse(s: Seq<char>, opts: ParseOptions) -> Result<SpecAddr, SpecErr> {
    spec_parse_at(s, 0, opts)
}

/// The first position at or after `i` holding a control character other
/// than horizontal tab (or the end of the input): the scan that validates
/// a caller-supplied local part.
pub open spec fn ctl_end(s: Seq<char>, i: int) -> int
    decreases s.len() - i,
{
    if 0 <= i < s.len() && !spec_is_ascii_control_and_not_htab(s[i]) {
        ctl_end(s, i + 1)
    } else {
        i
    }
}

/// What constructing an address from a caller-supplied local part and
/// domain yields: the first violation, or the two fields in NFC form. The
/// local part may hold anything but a control character other than
/// horizontal tab; the domain must be a dot-atom, or free of the characters
/// forbidden in a domain literal when `literal` is set.
pub open spec fn spec_new(local: Seq<char>, domain: Seq<char>, literal: bool) -> Result<
    (Seq<char>, Seq<char>),
    SpecErr,
> {
    let lp = ctl_end(local, 0);
    if lp < local.len() {
        Err(SpecErr { msg: "invalid character in local part"@, off: byte_off(local, lp) })
    } else if literal {
        let dp = dtext_end(domain, 0);
        if dp < domain.len() {
            Err(SpecErr { msg: "invalid character in literal domain"@, off: byte_off(domain, dp) })
        } else {
            Ok((nfc_of(local), nfc_of(domain)))
        }
    } else {
        match dot_atom_at(domain, 0) {
            Err(p) => Err(SpecErr { msg: "empty label in domain"@, off: byte_off(domain, p) }),
            Ok(e) => if e < domain.len() {
                Err(SpecErr { msg: "invalid character in domain"@, off: byte_off(domain, e) })
            } else {
                Ok((nfc_of(local), nfc_of(domain)))
            },
        }
    }
}

/// The characters that must stand behind a backslash in a serialized
/// quoted local part: the backslash itself, the quote, the space, and the
/// horizontal tab.
pub open spec fn spec_quote_specials() -> Seq<char> {
    seq!['\\', '"', ' ', '\t']
}

/// The serialized local-part token: the local part itself when it is a
/// valid dot-atom, otherwise the local part escaped and wrapped in quotes.
pub open spec fn spec_serialized_local(local: Seq<char>) -> Seq<char> {
    if is_valid_dot_atom(local) {
        local
    } else {
        seq!['"'] + crate::escape::spec_escape(local, spec_quote_specials()) + seq!['"']
    }
}

/// The serialized domain token: the domain itself, wrapped in brackets when
/// it is a literal.
pub open spec fn spec_serialized_domain(domain: Seq<char>, literal: bool) -> Seq<char> {
    if literal {
        seq!['['] + domain + seq![']']
    } else {
        domain
    }
}

/// The minimal valid text form of an address: the serialized local part,
/// `@`, and the serialized domain.
pub open spec fn spec_serialize(local: Seq<char>, domain: Seq<char>, literal: bool) -> Seq<char> {
    spec_serialized_local(local) + seq!['@'] + spec_serialized_domain(domain, literal)
}



/// The content of a scanned quoted string never holds a control character
/// other than horizontal tab.
pub proof fn lemma_quoted_content_wf(s: Seq<char>, i: int, ws: bool)
    requires
        0 <= i <= s.len(),
    ensures
        quoted_string_at(s, i, ws) matches Ok(p) ==> forall|k: int|
            0 <= k < p.0.len() ==> !spec_is_ascii_control_and_not_htab(#[trigger] p.0[k]),
    decreases s.len() - i,
{
    if i < s.len() {
        lemma_step_fws(s, i + 1, ws);
        if i + 1 < s.len() {
            lemma_step_fws(s, i + 2, ws);
        }
        if s[i] == '"' {
        } else if s[i] == '\\' {
            if i + 1 < s.len() && !spec_is_ascii_control_and_not_htab(s[i + 1]) {
                lemma_quoted_content_wf(s, step_fws(s, i + 2, ws), ws);
            }
        } else if !spec_is_ascii_control_or_space(s[i]) {
            lemma_quoted_content_wf(s, step_fws(s, i + 1, ws), ws);
        }
    }
}


/// A successful dot-atom scan yields a valid dot-atom.
pub proof fn lemma_dot_atom_wf(s: Seq<char>, i: int)
    requires
        0 <= i <= s.len(),
    ensures
        dot_atom_at(s, i) matches Ok(e) ==> i <= e <= s.len() && is_valid_dot_atom(
            s.subrange(i, e),
        ),
{
    lemma_atext_end(s, i);
    let e = atext_end(s, i);
    assert forall|k: int| 0 <= k < s.subrange(i, e).len() implies !spec_is_not_atext(
        #[trigger] s.subrange(i, e)[k],
    ) by {
        assert(s.subrange(i, e)[k] == s[i + k]);
    }
}


/// The content of a scanned domain literal, with folding whitespace
/// enabled, never holds a character forbidden in a domain literal.
pub proof fn lemma_literal_folded_content_wf(s: Seq<char>, i: int)
    requires
        0 <= i <= s.len(),
    ensures
        domain_literal_folded_at(s, i) matches Ok(p) ==> forall|k: int|
            0 <= k < p.0.len() ==> !spec_is_not_dtext(#[trigger] p.0[k]),
    decreases s.len() - i,
{
    if i < s.len() {
        lemma_fws_end(s, i + 1);
        if s[i] != ']' && !spec_is_not_dtext(s[i]) {
            lemma_literal_folded_content_wf(s, fws_end(s, i + 1));
        }
    }
}


/// The content of a scanned domain literal never holds a character
/// forbidden in a domain literal, under either whitespace mode.
pub proof fn lemma_literal_content_wf(s: Seq<char>, i: int, ws: bool)
    requires
        0 <= i <= s.len(),
    ensures
        domain_literal_at(s, i, ws) matches Ok(p) ==> forall|k: int|
            0 <= k < p.0.len() ==> !spec_is_not_dtext(#[trigger] p.0[k]),
{
    if ws {
        lemma_fws_end(s, i);
        lemma_literal_folded_content_wf(s, fws_end(s, i));
    } else {
        lemma_dtext_end(s, i);
        let e = dtext_end(s, i);
        if e < s.len() && s[e] == ']' {
            assert forall|k: int| 0 <= k < s.subrange(i, e).len() implies !spec_is_not_dtext(
                #[trigger] s.subrange(i, e)[k],
            ) by {
                assert(s.subrange(i, e)[k] == s[i + k]);
            }
        }
    }
}

/// The local-part validation scan stops exactly at the first control
/// character other than horizontal tab.
pub proof fn lemma_ctl_end(s: Seq<char>, i: int)
    requires
        0 <= i <= s.len(),
    ensures
        i <= ctl_end(s, i) <= s.len(),
        forall|k: int| i <= k < ctl_end(s, i) ==> !spec_is_ascii_control_and_not_htab(s[k]),
        ctl_end(s, i) < s.len() ==> spec_is_ascii_control_and_not_htab(s[ctl_end(s, i)]),
    decreases s.len() - i,
{
    if i < s.len() && !spec_is_ascii_control_and_not_htab(s[i]) {
        lemma_ctl_end(s, i + 1);
    }
}


/// A scanned domain literal ends inside the input.
pub proof fn lemma_domain_literal_folded_at(s: Seq<char>, i: int)
    requires
        0 <= i <= s.len(),
    ensures
        domain_literal_folded_at(s, i) matches Ok(p) ==> i < p.1 <= s.len(),
    decreases s.len() - i,
{
    if i < s.len() {
        lemma_fws_end(s, i + 1);
        if s[i] != ']' && !spec_is_not_dtext(s[i]) {
            lemma_domain_literal_folded_at(s, fws_end(s, i + 1));
        }
    }
}

/// A scanned domain literal ends inside the input, under either whitespace
/// mode.
pub proof fn lemma_domain_literal_at(s: Seq<char>, i: int, ws: bool)
    requires
        0 <= i <= s.len(),
    ensures
        domain_literal_at(s, i, ws) matches Ok(p) ==> i <= p.1 <= s.len(),
{
    if ws {
        lemma_fws_end(s, i);
        lemma_domain_literal_folded_at(s, fws_end(s, i));
    } else {
        lemma_dtext_end(s, i);
    }
}

} // verus!
