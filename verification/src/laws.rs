//! The round-trip law: serializing an address and parsing the result yields
//! the address back, together with the lemmas about the grammar that carry
//! its proof.

use vstd::prelude::*;
use vstd::utf8::encode_utf8;

use crate::escape::spec_escape;
use crate::grammar::ParseOptions;
use crate::grammar::SpecErr;
use crate::grammar::atext_end;
use crate::grammar::cfws_end;
use crate::grammar::comment_end;
use crate::grammar::comments_end;
use crate::grammar::domain_literal_at;
use crate::grammar::domain_literal_folded_at;
use crate::grammar::dot_atom_at;
use crate::grammar::dtext_end;
use crate::grammar::empty_label_at;
use crate::grammar::fws_end;
use crate::grammar::is_valid_dot_atom;
use crate::grammar::quoted_string_at;
use crate::grammar::spec_quote_specials;
use crate::grammar::step_fws;
use crate::grammar::ws_end;
use crate::grammar::SpecAddr;
use crate::grammar::domain_at;
use crate::grammar::find_char;
use crate::grammar::local_part_at;
use crate::grammar::parse_raw_at;
use crate::grammar::spec_parse;
use crate::grammar::spec_serialize;
use crate::grammar::spec_serialized_domain;
use crate::grammar::spec_serialized_local;
use crate::parser::spec_is_ascii_control_and_not_htab;
use crate::parser::spec_is_ascii_control_or_space;
use crate::parser::spec_is_not_atext;
use crate::parser::spec_is_not_dtext;
use crate::unicode::nfc_of;

verus! {

/// Skipping folding whitespace at a position that holds none is the
/// identity.
proof fn lemma_fws_end_id(s: Seq<char>, i: int)
    requires
        0 <= i <= s.len(),
        i == s.len() || (s[i] != ' ' && s[i] != '\t' && s[i] != '\r'),
    ensures
        fws_end(s, i) == i,
        step_fws(s, i, true) == i,
        step_fws(s, i, false) == i,
{
    assert(ws_end(s, i) == i);
}

/// Skipping comments and folding whitespace at a position that opens
/// neither is the identity, whatever the options.
proof fn lemma_cfws_end_id(s: Seq<char>, i: int, opts: ParseOptions)
    requires
        0 <= i <= s.len(),
        i == s.len() || (s[i] != ' ' && s[i] != '\t' && s[i] != '\r' && s[i] != '('),
    ensures
        cfws_end(s, i, opts) == Ok::<int, SpecErr>(i),
{
    if opts.white_spaces {
        lemma_fws_end_id(s, i);
        if opts.comments {
            assert(comments_end(s, i) == Ok::<int, SpecErr>(i));
        }
    }
}

/// The dot-atom scan ends exactly where the characters that may stand in a
/// dot-atom end.
proof fn lemma_atext_end_is(s: Seq<char>, i: int, e: int)
    requires
        0 <= i <= e <= s.len(),
        forall|k: int| i <= k < e ==> !spec_is_not_atext(#[trigger] s[k]),
        e == s.len() || spec_is_not_atext(s[e]),
    ensures
        atext_end(s, i) == e,
    decreases e - i,
{
    if i < e {
        lemma_atext_end_is(s, i + 1, e);
    }
}

/// The domain-literal scan ends exactly where the characters that may stand
/// in a domain literal end.
proof fn lemma_dtext_end_is(s: Seq<char>, i: int, e: int)
    requires
        0 <= i <= e <= s.len(),
        forall|k: int| i <= k < e ==> !spec_is_not_dtext(#[trigger] s[k]),
        e == s.len() || spec_is_not_dtext(s[e]),
    ensures
        dtext_end(s, i) == e,
    decreases e - i,
{
    if i < e {
        lemma_dtext_end_is(s, i + 1, e);
    }
}

/// A valid dot-atom embedded at `i` and delimited on the right is scanned
/// back exactly.
proof fn lemma_dot_atom_exact(s: Seq<char>, i: int, w: Seq<char>)
    requires
        0 <= i,
        i + w.len() <= s.len(),
        s.subrange(i, i + w.len()) == w,
        is_valid_dot_atom(w),
        i + w.len() == s.len() || spec_is_not_atext(s[i + w.len()]),
    ensures
        dot_atom_at(s, i) == Ok::<int, int>(i + w.len()),
{
    assert forall|k: int| i <= k < i + w.len() implies !spec_is_not_atext(#[trigger] s[k]) by {
        assert(s[k] == w[k - i]);
    }
    lemma_atext_end_is(s, i, i + w.len());
    assert(s.subrange(i, i + w.len()) =~= w);
}

/// The four characters of the escape set, as facts about membership.
proof fn lemma_quote_specials()
    ensures
        spec_quote_specials().contains('\\'),
        spec_quote_specials().contains('"'),
        spec_quote_specials().contains(' '),
        spec_quote_specials().contains('\t'),
{
    assert(spec_quote_specials()[0] == '\\');
    assert(spec_quote_specials()[1] == '"');
    assert(spec_quote_specials()[2] == ' ');
    assert(spec_quote_specials()[3] == '\t');
}

/// The first character of a serialized quoted-string body is never a
/// space, tab, or carriage return: it is a backslash, the closing quote, or
/// a character that needed no escape.
proof fn lemma_escaped_head(s: Seq<char>, i: int, content: Seq<char>)
    requires
        0 <= i,
        i + spec_escape(content, spec_quote_specials()).len() < s.len(),
        s.subrange(i, i + spec_escape(content, spec_quote_specials()).len()) == spec_escape(
            content,
            spec_quote_specials(),
        ),
        s[i + spec_escape(content, spec_quote_specials()).len()] == '"',
        forall|k: int|
            0 <= k < content.len() ==> !spec_is_ascii_control_and_not_htab(#[trigger] content[k]),
    ensures
        s[i] != ' ' && s[i] != '\t' && s[i] != '\r',
{
    lemma_quote_specials();
    let qs = spec_quote_specials();
    let enc = spec_escape(content, qs);
    if content.len() == 0 {
        assert(s[i] == '"');
    } else {
        assert(enc.len() > 0);
        assert(s[i] == enc[0]);
        if qs.contains(content[0]) {
            assert(enc[0] == '\\');
        } else {
            assert(enc[0] == content[0]);
            assert(!spec_is_ascii_control_and_not_htab(content[0]));
            assert(content[0] != ' ' && content[0] != '\t');
            assert(('\r' as u32) == 0xd);
            assert(content[0] != '\r');
        }
    }
}

/// Scanning a quoted-string body that was produced by escaping `content`
/// recovers `content` exactly and stops after the closing quote, under
/// either whitespace mode.
proof fn lemma_quoted_of_escaped(s: Seq<char>, i: int, content: Seq<char>, ws: bool)
    requires
        0 <= i,
        i + spec_escape(content, spec_quote_specials()).len() + 1 <= s.len(),
        s.subrange(i, i + spec_escape(content, spec_quote_specials()).len()) == spec_escape(
            content,
            spec_quote_specials(),
        ),
        s[i + spec_escape(content, spec_quote_specials()).len()] == '"',
        forall|k: int|
            0 <= k < content.len() ==> !spec_is_ascii_control_and_not_htab(#[trigger] content[k]),
    ensures
        quoted_string_at(s, i, ws) == Ok::<(Seq<char>, int), SpecErr>(
            (content, i + spec_escape(content, spec_quote_specials()).len() + 1),
        ),
    decreases content.len(),
{
    lemma_quote_specials();
    let qs = spec_quote_specials();
    let enc = spec_escape(content, qs);
    if content.len() == 0 {
        assert(enc =~= Seq::<char>::empty());
        assert(s[i] == '"');
        assert(quoted_string_at(s, i, ws) == Ok::<(Seq<char>, int), SpecErr>(
            (Seq::<char>::empty(), i + 1),
        ));
        assert(content =~= Seq::<char>::empty());
    } else {
        let c = content[0];
        let rest = content.drop_first();
        let enc_rest = spec_escape(rest, qs);
        assert(forall|k: int|
            0 <= k < rest.len() ==> !spec_is_ascii_control_and_not_htab(#[trigger] rest[k]));
        if qs.contains(c) {
            assert(enc == seq!['\\', c] + enc_rest);
            assert(s[i] == enc[0] && enc[0] == '\\');
            assert(s[i + 1] == enc[1] && enc[1] == c);
            assert(!spec_is_ascii_control_and_not_htab(c));
            assert(s.subrange(i + 2, i + 2 + enc_rest.len()) =~= enc_rest) by {
                assert(forall|k: int|
                    0 <= k < enc_rest.len() ==> s.subrange(i + 2, i + 2 + enc_rest.len())[k] == s[i
                        + 2 + k] && s[i + 2 + k] == enc[2 + k] && enc[2 + k] == enc_rest[k]);
            }
            assert(s[i + 2 + enc_rest.len()] == '"');
            lemma_escaped_head(s, i + 2, rest);
            lemma_fws_end_id(s, i + 2);
            lemma_quoted_of_escaped(s, i + 2, rest, ws);
            assert(seq![s[i + 1]] + rest =~= content);
        } else {
            assert(enc == seq![c] + enc_rest);
            assert(s[i] == enc[0] && enc[0] == c);
            assert(c != '"' && c != '\\' && c != ' ' && c != '\t');
            assert(!spec_is_ascii_control_and_not_htab(c));
            assert(!spec_is_ascii_control_or_space(c)) by {
                if spec_is_ascii_control_or_space(c) {
                    if c as u32 == 0x20 {
                        vstd::utf8::char_u32_cast(c, 0x20);
                        vstd::utf8::char_u32_cast(' ', 0x20);
                    } else {
                        assert(c as u32 == 0x9);
                        vstd::utf8::char_u32_cast(c, 0x9);
                        vstd::utf8::char_u32_cast('\t', 0x9);
                    }
                }
            }
            assert(s.subrange(i + 1, i + 1 + enc_rest.len()) =~= enc_rest) by {
                assert(forall|k: int|
                    0 <= k < enc_rest.len() ==> s.subrange(i + 1, i + 1 + enc_rest.len())[k] == s[i
                        + 1 + k] && s[i + 1 + k] == enc[1 + k] && enc[1 + k] == enc_rest[k]);
            }
            assert(s[i + 1 + enc_rest.len()] == '"');
            lemma_escaped_head(s, i + 1, rest);
            lemma_fws_end_id(s, i + 1);
            lemma_quoted_of_escaped(s, i + 1, rest, ws);
            assert(seq![s[i]] + rest =~= content);
        }
    }
}

/// Scanning a domain-literal body whose characters are all admissible, with
/// folding whitespace enabled, recovers the body exactly and stops after
/// the closing bracket.
proof fn lemma_literal_folded_of(s: Seq<char>, i: int, domain: Seq<char>)
    requires
        0 <= i,
        i + domain.len() + 1 <= s.len(),
        s.subrange(i, i + domain.len()) == domain,
        s[i + domain.len()] == ']',
        forall|k: int| 0 <= k < domain.len() ==> !spec_is_not_dtext(#[trigger] domain[k]),
    ensures
        domain_literal_folded_at(s, i) == Ok::<(Seq<char>, int), SpecErr>(
            (domain, i + domain.len() + 1),
        ),
    decreases domain.len(),
{
    if domain.len() == 0 {
        assert(s[i] == ']');
        assert(domain =~= Seq::<char>::empty());
    } else {
        let c = domain[0];
        let rest = domain.drop_first();
        assert(s[i] == s.subrange(i, i + domain.len())[0] && s.subrange(i, i + domain.len())[0]
            == c);
        assert(!spec_is_not_dtext(c));
        assert(spec_is_not_dtext(']'));
        assert(s[i] != ']');
        assert(s.subrange(i + 1, i + 1 + rest.len()) =~= rest) by {
            assert(forall|k: int|
                0 <= k < rest.len() ==> s.subrange(i + 1, i + 1 + rest.len())[k] == s[i + 1 + k]
                    && s[i + 1 + k] == domain[1 + k] && domain[1 + k] == rest[k]);
        }
        assert(s[i + 1 + rest.len()] == ']');
        if rest.len() == 0 {
            assert(s[i + 1] == ']');
        } else {
            assert(s[i + 1] == rest[0]);
            assert(!spec_is_not_dtext(rest[0]));
            assert(('\r' as u32) == 0xd);
        }
        lemma_fws_end_id(s, i + 1);
        lemma_literal_folded_of(s, i + 1, rest);
        assert(seq![s[i]] + rest =~= domain);
    }
}

/// Scanning a domain-literal body whose characters are all admissible
/// recovers the body exactly, under either whitespace mode.
proof fn lemma_literal_of(s: Seq<char>, i: int, domain: Seq<char>, ws: bool)
    requires
        0 <= i,
        i + domain.len() + 1 <= s.len(),
        s.subrange(i, i + domain.len()) == domain,
        s[i + domain.len()] == ']',
        forall|k: int| 0 <= k < domain.len() ==> !spec_is_not_dtext(#[trigger] domain[k]),
    ensures
        domain_literal_at(s, i, ws) == Ok::<(Seq<char>, int), SpecErr>(
            (domain, i + domain.len() + 1),
        ),
{
    if ws {
        if domain.len() == 0 {
            assert(s[i] == ']');
        } else {
            assert(s[i] == s.subrange(i, i + domain.len())[0]);
            assert(!spec_is_not_dtext(domain[0]));
            assert(('\r' as u32) == 0xd);
        }
        lemma_fws_end_id(s, i);
        lemma_literal_folded_of(s, i, domain);
    } else {
        assert(forall|k: int|
            i <= k < i + domain.len() ==> s[k] == domain[k - i] && !spec_is_not_dtext(
                #[trigger] s[k],
            ));
        assert(spec_is_not_dtext(']'));
        lemma_dtext_end_is(s, i, i + domain.len());
        assert(s.subrange(i, i + domain.len()) =~= domain);
    }
}

/// A valid dot-atom is never empty.
proof fn lemma_valid_dot_atom_nonempty(w: Seq<char>)
    requires
        is_valid_dot_atom(w),
    ensures
        w.len() > 0,
{
    if w.len() == 0 {
        assert(find_char(w, 0, '.') == 0);
        assert(empty_label_at(w, 0) == Some(0int));
    }
}

/// The round-trip law: serializing an address whose fields satisfy the data
/// model — the local part free of control characters other than horizontal
/// tab, the domain a valid dot-atom or, for a literal, free of the
/// characters forbidden in a domain literal, and both fields NFC fixed
/// points when normalization is on — and parsing the serialized form yields
/// exactly the same local part, domain, and literal flag. A literal domain
/// can only be parsed back when the literal sub-grammar is enabled. The
/// hypotheses are exactly what `Parser::parse` and the checked constructors
/// ensure of every address they produce, so the law applies to each of
/// them under the options they were produced with.
pub proof fn lemma_round_trip(
    local: Seq<char>,
    domain: Seq<char>,
    literal: bool,
    opts: ParseOptions,
)
    requires
        forall|k: int|
            0 <= k < local.len() ==> !spec_is_ascii_control_and_not_htab(#[trigger] local[k]),
        literal ==> opts.literals,
        literal ==> forall|k: int|
            0 <= k < domain.len() ==> !spec_is_not_dtext(#[trigger] domain[k]),
        !literal ==> is_valid_dot_atom(domain),
        opts.normalization ==> nfc_of(local) == local && nfc_of(domain) == domain,
    ensures
        spec_parse(spec_serialize(local, domain, literal), opts) == Ok::<SpecAddr, SpecErr>(
            SpecAddr { local, domain, literal },
        ),
{
    lemma_quote_specials();
    let qs = spec_quote_specials();
    let t = spec_serialize(local, domain, literal);
    let lser = spec_serialized_local(local);
    let dser = spec_serialized_domain(domain, literal);
    let at_pos = lser.len() as int;
    let dstart = at_pos + 1;
    assert(t.len() == lser.len() + 1 + dser.len());
    assert(forall|k: int| 0 <= k < lser.len() ==> t[k] == lser[k]);
    assert(t[at_pos] == '@');
    assert(forall|k: int| 0 <= k < dser.len() ==> t[dstart + k] == dser[k]);

    // The serialized local part is non-empty and recovered exactly.
    if is_valid_dot_atom(local) {
        lemma_valid_dot_atom_nonempty(local);
        assert(lser == local);
        assert(t[0] == local[0] && !spec_is_not_atext(local[0]));
        lemma_cfws_end_id(t, 0, opts);
        assert(t[0] != '"');
        assert(t.subrange(0, local.len() as int) =~= local);
        lemma_dot_atom_exact(t, 0, local);
        assert(local_part_at(t, 0, opts) == Ok::<(Seq<char>, int), SpecErr>((local, at_pos)));
    } else {
        let enc = spec_escape(local, qs);
        assert(lser == seq!['"'] + enc + seq!['"']);
        assert(lser.len() == enc.len() + 2);
        assert(t[0] == '"');
        lemma_cfws_end_id(t, 0, opts);
        assert(t.subrange(1, 1 + enc.len() as int) =~= enc) by {
            assert(forall|k: int|
                0 <= k < enc.len() ==> t.subrange(1, 1 + enc.len() as int)[k] == t[1 + k] && t[1 + k]
                    == lser[1 + k] && lser[1 + k] == enc[k]);
        }
        assert(t[1 + enc.len() as int] == lser[1 + enc.len() as int] && lser[1 + enc.len() as int] == '"');
        lemma_escaped_head(t, 1, local);
        lemma_fws_end_id(t, 1);
        lemma_quoted_of_escaped(t, 1, local, opts.white_spaces);
        assert(local_part_at(t, 0, opts) == Ok::<(Seq<char>, int), SpecErr>((local, at_pos)));
    }

    // CFWS around the `@` skips nothing.
    lemma_cfws_end_id(t, at_pos, opts);
    assert(t[at_pos] == '@');

    // The serialized domain token is non-empty and recovered exactly.
    if literal {
        assert(dser == seq!['['] + domain + seq![']']);
        assert(t[dstart] == '[');
        lemma_cfws_end_id(t, dstart, opts);
        assert(t.subrange(dstart + 1, dstart + 1 + domain.len() as int) =~= domain) by {
            assert(forall|k: int|
                0 <= k < domain.len() ==> t.subrange(dstart + 1, dstart + 1 + domain.len() as int)[k]
                    == t[dstart + 1 + k] && t[dstart + 1 + k] == dser[1 + k] && dser[1 + k]
                    == domain[k]);
        }
        assert(t[dstart + 1 + domain.len() as int] == dser[1 + domain.len() as int] && dser[1 + domain.len() as int]
            == ']');
        lemma_literal_of(t, dstart + 1, domain, opts.white_spaces);
        assert(domain_at(t, dstart, opts) == Ok::<(Seq<char>, bool, int), SpecErr>(
            (domain, true, t.len() as int),
        ));
    } else {
        lemma_valid_dot_atom_nonempty(domain);
        assert(dser == domain);
        assert(t[dstart] == domain[0] && !spec_is_not_atext(domain[0]));
        lemma_cfws_end_id(t, dstart, opts);
        assert(t[dstart] != '[');
        assert(t.subrange(dstart, dstart + domain.len() as int) =~= domain) by {
            assert(forall|k: int|
                0 <= k < domain.len() ==> t.subrange(dstart, dstart + domain.len() as int)[k] == t[dstart
                    + k] && t[dstart + k] == dser[k] && dser[k] == domain[k]);
        }
        lemma_dot_atom_exact(t, dstart, domain);
        assert(domain_at(t, dstart, opts) == Ok::<(Seq<char>, bool, int), SpecErr>(
            (domain, false, t.len() as int),
        ));
    }

    // Trailing CFWS at the end of the input skips nothing, and the input is
    // exhausted.
    lemma_cfws_end_id(t, t.len() as int, opts);
    assert(parse_raw_at(t, 0, opts) == Ok::<SpecAddr, SpecErr>(
        SpecAddr { local, domain, literal },
    ));
}

/// The fields extracted by a successful parse, before normalization,
/// satisfy the data model: the local part is free of control characters
/// other than horizontal tab; a literal domain is free of the characters
/// forbidden in a domain literal and is only extracted when the literal
/// sub-grammar is enabled; a non-literal domain is a valid dot-atom.
pub proof fn lemma_parsed_fields_wf(s: Seq<char>, opts: ParseOptions)
    requires
        parse_raw_at(s, 0, opts) is Ok,
    ensures
        ({
            let raw = parse_raw_at(s, 0, opts)->Ok_0;
            &&& forall|k: int|
                0 <= k < raw.local.len() ==> !spec_is_ascii_control_and_not_htab(
                    #[trigger] raw.local[k],
                )
            &&& raw.literal ==> opts.literals
            &&& raw.literal ==> forall|k: int|
                0 <= k < raw.domain.len() ==> !spec_is_not_dtext(#[trigger] raw.domain[k])
            &&& !raw.literal ==> is_valid_dot_atom(raw.domain)
        }),
{
    crate::grammar::lemma_cfws_end(s, 0, opts);
    let i1 = cfws_end(s, 0, opts)->Ok_0;
    assert(0 <= i1 <= s.len());

    // The scanned local part satisfies the data model.
    let lp = local_part_at(s, i1, opts)->Ok_0;
    if i1 < s.len() && s[i1] == '"' {
        crate::grammar::lemma_step_fws(s, i1 + 1, opts.white_spaces);
        crate::grammar::lemma_quoted_content_wf(s, step_fws(s, i1 + 1, opts.white_spaces), opts.white_spaces);
        crate::grammar::lemma_quoted_string_at(
            s,
            step_fws(s, i1 + 1, opts.white_spaces),
            opts.white_spaces,
        );
    } else {
        crate::grammar::lemma_dot_atom_wf(s, i1);
        assert forall|k: int| 0 <= k < lp.0.len() implies !spec_is_ascii_control_and_not_htab(
            #[trigger] lp.0[k],
        ) by {
            assert(!spec_is_not_atext(lp.0[k]));
        }
    }
    let i2 = lp.1;
    assert(0 <= i2 <= s.len());
    crate::grammar::lemma_cfws_end(s, i2, opts);
    let i3 = cfws_end(s, i2, opts)->Ok_0;
    assert(i3 < s.len() && s[i3] == '@');
    crate::grammar::lemma_cfws_end(s, i3 + 1, opts);
    let i4 = cfws_end(s, i3 + 1, opts)->Ok_0;
    assert(0 <= i4 <= s.len());

    // The scanned domain satisfies the data model, and a literal is only
    // scanned when the literal sub-grammar is enabled.
    if opts.literals && i4 < s.len() && s[i4] == '[' {
        crate::grammar::lemma_literal_content_wf(s, i4 + 1, opts.white_spaces);
    } else {
        crate::grammar::lemma_dot_atom_wf(s, i4);
    }
}

/// Every successfully parsed address, with normalization disabled,
/// re-parses from its serialized form to exactly the same address: the
/// fields a parse extracts always satisfy the data model, so the round-trip
/// law applies to them with no further assumption. (With normalization
/// enabled the same conclusion follows from `Parser::parse`'s
/// postconditions and `lemma_round_trip`; it cannot be stated here over
/// `spec_parse` alone, whose fields go through the uninterpreted NFC form.)
pub proof fn lemma_parse_round_trip(s: Seq<char>, opts: ParseOptions)
    requires
        !opts.normalization,
        spec_parse(s, opts) is Ok,
    ensures
        ({
            let sa = spec_parse(s, opts)->Ok_0;
            spec_parse(spec_serialize(sa.local, sa.domain, sa.literal), opts) == spec_parse(
                s,
                opts,
            )
        }),
{
    let raw = parse_raw_at(s, 0, opts)->Ok_0;
    lemma_parsed_fields_wf(s, opts);
    lemma_round_trip(raw.local, raw.domain, raw.literal, opts);
}

/// Whether a production's failure, if any, carries a byte offset that is a
/// valid index into the input: at least zero and at most the length of its
/// UTF-8 encoding.
spec fn off_in_range<T>(r: Result<T, SpecErr>, s: Seq<char>) -> bool {
    match r {
        Ok(_) => true,
        Err(e) => 0 <= e.off <= encode_utf8(s).len(),
    }
}

/// The byte offset of any character position is a valid byte index.
proof fn lemma_byte_off_in_range(s: Seq<char>, p: int)
    requires
        0 <= p <= s.len(),
    ensures
        0 <= crate::text::byte_off(s, p) <= encode_utf8(s).len(),
{
    crate::text::lemma_byte_off_zero(s);
    crate::text::lemma_byte_off_le(s, 0, p);
    crate::text::lemma_byte_off_le(s, p, s.len() as int);
    crate::text::lemma_byte_off_end(s);
}

/// A reported empty-label start lies inside the scanned span.
proof fn lemma_empty_label_at_range(span: Seq<char>, start: int)
    requires
        0 <= start <= span.len(),
    ensures
        empty_label_at(span, start) matches Some(q) ==> start <= q <= span.len(),
    decreases span.len() - start,
{
    crate::grammar::lemma_find_char(span, start, '.');
    let d = find_char(span, start, '.');
    if d != start && d < span.len() {
        lemma_empty_label_at_range(span, d + 1);
    }
}

/// A dot-atom failure points inside the input.
proof fn lemma_dot_atom_err_range(s: Seq<char>, i: int)
    requires
        0 <= i <= s.len(),
    ensures
        dot_atom_at(s, i) matches Err(p) ==> i <= p <= s.len(),
{
    crate::grammar::lemma_atext_end(s, i);
    let e = atext_end(s, i);
    lemma_empty_label_at_range(s.subrange(i, e), 0);
}

/// A comment failure carries a valid byte index.
proof fn lemma_comment_end_off(s: Seq<char>, i: int, nest: nat, ws: bool)
    requires
        0 <= i <= s.len(),
    ensures
        off_in_range(comment_end(s, i, nest, ws), s),
    decreases s.len() - i,
{
    lemma_byte_off_in_range(s, s.len() as int);
    if i < s.len() {
        crate::grammar::lemma_step_fws(s, i + 1, ws);
        if i + 1 < s.len() {
            crate::grammar::lemma_step_fws(s, i + 2, ws);
            lemma_byte_off_in_range(s, i + 1);
        }
        lemma_byte_off_in_range(s, i);
        if s[i] == ')' {
            if nest != 1 {
                lemma_comment_end_off(s, step_fws(s, i + 1, ws), (nest - 1) as nat, ws);
            }
        } else if s[i] == '\\' {
            if i + 1 < s.len() && !spec_is_ascii_control_and_not_htab(s[i + 1]) {
                lemma_comment_end_off(s, step_fws(s, i + 2, ws), nest, ws);
            }
        } else if s[i] == '(' {
            lemma_comment_end_off(s, step_fws(s, i + 1, ws), nest + 1, ws);
        } else if !spec_is_ascii_control_or_space(s[i]) {
            lemma_comment_end_off(s, step_fws(s, i + 1, ws), nest, ws);
        }
    }
}

/// A CFWS failure carries a valid byte index.
proof fn lemma_cfws_end_off(s: Seq<char>, i: int, opts: ParseOptions)
    requires
        0 <= i <= s.len(),
    ensures
        off_in_range(cfws_end(s, i, opts), s),
{
    if opts.white_spaces && opts.comments {
        crate::grammar::lemma_fws_end(s, i);
        lemma_comments_end_off(s, fws_end(s, i));
    }
}

proof fn lemma_comments_end_off(s: Seq<char>, j: int)
    requires
        0 <= j <= s.len(),
    ensures
        off_in_range(comments_end(s, j), s),
    decreases s.len() - j,
{
    if j < s.len() && s[j] == '(' {
        crate::grammar::lemma_fws_end(s, j + 1);
        lemma_comment_end_off(s, fws_end(s, j + 1), 1, true);
        crate::grammar::lemma_comment_end(s, fws_end(s, j + 1), 1, true);
        match comment_end(s, fws_end(s, j + 1), 1, true) {
            Ok(e) => {
                crate::grammar::lemma_fws_end(s, e);
                lemma_comments_end_off(s, fws_end(s, e));
            },
            Err(_) => (),
        }
    }
}

/// A quoted-string failure carries a valid byte index.
proof fn lemma_quoted_string_off(s: Seq<char>, i: int, ws: bool)
    requires
        0 <= i <= s.len(),
    ensures
        off_in_range(quoted_string_at(s, i, ws), s),
    decreases s.len() - i,
{
    lemma_byte_off_in_range(s, s.len() as int);
    if i < s.len() {
        crate::grammar::lemma_step_fws(s, i + 1, ws);
        if i + 1 < s.len() {
            crate::grammar::lemma_step_fws(s, i + 2, ws);
            lemma_byte_off_in_range(s, i + 1);
        }
        lemma_byte_off_in_range(s, i);
        if s[i] == '"' {
        } else if s[i] == '\\' {
            if i + 1 < s.len() && !spec_is_ascii_control_and_not_htab(s[i + 1]) {
                lemma_quoted_string_off(s, step_fws(s, i + 2, ws), ws);
            }
        } else if !spec_is_ascii_control_or_space(s[i]) {
            lemma_quoted_string_off(s, step_fws(s, i + 1, ws), ws);
        }
    }
}

/// A domain-literal failure carries a valid byte index.
proof fn lemma_domain_literal_folded_off(s: Seq<char>, i: int)
    requires
        0 <= i <= s.len(),
    ensures
        off_in_range(domain_literal_folded_at(s, i), s),
    decreases s.len() - i,
{
    lemma_byte_off_in_range(s, s.len() as int);
    if i < s.len() {
        lemma_byte_off_in_range(s, i);
        crate::grammar::lemma_fws_end(s, i + 1);
        if s[i] != ']' && !spec_is_not_dtext(s[i]) {
            lemma_domain_literal_folded_off(s, fws_end(s, i + 1));
        }
    }
}

proof fn lemma_domain_literal_off(s: Seq<char>, i: int, ws: bool)
    requires
        0 <= i <= s.len(),
    ensures
        off_in_range(domain_literal_at(s, i, ws), s),
{
    if ws {
        crate::grammar::lemma_fws_end(s, i);
        lemma_domain_literal_folded_off(s, fws_end(s, i));
    } else {
        crate::grammar::lemma_dtext_end(s, i);
        lemma_byte_off_in_range(s, dtext_end(s, i));
    }
}

/// Every error a parse reports carries a valid byte index into the original
/// input: at least zero and at most the length of its UTF-8 encoding, so a
/// caller can always point at the reported position.
pub proof fn lemma_error_offset_in_range(s: Seq<char>, opts: ParseOptions)
    ensures
        spec_parse(s, opts) matches Err(e) ==> 0 <= e.off <= encode_utf8(s).len(),
{
    lemma_cfws_end_off(s, 0, opts);
    crate::grammar::lemma_cfws_end(s, 0, opts);
    match cfws_end(s, 0, opts) {
        Err(_) => (),
        Ok(i1) => {
            if i1 < s.len() && s[i1] == '"' {
                crate::grammar::lemma_step_fws(s, i1 + 1, opts.white_spaces);
                lemma_quoted_string_off(s, step_fws(s, i1 + 1, opts.white_spaces), opts.white_spaces);
                crate::grammar::lemma_quoted_string_at(
                    s,
                    step_fws(s, i1 + 1, opts.white_spaces),
                    opts.white_spaces,
                );
            } else {
                lemma_dot_atom_err_range(s, i1);
                crate::grammar::lemma_dot_atom_wf(s, i1);
                crate::grammar::lemma_atext_end(s, i1);
                match dot_atom_at(s, i1) {
                    Err(p) => {
                        lemma_byte_off_in_range(s, p);
                    },
                    Ok(_) => (),
                }
            }
            match local_part_at(s, i1, opts) {
                Err(_) => (),
                Ok(lp) => {
                    let i2 = lp.1;
                    assert(0 <= i2 <= s.len());
                    lemma_cfws_end_off(s, i2, opts);
                    crate::grammar::lemma_cfws_end(s, i2, opts);
                    match cfws_end(s, i2, opts) {
                        Err(_) => (),
                        Ok(i3) => {
                            lemma_byte_off_in_range(s, i3);
                            if i3 < s.len() && s[i3] == '@' {
                                lemma_cfws_end_off(s, i3 + 1, opts);
                                crate::grammar::lemma_cfws_end(s, i3 + 1, opts);
                                match cfws_end(s, i3 + 1, opts) {
                                    Err(_) => (),
                                    Ok(i4) => {
                                        if opts.literals && i4 < s.len() && s[i4] == '[' {
                                            lemma_domain_literal_off(
                                                s,
                                                i4 + 1,
                                                opts.white_spaces,
                                            );
                                            crate::grammar::lemma_domain_literal_at(
                                                s,
                                                i4 + 1,
                                                opts.white_spaces,
                                            );
                                        } else {
                                            crate::grammar::lemma_dot_atom_wf(s, i4);
                                            lemma_dot_atom_err_range(s, i4);
                                            match dot_atom_at(s, i4) {
                                                Err(p) => {
                                                    lemma_byte_off_in_range(s, p);
                                                },
                                                Ok(_) => (),
                                            }
                                        }
                                        match domain_at(s, i4, opts) {
                                            Err(_) => (),
                                            Ok(dm) => {
                                                let i5 = dm.2;
                                                assert(0 <= i5 <= s.len());
                                                lemma_cfws_end_off(s, i5, opts);
                                                crate::grammar::lemma_cfws_end(s, i5, opts);
                                                match cfws_end(s, i5, opts) {
                                                    Err(_) => (),
                                                    Ok(i6) => {
                                                        lemma_byte_off_in_range(s, i6);
                                                    },
                                                }
                                            },
                                        }
                                    },
                                }
                            }
                        },
                    }
                },
            }
        },
    }
}

} // verus!

