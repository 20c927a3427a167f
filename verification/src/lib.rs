//! Parsing, validation, and canonical serialization of the RFC 5322
//! `addr-spec` production (`local-part "@" domain`), with UTF-8 fields as in
//! RFC 6532 and optional domain literals.
//!
//! Parsing either yields an [`AddrSpec`] — both fields NFC-normalized — or a
//! [`ParseError`] carrying a diagnostic message and the byte offset of the
//! first violation. Serializing an [`AddrSpec`] produces the minimal valid
//! text form, quoting the local part only when it could not have been
//! produced by the unquoted dot-atom grammar.

mod escape;
mod grammar;
mod laws;
mod parser;
mod text;
mod unicode;

pub use escape::escape;
pub use grammar::ParseOptions;
pub use parser::is_ascii_control_and_not_htab;
pub use parser::is_ascii_control_or_space;
pub use parser::is_not_atext;
pub use parser::is_not_dtext;
pub use parser::ParseError;
pub use parser::Parser;
pub use unicode::normalize;

use vstd::prelude::*;
use vstd::string::StringExecFns;

use crate::escape::spec_escape;
use crate::grammar::empty_label_at;
use crate::grammar::is_valid_dot_atom;
use crate::grammar::spec_new;
use crate::grammar::spec_parse;
use crate::grammar::spec_quote_specials;
use crate::grammar::spec_serialize;
use crate::grammar::spec_serialized_domain;
use crate::grammar::spec_serialized_local;
use crate::parser::spec_is_ascii_control_and_not_htab;
use crate::parser::spec_is_not_atext;
use crate::parser::spec_is_not_dtext;
use crate::unicode::nfc_of;

verus! {

broadcast use vstd::slice::group_slice_axioms;

/// The mathematical content of an [`AddrSpec`]: the characters of its two
/// fields and the literal flag.
pub struct AddrSpecView {
    pub local: Seq<char>,
    pub domain: Seq<char>,
    pub literal: bool,
}

/// Address specification as defined in RFC 5322 section 3.4.1, with UTF-8
/// support as defined in RFC 6532: an owned local part and domain, both
/// NFC-normalized when built by this crate's checked constructors or by the
/// parser, and a flag recording whether the domain was a bracket-delimited
/// literal.
#[derive(Clone, PartialEq, Eq, PartialOrd, Ord, Hash, Debug)]
pub struct AddrSpec {
    pub(crate) local_part: String,
    pub(crate) domain: String,
    pub(crate) literal: bool,
}

impl View for AddrSpec {
    type V = AddrSpecView;

    closed spec fn view(&self) -> AddrSpecView {
        AddrSpecView { local: self.local_part@, domain: self.domain@, literal: self.literal }
    }
}

/// `value` with a backslash doubled in front of every backslash, quote,
/// space, and horizontal tab: the escaping applied to a serialized quoted
/// local part.
pub fn quote(value: &str) -> (r: String)
    ensures
        r@ == spec_escape(value@, spec_quote_specials()),
{
    let mut specials: Vec<char> = Vec::new();
    specials.push('\\');
    specials.push('"');
    specials.push(' ');
    specials.push('\t');
    proof {
        assert(specials@ =~= spec_quote_specials());
    }
    escape::escape(value, specials.as_slice())
}

impl AddrSpec {
    /// Normalizes an address: parses it (with every optional sub-grammar
    /// enabled) and serializes it again into the minimal valid form.
    pub fn normalize(address: &str) -> (r: Result<String, ParseError>)
        ensures
            match spec_parse(address@, ParseOptions::spec_all()) {
                Ok(sa) => r matches Ok(t) && t@ == spec_serialize(sa.local, sa.domain, sa.literal),
                Err(err) => r matches Err(pe) && pe.0@ == err.msg && pe.1 == err.off,
            },
    {
        match Parser::new(address).parse() {
            Ok(a) => Ok(a.to_string()),
            Err(e) => Err(e),
        }
    }

    /// Creates a new address specification with a dot-atom domain,
    /// validating both fields and NFC-normalizing them.
    pub fn new(local_part: &str, domain: &str) -> (r: Result<AddrSpec, ParseError>)
        ensures
            match spec_new(local_part@, domain@, false) {
                Ok(p) => r matches Ok(a) && a@.local == p.0 && a@.domain == p.1 && a@.literal
                    == false && nfc_of(a@.local) == a@.local && nfc_of(a@.domain) == a@.domain
                    && (forall|k: int|
                    0 <= k < a@.local.len() ==> !spec_is_ascii_control_and_not_htab(
                        #[trigger] a@.local[k],
                    )) && (false ==> forall|k: int|
                    0 <= k < a@.domain.len() ==> !spec_is_not_dtext(#[trigger] a@.domain[k]))
                    && (!(false) ==> is_valid_dot_atom(a@.domain)),
                Err(err) => r matches Err(pe) && pe.0@ == err.msg && pe.1 == err.off,
            },
    {
        Self::new_impl(local_part, domain, false)
    }

    /// Creates a new address specification with a literal domain,
    /// validating both fields and NFC-normalizing them. The domain is only
    /// checked for characters that may not stand in a domain literal; no
    /// dot-atom structure is required.
    pub fn with_literal(local_part: &str, domain: &str) -> (r: Result<AddrSpec, ParseError>)
        ensures
            match spec_new(local_part@, domain@, true) {
                Ok(p) => r matches Ok(a) && a@.local == p.0 && a@.domain == p.1 && a@.literal
                    == true && nfc_of(a@.local) == a@.local && nfc_of(a@.domain) == a@.domain
                    && (forall|k: int|
                    0 <= k < a@.local.len() ==> !spec_is_ascii_control_and_not_htab(
                        #[trigger] a@.local[k],
                    )) && (true ==> forall|k: int|
                    0 <= k < a@.domain.len() ==> !spec_is_not_dtext(#[trigger] a@.domain[k]))
                    && (!(true) ==> is_valid_dot_atom(a@.domain)),
                Err(err) => r matches Err(pe) && pe.0@ == err.msg && pe.1 == err.off,
            },
    {
        Self::new_impl(local_part, domain, true)
    }

    fn new_impl(local_part: &str, domain: &str, literal: bool) -> (r: Result<AddrSpec, ParseError>)
        ensures
            match spec_new(local_part@, domain@, literal) {
                Ok(p) => r matches Ok(a) && a@.local == p.0 && a@.domain == p.1 && a@.literal
                    == literal && nfc_of(a@.local) == a@.local && nfc_of(a@.domain) == a@.domain
                    && (forall|k: int|
                    0 <= k < a@.local.len() ==> !spec_is_ascii_control_and_not_htab(
                        #[trigger] a@.local[k],
                    )) && (literal ==> forall|k: int|
                    0 <= k < a@.domain.len() ==> !spec_is_not_dtext(#[trigger] a@.domain[k]))
                    && (!(literal) ==> is_valid_dot_atom(a@.domain)),
                Err(err) => r matches Err(pe) && pe.0@ == err.msg && pe.1 == err.off,
            },
    {
        let lbytes = local_part.as_bytes();
        let _lt = lbytes.len();
        let lchars = crate::text::str_to_chars(local_part);
        let n = lchars.len();
        proof {
            crate::text::lemma_len_le_bytes(local_part@);
        }
        let mut k: usize = 0;
        loop
            invariant
                0 <= k <= n,
                n == lchars@.len(),
                lchars@ == local_part@,
                vstd::utf8::encode_utf8(local_part@).len() <= usize::MAX,
                crate::grammar::ctl_end(local_part@, 0) == crate::grammar::ctl_end(
                    local_part@,
                    k as int,
                ),
            ensures
                0 <= k <= n,
                crate::grammar::ctl_end(local_part@, 0) == k as int,
            decreases n - k,
        {
            if k < n {
                if is_ascii_control_and_not_htab(lchars[k]) {
                    proof {
                        assert(crate::grammar::ctl_end(local_part@, k as int) == k as int);
                    }
                    break ;
                } else {
                    proof {
                        assert(crate::grammar::ctl_end(local_part@, k as int)
                            == crate::grammar::ctl_end(local_part@, k + 1));
                    }
                    k = k + 1;
                }
            } else {
                proof {
                    assert(crate::grammar::ctl_end(local_part@, k as int) == k as int);
                }
                break ;
            }
        }
        if k < n {
            proof {
                crate::text::lemma_byte_off_zero(local_part@);
            }
            let off = crate::text::byte_distance(&lchars, 0, k);
            return Err(ParseError("invalid character in local part", off));
        }
        if literal {
            let dbytes = domain.as_bytes();
            let _dt = dbytes.len();
            let dchars = crate::text::str_to_chars(domain);
            let dn = dchars.len();
            proof {
                crate::text::lemma_len_le_bytes(domain@);
            }
            let mut q: usize = 0;
            loop
                invariant
                    0 <= q <= dn,
                    dn == dchars@.len(),
                    dchars@ == domain@,
                    vstd::utf8::encode_utf8(domain@).len() <= usize::MAX,
                    crate::grammar::dtext_end(domain@, 0) == crate::grammar::dtext_end(
                        domain@,
                        q as int,
                    ),
                ensures
                    0 <= q <= dn,
                    crate::grammar::dtext_end(domain@, 0) == q as int,
                decreases dn - q,
            {
                if q < dn {
                    if is_not_dtext(dchars[q]) {
                        proof {
                            assert(crate::grammar::dtext_end(domain@, q as int) == q as int);
                        }
                        break ;
                    } else {
                        proof {
                            assert(crate::grammar::dtext_end(domain@, q as int)
                                == crate::grammar::dtext_end(domain@, q + 1));
                        }
                        q = q + 1;
                    }
                } else {
                    proof {
                        assert(crate::grammar::dtext_end(domain@, q as int) == q as int);
                    }
                    break ;
                }
            }
            if q < dn {
                proof {
                    crate::text::lemma_byte_off_zero(domain@);
                }
                let off = crate::text::byte_distance(&dchars, 0, q);
                return Err(ParseError("invalid character in literal domain", off));
            }
        } else {
            let mut parser = Parser::new(domain);
            match parser.parse_dot_atom("empty label in domain") {
                Ok(_) => (),
                Err(e) => {
                    return Err(e);
                },
            }
            match parser.check_end("invalid character in domain") {
                Ok(()) => (),
                Err(e) => {
                    proof {
                        parser.lemma_wf_position();
                    }
                    return Err(e);
                },
            }
        }
        proof {
            crate::grammar::lemma_ctl_end(local_part@, 0);
            if literal {
                crate::grammar::lemma_dtext_end(domain@, 0);
            } else {
                crate::grammar::lemma_dot_atom_wf(domain@, 0);
                assert(domain@.subrange(0, domain@.len() as int) =~= domain@);
            }
        }
        Ok(
            AddrSpec {
                local_part: crate::unicode::normalize(local_part),
                domain: crate::unicode::normalize(domain),
                literal,
            },
        )
    }

    /// Creates a new address specification without performing any
    /// validation or normalization. The caller is responsible for handing
    /// in fields that satisfy the data model; an address built from
    /// arbitrary strings may serialize to text that does not parse back.
    pub fn new_unchecked(local_part: String, domain: String) -> (a: AddrSpec)
        ensures
            a@.local == local_part@,
            a@.domain == domain@,
            a@.literal == false,
    {
        AddrSpec { local_part, domain, literal: false }
    }

    /// Creates a new address specification with a literal domain without
    /// performing any validation or normalization. The caller is
    /// responsible for handing in fields that satisfy the data model.
    pub fn with_literal_unchecked(local_part: String, domain: String) -> (a: AddrSpec)
        ensures
            a@.local == local_part@,
            a@.domain == domain@,
            a@.literal == true,
    {
        AddrSpec { local_part, domain, literal: true }
    }

    /// Returns the local part of the address.
    pub fn local_part(&self) -> (r: &str)
        ensures
            r@ == self@.local,
    {
        self.local_part.as_str()
    }

    /// Returns the domain of the address.
    pub fn domain(&self) -> (r: &str)
        ensures
            r@ == self@.domain,
    {
        self.domain.as_str()
    }

    /// Returns whether serialization must quote the local part: true
    /// exactly when the stored local part could not have been produced by
    /// the unquoted dot-atom grammar — when, split on `.`, it has an empty
    /// label or a label holding a reserved or control character.
    pub fn is_quoted(&self) -> (r: bool)
        ensures
            r == !is_valid_dot_atom(self@.local),
    {
        let chars = crate::text::str_to_chars(self.local_part.as_str());
        let ghost s = self.local_part@;
        let n = chars.len();
        let mut k: usize = 0;
        loop
            invariant
                0 <= k <= n,
                n == chars@.len(),
                chars@ == s,
                s == self@.local,
                forall|j: int| 0 <= j < k ==> !spec_is_not_atext(#[trigger] s[j]),
            ensures
                forall|j: int| 0 <= j < s.len() ==> !spec_is_not_atext(#[trigger] s[j]),
            decreases n - k,
        {
            if k < n {
                if is_not_atext(chars[k]) {
                    return true;
                }
                k = k + 1;
            } else {
                break ;
            }
        }
        proof {
            assert(s.subrange(0, n as int) =~= s);
        }
        let mut st: usize = 0;
        loop
            invariant
                0 <= st <= n,
                n == chars@.len(),
                chars@ == s,
                s == self@.local,
                forall|j: int| 0 <= j < s.len() ==> !spec_is_not_atext(#[trigger] s[j]),
                empty_label_at(s, 0) == empty_label_at(s, st as int),
            ensures
                empty_label_at(s, 0) is None,
            decreases n - st,
        {
            let mut d = st;
            loop
                invariant
                    st <= d <= n,
                    n == chars@.len(),
                    chars@ == s,
                    crate::grammar::find_char(s, st as int, '.') == crate::grammar::find_char(
                        s,
                        d as int,
                        '.',
                    ),
                ensures
                    st <= d <= n,
                    crate::grammar::find_char(s, st as int, '.') == d as int,
                    d < n ==> s[d as int] == '.',
                decreases n - d,
            {
                if d < n {
                    if chars[d] == '.' {
                        proof {
                            assert(crate::grammar::find_char(s, d as int, '.') == d as int);
                        }
                        break ;
                    } else {
                        proof {
                            assert(crate::grammar::find_char(s, d as int, '.')
                                == crate::grammar::find_char(s, d + 1, '.'));
                        }
                        d = d + 1;
                    }
                } else {
                    proof {
                        assert(crate::grammar::find_char(s, d as int, '.') == s.len() as int);
                    }
                    break ;
                }
            }
            if d == st {
                proof {
                    assert(empty_label_at(s, st as int) == Some(st as int));
                }
                return true;
            }
            if d == n {
                proof {
                    assert(empty_label_at(s, st as int) is None);
                }
                break ;
            }
            proof {
                assert(empty_label_at(s, st as int) == empty_label_at(s, d + 1));
            }
            st = d + 1;
        }
        false
    }

    /// Returns whether the domain is a literal.
    pub fn is_literal(&self) -> (r: bool)
        ensures
            r == self@.literal,
    {
        self.literal
    }

    /// Returns the local part and domain of the address.
    pub fn into_parts(self) -> (r: (String, String))
        ensures
            r.0@ == self@.local,
            r.1@ == self@.domain,
    {
        (self.local_part, self.domain)
    }

    /// Returns serialized versions of the local part and the domain: the
    /// local part escaped and quoted when quoting is required, and the
    /// domain bracket-wrapped when it is a literal, so that both tokens can
    /// be embedded in a line-based protocol without further processing.
    pub fn into_serialized_parts(self) -> (r: (String, String))
        ensures
            r.0@ == spec_serialized_local(self@.local),
            r.1@ == spec_serialized_domain(self@.domain, self@.literal),
    {
        let local_token = if !self.is_quoted() {
            let mut t = String::new();
            t.append(self.local_part.as_str());
            t
        } else {
            let quoted = quote(self.local_part.as_str());
            let mut t = String::new();
            t.append("\"");
            t.append(quoted.as_str());
            t.append("\"");
            proof {
                reveal_strlit("\"");
                assert(("\"")@ =~= seq!['"']);
            }
            t
        };
        let domain_token = if !self.is_literal() {
            let mut t = String::new();
            t.append(self.domain.as_str());
            t
        } else {
            let mut t = String::new();
            t.append("[");
            t.append(self.domain.as_str());
            t.append("]");
            proof {
                reveal_strlit("[");
                reveal_strlit("]");
                assert(("[")@ =~= seq!['[']);
                assert(("]")@ =~= seq![']']);
            }
            t
        };
        proof {
            assert(local_token@ =~= spec_serialized_local(self@.local));
            assert(domain_token@ =~= spec_serialized_domain(self@.domain, self@.literal));
        }
        (local_token, domain_token)
    }

    /// Serializes the address into its minimal valid text form:
    /// `local@domain`, with the local part quoted and escaped only when
    /// required, and the domain bracket-wrapped only when it is a literal.
    pub fn to_string(&self) -> (r: String)
        ensures
            r@ == spec_serialize(self@.local, self@.domain, self@.literal),
    {
        let mut out = String::new();
        if !self.is_quoted() {
            out.append(self.local_part.as_str());
        } else {
            let quoted = quote(self.local_part.as_str());
            out.append("\"");
            out.append(quoted.as_str());
            out.append("\"");
            proof {
                reveal_strlit("\"");
                assert(("\"")@ =~= seq!['"']);
            }
        }
        out.append("@");
        proof {
            reveal_strlit("@");
            assert(("@")@ =~= seq!['@']);
        }
        if !self.is_literal() {
            out.append(self.domain.as_str());
        } else {
            let mut bracketed = String::new();
            bracketed.append("[");
            bracketed.append(self.domain.as_str());
            bracketed.append("]");
            proof {
                reveal_strlit("[");
                reveal_strlit("]");
                assert(("[")@ =~= seq!['[']);
                assert(("]")@ =~= seq![']']);
            }
            out.append(bracketed.as_str());
        }
        proof {
            assert(out@ =~= spec_serialize(self@.local, self@.domain, self@.literal));
        }
        out
    }
}

impl core::str::FromStr for AddrSpec {
    type Err = ParseError;

    fn from_str(address: &str) -> Result<AddrSpec, ParseError> {
        Parser::new(address).parse()
    }
}

} // verus!
