//! The escaper: doubles a backslash in front of every character that must
//! not stand bare in a serialized quoted local part.

use vstd::prelude::*;

verus! {

/// `s` with a `\` inserted before every occurrence of a character of `sp`.
/// The backslash itself must be a member of `sp` to be escaped.
pub open spec fn spec_escape(s: Seq<char>, sp: Seq<char>) -> Seq<char>
    decreases s.len(),
{
    if s.len() == 0 {
        Seq::<char>::empty()
    } else if sp.contains(s[0]) {
        seq!['\\', s[0]] + spec_escape(s.drop_first(), sp)
    } else {
        seq![s[0]] + spec_escape(s.drop_first(), sp)
    }
}

/// Escaping the empty string yields the empty string.
pub proof fn lemma_escape_empty(sp: Seq<char>)
    ensures
        spec_escape(Seq::<char>::empty(), sp) == Seq::<char>::empty(),
{
}

/// A string containing no character of the escape set is returned unchanged.
pub proof fn lemma_escape_unchanged(s: Seq<char>, sp: Seq<char>)
    requires
        forall|i: int| 0 <= i < s.len() ==> !sp.contains(#[trigger] s[i]),
    ensures
        spec_escape(s, sp) == s,
    decreases s.len(),
{
    if s.len() == 0 {
        assert(spec_escape(s, sp) =~= s);
    } else {
        lemma_escape_unchanged(s.drop_first(), sp);
        assert(seq![s[0]] + s.drop_first() =~= s);
    }
}

/// Returns `value` with every character of `specials` preceded by a `\`.
pub fn escape(value: &str, specials: &[char]) -> (r: String)
    ensures
        r@ == spec_escape(value@, specials@),
{
    let chars = crate::text::str_to_chars(value);
    let n = chars.len();
    let mut out: Vec<char> = Vec::new();
    let mut i: usize = 0;
    proof {
        assert(value@.skip(0) =~= value@);
        assert(out@ + spec_escape(value@, specials@) =~= spec_escape(value@, specials@));
    }
    while i < n
        invariant
            n == chars@.len(),
            chars@ == value@,
            0 <= i <= n,
            spec_escape(value@, specials@) == out@ + spec_escape(value@.skip(i as int), specials@),
        decreases n - i,
    {
        let c = chars[i];
        let mut special = false;
        let m = specials.len();
        let mut j: usize = 0;
        while j < m
            invariant
                m == specials@.len(),
                0 <= j <= m,
                special == exists|k: int| 0 <= k < j && specials@[k] == c,
            decreases m - j,
        {
            if specials[j] == c {
                special = true;
            }
            j = j + 1;
        }
        proof {
            assert(special == specials@.contains(c));
            assert(value@.skip(i as int)[0] == c);
            assert(value@.skip(i as int).drop_first() =~= value@.skip(i + 1));
        }
        if special {
            out.push('\\');
            out.push(c);
            proof {
                assert(spec_escape(value@, specials@) =~= out@ + spec_escape(
                    value@.skip(i + 1),
                    specials@,
                ));
            }
        } else {
            out.push(c);
            proof {
                assert(spec_escape(value@, specials@) =~= out@ + spec_escape(
                    value@.skip(i + 1),
                    specials@,
                ));
            }
        }
        i = i + 1;
    }
    proof {
        assert(value@.skip(n as int) =~= Seq::<char>::empty());
        assert(spec_escape(value@, specials@) =~= out@);
    }
    crate::text::chars_to_string(&out)
}

} // verus!
