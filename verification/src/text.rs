//! Path text handling: UTF-16 encoding of destination paths, and the
//! lower-casing used for case-insensitive ordering.

use vstd::prelude::*;

verus! {

/// The UTF-16 code units of one character: one unit below `0x10000`, a
/// surrogate pair above.
pub open spec fn utf16_char(c: char) -> Seq<u16> {
    if (c as int) < 0x10000 {
        seq![c as u16]
    } else {
        seq![
            (0xD800 + (((c as int) - 0x10000) / 0x400)) as u16,
            (0xDC00 + (((c as int) - 0x10000) % 0x400)) as u16,
        ]
    }
}

/// The UTF-16 encoding of a whole string.
pub open spec fn utf16_of(s: Seq<char>) -> Seq<u16>
    decreases s.len(),
{
    if s.len() == 0 {
        Seq::empty()
    } else {
        utf16_char(s[0]) + utf16_of(s.skip(1))
    }
}

/// Encoding one more character appends its units.
pub proof fn lemma_utf16_snoc(s: Seq<char>, i: int)
    requires
        0 <= i < s.len(),
    ensures
        utf16_of(s.take(i + 1)) == utf16_of(s.take(i)) + utf16_char(s[i]),
    decreases i,
{
    if i == 0 {
        let s1 = s.take(1);
        assert(s1.len() == 1 && s1[0] == s[0]);
        assert(s1.skip(1) =~= Seq::<char>::empty());
        assert(utf16_of(Seq::<char>::empty()) == Seq::<u16>::empty());
        assert(utf16_of(s1) == utf16_char(s[0]) + Seq::<u16>::empty());
        assert(s.take(0) =~= Seq::<char>::empty());
        assert(utf16_char(s[0]) + Seq::<u16>::empty() =~= utf16_char(s[0]));
        assert(Seq::<u16>::empty() + utf16_char(s[0]) =~= utf16_char(s[0]));
    } else {
        lemma_utf16_snoc(s.skip(1), i - 1);
        let a = s.take(i + 1);
        let b = s.take(i);
        assert(a[0] == s[0] && b[0] == s[0]);
        assert(a.skip(1) =~= s.skip(1).take(i));
        assert(b.skip(1) =~= s.skip(1).take(i - 1));
        assert(s.skip(1)[i - 1] == s[i]);
        assert(utf16_of(a) == utf16_char(s[0]) + utf16_of(s.skip(1).take(i)));
        assert(utf16_of(b) == utf16_char(s[0]) + utf16_of(s.skip(1).take(i - 1)));
        assert(utf16_char(s[0]) + (utf16_of(s.skip(1).take(i - 1)) + utf16_char(s[i])) =~= (
        utf16_char(s[0]) + utf16_of(s.skip(1).take(i - 1))) + utf16_char(s[i]));
    }
}

/// Encodes a string as its UTF-16 code units.
#[verifier::loop_isolation(false)]
pub fn encode_utf16_units(s: &str) -> (r: Vec<u16>)
    ensures
        r@ == utf16_of(s@),
{
    let len = s.unicode_len();
    let mut out: Vec<u16> = Vec::new();
    let mut i: usize = 0;
    proof {
        assert(s@.take(0) =~= Seq::<char>::empty());
    }
    while i < len
        invariant
            i <= len,
            out@ == utf16_of(s@.take(i as int)),
        decreases len - i,
    {
        let c = s.get_char(i);
        let cv = c as u32;
        if cv < 0x10000 {
            out.push(cv as u16);
            proof {
                lemma_utf16_snoc(s@, i as int);
                assert(utf16_char(s@[i as int]) =~= seq![cv as u16]);
                assert(out@ =~= utf16_of(s@.take(i as int)) + utf16_char(s@[i as int]));
            }
        } else {
            let hi = 0xD800 + (cv - 0x10000) / 0x400;
            let lo = 0xDC00 + (cv - 0x10000) % 0x400;
            out.push(hi as u16);
            out.push(lo as u16);
            proof {
                lemma_utf16_snoc(s@, i as int);
                assert(utf16_char(s@[i as int]) =~= seq![hi as u16, lo as u16]);
                assert(out@ =~= utf16_of(s@.take(i as int)) + utf16_char(s@[i as int]));
            }
        }
        i += 1;
    }
    proof {
        assert(s@.take(len as int) =~= s@);
    }
    out
}

/// Decodes UTF-16 units back into a string.
///
/// Relies on `String::from_utf16_lossy`: units that are the UTF-16 encoding
/// of some string decode to exactly that string.
#[verifier::external_body]
pub fn decode_utf16_string(units: &Vec<u16>) -> (r: String)
    ensures
        forall|s: Seq<char>| #[trigger] utf16_of(s) == units@ ==> r@ == s,
{
    String::from_utf16_lossy(units.as_slice())
}

/// The lower-case form of a string, named but not defined: it depends on the
/// characters alone.
pub uninterp spec fn lower_of(s: Seq<char>) -> Seq<char>;

/// Lower-cases a string.
///
/// Relies on `str::to_lowercase`: the result is a function of the characters
/// alone.
#[verifier::external_body]
pub fn lower_str(s: &str) -> (r: String)
    ensures
        r@ == lower_of(s@),
{
    s.to_lowercase()
}

/// Whether `s` ends with `suffix`.
pub open spec fn ends_with(s: Seq<char>, suffix: Seq<char>) -> bool {
    s.len() >= suffix.len() && s.skip(s.len() - suffix.len()) == suffix
}

/// Checks whether a string ends with the given characters.
#[verifier::loop_isolation(false)]
pub fn ends_with_chars(s: &str, pat: &Vec<char>) -> (r: bool)
    ensures
        r == ends_with(s@, pat@),
{
    let n = s.unicode_len();
    let m = pat.len();
    if n < m {
        return false;
    }
    let mut i: usize = 0;
    while i < m
        invariant
            i <= m <= n,
            forall|t: int| 0 <= t < i ==> s@[n - m + t] == pat@[t],
        decreases m - i,
    {
        if s.get_char(n - m + i) != pat[i] {
            proof {
                assert(s@.skip(n as int - m as int)[i as int] != pat@[i as int]);
            }
            return false;
        }
        i += 1;
    }
    proof {
        assert(s@.skip(n as int - m as int) =~= pat@);
    }
    true
}

} // verus!
