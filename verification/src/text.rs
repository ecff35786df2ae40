use vstd::prelude::*;

verus! {

/// An ASCII byte, read as the character it stands for.
pub open spec fn byte_char(b: u8) -> char {
    b as char
}

pub open spec fn ascii_chars_of(bytes: Seq<u8>) -> Seq<char> {
    bytes.map_values(|b: u8| byte_char(b))
}

pub open spec fn all_ascii(bytes: Seq<u8>) -> bool {
    forall|i: int| 0 <= i < bytes.len() ==> bytes[i] < 128
}

/// Relies on `String::from_utf8`: a vector of ASCII bytes becomes the string
/// whose characters are exactly those bytes.
#[verifier::external_body]
pub fn ascii_to_string(v: Vec<u8>) -> (r: String)
    requires
        all_ascii(v@),
    ensures
        r@ == ascii_chars_of(v@),
{
    String::from_utf8(v).unwrap_or_default()
}

/// An equal copy of an optional string.
pub fn clone_opt_string(o: &Option<String>) -> (r: Option<String>)
    ensures
        r == *o,
{
    match o {
        Some(s) => Some(s.clone()),
        None => None,
    }
}

/// Whether `a` equals `b` character for character.
pub fn str_eq(a: &str, b: &str) -> (r: bool)
    ensures
        r == (a@ == b@),
{
    let sa = String::from_str(a);
    let sb = String::from_str(b);
    sa == sb
}

pub open spec fn lower_char(c: char) -> char {
    if 'A' <= c <= 'Z' {
        ((c as u8) + 32) as char
    } else {
        c
    }
}

/// ASCII case folding, character by character.
pub open spec fn spec_ascii_lower(s: Seq<char>) -> Seq<char> {
    s.map_values(|c: char| lower_char(c))
}

/// Whether `s`, folded to ASCII lower case, equals `want`.
pub fn ascii_lower_eq(s: &str, want: &str) -> (r: bool)
    ensures
        r == (spec_ascii_lower(s@) == want@),
{
    let n = s.unicode_len();
    let m = want.unicode_len();
    if n != m {
        proof {
            assert(spec_ascii_lower(s@).len() == s@.len());
        }
        return false;
    }
    let mut i: usize = 0;
    while i < n
        invariant
            0 <= i <= n,
            n == s@.len(),
            n == want@.len(),
            forall|k: int| 0 <= k < i ==> lower_char(s@[k]) == want@[k],
        decreases n - i,
    {
        let c = s.get_char(i);
        let lowered: char = if 'A' <= c && c <= 'Z' {
            ((c as u8) + 32) as char
        } else {
            c
        };
        assert(lowered == lower_char(s@[i as int]));
        if lowered != want.get_char(i) {
            assert(spec_ascii_lower(s@)[i as int] != want@[i as int]);
            return false;
        }
        i += 1;
    }
    proof {
        assert(spec_ascii_lower(s@) =~= want@);
    }
    true
}

/// Whether `prefix` is an initial segment of `s`.
pub open spec fn spec_starts_with(s: Seq<char>, prefix: Seq<char>) -> bool {
    prefix.len() <= s.len() && s.take(prefix.len() as int) == prefix
}

pub fn starts_with(s: &str, prefix: &str) -> (r: bool)
    ensures
        r == spec_starts_with(s@, prefix@),
{
    let n = s.unicode_len();
    let m = prefix.unicode_len();
    if m > n {
        return false;
    }
    let mut i: usize = 0;
    while i < m
        invariant
            0 <= i <= m,
            m <= n,
            n == s@.len(),
            m == prefix@.len(),
            forall|k: int| 0 <= k < i ==> s@[k] == prefix@[k],
        decreases m - i,
    {
        if s.get_char(i) != prefix.get_char(i) {
            assert(s@.take(m as int)[i as int] != prefix@[i as int]);
            return false;
        }
        i += 1;
    }
    proof {
        assert(s@.take(m as int) =~= prefix@);
    }
    true
}

/// The suffix-stripping used by the page templates: remove copies of
/// `suffix` from the end of `s` until none is left.
pub open spec fn spec_remove_suffix(s: Seq<char>, suffix: Seq<char>) -> Seq<char>
    decreases s.len(),
{
    if suffix.len() == 0 || s.len() < suffix.len() {
        s
    } else if s.subrange(s.len() - suffix.len(), s.len() as int) == suffix {
        spec_remove_suffix(s.subrange(0, s.len() - suffix.len()), suffix)
    } else {
        s
    }
}

/// Strip every trailing copy of `suffix` from `s`.
pub fn removesuffix(s: &str, suffix: &str) -> (r: String)
    ensures
        r@ == spec_remove_suffix(s@, suffix@),
    decreases s@.len(),
{
    let n = s.unicode_len();
    let m = suffix.unicode_len();
    if m == 0 || n < m {
        return String::from_str(s);
    }
    let tail = s.substring_char(n - m, n);
    if str_eq(tail, suffix) {
        let head = s.substring_char(0, n - m);
        removesuffix(head, suffix)
    } else {
        String::from_str(s)
    }
}

} // verus!
