//! Character classes, code-point counting, and the conversions between
//! `String` values at the crate boundary and the `Vec<char>` form that the
//! verified text algorithms work on.

use vstd::prelude::*;
use vstd::string::StrSliceExecFns;
use unicode_normalization::UnicodeNormalization;

verus! {

/// The Unicode `White_Space` code points, the class that `str::trim` and
/// the whitespace collapsing of the normalizer go by.
pub open spec fn is_space_char(c: char) -> bool {
    ||| c == ' '
    ||| c == '\t'
    ||| c == '\n'
    ||| c as u32 == 0x0B
    ||| c as u32 == 0x0C
    ||| c == '\r'
    ||| c as u32 == 0x85
    ||| c as u32 == 0xA0
    ||| c as u32 == 0x1680
    ||| (0x2000 <= c as u32 && c as u32 <= 0x200A)
    ||| c as u32 == 0x2028
    ||| c as u32 == 0x2029
    ||| c as u32 == 0x202F
    ||| c as u32 == 0x205F
    ||| c as u32 == 0x3000
}

pub fn is_space(c: char) -> (r: bool)
    ensures
        r == is_space_char(c),
{
    let u = c as u32;
    u == 0x20 || u == 0x09 || u == 0x0A || u == 0x0B || u == 0x0C || u == 0x0D || u == 0x85
        || u == 0xA0 || u == 0x1680 || (0x2000 <= u && u <= 0x200A) || u == 0x2028 || u == 0x2029
        || u == 0x202F || u == 0x205F || u == 0x3000
}

/// The Unicode control characters (general category `Cc`): the C0 and C1
/// ranges.
pub open spec fn is_control_char(c: char) -> bool {
    c as u32 <= 0x1F || (0x7F <= c as u32 && c as u32 <= 0x9F)
}

pub fn is_control(c: char) -> (r: bool)
    ensures
        r == is_control_char(c),
{
    let u = c as u32;
    u <= 0x1F || (0x7F <= u && u <= 0x9F)
}

/// Punctuation standardization applied by the normalizer, one code point at
/// a time: curly double quotes become `"`, curly single quotes and the
/// backtick become `'`, and en-dash, em-dash and the minus sign become `-`.
pub open spec fn canon_char(c: char) -> char {
    if c as u32 == 0x201C || c as u32 == 0x201D {
        '"'
    } else if c as u32 == 0x2018 || c as u32 == 0x2019 || c == '`' {
        '\''
    } else if c as u32 == 0x2013 || c as u32 == 0x2014 || c as u32 == 0x2212 {
        '-'
    } else {
        c
    }
}

pub fn canon(c: char) -> (r: char)
    ensures
        r == canon_char(c),
{
    let u = c as u32;
    if u == 0x201C || u == 0x201D {
        '"'
    } else if u == 0x2018 || u == 0x2019 || u == 0x60 {
        '\''
    } else if u == 0x2013 || u == 0x2014 || u == 0x2212 {
        '-'
    } else {
        c
    }
}

/// Number of Unicode code points in `s`, as opposed to `str::len`, which
/// counts bytes.
pub fn char_len(s: &str) -> (n: usize)
    ensures
        n == s@.len(),
{
    s.unicode_len()
}

/// The code points of `s`, in order.
pub fn chars_of(s: &str) -> (v: Vec<char>)
    ensures
        v@ == s@,
{
    let n = s.unicode_len();
    let mut v: Vec<char> = Vec::new();
    let mut i: usize = 0;
    while i < n
        invariant
            n == s@.len(),
            i <= n,
            v@ == s@.take(i as int),
        decreases n - i,
    {
        let c = s.get_char(i);
        v.push(c);
        i = i + 1;
        proof {
            assert(v@ =~= s@.take(i as int));
        }
    }
    proof {
        assert(v@ =~= s@);
    }
    v
}

/// Relies on `String::push`: appends one character to the string.
#[verifier::external_body]
fn push_char(s: &mut String, c: char)
    ensures
        final(s)@ == old(s)@.push(c),
{
    s.push(c);
}

/// A `String` holding exactly the code points of `v`, in order.
pub fn string_of(v: &Vec<char>) -> (s: String)
    ensures
        s@ == v@,
{
    let mut s = String::new();
    let mut i: usize = 0;
    while i < v.len()
        invariant
            i <= v@.len(),
            s@ == v@.take(i as int),
        decreases v@.len() - i,
    {
        push_char(&mut s, v[i]);
        i = i + 1;
        proof {
            assert(s@ =~= v@.take(i as int));
        }
    }
    proof {
        assert(s@ =~= v@);
    }
    s
}

/// Views of a sequence of character vectors.
pub open spec fn views(vs: Seq<Vec<char>>) -> Seq<Seq<char>> {
    vs.map_values(|v: Vec<char>| v@)
}

/// Views of a sequence of strings.
pub open spec fn str_views(vs: Seq<String>) -> Seq<Seq<char>> {
    vs.map_values(|v: String| v@)
}

/// The characters `v[from..to]`, copied out.
pub fn sub_chars(v: &Vec<char>, from: usize, to: usize) -> (r: Vec<char>)
    requires
        from <= to <= v@.len(),
    ensures
        r@ == v@.subrange(from as int, to as int),
{
    let mut r: Vec<char> = Vec::new();
    let mut k: usize = from;
    while k < to
        invariant
            from <= k <= to <= v@.len(),
            r@ == v@.subrange(from as int, k as int),
        decreases to - k,
    {
        r.push(v[k]);
        proof {
            assert(r@ =~= v@.subrange(from as int, k + 1));
        }
        k = k + 1;
    }
    proof {
        assert(r@ =~= v@.subrange(from as int, to as int));
    }
    r
}

/// Appends all characters of `src` to `dst`.
pub fn append_chars(dst: &mut Vec<char>, src: &Vec<char>)
    ensures
        final(dst)@ == old(dst)@ + src@,
{
    let mut k: usize = 0;
    while k < src.len()
        invariant
            k <= src@.len(),
            dst@ == old(dst)@ + src@.take(k as int),
        decreases src@.len() - k,
    {
        dst.push(src[k]);
        proof {
            assert(dst@ =~= old(dst)@ + src@.take(k + 1));
        }
        k = k + 1;
    }
    proof {
        assert(dst@ =~= old(dst)@ + src@);
    }
}

/// Each character vector as a `String`, in order.
pub fn strings_of(vs: &Vec<Vec<char>>) -> (r: Vec<String>)
    ensures
        str_views(r@) == views(vs@),
{
    let mut r: Vec<String> = Vec::new();
    let mut i: usize = 0;
    while i < vs.len()
        invariant
            i <= vs@.len(),
            r@.len() == i,
            forall|k: int| 0 <= k < i ==> r@[k]@ == vs@[k]@,
        decreases vs@.len() - i,
    {
        let s = string_of(&vs[i]);
        r.push(s);
        i = i + 1;
    }
    proof {
        assert(str_views(r@) =~~= views(vs@));
    }
    r
}

/// What Unicode NFKC normalization returns for a given sequence of code
/// points; the result depends on the input characters alone.
pub uninterp spec fn nfkc_of(s: Seq<char>) -> Seq<char>;

/// Relies on `unicode_normalization`'s `nfkc()`: compatibility
/// decomposition followed by canonical composition (NFKC). Unicode
/// normalization forms are idempotent, so the result is NFKC-stable.
#[verifier::external_body]
pub(crate) fn nfkc_str(s: &str) -> (r: String)
    ensures
        r@ == nfkc_of(s@),
        nfkc_of(r@) == r@,
{
    s.nfkc().collect()
}

} // verus!
