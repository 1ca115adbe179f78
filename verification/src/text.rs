//! String helpers for the path and message logic.
use vstd::prelude::*;
use vstd::string::*;

verus! {

/// What `str::to_lowercase` returns for a string: its lowercase equivalent as
/// defined by Unicode's `Lowercase` property (a character may turn into several).
pub uninterp spec fn lowercase(s: Seq<char>) -> Seq<char>;

/// Every character of `s` is ASCII.
pub open spec fn all_ascii(s: Seq<char>) -> bool {
    forall|i: int| 0 <= i < s.len() ==> (#[trigger] s[i] as u32) < 128
}

/// An ASCII capital letter turned to small; any other character as it is.
pub open spec fn ascii_lower_char(c: char) -> char {
    if 65 <= (c as u32) <= 90 {
        ((c as u32) + 32) as char
    } else {
        c
    }
}

/// `s` with its ASCII capital letters turned to small ones.
pub open spec fn ascii_lowercase(s: Seq<char>) -> Seq<char> {
    s.map_values(|c: char| ascii_lower_char(c))
}

/// Calls `str::to_lowercase`. Its result depends on the argument alone and is
/// named `lowercase`; of an ASCII string it is the string with `A`..`Z`
/// turned to `a`..`z` (Unicode lowercases these letters so and leaves every
/// other ASCII character alone). Nothing more is claimed of it here.
#[verifier::external_body]
pub(crate) fn to_lowercase(s: &str) -> (r: String)
    ensures
        r@ == lowercase(s@),
        all_ascii(s@) ==> r@ == ascii_lowercase(s@),
{
    s.to_lowercase()
}

/// Whether two string slices hold the same characters.
pub fn str_equal(a: &str, b: &str) -> (r: bool)
    ensures
        r == (a@ == b@),
{
    let sa = String::from_str(a);
    let sb = String::from_str(b);
    sa == sb
}

/// A new `String` holding `s`.
pub fn owned(s: &str) -> (r: String)
    ensures
        r@ == s@,
{
    String::from_str(s)
}

/// A copy of a list of strings.
pub fn copy_strings(v: &Vec<String>) -> (r: Vec<String>)
    ensures
        r@ == v@,
{
    let mut r: Vec<String> = Vec::new();
    let mut i: usize = 0;
    while i < v.len()
        invariant
            0 <= i <= v.len(),
            r@ == v@.subrange(0, i as int),
        decreases v.len() - i,
    {
        r.push(v[i].clone());
        i = i + 1;
    }
    assert(r@ =~= v@);
    r
}

/// The views of a list of strings.
pub open spec fn string_views(v: Seq<String>) -> Seq<Seq<char>> {
    v.map_values(|s: String| s@)
}


/// `s` with every occurrence of `pat`, from left to right and without
/// overlaps, replaced by `rep` (as `str::replace` does).
pub open spec fn replace_all(s: Seq<char>, pat: Seq<char>, rep: Seq<char>) -> Seq<char>
    decreases s.len(),
{
    if s.len() == 0 {
        Seq::empty()
    } else if pat.len() > 0 && s.len() >= pat.len() && s.subrange(0, pat.len() as int) == pat {
        rep + replace_all(s.skip(pat.len() as int), pat, rep)
    } else {
        seq![s[0]] + replace_all(s.skip(1), pat, rep)
    }
}

/// `s` starts with `prefix`.
pub open spec fn starts_with(s: Seq<char>, prefix: Seq<char>) -> bool {
    s.len() >= prefix.len() && s.subrange(0, prefix.len() as int) == prefix
}

/// The placeholder file of a video: its path with `.mp4` replaced by `.json`.
pub fn placeholder_path_for(video_path: &str) -> (r: String)
    ensures
        r@ == replace_all(video_path@, ".mp4"@, ".json"@),
{
    let ghost s = video_path@;
    let ghost pat = ".mp4"@;
    let ghost rep = ".json"@;
    proof {
        reveal_strlit(".mp4");
    }
    let n = video_path.unicode_len();
    let mut out = String::new();
    let mut last: usize = 0;
    let mut i: usize = 0;
    assert(s.skip(0) =~= s);
    while i < n
        invariant
            n == s.len(),
            s == video_path@,
            pat == ".mp4"@,
            pat.len() == 4,
            pat[0] == '.' && pat[1] == 'm' && pat[2] == 'p' && pat[3] == '4',
            rep == ".json"@,
            0 <= last <= i <= n,
            out@ + s.subrange(last as int, i as int) + replace_all(s.skip(i as int), pat, rep)
                == replace_all(s, pat, rep),
        decreases n - i,
    {
        let ghost rest = s.skip(i as int);
        if n - i >= 4 && video_path.get_char(i) == '.' && video_path.get_char(i + 1) == 'm'
            && video_path.get_char(i + 2) == 'p' && video_path.get_char(i + 3) == '4' {
            assert(rest.subrange(0, 4) =~= pat);
            assert(rest.skip(4) =~= s.skip(i + 4));
            let chunk = video_path.substring_char(last, i);
            out.append(chunk);
            out.append(".json");
            assert(out@ + s.subrange((i + 4) as int, (i + 4) as int) + replace_all(s.skip(i + 4), pat, rep)
                =~= replace_all(s, pat, rep));
            i = i + 4;
            last = i;
        } else {
            assert(!(rest.len() >= pat.len() && rest.subrange(0, pat.len() as int) == pat)) by {
                if rest.len() >= pat.len() && rest.subrange(0, pat.len() as int) == pat {
                    assert(rest.subrange(0, 4)[0] == s[i as int]);
                    assert(rest.subrange(0, 4)[1] == s[i + 1]);
                    assert(rest.subrange(0, 4)[2] == s[i + 2]);
                    assert(rest.subrange(0, 4)[3] == s[i + 3]);
                }
            }
            assert(rest.skip(1) =~= s.skip(i + 1));
            assert(s.subrange(last as int, i as int) + seq![s[i as int]] =~= s.subrange(
                last as int,
                i + 1,
            ));
            i = i + 1;
        }
    }
    assert(s.skip(n as int) =~= Seq::<char>::empty());
    let chunk = video_path.substring_char(last, n);
    out.append(chunk);
    assert(out@ =~= replace_all(s, pat, rep));
    out
}

} // verus!
