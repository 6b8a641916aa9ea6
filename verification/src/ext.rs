//! Recognition of image files by their name's extension.
//!
//! The recognized set is fixed: jpg, jpeg, png, gif, bmp, webp, tiff.
//! Matching is case-insensitive and purely suffix-based; a name without an
//! extension never qualifies.

use vstd::prelude::*;
use vstd::string::StrSliceExecFns;

verus! {

/// Lower-case a single ASCII letter; every other character is unchanged.
pub open spec fn spec_ascii_lower(c: char) -> char {
    if 'A' <= c && c <= 'Z' {
        ((c as u8) + 32) as char
    } else {
        c
    }
}

/// Lower-case every character of a sequence (ASCII letters only).
pub open spec fn lower(s: Seq<char>) -> Seq<char> {
    Seq::new(s.len(), |i: int| spec_ascii_lower(s[i]))
}

/// An extension is recognized when, lower-cased, it is one of the fixed set.
pub open spec fn is_image_ext(ext: Seq<char>) -> bool {
    ||| lower(ext) == "jpg"@
    ||| lower(ext) == "jpeg"@
    ||| lower(ext) == "png"@
    ||| lower(ext) == "gif"@
    ||| lower(ext) == "bmp"@
    ||| lower(ext) == "webp"@
    ||| lower(ext) == "tiff"@
}

/// Position of the last '.' in `s`, or -1 when `s` holds none.
pub open spec fn last_dot(s: Seq<char>) -> int
    decreases s.len(),
{
    if s.len() == 0 {
        -1
    } else if s[s.len() - 1] == '.' {
        s.len() - 1
    } else {
        last_dot(s.drop_last())
    }
}

/// The extension of a file name: what follows the last '.'. A name without a
/// dot has no extension, and neither has one whose only dot leads it (a
/// hidden file).
pub open spec fn extension_of(name: Seq<char>) -> Option<Seq<char>> {
    if last_dot(name) <= 0 {
        None
    } else {
        Some(name.subrange(last_dot(name) + 1, name.len() as int))
    }
}

/// A file name counts as an image exactly when it has a recognized extension.
pub open spec fn is_image_name(name: Seq<char>) -> bool {
    match extension_of(name) {
        Some(ext) => is_image_ext(ext),
        None => false,
    }
}

/// Lower-case one character.
fn ascii_lower(c: char) -> (r: char)
    ensures
        r == spec_ascii_lower(c),
{
    if 'A' <= c && c <= 'Z' {
        ((c as u8) + 32) as char
    } else {
        c
    }
}

/// True exactly when the character vector and the string slice hold the same
/// characters.
fn chars_eq_str(v: &Vec<char>, s: &str) -> (r: bool)
    ensures
        r == (v@ == s@),
{
    let n = s.unicode_len();
    if v.len() != n {
        return false;
    }
    for i in 0..n
        invariant
            n == s@.len(),
            n == v@.len(),
            forall|j: int| 0 <= j < i ==> v@[j] == s@[j],
    {
        if v[i] != s.get_char(i) {
            return false;
        }
    }
    proof {
        assert(v@ =~= s@);
    }
    true
}

/// Decides whether a file name (the base name of a directory entry) carries a
/// recognized image extension.
pub fn is_image_file(name: &str) -> (r: bool)
    ensures
        r == is_image_name(name@),
{
    let n = name.unicode_len();
    let mut dot: usize = 0;
    let mut has_dot: bool = false;
    for i in 0..n
        invariant
            n == name@.len(),
            has_dot ==> 0 <= dot < i && last_dot(name@.take(i as int)) == dot,
            !has_dot ==> last_dot(name@.take(i as int)) == -1,
    {
        proof {
            assert(name@.take(i as int + 1).drop_last() =~= name@.take(i as int));
        }
        if name.get_char(i) == '.' {
            dot = i;
            has_dot = true;
        }
    }
    proof {
        assert(name@.take(n as int) =~= name@);
    }
    if !has_dot || dot == 0 {
        return false;
    }
    let mut ext_lower: Vec<char> = Vec::new();
    let mut j: usize = dot + 1;
    while j < n
        invariant
            n == name@.len(),
            0 < dot < n,
            dot + 1 <= j <= n,
            ext_lower@ == lower(name@.subrange(dot as int + 1, j as int)),
        decreases n - j,
    {
        ext_lower.push(ascii_lower(name.get_char(j)));
        j = j + 1;
        proof {
            assert(ext_lower@ =~= lower(name@.subrange(dot as int + 1, j as int)));
        }
    }
    proof {
        assert(extension_of(name@) == Some(name@.subrange(dot as int + 1, n as int)));
    }
    chars_eq_str(&ext_lower, "jpg") || chars_eq_str(&ext_lower, "jpeg") || chars_eq_str(
        &ext_lower,
        "png",
    ) || chars_eq_str(&ext_lower, "gif") || chars_eq_str(&ext_lower, "bmp") || chars_eq_str(
        &ext_lower,
        "webp",
    ) || chars_eq_str(&ext_lower, "tiff")
}

/// A name in which no dot occurs has no extension and is never classified as
/// an image.
pub proof fn lemma_no_dot_never_image(name: Seq<char>)
    requires
        forall|i: int| 0 <= i < name.len() ==> name[i] != '.',
    ensures
        extension_of(name) is None,
        !is_image_name(name),
    decreases name.len(),
{
    if name.len() > 0 {
        assert(forall|i: int| 0 <= i < name.drop_last().len() ==> name.drop_last()[i] != '.');
        lemma_no_dot_never_image(name.drop_last());
    }
}

/// Lower-casing is idempotent.
pub proof fn lemma_lower_idempotent(s: Seq<char>)
    ensures
        lower(lower(s)) == lower(s),
{
    assert forall|i: int| 0 <= i < s.len() implies lower(lower(s))[i] == lower(s)[i] by {
        assert(spec_ascii_lower(spec_ascii_lower(s[i])) == spec_ascii_lower(s[i]));
    }
    assert(lower(lower(s)) =~= lower(s));
}

/// The last dot, when there is one, lies inside the sequence.
pub proof fn lemma_last_dot_in_range(s: Seq<char>)
    ensures
        -1 <= last_dot(s) < s.len(),
    decreases s.len(),
{
    if s.len() > 0 && s[s.len() - 1] != '.' {
        lemma_last_dot_in_range(s.drop_last());
    }
}

proof fn lemma_last_dot_lower(s: Seq<char>)
    ensures
        last_dot(lower(s)) == last_dot(s),
    decreases s.len(),
{
    if s.len() > 0 {
        assert(spec_ascii_lower(s[s.len() - 1]) == '.' <==> s[s.len() - 1] == '.');
        assert(lower(s).drop_last() =~= lower(s.drop_last()));
        lemma_last_dot_lower(s.drop_last());
    }
}

/// Classification is case-insensitive: a name and its lower-cased form are
/// recognized alike.
pub proof fn lemma_image_name_case_insensitive(name: Seq<char>)
    ensures
        is_image_name(lower(name)) == is_image_name(name),
{
    lemma_last_dot_lower(name);
    lemma_last_dot_in_range(name);
    let d = last_dot(name);
    if d > 0 {
        let ext = name.subrange(d + 1, name.len() as int);
        assert(lower(name).subrange(d + 1, name.len() as int) =~= lower(ext));
        lemma_lower_idempotent(ext);
        assert(lower(lower(ext)) == lower(ext));
    }
}

} // verus!
