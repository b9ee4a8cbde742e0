//! Coarse type classification of a file from its name's extension.
//!
//! The extension is read case-insensitively against a fixed table:
//! png, jpg/jpeg, webp, svg, gif; anything else, or no extension at all,
//! is classified as "other".

use vstd::prelude::*;

verus! {

pub const TYPE_PNG: u8 = 0;

pub const TYPE_JPEG: u8 = 1;

pub const TYPE_WEBP: u8 = 2;

pub const TYPE_SVG: u8 = 3;

pub const TYPE_GIF: u8 = 4;

pub const TYPE_OTHER: u8 = 5;

/// `c` is the letter `l` (a lower-case ASCII letter), ignoring case.
pub open spec fn char_is_letter(c: char, l: char) -> bool {
    c == l || c as u32 + 32 == l as u32
}

/// The classification table, applied to an already-extracted extension.
pub open spec fn spec_ext_type(e: Seq<char>) -> u8 {
    if e.len() == 3 && char_is_letter(e[0], 'p') && char_is_letter(e[1], 'n') && char_is_letter(
        e[2],
        'g',
    ) {
        TYPE_PNG
    } else if e.len() == 3 && char_is_letter(e[0], 'j') && char_is_letter(e[1], 'p')
        && char_is_letter(e[2], 'g') {
        TYPE_JPEG
    } else if e.len() == 4 && char_is_letter(e[0], 'j') && char_is_letter(e[1], 'p')
        && char_is_letter(e[2], 'e') && char_is_letter(e[3], 'g') {
        TYPE_JPEG
    } else if e.len() == 4 && char_is_letter(e[0], 'w') && char_is_letter(e[1], 'e')
        && char_is_letter(e[2], 'b') && char_is_letter(e[3], 'p') {
        TYPE_WEBP
    } else if e.len() == 3 && char_is_letter(e[0], 's') && char_is_letter(e[1], 'v')
        && char_is_letter(e[2], 'g') {
        TYPE_SVG
    } else if e.len() == 3 && char_is_letter(e[0], 'g') && char_is_letter(e[1], 'i')
        && char_is_letter(e[2], 'f') {
        TYPE_GIF
    } else {
        TYPE_OTHER
    }
}

/// Index of the last `.` in `s`, or -1 when there is none.
pub open spec fn spec_last_dot(s: Seq<char>) -> int
    decreases s.len(),
{
    if s.len() == 0 {
        -1
    } else if s[s.len() - 1] == '.' {
        s.len() - 1
    } else {
        spec_last_dot(s.drop_last())
    }
}

/// The type code of a file named `name`: the table applied to the part
/// after the last `.`, where such a `.` exists and is not the leading
/// character (a purely leading dot marks a hidden name, not an extension).
pub open spec fn spec_file_type(name: Seq<char>) -> u8 {
    let j = spec_last_dot(name);
    if j >= 1 {
        spec_ext_type(name.subrange(j + 1, name.len() as int))
    } else {
        TYPE_OTHER
    }
}

proof fn lemma_last_dot_bounds(s: Seq<char>)
    ensures
        -1 <= spec_last_dot(s) < s.len(),
        spec_last_dot(s) >= 0 ==> s[spec_last_dot(s)] == '.',
        forall|k: int| spec_last_dot(s) < k < s.len() ==> s[k] != '.',
    decreases s.len(),
{
    if s.len() == 0 {
    } else if s[s.len() - 1] == '.' {
    } else {
        lemma_last_dot_bounds(s.drop_last());
        assert forall|k: int| spec_last_dot(s) < k < s.len() implies s[k] != '.' by {
            if k < s.len() - 1 {
                assert(s.drop_last()[k] == s[k]);
            }
        }
    }
}

/// Case-insensitive test of one character against a lower-case letter.
fn char_matches(c: char, l: char) -> (r: bool)
    ensures
        r == char_is_letter(c, l),
{
    c == l || (c as u32) + 32 == (l as u32)
}

/// Index of the last `.` in `name`, if any.
fn find_last_dot(name: &str) -> (r: Option<usize>)
    ensures
        match r {
            Some(j) => j == spec_last_dot(name@),
            None => spec_last_dot(name@) == -1,
        },
{
    let n = name.unicode_len();
    let mut i = n;
    proof {
        assert(name@.take(n as int) =~= name@);
    }
    while i > 0
        invariant
            i <= n,
            n == name@.len(),
            spec_last_dot(name@) == spec_last_dot(name@.take(i as int)),
        decreases i,
    {
        let c = name.get_char(i - 1);
        if c == '.' {
            assert(name@.take(i as int)[i - 1] == '.');
            return Some(i - 1);
        }
        proof {
            assert(name@.take(i as int).drop_last() =~= name@.take(i - 1 as int));
        }
        i = i - 1;
    }
    assert(name@.take(0) =~= Seq::<char>::empty());
    None
}

/// The coarse type code of a file named `name`, read from its extension.
pub fn recognize_file_type(name: &str) -> (t: u8)
    ensures
        t == spec_file_type(name@),
{
    let n = name.unicode_len();
    let j = match find_last_dot(name) {
        Some(j) => j,
        None => {
            return TYPE_OTHER;
        },
    };
    proof {
        lemma_last_dot_bounds(name@);
    }
    if j < 1 {
        return TYPE_OTHER;
    }
    let ghost ext = name@.subrange(j + 1, name@.len() as int);
    let elen = n - j - 1;
    if elen == 3 {
        let c0 = name.get_char(j + 1);
        let c1 = name.get_char(j + 2);
        let c2 = name.get_char(j + 3);
        assert(c0 == ext[0] && c1 == ext[1] && c2 == ext[2]);
        if char_matches(c0, 'p') && char_matches(c1, 'n') && char_matches(c2, 'g') {
            TYPE_PNG
        } else if char_matches(c0, 'j') && char_matches(c1, 'p') && char_matches(c2, 'g') {
            TYPE_JPEG
        } else if char_matches(c0, 's') && char_matches(c1, 'v') && char_matches(c2, 'g') {
            TYPE_SVG
        } else if char_matches(c0, 'g') && char_matches(c1, 'i') && char_matches(c2, 'f') {
            TYPE_GIF
        } else {
            TYPE_OTHER
        }
    } else if elen == 4 {
        let c0 = name.get_char(j + 1);
        let c1 = name.get_char(j + 2);
        let c2 = name.get_char(j + 3);
        let c3 = name.get_char(j + 4);
        assert(c0 == ext[0] && c1 == ext[1] && c2 == ext[2] && c3 == ext[3]);
        if char_matches(c0, 'j') && char_matches(c1, 'p') && char_matches(c2, 'e') && char_matches(
            c3,
            'g',
        ) {
            TYPE_JPEG
        } else if char_matches(c0, 'w') && char_matches(c1, 'e') && char_matches(c2, 'b')
            && char_matches(c3, 'p') {
            TYPE_WEBP
        } else {
            TYPE_OTHER
        }
    } else {
        TYPE_OTHER
    }
}

} // verus!
