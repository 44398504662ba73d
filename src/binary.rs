//! Deciding whether a file is binary, from its name and the first bytes of its content.
use vstd::prelude::*;
use crate::text::chars_of;

verus! {

/// Only this many leading bytes are searched for a zero byte.
pub const MAX_SCAN_SIZE: usize = 1024;

/// The ASCII lower-case form of a character; other characters are unchanged.
pub open spec fn lower_char(c: char) -> char {
    if 'A' <= c && c <= 'Z' {
        ((c as u32) + 32) as char
    } else {
        c
    }
}

pub open spec fn lower_chars(s: Seq<char>) -> Seq<char> {
    s.map_values(|c: char| lower_char(c))
}

/// The extensions of image and executable formats, in lower case.
pub open spec fn denied_extensions() -> Seq<Seq<char>> {
    seq![
        seq!['j', 'p', 'g'],
        seq!['j', 'p', 'e', 'g'],
        seq!['p', 'n', 'g'],
        seq!['g', 'i', 'f'],
        seq!['b', 'm', 'p'],
        seq!['e', 'x', 'e'],
        seq!['d', 'l', 'l'],
    ]
}

/// Index of the last `.` of a path, if it has one.
pub open spec fn last_dot(p: Seq<char>) -> Option<int>
    decreases p.len(),
{
    if p.len() == 0 {
        None
    } else if p.last() == '.' {
        Some(p.len() - 1)
    } else {
        last_dot(p.drop_last())
    }
}

/// The text after the last `.` of a path; a path without `.` has no extension.
pub open spec fn extension(p: Seq<char>) -> Option<Seq<char>> {
    match last_dot(p) {
        Some(i) => Some(p.subrange(i + 1, p.len() as int)),
        None => None,
    }
}

/// The extension signal: the extension, compared without regard to ASCII case,
/// is one of the denied ones.
pub open spec fn denied_by_extension(p: Seq<char>) -> bool {
    match extension(p) {
        Some(e) => denied_extensions().contains(lower_chars(e)),
        None => false,
    }
}

/// The leading bytes of JPEG, PNG, GIF87a and GIF89a files.
pub open spec fn magic_numbers() -> Seq<Seq<u8>> {
    seq![
        seq![0xFFu8, 0xD8, 0xFF],
        seq![0x89u8, 0x50, 0x4E, 0x47, 0x0D, 0x0A, 0x1A, 0x0A],
        seq![0x47u8, 0x49, 0x46, 0x38, 0x37, 0x61],
        seq![0x47u8, 0x49, 0x46, 0x38, 0x39, 0x61],
    ]
}

pub open spec fn starts_with(b: Seq<u8>, m: Seq<u8>) -> bool {
    m.len() <= b.len() && b.subrange(0, m.len() as int) == m
}

/// A zero byte among the first `MAX_SCAN_SIZE` bytes.
pub open spec fn has_zero_in_prefix(b: Seq<u8>) -> bool {
    exists|i: int| 0 <= i < b.len() && i < MAX_SCAN_SIZE && b[i] == 0
}

/// The content signal: a zero byte near the start, or a known magic number at the start.
pub open spec fn denied_by_content(b: Seq<u8>) -> bool {
    has_zero_in_prefix(b) || exists|k: int| 0 <= k < magic_numbers().len() && starts_with(b, #[trigger] magic_numbers()[k])
}

/// Both signals: the content signal counts only when the content could be read.
pub open spec fn is_binary(p: Seq<char>, probe: Option<Seq<u8>>) -> bool {
    denied_by_extension(p) || match probe {
        Some(b) => denied_by_content(b),
        None => false,
    }
}

/// A file that starts with one of the magic numbers is binary, whatever its name.
pub proof fn lemma_magic_number_is_binary(p: Seq<char>, b: Seq<u8>, k: int)
    requires
        0 <= k < magic_numbers().len(),
        starts_with(b, magic_numbers()[k]),
    ensures
        is_binary(p, Some(b)),
{
}

/// A file named `x.png` is binary whatever its content, and also where its
/// content cannot be read.
pub proof fn lemma_png_name_is_binary(probe: Option<Seq<u8>>)
    ensures
        is_binary(seq!['x', '.', 'p', 'n', 'g'], probe),
{
    let p = seq!['x', '.', 'p', 'n', 'g'];
    let without_g = seq!['x', '.', 'p', 'n'];
    let without_ng = seq!['x', '.', 'p'];
    let stem = seq!['x', '.'];
    assert(p.drop_last() =~= without_g);
    assert(without_g.drop_last() =~= without_ng);
    assert(without_ng.drop_last() =~= stem);
    assert(last_dot(stem) == Some(1int));
    assert(last_dot(without_ng) == last_dot(stem));
    assert(last_dot(without_g) == last_dot(without_ng));
    assert(last_dot(p) == last_dot(without_g));
    assert(p.subrange(2, 5) =~= seq!['p', 'n', 'g']);
    assert(lower_chars(seq!['p', 'n', 'g']) =~= seq!['p', 'n', 'g']);
    assert(denied_extensions()[2] == seq!['p', 'n', 'g']);
}

/// Relies on `memchr::memchr`: the index of the first occurrence of `needle`, if any.
#[verifier::external_body]
fn find_byte(needle: u8, haystack: &[u8]) -> (r: Option<usize>)
    ensures
        match r {
            Some(i) => i < haystack@.len() && haystack@[i as int] == needle && forall|j: int|
                0 <= j < i ==> haystack@[j] != needle,
            None => forall|j: int| 0 <= j < haystack@.len() ==> haystack@[j] != needle,
        },
{
    memchr::memchr(needle, haystack)
}

fn has_prefix(b: &[u8], m: &[u8]) -> (r: bool)
    ensures
        r == starts_with(b@, m@),
{
    if m.len() > b.len() {
        return false;
    }
    let mut i: usize = 0;
    while i < m.len()
        invariant
            m@.len() <= b@.len(),
            i <= m@.len(),
            forall|j: int| 0 <= j < i ==> b@[j] == m@[j],
        decreases m@.len() - i,
    {
        if b[i] != m[i] {
            assert(b@.subrange(0, m@.len() as int)[i as int] != m@[i as int]);
            return false;
        }
        i = i + 1;
    }
    assert(b@.subrange(0, m@.len() as int) =~= m@);
    true
}

/// The content signal alone, on the first bytes of a file.
pub fn is_binary_content(data: &[u8]) -> (r: bool)
    ensures
        r == denied_by_content(data@),
{
    let zero = match find_byte(0, data) {
        Some(i) => i < MAX_SCAN_SIZE,
        None => false,
    };
    let jpeg: [u8; 3] = [0xFF, 0xD8, 0xFF];
    let png: [u8; 8] = [0x89, 0x50, 0x4E, 0x47, 0x0D, 0x0A, 0x1A, 0x0A];
    let gif87: [u8; 6] = [0x47, 0x49, 0x46, 0x38, 0x37, 0x61];
    let gif89: [u8; 6] = [0x47, 0x49, 0x46, 0x38, 0x39, 0x61];
    let m0 = has_prefix(data, jpeg.as_slice());
    let m1 = has_prefix(data, png.as_slice());
    let m2 = has_prefix(data, gif87.as_slice());
    let m3 = has_prefix(data, gif89.as_slice());
    proof {
        let mn = magic_numbers();
        assert(jpeg@ =~= mn[0]);
        assert(png@ =~= mn[1]);
        assert(gif87@ =~= mn[2]);
        assert(gif89@ =~= mn[3]);
        if !(m0 || m1 || m2 || m3) {
            assert forall|k: int| 0 <= k < mn.len() implies !starts_with(data@, #[trigger] mn[k]) by {
                if k == 0 {} else if k == 1 {} else if k == 2 {} else {}
            }
        }
    }
    zero || m0 || m1 || m2 || m3
}

/// Whether a file is left out of ingestion as binary. `probe` holds the
/// first bytes of the file, or nothing where it could not be read.
pub fn is_binary_file(file: &str, probe: Option<&[u8]>) -> (r: bool)
    ensures
        r == is_binary(file@, match probe { Some(b) => Some(b@), None => None }),
{
    if is_binary_file_by_extension(file) {
        return true;
    }
    match probe {
        Some(b) => is_binary_content(b),
        None => false,
    }
}

/// True exactly when `w` is one of the denied extensions.
fn is_denied_word(w: &Vec<char>) -> (r: bool)
    ensures
        r == denied_extensions().contains(w@),
{
    let n = w.len();
    let r = if n == 3 {
        (w[0] == 'j' && w[1] == 'p' && w[2] == 'g')
            || (w[0] == 'p' && w[1] == 'n' && w[2] == 'g')
            || (w[0] == 'g' && w[1] == 'i' && w[2] == 'f')
            || (w[0] == 'b' && w[1] == 'm' && w[2] == 'p')
            || (w[0] == 'e' && w[1] == 'x' && w[2] == 'e')
            || (w[0] == 'd' && w[1] == 'l' && w[2] == 'l')
    } else if n == 4 {
        w[0] == 'j' && w[1] == 'p' && w[2] == 'e' && w[3] == 'g'
    } else {
        false
    };
    proof {
        let d = denied_extensions();
        if r {
            if n == 3 {
                if w[0] == 'j' { assert(w@ =~= d[0]); }
                else if w[0] == 'p' { assert(w@ =~= d[2]); }
                else if w[0] == 'g' { assert(w@ =~= d[3]); }
                else if w[0] == 'b' { assert(w@ =~= d[4]); }
                else if w[0] == 'e' { assert(w@ =~= d[5]); }
                else { assert(w@ =~= d[6]); }
            } else {
                assert(w@ =~= d[1]);
            }
        } else {
            assert forall|k: int| 0 <= k < d.len() implies d[k] != w@ by {
                if d[k] == w@ {
                    assert(d[k][0] == w@[0]);
                    assert(d[k][1] == w@[1]);
                    assert(d[k][2] == w@[2]);
                }
            }
        }
    }
    r
}

/// The extension signal alone.
pub fn is_binary_file_by_extension(file: &str) -> (r: bool)
    ensures
        r == denied_by_extension(file@),
{
    let p = chars_of(file);
    let mut i: usize = p.len();
    assert(p@.subrange(0, p@.len() as int) =~= p@);
    while i > 0 && p[i - 1] != '.'
        invariant
            i <= p@.len(),
            last_dot(p@) == last_dot(p@.subrange(0, i as int)),
        decreases i,
    {
        assert(p@.subrange(0, i as int - 1) =~= p@.subrange(0, i as int).drop_last());
        i = i - 1;
    }
    if i == 0 {
        assert(p@.subrange(0, 0) =~= Seq::<char>::empty());
        return false;
    }
    let mut lowered: Vec<char> = Vec::new();
    let mut k: usize = i;
    while k < p.len()
        invariant
            i <= k <= p@.len(),
            lowered@ =~= lower_chars(p@.subrange(i as int, k as int)),
        decreases p@.len() - k,
    {
        let c = p[k];
        let l = if 'A' <= c && c <= 'Z' { ((c as u8) + 32) as char } else { c };
        lowered.push(l);
        k = k + 1;
    }
    is_denied_word(&lowered)
}

} // verus!
