//! The fixed-capacity string that file paths are built in.
use vstd::prelude::*;

use arrayvec::ArrayString;

verus! {

/// Longest path, in bytes, that Linux accepts.
pub const LINUX_PATH_MAX_LENGTH: usize = 4096;

/// A file path of at most `LINUX_PATH_MAX_LENGTH` bytes.
pub type PathBuffer = ArrayString<LINUX_PATH_MAX_LENGTH>;

#[verifier::external_type_specification]
#[verifier::external_body]
pub struct ExArrayString<const CAP: usize>(ArrayString<CAP>);

/// The number of bytes that UTF-8 uses for `c`.
pub open spec fn char_utf8_len(c: char) -> nat {
    let u = c as u32;
    if u < 0x80 {
        1
    } else if u < 0x800 {
        2
    } else if u < 0x10000 {
        3
    } else {
        4
    }
}

/// The number of bytes that UTF-8 uses for `s`.
pub open spec fn utf8_len(s: Seq<char>) -> nat
    decreases s.len(),
{
    if s.len() == 0 {
        0
    } else {
        utf8_len(s.drop_last()) + char_utf8_len(s.last())
    }
}

pub proof fn lemma_utf8_len_push(s: Seq<char>, c: char)
    ensures
        utf8_len(s.push(c)) == utf8_len(s) + char_utf8_len(c),
{
    assert(s.push(c).drop_last() =~= s);
}

/// The text a path buffer holds.
pub uninterp spec fn path_text(p: PathBuffer) -> Seq<char>;

/// `ArrayString::from`: a buffer holding `s`, when `s` fits.
#[verifier::external_body]
pub(crate) fn path_buffer_from(s: &str) -> (r: Option<PathBuffer>)
    ensures
        r is Some <==> utf8_len(s@) <= LINUX_PATH_MAX_LENGTH,
        r matches Some(p) ==> path_text(p) == s@,
{
    ArrayString::from(s).ok()
}

/// `ArrayString::try_push`: appends `c` when its encoding fits in the
/// remaining capacity, and otherwise fails and leaves the buffer as it was.
#[verifier::external_body]
pub(crate) fn path_buffer_push(p: &mut PathBuffer, c: char) -> (r: bool)
    ensures
        r == (utf8_len(path_text(*old(p))) + char_utf8_len(c) <= LINUX_PATH_MAX_LENGTH),
        r ==> path_text(*final(p)) == path_text(*old(p)).push(c),
        !r ==> path_text(*final(p)) == path_text(*old(p)),
{
    p.try_push(c).is_ok()
}

} // verus!
