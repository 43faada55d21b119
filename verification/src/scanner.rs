use vstd::prelude::*;
use crate::image::ImageMeta;
use crate::names::{has_image_ext, image_ext, is_text_ext, lowercase_of, text_ext};
use crate::text::TextMeta;
use crate::unicode::string_from_chars;

verus! {

/// `std::path::PathBuf`, carried through the library as an opaque value: nothing is claimed of
/// what it holds.
#[verifier::external_type_specification]
#[verifier::external_body]
pub struct ExPathBuf(std::path::PathBuf);

/// A file or directory found by the scan.
pub struct ScannedFile {
    pub path: std::path::PathBuf,
    pub name: String,
    pub extension: String,
    pub is_dir: bool,
}

/// Everything the scanner reports about one file.
#[derive(Debug, Clone)]
pub struct FileMetadata {
    pub path: String,
    pub name: String,
    pub extension: String,
    pub size: u64,
    pub permissions: String,
    pub permissions_octal: u32,
    pub owner: String,
    pub group: String,
    pub created: u64,
    pub modified: u64,
    pub accessed: u64,
    pub is_directory: bool,
    pub is_symlink: bool,
    pub is_hidden: bool,
    pub is_system: bool,
    pub is_readonly: bool,
    pub image: Option<ImageMeta>,
    pub text: Option<TextMeta>,
}

/// Whether the scanner reads a file as an image: it is no directory and its extension, in
/// lower case, names an image format.
pub fn wants_image_meta(file: &ScannedFile, is_dir: bool) -> (r: bool)
    ensures
        r == (!is_dir && image_ext(lowercase_of(file.extension@))),
        r ==> !text_ext(file.extension@),
{
    !is_dir && has_image_ext(file.extension.as_str())
}

/// Whether the scanner reads a file as text: it is no directory and its extension, as
/// written, is a text extension.
pub fn wants_text_meta(file: &ScannedFile, is_dir: bool) -> (r: bool)
    ensures
        r == (!is_dir && text_ext(file.extension@)),
{
    !is_dir && is_text_ext(file.extension.as_str())
}

/// The hidden, system and read-only flags of a Windows attribute word (`0x2`, `0x4`, `0x1`);
/// all unset where there is no attribute word.
pub fn get_windows_attrs(attrs: Option<u32>) -> (r: (bool, bool, bool))
    ensures
        r == (match attrs {
            Some(a) => (a & 0x2 != 0, a & 0x4 != 0, a & 0x1 != 0),
            None => (false, false, false),
        }),
{
    match attrs {
        Some(a) => (a & 0x2 != 0, a & 0x4 != 0, a & 0x1 != 0),
        None => (false, false, false),
    }
}

/// The decimal digit for `d`.
pub open spec fn digit_char(d: nat) -> char {
    ((48 + d) as u8) as char
}

/// The decimal representation of `n`, without leading zeros.
pub open spec fn decimal(n: nat) -> Seq<char>
    decreases n,
{
    if n < 10 {
        seq![digit_char(n)]
    } else {
        decimal(n / 10) + seq![digit_char(n % 10)]
    }
}

fn push_decimal(n: u32, out: &mut Vec<char>)
    ensures
        final(out)@ == old(out)@ + decimal(n as nat),
    decreases n,
{
    if n >= 10 {
        push_decimal(n / 10, out);
    }
    let d = (n % 10) as u8;
    out.push((48 + d) as char);
    assert(final(out)@ =~= old(out)@ + decimal(n as nat));
}

/// `n` written in decimal.
pub fn decimal_string(n: u32) -> (s: String)
    ensures
        s@ == decimal(n as nat),
{
    let mut v: Vec<char> = Vec::new();
    push_decimal(n, &mut v);
    assert(v@ =~= decimal(n as nat));
    string_from_chars(v.as_slice())
}

/// Owner and group as the scanner writes them: the user and group ids in decimal, `"0"` for
/// both where they could not be read.
pub fn get_unix_owner(ids: Option<(u32, u32)>) -> (r: (String, String))
    ensures
        r.0@ == (match ids {
            Some((u, _)) => decimal(u as nat),
            None => seq!['0'],
        }),
        r.1@ == (match ids {
            Some((_, g)) => decimal(g as nat),
            None => seq!['0'],
        }),
{
    match ids {
        Some((u, g)) => (decimal_string(u), decimal_string(g)),
        None => {
            let z1 = decimal_string(0);
            let z2 = decimal_string(0);
            (z1, z2)
        },
    }
}

/// The letter for one permission bit, or `'-'`.
pub open spec fn perm_char(bits: u32, mask: u32, c: char) -> char {
    if bits & mask != 0 {
        c
    } else {
        '-'
    }
}

/// The `ls`-style permission string of a mode: the type (`d` or `-`) and the `rwx` triples of
/// owner, group and others.
pub open spec fn permission_chars(is_dir: bool, bits: u32) -> Seq<char> {
    seq![
        if is_dir { 'd' } else { '-' },
        perm_char(bits, 0o400, 'r'),
        perm_char(bits, 0o200, 'w'),
        perm_char(bits, 0o100, 'x'),
        perm_char(bits, 0o040, 'r'),
        perm_char(bits, 0o020, 'w'),
        perm_char(bits, 0o010, 'x'),
        perm_char(bits, 0o004, 'r'),
        perm_char(bits, 0o002, 'w'),
        perm_char(bits, 0o001, 'x'),
    ]
}

fn perm_letter(bits: u32, mask: u32, c: char) -> (r: char)
    ensures
        r == perm_char(bits, mask, c),
{
    if bits & mask != 0 {
        c
    } else {
        '-'
    }
}

/// The permission string and the permission bits (`mode & 0o777`) of a file; an empty string
/// and 0 where there is no mode.
pub fn format_permissions(mode: Option<u32>, is_dir: bool) -> (r: (String, u32))
    ensures
        r.0@ == (match mode {
            Some(m) => permission_chars(is_dir, m & 0o777),
            None => Seq::<char>::empty(),
        }),
        r.1 == (match mode {
            Some(m) => m & 0o777,
            None => 0,
        }),
{
    match mode {
        Some(m) => {
            let bits = m & 0o777;
            let mut v: Vec<char> = Vec::new();
            v.push(if is_dir { 'd' } else { '-' });
            v.push(perm_letter(bits, 0o400, 'r'));
            v.push(perm_letter(bits, 0o200, 'w'));
            v.push(perm_letter(bits, 0o100, 'x'));
            v.push(perm_letter(bits, 0o040, 'r'));
            v.push(perm_letter(bits, 0o020, 'w'));
            v.push(perm_letter(bits, 0o010, 'x'));
            v.push(perm_letter(bits, 0o004, 'r'));
            v.push(perm_letter(bits, 0o002, 'w'));
            v.push(perm_letter(bits, 0o001, 'x'));
            assert(v@ =~= permission_chars(is_dir, bits));
            (string_from_chars(v.as_slice()), bits)
        },
        None => {
            let v: Vec<char> = Vec::new();
            assert(v@ =~= Seq::<char>::empty());
            (string_from_chars(v.as_slice()), 0)
        },
    }
}

/// 100-nanosecond intervals between 1601-01-01 (the Windows epoch) and 1970-01-01.
pub const WINDOWS_EPOCH_OFFSET: u64 = 116_444_736_000_000_000;

/// Nanoseconds since the Unix epoch of a Windows file time, with the subtraction and the
/// scaling both saturating.
pub open spec fn filetime_nanos(filetime: u64) -> u64 {
    let since = if filetime > WINDOWS_EPOCH_OFFSET {
        filetime - WINDOWS_EPOCH_OFFSET
    } else {
        0
    };
    if since * 100 > u64::MAX {
        u64::MAX
    } else {
        (since * 100) as u64
    }
}

pub fn filetime_to_unix_nanos(filetime: u64) -> (r: u64)
    ensures
        r == filetime_nanos(filetime),
{
    let since = if filetime > WINDOWS_EPOCH_OFFSET {
        filetime - WINDOWS_EPOCH_OFFSET
    } else {
        0
    };
    if since > u64::MAX / 100 {
        u64::MAX
    } else {
        since * 100
    }
}

/// A duration in nanoseconds, cut to 64 bits as `as u64` does.
pub fn nanos_u64(nanos: u128) -> (r: u64)
    ensures
        r == nanos % 0x1_0000_0000_0000_0000,
{
    let r = #[verifier::truncate] (nanos as u64);
    assert(r == nanos % 0x1_0000_0000_0000_0000) by (bit_vector)
        requires
            r == nanos as u64,
    ;
    r
}

/// How many workers scan `n` files: the requested number, at most `n` and at least one.
pub fn worker_count(threads: usize, n: usize) -> (r: usize)
    ensures
        r == (if (if threads < n { threads } else { n }) > 1 {
            if threads < n { threads } else { n }
        } else {
            1
        }),
{
    let m = if threads < n {
        threads
    } else {
        n
    };
    if m > 1 {
        m
    } else {
        1
    }
}

/// The reports in order, leaving out the missing ones.
pub open spec fn present_reports(rs: Seq<Option<FileMetadata>>) -> Seq<FileMetadata>
    decreases rs.len(),
{
    if rs.len() == 0 {
        seq![]
    } else {
        present_reports(rs.drop_last()) + match rs.last() {
            Some(m) => seq![m],
            None => seq![],
        }
    }
}

/// Collects the reports that the workers filled in, in the order of the files.
pub fn gather_results(results: Vec<Option<FileMetadata>>) -> (out: Vec<FileMetadata>)
    ensures
        out@ == present_reports(results@),
{
    let ghost rs = results@;
    assert(rs.len() == results.len());
    let mut results = results;
    let mut rev: Vec<Option<FileMetadata>> = Vec::new();
    while results.len() > 0
        invariant
            results@.len() + rev@.len() == rs.len(),
            results@ == rs.take(results@.len() as int),
            forall|j: int| 0 <= j < rev@.len() ==> rev@[j] == rs[rs.len() - 1 - j],
        decreases results.len(),
    {
        let ghost before = results@;
        let r = results.pop().unwrap();
        assert(results@ =~= rs.take(results@.len() as int));
        rev.push(r);
    }
    let mut out: Vec<FileMetadata> = Vec::new();
    let mut done: usize = 0;
    assert(out@ =~= present_reports(rs.take(0)));
    while rev.len() > 0
        invariant
            rs.len() <= usize::MAX,
            done + rev@.len() == rs.len(),
            forall|j: int| 0 <= j < rev@.len() ==> rev@[j] == rs[rs.len() - 1 - j],
            out@ == present_reports(rs.take(done as int)),
        decreases rev.len(),
    {
        let r = rev.pop().unwrap();
        let ghost t = rs.take(done + 1);
        assert(t.drop_last() =~= rs.take(done as int));
        match r {
            Some(m) => out.push(m),
            None => {},
        }
        done = done + 1;
        assert(out@ =~= present_reports(t));
    }
    assert(rs.take(rs.len() as int) =~= rs);
    out
}


/// A file's size and whether it is a directory: from its metadata where that could be read,
/// else size 0 and what the scan found.
pub fn size_and_kind(meta: Option<(u64, bool)>, scanned_is_dir: bool) -> (r: (u64, bool))
    ensures
        r == (match meta {
            Some(m) => m,
            None => (0u64, scanned_is_dir),
        }),
{
    match meta {
        Some(m) => m,
        None => (0, scanned_is_dir),
    }
}

}
