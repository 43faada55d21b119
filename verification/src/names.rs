use vstd::prelude::*;

verus! {

/// Compares two strings character by character.
pub fn same_text(s: &str, t: &str) -> (r: bool)
    ensures
        r == (s@ == t@),
{
    let n = s.unicode_len();
    if n != t.unicode_len() {
        return false;
    }
    let mut i: usize = 0;
    while i < n
        invariant
            n == s@.len(),
            n == t@.len(),
            i <= n,
            forall|j: int| 0 <= j < i ==> s@[j] == t@[j],
        decreases n - i,
    {
        if s.get_char(i) != t.get_char(i) {
            return false;
        }
        i = i + 1;
    }
    assert(s@ =~= t@);
    true
}

/// What `str::to_lowercase` makes of a text (Unicode lower-case mapping).
pub uninterp spec fn lowercase_of(s: Seq<char>) -> Seq<char>;

/// The lower-case form of an ASCII character: `A`–`Z` become `a`–`z`, every other character
/// stays.
pub open spec fn ascii_lower(c: char) -> char {
    if 'A' <= c && c <= 'Z' {
        ((c as int) + 32) as char
    } else {
        c
    }
}

/// Every character is ASCII.
pub open spec fn ascii_text(s: Seq<char>) -> bool {
    forall|i: int| 0 <= i < s.len() ==> s[i] <= '\u{7f}'
}

/// `str::to_lowercase`.
///
/// Trusted: the result depends on the text alone and is named by [`lowercase_of`]; of an ASCII
/// text it is the text with `A`–`Z` turned into `a`–`z` and every other character kept.
/// Nothing more is claimed of the Unicode case mapping.
#[verifier::external_body]
pub(crate) fn to_lowercase(s: &str) -> (r: String)
    ensures
        r@ == lowercase_of(s@),
        ascii_text(s@) ==> r@.len() == s@.len() && forall|i: int|
            0 <= i < s@.len() ==> #[trigger] r@[i] == ascii_lower(s@[i]),
{
    s.to_lowercase()
}

/// The extensions that the stripper treats as text.
pub open spec fn strippable_text_ext(e: Seq<char>) -> bool {
    e == ".txt"@ || e == ".md"@ || e == ".csv"@ || e == ".xml"@ || e == ".html"@ || e == ".htm"@
        || e == ".json"@ || e == ".yaml"@ || e == ".yml"@ || e == ".toml"@ || e == ".ini"@ || e
        == ".cfg"@ || e == ".conf"@ || e == ".sh"@ || e == ".py"@ || e == ".js"@ || e == ".css"@
        || e == ".cpp"@ || e == ".c"@ || e == ".hpp"@ || e == ".h"@ || e == ".rs"@ || e == ".go"@
        || e == ".java"@
}

/// Whether the stripper treats files with this extension as text.
pub fn is_strippable_text_ext(e: &str) -> (r: bool)
    ensures
        r == strippable_text_ext(e@),
{
    same_text(e, ".txt") || same_text(e, ".md") || same_text(e, ".csv") || same_text(e, ".xml")
        || same_text(e, ".html") || same_text(e, ".htm") || same_text(e, ".json") || same_text(
        e,
        ".yaml",
    ) || same_text(e, ".yml") || same_text(e, ".toml") || same_text(e, ".ini") || same_text(
        e,
        ".cfg",
    ) || same_text(e, ".conf") || same_text(e, ".sh") || same_text(e, ".py") || same_text(e, ".js")
        || same_text(e, ".css") || same_text(e, ".cpp") || same_text(e, ".c") || same_text(e, ".hpp")
        || same_text(e, ".h") || same_text(e, ".rs") || same_text(e, ".go") || same_text(e, ".java")
}

/// The extensions whose files the scanner analyses as text (compared as written).
pub open spec fn text_ext(e: Seq<char>) -> bool {
    strippable_text_ext(e) || e == ".ts"@ || e == ".tsx"@ || e == ".s"@ || e == ".asm"@ || e
        == ".zig"@ || e == ".tex"@ || e == ".bib"@ || e == ".log"@ || e == ".env"@ || e
        == ".gitignore"@ || e == ".dockerignore"@
}

/// Whether files with this extension are analysed as text.
pub fn is_text_ext(ext: &str) -> (r: bool)
    ensures
        r == text_ext(ext@),
{
    is_strippable_text_ext(ext) || same_text(ext, ".ts") || same_text(ext, ".tsx") || same_text(
        ext,
        ".s",
    ) || same_text(ext, ".asm") || same_text(ext, ".zig") || same_text(ext, ".tex") || same_text(
        ext,
        ".bib",
    ) || same_text(ext, ".log") || same_text(ext, ".env") || same_text(ext, ".gitignore")
        || same_text(ext, ".dockerignore")
}

/// The (lower-case) extensions whose files the scanner reads as images.
pub open spec fn image_ext(e: Seq<char>) -> bool {
    e == ".jpg"@ || e == ".jpeg"@ || e == ".png"@ || e == ".gif"@ || e == ".bmp"@ || e == ".webp"@
}

/// Whether a lower-case extension names an image format.
pub fn is_image_ext(lower: &str) -> (r: bool)
    ensures
        r == image_ext(lower@),
{
    same_text(lower, ".jpg") || same_text(lower, ".jpeg") || same_text(lower, ".png") || same_text(
        lower,
        ".gif",
    ) || same_text(lower, ".bmp") || same_text(lower, ".webp")
}

/// Whether a file with this extension is read as an image: its extension, in lower case, names
/// an image format.
pub fn has_image_ext(extension: &str) -> (r: bool)
    ensures
        r == image_ext(lowercase_of(extension@)),
        text_ext(extension@) ==> !r,
{
    let lower = to_lowercase(extension);
    proof {
        if text_ext(extension@) {
            lemma_text_ext_is_not_image_ext(extension@, lower@);
        }
    }
    is_image_ext(lower.as_str())
}

/// The formats that the stripper handles.
#[derive(Clone, Copy, Debug, PartialEq, Eq)]
pub enum StripFormat {
    Jpeg,
    Png,
    Gif,
    Text,
}

/// The stripper's format for an extension, as the extension is written.
pub open spec fn strip_format_spec(e: Seq<char>) -> Option<StripFormat> {
    if e == ".jpg"@ || e == ".jpeg"@ {
        Some(StripFormat::Jpeg)
    } else if e == ".png"@ {
        Some(StripFormat::Png)
    } else if e == ".gif"@ {
        Some(StripFormat::Gif)
    } else if strippable_text_ext(e) {
        Some(StripFormat::Text)
    } else {
        None
    }
}

/// The stripper's format for an extension, as written.
pub fn strip_format(ext: &str) -> (r: Option<StripFormat>)
    ensures
        r == strip_format_spec(ext@),
{
    if same_text(ext, ".jpg") || same_text(ext, ".jpeg") {
        Some(StripFormat::Jpeg)
    } else if same_text(ext, ".png") {
        Some(StripFormat::Png)
    } else if same_text(ext, ".gif") {
        Some(StripFormat::Gif)
    } else if is_strippable_text_ext(ext) {
        Some(StripFormat::Text)
    } else {
        None
    }
}

/// The stripper's format for a file's extension, which is first put in lower case.
pub fn strip_format_for(extension: &str) -> (r: Option<StripFormat>)
    ensures
        r == strip_format_spec(lowercase_of(extension@)),
{
    let lower = to_lowercase(extension);
    strip_format(lower.as_str())
}


/// A text extension, put in lower case, names no image format: the text extensions are ASCII
/// and already in lower case.
proof fn lemma_text_ext_is_not_image_ext(e: Seq<char>, lower: Seq<char>)
    requires
        text_ext(e),
        ascii_text(e) ==> lower.len() == e.len() && forall|i: int|
            0 <= i < e.len() ==> #[trigger] lower[i] == ascii_lower(e[i]),
    ensures
        !image_ext(lower),
{
        reveal_strlit(".txt");
        reveal_strlit(".md");
        reveal_strlit(".csv");
        reveal_strlit(".xml");
        reveal_strlit(".html");
        reveal_strlit(".htm");
        reveal_strlit(".json");
        reveal_strlit(".yaml");
        reveal_strlit(".yml");
        reveal_strlit(".toml");
        reveal_strlit(".ini");
        reveal_strlit(".cfg");
        reveal_strlit(".conf");
        reveal_strlit(".sh");
        reveal_strlit(".py");
        reveal_strlit(".js");
        reveal_strlit(".css");
        reveal_strlit(".cpp");
        reveal_strlit(".c");
        reveal_strlit(".hpp");
        reveal_strlit(".h");
        reveal_strlit(".rs");
        reveal_strlit(".go");
        reveal_strlit(".java");
        reveal_strlit(".ts");
        reveal_strlit(".tsx");
        reveal_strlit(".s");
        reveal_strlit(".asm");
        reveal_strlit(".zig");
        reveal_strlit(".tex");
        reveal_strlit(".bib");
        reveal_strlit(".log");
        reveal_strlit(".env");
        reveal_strlit(".gitignore");
        reveal_strlit(".dockerignore");
        reveal_strlit(".jpg");
        reveal_strlit(".jpeg");
        reveal_strlit(".png");
        reveal_strlit(".gif");
        reveal_strlit(".bmp");
        reveal_strlit(".webp");
    assert(ascii_text(e));
    assert(lower =~= e);
    if image_ext(e) {
        assert(e.len() >= 4);
        let (c1, c2, c3) = (e[1], e[2], e[3]);
        assert(c1 == 'j' || c1 == 'p' || c1 == 'g' || c1 == 'b' || c1 == 'w');
        assert(false);
    }
}


/// Whether `s` ends with `t`.
pub open spec fn ends_with(s: Seq<char>, t: Seq<char>) -> bool {
    t.len() <= s.len() && s.subrange(s.len() - t.len(), s.len() as int) == t
}

/// The shell start-up file to which the installer adds its directory: `.zshrc` for a shell
/// whose path ends in `zsh`, else `.bashrc`.
pub fn shell_rc_name(shell: &str) -> (r: &'static str)
    ensures
        r@ == (if ends_with(shell@, "zsh"@) {
            ".zshrc"@
        } else {
            ".bashrc"@
        }),
{
    let n = shell.unicode_len();
    let suffix = "zsh";
    proof {
        reveal_strlit("zsh");
    }
    let m = suffix.unicode_len();
    if m > n {
        return ".bashrc";
    }
    let mut i: usize = 0;
    while i < m
        invariant
            n == shell@.len(),
            m == suffix@.len(),
            suffix@ == "zsh"@,
            m <= n,
            i <= m,
            forall|j: int| 0 <= j < i ==> shell@[n - m + j] == suffix@[j],
        decreases m - i,
    {
        if shell.get_char(n - m + i) != suffix.get_char(i) {
            assert(shell@.subrange(n - m, n as int)[i as int] != suffix@[i as int]);
            return ".bashrc";
        }
        i = i + 1;
    }
    assert(shell@.subrange(n - m, n as int) =~= suffix@);
    ".zshrc"
}

}
