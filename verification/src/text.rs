use vstd::prelude::*;
use vstd::utf8::{decode_utf8, encode_utf8, valid_utf8};
use crate::image::opt_bytes_view;
use crate::unicode::{all_ascii, decode_utf8_chars, latin_chars, lemma_ascii_is_utf8};

verus! {

/// What the scanner reports about a text file.
#[derive(Debug, Clone)]
pub struct TextMeta {
    pub lines: usize,
    pub words: usize,
    pub characters: usize,
    pub bytes: usize,
    pub is_ascii: bool,
    pub is_utf8: bool,
}

/// The characters with the Unicode `White_Space` property (those that `char::is_whitespace`
/// accepts and `str::split_whitespace` splits at).
pub open spec fn is_white_space(c: char) -> bool {
    ('\u{9}' <= c && c <= '\u{d}') || c == ' ' || c == '\u{85}' || c == '\u{a0}' || c == '\u{1680}'
        || ('\u{2000}' <= c && c <= '\u{200a}') || c == '\u{2028}' || c == '\u{2029}' || c
        == '\u{202f}' || c == '\u{205f}' || c == '\u{3000}'
}

/// Whether a character is white space.
pub fn white_space(c: char) -> (r: bool)
    ensures
        r == is_white_space(c),
{
    ('\u{9}' <= c && c <= '\u{d}') || c == ' ' || c == '\u{85}' || c == '\u{a0}' || c == '\u{1680}'
        || ('\u{2000}' <= c && c <= '\u{200a}') || c == '\u{2028}' || c == '\u{2029}' || c
        == '\u{202f}' || c == '\u{205f}' || c == '\u{3000}'
}

/// Whether a word starts at `i`: a character that is not white space, first or after white space.
pub open spec fn starts_word(s: Seq<char>, i: int) -> bool {
    !is_white_space(s[i]) && (i == 0 || is_white_space(s[i - 1]))
}

/// The number of words: maximal runs of characters that are not white space.
pub open spec fn word_count(s: Seq<char>) -> nat
    decreases s.len(),
{
    if s.len() == 0 {
        0
    } else {
        word_count(s.drop_last()) + if starts_word(s, s.len() - 1) {
            1nat
        } else {
            0nat
        }
    }
}

/// The number of `'\n'` characters.
pub open spec fn newline_count(s: Seq<char>) -> nat
    decreases s.len(),
{
    if s.len() == 0 {
        0
    } else {
        newline_count(s.drop_last()) + if s.last() == '\n' {
            1nat
        } else {
            0nat
        }
    }
}

/// The number of lines, as `str::lines` yields them: one per `'\n'`, and one more for a last
/// line without it.
pub open spec fn line_count(s: Seq<char>) -> nat {
    if s.len() == 0 {
        0
    } else {
        newline_count(s) + if s.last() != '\n' {
            1nat
        } else {
            0nat
        }
    }
}

/// The report on a file's bytes: none for no or empty data; for bytes that are not UTF-8 only
/// the byte count; otherwise the lines (at least one), words and characters of the decoded text,
/// the byte count and whether every byte is ASCII.
pub open spec fn text_spec(data: Option<Seq<u8>>) -> Option<TextMeta> {
    match data {
        None => None,
        Some(d) => if d.len() == 0 {
            None
        } else if !valid_utf8(d) {
            Some(
                TextMeta {
                    lines: 0,
                    words: 0,
                    characters: 0,
                    bytes: d.len() as usize,
                    is_ascii: false,
                    is_utf8: false,
                },
            )
        } else {
            let cs = decode_utf8(d);
            Some(
                TextMeta {
                    lines: if line_count(cs) == 0 {
                        1
                    } else {
                        line_count(cs) as usize
                    },
                    words: word_count(cs) as usize,
                    characters: cs.len() as usize,
                    bytes: d.len() as usize,
                    is_ascii: all_ascii(d),
                    is_utf8: true,
                },
            )
        },
    }
}

fn ascii_only(data: &[u8]) -> (r: bool)
    ensures
        r == all_ascii(data@),
{
    let mut i: usize = 0;
    while i < data.len()
        invariant
            i <= data@.len(),
            forall|j: int| 0 <= j < i ==> data@[j] < 0x80,
        decreases data.len() - i,
    {
        if data[i] >= 0x80 {
            return false;
        }
        i = i + 1;
    }
    true
}

fn count_words(cs: &Vec<char>) -> (n: usize)
    ensures
        n == word_count(cs@),
{
    let mut n: usize = 0;
    let mut i: usize = 0;
    while i < cs.len()
        invariant
            i <= cs@.len(),
            n == word_count(cs@.take(i as int)),
            n <= i,
        decreases cs.len() - i,
    {
        let ghost t = cs@.take(i + 1);
        assert(t.drop_last() =~= cs@.take(i as int));
        assert(t[i as int] == cs@[i as int]);
        assert(i > 0 ==> t[i - 1] == cs@[i - 1]);
        if !white_space(cs[i]) && (i == 0 || white_space(cs[i - 1])) {
            n = n + 1;
        }
        i = i + 1;
    }
    assert(cs@.take(cs@.len() as int) =~= cs@);
    n
}

proof fn lemma_newline_count_bound(s: Seq<char>)
    ensures
        newline_count(s) <= s.len(),
    decreases s.len(),
{
    if s.len() > 0 {
        lemma_newline_count_bound(s.drop_last());
    }
}

fn count_lines(cs: &Vec<char>) -> (n: usize)
    ensures
        n == line_count(cs@),
{
    let mut n: usize = 0;
    let mut i: usize = 0;
    while i < cs.len()
        invariant
            i <= cs@.len(),
            n == newline_count(cs@.take(i as int)),
            n <= i,
        decreases cs.len() - i,
    {
        let ghost t = cs@.take(i + 1);
        assert(t.drop_last() =~= cs@.take(i as int));
        if cs[i] == '\n' {
            n = n + 1;
        }
        i = i + 1;
    }
    assert(cs@.take(cs@.len() as int) =~= cs@);
    if cs.len() > 0 && cs[cs.len() - 1] != '\n' {
        proof {
            lemma_newline_count_bound(cs@.drop_last());
        }
        n + 1
    } else {
        n
    }
}

/// Counts the lines, words and characters of a text file's bytes.
pub fn analyze(data: Option<&[u8]>) -> (r: Option<TextMeta>)
    ensures
        r == text_spec(opt_bytes_view(data)),
        r matches Some(t) ==> t.bytes == data.unwrap()@.len(),
        r matches Some(t) ==> (t.is_ascii ==> t.is_utf8 && t.characters == t.bytes),
        r matches Some(t) ==> (t.is_utf8 ==> t.lines >= 1),
{
    let data = match data {
        Some(d) => d,
        None => return None,
    };
    if data.len() == 0 {
        return None;
    }
    let bytes = data.len();
    let is_ascii = ascii_only(data);
    proof {
        if all_ascii(data@) {
            lemma_ascii_is_utf8(data@);
        }
    }
    match decode_utf8_chars(data) {
        None => Some(
            TextMeta { lines: 0, words: 0, characters: 0, bytes, is_ascii: false, is_utf8: false },
        ),
        Some(cs) => {
            let lines = count_lines(&cs);
            let words = count_words(&cs);
            Some(
                TextMeta {
                    lines: if lines == 0 {
                        1
                    } else {
                        lines
                    },
                    words,
                    characters: cs.len(),
                    bytes,
                    is_ascii,
                    is_utf8: true,
                },
            )
        },
    }
}


/// `s` with every LF turned into CR LF.
pub open spec fn lf_to_crlf(s: Seq<u8>) -> Seq<u8>
    decreases s.len(),
{
    if s.len() == 0 {
        seq![]
    } else {
        lf_to_crlf(s.drop_last()) + if s.last() == 0x0A {
            seq![0x0Du8, 0x0A]
        } else {
            seq![s.last()]
        }
    }
}

proof fn lemma_crlf_counts(x: Seq<u8>)
    requires
        all_ascii(x),
    ensures
        all_ascii(lf_to_crlf(x)),
        lf_to_crlf(x).len() >= x.len(),
        word_count(latin_chars(lf_to_crlf(x))) == word_count(latin_chars(x)),
        newline_count(latin_chars(lf_to_crlf(x))) == newline_count(latin_chars(x)),
        x.len() > 0 ==> lf_to_crlf(x).len() > 0 && lf_to_crlf(x).last() == x.last(),
    decreases x.len(),
{
    if x.len() > 0 {
        let init = x.drop_last();
        let b = x.last();
        assert(all_ascii(init));
        lemma_crlf_counts(init);
        let y = lf_to_crlf(init);
        let cy = latin_chars(y);
        let ci = latin_chars(init);
        let cx = latin_chars(x);
        assert(cx.drop_last() =~= ci);
        assert(cx.last() == b as char);
        assert(word_count(cx) == word_count(ci) + if starts_word(cx, cx.len() - 1) { 1nat } else { 0nat });
        assert(newline_count(cx) == newline_count(ci) + if cx.last() == '\n' { 1nat } else { 0nat });
        if init.len() > 0 {
            assert(cx[cx.len() - 2] == ci.last());
            assert(ci.last() == init.last() as char);
            assert(cy.last() == y.last() as char);
        }
        if b == 0x0A {
            let y1 = y + seq![0x0Du8];
            let y2 = y1 + seq![0x0Au8];
            assert(lf_to_crlf(x) =~= y2);
            assert(latin_chars(y2).drop_last() =~= latin_chars(y1));
            assert(latin_chars(y1).drop_last() =~= cy);
            assert(latin_chars(y1).last() == '\r');
            assert(latin_chars(y2).last() == '\n');
            assert(is_white_space('\r'));
            assert(is_white_space('\n'));
            let c1 = latin_chars(y1);
            let c2 = latin_chars(y2);
            assert(word_count(c2) == word_count(c1) + if starts_word(c2, c2.len() - 1) { 1nat } else { 0nat });
            assert(word_count(c1) == word_count(cy) + if starts_word(c1, c1.len() - 1) { 1nat } else { 0nat });
            assert(newline_count(c2) == newline_count(c1) + 1);
            assert(newline_count(c1) == newline_count(cy));
        } else {
            let y1 = y + seq![b];
            assert(lf_to_crlf(x) =~= y1);
            assert(latin_chars(y1).drop_last() =~= cy);
            assert(latin_chars(y1).last() == b as char);
            let c1 = latin_chars(y1);
            assert(word_count(c1) == word_count(cy) + if starts_word(c1, c1.len() - 1) { 1nat } else { 0nat });
            assert(newline_count(c1) == newline_count(cy) + if c1.last() == '\n' { 1nat } else { 0nat });
            if init.len() > 0 {
                assert(c1[c1.len() - 2] == cy.last());
            }
        }
    }
}

/// Turning the LF line endings of an ASCII text into CR LF changes neither its word count nor
/// its line count: CR is white space, and a CR before LF ends no line of its own.
pub proof fn law_crlf_keeps_word_and_line_counts(x: Seq<u8>)
    requires
        x.len() > 0,
        all_ascii(x),
    ensures
        text_spec(Some(lf_to_crlf(x)))->0.words == text_spec(Some(x))->0.words,
        text_spec(Some(lf_to_crlf(x)))->0.lines == text_spec(Some(x))->0.lines,
{
    lemma_crlf_counts(x);
    lemma_ascii_is_utf8(x);
    lemma_ascii_is_utf8(lf_to_crlf(x));
    let cx = latin_chars(x);
    let cy = latin_chars(lf_to_crlf(x));
    assert(cy.last() == cx.last());
}


/// Between two letters, a character separates two words exactly when it has the Unicode
/// `White_Space` property: U+0009–U+000D, U+0020, U+0085, U+00A0, U+1680, U+2000–U+200A,
/// U+2028, U+2029, U+202F, U+205F and U+3000.
pub proof fn law_words_split_at_white_space(c: char)
    ensures
        text_spec(Some(encode_utf8(seq!['a', c, 'b'])))->0.words == if ('\u{9}' <= c && c
            <= '\u{d}') || c == '\u{20}' || c == '\u{85}' || c == '\u{a0}' || c == '\u{1680}' || (
        '\u{2000}' <= c && c <= '\u{200a}') || c == '\u{2028}' || c == '\u{2029}' || c
            == '\u{202f}' || c == '\u{205f}' || c == '\u{3000}' {
            2usize
        } else {
            1usize
        },
{
    let cs = seq!['a', c, 'b'];
    vstd::utf8::encode_utf8_valid_utf8(cs);
    vstd::utf8::encode_utf8_decode_utf8(cs);
    vstd::utf8::encode_utf8_first_scalar(cs);
    let b = encode_utf8(cs);
    assert(b.len() > 0);
    assert(cs.drop_last() =~= seq!['a', c]);
    assert(seq!['a', c].drop_last() =~= seq!['a']);
    assert(seq!['a'].drop_last() =~= Seq::<char>::empty());
    let s1 = seq!['a'];
    let s2 = seq!['a', c];
    assert(word_count(Seq::<char>::empty()) == 0);
    assert(!is_white_space('a'));
    assert(starts_word(s1, 0));
    assert(word_count(s1) == word_count(s1.drop_last()) + 1);
    assert(!starts_word(s2, 1));
    assert(word_count(s2) == word_count(s2.drop_last()));
    assert(!is_white_space('b'));
    assert(word_count(cs) == word_count(s2) + if starts_word(cs, 2) { 1nat } else { 0nat });
}

}
