//! The rendering pipeline: HTML sniffing, conversion to markdown through the
//! converter crate, cleanup, and layout.

use vstd::prelude::*;
use crate::text::{trim_spec, to_chars, string_of};
use crate::cleanup::{strip_urls_spec, strip_urls_chars, remove_invisible_spec, remove_invisible,
    collapse_newlines_spec, collapse_newlines, clean_markdown_spec, clean_markdown_chars};
use crate::layout::{add_colors_spec, add_colors_chars};

verus! {

// ---------------------------------------------------------------------------
// HTML sniffing
// ---------------------------------------------------------------------------

/// The character code after ASCII lowercasing: `A`..`Z` map down, everything
/// else stays.
pub open spec fn lower_code(c: char) -> int {
    if 65 <= (c as u32) && (c as u32) <= 90 {
        (c as u32) as int + 32
    } else {
        (c as u32) as int
    }
}

/// Whether the marker `m` occurs in `s` at position `i`, compared ASCII
/// case-insensitively.
pub open spec fn marker_at(s: Seq<char>, i: int, m: Seq<char>) -> bool {
    &&& 0 <= i
    &&& i + m.len() <= s.len()
    &&& forall|j: int| 0 <= j < m.len() ==> lower_code(s[i + j]) == lower_code(#[trigger] m[j])
}

/// Whether the marker occurs anywhere in `s`.
pub open spec fn contains_marker(s: Seq<char>, m: Seq<char>) -> bool {
    exists|i: int| marker_at(s, i, m)
}

/// The `<html` marker.
pub open spec fn html_marker() -> Seq<char> {
    seq!['<', 'h', 't', 'm', 'l']
}

/// The `<body` marker.
pub open spec fn body_marker() -> Seq<char> {
    seq!['<', 'b', 'o', 'd', 'y']
}

/// The `<!doctype` marker.
pub open spec fn doctype_marker() -> Seq<char> {
    seq!['<', '!', 'd', 'o', 'c', 't', 'y', 'p', 'e']
}

/// Whether the content sniffs as HTML: a case-insensitive search finds
/// `<html`, `<body`, or `<!doctype`.
pub open spec fn sniff_html(s: Seq<char>) -> bool {
    contains_marker(s, html_marker()) || contains_marker(s, body_marker()) || contains_marker(
        s,
        doctype_marker(),
    )
}

/// ASCII-lowercases one character.
fn lower_char(c: char) -> (r: char)
    ensures
        (r as u32) as int == lower_code(c),
{
    match c {
        'A' => 'a',
        'B' => 'b',
        'C' => 'c',
        'D' => 'd',
        'E' => 'e',
        'F' => 'f',
        'G' => 'g',
        'H' => 'h',
        'I' => 'i',
        'J' => 'j',
        'K' => 'k',
        'L' => 'l',
        'M' => 'm',
        'N' => 'n',
        'O' => 'o',
        'P' => 'p',
        'Q' => 'q',
        'R' => 'r',
        'S' => 's',
        'T' => 't',
        'U' => 'u',
        'V' => 'v',
        'W' => 'w',
        'X' => 'x',
        'Y' => 'y',
        'Z' => 'z',
        _ => c,
    }
}

/// Searches `v` for the marker, ASCII case-insensitively.
fn contains_ci(v: &Vec<char>, pat: &Vec<char>) -> (r: bool)
    ensures
        r == contains_marker(v@, pat@),
{
    let n: usize = v.len();
    let m: usize = pat.len();
    if m > n {
        proof {
            assert(forall|i: int| !marker_at(v@, i, pat@));
        }
        return false;
    }
    let mut i: usize = 0;
    while i <= n - m
        invariant
            i <= n,
            m <= n,
            n == v@.len(),
            m == pat@.len(),
            forall|q: int| 0 <= q < i ==> !marker_at(v@, q, pat@),
        decreases n - i,
    {
        let mut j: usize = 0;
        let mut all: bool = true;
        while j < m
            invariant
                j <= m,
                i <= n - m,
                m <= n,
                n == v@.len(),
                m == pat@.len(),
                all == (forall|q: int|
                    0 <= q < j ==> lower_code(v@[i + q]) == lower_code(#[trigger] pat@[q])),
            decreases m - j,
        {
            let a = lower_char(v[i + j]);
            let b = lower_char(pat[j]);
            if a != b {
                all = false;
            }
            j = j + 1;
        }
        if all {
            proof {
                assert(marker_at(v@, i as int, pat@));
            }
            return true;
        }
        proof {
            assert(!marker_at(v@, i as int, pat@));
        }
        i = i + 1;
    }
    proof {
        assert forall|q: int| !marker_at(v@, q, pat@) by {
            if 0 <= q < i {
            } else if q >= 0 {
                assert(q + pat@.len() > v@.len());
            }
        }
    }
    false
}

/// Whether the content sniffs as HTML (see `sniff_html`).
pub fn is_html_content(content: &str) -> (r: bool)
    ensures
        r == sniff_html(content@),
{
    let v = to_chars(content);
    let mut p1: Vec<char> = Vec::new();
    p1.push('<');
    p1.push('h');
    p1.push('t');
    p1.push('m');
    p1.push('l');
    proof {
        assert(p1@ =~= html_marker());
    }
    if contains_ci(&v, &p1) {
        return true;
    }
    let mut p2: Vec<char> = Vec::new();
    p2.push('<');
    p2.push('b');
    p2.push('o');
    p2.push('d');
    p2.push('y');
    proof {
        assert(p2@ =~= body_marker());
    }
    if contains_ci(&v, &p2) {
        return true;
    }
    let mut p3: Vec<char> = Vec::new();
    p3.push('<');
    p3.push('!');
    p3.push('d');
    p3.push('o');
    p3.push('c');
    p3.push('t');
    p3.push('y');
    p3.push('p');
    p3.push('e');
    proof {
        assert(p3@ =~= doctype_marker());
    }
    contains_ci(&v, &p3)
}

// ---------------------------------------------------------------------------
// The converter crate
// ---------------------------------------------------------------------------

/// The markdown that the converter produces for the given HTML.
pub uninterp spec fn markdown_of(html: Seq<char>) -> Seq<char>;

/// Whether the converter succeeds on the given HTML.
pub uninterp spec fn convert_ok(html: Seq<char>) -> bool;

/// The converter's failure message for the given HTML, when it fails.
pub uninterp spec fn convert_err_of(html: Seq<char>) -> Seq<char>;

/// Relies on `html_to_markdown_rs::convert` with default options: converts
/// HTML to markdown text. Whether it succeeds, what it produces, and what
/// its failure message says are each functions of the input alone (the
/// conversion and its error paths read nothing but the input and the fixed
/// default options).
#[verifier::external_body]
fn convert_html(html: &str) -> (r: Result<String, String>)
    ensures
        r is Ok <==> convert_ok(html@),
        r is Ok ==> r->Ok_0@ == markdown_of(html@),
        r is Err ==> r->Err_0@ == convert_err_of(html@),
{
    let opts = html_to_markdown_rs::ConversionOptions::default();
    match html_to_markdown_rs::convert(html, Some(opts)) {
        Ok(res) => Ok(res.content.unwrap_or_default()),
        Err(e) => Err(e.to_string()),
    }
}

/// The error a render returns when the HTML conversion fails.
#[derive(Debug)]
pub struct RenderError {
    /// The converter's failure message.
    pub message: String,
}

// ---------------------------------------------------------------------------
// The pipeline
// ---------------------------------------------------------------------------

/// The lightweight cleanup for pre-laid-out text: long URLs stripped when
/// asked, invisible characters removed, blank-line runs collapsed, the
/// layout pass applied, and the result trimmed.
pub open spec fn clean_text_spec(s: Seq<char>, strip: bool) -> Seq<char> {
    let t1 = if strip {
        strip_urls_spec(s, false)
    } else {
        s
    };
    trim_spec(add_colors_spec(collapse_newlines_spec(remove_invisible_spec(t1))))
}

/// Runs the lightweight cleanup and layout pass over already-plain text.
pub fn clean_text(text: &str, strip: bool) -> (r: String)
    ensures
        r@ == clean_text_spec(text@, strip),
{
    let v = to_chars(text);
    let t1 = if strip {
        strip_urls_chars(&v, false)
    } else {
        v
    };
    let t2 = remove_invisible(&t1);
    let t3 = collapse_newlines(&t2);
    let t4 = add_colors_chars(&t3);
    let t5 = crate::text::trim_chars(&t4);
    string_of(&t5)
}

/// What the plain-text path returns: the input, with long URLs stripped when
/// asked, otherwise untouched.
pub open spec fn render_plain_spec(s: Seq<char>, strip: bool) -> Seq<char> {
    if strip {
        strip_urls_spec(s, false)
    } else {
        s
    }
}

/// The plain-text path: strips long URLs when asked, otherwise passes the
/// text through unchanged.
pub fn render_plain(text: &str, strip: bool) -> (r: String)
    ensures
        r@ == render_plain_spec(text@, strip),
{
    let v = to_chars(text);
    let out = if strip {
        strip_urls_chars(&v, false)
    } else {
        v
    };
    string_of(&out)
}

/// What the HTML path returns for converter output `md`: the markdown
/// cleanup followed by the lightweight cleanup and layout pass.
pub open spec fn html_clean_spec(md: Seq<char>, strip: bool) -> Seq<char> {
    clean_text_spec(clean_markdown_spec(md, strip), strip)
}

/// Cleans and lays out converter-produced markdown. This is the whole HTML
/// path after the conversion itself.
pub fn render_markdown(md: &str, strip: bool) -> (r: String)
    ensures
        r@ == html_clean_spec(md@, strip),
{
    let v = to_chars(md);
    let t1 = clean_markdown_chars(&v, strip);
    let t2 = if strip {
        strip_urls_chars(&t1, false)
    } else {
        t1
    };
    let t3 = remove_invisible(&t2);
    let t4 = collapse_newlines(&t3);
    let t5 = add_colors_chars(&t4);
    let t6 = crate::text::trim_chars(&t5);
    string_of(&t6)
}

/// Renders email content for the terminal.
///
/// Content that sniffs as HTML is converted to markdown and passed through
/// the full cleanup and layout; anything else passes through the plain path,
/// where only URL stripping applies. An error comes exactly when the HTML
/// conversion itself fails, and carries the converter's message.
pub fn render(content: &str, strip: bool) -> (r: Result<String, RenderError>)
    ensures
        r is Ok <==> (!sniff_html(content@) || convert_ok(content@)),
        r is Ok ==> (if sniff_html(content@) {
            r->Ok_0@ == html_clean_spec(markdown_of(content@), strip)
        } else {
            r->Ok_0@ == render_plain_spec(content@, strip)
        }),
        r is Err ==> r->Err_0.message@ == convert_err_of(content@),
{
    if is_html_content(content) {
        match convert_html(content) {
            Ok(md) => Ok(render_markdown(md.as_str(), strip)),
            Err(message) => Err(RenderError { message }),
        }
    } else {
        Ok(render_plain(content, strip))
    }
}

} // verus!
