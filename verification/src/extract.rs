//! Format classification and HTML text extraction.
//!
//! A file's format is read off its first four bytes. HTML text extraction
//! itself is the work of an outside parser; the tokenising and counting of
//! what it returns is verified here.

use vstd::prelude::*;
use crate::freq::FreqMap;
use crate::freq::index_text;
use crate::freq::occurrences;
use crate::lexer::lex_tokens;

verus! {

/// The recognised file formats.
#[derive(Clone, Copy, Debug, PartialEq, Eq, Structural)]
pub enum FileExtension {
    PDF,
    HTML,
    XML,
}

/// The bytes of `%PDF`.
pub open spec fn pdf_sig() -> Seq<u8> {
    seq![0x25u8, 0x50u8, 0x44u8, 0x46u8]
}

/// The bytes of `<xml`.
pub open spec fn xml_sig() -> Seq<u8> {
    seq![0x3Cu8, 0x78u8, 0x6Du8, 0x6Cu8]
}

/// The bytes of `<?xm`.
pub open spec fn xml_decl_sig() -> Seq<u8> {
    seq![0x3Cu8, 0x3Fu8, 0x78u8, 0x6Du8]
}

/// The bytes of `<htm`.
pub open spec fn html_sig() -> Seq<u8> {
    seq![0x3Cu8, 0x68u8, 0x74u8, 0x6Du8]
}

/// What the first four bytes of a file say about its format; anything
/// unrecognised is skipped.
pub open spec fn spec_classify(s: Seq<u8>) -> Option<FileExtension> {
    if s.len() != 4 {
        None
    } else if s == pdf_sig() {
        Some(FileExtension::PDF)
    } else if s == xml_sig() || s == xml_decl_sig() {
        Some(FileExtension::XML)
    } else if s == html_sig() {
        Some(FileExtension::HTML)
    } else {
        None
    }
}

/// Classifies a file by its leading bytes, exactly as `spec_classify` says.
pub fn classify_prefix(prefix: &Vec<u8>) -> (r: Option<FileExtension>)
    ensures
        r == spec_classify(prefix@),
{
    if prefix.len() != 4 {
        return None;
    }
    let b0 = prefix[0];
    let b1 = prefix[1];
    let b2 = prefix[2];
    let b3 = prefix[3];
    proof {
        assert(prefix@ =~= seq![b0, b1, b2, b3]);
    }
    if b0 == 0x25u8 && b1 == 0x50u8 && b2 == 0x44u8 && b3 == 0x46u8 {
        proof {
            assert(prefix@ =~= pdf_sig());
        }
        Some(FileExtension::PDF)
    } else if b0 == 0x3Cu8 && b1 == 0x78u8 && b2 == 0x6Du8 && b3 == 0x6Cu8 {
        proof {
            assert(prefix@ =~= xml_sig());
        }
        Some(FileExtension::XML)
    } else if b0 == 0x3Cu8 && b1 == 0x3Fu8 && b2 == 0x78u8 && b3 == 0x6Du8 {
        proof {
            assert(prefix@ =~= xml_decl_sig());
        }
        Some(FileExtension::XML)
    } else if b0 == 0x3Cu8 && b1 == 0x68u8 && b2 == 0x74u8 && b3 == 0x6Du8 {
        proof {
            assert(prefix@ =~= html_sig());
        }
        Some(FileExtension::HTML)
    } else {
        None
    }
}

/// The text content of every `body` element of an HTML document, child text
/// nodes joined by single spaces within an element, elements concatenated
/// without a separator.
pub uninterp spec fn body_text_of(s: Seq<char>) -> Seq<char>;

/// Relies on scraper: `Html::parse_document` followed by the `body`
/// selector and each element's text traversal. The result depends on the
/// document's characters alone.
#[verifier::external_body]
fn html_body_text(content: &Vec<char>) -> (r: Vec<char>)
    ensures
        r@ == body_text_of(content@),
{
    let source: String = content.iter().collect();
    let document = scraper::Html::parse_document(&source);
    let selector = scraper::Selector::parse("body").unwrap();
    let mut text = String::new();
    for element in document.select(&selector) {
        let part = element.text().collect::<Vec<_>>().join(" ");
        text = text + &part;
    }
    text.chars().collect()
}

/// Extracts the body text of an HTML document and counts its terms: nothing
/// when the text holds no token, the frequency record otherwise, with every
/// term's count its number of occurrences among the text's tokens.
pub fn index_html(content: &Vec<char>) -> (r: Option<FreqMap>)
    ensures
        r is None ==> lex_tokens(body_text_of(content@)).len() == 0,
        r matches Some(m) ==> {
            &&& lex_tokens(body_text_of(content@)).len() > 0
            &&& m.wf()
            &&& m.model().len() > 0
            &&& forall|k: Seq<char>|
                m.spec_count(k) == occurrences(lex_tokens(body_text_of(content@)), k)
            &&& m.spec_total() == lex_tokens(body_text_of(content@)).len()
        },
{
    let text = html_body_text(content);
    let ghost tv = text@;
    let r = index_text(text);
    proof {
        assert(tv == body_text_of(content@));
    }
    r
}

} // verus!
