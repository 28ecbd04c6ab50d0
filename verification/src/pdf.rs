//! Compiling a `Typst` source, with its in-memory assets, into PDF bytes.

use vstd::prelude::*;

use typst_as_lib::typst_kit_options::TypstKitFontOptions;
use typst_as_lib::TypstEngine;
// `PagedDocument`, the compiled form `typst-as-lib` produces, is defined in
// `typst-layout`; `typst` 0.15 does not re-export it.
use typst_layout::PagedDocument;

use crate::template::join_with;
use crate::text::{push_str, string_of};

verus! {

/// Errors produced while typesetting.
#[derive(Debug, Clone)]
pub enum TypesetError {
    /// `Typst` could not compile the source.
    Compile(String),
    /// The compiled document could not be exported as PDF.
    Pdf(String),
}

/// The message of an error.
pub open spec fn error_message(e: TypesetError) -> Seq<char> {
    match e {
        TypesetError::Compile(m) => "Typst compilation failed: "@ + m@,
        TypesetError::Pdf(m) => "PDF export failed: "@ + m@,
    }
}

impl TypesetError {
    /// The error as a sentence for the user.
    pub fn message(&self) -> (r: String)
        ensures
            r@ == error_message(*self),
    {
        let mut out: Vec<char> = Vec::new();
        match self {
            TypesetError::Compile(m) => {
                push_str(&mut out, "Typst compilation failed: ");
                push_str(&mut out, m.as_str());
            },
            TypesetError::Pdf(m) => {
                push_str(&mut out, "PDF export failed: ");
                push_str(&mut out, m.as_str());
            },
        }
        proof {
            assert(out@ =~= error_message(*self));
        }
        string_of(&out)
    }
}

/// The laid-out document `typst` produces.
#[verifier::external_type_specification]
#[verifier::external_body]
pub struct ExPagedDocument(PagedDocument);

/// Compiles `source` with `typst` (through `typst-as-lib`, with the system and
/// embedded fonts) and the assets registered as files under their names. The
/// result depends on the fonts installed, so nothing is stated of it; a
/// failure is reported as the error's text.
#[verifier::external_body]
fn compile_document(source: &str, assets: &[(String, Vec<u8>)]) -> Result<PagedDocument, String> {
    let files = assets.iter().map(|(n, b)| (n.as_str(), b.as_slice()));
    let engine = TypstEngine::builder().main_file(source.to_string()).search_fonts_with(
        TypstKitFontOptions::default(),
    ).with_static_file_resolver(files).build();
    engine.compile::<PagedDocument>().output.map_err(|e| e.to_string())
}

/// The bytes every PDF file starts with.
pub open spec fn pdf_header() -> Seq<u8> {
    seq![0x25u8, 0x50u8, 0x44u8, 0x46u8, 0x2du8]
}

/// Whether `b` begins with the PDF header `%PDF-`.
pub open spec fn is_pdf(b: Seq<u8>) -> bool {
    b.len() >= 5 && b.take(5) == pdf_header()
}

/// Exports a compiled document with `typst_pdf::pdf` and default options; a
/// failure is reported as the messages of its diagnostics. The bytes come
/// from `pdf-writer`'s `Pdf`, whose buffer starts with the header `%PDF-1.7`
/// (later only the version digits and the binary marker after it are
/// rewritten), so they begin with `%PDF-`; nothing more is stated of them.
#[verifier::external_body]
fn export_pdf(document: &PagedDocument) -> (r: Result<Vec<u8>, Vec<String>>)
    ensures
        r matches Ok(b) ==> is_pdf(b@),
{
    typst_pdf::pdf(document, &typst_pdf::PdfOptions::default()).map_err(
        |d| d.iter().map(|x| x.message.to_string()).collect(),
    )
}

/// The export error for the messages of its diagnostics: all of them, joined
/// with `"; "`.
pub fn export_error(msgs: &[String]) -> (r: TypesetError)
    ensures
        r matches TypesetError::Pdf(m) && m@ == join_with(msgs@.map_values(|s: String| s@), "; "@),
{
    let ghost mv = msgs@.map_values(|s: String| s@);
    let mut out: Vec<char> = Vec::new();
    let mut i: usize = 0;
    while i < msgs.len()
        invariant
            i <= msgs@.len(),
            mv == msgs@.map_values(|s: String| s@),
            out@ == join_with(mv.take(i as int), "; "@),
        decreases msgs@.len() - i,
    {
        proof {
            assert(mv.take(i + 1).drop_last() =~= mv.take(i as int));
            assert(mv.take(i + 1).last() == msgs@[i as int]@);
        }
        let ghost before = out@;
        if i > 0 {
            push_str(&mut out, "; ");
        }
        push_str(&mut out, msgs[i].as_str());
        proof {
            if i == 0 {
                assert(out@ =~= mv.take(1)[0]);
            } else {
                assert(out@ =~= before + "; "@ + mv[i as int]);
            }
        }
        i = i + 1;
    }
    proof {
        assert(mv.take(msgs@.len() as int) =~= mv);
    }
    TypesetError::Pdf(string_of(&out))
}

/// The result of typesetting for what the PDF export gave: its bytes, or
/// the export error for its diagnostics' messages.
pub fn export_outcome(exported: Result<Vec<u8>, Vec<String>>) -> (r: Result<Vec<u8>, TypesetError>)
    ensures
        match exported {
            Ok(b) => r == Ok::<Vec<u8>, TypesetError>(b),
            Err(msgs) => r matches Err(TypesetError::Pdf(m)) && m@ == join_with(
                msgs@.map_values(|s: String| s@),
                "; "@,
            ),
        },
{
    match exported {
        Ok(bytes) => Ok(bytes),
        Err(msgs) => Err(export_error(&msgs)),
    }
}

/// Compiles `source`, with `assets` registered as files, into PDF bytes. A
/// compile failure is reported with the compiler's message; an export failure
/// with its diagnostics' messages joined by `"; "`. Whether it succeeds
/// depends on the fonts installed; what it returns on success is a PDF file.
pub fn compile_pdf(source: &str, assets: &[(String, Vec<u8>)]) -> (r: Result<Vec<u8>, TypesetError>)
    ensures
        r matches Ok(b) ==> is_pdf(b@),
        r matches Err(e) ==> (e is Compile || exists|msgs: Seq<Seq<char>>|
            e matches TypesetError::Pdf(m) && m@ == #[trigger] join_with(msgs, "; "@)),
{
    let document = match compile_document(source, assets) {
        Ok(d) => d,
        Err(m) => {
            return Err(TypesetError::Compile(m));
        },
    };
    export_outcome(export_pdf(&document))
}

} // verus!
