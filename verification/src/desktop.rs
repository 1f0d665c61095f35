//! What the desktop window is told: the error of a command, the report of
//! a save or of a merge, and the title of the main window.

use crate::document::{declared_table, is_pdf, opened, table_chosen, Document};
use crate::encryption::describe_encryption;
use crate::filters::{DecodeLimits, DEFAULT_MAX_OUTPUT};
use crate::object::dict_get;
use crate::text::{decimal, push_decimal, push_str, string_of};
use crate::{error_text, Error};
use vstd::prelude::*;
use vstd::string::StringSliceAdditionalSpecFns;

verus! {

/// What a command reports when it fails. `WrongPassword` lets the
/// interface ask for one in place; everything else is shown as text.
#[derive(Debug, Clone, PartialEq, Eq)]
pub enum AppError {
    /// The file is encrypted and the password given does not open it.
    WrongPassword,
    /// Anything else, already worded for the user.
    Other {
        /// Human-readable explanation.
        message: String,
    },
}

impl AppError {
    /// Anything else than a wrong password, worded for the user.
    pub fn other(message: &str) -> (e: AppError)
        ensures
            e matches AppError::Other { message: m } && m@ == message@,
    {
        AppError::Other { message: string_of(message) }
    }

    /// An error of the engine as the window shows it: a wrong password
    /// stays one, so that the interface can ask again; anything else is
    /// its text.
    pub fn from_error(e: Error) -> (r: AppError)
        ensures
            e is WrongPassword ==> r is WrongPassword,
            !(e is WrongPassword) ==> (r matches AppError::Other { message } && message@
                == error_text(e)),
    {
        match e {
            Error::WrongPassword => AppError::WrongPassword,
            other => {
                let text = other.message();
                AppError::other(text.as_str())
            },
        }
    }
}

/// The refusal of an operation meant for a document that was replaced
/// meanwhile: `what` names the operation, e.g. `la rotation`.
pub fn changed(what: &str) -> (e: AppError)
    ensures
        e matches AppError::Other { message } && message@ == "le document a changé ; "@ + what@
            + " n'a pas été appliquée"@,
{
    let mut message = string_of("le document a changé ; ");
    push_str(&mut message, what);
    push_str(&mut message, " n'a pas été appliquée");
    AppError::Other { message }
}

/// The title of the main window: the configured one, followed by ` — DEV`
/// in a debug build, so that a development build is never taken for the
/// release one.
pub fn window_title(configured: &str, debug_build: bool) -> (title: String)
    ensures
        debug_build ==> title@ == configured@ + " — DEV"@,
        !debug_build ==> title@ == configured@,
{
    let mut title = string_of(configured);
    if debug_build {
        push_str(&mut title, " — DEV");
    }
    title
}

/// What saving produced.
#[derive(Debug, Clone, PartialEq, Eq)]
pub struct SaveReport {
    /// Path written.
    pub path: String,
    /// Size of the file written.
    pub size: u64,
    /// Pages in the file written.
    pub pages: usize,
}

/// What became of one file asked to be merged.
#[derive(Debug, Clone, PartialEq, Eq)]
pub enum SourceOutcome {
    /// Its pages follow those of the document.
    Merged {
        /// How many pages it brought.
        pages: usize,
        /// Why its table was rebuilt by scanning, if it was.
        reconstructed: Option<String>,
        /// How it is encrypted, in words, when it is: its pages are
        /// merged in the clear.
        encryption: Option<String>,
    },
    /// Protected by a password, which merging does not ask for: skipped.
    Protected,
    /// Not read, or refused by the core even after repair: skipped.
    Refused {
        /// Why, worded for the user.
        message: String,
    },
}

/// One file asked to be merged, and what became of it.
#[derive(Debug, Clone, PartialEq, Eq)]
pub struct SourceReport {
    /// Path as given.
    pub path: String,
    /// File name alone, for the notices.
    pub name: String,
    /// What became of it.
    pub outcome: SourceOutcome,
}

/// `s` is a PDF whose declared table can be read, matches the file and
/// names no `/Encrypt`: it opens, with any password.
pub open spec fn opens_in_clear(s: Seq<u8>) -> bool {
    &&& is_pdf(s)
    &&& declared_table(s, default_limits()) matches Some(d)
    &&& dict_get(d.trailer, "Encrypt".spec_bytes()) is None
}

/// The pages the merged files bring, together.
pub open spec fn merged_pages(outcomes: Seq<SourceOutcome>) -> nat
    decreases outcomes.len(),
{
    if outcomes.len() == 0 {
        0
    } else {
        merged_pages(outcomes.drop_last()) + match outcomes.last() {
            SourceOutcome::Merged { pages, .. } => pages as nat,
            _ => 0,
        }
    }
}

/// `n` as a `usize`, the largest one when it does not fit.
pub open spec fn saturated(n: nat) -> usize {
    if n <= usize::MAX {
        n as usize
    } else {
        usize::MAX
    }
}

/// The limits a file is opened with when none are given.
pub open spec fn default_limits() -> DecodeLimits {
    DecodeLimits { max_output: DEFAULT_MAX_OUTPUT }
}

/// `s` opens without repair: it is a PDF whose declared
/// cross-reference table can be read and matches the file.
pub open spec fn reads_back_unrepaired(s: Seq<u8>) -> bool {
    is_pdf(s) && declared_table(s, default_limits()) is Some
}

/// What can be said of the outcome `o` of a file to merge from what was
/// read, `f`: a file that could not be read is refused with the reason it
/// could not; one that is no PDF is refused as such; one whose declared
/// table is sound and names no `/Encrypt` opens in the clear, so it is not
/// taken for a protected one, and its table was not rebuilt; a merged file
/// is a PDF that brought at least one page.
pub open spec fn outcome_fits(f: Result<Vec<u8>, String>, o: SourceOutcome) -> bool {
    match f {
        Err(m) => o matches SourceOutcome::Refused { message } && message@ == m@,
        Ok(c) => {
            &&& !is_pdf(c@) ==> (o matches SourceOutcome::Refused { message } && message@ == error_text(
                Error::BadHeader,
            ))
            &&& o matches SourceOutcome::Merged { pages, .. } ==> is_pdf(c@) && pages > 0
            &&& is_pdf(c@) ==> match declared_table(c@, default_limits()) {
                Some(d) => dict_get(d.trailer, "Encrypt".spec_bytes()) is None ==> {
                    &&& !(o is Protected)
                    &&& o matches SourceOutcome::Merged { reconstructed, encryption, .. } ==> reconstructed
                        is None && encryption is None
                },
                None => true,
            }
        },
    }
}

/// A failed opening of a PDF: the file is a PDF unless the failure says
/// it is not one, and a declared table that names no `/Encrypt` was not
/// usable.
proof fn lemma_open_refused(e: Error, s: Seq<u8>, limits: DecodeLimits, password: Seq<u8>)
    requires
        opened(Err(e), s, limits, password),
    ensures
        !is_pdf(s) ==> e == Error::BadHeader,
        is_pdf(s) ==> match declared_table(s, limits) {
            Some(d) => dict_get(d.trailer, "Encrypt".spec_bytes()) is Some,
            None => true,
        },
{
    reveal(opened);
}

/// A document opened from a PDF whose declared table is sound and names
/// no `/Encrypt` uses that table as found, in the clear.
proof fn lemma_opened_clear(doc: Document, s: Seq<u8>, limits: DecodeLimits, password: Seq<u8>)
    requires
        opened(Ok(doc), s, limits, password),
    ensures
        is_pdf(s),
        declared_table(s, limits) is Some ==> doc.reconstructed_of() is None,
        declared_table(s, limits) matches Some(d) && dict_get(d.trailer, "Encrypt".spec_bytes()) is None
            ==> doc.crypt_of() is None,
{
    reveal(opened);
    reveal(table_chosen);
    reveal(Document::crypt_opened);
    reveal(crate::encryption::encrypt_setup);
}

/// What became of one file asked to be merged, and the document it opened
/// as when its pages can be merged.
fn merge_source<'c>(content: &'c Result<Vec<u8>, String>) -> (r: (SourceOutcome, Option<Document<'c>>))
    ensures
        outcome_fits(*content, r.0),
        r.1 is Some <==> r.0 is Merged,
{
    match content {
        Err(e) => (SourceOutcome::Refused { message: string_of(e.as_str()) }, None),
        Ok(c) => {
            let opening = Document::open(c.as_slice());
            match opening {
                Err(e) => {
                    proof { lemma_open_refused(e, c@, default_limits(), Seq::empty()); }
                    match e {
                        Error::WrongPassword => (SourceOutcome::Protected, None),
                        e => (SourceOutcome::Refused { message: e.message() }, None),
                    }
                },
                Ok(other) => {
                    proof { lemma_opened_clear(other, c@, default_limits(), Seq::empty()); }
                    match crate::pagetree::pages(&other) {
                        Err(e) => (SourceOutcome::Refused { message: e.message() }, None),
                        Ok(pages) => {
                            let reconstructed = match other.reconstructed() {
                                Some(e) => Some(e.message()),
                                None => None,
                            };
                            let encryption = match other.encryption() {
                                Some(e) => Some(describe_encryption(&e)),
                                None => None,
                            };
                            (SourceOutcome::Merged { pages: pages.len(), reconstructed, encryption }, Some(other))
                        },
                    }
                },
            }
        },
    }
}

/// The document in `bytes`, opened with `password`, followed by every page
/// of each file of `files` that opens, in that order, through
/// [`crate::ops::merge`]. `files` holds what reading each file gave: its
/// bytes, or why it could not be read. The files are opened without a
/// password: one that needs a password, one that cannot be read and one
/// the core refuses even after repair are each skipped and said so in the
/// outcomes, one per file in order, and the others are merged without
/// them. When no file is merged, nothing is rewritten (`None`). Like a
/// rotation, the rewrite must read back without repair before it is
/// returned.
pub fn merge_into(bytes: &[u8], password: &[u8], files: &Vec<Result<Vec<u8>, String>>) -> (r: Result<
    (Option<Vec<u8>>, usize, Vec<SourceOutcome>),
    AppError,
>)
    ensures
        !is_pdf(bytes@) ==> (r matches Err(AppError::Other { message }) && message@ == error_text(
            Error::BadHeader,
        )),
        opens_in_clear(bytes@) && (forall|k: int| 0 <= k < files@.len() ==> !(#[trigger] files@[k] matches Ok(c)
            && is_pdf(c@))) ==> (r matches Ok((out, added, _)) && out is None && added == 0),
        r matches Ok((out, added, outcomes)) ==> {
            &&& outcomes@.len() == files@.len()
            &&& added == saturated(merged_pages(outcomes@))
            &&& forall|k: int| 0 <= k < files@.len() ==> outcome_fits(#[trigger] files@[k], outcomes@[k])
            &&& (out is None <==> forall|k: int| 0 <= k < outcomes@.len() ==> !(#[trigger] outcomes@[k] is Merged))
            &&& out matches Some(b) ==> reads_back_unrepaired(b@)
        },
{
    let doc = match Document::open_with_password(bytes, password) {
        Err(e) => {
            proof { reveal(opened); }
            return Err(AppError::from_error(e));
        },
        Ok(d) => d,
    };
    let mut added: usize = 0;
    assert(is_pdf(bytes@)) by {
        reveal(opened);
    }
    let mut docs: Vec<Document> = Vec::new();
    docs.push(doc);
    let mut outcomes: Vec<SourceOutcome> = Vec::new();
    let mut k: usize = 0;
    while k < files.len()
        invariant
            k <= files@.len(),
            outcomes@.len() == k,
            docs@.len() >= 1,
            forall|j: int| 0 <= j < k ==> outcome_fits(#[trigger] files@[j], outcomes@[j]),
            is_pdf(bytes@),
            docs@.len() == 1 ==> forall|j: int| 0 <= j < k ==> !(#[trigger] outcomes@[j] is Merged),
            docs@.len() > 1 ==> exists|j: int| 0 <= j < k && (#[trigger] outcomes@[j] is Merged),
            added == saturated(merged_pages(outcomes@)),
            docs@.len() == 1 ==> merged_pages(outcomes@) == 0,
            (forall|j: int| 0 <= j < k ==> !(#[trigger] files@[j] matches Ok(c) && is_pdf(c@))) ==> docs@.len() == 1,
        decreases files@.len() - k,
    {
        let (outcome, opened_doc) = merge_source(&files[k]);
        match &outcome {
            SourceOutcome::Merged { pages, .. } => {
                added = added.saturating_add(*pages);
            },
            _ => {},
        }
        match opened_doc {
            Some(other) => docs.push(other),
            None => {},
        }
        let ghost before = outcomes@;
        outcomes.push(outcome);
        proof {
            assert(outcomes@.drop_last() =~= before);
            if outcomes@[k as int] is Merged {
                assert(0 <= k < k + 1 && outcomes@[k as int] is Merged);
            } else if docs@.len() > 1 {
                let j = choose|j: int| 0 <= j < k && (#[trigger] before[j] is Merged);
                assert(outcomes@[j] == before[j]);
            }
        }
        k = k + 1;
    }
    if docs.len() == 1 {
        return Ok((None, added, outcomes));
    }
    let out = match crate::builder::merge(docs.as_slice()) {
        Err(e) => return Err(AppError::from_error(e)),
        Ok(b) => b,
    };
    let refusal = {
        let check = Document::open(out.as_slice());
        match check {
            Err(e) => Some(AppError::from_error(e)),
            Ok(c) => match c.reconstructed() {
                Some(reason) => {
                    let mut message = string_of("le document produit a dû être réparé à la relecture (");
                    let text = reason.message();
                    push_str(&mut message, text.as_str());
                    push_str(&mut message, ") ; la fusion n'a pas été appliquée");
                    Some(AppError::Other { message })
                },
                None => {
                    proof {
                        reveal(opened);
                        reveal(table_chosen);
                    }
                    None
                },
            },
        }
    };
    match refusal {
        Some(e) => Err(e),
        None => Ok((Some(out), added, outcomes)),
    }
}

/// A rotation keeps the page count: `after` pages where the document had
/// `before`, or the refusal that says so, so that the page indices the
/// window holds stay valid.
pub fn rotation_accepted(before: usize, after: usize) -> (r: Result<(), AppError>)
    ensures
        before == after ==> r is Ok,
        before != after ==> (r matches Err(AppError::Other { message }) && message@ == "la rotation a produit "@
            + decimal(after as nat) + " pages au lieu de "@ + decimal(before as nat)
            + " ; elle n'a pas été appliquée"@),
{
    if before == after {
        return Ok(());
    }
    let mut message = string_of("la rotation a produit ");
    push_decimal(&mut message, after as u64);
    push_str(&mut message, " pages au lieu de ");
    push_decimal(&mut message, before as u64);
    push_str(&mut message, " ; elle n'a pas été appliquée");
    Err(AppError::Other { message })
}

/// A merge keeps the pages of the document and adds those of the files
/// merged: `after` pages where the document had `before` and the files
/// bring `added` (the sum saturating), or the refusal that says so.
pub fn merge_accepted(before: usize, added: usize, after: usize) -> (r: Result<(), AppError>)
    ensures
        after == saturated((before + added) as nat) ==> r is Ok,
        after != saturated((before + added) as nat) ==> (r matches Err(AppError::Other { message }) && message@
            == "la fusion a produit "@ + decimal(after as nat) + " pages au lieu de "@ + decimal(
            saturated((before + added) as nat) as nat,
        ) + " ; elle n'a pas été appliquée"@),
{
    let expected = before.saturating_add(added);
    if after == expected {
        return Ok(());
    }
    let mut message = string_of("la fusion a produit ");
    push_decimal(&mut message, after as u64);
    push_str(&mut message, " pages au lieu de ");
    push_decimal(&mut message, expected as u64);
    push_str(&mut message, " ; elle n'a pas été appliquée");
    Err(AppError::Other { message })
}

/// `out`, a rewrite, reads back without repair; else the refusal that
/// names why it needed repair, `what` telling what was not done.
fn read_back(out: &[u8], what: &str) -> (r: Result<(), AppError>)
    ensures
        r is Ok ==> reads_back_unrepaired(out@),
{
    let check = Document::open(out);
    match check {
        Err(e) => Err(AppError::from_error(e)),
        Ok(c) => match c.reconstructed() {
            Some(reason) => {
                let mut message = string_of("le document produit a dû être réparé à la relecture (");
                let text = reason.message();
                push_str(&mut message, text.as_str());
                push_str(&mut message, ") ; ");
                push_str(&mut message, what);
                Err(AppError::Other { message })
            },
            None => {
                proof {
                    reveal(opened);
                    reveal(table_chosen);
                }
                Ok(())
            },
        },
    }
}

/// The document in `bytes`, opened with `password`, with the pages at
/// `pages` (0-based) turned by `degrees` clockwise through
/// [`crate::ops::rotate`]. Like a saved file, the rewrite must read back
/// without repair before it is returned.
pub fn rotated_into(bytes: &[u8], password: &[u8], pages: &[usize], degrees: i32) -> (r: Result<Vec<u8>, AppError>)
    ensures
        !is_pdf(bytes@) ==> (r matches Err(AppError::Other { message }) && message@ == error_text(
            Error::BadHeader,
        )),
        r matches Ok(b) ==> reads_back_unrepaired(b@) && degrees % 90 == 0,
{
    let doc = match Document::open_with_password(bytes, password) {
        Err(e) => {
            proof { reveal(opened); }
            return Err(AppError::from_error(e));
        },
        Ok(d) => d,
    };
    assert(is_pdf(bytes@)) by {
        reveal(opened);
    }
    let out = match crate::builder::rotate(&doc, pages, degrees) {
        Err(e) => return Err(AppError::from_error(e)),
        Ok(b) => b,
    };
    match read_back(out.as_slice(), "la rotation n'a pas été appliquée") {
        Err(e) => Err(e),
        Ok(()) => Ok(out),
    }
}

/// The pages at `order` (0-based, in that order) of the document in
/// `bytes`, opened with `password`, written through
/// [`crate::ops::extract_pages`] as a clean file in the clear, ready to be
/// saved: it must read back without repair.
pub fn saved_bytes(bytes: &[u8], password: &[u8], order: &[usize]) -> (r: Result<Vec<u8>, AppError>)
    ensures
        !is_pdf(bytes@) ==> (r matches Err(AppError::Other { message }) && message@ == error_text(
            Error::BadHeader,
        )),
        r matches Ok(b) ==> reads_back_unrepaired(b@) && order@.len() > 0,
{
    let doc = match Document::open_with_password(bytes, password) {
        Err(e) => {
            proof { reveal(opened); }
            return Err(AppError::from_error(e));
        },
        Ok(d) => d,
    };
    assert(is_pdf(bytes@)) by {
        reveal(opened);
    }
    let out = match crate::builder::extract_pages(&doc, order) {
        Err(e) => return Err(AppError::from_error(e)),
        Ok(b) => b,
    };
    match read_back(out.as_slice(), "rien n'a été écrit") {
        Err(e) => Err(e),
        Ok(()) => Ok(out),
    }
}

} // verus!
