//! The crate's error type.
use vstd::prelude::*;

verus! {

/// Why a confseq (or any message walked by the field reader) is malformed.
#[derive(Debug, PartialEq, Eq)]
pub enum ConfseqError {
    /// The input ended inside a varint.
    VarintEof,
    /// A length-delimited field runs past the end of the input.
    LenEof,
    /// A wire type the walker does not know.
    Wire(u32),
}

/// Why a CLZ4 container could not be unpacked.
#[derive(Debug)]
pub enum Clz4Error {
    /// Shorter than the 16-byte header, or without the `CLZ4` magic.
    BadMagicOrTooShort,
    /// The header announces more payload than the buffer holds.
    TruncatedPayload,
    /// The block holds a run of `0xFF` length bytes (or asks for an output
    /// size) too long for the decoder's length counters.
    LengthOverflow,
    /// The LZ4 block decoder rejected the payload (its message).
    Lz4(String),
}

/// Project-level failures.
#[derive(Debug)]
pub enum ProjectError {
    /// A manifest ref hash is not 40 bytes long (the offending text).
    RefHashLength(String),
    /// A manifest ref hash holds a pair that is not a hex number.
    RefHashNotHex(String),
    /// A confman is not exactly 40 lowercase hex characters.
    BadConfman(String),
    /// A carrier's `parent_id` column is neither empty nor a number.
    NonNumericParentId(i64, String),
    /// A carrier module has no lock (carrier, module).
    NoLock(String, String),
    /// Carriers sharing a confman edit the same confseq differently
    /// (confman, original hash).
    DivergentEdit(String, String),
    /// A lock that is neither stored in `originals/` nor re-encodable from its
    /// carrier file (carrier, module, original hash).
    DanglingLock(String, String, String),
    /// A confman table and its manifest list different hashes (confman, hashes
    /// in the table, hashes in the manifest, a hash only the table has, a hash
    /// only the manifest has).
    ConfmanMismatch(String, usize, usize, Option<String>, Option<String>),
    /// A Magisk `--dest` that does not start with `/` (the text given).
    DestNotAbsolute(String),
    /// A Magisk `--dest` that names the filesystem root.
    DestIsRoot,
    /// The zip writer failed (its message).
    Zip(String),
}

/// The crate error.
#[derive(Debug)]
pub enum Error {
    Confseq(ConfseqError),
    Clz4(Clz4Error),
    Project(ProjectError),
}

/// The content of a [`Clz4Error`].
pub enum Clz4ErrorView {
    BadMagicOrTooShort,
    TruncatedPayload,
    LengthOverflow,
    Lz4(Seq<char>),
}

/// The content of a [`ProjectError`].
pub enum ProjectErrorView {
    RefHashLength(Seq<char>),
    RefHashNotHex(Seq<char>),
    BadConfman(Seq<char>),
    NonNumericParentId(i64, Seq<char>),
    NoLock(Seq<char>, Seq<char>),
    DivergentEdit(Seq<char>, Seq<char>),
    DanglingLock(Seq<char>, Seq<char>, Seq<char>),
    ConfmanMismatch(Seq<char>, usize, usize, Option<Seq<char>>, Option<Seq<char>>),
    DestNotAbsolute(Seq<char>),
    DestIsRoot,
    Zip(Seq<char>),
}

/// The text of an optional string.
pub open spec fn opt_view(o: Option<String>) -> Option<Seq<char>> {
    match o {
        Some(s) => Some(s@),
        None => None,
    }
}

/// The content of an [`Error`].
pub enum ErrorView {
    Confseq(ConfseqError),
    Clz4(Clz4ErrorView),
    Project(ProjectErrorView),
}

impl View for Clz4Error {
    type V = Clz4ErrorView;

    open spec fn view(&self) -> Clz4ErrorView {
        match self {
            Clz4Error::BadMagicOrTooShort => Clz4ErrorView::BadMagicOrTooShort,
            Clz4Error::TruncatedPayload => Clz4ErrorView::TruncatedPayload,
            Clz4Error::LengthOverflow => Clz4ErrorView::LengthOverflow,
            Clz4Error::Lz4(m) => Clz4ErrorView::Lz4(m@),
        }
    }
}

impl View for ProjectError {
    type V = ProjectErrorView;

    open spec fn view(&self) -> ProjectErrorView {
        match self {
            ProjectError::RefHashLength(s) => ProjectErrorView::RefHashLength(s@),
            ProjectError::RefHashNotHex(s) => ProjectErrorView::RefHashNotHex(s@),
            ProjectError::BadConfman(s) => ProjectErrorView::BadConfman(s@),
            ProjectError::NonNumericParentId(c, s) => ProjectErrorView::NonNumericParentId(*c, s@),
            ProjectError::NoLock(c, m) => ProjectErrorView::NoLock(c@, m@),
            ProjectError::DivergentEdit(c, h) => ProjectErrorView::DivergentEdit(c@, h@),
            ProjectError::DanglingLock(c, m, h) => ProjectErrorView::DanglingLock(c@, m@, h@),
            ProjectError::ConfmanMismatch(c, a, b, x, y) => ProjectErrorView::ConfmanMismatch(
                c@,
                *a,
                *b,
                opt_view(*x),
                opt_view(*y),
            ),
            ProjectError::DestNotAbsolute(d) => ProjectErrorView::DestNotAbsolute(d@),
            ProjectError::DestIsRoot => ProjectErrorView::DestIsRoot,
            ProjectError::Zip(m) => ProjectErrorView::Zip(m@),
        }
    }
}

impl View for Error {
    type V = ErrorView;

    open spec fn view(&self) -> ErrorView {
        match self {
            Error::Confseq(e) => ErrorView::Confseq(*e),
            Error::Clz4(e) => ErrorView::Clz4(e@),
            Error::Project(e) => ErrorView::Project(e@),
        }
    }
}

} // verus!
