//! Errors reported while decoding a certificate trust list.

use vstd::prelude::*;
use crate::der::DerError;
use crate::der::Identifier;

verus! {

/// A failure while decoding a certificate trust list document.
#[derive(Clone, Debug, PartialEq)]
pub enum CtlError {
    /// The bytes are not well-formed DER for the expected schema.
    Der(DerError),
    /// The outer envelope's content type is not signedData; carries the
    /// content type actually observed.
    ContentType(Identifier),
    /// The outer envelope is signedData but carries no content.
    MissingSignedData,
    /// The encapsulated content type is not a certificate trust list;
    /// carries the content type actually observed.
    Content(Identifier),
    /// The signedData envelope announces a trust list but holds no
    /// encapsulated content.
    MissingSignedDataContent,
    /// A doubly-encoded attribute value failed its second, independent
    /// decode; wraps the inner failure.
    NestedDer(DerError),
}

/// The mathematical model of a [`CtlError`].
pub enum CtlErrorView {
    /// Model of [`CtlError::Der`].
    Der(DerError),
    /// Model of [`CtlError::ContentType`].
    ContentType(Seq<u8>),
    /// Model of [`CtlError::MissingSignedData`].
    MissingSignedData,
    /// Model of [`CtlError::Content`].
    Content(Seq<u8>),
    /// Model of [`CtlError::MissingSignedDataContent`].
    MissingSignedDataContent,
    /// Model of [`CtlError::NestedDer`].
    NestedDer(DerError),
}

impl View for CtlError {
    type V = CtlErrorView;

    open spec fn view(&self) -> CtlErrorView {
        match self {
            CtlError::Der(e) => CtlErrorView::Der(*e),
            CtlError::ContentType(id) => CtlErrorView::ContentType(id@),
            CtlError::MissingSignedData => CtlErrorView::MissingSignedData,
            CtlError::Content(id) => CtlErrorView::Content(id@),
            CtlError::MissingSignedDataContent => CtlErrorView::MissingSignedDataContent,
            CtlError::NestedDer(e) => CtlErrorView::NestedDer(*e),
        }
    }
}

impl CtlError {
    /// A short description of the failure, for presentation.
    pub fn describe(&self) -> &'static str {
        match self {
            CtlError::Der(_) => "bad DER encoding",
            CtlError::ContentType(_) => "bad PKCS#7 content-type: expected SignedData",
            CtlError::MissingSignedData => "missing SignedData encapsulated content",
            CtlError::Content(_) => "bad SignedData content-type: expected a certificate trust list",
            CtlError::MissingSignedDataContent => "missing SignedData inner content",
            CtlError::NestedDer(_) => "bad DER encoding inside an attribute value",
        }
    }
}

} // verus!
