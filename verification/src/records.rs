//! Records kept in the store whose fields are plain values.
use vstd::prelude::*;

verus! {

/// A user of the service.
#[derive(Debug, Clone, PartialEq, Eq)]
pub struct User {
    pub user_id: String,
    pub login: String,
}

/// A request for the document of a RUT or a name.
#[derive(Debug, Clone, PartialEq, Eq)]
pub struct PDFItem {
    /// Name of the request.
    pub name: String,
    /// RUT requested.
    pub rut: Option<String>,
    /// The URL of a pdf.
    pub pdf_url: String,
    /// User who made the request.
    pub user: Option<String>,
}

impl Default for PDFItem {
    fn default() -> (item: PDFItem)
        ensures
            item.name@ == Seq::<char>::empty(),
            item.rut is None,
            item.pdf_url@ == Seq::<char>::empty(),
            item.user is None,
    {
        PDFItem { name: String::new(), rut: None, pdf_url: String::new(), user: None }
    }
}

} // verus!
