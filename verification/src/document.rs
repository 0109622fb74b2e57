use vstd::prelude::*;

verus! {

/// One Markdown + front matter file, as the index sees it.
///
/// `full_path` identifies the document for change detection and deletion;
/// the parser leaves it empty and the pipeline fills it in.  `body` is the
/// text after the front matter block; it is indexed for matching but never
/// stored, so query projections always carry an empty body.
#[derive(Debug)]
pub struct TikaDocument {
    pub filename: String,
    pub full_path: String,
    pub author: String,
    pub date: String,
    pub tags: Vec<String>,
    pub title: String,
    pub body: String,
}

/// The mathematical shape of a document: each text field as its characters.
#[verifier::ext_equal]
pub struct DocView {
    pub filename: Seq<char>,
    pub full_path: Seq<char>,
    pub author: Seq<char>,
    pub date: Seq<char>,
    pub tags: Seq<Seq<char>>,
    pub title: Seq<char>,
    pub body: Seq<char>,
}

impl View for TikaDocument {
    type V = DocView;

    open spec fn view(&self) -> DocView {
        DocView {
            filename: self.filename@,
            full_path: self.full_path@,
            author: self.author@,
            date: self.date@,
            tags: crate::front_matter::strs_view(self.tags@),
            title: self.title@,
            body: self.body@,
        }
    }
}

/// A required front matter field.
#[derive(Clone, Copy, PartialEq, Eq, Structural, Debug)]
pub enum FieldName {
    Title,
    Date,
    Tags,
}

/// Why a file's text could not be read as a front matter document.
#[derive(Clone, Copy, PartialEq, Eq, Structural, Debug)]
pub enum ParseError {
    /// The text does not open with a "---" line closed by a later "---" line.
    NoFrontMatter,
    /// The block never declares the named required field.
    MissingField(FieldName),
    /// The tags value is none the format reads — not a scalar, not a flow
    /// sequence of scalars, not an item list: a mapping, a malformed or
    /// nested flow value, or a nested value on a continuation line.
    BadTags,
}

} // verus!
