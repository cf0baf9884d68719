//! `PdfBlock` and `TextBlock`: the two units of work that travel through the pipeline.
//!
//! A `PdfBlock` is what the *pdf_extract* segment cuts out of a page; a `TextBlock` is what the
//! *text_filter* segment makes of it once it has decided the text is relevant, and it keeps the PDF
//! block it comes from. A block's type is a [`BlockType`], an open set of names that formats
//! repositories extend.

pub mod value;

use vstd::prelude::*;

use crate::classes::value::{
    entry_index, lemma_entry_index_absent, lemma_entry_index_first, BlockValue, BlockValueError,
    BlockValueErrorView, BlockValueView,
};
use crate::text::{str_eq, string_of};

verus! {

/// The type of a block, as a name: `"FUND"`, `"TABLE_BODY"`, or one invented by a formats
/// repository. A type built at run time compares equal to a standard one of the same name.
#[derive(Debug, PartialOrd, Ord, Hash)]
pub struct BlockType(String);

impl View for BlockType {
    type V = Seq<char>;

    closed spec fn view(&self) -> Seq<char> {
        self.0@
    }
}

impl BlockType {
    /// A block type of any name: the way formats repositories build their own.
    pub fn new(name: &str) -> (r: Self)
        ensures
            r@ == name@,
    {
        BlockType(string_of(name))
    }

    /// The type's name.
    pub fn as_str(&self) -> (r: &str)
        ensures
            r@ == self@,
    {
        self.0.as_str()
    }

    /// The type's name, as it is displayed.
    pub fn to_string(&self) -> (r: String)
        ensures
            r@ == self@,
    {
        string_of(self.0.as_str())
    }

    /// Whether the type is named `name`.
    pub fn eq_str(&self, name: &str) -> (r: bool)
        ensures
            r == (self@ == name@),
    {
        str_eq(self.0.as_str(), name)
    }

    /// A PDF block marked as relevant by the standard classifier.
    pub fn relevant_block() -> (r: Self)
        ensures
            r@ == "RELEVANT_BLOCK"@,
    {
        BlockType::new("RELEVANT_BLOCK")
    }

    /// The fund name cut out of the page.
    pub fn fund_name() -> (r: Self)
        ensures
            r@ == "FUND_NAME"@,
    {
        BlockType::new("FUND_NAME")
    }

    /// The line declaring the currency of the statement.
    pub fn currency_statement() -> (r: Self)
        ensures
            r@ == "CURRENCY_STATEMENT"@,
    {
        BlockType::new("CURRENCY_STATEMENT")
    }

    /// The body of the investments table.
    pub fn table_body() -> (r: Self)
        ensures
            r@ == "TABLE_BODY"@,
    {
        BlockType::new("TABLE_BODY")
    }

    /// The declared SFDR article.
    pub fn sfdr_article() -> (r: Self)
        ensures
            r@ == "SFDR_ARTICLE"@,
    {
        BlockType::new("SFDR_ARTICLE")
    }

    /// The page class indicator.
    pub fn page_class() -> (r: Self)
        ensures
            r@ == "PAGE_CLASS"@,
    {
        BlockType::new("PAGE_CLASS")
    }

    /// A fund, as a text block.
    pub fn fund() -> (r: Self)
        ensures
            r@ == "FUND"@,
    {
        BlockType::new("FUND")
    }

    /// A management company, as a text block.
    pub fn management_company() -> (r: Self)
        ensures
            r@ == "MANAGEMENT_COMPANY"@,
    {
        BlockType::new("MANAGEMENT_COMPANY")
    }

    /// An investments manager, as a text block.
    pub fn investments_manager() -> (r: Self)
        ensures
            r@ == "INVESTMENTS_MANAGER"@,
    {
        BlockType::new("INVESTMENTS_MANAGER")
    }

    /// A table row recognised as an equity.
    pub fn equity_target() -> (r: Self)
        ensures
            r@ == "EQUITY_TARGET"@,
    {
        BlockType::new("EQUITY_TARGET")
    }

    /// A table row recognised as a bond.
    pub fn bond_target() -> (r: Self)
        ensures
            r@ == "BOND_TARGET"@,
    {
        BlockType::new("BOND_TARGET")
    }

    /// The standard types, in one place.
    pub fn standard() -> (r: Vec<BlockType>)
        ensures
            r@.map_values(|t: BlockType| t@) == seq![
                "RELEVANT_BLOCK"@,
                "FUND_NAME"@,
                "CURRENCY_STATEMENT"@,
                "TABLE_BODY"@,
                "SFDR_ARTICLE"@,
                "PAGE_CLASS"@,
                "FUND"@,
                "MANAGEMENT_COMPANY"@,
                "INVESTMENTS_MANAGER"@,
                "EQUITY_TARGET"@,
                "BOND_TARGET"@,
            ],
    {
        let r = vec![
            BlockType::relevant_block(),
            BlockType::fund_name(),
            BlockType::currency_statement(),
            BlockType::table_body(),
            BlockType::sfdr_article(),
            BlockType::page_class(),
            BlockType::fund(),
            BlockType::management_company(),
            BlockType::investments_manager(),
            BlockType::equity_target(),
            BlockType::bond_target(),
        ];
        assert(r@.map_values(|t: BlockType| t@) =~= seq![
            "RELEVANT_BLOCK"@,
            "FUND_NAME"@,
            "CURRENCY_STATEMENT"@,
            "TABLE_BODY"@,
            "SFDR_ARTICLE"@,
            "PAGE_CLASS"@,
            "FUND"@,
            "MANAGEMENT_COMPANY"@,
            "INVESTMENTS_MANAGER"@,
            "EQUITY_TARGET"@,
            "BOND_TARGET"@,
        ]);
        r
    }
}

impl Clone for BlockType {
    fn clone(&self) -> (r: Self)
        ensures
            r@ == self@,
    {
        BlockType(string_of(self.0.as_str()))
    }
}

impl PartialEq for BlockType {
    fn eq(&self, other: &Self) -> (r: bool) {
        str_eq(self.0.as_str(), other.0.as_str())
    }
}

impl vstd::std_specs::cmp::PartialEqSpecImpl for BlockType {
    open spec fn obeys_eq_spec() -> bool {
        true
    }

    open spec fn eq_spec(&self, other: &Self) -> bool {
        self@ == other@
    }
}

impl Eq for BlockType {
}

/// Direct comparison with a name, so that a test on a block's type needs no `BlockType` built
/// for it.
impl PartialEq<str> for BlockType {
    fn eq(&self, other: &str) -> (r: bool) {
        str_eq(self.0.as_str(), other)
    }
}

impl vstd::std_specs::cmp::PartialEqSpecImpl<str> for BlockType {
    open spec fn obeys_eq_spec() -> bool {
        true
    }

    open spec fn eq_spec(&self, other: &str) -> bool {
        self@ == other@
    }
}

impl<'a> PartialEq<&'a str> for BlockType {
    fn eq(&self, other: &&'a str) -> (r: bool) {
        str_eq(self.0.as_str(), *other)
    }
}

impl<'a> vstd::std_specs::cmp::PartialEqSpecImpl<&'a str> for BlockType {
    open spec fn obeys_eq_spec() -> bool {
        true
    }

    open spec fn eq_spec(&self, other: &&'a str) -> bool {
        self@ == (*other)@
    }
}

/// The keys and values of a block's metadata, in order.
pub open spec fn metadata_view(m: Seq<(String, BlockValue)>) -> Seq<(Seq<char>, BlockValueView)> {
    m.map_values(|e: (String, BlockValue)| (e.0@, e.1@))
}

/// What `metadata_or_fail` finds under `field`: the value of the first entry with that key, or
/// the missing field.
pub open spec fn metadata_lookup(m: Seq<(Seq<char>, BlockValueView)>, field: Seq<char>) -> Result<
    BlockValueView,
    BlockValueErrorView,
> {
    let i = entry_index(m, field);
    if i < 0 {
        Err(BlockValueErrorView::MissingField { field })
    } else {
        Ok(m[i].1)
    }
}

/// Reads a metadata entry, telling "absent" apart.
fn lookup<'a>(m: &'a Vec<(String, BlockValue)>, field: &str) -> (r: Result<&'a BlockValue, BlockValueError>)
    ensures
        match r {
            Ok(v) => metadata_lookup(metadata_view(m@), field@) == Ok::<
                BlockValueView,
                BlockValueErrorView,
            >(v@),
            Err(e) => metadata_lookup(metadata_view(m@), field@) == Err::<
                BlockValueView,
                BlockValueErrorView,
            >(e@),
        },
{
    let ghost mv = metadata_view(m@);
    let mut i: usize = 0;
    while i < m.len()
        invariant
            i <= m.len(),
            mv == metadata_view(m@),
            forall|j: int| 0 <= j < i ==> #[trigger] mv[j].0 != field@,
        decreases m.len() - i,
    {
        assert(mv[i as int] == (m@[i as int].0@, m@[i as int].1@));
        if str_eq(m[i].0.as_str(), field) {
            proof {
                lemma_entry_index_first(mv, field@, i as int);
            }
            return Ok(&m[i].1);
        }
        i = i + 1;
    }
    proof {
        lemma_entry_index_absent(mv, field@);
    }
    Err(BlockValueError::MissingField { field: string_of(field) })
}

/// A piece cut out of a PDF page: what it is, where it comes from, what it holds.
#[derive(Debug, Clone, PartialEq, Eq, Hash)]
pub struct PdfBlock {
    pub type_block: BlockType,
    pub metadata: Vec<(String, BlockValue)>,
    pub content: BlockValue,
}

impl PdfBlock {
    pub fn new(type_block: BlockType, metadata: Vec<(String, BlockValue)>, content: BlockValue) -> (r:
        Self)
        ensures
            r.type_block@ == type_block@,
            r.metadata@ == metadata@,
            r.content == content,
    {
        PdfBlock { type_block, metadata, content }
    }

    /// A block without metadata, the most common case.
    pub fn bare(type_block: BlockType, content: BlockValue) -> (r: Self)
        ensures
            r.type_block@ == type_block@,
            r.metadata@.len() == 0,
            r.content == content,
    {
        PdfBlock::new(type_block, Vec::new(), content)
    }

    /// Reads a metadata entry, telling "absent" apart.
    pub fn metadata_or_fail(&self, field: &str) -> (r: Result<&BlockValue, BlockValueError>)
        ensures
            match r {
                Ok(v) => metadata_lookup(metadata_view(self.metadata@), field@) == Ok::<
                    BlockValueView,
                    BlockValueErrorView,
                >(v@),
                Err(e) => metadata_lookup(metadata_view(self.metadata@), field@) == Err::<
                    BlockValueView,
                    BlockValueErrorView,
                >(e@),
            },
    {
        lookup(&self.metadata, field)
    }
}

/// Text judged relevant, with the PDF block it was drawn from, if any.
#[derive(Debug, Clone, PartialEq, Eq, Hash)]
pub struct TextBlock {
    pub type_block: BlockType,
    pub metadata: Vec<(String, BlockValue)>,
    pub content: BlockValue,
    pub pdf_block: Option<Box<PdfBlock>>,
}

impl TextBlock {
    /// A text block drawn from a PDF block, inheriting its content (and not its metadata).
    pub fn new(type_block: BlockType, metadata: Vec<(String, BlockValue)>, pdf_block: PdfBlock) -> (r:
        Self)
        ensures
            r.type_block@ == type_block@,
            r.metadata@ == metadata@,
            r.content@ == pdf_block.content@,
            r.pdf_block == Some(Box::new(pdf_block)),
    {
        let content = pdf_block.content.deep_clone();
        TextBlock { type_block, metadata, content, pdf_block: Some(Box::new(pdf_block)) }
    }

    /// A text block built from a given content, with no PDF block behind it.
    pub fn from_content(type_block: BlockType, metadata: Vec<(String, BlockValue)>, content: BlockValue) -> (r:
        Self)
        ensures
            r.type_block@ == type_block@,
            r.metadata@ == metadata@,
            r.content == content,
            r.pdf_block is None,
    {
        TextBlock { type_block, metadata, content, pdf_block: None }
    }

    /// Reads a metadata entry, telling "absent" apart.
    pub fn metadata_or_fail(&self, field: &str) -> (r: Result<&BlockValue, BlockValueError>)
        ensures
            match r {
                Ok(v) => metadata_lookup(metadata_view(self.metadata@), field@) == Ok::<
                    BlockValueView,
                    BlockValueErrorView,
                >(v@),
                Err(e) => metadata_lookup(metadata_view(self.metadata@), field@) == Err::<
                    BlockValueView,
                    BlockValueErrorView,
                >(e@),
            },
    {
        lookup(&self.metadata, field)
    }
}

} // verus!
