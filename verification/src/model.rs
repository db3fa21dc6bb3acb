//! The document tree produced by parsing, together with its mathematical
//! model: for every executable type there is a `Spec...` counterpart whose
//! sequences are `Seq` and whose byte strings are `Seq<u8>`, and a `model`
//! function mapping the value to its counterpart. All contracts of the
//! library speak about these models.

use vstd::prelude::*;

verus! {

/// The parse result for one doc comment: its parts in source order.
#[derive(Debug, PartialEq, Eq)]
pub struct Document {
    pub parts: Vec<Part>,
}

/// One top-level unit of a document.
#[derive(Debug, PartialEq, Eq)]
pub enum Part {
    /// A `== Title` line: depth (number of `=` characters) and the title text.
    SectionHeader(usize, TextBlock),
    /// Any other unit: a block with its attributes.
    Block(BlockData),
}

/// A block together with the attribute lines written directly above it.
#[derive(Debug, PartialEq, Eq)]
pub struct BlockData {
    pub attributes: Vec<Attribute>,
    pub inner: Block,
}

/// A `[name]` or `[name,args]` annotation line. Purely syntactic here;
/// the meaning of reserved names is owned by the renderer.
#[derive(Debug, PartialEq, Eq)]
pub struct Attribute {
    pub name: Vec<u8>,
    pub args: Option<Vec<u8>>,
}

/// The five structural block kinds.
#[derive(Debug, PartialEq, Eq)]
pub enum Block {
    Grouped(Vec<BlockData>),
    Code(Vec<u8>),
    List(Vec<ListEl>),
    Table(Vec<TableRow>),
    Text(TextBlock),
}

/// One list item: either inline text or a nested block.
#[derive(Debug, PartialEq, Eq)]
pub enum ListEl {
    Simple(TextBlock),
    Complex(BlockData),
}

/// One table row.
#[derive(Debug, PartialEq, Eq)]
pub struct TableRow {
    pub cols: Vec<TableCol>,
}

/// One table cell: either inline text or a nested block.
#[derive(Debug, PartialEq, Eq)]
pub enum TableCol {
    Simple(TextBlock),
    Complex(BlockData),
}

/// The result of inline parsing: a span tree with an optional formatting
/// attribute at the root.
#[derive(Debug, PartialEq, Eq)]
pub struct TextBlock {
    pub attribute: Option<TextAttr>,
    pub inner: Text,
}

/// Inline content: a plain byte run, a sequence of spans, or a link.
#[derive(Debug, PartialEq, Eq)]
pub enum Text {
    Raw(Vec<u8>),
    Nested(Vec<TextBlock>),
    Link(Vec<u8>, Option<Box<TextBlock>>),
}

/// The formatting attribute of a span: verbatim (backticks) or bold.
#[derive(Debug, Clone, Copy, PartialEq, Eq)]
pub enum TextAttr {
    Raw,
    Bold,
}

// ---------------------------------------------------------------------------
// Mathematical models.
// ---------------------------------------------------------------------------

pub struct SpecDocument {
    pub parts: Seq<SpecPart>,
}

pub enum SpecPart {
    SectionHeader(nat, SpecTextBlock),
    Block(SpecBlockData),
}

pub struct SpecBlockData {
    pub attributes: Seq<SpecAttribute>,
    pub inner: SpecBlock,
}

pub struct SpecAttribute {
    pub name: Seq<u8>,
    pub args: Option<Seq<u8>>,
}

pub enum SpecBlock {
    Grouped(Seq<SpecBlockData>),
    Code(Seq<u8>),
    List(Seq<SpecListEl>),
    Table(Seq<SpecTableRow>),
    Text(SpecTextBlock),
}

pub enum SpecListEl {
    Simple(SpecTextBlock),
    Complex(SpecBlockData),
}

pub struct SpecTableRow {
    pub cols: Seq<SpecTableCol>,
}

pub enum SpecTableCol {
    Simple(SpecTextBlock),
    Complex(SpecBlockData),
}

pub struct SpecTextBlock {
    pub attribute: Option<TextAttr>,
    pub inner: SpecText,
}

pub enum SpecText {
    Raw(Seq<u8>),
    Nested(Seq<SpecTextBlock>),
    Link(Seq<u8>, Option<Box<SpecTextBlock>>),
}

impl Document {
    pub open spec fn model(&self) -> SpecDocument
        decreases self,
    {
        SpecDocument { parts: model_parts(self.parts@) }
    }
}

impl Part {
    pub open spec fn model(&self) -> SpecPart
        decreases self,
    {
        match self {
            Part::SectionHeader(depth, text) => {
                SpecPart::SectionHeader(*depth as nat, text.model())
            },
            Part::Block(data) => SpecPart::Block(data.model()),
        }
    }
}

impl BlockData {
    pub open spec fn model(&self) -> SpecBlockData
        decreases self,
    {
        SpecBlockData { attributes: model_attributes(self.attributes@), inner: self.inner.model() }
    }
}

impl Attribute {
    pub open spec fn model(&self) -> SpecAttribute
        decreases self,
    {
        SpecAttribute {
            name: self.name@,
            args: match &self.args {
                Some(a) => Some(a@),
                None => None,
            },
        }
    }
}

impl Block {
    pub open spec fn model(&self) -> SpecBlock
        decreases self,
    {
        match self {
            Block::Grouped(blocks) => SpecBlock::Grouped(model_block_datas(blocks@)),
            Block::Code(code) => SpecBlock::Code(code@),
            Block::List(els) => SpecBlock::List(model_list_els(els@)),
            Block::Table(rows) => SpecBlock::Table(model_rows(rows@)),
            Block::Text(text) => SpecBlock::Text(text.model()),
        }
    }
}

impl ListEl {
    pub open spec fn model(&self) -> SpecListEl
        decreases self,
    {
        match self {
            ListEl::Simple(text) => SpecListEl::Simple(text.model()),
            ListEl::Complex(data) => SpecListEl::Complex(data.model()),
        }
    }
}

impl TableRow {
    pub open spec fn model(&self) -> SpecTableRow
        decreases self,
    {
        SpecTableRow { cols: model_cols(self.cols@) }
    }
}

impl TableCol {
    pub open spec fn model(&self) -> SpecTableCol
        decreases self,
    {
        match self {
            TableCol::Simple(text) => SpecTableCol::Simple(text.model()),
            TableCol::Complex(data) => SpecTableCol::Complex(data.model()),
        }
    }
}

impl TextBlock {
    pub open spec fn model(&self) -> SpecTextBlock
        decreases self,
    {
        SpecTextBlock { attribute: self.attribute, inner: self.inner.model() }
    }
}

impl Text {
    pub open spec fn model(&self) -> SpecText
        decreases self,
    {
        match self {
            Text::Raw(bytes) => SpecText::Raw(bytes@),
            Text::Nested(blocks) => SpecText::Nested(model_text_blocks(blocks@)),
            Text::Link(target, text) => SpecText::Link(
                target@,
                match text {
                    Some(b) => Some(Box::new((**b).model())),
                    None => None,
                },
            ),
        }
    }
}

pub open spec fn model_parts(s: Seq<Part>) -> Seq<SpecPart>
    decreases s,
{
    if s.len() == 0 {
        Seq::empty()
    } else {
        model_parts(s.drop_last()).push(s.last().model())
    }
}

pub open spec fn model_attributes(s: Seq<Attribute>) -> Seq<SpecAttribute>
    decreases s,
{
    if s.len() == 0 {
        Seq::empty()
    } else {
        model_attributes(s.drop_last()).push(s.last().model())
    }
}

pub open spec fn model_block_datas(s: Seq<BlockData>) -> Seq<SpecBlockData>
    decreases s,
{
    if s.len() == 0 {
        Seq::empty()
    } else {
        model_block_datas(s.drop_last()).push(s.last().model())
    }
}

pub open spec fn model_list_els(s: Seq<ListEl>) -> Seq<SpecListEl>
    decreases s,
{
    if s.len() == 0 {
        Seq::empty()
    } else {
        model_list_els(s.drop_last()).push(s.last().model())
    }
}

pub open spec fn model_rows(s: Seq<TableRow>) -> Seq<SpecTableRow>
    decreases s,
{
    if s.len() == 0 {
        Seq::empty()
    } else {
        model_rows(s.drop_last()).push(s.last().model())
    }
}

pub open spec fn model_cols(s: Seq<TableCol>) -> Seq<SpecTableCol>
    decreases s,
{
    if s.len() == 0 {
        Seq::empty()
    } else {
        model_cols(s.drop_last()).push(s.last().model())
    }
}

pub open spec fn model_text_blocks(s: Seq<TextBlock>) -> Seq<SpecTextBlock>
    decreases s,
{
    if s.len() == 0 {
        Seq::empty()
    } else {
        model_text_blocks(s.drop_last()).push(s.last().model())
    }
}

/// The model of a variable binding list: each `name: value` pair as a pair
/// of byte strings, in definition order.
pub open spec fn model_vars(s: Seq<(Vec<u8>, Vec<u8>)>) -> Seq<(Seq<u8>, Seq<u8>)>
    decreases s,
{
    if s.len() == 0 {
        Seq::empty()
    } else {
        model_vars(s.drop_last()).push((s.last().0@, s.last().1@))
    }
}

pub proof fn lemma_model_parts_push(s: Seq<Part>, x: Part)
    ensures
        model_parts(s.push(x)) == model_parts(s).push(x.model()),
{
    assert(s.push(x).drop_last() =~= s);
    assert(s.push(x).last() == x);
}

pub proof fn lemma_model_attributes_push(s: Seq<Attribute>, x: Attribute)
    ensures
        model_attributes(s.push(x)) == model_attributes(s).push(x.model()),
{
    assert(s.push(x).drop_last() =~= s);
    assert(s.push(x).last() == x);
}

pub proof fn lemma_model_block_datas_push(s: Seq<BlockData>, x: BlockData)
    ensures
        model_block_datas(s.push(x)) == model_block_datas(s).push(x.model()),
{
    assert(s.push(x).drop_last() =~= s);
    assert(s.push(x).last() == x);
}

pub proof fn lemma_model_list_els_push(s: Seq<ListEl>, x: ListEl)
    ensures
        model_list_els(s.push(x)) == model_list_els(s).push(x.model()),
{
    assert(s.push(x).drop_last() =~= s);
    assert(s.push(x).last() == x);
}

pub proof fn lemma_model_rows_push(s: Seq<TableRow>, x: TableRow)
    ensures
        model_rows(s.push(x)) == model_rows(s).push(x.model()),
{
    assert(s.push(x).drop_last() =~= s);
    assert(s.push(x).last() == x);
}

pub proof fn lemma_model_cols_push(s: Seq<TableCol>, x: TableCol)
    ensures
        model_cols(s.push(x)) == model_cols(s).push(x.model()),
{
    assert(s.push(x).drop_last() =~= s);
    assert(s.push(x).last() == x);
}

pub proof fn lemma_model_text_blocks_push(s: Seq<TextBlock>, x: TextBlock)
    ensures
        model_text_blocks(s.push(x)) == model_text_blocks(s).push(x.model()),
{
    assert(s.push(x).drop_last() =~= s);
    assert(s.push(x).last() == x);
}

pub proof fn lemma_model_vars_push(s: Seq<(Vec<u8>, Vec<u8>)>, x: (Vec<u8>, Vec<u8>))
    ensures
        model_vars(s.push(x)) == model_vars(s).push((x.0@, x.1@)),
{
    assert(s.push(x).drop_last() =~= s);
    assert(s.push(x).last() == x);
}

pub proof fn lemma_model_text_blocks_props(s: Seq<TextBlock>)
    ensures
        model_text_blocks(s).len() == s.len(),
        forall|i: int| 0 <= i < s.len() ==> model_text_blocks(s)[i] == #[trigger] s[i].model(),
    decreases s,
{
    if s.len() > 0 {
        lemma_model_text_blocks_props(s.drop_last());
        assert forall|i: int| 0 <= i < s.len() implies model_text_blocks(s)[i] == s[i].model() by {
            if i < s.len() - 1 {
                assert(s.drop_last()[i] == s[i]);
                assert(model_text_blocks(s.drop_last())[i] == s.drop_last()[i].model());
            } else {
                assert(s.last() == s[i]);
            }
        }
    }
}

pub proof fn lemma_model_vars_props(s: Seq<(Vec<u8>, Vec<u8>)>)
    ensures
        model_vars(s).len() == s.len(),
        forall|i: int|
            0 <= i < s.len() ==> model_vars(s)[i] == (#[trigger] s[i].0@, s[i].1@),
    decreases s,
{
    if s.len() > 0 {
        lemma_model_vars_props(s.drop_last());
        assert forall|i: int| 0 <= i < s.len() implies model_vars(s)[i] == (s[i].0@, s[i].1@) by {
            if i < s.len() - 1 {
                assert(s.drop_last()[i] == s[i]);
                assert(model_vars(s.drop_last())[i] == (s.drop_last()[i].0@, s.drop_last()[i].1@));
            } else {
                assert(s.last() == s[i]);
            }
        }
    }
}

} // verus!
