//! The block-level document tree and its mathematical model.
use vstd::prelude::*;

verus! {

/// A parsed Markdown document: its blocks in source order.
#[derive(Debug, PartialEq, Eq)]
pub struct Document {
    pub blocks: Vec<Block>,
}

/// A block-level element.
#[derive(Debug, PartialEq, Eq)]
pub enum Block {
    Heading { level: u8, content: String },
    Paragraph(String),
    CodeFence { language: Option<String>, content: String },
    List { ordered: bool, start: u64, items: Vec<ListItem> },
    BlockQuote(Vec<Block>),
    Table { header: Vec<String>, alignments: Vec<TableAlignment>, rows: Vec<Vec<String>> },
    HorizontalRule,
}

/// A list item may contain a paragraph, nested list, quote, or other blocks.
/// With GitHub-Flavored Markdown it may be a task, checked or not.
#[derive(Debug, PartialEq, Eq)]
pub struct ListItem {
    pub checked: Option<bool>,
    pub blocks: Vec<Block>,
}

/// The alignment of a table column, from the colons of its divider cell.
#[derive(Debug, Clone, Copy, PartialEq, Eq)]
pub enum TableAlignment {
    Unaligned,
    Left,
    Center,
    Right,
}

/// The model of a block: texts as character sequences.
pub enum BlockModel {
    Heading { level: u8, content: Seq<char> },
    Paragraph(Seq<char>),
    CodeFence { language: Option<Seq<char>>, content: Seq<char> },
    List { ordered: bool, start: u64, items: Seq<ItemModel> },
    BlockQuote(Seq<BlockModel>),
    Table {
        header: Seq<Seq<char>>,
        alignments: Seq<TableAlignment>,
        rows: Seq<Seq<Seq<char>>>,
    },
    HorizontalRule,
}

/// The model of a list item.
pub struct ItemModel {
    pub checked: Option<bool>,
    pub blocks: Seq<BlockModel>,
}

/// The texts held by a vector of strings.
pub open spec fn strings_model(v: Seq<String>) -> Seq<Seq<char>> {
    Seq::new(v.len(), |i: int| v[i]@)
}

/// The texts held by table rows.
pub open spec fn rows_model(v: Seq<Vec<String>>) -> Seq<Seq<Seq<char>>> {
    Seq::new(v.len(), |i: int| strings_model(v[i]@))
}

pub open spec fn block_model(b: Block) -> BlockModel
    decreases b,
{
    match b {
        Block::Heading { level, content } => BlockModel::Heading { level, content: content@ },
        Block::Paragraph(content) => BlockModel::Paragraph(content@),
        Block::CodeFence { language, content } => BlockModel::CodeFence {
            language: match language {
                Some(l) => Some(l@),
                None => None,
            },
            content: content@,
        },
        Block::List { ordered, start, items } => BlockModel::List {
            ordered,
            start,
            items: items_model(items@),
        },
        Block::BlockQuote(blocks) => BlockModel::BlockQuote(blocks_model(blocks@)),
        Block::Table { header, alignments, rows } => BlockModel::Table {
            header: strings_model(header@),
            alignments: alignments@,
            rows: rows_model(rows@),
        },
        Block::HorizontalRule => BlockModel::HorizontalRule,
    }
}

pub open spec fn blocks_model(bs: Seq<Block>) -> Seq<BlockModel>
    decreases bs,
{
    if bs.len() == 0 {
        Seq::empty()
    } else {
        blocks_model(bs.drop_last()).push(block_model(bs.last()))
    }
}

pub open spec fn item_model(it: ListItem) -> ItemModel
    decreases it,
{
    ItemModel { checked: it.checked, blocks: blocks_model(it.blocks@) }
}

pub open spec fn items_model(its: Seq<ListItem>) -> Seq<ItemModel>
    decreases its,
{
    if its.len() == 0 {
        Seq::empty()
    } else {
        items_model(its.drop_last()).push(item_model(its.last()))
    }
}

impl Document {
    /// The model of the document: the models of its blocks.
    pub open spec fn model(&self) -> Seq<BlockModel> {
        blocks_model(self.blocks@)
    }
}

pub proof fn lemma_blocks_model(bs: Seq<Block>)
    ensures
        blocks_model(bs).len() == bs.len(),
        forall|i: int| 0 <= i < bs.len() ==> #[trigger] blocks_model(bs)[i] == block_model(bs[i]),
    decreases bs.len(),
{
    if bs.len() > 0 {
        lemma_blocks_model(bs.drop_last());
    }
}

pub proof fn lemma_items_model(its: Seq<ListItem>)
    ensures
        items_model(its).len() == its.len(),
        forall|i: int| 0 <= i < its.len() ==> #[trigger] items_model(its)[i] == item_model(its[i]),
    decreases its.len(),
{
    if its.len() > 0 {
        lemma_items_model(its.drop_last());
    }
}


// ---------------------------------------------------------------------------
// Copies
// ---------------------------------------------------------------------------

fn clone_strings(v: &Vec<String>) -> (r: Vec<String>)
    ensures
        strings_model(r@) == strings_model(v@),
{
    let mut r: Vec<String> = Vec::new();
    let mut i: usize = 0;
    while i < v.len()
        invariant
            i <= v.len(),
            r@.len() == i,
            forall|j: int| 0 <= j < i ==> #[trigger] r@[j]@ == v@[j]@,
        decreases v.len() - i,
    {
        r.push(v[i].clone());
        i += 1;
    }
    assert(strings_model(r@) =~= strings_model(v@));
    r
}

fn clone_rows(v: &Vec<Vec<String>>) -> (r: Vec<Vec<String>>)
    ensures
        rows_model(r@) == rows_model(v@),
{
    let mut r: Vec<Vec<String>> = Vec::new();
    let mut i: usize = 0;
    while i < v.len()
        invariant
            i <= v.len(),
            r@.len() == i,
            forall|j: int| 0 <= j < i ==> strings_model(#[trigger] r@[j]@) == strings_model(v@[j]@),
        decreases v.len() - i,
    {
        r.push(clone_strings(&v[i]));
        i += 1;
    }
    assert(rows_model(r@) =~= rows_model(v@));
    r
}

fn clone_blocks(v: &Vec<Block>) -> (r: Vec<Block>)
    ensures
        blocks_model(r@) == blocks_model(v@),
    decreases v@, 0nat,
{
    let mut r: Vec<Block> = Vec::new();
    let mut i: usize = 0;
    while i < v.len()
        invariant
            i <= v.len(),
            blocks_model(r@) == blocks_model(v@.take(i as int)),
        decreases v.len() - i,
    {
        assert(decreases_to!(v@ => v@[i as int]));
        let ghost before = r@;
        r.push(v[i].clone());
        assert(r@.drop_last() =~= before);
        assert(v@.take(i + 1).drop_last() =~= v@.take(i as int));
        i += 1;
    }
    assert(v@.take(i as int) =~= v@);
    r
}

fn clone_items(v: &Vec<ListItem>) -> (r: Vec<ListItem>)
    ensures
        items_model(r@) == items_model(v@),
    decreases v@, 0nat,
{
    let mut r: Vec<ListItem> = Vec::new();
    let mut i: usize = 0;
    while i < v.len()
        invariant
            i <= v.len(),
            items_model(r@) == items_model(v@.take(i as int)),
        decreases v.len() - i,
    {
        assert(decreases_to!(v@ => v@[i as int]));
        let ghost before = r@;
        r.push(v[i].clone());
        assert(r@.drop_last() =~= before);
        assert(v@.take(i + 1).drop_last() =~= v@.take(i as int));
        i += 1;
    }
    assert(v@.take(i as int) =~= v@);
    r
}

impl Clone for Block {
    fn clone(&self) -> (r: Self)
        ensures
            block_model(r) == block_model(*self),
        decreases *self, 1nat,
    {
        match self {
            Block::Heading { level, content } => Block::Heading { level: *level, content: content.clone() },
            Block::Paragraph(content) => Block::Paragraph(content.clone()),
            Block::CodeFence { language, content } => Block::CodeFence {
                language: match language {
                    Some(l) => Some(l.clone()),
                    None => None,
                },
                content: content.clone(),
            },
            Block::List { ordered, start, items } => Block::List {
                ordered: *ordered,
                start: *start,
                items: clone_items(items),
            },
            Block::BlockQuote(blocks) => Block::BlockQuote(clone_blocks(blocks)),
            Block::Table { header, alignments, rows } => Block::Table {
                header: clone_strings(header),
                alignments: alignments.clone(),
                rows: clone_rows(rows),
            },
            Block::HorizontalRule => Block::HorizontalRule,
        }
    }
}

impl Clone for ListItem {
    fn clone(&self) -> (r: Self)
        ensures
            item_model(r) == item_model(*self),
        decreases *self, 1nat,
    {
        ListItem { checked: self.checked, blocks: clone_blocks(&self.blocks) }
    }
}

impl Clone for Document {
    fn clone(&self) -> (r: Self)
        ensures
            r.model() == self.model(),
    {
        Document { blocks: clone_blocks(&self.blocks) }
    }
}

} // verus!
