//! Blocks, the elements of a parsed template.

use crate::hash::{hash_name, spec_hash};
use vstd::prelude::*;
use vstd::string::StringSliceAdditionalSpecFns;

verus! {

/// The kind of a tag, and so of the block it leaves behind.
#[derive(Clone, Copy, Debug, PartialEq, Eq, Structural)]
pub enum Tag {
    /// `{{name}}`: a variable, escaped when rendered.
    Escaped,
    /// `{{{name}}}` or `{{&name}}`: a variable rendered as it is.
    Unescaped,
    /// `{{#name}}`: opens a section.
    Section,
    /// `{{^name}}`: opens an inverted section.
    Inverse,
    /// `{{/name}}`: closes the innermost open section.
    Closing,
    /// `{{>name}}`: stands where another template is spliced in.
    Partial,
    /// `{{! text }}`: a comment.
    Comment,
}

impl Tag {
    /// The tags that open a subtree of blocks.
    pub open spec fn is_opener(self) -> bool {
        self == Tag::Section || self == Tag::Inverse
    }

    /// The tags that stand for a value to print.
    pub open spec fn is_variable(self) -> bool {
        self == Tag::Escaped || self == Tag::Unescaped
    }

    /// The tags whose block keeps a name: variables and openers.
    pub open spec fn is_named(self) -> bool {
        self.is_opener() || self.is_variable()
    }
}

/// One element of a parsed template: the literal text in front of a tag,
/// and the tag.
#[derive(Clone, Copy, Debug, PartialEq, Eq)]
pub struct Block<'tpl> {
    /// The literal text between the previous tag and this one.
    pub html: &'tpl str,
    /// The tag's name; empty for closing tags, partials and comments.
    pub name: &'tpl str,
    /// The hash of `name`; zero where there is no name.
    pub hash: u64,
    /// The kind of the tag.
    pub tag: Tag,
    /// For a block that opens a subtree, how many blocks after it belong to
    /// the subtree.
    pub children: u32,
}

/// A block as the contracts see it: text and name as bytes.
pub struct BlockView {
    pub html: Seq<u8>,
    pub name: Seq<u8>,
    pub hash: u64,
    pub tag: Tag,
    pub children: u32,
}

impl BlockView {
    /// The block of a named tag, with no children yet.
    pub open spec fn named(html: Seq<u8>, name: Seq<u8>, tag: Tag) -> BlockView {
        BlockView { html, name, hash: spec_hash(name), tag, children: 0 }
    }

    /// The block of a tag that keeps no name.
    pub open spec fn nameless(html: Seq<u8>, tag: Tag) -> BlockView {
        BlockView { html, name: Seq::empty(), hash: 0, tag, children: 0 }
    }

    /// The same block with another count of children.
    pub open spec fn with_children(self, children: u32) -> BlockView {
        BlockView { children, ..self }
    }
}

impl<'tpl> View for Block<'tpl> {
    type V = BlockView;

    open spec fn view(&self) -> BlockView {
        BlockView {
            html: self.html.spec_bytes(),
            name: self.name.spec_bytes(),
            hash: self.hash,
            tag: self.tag,
            children: self.children,
        }
    }
}

/// The views of a run of blocks, in order.
pub open spec fn views<'tpl>(blocks: Seq<Block<'tpl>>) -> Seq<BlockView> {
    Seq::new(blocks.len(), |i: int| blocks[i]@)
}

/// The empty string has no bytes.
pub proof fn lemma_empty_str_bytes(s: &str)
    requires
        s@.len() == 0,
    ensures
        s.spec_bytes() == Seq::<u8>::empty(),
{
    assert(vstd::utf8::encode_utf8(s@) =~= Seq::<u8>::empty());
}

impl<'tpl> Block<'tpl> {
    /// A block for a named tag: the hash is that of the name.
    pub fn new(html: &'tpl str, name: &'tpl str, tag: Tag) -> (block: Self)
        ensures
            block@ == BlockView::named(html.spec_bytes(), name.spec_bytes(), tag),
    {
        Block { html, name, hash: hash_name(name), tag, children: 0 }
    }

    /// A block for a tag that keeps no name.
    pub fn nameless(html: &'tpl str, tag: Tag) -> (block: Self)
        ensures
            block@ == BlockView::nameless(html.spec_bytes(), tag),
    {
        let name = "";
        proof {
            reveal_strlit("");
            lemma_empty_str_bytes(name);
        }
        Block { html, name, hash: 0, tag, children: 0 }
    }
}

} // verus!
