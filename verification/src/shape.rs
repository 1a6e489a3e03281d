//! What holds of a draft at every point of a parse, and why every tag keeps
//! it.

use crate::block::{BlockView, Tag};
use crate::lexer::Body;
use crate::model::{
    block_ok, build, chain, clip64, concat_html, settled, total_html, Answer, Draft, TemplateView,
};
use crate::stack::MAX_DEPTH;
use vstd::prelude::*;

verus! {

/// The block at `i` is an opener that waits for its closing tag.
pub open spec fn is_open(blocks: Seq<BlockView>, i: int) -> bool {
    0 <= i < blocks.len() && blocks[i].tag.is_opener() && blocks[i].children == 0
}

impl Draft {
    /// The hint covers the literal text, as far as a `u64` can.
    pub open spec fn hint_covers(self) -> bool {
        self.capacity_hint >= clip64(total_html(self.blocks) as int)
    }

    /// The stack is no deeper than allowed and holds, in rising order, the
    /// indices of openers that wait for their closing tags.
    pub open spec fn stack_ok(self) -> bool {
        &&& self.stack.len() <= MAX_DEPTH
        &&& forall|k: int|
            0 <= k < self.stack.len() ==> is_open(self.blocks, #[trigger] self.stack[k])
        &&& forall|k: int, l: int|
            0 <= k < l < self.stack.len() ==> (#[trigger] self.stack[k]) < (
            #[trigger] self.stack[l])
    }

    /// Every block is well-formed, and every opener has its subtree or is
    /// on the stack.
    pub open spec fn blocks_ok(self) -> bool {
        &&& forall|i: int| 0 <= i < self.blocks.len() ==> block_ok(#[trigger] self.blocks[i])
        &&& forall|i: int|
            0 <= i < self.blocks.len() && (#[trigger] self.blocks[i]).tag.is_opener() ==> settled(
                self.blocks,
                i,
            ) || self.stack.contains(i)
    }

    /// What holds of a draft at every point of a parse.
    pub open spec fn well_formed(self) -> bool {
        self.hint_covers() && self.stack_ok() && self.blocks_ok()
    }

    /// The block at `tail` is a closing block behind every open section.
    pub open spec fn closing_at(self, tail: int) -> bool {
        &&& 0 <= tail < self.blocks.len()
        &&& self.blocks[tail].tag == Tag::Closing
        &&& forall|k: int| 0 <= k < self.stack.len() ==> (#[trigger] self.stack[k]) < tail
    }
}

/// The literal text of two runs of blocks is as long as both together.
pub proof fn lemma_total_html_concat(a: Seq<BlockView>, b: Seq<BlockView>)
    ensures
        total_html(a + b) == total_html(a) + total_html(b),
    decreases b.len(),
{
    if b.len() == 0 {
        assert(a + b =~= a);
    } else {
        assert((a + b).drop_last() =~= a + b.drop_last());
        lemma_total_html_concat(a, b.drop_last());
    }
}

/// The literal text of two runs of blocks is the text of the first and
/// then that of the second.
pub proof fn lemma_concat_html_concat(a: Seq<BlockView>, b: Seq<BlockView>)
    ensures
        concat_html(a + b) == concat_html(a) + concat_html(b),
    decreases b.len(),
{
    if b.len() == 0 {
        assert(a + b =~= a);
        assert(concat_html(a) + concat_html(b) =~= concat_html(a));
    } else {
        assert((a + b).drop_last() =~= a + b.drop_last());
        lemma_concat_html_concat(a, b.drop_last());
        assert(concat_html(a) + concat_html(b) =~= (concat_html(a) + concat_html(b.drop_last()))
            + b.last().html);
    }
}

/// Only the first block of a run holds text: then the text of the run is
/// that of the first block.
pub proof fn lemma_html_in_first(blocks: Seq<BlockView>)
    requires
        blocks.len() > 0,
        forall|i: int| 0 < i < blocks.len() ==> (#[trigger] blocks[i]).html.len() == 0,
    ensures
        total_html(blocks) == blocks[0].html.len(),
        concat_html(blocks) == blocks[0].html,
    decreases blocks.len(),
{
    if blocks.len() == 1 {
        assert(blocks.drop_last().len() == 0);
        assert(total_html(blocks.drop_last()) == 0);
        assert(concat_html(blocks.drop_last()) =~= Seq::<u8>::empty());
        assert(concat_html(blocks) =~= blocks[0].html);
    } else {
        let front = blocks.drop_last();
        assert forall|i: int| 0 < i < front.len() implies (#[trigger] front[i]).html.len() == 0 by {
            assert(front[i] == blocks[i]);
        }
        lemma_html_in_first(front);
        assert(front[0] == blocks[0]);
        assert(blocks.last() == blocks[blocks.len() - 1]);
        assert(concat_html(blocks) =~= blocks[0].html);
    }
}

/// Two runs of blocks with the same text block by block have the same text.
pub proof fn lemma_same_html(a: Seq<BlockView>, b: Seq<BlockView>)
    requires
        a.len() == b.len(),
        forall|i: int| 0 <= i < a.len() ==> (#[trigger] a[i]).html == b[i].html,
    ensures
        total_html(a) == total_html(b),
        concat_html(a) == concat_html(b),
    decreases a.len(),
{
    if a.len() > 0 {
        assert forall|i: int| 0 <= i < a.drop_last().len() implies (#[trigger] a.drop_last()[i]).html
            == b.drop_last()[i].html by {
            assert(a.drop_last()[i] == a[i]);
        }
        lemma_same_html(a.drop_last(), b.drop_last());
        assert(a.last() == a[a.len() - 1]);
    }
}

/// The blocks of a tag hold the tag's literal text and no other.
pub proof fn lemma_chain_html(html: Seq<u8>, names: Seq<Seq<u8>>, tag: Tag, counted: bool)
    requires
        names.len() > 0,
    ensures
        total_html(chain(html, names, tag, counted)) == html.len(),
        concat_html(chain(html, names, tag, counted)) == html,
{
    lemma_html_in_first(chain(html, names, tag, counted));
}

/// A variable tag keeps a draft well-formed.
pub proof fn lemma_variable_ok(draft: Draft, html: Seq<u8>, names: Seq<Seq<u8>>, tag: Tag)
    requires
        draft.stack_ok(),
        draft.blocks_ok(),
        tag.is_variable(),
        names.len() > 0,
    ensures
        draft.variable(html, names, tag).stack_ok(),
        draft.variable(html, names, tag).blocks_ok(),
{
    let next = draft.variable(html, names, tag);
    let added = chain(html, names, tag, true);
    let base = draft.blocks.len() as int;
    assert forall|i: int| 0 <= i < next.blocks.len() implies block_ok(#[trigger] next.blocks[i]) by {
        if i < base {
            assert(next.blocks[i] == draft.blocks[i]);
        } else {
            assert(next.blocks[i] == added[i - base]);
        }
    }
    assert forall|i: int|
        0 <= i < next.blocks.len() && (#[trigger] next.blocks[i]).tag.is_opener() implies settled(
        next.blocks,
        i,
    ) || next.stack.contains(i) by {
        if i < base {
            assert(next.blocks[i] == draft.blocks[i]);
            if settled(draft.blocks, i) {
                let c = draft.blocks[i].children as int;
                if c != u32::MAX {
                    assert(next.blocks[i + c] == draft.blocks[i + c]);
                }
            }
        } else {
            let j = i - base;
            assert(next.blocks[i] == added[j]);
            let c = added[j].children as int;
            if c != u32::MAX {
                assert(c == names.len() - 1 - j);
                assert(next.blocks[i + c] == added[names.len() - 1]);
            }
        }
    }
    assert forall|k: int| 0 <= k < next.stack.len() implies is_open(
        next.blocks,
        #[trigger] next.stack[k],
    ) by {
        assert(is_open(draft.blocks, draft.stack[k]));
        assert(next.blocks[next.stack[k]] == draft.blocks[draft.stack[k]]);
    }
}

/// A tag that opens sections keeps a draft well-formed, where the stack
/// has room for them.
pub proof fn lemma_opened_ok(draft: Draft, html: Seq<u8>, names: Seq<Seq<u8>>, tag: Tag)
    requires
        draft.stack_ok(),
        draft.blocks_ok(),
        tag.is_opener(),
        names.len() > 0,
        draft.stack.len() + names.len() <= MAX_DEPTH,
    ensures
        draft.opened(html, names, tag).stack_ok(),
        draft.opened(html, names, tag).blocks_ok(),
{
    let next = draft.opened(html, names, tag);
    let added = chain(html, names, tag, false);
    let base = draft.blocks.len() as int;
    let depth = draft.stack.len() as int;
    assert forall|i: int| 0 <= i < next.blocks.len() implies block_ok(#[trigger] next.blocks[i]) by {
        if i < base {
            assert(next.blocks[i] == draft.blocks[i]);
        } else {
            assert(next.blocks[i] == added[i - base]);
        }
    }
    assert forall|i: int|
        0 <= i < next.blocks.len() && (#[trigger] next.blocks[i]).tag.is_opener() implies settled(
        next.blocks,
        i,
    ) || next.stack.contains(i) by {
        if i < base {
            assert(next.blocks[i] == draft.blocks[i]);
            if settled(draft.blocks, i) {
                let c = draft.blocks[i].children as int;
                if c != u32::MAX {
                    assert(next.blocks[i + c] == draft.blocks[i + c]);
                }
            } else {
                let k = choose|k: int| 0 <= k < draft.stack.len() && draft.stack[k] == i;
                assert(next.stack[k] == i);
            }
        } else {
            assert(next.stack[depth + (i - base)] == i);
        }
    }
    assert forall|k: int| 0 <= k < next.stack.len() implies is_open(
        next.blocks,
        #[trigger] next.stack[k],
    ) by {
        if k < depth {
            assert(is_open(draft.blocks, draft.stack[k]));
            assert(next.stack[k] == draft.stack[k]);
            assert(next.blocks[next.stack[k]] == draft.blocks[draft.stack[k]]);
        } else {
            assert(next.stack[k] == base + (k - depth));
            assert(next.blocks[next.stack[k]] == added[k - depth]);
        }
    }
    assert forall|k: int, l: int| 0 <= k < l < next.stack.len() implies (#[trigger] next.stack[k])
        < (#[trigger] next.stack[l]) by {
        if k < depth {
            assert(is_open(draft.blocks, draft.stack[k]));
        }
        if l < depth {
            assert(draft.stack[k] < draft.stack[l]);
        }
    }
}

/// One more block that opens nothing keeps a draft well-formed.
pub proof fn lemma_pushed_ok(draft: Draft, block: BlockView)
    requires
        draft.stack_ok(),
        draft.blocks_ok(),
        block_ok(block),
        !block.tag.is_opener(),
    ensures
        draft.pushed(block).stack_ok(),
        draft.pushed(block).blocks_ok(),
{
    let next = draft.pushed(block);
    let base = draft.blocks.len() as int;
    assert forall|i: int|
        0 <= i < next.blocks.len() && (#[trigger] next.blocks[i]).tag.is_opener() implies settled(
        next.blocks,
        i,
    ) || next.stack.contains(i) by {
        assert(next.blocks[i] == draft.blocks[i]);
        if settled(draft.blocks, i) {
            let c = draft.blocks[i].children as int;
            if c != u32::MAX {
                assert(next.blocks[i + c] == draft.blocks[i + c]);
            }
        }
    }
    assert forall|k: int| 0 <= k < next.stack.len() implies is_open(
        next.blocks,
        #[trigger] next.stack[k],
    ) by {
        assert(is_open(draft.blocks, draft.stack[k]));
    }
}

/// Closing the innermost section keeps a draft well-formed, and keeps the
/// closing block behind the sections that stay open.
pub proof fn lemma_closed_one_ok(draft: Draft, name: Seq<u8>, tail: int)
    requires
        draft.stack_ok(),
        draft.blocks_ok(),
        draft.closing_at(tail),
    ensures
        match draft.closed_one(name, tail) {
            Ok(next) => next.stack_ok() && next.blocks_ok() && next.closing_at(tail)
                && next.blocks.len() == draft.blocks.len() && next.stack == draft.stack.drop_last()
                && next.capacity_hint == draft.capacity_hint && total_html(next.blocks)
                == total_html(draft.blocks) && concat_html(next.blocks) == concat_html(
                draft.blocks,
            ),
            Err(_) => true,
        },
{
    if let Ok(next) = draft.closed_one(name, tail) {
        let depth = draft.stack.len() as int;
        let head = draft.stack.last();
        assert(head == draft.stack[depth - 1]);
        assert(is_open(draft.blocks, draft.stack[depth - 1]));
        assert(head < tail);
        assert forall|i: int| 0 <= i < next.blocks.len() implies block_ok(
            #[trigger] next.blocks[i],
        ) by {
            assert(block_ok(draft.blocks[i]));
        }
        assert forall|i: int|
            0 <= i < next.blocks.len() && (#[trigger] next.blocks[i]).tag.is_opener() implies settled(
            next.blocks,
            i,
        ) || next.stack.contains(i) by {
            if i == head {
                assert(next.blocks[tail] == draft.blocks[tail]);
            } else {
                assert(next.blocks[i] == draft.blocks[i]);
                assert(draft.blocks[i].tag.is_opener());
                if settled(draft.blocks, i) {
                    let c = draft.blocks[i].children as int;
                    if c != u32::MAX {
                        assert(next.blocks[i + c].tag == draft.blocks[i + c].tag);
                    }
                } else {
                    let k = choose|k: int| 0 <= k < draft.stack.len() && draft.stack[k] == i;
                    assert(k < depth - 1);
                    assert(next.stack[k] == i);
                }
            }
        }
        assert forall|k: int| 0 <= k < next.stack.len() implies is_open(
            next.blocks,
            #[trigger] next.stack[k],
        ) by {
            assert(next.stack[k] == draft.stack[k]);
            assert(is_open(draft.blocks, draft.stack[k]));
            assert(draft.stack[k] < draft.stack[depth - 1]);
        }
        assert forall|k: int, l: int| 0 <= k < l < next.stack.len() implies (
        #[trigger] next.stack[k]) < (#[trigger] next.stack[l]) by {
            assert(draft.stack[k] < draft.stack[l]);
        }
        assert forall|k: int| 0 <= k < next.stack.len() implies (#[trigger] next.stack[k])
            < tail by {
            assert(draft.stack[k] < tail);
        }
        lemma_same_html(next.blocks, draft.blocks);
    }
}

/// Closing one section for each name keeps a draft well-formed.
pub proof fn lemma_closed_all_ok(draft: Draft, names: Seq<Seq<u8>>, tail: int)
    requires
        draft.stack_ok(),
        draft.blocks_ok(),
        draft.closing_at(tail),
    ensures
        match draft.closed_all(names, tail) {
            Ok(next) => next.stack_ok() && next.blocks_ok() && next.closing_at(tail)
                && next.blocks.len() == draft.blocks.len() && next.capacity_hint
                == draft.capacity_hint && total_html(next.blocks) == total_html(draft.blocks)
                && concat_html(next.blocks) == concat_html(draft.blocks),
            Err(_) => true,
        },
    decreases names.len(),
{
    if names.len() > 0 {
        lemma_closed_one_ok(draft, names.first(), tail);
        if let Ok(next) = draft.closed_one(names.first(), tail) {
            lemma_closed_all_ok(next, names.drop_first(), tail);
        }
    }
}

/// The blocks of a parsed template behind a draft keep it well-formed.
pub proof fn lemma_appended_ok(draft: Draft, partial: TemplateView)
    requires
        draft.stack_ok(),
        draft.blocks_ok(),
        partial.well_formed(),
    ensures
        (Draft { blocks: draft.blocks + partial.blocks, ..draft }).stack_ok(),
        (Draft { blocks: draft.blocks + partial.blocks, ..draft }).blocks_ok(),
{
    let next = Draft { blocks: draft.blocks + partial.blocks, ..draft };
    let base = draft.blocks.len() as int;
    assert forall|i: int| 0 <= i < next.blocks.len() implies block_ok(#[trigger] next.blocks[i]) by {
        if i < base {
            assert(next.blocks[i] == draft.blocks[i]);
        } else {
            assert(next.blocks[i] == partial.blocks[i - base]);
        }
    }
    assert forall|i: int|
        0 <= i < next.blocks.len() && (#[trigger] next.blocks[i]).tag.is_opener() implies settled(
        next.blocks,
        i,
    ) || next.stack.contains(i) by {
        if i < base {
            assert(next.blocks[i] == draft.blocks[i]);
            if settled(draft.blocks, i) {
                let c = draft.blocks[i].children as int;
                if c != u32::MAX {
                    assert(next.blocks[i + c] == draft.blocks[i + c]);
                }
            }
        } else {
            let j = i - base;
            assert(next.blocks[i] == partial.blocks[j]);
            assert(settled(partial.blocks, j));
            let c = partial.blocks[j].children as int;
            if c != u32::MAX {
                assert(next.blocks[i + c] == partial.blocks[j + c]);
            }
        }
    }
    assert forall|k: int| 0 <= k < next.stack.len() implies is_open(
        next.blocks,
        #[trigger] next.stack[k],
    ) by {
        assert(is_open(draft.blocks, draft.stack[k]));
        assert(next.blocks[next.stack[k]] == draft.blocks[draft.stack[k]]);
    }
}

/// A partial behind its tag keeps a draft well-formed.
pub proof fn lemma_inlined_ok(draft: Draft, html: Seq<u8>, partial: TemplateView)
    requires
        draft.well_formed(),
        partial.well_formed(),
    ensures
        draft.hinted(html.len() as int).inlined(html, partial).well_formed(),
{
    let hinted = draft.hinted(html.len() as int);
    let block = BlockView::nameless(html, Tag::Partial);
    let pushed = hinted.pushed(block);
    lemma_pushed_ok(hinted, block);
    lemma_appended_ok(pushed, partial);
    assert(pushed.blocks.drop_last() =~= draft.blocks);
    lemma_total_html_concat(pushed.blocks, partial.blocks);
}

/// Every tag keeps a draft well-formed.
pub proof fn lemma_build_ok(draft: Draft, html: Seq<u8>, tag: Tag, body: Body, answer: Answer)
    requires
        draft.well_formed(),
        answer.well_formed(),
    ensures
        match build(draft, html, tag, body, answer) {
            Ok(next) => next.well_formed(),
            Err(_) => true,
        },
{
    let hinted = draft.hinted(html.len() as int);
    if let Ok(next) = build(draft, html, tag, body, answer) {
        match tag {
            Tag::Escaped | Tag::Unescaped => {
                lemma_variable_ok(hinted, html, body.names, tag);
                lemma_chain_html(html, body.names, tag, true);
                lemma_total_html_concat(draft.blocks, chain(html, body.names, tag, true));
            },
            Tag::Section | Tag::Inverse => {
                lemma_opened_ok(hinted, html, body.names, tag);
                lemma_chain_html(html, body.names, tag, false);
                lemma_total_html_concat(draft.blocks, chain(html, body.names, tag, false));
            },
            Tag::Closing => {
                let closing = BlockView::nameless(html, Tag::Closing);
                let pushed = hinted.pushed(closing);
                lemma_pushed_ok(hinted, closing);
                assert(pushed.closing_at(draft.blocks.len() as int)) by {
                    assert forall|k: int| 0 <= k < pushed.stack.len() implies (
                    #[trigger] pushed.stack[k]) < draft.blocks.len() by {
                        assert(is_open(draft.blocks, draft.stack[k]));
                    }
                }
                lemma_closed_all_ok(pushed, body.names, draft.blocks.len() as int);
                assert(pushed.blocks.drop_last() =~= draft.blocks);
            },
            Tag::Partial => {
                lemma_inlined_ok(draft, html, answer->Found_0);
            },
            Tag::Comment => {
                let block = BlockView::nameless(html, Tag::Comment);
                lemma_pushed_ok(hinted, block);
                assert(hinted.pushed(block).blocks.drop_last() =~= draft.blocks);
            },
        }
    }
}

/// A template behind another is a template again.
pub proof fn lemma_extended_ok(first: TemplateView, more: TemplateView)
    requires
        first.well_formed(),
        more.well_formed(),
    ensures
        first.extended(more).well_formed(),
{
    let draft = Draft { blocks: first.blocks, capacity_hint: first.capacity_hint, stack: Seq::empty() };
    assert forall|i: int|
        0 <= i < draft.blocks.len() && (#[trigger] draft.blocks[i]).tag.is_opener() implies settled(
        draft.blocks,
        i,
    ) || draft.stack.contains(i) by {}
    lemma_appended_ok(draft, more);
    lemma_total_html_concat(first.blocks, more.blocks);
    let next = first.extended(more);
    assert forall|i: int|
        0 <= i < next.blocks.len() && (#[trigger] next.blocks[i]).tag.is_opener() implies settled(
        next.blocks,
        i,
    ) by {
        let d = Draft { blocks: draft.blocks + more.blocks, ..draft };
        assert(d.blocks[i].tag.is_opener());
        assert(!d.stack.contains(i));
    }
}

/// A well-formed draft with nothing left open is a parsed template.
pub proof fn lemma_finished_ok(draft: Draft)
    requires
        draft.well_formed(),
        draft.stack.len() == 0,
    ensures
        draft.template().well_formed(),
{
    let t = draft.template();
    assert forall|i: int|
        0 <= i < t.blocks.len() && (#[trigger] t.blocks[i]).tag.is_opener() implies settled(
        t.blocks,
        i,
    ) by {
        assert(draft.blocks[i].tag.is_opener());
        assert(!draft.stack.contains(i));
    }
}

} // verus!
