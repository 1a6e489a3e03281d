//! What parsing means, as functions on byte sequences.
//!
//! A [`Draft`] is a template under construction: the blocks so far, the
//! capacity hint, and the stack of sections that are still open. Each tag
//! takes a draft to the next one ([`build`]); [`run`] does so for every tag
//! of a source, from left to right, and [`parse_spec`] starts it on the empty
//! draft.
//!
//! Partials come from outside. The model takes them as `answers`: the
//! `k`-th partial tag of a run gets `answers(k)`.

use crate::block::{BlockView, Tag};
use crate::error::{Error, ErrorView};
use crate::hash::spec_hash;
use crate::lexer::{
    find_open, lemma_find_open, lemma_scan_body_bounds, opens_at, scan_body, sigil_at, Body,
};
use crate::stack::MAX_DEPTH;
use vstd::prelude::*;

verus! {

/// A count of children as a block holds it: the number, or the largest
/// `u32` where the number is larger.
pub open spec fn clip32(n: int) -> u32 {
    if n > u32::MAX {
        u32::MAX
    } else if n < 0 {
        0
    } else {
        n as u32
    }
}

/// A capacity hint as a template holds it: the number, or the largest
/// `u64` where the number is larger.
pub open spec fn clip64(n: int) -> u64 {
    if n > u64::MAX {
        u64::MAX
    } else if n < 0 {
        0
    } else {
        n as u64
    }
}

/// The length of all literal text in a run of blocks.
pub open spec fn total_html(blocks: Seq<BlockView>) -> nat
    decreases blocks.len(),
{
    if blocks.len() == 0 {
        0
    } else {
        total_html(blocks.drop_last()) + blocks.last().html.len()
    }
}

/// All literal text of a run of blocks, in order.
pub open spec fn concat_html(blocks: Seq<BlockView>) -> Seq<u8>
    decreases blocks.len(),
{
    if blocks.len() == 0 {
        Seq::empty()
    } else {
        concat_html(blocks.drop_last()) + blocks.last().html
    }
}

/// A parsed template as the contracts see it.
pub struct TemplateView {
    pub blocks: Seq<BlockView>,
    pub capacity_hint: u64,
}

/// A block that ends the subtree of an opener: the closing tag of a
/// section, or the variable at the end of a dotted name.
pub open spec fn ends_subtree(opener: Tag, end: Tag) -> bool {
    end == Tag::Closing || (opener == Tag::Section && end.is_variable())
}

/// The opener at `i` has its subtree: `children` blocks follow it, and the
/// last of them ends the subtree. Where the subtree is too long for the
/// count, the count stands at the largest `u32` and says only that so many
/// blocks follow.
pub open spec fn settled(blocks: Seq<BlockView>, i: int) -> bool {
    let c = blocks[i].children as int;
    &&& c >= 1
    &&& i + c < blocks.len()
    &&& c < u32::MAX ==> ends_subtree(blocks[i].tag, blocks[i + c].tag)
}

/// What holds of every block by itself: a named block has the hash of its
/// name, another has no name and hash zero, and only openers have children.
pub open spec fn block_ok(b: BlockView) -> bool {
    &&& b.tag.is_named() ==> b.hash == spec_hash(b.name)
    &&& !b.tag.is_named() ==> b.name.len() == 0 && b.hash == 0
    &&& !b.tag.is_opener() ==> b.children == 0
}

impl TemplateView {
    /// The template without blocks.
    pub open spec fn empty() -> TemplateView {
        TemplateView { blocks: Seq::empty(), capacity_hint: 0 }
    }

    /// What holds of every parsed template: the hint covers the literal
    /// text, as far as a `u64` can; every block is well-formed; every opener
    /// has its subtree.
    pub open spec fn well_formed(self) -> bool {
        &&& self.capacity_hint >= clip64(total_html(self.blocks) as int)
        &&& forall|i: int| 0 <= i < self.blocks.len() ==> block_ok(#[trigger] self.blocks[i])
        &&& forall|i: int|
            0 <= i < self.blocks.len() && (#[trigger] self.blocks[i]).tag.is_opener() ==> settled(
                self.blocks,
                i,
            )
    }

    /// This template with another one behind it.
    pub open spec fn extended(self, more: TemplateView) -> TemplateView {
        TemplateView {
            blocks: self.blocks + more.blocks,
            capacity_hint: clip64(self.capacity_hint + more.capacity_hint),
        }
    }
}

/// What a resolver said when it was asked for a partial.
pub enum Answer {
    /// The partial's template.
    Found(TemplateView),
    /// The resolver's error.
    Failed(ErrorView),
}

impl Answer {
    /// A template that was found is a parsed template.
    pub open spec fn well_formed(self) -> bool {
        match self {
            Answer::Found(template) => template.well_formed(),
            Answer::Failed(_) => true,
        }
    }
}

/// The blocks of a tag with one name or more: one block for each name, the
/// literal text in the first, the tag's own kind in the last and `Section`
/// in those before it. With `counted`, each block counts those behind it.
pub open spec fn chain(html: Seq<u8>, names: Seq<Seq<u8>>, tag: Tag, counted: bool) -> Seq<
    BlockView,
> {
    Seq::new(
        names.len(),
        |i: int|
            BlockView {
                html: if i == 0 {
                    html
                } else {
                    Seq::empty()
                },
                name: names[i],
                hash: spec_hash(names[i]),
                tag: if i + 1 == names.len() {
                    tag
                } else {
                    Tag::Section
                },
                children: if counted {
                    clip32(names.len() - 1 - i)
                } else {
                    0
                },
            },
    )
}

/// A template under construction.
pub struct Draft {
    /// The blocks so far.
    pub blocks: Seq<BlockView>,
    /// The capacity hint so far.
    pub capacity_hint: u64,
    /// The indices of the sections that are open, the innermost last.
    pub stack: Seq<int>,
}

impl Draft {
    /// The draft to start from.
    pub open spec fn empty() -> Draft {
        Draft { blocks: Seq::empty(), capacity_hint: 0, stack: Seq::empty() }
    }

    /// The draft with `n` more bytes counted in the hint.
    pub open spec fn hinted(self, n: int) -> Draft {
        Draft { capacity_hint: clip64(self.capacity_hint + n), ..self }
    }

    /// The draft with one more block.
    pub open spec fn pushed(self, block: BlockView) -> Draft {
        Draft { blocks: self.blocks.push(block), ..self }
    }

    /// The draft behind a variable tag.
    pub open spec fn variable(self, html: Seq<u8>, names: Seq<Seq<u8>>, tag: Tag) -> Draft {
        Draft { blocks: self.blocks + chain(html, names, tag, true), ..self }
    }

    /// The draft behind a tag that opens sections: every block of the tag
    /// goes onto the stack.
    pub open spec fn opened(self, html: Seq<u8>, names: Seq<Seq<u8>>, tag: Tag) -> Draft {
        Draft {
            blocks: self.blocks + chain(html, names, tag, false),
            stack: self.stack + Seq::new(names.len(), |i: int| self.blocks.len() + i),
            ..self
        }
    }

    /// Closes the innermost open section under `name`, at the closing block
    /// with index `tail`.
    pub open spec fn closed_one(self, name: Seq<u8>, tail: int) -> Result<Draft, ErrorView> {
        if self.stack.len() == 0 {
            Err(ErrorView::UnopenedSection(name))
        } else {
            let head = self.stack.last();
            let opener = self.blocks[head];
            if opener.hash != spec_hash(name) {
                Err(ErrorView::UnclosedSection(opener.name))
            } else {
                Ok(
                    Draft {
                        blocks: self.blocks.update(
                            head,
                            opener.with_children(clip32(tail - head)),
                        ),
                        stack: self.stack.drop_last(),
                        ..self
                    },
                )
            }
        }
    }

    /// Closes one section for each name, the innermost first.
    pub open spec fn closed_all(self, names: Seq<Seq<u8>>, tail: int) -> Result<Draft, ErrorView>
        decreases names.len(),
    {
        if names.len() == 0 {
            Ok(self)
        } else {
            match self.closed_one(names.first(), tail) {
                Ok(next) => next.closed_all(names.drop_first(), tail),
                Err(e) => Err(e),
            }
        }
    }

    /// The draft behind a partial tag whose partial was found.
    pub open spec fn inlined(self, html: Seq<u8>, partial: TemplateView) -> Draft {
        Draft {
            blocks: self.blocks.push(BlockView::nameless(html, Tag::Partial)) + partial.blocks,
            capacity_hint: clip64(self.capacity_hint + partial.capacity_hint),
            ..self
        }
    }

    /// The draft as a template.
    pub open spec fn template(self) -> TemplateView {
        TemplateView { blocks: self.blocks, capacity_hint: self.capacity_hint }
    }
}

/// How many sections a tag that opens sections tries to open before it is
/// known to be broken: all of them when the tag closes, all but the last
/// when it breaks off.
pub open spec fn opened_before_end(body: Body) -> int {
    if body.closed {
        body.names.len() as int
    } else {
        body.names.len() - 1
    }
}

/// What a tag does to a draft. `html` is the literal text in front of the
/// tag, `body` its inside, `answer` what the resolver said if the tag is a
/// partial.
pub open spec fn build(draft: Draft, html: Seq<u8>, tag: Tag, body: Body, answer: Answer) -> Result<
    Draft,
    ErrorView,
> {
    let draft = draft.hinted(html.len() as int);
    match tag {
        Tag::Escaped | Tag::Unescaped => {
            if body.names.len() == 0 || !body.closed {
                Err(ErrorView::UnclosedTag)
            } else {
                Ok(draft.variable(html, body.names, tag))
            }
        },
        Tag::Section | Tag::Inverse => {
            if body.names.len() == 0 {
                Err(ErrorView::UnclosedTag)
            } else if draft.stack.len() + opened_before_end(body) > MAX_DEPTH {
                Err(ErrorView::NestingOverflow)
            } else if !body.closed {
                Err(ErrorView::UnclosedTag)
            } else {
                Ok(draft.opened(html, body.names, tag))
            }
        },
        Tag::Closing => {
            if body.names.len() == 0 {
                Err(ErrorView::UnclosedTag)
            } else {
                match draft.pushed(BlockView::nameless(html, Tag::Closing)).closed_all(
                    body.names,
                    draft.blocks.len() as int,
                ) {
                    Err(e) => Err(e),
                    Ok(next) => if !body.closed {
                        Err(ErrorView::UnclosedTag)
                    } else {
                        Ok(next)
                    },
                }
            }
        },
        Tag::Partial => {
            if body.names.len() != 1 || !body.closed {
                Err(ErrorView::UnclosedTag)
            } else {
                match answer {
                    Answer::Failed(e) => Err(e),
                    Answer::Found(partial) => Ok(draft.inlined(html, partial)),
                }
            }
        },
        Tag::Comment => {
            if !body.closed {
                Err(ErrorView::UnclosedTag)
            } else {
                Ok(draft.pushed(BlockView::nameless(html, Tag::Comment)))
            }
        },
    }
}

/// Whether a tag asks the resolver: a partial tag with one name that
/// closes.
pub open spec fn asks(tag: Tag, body: Body) -> bool {
    tag == Tag::Partial && body.names.len() == 1 && body.closed
}

/// A parse on its way through a source.
pub struct Progress {
    /// What was built so far.
    pub draft: Draft,
    /// How many partials were asked for.
    pub asked: nat,
    /// Where the text that is not yet in a block begins.
    pub pos: int,
}

impl Progress {
    /// The start of a parse.
    pub open spec fn start() -> Progress {
        Progress { draft: Draft::empty(), asked: 0, pos: 0 }
    }
}

/// Whether the tag that starts at `start` asks the resolver.
pub open spec fn tag_asks(s: Seq<u8>, start: int) -> bool {
    let sigil = sigil_at(s, start);
    asks(sigil.tag, scan_body(s, start + sigil.len, sigil.braces))
}

/// Where the tag that starts at `start` ends, if it closes.
pub open spec fn tag_end(s: Seq<u8>, start: int) -> int {
    let sigil = sigil_at(s, start);
    scan_body(s, start + sigil.len, sigil.braces).at + sigil.braces.count()
}

/// What the tag that starts at `start` does to a draft, with the text
/// since `last` in front of it.
pub open spec fn tag_built(
    s: Seq<u8>,
    draft: Draft,
    last: int,
    start: int,
    answer: Answer,
) -> Result<Draft, ErrorView> {
    let sigil = sigil_at(s, start);
    build(
        draft,
        s.subrange(last, start),
        sigil.tag,
        scan_body(s, start + sigil.len, sigil.braces),
        answer,
    )
}

/// One tag of a parse: the tag that starts at `start`, with the text since
/// `progress.pos` in front of it.
pub open spec fn step(
    s: Seq<u8>,
    progress: Progress,
    start: int,
    answers: spec_fn(nat) -> Answer,
) -> Result<Progress, ErrorView> {
    match tag_built(s, progress.draft, progress.pos, start, answers(progress.asked)) {
        Err(e) => Err(e),
        Ok(draft) => Ok(
            Progress {
                draft,
                asked: if tag_asks(s, start) {
                    progress.asked + 1
                } else {
                    progress.asked
                },
                pos: tag_end(s, start),
            },
        ),
    }
}

/// The rest of a parse: every tag from `progress.pos` on, then the check
/// that no section is left open.
pub open spec fn run(s: Seq<u8>, progress: Progress, answers: spec_fn(nat) -> Answer) -> Result<
    Progress,
    ErrorView,
>
    decreases s.len() - progress.pos,
    via run_decreases
{
    let start = find_open(s, progress.pos);
    if progress.pos < 0 || start >= s.len() {
        if progress.draft.stack.len() > 0 {
            Err(
                ErrorView::UnclosedSection(
                    progress.draft.blocks[progress.draft.stack.last()].name,
                ),
            )
        } else {
            Ok(progress)
        }
    } else {
        match step(s, progress, start, answers) {
            Err(e) => Err(e),
            Ok(next) => run(s, next, answers),
        }
    }
}

#[via_fn]
proof fn run_decreases(s: Seq<u8>, progress: Progress, answers: spec_fn(nat) -> Answer) {
    let start = find_open(s, progress.pos);
    if !(progress.pos < 0 || start >= s.len()) {
        lemma_find_open(s, progress.pos);
        lemma_step_advances(s, progress, start, answers);
    }
}

/// A tag that was built ends behind where it starts, inside the source.
pub proof fn lemma_step_advances(
    s: Seq<u8>,
    progress: Progress,
    start: int,
    answers: spec_fn(nat) -> Answer,
)
    requires
        0 <= progress.pos <= start,
        opens_at(s, start),
    ensures
        match step(s, progress, start, answers) {
            Ok(next) => start + 4 <= next.pos <= s.len(),
            Err(_) => true,
        },
{
    let sigil = sigil_at(s, start);
    lemma_scan_body_bounds(s, start + sigil.len, sigil.braces);
}

/// What parsing `s` gives when the resolver answers with `answers`: the
/// blocks, the capacity hint and, in `pos`, where the text behind the last
/// tag begins; or the error.
pub open spec fn parse_spec(s: Seq<u8>, answers: spec_fn(nat) -> Answer) -> Result<
    Progress,
    ErrorView,
> {
    run(s, Progress::start(), answers)
}

/// Every template that the resolver found is a parsed template.
pub open spec fn answers_ok(answers: spec_fn(nat) -> Answer) -> bool {
    forall|k: nat| (#[trigger] answers(k)).well_formed()
}

/// The first answers of `answers` are those in `seen`.
pub open spec fn follows(answers: spec_fn(nat) -> Answer, seen: Seq<Answer>) -> bool {
    forall|k: nat| k < seen.len() ==> #[trigger] answers(k) == seen[k as int]
}

/// The answers in `seen`, and failures behind them.
pub open spec fn answers_from(seen: Seq<Answer>) -> spec_fn(nat) -> Answer {
    |k: nat|
        if k < seen.len() {
            seen[k as int]
        } else {
            Answer::Failed(ErrorView::UnclosedTag)
        }
}

/// No tag from `from` on asks the resolver.
pub open spec fn asks_nothing(s: Seq<u8>, from: int) -> bool
    decreases s.len() - from,
    via asks_nothing_decreases
{
    let start = find_open(s, from);
    if from < 0 || start >= s.len() {
        true
    } else {
        let sigil = sigil_at(s, start);
        let body = scan_body(s, start + sigil.len, sigil.braces);
        !asks(sigil.tag, body) && (body.closed ==> asks_nothing(s, tag_end(s, start)))
    }
}

#[via_fn]
proof fn asks_nothing_decreases(s: Seq<u8>, from: int) {
    let start = find_open(s, from);
    if !(from < 0 || start >= s.len()) {
        lemma_find_open(s, from);
        let sigil = sigil_at(s, start);
        lemma_scan_body_bounds(s, start + sigil.len, sigil.braces);
    }
}

/// What a parse of `s` into a template leaves behind, when the resolver
/// answered with `answers`: on success the template has the new blocks
/// behind its own, the new hint added to its own, and the result is where
/// the text behind the last tag begins; on failure the result is the error
/// and the template is as it was.
pub open spec fn parsed(
    before: TemplateView,
    s: Seq<u8>,
    answers: spec_fn(nat) -> Answer,
    after: TemplateView,
    r: Result<usize, Error>,
) -> bool {
    match parse_spec(s, answers) {
        Ok(end) => r is Ok && r->Ok_0 == end.pos && after == before.extended(
            end.draft.template(),
        ),
        Err(e) => r is Err && r->Err_0@ == e && after == before,
    }
}

/// Only a partial tag that asks the resolver depends on the answer.
pub proof fn lemma_build_without_answer(
    draft: Draft,
    html: Seq<u8>,
    tag: Tag,
    body: Body,
    a: Answer,
    b: Answer,
)
    requires
        !asks(tag, body),
    ensures
        build(draft, html, tag, body, a) == build(draft, html, tag, body, b),
{
}

/// Where no tag is left, a parse ends: with an error if a section is open,
/// else with what it has built.
pub proof fn lemma_run_end(s: Seq<u8>, progress: Progress, answers: spec_fn(nat) -> Answer)
    requires
        find_open(s, progress.pos) >= s.len(),
    ensures
        run(s, progress, answers) == if progress.draft.stack.len() > 0 {
            Err::<Progress, ErrorView>(
                ErrorView::UnclosedSection(
                    progress.draft.blocks[progress.draft.stack.last()].name,
                ),
            )
        } else {
            Ok::<Progress, ErrorView>(progress)
        },
{
}

/// Where a tag is left, a parse takes it and goes on behind it, with the
/// answer `said` if the tag asks the resolver and `answers` begins with what
/// was `seen` before and `said`.
pub proof fn lemma_run_tag(
    s: Seq<u8>,
    progress: Progress,
    seen: Seq<Answer>,
    said: Answer,
    answers: spec_fn(nat) -> Answer,
)
    requires
        0 <= progress.pos,
        find_open(s, progress.pos) < s.len(),
        progress.asked == seen.len(),
        tag_asks(s, find_open(s, progress.pos)) ==> follows(answers, seen.push(said)),
    ensures
        run(s, progress, answers) == match tag_built(
            s,
            progress.draft,
            progress.pos,
            find_open(s, progress.pos),
            said,
        ) {
            Err(e) => Err::<Progress, ErrorView>(e),
            Ok(draft) => run(
                s,
                Progress {
                    draft,
                    asked: if tag_asks(s, find_open(s, progress.pos)) {
                        progress.asked + 1
                    } else {
                        progress.asked
                    },
                    pos: tag_end(s, find_open(s, progress.pos)),
                },
                answers,
            ),
        },
{
    let start = find_open(s, progress.pos);
    let sigil = sigil_at(s, start);
    let body = scan_body(s, start + sigil.len, sigil.braces);
    let html = s.subrange(progress.pos, start);
    if tag_asks(s, start) {
        assert(answers(seen.len()) == seen.push(said)[seen.len() as int]);
    } else {
        lemma_build_without_answer(
            progress.draft,
            html,
            sigil.tag,
            body,
            said,
            answers(progress.asked),
        );
    }
}

} // verus!
