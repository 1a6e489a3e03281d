//! The block builder: it takes the tags of a source one by one and grows
//! the block list, keeping the sections that are open on a bounded stack.

use crate::block::{lemma_empty_str_bytes, views, Block, BlockView, Tag};
use crate::error::{Error, ErrorView};
use crate::hash::hash_name;
use crate::lexer::{name_bytes, TagBody};
use crate::model::{
    asks, build, chain, clip32, clip64, lemma_build_without_answer, Answer, Draft,
};
use crate::shape::{
    is_open, lemma_build_ok, lemma_closed_one_ok, lemma_finished_ok, lemma_inlined_ok,
    lemma_pushed_ok,
};
use crate::stack::{
    stack_indices, stack_items, stack_len, stack_new, stack_pop, stack_try_push, MAX_DEPTH,
};
use crate::template::{said, Partials, Template};
use arrayvec::ArrayVec;
use vstd::pervasive::VecAdditionalExecFns;
use vstd::prelude::*;
use vstd::string::StringSliceAdditionalSpecFns;

verus! {

/// A count of children as a block holds it.
fn clip_u32(n: usize) -> (c: u32)
    ensures
        c == clip32(n as int),
{
    if n > u32::MAX as usize {
        u32::MAX
    } else {
        n as u32
    }
}

/// The string without text.
fn no_text() -> (s: &'static str)
    ensures
        s.spec_bytes() == Seq::<u8>::empty(),
{
    let s = "";
    proof {
        reveal_strlit("");
        lemma_empty_str_bytes(s);
    }
    s
}

/// A template under construction.
#[derive(Debug)]
pub struct Builder<'tpl> {
    blocks: Vec<Block<'tpl>>,
    capacity_hint: u64,
    stack: ArrayVec<usize, 16>,
}

/// Whether what a step of the builder did is what the model says: on
/// success the builder holds the draft that the model gives, on failure the
/// error is the model's.
spec fn agrees(expected: Result<Draft, ErrorView>, after: Draft, r: Result<(), Error>) -> bool {
    match expected {
        Ok(draft) => r is Ok && after == draft,
        Err(e) => r is Err && r->Err_0@ == e,
    }
}

/// Whether what the builder gave back is what the model says: on success
/// the builder that holds the model's draft, on failure the model's error.
pub open spec fn built<'tpl>(
    expected: Result<Draft, ErrorView>,
    r: Result<Builder<'tpl>, Error>,
) -> bool {
    match expected {
        Ok(draft) => r is Ok && r->Ok_0@ == draft,
        Err(e) => r is Err && r->Err_0@ == e,
    }
}

impl<'tpl> View for Builder<'tpl> {
    type V = Draft;

    closed spec fn view(&self) -> Draft {
        Draft {
            blocks: views(self.blocks@),
            capacity_hint: self.capacity_hint,
            stack: stack_indices(self.stack),
        }
    }
}

impl<'tpl> Builder<'tpl> {
    /// A builder that holds nothing.
    pub fn new() -> (builder: Self)
        ensures
            builder@ == Draft::empty(),
            builder@.well_formed(),
    {
        let builder = Builder { blocks: Vec::new(), capacity_hint: 0, stack: stack_new() };
        proof {
            assert(builder@.blocks =~= Seq::<BlockView>::empty());
            assert(builder@.stack =~= Seq::<int>::empty());
        }
        builder
    }

    /// A builder that holds nothing, with room for `capacity` blocks.
    pub fn with_capacity(capacity: usize) -> (builder: Self)
        ensures
            builder@ == Draft::empty(),
            builder@.well_formed(),
    {
        let builder = Builder {
            blocks: Vec::with_capacity(capacity),
            capacity_hint: 0,
            stack: stack_new(),
        };
        proof {
            assert(builder@.blocks =~= Seq::<BlockView>::empty());
            assert(builder@.stack =~= Seq::<int>::empty());
        }
        builder
    }

    /// The vector in which the builder keeps its blocks.
    pub(crate) closed spec fn storage(self) -> Vec<Block<'tpl>> {
        self.blocks
    }

    /// A builder that holds nothing and grows its blocks in `storage`: the
    /// vector it was given is the one it keeps.
    pub(crate) fn in_storage(storage: Vec<Block<'tpl>>) -> (builder: Self)
        requires
            storage@.len() == 0,
        ensures
            builder@ == Draft::empty(),
            builder@.well_formed(),
            builder.storage() == storage,
    {
        let builder = Builder { blocks: storage, capacity_hint: 0, stack: stack_new() };
        proof {
            assert(builder@.blocks =~= Seq::<BlockView>::empty());
            assert(builder@.stack =~= Seq::<int>::empty());
        }
        builder
    }

    /// How many sections are open.
    pub fn depth(&self) -> (n: usize)
        ensures
            n == self@.stack.len(),
    {
        stack_len(&self.stack)
    }

    /// Counts literal text in the capacity hint.
    fn literal(&mut self, html: &'tpl str)
        ensures
            final(self)@ == old(self)@.hinted(html.spec_bytes().len() as int),
    {
        let n = html.as_bytes().len();
        self.capacity_hint = self.capacity_hint.saturating_add(n as u64);
    }

    /// Appends the blocks of a variable tag.
    fn variable(&mut self, html: &'tpl str, names: &Vec<&'tpl str>, tag: Tag)
        requires
            names@.len() > 0,
        ensures
            final(self)@ == old(self)@.variable(html.spec_bytes(), name_bytes(names@), tag),
    {
        let n = names.len();
        let ghost added = chain(html.spec_bytes(), name_bytes(names@), tag, true);
        let mut i: usize = 0;
        proof {
            assert(views(self.blocks@) + added.take(0) =~= views(self.blocks@));
        }
        while i < n
            invariant
                n == names@.len(),
                0 <= i <= n,
                added == chain(html.spec_bytes(), name_bytes(names@), tag, true),
                views(self.blocks@) == old(self)@.blocks + added.take(i as int),
                self.capacity_hint == old(self).capacity_hint,
                self.stack == old(self).stack,
            decreases n - i,
        {
            let text = if i == 0 {
                html
            } else {
                no_text()
            };
            let kind = if i + 1 == n {
                tag
            } else {
                Tag::Section
            };
            let mut block = Block::new(text, names[i], kind);
            block.children = clip_u32(n - 1 - i);
            let ghost before = views(self.blocks@);
            self.blocks.push(block);
            proof {
                assert(block@ == added[i as int]);
                assert(views(self.blocks@) =~= before.push(block@));
                assert(added.take(i + 1) =~= added.take(i as int).push(added[i as int]));
                assert(old(self)@.blocks + added.take(i + 1) =~= (old(self)@.blocks + added.take(
                    i as int,
                )).push(added[i as int]));
            }
            i += 1;
        }
        proof {
            assert(added.take(n as int) =~= added);
        }
    }

    /// Appends the blocks of a tag that opens sections and puts each of
    /// them on the stack. Fails, and changes nothing, where the stack has
    /// no room for all of them.
    fn open(&mut self, html: &'tpl str, names: &Vec<&'tpl str>, tag: Tag) -> (r: Result<(), Error>)
        requires
            names@.len() > 0,
            old(self)@.stack.len() <= MAX_DEPTH,
        ensures
            old(self)@.stack.len() + names@.len() > MAX_DEPTH ==> r is Err && r->Err_0@
                == ErrorView::NestingOverflow && final(self)@ == old(self)@,
            old(self)@.stack.len() + names@.len() <= MAX_DEPTH ==> r is Ok && final(self)@ == old(
                self,
            )@.opened(html.spec_bytes(), name_bytes(names@), tag),
    {
        let n = names.len();
        let depth = stack_len(&self.stack);
        if n > MAX_DEPTH - depth {
            return Err(Error::NestingOverflow);
        }
        let ghost added = chain(html.spec_bytes(), name_bytes(names@), tag, false);
        let ghost base = self.blocks@.len() as int;
        let ghost pushed = Seq::new(n as nat, |k: int| base + k);
        let mut i: usize = 0;
        proof {
            assert(views(self.blocks@) + added.take(0) =~= views(self.blocks@));
            assert(stack_indices(self.stack) + pushed.take(0) =~= stack_indices(self.stack));
        }
        while i < n
            invariant
                n == names@.len(),
                0 <= i <= n,
                depth + n <= MAX_DEPTH,
                depth == old(self)@.stack.len(),
                base == old(self)@.blocks.len(),
                added == chain(html.spec_bytes(), name_bytes(names@), tag, false),
                pushed == Seq::new(n as nat, |k: int| base + k),
                views(self.blocks@) == old(self)@.blocks + added.take(i as int),
                stack_indices(self.stack) == old(self)@.stack + pushed.take(i as int),
                self.capacity_hint == old(self).capacity_hint,
            decreases n - i,
        {
            let text = if i == 0 {
                html
            } else {
                no_text()
            };
            let kind = if i + 1 == n {
                tag
            } else {
                Tag::Section
            };
            let ghost stack_before = stack_indices(self.stack);
            assert(stack_items(self.stack).len() == stack_before.len());
            // The stack has room for all names, so this push goes through.
            match stack_try_push(&mut self.stack, self.blocks.len()) {
                Ok(()) => {},
                Err(_) => {
                    return Err(Error::NestingOverflow);
                },
            }
            let block = Block::new(text, names[i], kind);
            let ghost before = views(self.blocks@);
            self.blocks.push(block);
            proof {
                assert(block@ == added[i as int]);
                assert(views(self.blocks@) =~= before.push(block@));
                assert(added.take(i + 1) =~= added.take(i as int).push(added[i as int]));
                assert(old(self)@.blocks + added.take(i + 1) =~= (old(self)@.blocks + added.take(
                    i as int,
                )).push(added[i as int]));
                assert(stack_indices(self.stack) =~= stack_before.push(base + i));
                assert(pushed.take(i + 1) =~= pushed.take(i as int).push(base + i));
                assert(old(self)@.stack + pushed.take(i + 1) =~= (old(self)@.stack + pushed.take(
                    i as int,
                )).push(base + i));
            }
            i += 1;
        }
        proof {
            assert(added.take(n as int) =~= added);
            assert(pushed.take(n as int) =~= pushed);
        }
        Ok(())
    }

    /// Appends one block that keeps no name.
    fn push_nameless(&mut self, html: &'tpl str, tag: Tag)
        ensures
            final(self)@ == old(self)@.pushed(BlockView::nameless(html.spec_bytes(), tag)),
    {
        let block = Block::nameless(html, tag);
        let ghost before = views(self.blocks@);
        self.blocks.push(block);
        proof {
            assert(views(self.blocks@) =~= before.push(block@));
        }
    }

    /// Appends a closing block and closes one section for each name, the
    /// innermost first.
    fn close(&mut self, html: &'tpl str, names: &Vec<&'tpl str>) -> (r: Result<(), Error>)
        requires
            old(self)@.stack_ok(),
            old(self)@.blocks_ok(),
        ensures
            agrees(
                old(self)@.pushed(BlockView::nameless(html.spec_bytes(), Tag::Closing)).closed_all(
                    name_bytes(names@),
                    old(self)@.blocks.len() as int,
                ),
                final(self)@,
                r,
            ),
    {
        let tail = self.blocks.len();
        self.push_nameless(html, Tag::Closing);
        let ghost start = self@;
        let ghost all = name_bytes(names@);
        proof {
            lemma_pushed_ok(old(self)@, BlockView::nameless(html.spec_bytes(), Tag::Closing));
            assert forall|k: int| 0 <= k < start.stack.len() implies (#[trigger] start.stack[k])
                < tail by {
                assert(is_open(old(self)@.blocks, old(self)@.stack[k]));
            }
            assert(all.skip(0) =~= all);
        }
        let n = names.len();
        let mut i: usize = 0;
        while i < n
            invariant
                n == names@.len(),
                0 <= i <= n,
                all == name_bytes(names@),
                tail == old(self)@.blocks.len(),
                start == old(self)@.pushed(BlockView::nameless(html.spec_bytes(), Tag::Closing)),
                self@.stack_ok(),
                self@.blocks_ok(),
                self@.closing_at(tail as int),
                start.closed_all(all, tail as int) == self@.closed_all(
                    all.skip(i as int),
                    tail as int,
                ),
            decreases n - i,
        {
            let name = names[i];
            let ghost draft = self@;
            proof {
                assert(all.skip(i as int).first() == name.spec_bytes());
                assert(all.skip(i as int).drop_first() =~= all.skip(i + 1));
                lemma_closed_one_ok(draft, name.spec_bytes(), tail as int);
            }
            assert(stack_items(self.stack).len() == draft.stack.len());
            match stack_pop(&mut self.stack) {
                None => {
                    assert(draft.closed_one(name.spec_bytes(), tail as int) is Err);
                    return Err(Error::unopened_section(name));
                },
                Some(head) => {
                    proof {
                        assert(head == draft.stack.last());
                        assert(draft.stack.last() == draft.stack[draft.stack.len() - 1]);
                        assert(is_open(draft.blocks, draft.stack[draft.stack.len() - 1]));
                    }
                    let mut opener = self.blocks[head];
                    assert(opener@ == draft.blocks[head as int]);
                    if opener.hash != hash_name(name) {
                        assert(draft.closed_one(name.spec_bytes(), tail as int) is Err);
                        return Err(Error::unclosed_section(opener.name));
                    }
                    opener.children = clip_u32(tail - head);
                    self.blocks.set(head, opener);
                    proof {
                        assert(views(self.blocks@) =~= draft.blocks.update(
                            head as int,
                            draft.blocks[head as int].with_children(clip32(tail - head)),
                        ));
                        assert(stack_indices(self.stack) =~= draft.stack.drop_last());
                    }
                },
            }
            i += 1;
        }
        proof {
            assert(all.skip(n as int) =~= Seq::<Seq<u8>>::empty());
        }
        Ok(())
    }

    /// Takes one tag that is no partial.
    fn tag(self, html: &'tpl str, tag: Tag, body: &TagBody<'tpl>) -> (r: Result<Self, Error>)
        requires
            self@.well_formed(),
            tag != Tag::Partial,
        ensures
            forall|answer: Answer|
                built(#[trigger] build(self@, html.spec_bytes(), tag, body@, answer), r),
    {
        let mut builder = self;
        builder.literal(html);
        let n = body.names.len();
        match tag {
            Tag::Escaped | Tag::Unescaped => {
                if n == 0 || !body.closed {
                    return Err(Error::UnclosedTag);
                }
                builder.variable(html, &body.names, tag);
                Ok(builder)
            },
            Tag::Section | Tag::Inverse => {
                if n == 0 {
                    return Err(Error::UnclosedTag);
                }
                if !body.closed {
                    if n - 1 > MAX_DEPTH - builder.depth() {
                        return Err(Error::NestingOverflow);
                    }
                    return Err(Error::UnclosedTag);
                }
                match builder.open(html, &body.names, tag) {
                    Err(e) => Err(e),
                    Ok(()) => Ok(builder),
                }
            },
            Tag::Closing => {
                if n == 0 {
                    return Err(Error::UnclosedTag);
                }
                match builder.close(html, &body.names) {
                    Err(e) => Err(e),
                    Ok(()) => {
                        if !body.closed {
                            return Err(Error::UnclosedTag);
                        }
                        Ok(builder)
                    },
                }
            },
            _ => {
                if !body.closed {
                    return Err(Error::UnclosedTag);
                }
                builder.push_nameless(html, Tag::Comment);
                Ok(builder)
            },
        }
    }

    /// Takes one tag: `html` is the literal text in front of it, `tag` its
    /// kind, `body` what the lexer read inside it. A partial tag with one
    /// name that closes asks `partials` for that name, and what comes back
    /// goes through [`Builder::partial`]. Gives the builder back with the
    /// tag's blocks in it, or the error that ends the parse.
    pub fn take<P: Partials<'tpl>>(
        self,
        html: &'tpl str,
        tag: Tag,
        body: &TagBody<'tpl>,
        partials: &mut P,
    ) -> (r: Result<Self, Error>)
        requires
            self@.well_formed(),
        ensures
            exists|answer: Answer|
                answer.well_formed() && #[trigger] built(
                    build(self@, html.spec_bytes(), tag, body@, answer),
                    r,
                ),
            !asks(tag, body@) ==> forall|answer: Answer|
                built(#[trigger] build(self@, html.spec_bytes(), tag, body@, answer), r),
            r is Ok ==> r->Ok_0@.well_formed(),
    {
        let ghost mut answer = Answer::Failed(ErrorView::UnclosedTag);
        let r = match tag {
            Tag::Partial => {
                if body.names.len() != 1 || !body.closed {
                    Err(Error::UnclosedTag)
                } else {
                    let found = partials.get_partial(body.names[0]);
                    proof {
                        answer = said(found);
                    }
                    self.partial(html, found)
                }
            },
            _ => self.tag(html, tag, body),
        };
        proof {
            lemma_build_ok(self@, html.spec_bytes(), tag, body@, answer);
            assert(built(build(self@, html.spec_bytes(), tag, body@, answer), r));
            if !asks(tag, body@) {
                assert forall|other: Answer|
                    built(
                        #[trigger] build(self@, html.spec_bytes(), tag, body@, other),
                        r,
                    ) by {
                    lemma_build_without_answer(
                        self@,
                        html.spec_bytes(),
                        tag,
                        body@,
                        answer,
                        other,
                    );
                }
            }
        }
        r
    }

    /// Takes a partial tag, with what the resolver said of its name: the
    /// partial's blocks go behind the tag's own block, and its capacity
    /// hint is added. The resolver's error is handed on.
    pub fn partial(self, html: &'tpl str, answer: Result<&Template<'tpl>, Error>) -> (r: Result<
        Self,
        Error,
    >)
        requires
            self@.well_formed(),
        ensures
            match answer {
                Ok(template) => r is Ok && template@.well_formed() && r->Ok_0@ == self@.hinted(
                    html.spec_bytes().len() as int,
                ).inlined(html.spec_bytes(), template@),
                Err(e) => r is Err && r->Err_0 == e,
            },
            r is Ok ==> r->Ok_0@.well_formed(),
    {
        match answer {
            Err(e) => Err(e),
            Ok(template) => {
                let more = template.blocks();
                proof {
                    lemma_inlined_ok(self@, html.spec_bytes(), template@);
                }
                let mut builder = self;
                builder.literal(html);
                builder.push_nameless(html, Tag::Partial);
                let ghost before = views(builder.blocks@);
                let mut i: usize = 0;
                proof {
                    assert(before + template@.blocks.take(0) =~= before);
                }
                while i < more.len()
                    invariant
                        0 <= i <= more@.len(),
                        views(more@) == template@.blocks,
                        views(builder.blocks@) == before + template@.blocks.take(i as int),
                        builder.capacity_hint == clip64(
                            self.capacity_hint + html.spec_bytes().len(),
                        ),
                        stack_indices(builder.stack) == self@.stack,
                    decreases more@.len() - i,
                {
                    let ghost so_far = views(builder.blocks@);
                    builder.blocks.push(more[i]);
                    proof {
                        assert(more@[i as int]@ == template@.blocks[i as int]);
                        assert(views(builder.blocks@) =~= so_far.push(template@.blocks[i as int]));
                        assert(template@.blocks.take(i + 1) =~= template@.blocks.take(
                            i as int,
                        ).push(template@.blocks[i as int]));
                        assert(before + template@.blocks.take(i + 1) =~= (before
                            + template@.blocks.take(i as int)).push(template@.blocks[i as int]));
                    }
                    i += 1;
                }
                proof {
                    assert(template@.blocks.take(more@.len() as int) =~= template@.blocks);
                }
                builder.capacity_hint = builder.capacity_hint.saturating_add(
                    template.capacity_hint(),
                );
                Ok(builder)
            },
        }
    }

    /// Ends the construction. A section that is still open is an error,
    /// under the name of the innermost one.
    pub fn finish(self) -> (r: Result<Template<'tpl>, Error>)
        requires
            self@.well_formed(),
        ensures
            match r {
                Ok(template) => self@.stack.len() == 0 && template@ == self@.template(),
                Err(e) => self@.stack.len() > 0 && e@ == ErrorView::UnclosedSection(
                    self@.blocks[self@.stack.last()].name,
                ),
            },
    {
        let mut builder = self;
        match stack_pop(&mut builder.stack) {
            Some(head) => {
                proof {
                    assert(self@.stack.last() == self@.stack[self@.stack.len() - 1]);
                    assert(is_open(self@.blocks, self@.stack[self@.stack.len() - 1]));
                }
                Err(Error::unclosed_section(builder.blocks[head].name))
            },
            None => {
                proof {
                    lemma_finished_ok(self@);
                }
                Ok(Template::from_parts(builder.blocks, builder.capacity_hint))
            },
        }
    }
}

} // verus!
