//! Parsed templates, and the parser.

use crate::block::{views, Block, Tag};
use crate::builder::{built, Builder};
use crate::error::{Error, ErrorView};
use crate::laws::lemma_parse_without_partials;
use crate::lexer::{find_tag, lemma_find_open, lemma_scan_body_bounds, read_body, Opening};
use crate::model::{
    answers_from, answers_ok, asks_nothing, build, follows, lemma_run_end, lemma_run_tag,
    parse_spec, parsed, run, tag_asks, tag_built, tag_end, Answer, Draft, Progress, TemplateView,
};
use crate::shape::lemma_extended_ok;
use crate::text::{cut_point, lemma_cut_after_ascii, lemma_cut_before_ascii, lemma_str_bytes, slice};
use vstd::prelude::*;
use vstd::string::StringSliceAdditionalSpecFns;

verus! {

/// A parsed template: its blocks in source order, and a hint of how much
/// text rendering it will produce at least.
#[derive(Debug)]
pub struct Template<'tpl> {
    blocks: Vec<Block<'tpl>>,
    capacity_hint: u64,
}

impl<'tpl> View for Template<'tpl> {
    type V = TemplateView;

    closed spec fn view(&self) -> TemplateView {
        TemplateView { blocks: views(self.blocks@), capacity_hint: self.capacity_hint }
    }
}

impl<'tpl> Template<'tpl> {
    #[verifier::type_invariant]
    spec fn holds(self) -> bool {
        self@.well_formed()
    }

    /// A template from parts that are known to be well-formed.
    pub(crate) fn from_parts(blocks: Vec<Block<'tpl>>, capacity_hint: u64) -> (template: Self)
        requires
            (TemplateView { blocks: views(blocks@), capacity_hint }).well_formed(),
        ensures
            template@ == (TemplateView { blocks: views(blocks@), capacity_hint }),
    {
        Template { blocks, capacity_hint }
    }

    /// The template without blocks.
    pub fn new() -> (template: Self)
        ensures
            template@ == TemplateView::empty(),
    {
        let blocks: Vec<Block<'tpl>> = Vec::new();
        proof {
            assert(views(blocks@) =~= Seq::empty());
        }
        Template { blocks, capacity_hint: 0 }
    }

    /// The template without blocks, with room for `capacity` of them: a
    /// parse into it grows its blocks there.
    /// [`count_tags`](crate::lexer::count_tags) estimates how many a source
    /// will give.
    pub fn with_capacity(capacity: usize) -> (template: Self)
        ensures
            template@ == TemplateView::empty(),
    {
        let blocks: Vec<Block<'tpl>> = Vec::with_capacity(capacity);
        proof {
            assert(views(blocks@) =~= Seq::empty());
        }
        Template { blocks, capacity_hint: 0 }
    }

    /// The blocks, in source order.
    pub fn blocks(&self) -> (blocks: &[Block<'tpl>])
        ensures
            views(blocks@) == self@.blocks,
            self@.well_formed(),
    {
        proof {
            use_type_invariant(self);
        }
        self.blocks.as_slice()
    }

    /// The capacity hint.
    pub fn capacity_hint(&self) -> (hint: u64)
        ensures
            hint == self@.capacity_hint,
            self@.well_formed(),
    {
        proof {
            use_type_invariant(self);
        }
        self.capacity_hint
    }
}

/// Where partials come from.
pub trait Partials<'tpl> {
    /// Looks up the template of the partial called `name`.
    fn get_partial(&mut self, name: &'tpl str) -> Result<&Template<'tpl>, Error>;
}

/// What a resolver said, as the model sees it.
pub open spec fn said<'tpl>(answer: Result<&Template<'tpl>, Error>) -> Answer {
    match answer {
        Ok(template) => Answer::Found(template@),
        Err(e) => Answer::Failed(e@),
    }
}

/// What a parse of `s` from scratch gives, when the resolver answered with
/// `answers`.
spec fn parsed_fresh<'tpl>(
    s: Seq<u8>,
    answers: spec_fn(nat) -> Answer,
    r: Result<(Template<'tpl>, usize), Error>,
) -> bool {
    match parse_spec(s, answers) {
        Ok(end) => r is Ok && r->Ok_0.0@ == end.draft.template() && r->Ok_0.1 == end.pos,
        Err(e) => r is Err && r->Err_0@ == e,
    }
}

/// What taking the tag at `start` gives, when the resolver said `answer`:
/// the builder behind the tag and where the tag ends, or the error.
spec fn took_tag<'tpl>(
    s: Seq<u8>,
    before: Draft,
    last: int,
    start: int,
    answer: Answer,
    r: Result<(Builder<'tpl>, usize), Error>,
) -> bool {
    match tag_built(s, before, last, start, answer) {
        Ok(draft) => r is Ok && r->Ok_0.0@ == draft && r->Ok_0.1 == tag_end(s, start),
        Err(e) => r is Err && r->Err_0@ == e,
    }
}

/// Takes one tag: cuts out the text in front of it, reads its inside and
/// hands both to the builder. Gives the builder back, and where the tag
/// ends.
fn take_tag<'tpl, P: Partials<'tpl>>(
    builder: Builder<'tpl>,
    source: &'tpl str,
    last: usize,
    opening: Opening,
    partials: &mut P,
) -> (r: Result<(Builder<'tpl>, usize), Error>)
    requires
        builder@.well_formed(),
        cut_point(source.spec_bytes(), last as int),
        last <= opening.start,
        opening.matches(source.spec_bytes()),
    ensures
        exists|answer: Answer|
            answer.well_formed() && #[trigger] took_tag(
                source.spec_bytes(),
                builder@,
                last as int,
                opening.start as int,
                answer,
                r,
            ),
        r is Ok ==> r->Ok_0.0@.well_formed() && opening.start < r->Ok_0.1 && cut_point(
            source.spec_bytes(),
            r->Ok_0.1 as int,
        ),
{
    let ghost s = source.spec_bytes();
    proof {
        lemma_str_bytes(source);
        lemma_cut_before_ascii(s, opening.start as int);
        lemma_cut_after_ascii(s, opening.end - 1);
        lemma_scan_body_bounds(s, opening.end as int, opening.braces);
    }
    let html = slice(source, last, opening.start);
    let body = read_body(source, opening.end, opening.braces);
    let taken = builder.take(html, opening.tag, &body, partials);
    let ghost answer = choose|answer: Answer|
        answer.well_formed() && #[trigger] built(
            build(builder@, html.spec_bytes(), opening.tag, body@, answer),
            taken,
        );
    match taken {
        Err(e) => {
            let r = Err(e);
            proof {
                assert(took_tag(s, builder@, last as int, opening.start as int, answer, r));
            }
            r
        },
        Ok(next) => {
            proof {
                assert(body.closed);
                lemma_cut_after_ascii(s, body.at + opening.braces.count() - 1);
            }
            let r = Ok((next, body.at + opening.braces.len()));
            proof {
                assert(took_tag(s, builder@, last as int, opening.start as int, answer, r));
            }
            r
        },
    }
}

/// Parses `source` into a template of its own, whose blocks grow in
/// `storage`.
fn parse_source<'tpl, P: Partials<'tpl>>(
    source: &'tpl str,
    partials: &mut P,
    storage: Vec<Block<'tpl>>,
) -> (r: Result<(Template<'tpl>, usize), Error>)
    requires
        storage@.len() == 0,
    ensures
        exists|answers: spec_fn(nat) -> Answer|
            answers_ok(answers) && #[trigger] parsed_fresh(source.spec_bytes(), answers, r),
{
    let ghost s = source.spec_bytes();
    let mut builder = Builder::in_storage(storage);
    let mut last: usize = 0;
    let ghost mut seen: Seq<Answer> = Seq::empty();
    proof {
        lemma_str_bytes(source);
    }
    loop
        invariant
            s == source.spec_bytes(),
            builder@.well_formed(),
            cut_point(s, last as int),
            forall|k: int| 0 <= k < seen.len() ==> (#[trigger] seen[k]).well_formed(),
            forall|answers: spec_fn(nat) -> Answer| #[trigger]
                follows(answers, seen) ==> run(s, Progress::start(), answers) == run(
                    s,
                    Progress { draft: builder@, asked: seen.len(), pos: last as int },
                    answers,
                ),
        decreases s.len() - last,
    {
        let ghost here = Progress { draft: builder@, asked: seen.len(), pos: last as int };
        proof {
            lemma_find_open(s, last as int);
        }
        match find_tag(source, last) {
            None => {
                let ghost answers = answers_from(seen);
                proof {
                    assert(follows(answers, seen));
                    assert(answers_ok(answers));
                    lemma_run_end(s, here, answers);
                }
                match builder.finish() {
                    Ok(template) => {
                        let r = Ok((template, last));
                        proof {
                            assert(parsed_fresh(s, answers, r));
                        }
                        return r;
                    },
                    Err(e) => {
                        let r = Err(e);
                        proof {
                            assert(parsed_fresh(s, answers, r));
                        }
                        return r;
                    },
                }
            },
            Some(opening) => {
                let ghost start = opening.start as int;
                let taken = take_tag(builder, source, last, opening, partials);
                proof {
                    let answer = choose|answer: Answer|
                        answer.well_formed() && #[trigger] took_tag(
                            s,
                            here.draft,
                            last as int,
                            start,
                            answer,
                            taken,
                        );
                    let seen_before = seen;
                    if tag_asks(s, start) {
                        seen = seen.push(answer);
                    }
                    assert forall|answers: spec_fn(nat) -> Answer| #[trigger]
                        follows(answers, seen) implies run(s, Progress::start(), answers) == (
                    match tag_built(s, here.draft, here.pos, start, answer) {
                        Err(e) => Err::<Progress, ErrorView>(e),
                        Ok(draft) => run(
                            s,
                            Progress { draft, asked: seen.len(), pos: tag_end(s, start) },
                            answers,
                        ),
                    }) by {
                        assert(follows(answers, seen_before)) by {
                            assert forall|k: nat| k < seen_before.len() implies #[trigger] answers(
                                k,
                            ) == seen_before[k as int] by {
                                assert(seen[k as int] == seen_before[k as int]);
                            }
                        }
                        lemma_run_tag(s, here, seen_before, answer, answers);
                    }
                }
                match taken {
                    Err(e) => {
                        let ghost answers = answers_from(seen);
                        let r = Err(e);
                        proof {
                            assert(follows(answers, seen));
                            assert(answers_ok(answers));
                            assert(parsed_fresh(s, answers, r));
                        }
                        return r;
                    },
                    Ok((next, end)) => {
                        builder = next;
                        last = end;
                    },
                }
            },
        }
    }
}

impl<'tpl> Template<'tpl> {
    /// Puts the blocks of `more` behind this template's own and adds its
    /// capacity hint.
    pub fn extend(&mut self, more: Template<'tpl>)
        ensures
            final(self)@ == old(self)@.extended(more@),
    {
        proof {
            use_type_invariant(&*self);
            use_type_invariant(&more);
            lemma_extended_ok(self@, more@);
        }
        let Template { blocks: mut added, capacity_hint: hint } = more;
        let mut mine: Vec<Block<'tpl>> = Vec::new();
        core::mem::swap(&mut mine, &mut self.blocks);
        let ghost first = views(mine@);
        let ghost second = views(added@);
        if mine.len() == 0 {
            mine = added;
        } else {
            mine.append(&mut added);
        }
        proof {
            assert(views(mine@) =~= first + second);
        }
        let total = self.capacity_hint.saturating_add(hint);
        *self = Template { blocks: mine, capacity_hint: total };
    }

    /// Parses `source` and puts its blocks behind those the template holds.
    /// Partials are looked up in `partials` and spliced in where their tags
    /// stand. Returns where the literal text behind the last tag begins.
    pub fn parse<P: Partials<'tpl>>(&mut self, source: &'tpl str, partials: &mut P) -> (r: Result<
        usize,
        Error,
    >)
        ensures
            final(self)@.well_formed(),
            exists|answers: spec_fn(nat) -> Answer|
                answers_ok(answers) && #[trigger] parsed(
                    old(self)@,
                    source.spec_bytes(),
                    answers,
                    final(self)@,
                    r,
                ),
            asks_nothing(source.spec_bytes(), 0) ==> forall|answers: spec_fn(nat) -> Answer|
                #[trigger] parsed(old(self)@, source.spec_bytes(), answers, final(self)@, r),
    {
        proof {
            use_type_invariant(&*self);
        }
        let mut storage: Vec<Block<'tpl>> = Vec::new();
        if self.blocks.len() == 0 {
            core::mem::swap(&mut storage, &mut self.blocks);
        }
        proof {
            assert(views(self.blocks@) =~= old(self)@.blocks);
        }
        let fresh = parse_source(source, partials, storage);
        let ghost answers = choose|answers: spec_fn(nat) -> Answer|
            answers_ok(answers) && #[trigger] parsed_fresh(source.spec_bytes(), answers, fresh);
        proof {
            if asks_nothing(source.spec_bytes(), 0) {
                assert forall|others: spec_fn(nat) -> Answer|
                    parse_spec(source.spec_bytes(), others) == parse_spec(
                        source.spec_bytes(),
                        answers,
                    ) by {
                    lemma_parse_without_partials(source.spec_bytes(), others, answers);
                }
            }
        }
        match fresh {
            Err(e) => {
                let r = Err(e);
                proof {
                    assert(parsed(old(self)@, source.spec_bytes(), answers, self@, r));
                }
                r
            },
            Ok((template, tail)) => {
                proof {
                    use_type_invariant(&template);
                    lemma_extended_ok(self@, template@);
                }
                self.extend(template);
                let r = Ok(tail);
                proof {
                    assert(parsed(old(self)@, source.spec_bytes(), answers, self@, r));
                }
                r
            },
        }
    }
}

} // verus!
