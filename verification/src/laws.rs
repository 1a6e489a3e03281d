//! What holds of every parse.
//!
//! The laws are stated of [`parse_spec`], which is what
//! [`Template::parse`](crate::template::Template::parse) computes, and of
//! [`parsed`], which is what it promises.

use crate::block::{BlockView, Tag};
use crate::error::Error;
use crate::hash::spec_hash;
use crate::lexer::{find_open, lemma_find_open, lemma_scan_body_bounds, scan_body, sigil_at, Body};
use crate::model::{
    answers_ok, asks, asks_nothing, block_ok, build, chain, concat_html, lemma_step_advances,
    parse_spec, parsed, run, settled, step, tag_end, total_html, Answer, Draft, Progress,
    TemplateView,
};
use crate::shape::{
    is_open, lemma_build_ok, lemma_chain_html, lemma_closed_all_ok, lemma_concat_html_concat,
    lemma_finished_ok, lemma_pushed_ok,
};
use vstd::prelude::*;

verus! {

/// The literal text that a partial tag brings in: that of the template the
/// resolver found.
pub open spec fn text_of(answer: Answer) -> Seq<u8> {
    match answer {
        Answer::Found(template) => concat_html(template.blocks),
        Answer::Failed(_) => Seq::empty(),
    }
}

/// The source from `from` on with every tag removed. A tag that does not
/// close ends the text.
pub open spec fn tags_removed(s: Seq<u8>, from: int) -> Seq<u8>
    decreases s.len() - from,
    via tags_removed_decreases
{
    let start = find_open(s, from);
    if from < 0 || start >= s.len() {
        s.subrange(from, s.len() as int)
    } else {
        let sigil = sigil_at(s, start);
        if !scan_body(s, start + sigil.len, sigil.braces).closed {
            s.subrange(from, start)
        } else {
            s.subrange(from, start) + tags_removed(s, tag_end(s, start))
        }
    }
}

#[via_fn]
proof fn tags_removed_decreases(s: Seq<u8>, from: int) {
    let start = find_open(s, from);
    if !(from < 0 || start >= s.len()) {
        lemma_find_open(s, from);
        let sigil = sigil_at(s, start);
        lemma_scan_body_bounds(s, start + sigil.len, sigil.braces);
    }
}

/// The source from `from` on with every tag removed, and with the literal
/// text of a partial where a tag asks for one. `asked` counts the partials
/// asked for in front of `from`. A tag that does not close ends the text.
pub open spec fn tags_replaced(
    s: Seq<u8>,
    from: int,
    asked: nat,
    answers: spec_fn(nat) -> Answer,
) -> Seq<u8>
    decreases s.len() - from,
    via tags_replaced_decreases
{
    let start = find_open(s, from);
    if from < 0 || start >= s.len() {
        s.subrange(from, s.len() as int)
    } else {
        let sigil = sigil_at(s, start);
        let body = scan_body(s, start + sigil.len, sigil.braces);
        if !body.closed {
            s.subrange(from, start)
        } else if asks(sigil.tag, body) {
            s.subrange(from, start) + text_of(answers(asked)) + tags_replaced(
                s,
                tag_end(s, start),
                asked + 1,
                answers,
            )
        } else {
            s.subrange(from, start) + tags_replaced(s, tag_end(s, start), asked, answers)
        }
    }
}

#[via_fn]
proof fn tags_replaced_decreases(
    s: Seq<u8>,
    from: int,
    asked: nat,
    answers: spec_fn(nat) -> Answer,
) {
    let start = find_open(s, from);
    if !(from < 0 || start >= s.len()) {
        lemma_find_open(s, from);
        let sigil = sigil_at(s, start);
        lemma_scan_body_bounds(s, start + sigil.len, sigil.braces);
    }
}

/// Where no tag asks the resolver, replacing tags is removing them.
pub proof fn lemma_nothing_replaced(
    s: Seq<u8>,
    from: int,
    asked: nat,
    answers: spec_fn(nat) -> Answer,
)
    requires
        asks_nothing(s, from),
        0 <= from <= s.len(),
    ensures
        tags_replaced(s, from, asked, answers) == tags_removed(s, from),
    decreases s.len() - from,
{
    let start = find_open(s, from);
    lemma_find_open(s, from);
    if start < s.len() {
        let sigil = sigil_at(s, start);
        lemma_scan_body_bounds(s, start + sigil.len, sigil.braces);
        if scan_body(s, start + sigil.len, sigil.braces).closed {
            lemma_nothing_replaced(s, tag_end(s, start), asked, answers);
        }
    }
}

/// A tag that was built put its literal text behind the text of the draft,
/// and behind that the text of the partial if it asked for one.
pub proof fn lemma_build_text(draft: Draft, html: Seq<u8>, tag: Tag, body: Body, answer: Answer)
    requires
        draft.well_formed(),
    ensures
        match build(draft, html, tag, body, answer) {
            Ok(next) => body.closed && concat_html(next.blocks) == concat_html(draft.blocks) + html
                + (if asks(tag, body) {
                text_of(answer)
            } else {
                Seq::empty()
            }),
            Err(_) => true,
        },
{
    let hinted = draft.hinted(html.len() as int);
    let text = concat_html(draft.blocks);
    if let Ok(next) = build(draft, html, tag, body, answer) {
        match tag {
            Tag::Escaped | Tag::Unescaped => {
                lemma_chain_html(html, body.names, tag, true);
                lemma_concat_html_concat(draft.blocks, chain(html, body.names, tag, true));
                assert(text + html + Seq::<u8>::empty() =~= text + html);
            },
            Tag::Section | Tag::Inverse => {
                lemma_chain_html(html, body.names, tag, false);
                lemma_concat_html_concat(draft.blocks, chain(html, body.names, tag, false));
                assert(text + html + Seq::<u8>::empty() =~= text + html);
            },
            Tag::Closing => {
                let closing = BlockView::nameless(html, Tag::Closing);
                let pushed = hinted.pushed(closing);
                lemma_pushed_ok(hinted, closing);
                assert(pushed.closing_at(draft.blocks.len() as int)) by {
                    assert forall|k: int| 0 <= k < pushed.stack.len() implies (
                    #[trigger] pushed.stack[k]) < draft.blocks.len() by {
                        assert(is_open(draft.blocks, draft.stack[k]));
                    }
                }
                lemma_closed_all_ok(pushed, body.names, draft.blocks.len() as int);
                assert(pushed.blocks.drop_last() =~= draft.blocks);
                assert(text + html + Seq::<u8>::empty() =~= text + html);
            },
            Tag::Partial => {
                let partial = answer->Found_0;
                let block = BlockView::nameless(html, Tag::Partial);
                let pushed = hinted.pushed(block);
                assert(pushed.blocks.drop_last() =~= draft.blocks);
                lemma_concat_html_concat(pushed.blocks, partial.blocks);
            },
            Tag::Comment => {
                let block = BlockView::nameless(html, Tag::Comment);
                assert(hinted.pushed(block).blocks.drop_last() =~= draft.blocks);
                assert(text + html + Seq::<u8>::empty() =~= text + html);
            },
        }
    }
}

/// A parse that goes on from a well-formed draft ends with a well-formed
/// draft in which no section is open, further on in the source.
pub proof fn lemma_run_well_formed(
    s: Seq<u8>,
    progress: Progress,
    answers: spec_fn(nat) -> Answer,
)
    requires
        progress.draft.well_formed(),
        answers_ok(answers),
        0 <= progress.pos <= s.len(),
    ensures
        match run(s, progress, answers) {
            Ok(end) => end.draft.well_formed() && end.draft.stack.len() == 0 && progress.pos
                <= end.pos <= s.len() && progress.asked <= end.asked,
            Err(_) => true,
        },
    decreases s.len() - progress.pos,
{
    let start = find_open(s, progress.pos);
    lemma_find_open(s, progress.pos);
    if start < s.len() {
        let sigil = sigil_at(s, start);
        let body = scan_body(s, start + sigil.len, sigil.braces);
        lemma_step_advances(s, progress, start, answers);
        lemma_build_ok(
            progress.draft,
            s.subrange(progress.pos, start),
            sigil.tag,
            body,
            answers(progress.asked),
        );
        if let Ok(next) = step(s, progress, start, answers) {
            lemma_run_well_formed(s, next, answers);
        }
    }
}

/// A parse that goes on from a well-formed draft leaves, in its blocks and
/// behind them, the text of the draft and the rest of the source without
/// its tags.
pub proof fn lemma_run_text(s: Seq<u8>, progress: Progress, answers: spec_fn(nat) -> Answer)
    requires
        progress.draft.well_formed(),
        answers_ok(answers),
        0 <= progress.pos <= s.len(),
    ensures
        match run(s, progress, answers) {
            Ok(end) => concat_html(end.draft.blocks) + s.subrange(end.pos, s.len() as int)
                == concat_html(progress.draft.blocks) + tags_replaced(
                s,
                progress.pos,
                progress.asked,
                answers,
            ),
            Err(_) => true,
        },
    decreases s.len() - progress.pos,
{
    let start = find_open(s, progress.pos);
    lemma_find_open(s, progress.pos);
    if start < s.len() {
        let sigil = sigil_at(s, start);
        let body = scan_body(s, start + sigil.len, sigil.braces);
        let html = s.subrange(progress.pos, start);
        let answer = answers(progress.asked);
        lemma_step_advances(s, progress, start, answers);
        lemma_build_ok(progress.draft, html, sigil.tag, body, answer);
        lemma_build_text(progress.draft, html, sigil.tag, body, answer);
        if let Ok(next) = step(s, progress, start, answers) {
            lemma_run_text(s, next, answers);
            if let Ok(end) = run(s, next, answers) {
                let before = concat_html(progress.draft.blocks);
                let rest = tags_replaced(s, next.pos, next.asked, answers);
                let tail = s.subrange(end.pos, s.len() as int);
                assert(concat_html(end.draft.blocks) + tail == concat_html(next.draft.blocks)
                    + rest);
                if asks(sigil.tag, body) {
                    assert(before + html + text_of(answer) + rest =~= before + (html + text_of(
                        answer,
                    ) + rest));
                } else {
                    assert(before + html + Seq::<u8>::empty() + rest =~= before + (html + rest));
                }
            }
        }
    }
}

/// Where no tag asks the resolver, a parse goes on in the same way
/// whatever the resolver would answer.
pub proof fn lemma_run_without_partials(
    s: Seq<u8>,
    progress: Progress,
    a: spec_fn(nat) -> Answer,
    b: spec_fn(nat) -> Answer,
)
    requires
        asks_nothing(s, progress.pos),
        0 <= progress.pos <= s.len(),
    ensures
        run(s, progress, a) == run(s, progress, b),
        tags_replaced(s, progress.pos, progress.asked, a) == tags_replaced(
            s,
            progress.pos,
            progress.asked,
            b,
        ),
    decreases s.len() - progress.pos,
{
    let start = find_open(s, progress.pos);
    lemma_find_open(s, progress.pos);
    if start < s.len() {
        let sigil = sigil_at(s, start);
        let body = scan_body(s, start + sigil.len, sigil.braces);
        lemma_step_advances(s, progress, start, a);
        lemma_step_advances(s, progress, start, b);
        lemma_scan_body_bounds(s, start + sigil.len, sigil.braces);
        if body.closed {
            let next = Progress {
                draft: progress.draft,
                asked: progress.asked,
                pos: tag_end(s, start),
            };
            if let Ok(after) = step(s, progress, start, a) {
                lemma_run_without_partials(s, after, a, b);
            } else {
                lemma_run_without_partials(s, next, a, b);
            }
        }
    }
}

/// Every successful parse gives a well-formed template: the capacity hint
/// covers the literal text, every named block has the hash of its name,
/// and every opener has its subtree.
pub proof fn lemma_parse_well_formed(s: Seq<u8>, answers: spec_fn(nat) -> Answer)
    requires
        answers_ok(answers),
    ensures
        match parse_spec(s, answers) {
            Ok(end) => end.draft.template().well_formed() && end.draft.stack.len() == 0 && 0
                <= end.pos <= s.len(),
            Err(_) => true,
        },
{
    lemma_run_well_formed(s, Progress::start(), answers);
    if let Ok(end) = parse_spec(s, answers) {
        lemma_finished_ok(end.draft);
    }
}

/// The capacity hint of a parsed template is at least the length of all
/// literal text in its blocks, unless it stands at the largest `u64`.
pub proof fn lemma_hint_covers_text(s: Seq<u8>, answers: spec_fn(nat) -> Answer)
    requires
        answers_ok(answers),
        parse_spec(s, answers) is Ok,
    ensures
        ({
            let end = parse_spec(s, answers)->Ok_0;
            end.draft.capacity_hint >= total_html(end.draft.blocks) || end.draft.capacity_hint
                == u64::MAX
        }),
{
    lemma_parse_well_formed(s, answers);
}

/// The literal text of all blocks of a parse, and behind it the source from
/// the returned offset on, is the source with every tag removed, and with
/// the literal text of each partial where its tag stood.
pub proof fn lemma_text_is_source_with_partials(s: Seq<u8>, answers: spec_fn(nat) -> Answer)
    requires
        answers_ok(answers),
        parse_spec(s, answers) is Ok,
    ensures
        ({
            let end = parse_spec(s, answers)->Ok_0;
            concat_html(end.draft.blocks) + s.subrange(end.pos, s.len() as int) == tags_replaced(
                s,
                0,
                0,
                answers,
            )
        }),
{
    lemma_run_text(s, Progress::start(), answers);
    assert(concat_html(Draft::empty().blocks) =~= Seq::<u8>::empty());
    assert(Seq::<u8>::empty() + tags_replaced(s, 0, 0, answers) =~= tags_replaced(
        s,
        0,
        0,
        answers,
    ));
}

/// Where no tag asks for a partial, the literal text of all blocks of a
/// parse, and behind it the source from the returned offset on, is the
/// source with every tag removed.
pub proof fn lemma_text_is_source_without_tags(s: Seq<u8>, answers: spec_fn(nat) -> Answer)
    requires
        answers_ok(answers),
        parse_spec(s, answers) is Ok,
        asks_nothing(s, 0),
    ensures
        ({
            let end = parse_spec(s, answers)->Ok_0;
            concat_html(end.draft.blocks) + s.subrange(end.pos, s.len() as int) == tags_removed(
                s,
                0,
            )
        }),
{
    lemma_text_is_source_with_partials(s, answers);
    lemma_nothing_replaced(s, 0, 0, answers);
}

/// In a parsed template every opener counts at least one block behind it,
/// all of them blocks of the template, and the last block it counts ends
/// its subtree: it is a closing block, or, behind a `Section` that stands
/// for the front part of a dotted variable, the variable. Only a count that
/// stands at the largest `u32` may fall short of the subtree's end, and no
/// count does in a template of fewer blocks than that. No section is left
/// open.
pub proof fn lemma_openers_closed(s: Seq<u8>, answers: spec_fn(nat) -> Answer, i: int)
    requires
        answers_ok(answers),
        parse_spec(s, answers) is Ok,
        0 <= i < parse_spec(s, answers)->Ok_0.draft.blocks.len(),
        parse_spec(s, answers)->Ok_0.draft.blocks[i].tag.is_opener(),
    ensures
        ({
            let end = parse_spec(s, answers)->Ok_0;
            let blocks = end.draft.blocks;
            let opener = blocks[i];
            &&& end.draft.stack.len() == 0
            &&& opener.children >= 1
            &&& i + opener.children < blocks.len()
            &&& blocks.len() <= u32::MAX ==> opener.children < u32::MAX
            &&& opener.children < u32::MAX ==> {
                let last = blocks[i + opener.children].tag;
                last == Tag::Closing || (opener.tag == Tag::Section && last.is_variable())
            }
        }),
{
    lemma_parse_well_formed(s, answers);
    let template = parse_spec(s, answers)->Ok_0.draft.template();
    assert(template.blocks[i].tag.is_opener());
    assert(settled(template.blocks, i));
}

/// In a parsed template every block of a variable or a section has the
/// hash of its name; every other block has no name and the hash zero.
pub proof fn lemma_hash_is_of_name(s: Seq<u8>, answers: spec_fn(nat) -> Answer, i: int)
    requires
        answers_ok(answers),
        parse_spec(s, answers) is Ok,
        0 <= i < parse_spec(s, answers)->Ok_0.draft.blocks.len(),
    ensures
        ({
            let block = parse_spec(s, answers)->Ok_0.draft.blocks[i];
            if block.tag.is_named() {
                block.hash == spec_hash(block.name)
            } else {
                block.name.len() == 0 && block.hash == 0
            }
        }),
{
    lemma_parse_well_formed(s, answers);
    let template = parse_spec(s, answers)->Ok_0.draft.template();
    assert(block_ok(template.blocks[i]));
}

/// Parsing is a function of the source and of what the resolver answers:
/// two parses of one source into one template, with the same answers, leave
/// the same template and give the same result.
pub proof fn lemma_parse_deterministic(
    before: TemplateView,
    s: Seq<u8>,
    answers: spec_fn(nat) -> Answer,
    first: TemplateView,
    first_result: Result<usize, Error>,
    second: TemplateView,
    second_result: Result<usize, Error>,
)
    requires
        parsed(before, s, answers, first, first_result),
        parsed(before, s, answers, second, second_result),
    ensures
        first == second,
        first_result is Ok <==> second_result is Ok,
        first_result is Ok ==> first_result->Ok_0 == second_result->Ok_0,
        first_result is Err ==> first_result->Err_0@ == second_result->Err_0@,
{
}

/// A source in which no tag asks the resolver parses in the same way
/// whatever resolver is there.
pub proof fn lemma_parse_without_partials(
    s: Seq<u8>,
    a: spec_fn(nat) -> Answer,
    b: spec_fn(nat) -> Answer,
)
    requires
        asks_nothing(s, 0),
    ensures
        parse_spec(s, a) == parse_spec(s, b),
{
    lemma_run_without_partials(s, Progress::start(), a, b);
}

/// Parsing a source again gives the same blocks again: a parse into any
/// template puts behind the template's blocks exactly the blocks that a
/// parse of the same source into an empty template gives, when the
/// resolver answers the same.
pub proof fn lemma_reparse_same_blocks(
    s: Seq<u8>,
    answers: spec_fn(nat) -> Answer,
    first: TemplateView,
    first_result: Result<usize, Error>,
    before: TemplateView,
    second: TemplateView,
    second_result: Result<usize, Error>,
)
    requires
        parsed(TemplateView::empty(), s, answers, first, first_result),
        parsed(before, s, answers, second, second_result),
        first_result is Ok,
    ensures
        second_result is Ok,
        second_result->Ok_0 == first_result->Ok_0,
        second.blocks == before.blocks + first.blocks,
        before == TemplateView::empty() ==> second.blocks == first.blocks,
{
    let end = parse_spec(s, answers)->Ok_0;
    assert(Seq::<BlockView>::empty() + end.draft.blocks =~= end.draft.blocks);
}

} // verus!
