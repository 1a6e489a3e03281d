use ramhorns::{hash_name, Block, Builder, Error, Partials, Tag, TagBody, Template};

struct Asked<'tpl> {
    template: Template<'tpl>,
    names: Vec<String>,
}

impl<'tpl> Partials<'tpl> for Asked<'tpl> {
    fn get_partial(&mut self, name: &'tpl str) -> Result<&Template<'tpl>, Error> {
        self.names.push(name.to_string());
        if name == "missing" {
            Err(Error::PartialNotFound(name.to_string()))
        } else {
            Ok(&self.template)
        }
    }
}

fn nothing<'tpl>() -> Asked<'tpl> {
    Asked { template: Template::new(), names: Vec::new() }
}

fn body<'a>(names: &[&'a str], closed: bool) -> TagBody<'a> {
    TagBody { names: names.to_vec(), closed, at: 0 }
}

fn named<'a>(html: &'a str, name: &'a str, tag: Tag, children: u32) -> Block<'a> {
    Block { html, name, hash: hash_name(name), tag, children }
}

fn nameless(html: &str, tag: Tag) -> Block<'_> {
    Block { html, name: "", hash: 0, tag, children: 0 }
}

#[test]
fn new_builder_finishes_empty() {
    let builder = Builder::new();
    assert_eq!(builder.depth(), 0);
    let template = builder.finish().unwrap();
    assert_eq!(template.blocks().len(), 0);
    assert_eq!(template.capacity_hint(), 0);
}

#[test]
fn depth_counts_open_sections() {
    let builder = Builder::new();
    let builder = builder.take("", Tag::Section, &body(&["a", "b"], true), &mut nothing()).unwrap();
    assert_eq!(builder.depth(), 2);
    let builder = builder.take("", Tag::Inverse, &body(&["c"], true), &mut nothing()).unwrap();
    assert_eq!(builder.depth(), 3);
    let builder = builder.take("", Tag::Closing, &body(&["c", "b"], true), &mut nothing()).unwrap();
    assert_eq!(builder.depth(), 1);
    let builder = builder.take("", Tag::Escaped, &body(&["x", "y"], true), &mut nothing()).unwrap();
    assert_eq!(builder.depth(), 1);
    let builder = builder.take("", Tag::Comment, &body(&[], true), &mut nothing()).unwrap();
    assert_eq!(builder.depth(), 1);
}

#[test]
fn closer_fills_in_the_children() {
    let builder = Builder::new();
    let builder = builder.take("one", Tag::Section, &body(&["a"], true), &mut nothing()).unwrap();
    let builder = builder.take("two", Tag::Escaped, &body(&["x"], true), &mut nothing()).unwrap();
    let builder = builder.take("three", Tag::Closing, &body(&["a"], true), &mut nothing()).unwrap();
    let template = builder.finish().unwrap();
    assert_eq!(
        template.blocks(),
        &[
            named("one", "a", Tag::Section, 2),
            named("two", "x", Tag::Escaped, 0),
            nameless("three", Tag::Closing),
        ]
    );
    assert_eq!(template.capacity_hint(), 11);
}

#[test]
fn finish_names_the_innermost_open_section() {
    let builder = Builder::new();
    let builder = builder.take("", Tag::Section, &body(&["a", "b"], true), &mut nothing()).unwrap();
    assert_eq!(builder.finish().err(), Some(Error::UnclosedSection("b".to_string())));
}

#[test]
fn tag_that_breaks_off_is_unclosed() {
    for tag in [Tag::Escaped, Tag::Unescaped, Tag::Section, Tag::Inverse, Tag::Comment] {
        let r = Builder::new().take("", tag, &body(&["a"], false), &mut nothing());
        assert_eq!(r.err(), Some(Error::UnclosedTag));
    }
    let open = Builder::new().take("", Tag::Section, &body(&["a"], true), &mut nothing()).unwrap();
    assert_eq!(open.take("", Tag::Closing, &body(&["a"], false), &mut nothing()).err(), Some(Error::UnclosedTag));
}

#[test]
fn tag_without_names_is_unclosed() {
    for tag in [Tag::Escaped, Tag::Unescaped, Tag::Section, Tag::Inverse, Tag::Closing] {
        let r = Builder::new().take("", tag, &body(&[], true), &mut nothing());
        assert_eq!(r.err(), Some(Error::UnclosedTag));
    }
}

#[test]
fn seventeenth_section_overflows() {
    let mut builder = Builder::new();
    for _ in 0..4 {
        builder = builder.take("", Tag::Section, &body(&["a", "b", "c", "d"], true), &mut nothing()).unwrap();
    }
    assert_eq!(builder.depth(), 16);
    let r = builder.take("", Tag::Section, &body(&["e"], true), &mut nothing());
    assert_eq!(r.err(), Some(Error::NestingOverflow));
}

#[test]
fn sections_that_do_not_all_fit_overflow() {
    let builder = Builder::new();
    let builder = builder.take("", Tag::Section, &body(&["a"; 15], true), &mut nothing()).unwrap();
    let r = builder.take("", Tag::Inverse, &body(&["b", "c"], true), &mut nothing());
    assert_eq!(r.err(), Some(Error::NestingOverflow));
}

#[test]
fn closer_under_another_name() {
    let builder = Builder::new().take("", Tag::Section, &body(&["a"], true), &mut nothing()).unwrap();
    let r = builder.take("", Tag::Closing, &body(&["b"], true), &mut nothing());
    assert_eq!(r.err(), Some(Error::UnclosedSection("a".to_string())));
}

#[test]
fn closer_with_nothing_open() {
    let r = Builder::new().take("", Tag::Closing, &body(&["a"], true), &mut nothing());
    assert_eq!(r.err(), Some(Error::UnopenedSection("a".to_string())));
}

#[test]
fn partial_puts_the_template_behind_its_block() {
    let inner = Builder::new().take("in", Tag::Escaped, &body(&["x"], true), &mut nothing()).unwrap();
    let inner: Template = inner.finish().unwrap();
    let builder = Builder::new().take("a", Tag::Comment, &body(&[], true), &mut nothing()).unwrap();
    let builder = builder.partial("bc", Ok(&inner)).unwrap();
    let template = builder.finish().unwrap();
    assert_eq!(
        template.blocks(),
        &[
            nameless("a", Tag::Comment),
            nameless("bc", Tag::Partial),
            named("in", "x", Tag::Escaped, 0),
        ]
    );
    assert_eq!(template.capacity_hint(), 1 + 2 + 2);
}

#[test]
fn take_asks_for_the_name_in_a_partial_tag() {
    let inner = Builder::new().take("in", Tag::Comment, &body(&[], true), &mut nothing()).unwrap();
    let mut partials = Asked { template: inner.finish().unwrap(), names: Vec::new() };
    let builder = Builder::with_capacity(4);
    let builder = builder.take("a", Tag::Partial, &body(&["p"], true), &mut partials).unwrap();
    assert_eq!(partials.names, vec!["p".to_string()]);
    let r = builder.take("b", Tag::Partial, &body(&["missing"], true), &mut partials);
    assert_eq!(r.err(), Some(Error::PartialNotFound("missing".to_string())));
    assert_eq!(partials.names, vec!["p".to_string(), "missing".to_string()]);
}

#[test]
fn take_does_not_ask_for_a_broken_partial_tag() {
    let mut partials = nothing();
    let r = Builder::new().take("", Tag::Partial, &body(&["p", "q"], true), &mut partials);
    assert_eq!(r.err(), Some(Error::UnclosedTag));
    let r = Builder::new().take("", Tag::Partial, &body(&[], true), &mut partials);
    assert_eq!(r.err(), Some(Error::UnclosedTag));
    let r = Builder::new().take("", Tag::Partial, &body(&["p"], false), &mut partials);
    assert_eq!(r.err(), Some(Error::UnclosedTag));
    assert_eq!(partials.names.len(), 0);
}

#[test]
fn partial_hands_the_error_on() {
    let r = Builder::new().partial("a", Err(Error::PartialNotFound("p".to_string())));
    assert_eq!(r.err(), Some(Error::PartialNotFound("p".to_string())));
    let r = Builder::new().partial("a", Err(Error::NestingOverflow));
    assert_eq!(r.err(), Some(Error::NestingOverflow));
}

#[test]
fn errors_carry_names() {
    assert_eq!(Error::unclosed_section("a"), Error::UnclosedSection("a".to_string()));
    assert_eq!(Error::unopened_section("b"), Error::UnopenedSection("b".to_string()));
    assert_eq!(Error::partial_not_found("c"), Error::PartialNotFound("c".to_string()));
}
