use ramhorns::{hash_name, Block, Error, Partials, Tag, Template};

struct Shelf<'tpl> {
    header: Template<'tpl>,
    footer: Template<'tpl>,
}

impl<'tpl> Partials<'tpl> for Shelf<'tpl> {
    fn get_partial(&mut self, name: &'tpl str) -> Result<&Template<'tpl>, Error> {
        match name {
            "header" => Ok(&self.header),
            "footer" => Ok(&self.footer),
            _ => Err(Error::PartialNotFound(name.to_string())),
        }
    }
}

fn shelf() -> Shelf<'static> {
    let mut none = Shelf { header: Template::new(), footer: Template::new() };
    let mut header = Template::new();
    header.parse("<h1>{{title}}</h1>{{! end }}", &mut none).unwrap();
    let mut footer = Template::new();
    footer.parse("{{#links}}<a>{{name}}</a>{{/links}}{{! end }}", &mut none).unwrap();
    Shelf { header, footer }
}

const PAGE: &str = "{{>header}}<p>{{ user name }}</p>{{#posts}}<li>{{{body}}}</li>{{^tags}}none{{/tags}}{{/posts}}{{>footer}}bye";

fn page() -> (Template<'static>, usize) {
    let mut template = Template::new();
    let tail = template.parse(PAGE, &mut shelf()).unwrap();
    (template, tail)
}

fn text(blocks: &[Block]) -> String {
    let mut all = String::new();
    for block in blocks {
        all.push_str(block.html);
    }
    all
}

#[test]
fn hint_covers_the_literal_text() {
    let (template, _) = page();
    let total: usize = template.blocks().iter().map(|block| block.html.len()).sum();
    assert!(template.capacity_hint() >= total as u64);
    assert_eq!(total, 36);
    assert_eq!(template.capacity_hint(), 36);
}

#[test]
fn text_of_blocks_and_tail_is_the_source_without_tags() {
    let source = "a{{x}}b{{#s}}c{{! note }}d{{/s}}e{{{ y z }}}f";
    let mut template = Template::new();
    let tail = template.parse(source, &mut shelf()).unwrap();
    assert_eq!(format!("{}{}", text(template.blocks()), &source[tail..]), "abcdef");
}

#[test]
fn text_of_partials_stands_where_their_tags_stood() {
    let (template, tail) = page();
    assert_eq!(
        format!("{}{}", text(template.blocks()), &PAGE[tail..]),
        "<h1></h1><p></p><li></li>none<a></a>bye"
    );
}

#[test]
fn every_opener_counts_up_to_the_end_of_its_subtree() {
    let (template, _) = page();
    let blocks = template.blocks();
    let mut openers = 0;
    for (i, block) in blocks.iter().enumerate() {
        if block.tag == Tag::Section || block.tag == Tag::Inverse {
            openers += 1;
            assert!(block.children >= 1);
            let last = blocks[i + block.children as usize];
            if block.name == "user" {
                assert_eq!(last.tag, Tag::Escaped);
                assert_eq!(last.name, "name");
            } else {
                assert_eq!(last.tag, Tag::Closing);
            }
        } else {
            assert_eq!(block.children, 0);
        }
    }
    assert_eq!(openers, 4);
}

#[test]
fn every_named_block_has_the_hash_of_its_name() {
    let (template, _) = page();
    let mut named = 0;
    for block in template.blocks() {
        match block.tag {
            Tag::Escaped | Tag::Unescaped | Tag::Section | Tag::Inverse => {
                named += 1;
                assert_eq!(block.hash, hash_name(block.name));
            }
            Tag::Closing | Tag::Partial | Tag::Comment => {
                assert_eq!(block.name, "");
                assert_eq!(block.hash, 0);
            }
        }
    }
    assert_eq!(named, 8);
}

#[test]
fn parsing_twice_gives_the_same() {
    let (first, first_tail) = page();
    let (second, second_tail) = page();
    assert_eq!(first.blocks(), second.blocks());
    assert_eq!(first.capacity_hint(), second.capacity_hint());
    assert_eq!(first_tail, second_tail);
    assert_eq!(first_tail, PAGE.len() - 3);
}

#[test]
fn failing_twice_gives_the_same_error() {
    let mut template = Template::new();
    let first = template.parse("{{#a}}{{>nowhere}}", &mut shelf());
    let second = template.parse("{{#a}}{{>nowhere}}", &mut shelf());
    assert_eq!(first, Err(Error::PartialNotFound("nowhere".to_string())));
    assert_eq!(first, second);
    assert_eq!(template.blocks().len(), 0);
}

#[test]
fn reparsing_into_the_template_repeats_its_blocks() {
    let (first, _) = page();
    let mut again = Template::new();
    again.parse(PAGE, &mut shelf()).unwrap();
    again.parse(PAGE, &mut shelf()).unwrap();
    let n = first.blocks().len();
    assert_eq!(again.blocks().len(), 2 * n);
    assert_eq!(&again.blocks()[..n], first.blocks());
    assert_eq!(&again.blocks()[n..], first.blocks());
    assert_eq!(again.capacity_hint(), 2 * first.capacity_hint());
}

#[test]
fn source_without_partials_parses_alike_with_any_resolver() {
    struct Never;
    impl<'tpl> Partials<'tpl> for Never {
        fn get_partial(&mut self, _name: &'tpl str) -> Result<&Template<'tpl>, Error> {
            Err(Error::NestingOverflow)
        }
    }
    let source = "a{{x}}b{{#s}}c{{/s}}d";
    let mut one = Template::new();
    let mut two = Template::new();
    assert_eq!(one.parse(source, &mut shelf()), two.parse(source, &mut Never));
    assert_eq!(one.blocks(), two.blocks());
}

#[test]
fn resolver_error_is_handed_on_as_it_is() {
    struct Never;
    impl<'tpl> Partials<'tpl> for Never {
        fn get_partial(&mut self, _name: &'tpl str) -> Result<&Template<'tpl>, Error> {
            Err(Error::NestingOverflow)
        }
    }
    let mut template = Template::new();
    assert_eq!(template.parse("{{>p}}", &mut Never), Err(Error::NestingOverflow));
}
