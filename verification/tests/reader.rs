use ramhorns::{hash_name, Block, Error, Partials, Tag, Template};

// A second reader of the same language, written as plainly as possible: it
// reads a tag token by token and acts on each token as it comes. The parser
// must agree with it on every source.

#[derive(Clone, Debug, PartialEq)]
struct Plain {
    html: String,
    name: String,
    tag: Tag,
    children: u32,
}

enum Tok {
    Ident(usize, usize),
    Match(usize),
    Stop,
}

fn token(src: &[u8], mut at: usize, braces: usize) -> Tok {
    while at < src.len() && src[at] == b' ' {
        at += 1;
    }
    if at == src.len() {
        return Tok::Stop;
    }
    if src[at] == b'}' {
        let run = src[at..].iter().take_while(|b| **b == b'}').count();
        return if run >= braces { Tok::Match(at) } else { Tok::Stop };
    }
    let len = src[at..].iter().take_while(|b| **b != b' ' && **b != b'}').count();
    Tok::Ident(at, at + len)
}

fn text(src: &[u8], from: usize, to: usize) -> String {
    String::from_utf8(src[from..to].to_vec()).unwrap()
}

fn read(source: &str, partial: &[Plain]) -> Result<(Vec<Plain>, usize), Error> {
    let src = source.as_bytes();
    let mut blocks: Vec<Plain> = Vec::new();
    let mut stack: Vec<usize> = Vec::new();
    let mut last = 0;
    loop {
        let Some(start) = (last..src.len().saturating_sub(1)).find(|i| &src[*i..*i + 2] == b"{{")
        else {
            break;
        };
        let (tag, braces, sigil) = match src.get(start + 2) {
            Some(b'&') => (Tag::Unescaped, 2, 3),
            Some(b'{') => (Tag::Unescaped, 3, 3),
            Some(b'#') => (Tag::Section, 2, 3),
            Some(b'^') => (Tag::Inverse, 2, 3),
            Some(b'/') => (Tag::Closing, 2, 3),
            Some(b'>') => (Tag::Partial, 2, 3),
            Some(b'!') => (Tag::Comment, 2, 3),
            _ => (Tag::Escaped, 2, 2),
        };
        let mut html = text(src, last, start);
        let mut at = start + sigil;
        let tail = blocks.len();
        let end;
        if tag == Tag::Comment {
            loop {
                match token(src, at, braces) {
                    Tok::Ident(_, e) => at = e,
                    Tok::Match(m) => {
                        end = m;
                        break;
                    }
                    Tok::Stop => return Err(Error::UnclosedTag),
                }
            }
            blocks.push(Plain { html, name: String::new(), tag, children: 0 });
            last = end + braces;
            continue;
        }
        let mut name = match token(src, at, braces) {
            Tok::Ident(s, e) => {
                at = e;
                text(src, s, e)
            }
            _ => return Err(Error::UnclosedTag),
        };
        match tag {
            Tag::Escaped | Tag::Unescaped => {
                loop {
                    match token(src, at, braces) {
                        Tok::Ident(s, e) => {
                            blocks.push(Plain { html, name, tag: Tag::Section, children: 0 });
                            name = text(src, s, e);
                            html = String::new();
                            at = e;
                        }
                        Tok::Match(m) => {
                            blocks.push(Plain { html, name, tag, children: 0 });
                            end = m;
                            break;
                        }
                        Tok::Stop => return Err(Error::UnclosedTag),
                    }
                }
                let d = blocks.len() - tail - 1;
                for i in 0..d {
                    blocks[tail + i].children = (d - i) as u32;
                }
            }
            Tag::Section | Tag::Inverse => loop {
                match token(src, at, braces) {
                    Tok::Ident(s, e) => {
                        if stack.len() == 16 {
                            return Err(Error::NestingOverflow);
                        }
                        stack.push(blocks.len());
                        blocks.push(Plain { html, name, tag: Tag::Section, children: 0 });
                        name = text(src, s, e);
                        html = String::new();
                        at = e;
                    }
                    Tok::Match(m) => {
                        if stack.len() == 16 {
                            return Err(Error::NestingOverflow);
                        }
                        stack.push(blocks.len());
                        blocks.push(Plain { html, name, tag, children: 0 });
                        end = m;
                        break;
                    }
                    Tok::Stop => return Err(Error::UnclosedTag),
                }
            },
            Tag::Closing => {
                blocks.push(Plain { html, name: String::new(), tag, children: 0 });
                loop {
                    let Some(head) = stack.pop() else {
                        return Err(Error::UnopenedSection(name));
                    };
                    blocks[head].children = (tail - head) as u32;
                    if hash_name(&blocks[head].name) != hash_name(&name) {
                        return Err(Error::UnclosedSection(blocks[head].name.clone()));
                    }
                    match token(src, at, braces) {
                        Tok::Ident(s, e) => {
                            name = text(src, s, e);
                            at = e;
                        }
                        Tok::Match(m) => {
                            end = m;
                            break;
                        }
                        Tok::Stop => return Err(Error::UnclosedTag),
                    }
                }
            }
            Tag::Partial => {
                match token(src, at, braces) {
                    Tok::Match(m) => end = m,
                    _ => return Err(Error::UnclosedTag),
                }
                blocks.push(Plain { html, name: String::new(), tag, children: 0 });
                if name != "p" {
                    return Err(Error::PartialNotFound(name));
                }
                blocks.extend_from_slice(partial);
            }
            Tag::Comment => unreachable!(),
        }
        last = end + braces;
    }
    match stack.last() {
        Some(head) => Err(Error::UnclosedSection(blocks[*head].name.clone())),
        None => Ok((blocks, last)),
    }
}

struct OnlyP<'p> {
    template: Template<'p>,
}

impl<'tpl, 'p: 'tpl> Partials<'tpl> for OnlyP<'p> {
    fn get_partial(&mut self, name: &'tpl str) -> Result<&Template<'tpl>, Error> {
        if name == "p" {
            Ok(&self.template)
        } else {
            Err(Error::PartialNotFound(name.to_string()))
        }
    }
}

fn plain(blocks: &[Block]) -> Vec<Plain> {
    blocks
        .iter()
        .map(|b| {
            let named = matches!(b.tag, Tag::Escaped | Tag::Unescaped | Tag::Section | Tag::Inverse);
            assert_eq!(b.hash, if named { hash_name(b.name) } else { 0 });
            Plain { html: b.html.to_string(), name: b.name.to_string(), tag: b.tag, children: b.children }
        })
        .collect()
}

fn partial() -> OnlyP<'static> {
    let mut template = Template::new();
    let mut none = OnlyP { template: Template::new() };
    template.parse("P{{#s}}Q{{v w}}{{/s}}", &mut none).unwrap();
    OnlyP { template }
}

fn agree(source: &str, partials: &mut OnlyP) -> bool {
    let expected = read(source, &plain(partials.template.blocks()));
    let mut template = Template::new();
    let got = template.parse(source, partials);
    match (&expected, &got) {
        (Ok((blocks, tail)), Ok(end)) => {
            assert_eq!(&plain(template.blocks()), blocks, "blocks of {source:?}");
            assert_eq!(end, tail, "tail of {source:?}");
            let total: usize = template.blocks().iter().map(|b| b.html.len()).sum();
            assert_eq!(template.capacity_hint(), total as u64, "hint of {source:?}");
            true
        }
        (Err(e), Err(g)) => {
            assert_eq!(g, e, "error of {source:?}");
            assert_eq!(template.blocks().len(), 0);
            false
        }
        _ => panic!("{source:?}: expected {expected:?}, got {got:?}"),
    }
}

fn every_sequence(pieces: &[&str], longest: usize) -> (usize, usize) {
    let mut partials = partial();
    let mut good = 0;
    let mut all = 0;
    let mut picks = vec![0usize; longest];
    for len in 0..=longest {
        picks.iter_mut().for_each(|p| *p = 0);
        'sources: loop {
            let source: String = picks[..len].iter().map(|p| pieces[*p]).collect();
            all += 1;
            if agree(&source, &mut partials) {
                good += 1;
            }
            let mut i = 0;
            loop {
                if i == len {
                    break 'sources;
                }
                picks[i] += 1;
                if picks[i] < pieces.len() {
                    break;
                }
                picks[i] = 0;
                i += 1;
            }
        }
    }
    (good, all)
}

#[test]
fn agrees_on_every_short_source_of_braces_and_names() {
    let (good, all) = every_sequence(&["{", "}", " ", "a", "#", "/"], 7);
    assert_eq!(all, 335923);
    assert!(good > 1000);
}

#[test]
fn agrees_on_every_short_source_of_sigils() {
    let (good, all) = every_sequence(&["{", "}", "&", "^", "!", ">", "p"], 6);
    assert_eq!(all, 137257);
    assert!(good > 1000);
}

#[test]
fn agrees_on_every_short_run_of_tags() {
    let pieces = ["{{#", "{{/", "{{", "{{{", "}}", "}}}", " ", "a", "b", "x", "{{^", "é"];
    let (good, all) = every_sequence(&pieces, 5);
    assert_eq!(all, 271453);
    assert!(good > 1000);
}

#[test]
fn agrees_on_every_short_run_of_partials_and_comments() {
    let pieces = ["{{>", "{{!", "{{&", "{{#", "{{/", "}}", " ", "p", "q", "}", "{"];
    let (good, all) = every_sequence(&pieces, 5);
    assert_eq!(all, 177156);
    assert!(good > 1000);
}

#[test]
fn agrees_on_deep_nesting() {
    let mut partials = partial();
    for depth in 14..=18 {
        for last in ["", "{{#a}}", "{{#a b}}", "{{#a b", "{{#a", "{{^a b c}}", "{{/s s}}", "{{/s x}}", "{{>p}}"] {
            let open = format!("{}{}", "{{#s}}".repeat(depth), last);
            agree(&open, &mut partials);
            let closed = format!("{}{}", open, "{{/s}}".repeat(depth));
            agree(&closed, &mut partials);
        }
    }
}
