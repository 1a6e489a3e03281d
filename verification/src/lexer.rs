//! The lexer: where tags start, what kind they are, and the names and the
//! closing braces inside them.
//!
//! It has two modes. Outside a tag it looks for the next `{{`, passing over
//! everything else. Inside a tag it passes over spaces and reads either a
//! name or the closing braces. All of it is defined on the bytes of the
//! source: every byte the lexer compares with is ASCII, so what it cuts out
//! is text again.

use crate::block::Tag;
use crate::text::{cut_point, lemma_cut_after_ascii, lemma_cut_before_ascii, lemma_str_bytes, slice};
use vstd::prelude::*;
use vstd::string::StringSliceAdditionalSpecFns;

verus! {

/// `{`
pub const OPEN: u8 = 0x7b;

/// `}`
pub const CLOSE: u8 = 0x7d;

/// The space that separates names.
pub const SPACE: u8 = 0x20;

/// How many closing braces a tag asks for.
#[derive(Clone, Copy, Debug, PartialEq, Eq, Structural)]
pub enum Braces {
    Two,
    Three,
}

impl Braces {
    /// The number of braces.
    pub open spec fn count(self) -> int {
        match self {
            Braces::Two => 2,
            Braces::Three => 3,
        }
    }

    /// The number of braces.
    pub fn len(self) -> (n: usize)
        ensures
            n == self.count(),
    {
        match self {
            Braces::Two => 2,
            Braces::Three => 3,
        }
    }
}

impl Default for Braces {
    /// Tags close with two braces unless they opened with three.
    fn default() -> (braces: Self)
        ensures
            braces == Braces::Two,
    {
        Braces::Two
    }
}

/// A tag starts at `i`: two opening braces stand there.
pub open spec fn opens_at(s: Seq<u8>, i: int) -> bool {
    0 <= i && i + 1 < s.len() && s[i] == OPEN && s[i + 1] == OPEN
}

/// Where the first tag at or after `from` starts; the length of the source
/// when there is none.
pub open spec fn find_open(s: Seq<u8>, from: int) -> int
    decreases s.len() - from,
{
    if from < 0 || from >= s.len() {
        s.len() as int
    } else if opens_at(s, from) {
        from
    } else {
        find_open(s, from + 1)
    }
}

/// What the start of a tag says: its kind, the braces it will close with,
/// and how many bytes say so.
pub struct Sigil {
    pub tag: Tag,
    pub braces: Braces,
    pub len: int,
}

/// The sigil of the tag that starts at `i`: the two braces and, where it is
/// one of `& { # ^ / > !`, the byte behind them.
pub open spec fn sigil_at(s: Seq<u8>, i: int) -> Sigil {
    if i + 2 < s.len() {
        let mark = s[i + 2];
        if mark == 0x26 {
            Sigil { tag: Tag::Unescaped, braces: Braces::Two, len: 3 }
        } else if mark == OPEN {
            Sigil { tag: Tag::Unescaped, braces: Braces::Three, len: 3 }
        } else if mark == 0x23 {
            Sigil { tag: Tag::Section, braces: Braces::Two, len: 3 }
        } else if mark == 0x5e {
            Sigil { tag: Tag::Inverse, braces: Braces::Two, len: 3 }
        } else if mark == 0x2f {
            Sigil { tag: Tag::Closing, braces: Braces::Two, len: 3 }
        } else if mark == 0x3e {
            Sigil { tag: Tag::Partial, braces: Braces::Two, len: 3 }
        } else if mark == 0x21 {
            Sigil { tag: Tag::Comment, braces: Braces::Two, len: 3 }
        } else {
            Sigil { tag: Tag::Escaped, braces: Braces::Two, len: 2 }
        }
    } else {
        Sigil { tag: Tag::Escaped, braces: Braces::Two, len: 2 }
    }
}

/// The first position at or after `i` that holds no space.
pub open spec fn skip_spaces(s: Seq<u8>, i: int) -> int
    decreases s.len() - i,
{
    if 0 <= i < s.len() && s[i] == SPACE {
        skip_spaces(s, i + 1)
    } else {
        i
    }
}

/// A byte that can stand in a name: any but a space and a closing brace.
pub open spec fn is_name_byte(b: u8) -> bool {
    b != SPACE && b != CLOSE
}

/// The first position at or after `i` that holds no byte of a name.
pub open spec fn name_end(s: Seq<u8>, i: int) -> int
    decreases s.len() - i,
{
    if 0 <= i < s.len() && is_name_byte(s[i]) {
        name_end(s, i + 1)
    } else {
        i
    }
}

/// The braces a tag asked for stand at `i`. More may follow.
pub open spec fn closes_at(s: Seq<u8>, i: int, braces: Braces) -> bool {
    &&& 0 <= i
    &&& i + braces.count() <= s.len()
    &&& s[i] == CLOSE
    &&& s[i + 1] == CLOSE
    &&& braces == Braces::Three ==> s[i + 2] == CLOSE
}

/// What the lexer reads inside a tag.
pub enum Lexeme {
    /// A name, from `start` up to `end`.
    Ident { start: int, end: int },
    /// The closing braces, at `at`.
    Match { at: int },
    /// Nothing that belongs in a tag: the source ended, or too few closing
    /// braces stand here.
    Stop,
}

/// The lexeme at or after `i`, behind any spaces.
pub open spec fn lexeme_at(s: Seq<u8>, i: int, braces: Braces) -> Lexeme {
    let j = skip_spaces(s, i);
    if j < 0 || j >= s.len() {
        Lexeme::Stop
    } else if s[j] == CLOSE {
        if closes_at(s, j, braces) {
            Lexeme::Match { at: j }
        } else {
            Lexeme::Stop
        }
    } else {
        Lexeme::Ident { start: j, end: name_end(s, j) }
    }
}

/// The inside of a tag: its names, and whether and where it closes.
pub struct Body {
    pub names: Seq<Seq<u8>>,
    pub closed: bool,
    /// Where the closing braces stand, for a tag that closes.
    pub at: int,
}

/// The inside of the tag whose names start at or after `i`: the names up to
/// the first lexeme that is none.
pub open spec fn scan_body(s: Seq<u8>, i: int, braces: Braces) -> Body
    decreases s.len() - i,
    via scan_body_decreases
{
    match lexeme_at(s, i, braces) {
        Lexeme::Ident { start, end } => {
            let rest = scan_body(s, end, braces);
            Body {
                names: seq![s.subrange(start, end)] + rest.names,
                closed: rest.closed,
                at: rest.at,
            }
        },
        Lexeme::Match { at } => Body { names: Seq::empty(), closed: true, at },
        Lexeme::Stop => Body { names: Seq::empty(), closed: false, at: s.len() as int },
    }
}

#[via_fn]
proof fn scan_body_decreases(s: Seq<u8>, i: int, braces: Braces) {
    lemma_skip_spaces_bounds(s, i);
    lemma_name_end_bounds(s, skip_spaces(s, i));
}

/// Skipping spaces never goes back, and stays inside the source.
pub proof fn lemma_skip_spaces_bounds(s: Seq<u8>, i: int)
    ensures
        i <= skip_spaces(s, i),
        0 <= i <= s.len() ==> skip_spaces(s, i) <= s.len(),
        forall|k: int| i <= k < skip_spaces(s, i) ==> s[k] == SPACE,
        0 <= skip_spaces(s, i) < s.len() ==> s[skip_spaces(s, i)] != SPACE,
    decreases s.len() - i,
{
    if 0 <= i < s.len() && s[i] == SPACE {
        lemma_skip_spaces_bounds(s, i + 1);
    }
}

/// A name ends behind its first byte or later, inside the source, and
/// holds bytes of names only; what stands behind it is none.
pub proof fn lemma_name_end_bounds(s: Seq<u8>, i: int)
    ensures
        i <= name_end(s, i),
        0 <= i <= s.len() ==> name_end(s, i) <= s.len(),
        0 <= i < s.len() && is_name_byte(s[i]) ==> i < name_end(s, i),
        forall|k: int| i <= k < name_end(s, i) ==> is_name_byte(s[k]),
        0 <= name_end(s, i) < s.len() ==> !is_name_byte(s[name_end(s, i)]),
    decreases s.len() - i,
{
    if 0 <= i < s.len() && is_name_byte(s[i]) {
        lemma_name_end_bounds(s, i + 1);
    }
}

/// The first tag at or after `from` starts at or after `from`, no tag
/// starts in between, and a tag does start there unless the source is over.
pub proof fn lemma_find_open(s: Seq<u8>, from: int)
    requires
        0 <= from <= s.len(),
    ensures
        from <= find_open(s, from) <= s.len(),
        find_open(s, from) < s.len() ==> opens_at(s, find_open(s, from)),
        forall|k: int| from <= k < find_open(s, from) ==> !opens_at(s, k),
    decreases s.len() - from,
{
    if from < s.len() && !opens_at(s, from) {
        lemma_find_open(s, from + 1);
    }
}

/// A tag that closes does so behind where its names started, with all its
/// braces inside the source.
pub proof fn lemma_scan_body_bounds(s: Seq<u8>, i: int, braces: Braces)
    requires
        0 <= i <= s.len(),
    ensures
        scan_body(s, i, braces).closed ==> i <= scan_body(s, i, braces).at && closes_at(
            s,
            scan_body(s, i, braces).at,
            braces,
        ),
    decreases s.len() - i,
{
    lemma_skip_spaces_bounds(s, i);
    lemma_name_end_bounds(s, skip_spaces(s, i));
    match lexeme_at(s, i, braces) {
        Lexeme::Ident { start, end } => {
            lemma_scan_body_bounds(s, end, braces);
        },
        _ => {},
    }
}

/// The start of a tag as the lexer found it.
#[derive(Clone, Copy, Debug, PartialEq, Eq)]
pub struct Opening {
    /// Where the tag's first brace stands.
    pub start: usize,
    /// The kind of the tag.
    pub tag: Tag,
    /// The braces it closes with.
    pub braces: Braces,
    /// Where the sigil ends and the names begin.
    pub end: usize,
}

impl Opening {
    /// This is the tag that starts at `start` in `s`.
    pub open spec fn matches(self, s: Seq<u8>) -> bool {
        &&& opens_at(s, self.start as int)
        &&& self.tag == sigil_at(s, self.start as int).tag
        &&& self.braces == sigil_at(s, self.start as int).braces
        &&& self.end == self.start + sigil_at(s, self.start as int).len
        &&& self.end <= s.len()
    }
}

/// Finds the first tag at or after `from`.
pub fn find_tag(source: &str, from: usize) -> (found: Option<Opening>)
    ensures
        match found {
            None => find_open(source.spec_bytes(), from as int) == source.spec_bytes().len(),
            Some(opening) => opening.start == find_open(source.spec_bytes(), from as int)
                && opening.matches(source.spec_bytes()),
        },
{
    let bytes = source.as_bytes();
    let n = bytes.len();
    let mut i: usize = from;
    while i < n && n - i > 1
        invariant
            n == bytes@.len(),
            bytes@ == source.spec_bytes(),
            from <= i,
            find_open(bytes@, from as int) == find_open(bytes@, i as int),
        decreases n - i,
    {
        if bytes[i] == OPEN && bytes[i + 1] == OPEN {
            let start = i;
            if n - i > 2 {
                let mark = bytes[i + 2];
                if mark == 0x26 {
                    return Some(
                        Opening { start, tag: Tag::Unescaped, braces: Braces::Two, end: i + 3 },
                    );
                } else if mark == OPEN {
                    return Some(
                        Opening { start, tag: Tag::Unescaped, braces: Braces::Three, end: i + 3 },
                    );
                } else if mark == 0x23 {
                    return Some(
                        Opening { start, tag: Tag::Section, braces: Braces::Two, end: i + 3 },
                    );
                } else if mark == 0x5e {
                    return Some(
                        Opening { start, tag: Tag::Inverse, braces: Braces::Two, end: i + 3 },
                    );
                } else if mark == 0x2f {
                    return Some(
                        Opening { start, tag: Tag::Closing, braces: Braces::Two, end: i + 3 },
                    );
                } else if mark == 0x3e {
                    return Some(
                        Opening { start, tag: Tag::Partial, braces: Braces::Two, end: i + 3 },
                    );
                } else if mark == 0x21 {
                    return Some(
                        Opening { start, tag: Tag::Comment, braces: Braces::Two, end: i + 3 },
                    );
                }
            }
            return Some(Opening { start, tag: Tag::Escaped, braces: Braces::Two, end: i + 2 });
        }
        i += 1;
    }
    proof {
        if i < n {
            assert(!opens_at(bytes@, i as int));
            assert(find_open(bytes@, i as int) == find_open(bytes@, i + 1));
        }
    }
    None
}

/// How many times two opening braces stand in the source from `from` on,
/// none of them counted twice.
pub open spec fn count_opens(s: Seq<u8>, from: int) -> nat
    decreases s.len() - from,
    via count_opens_decreases
{
    let start = find_open(s, from);
    if from < 0 || start >= s.len() {
        0
    } else {
        1 + count_opens(s, start + 2)
    }
}

#[via_fn]
proof fn count_opens_decreases(s: Seq<u8>, from: int) {
    if 0 <= from <= s.len() {
        lemma_find_open(s, from);
    }
}

/// Counts the places where a tag may start: an estimate of how many blocks
/// a source will give.
pub fn count_tags(source: &str) -> (n: usize)
    ensures
        n == count_opens(source.spec_bytes(), 0),
{
    let ghost s = source.spec_bytes();
    let mut n: usize = 0;
    let mut from: usize = 0;
    loop
        invariant
            s == source.spec_bytes(),
            n <= from,
            count_opens(s, 0) == n + count_opens(s, from as int),
        decreases s.len() - from,
    {
        proof {
            if from <= s.len() {
                lemma_find_open(s, from as int);
            }
        }
        match find_tag(source, from) {
            None => {
                return n;
            },
            Some(opening) => {
                n += 1;
                from = opening.start + 2;
            },
        }
    }
}

/// What the lexer read inside a tag.
#[derive(Clone, Copy, Debug, PartialEq, Eq)]
pub enum Token {
    /// A name, from `start` up to `end`.
    Ident { start: usize, end: usize },
    /// The closing braces, at `at`.
    Match { at: usize },
    /// Nothing that belongs in a tag.
    Stop,
}

impl View for Token {
    type V = Lexeme;

    open spec fn view(&self) -> Lexeme {
        match *self {
            Token::Ident { start, end } => Lexeme::Ident { start: start as int, end: end as int },
            Token::Match { at } => Lexeme::Match { at: at as int },
            Token::Stop => Lexeme::Stop,
        }
    }
}

/// Reads the next token inside a tag, at or after `from`.
pub fn next_token(source: &str, from: usize, braces: Braces) -> (token: Token)
    ensures
        token@ == lexeme_at(source.spec_bytes(), from as int, braces),
{
    let bytes = source.as_bytes();
    let n = bytes.len();
    let mut i: usize = from;
    while i < n && bytes[i] == SPACE
        invariant
            n == bytes@.len(),
            from <= i,
            skip_spaces(bytes@, from as int) == skip_spaces(bytes@, i as int),
        decreases n - i,
    {
        i += 1;
    }
    if i >= n {
        return Token::Stop;
    }
    if bytes[i] == CLOSE {
        let enough = match braces {
            Braces::Two => n - i >= 2 && bytes[i + 1] == CLOSE,
            Braces::Three => n - i >= 3 && bytes[i + 1] == CLOSE && bytes[i + 2] == CLOSE,
        };
        if enough {
            return Token::Match { at: i };
        }
        return Token::Stop;
    }
    let mut j: usize = i + 1;
    assert(name_end(bytes@, i as int) == name_end(bytes@, i + 1));
    while j < n && bytes[j] != SPACE && bytes[j] != CLOSE
        invariant
            n == bytes@.len(),
            i < j <= n,
            name_end(bytes@, i as int) == name_end(bytes@, j as int),
        decreases n - j,
    {
        j += 1;
    }
    Token::Ident { start: i, end: j }
}

/// The inside of a tag as the lexer read it.
#[derive(Debug)]
pub struct TagBody<'a> {
    /// The names in the tag, in order.
    pub names: Vec<&'a str>,
    /// Whether the closing braces were found.
    pub closed: bool,
    /// Where they stand, when they were found.
    pub at: usize,
}

/// The bytes of each name.
pub open spec fn name_bytes(names: Seq<&str>) -> Seq<Seq<u8>> {
    Seq::new(names.len(), |i: int| names[i].spec_bytes())
}

impl<'a> View for TagBody<'a> {
    type V = Body;

    open spec fn view(&self) -> Body {
        Body { names: name_bytes(self.names@), closed: self.closed, at: self.at as int }
    }
}

impl Body {
    /// The same body with more names in front.
    pub open spec fn after(self, names: Seq<Seq<u8>>) -> Body {
        Body { names: names + self.names, closed: self.closed, at: self.at }
    }
}

/// A name starts and ends where text may be cut, when the lexer set out
/// from such a place.
pub proof fn lemma_ident_cut_points(s: Seq<u8>, i: int, braces: Braces)
    requires
        vstd::utf8::valid_utf8(s),
        cut_point(s, i),
    ensures
        match lexeme_at(s, i, braces) {
            Lexeme::Ident { start, end } => i <= start < end && cut_point(s, start) && cut_point(
                s,
                end,
            ),
            Lexeme::Match { at } => i <= at && closes_at(s, at, braces),
            Lexeme::Stop => true,
        },
{
    lemma_skip_spaces_bounds(s, i);
    let start = skip_spaces(s, i);
    lemma_name_end_bounds(s, start);
    if start < s.len() && s[start] != CLOSE {
        if start > i {
            assert(s[start - 1] == SPACE);
            lemma_cut_after_ascii(s, start - 1);
        }
        let end = name_end(s, start);
        if end < s.len() {
            lemma_cut_before_ascii(s, end);
        } else {
            vstd::utf8::is_char_boundary_start_end_of_seq(s);
        }
    }
}

/// Reads the inside of a tag: the names from `from` on, up to the closing
/// braces or to where the tag breaks off.
pub fn read_body<'a>(source: &'a str, from: usize, braces: Braces) -> (body: TagBody<'a>)
    requires
        cut_point(source.spec_bytes(), from as int),
    ensures
        body@ == scan_body(source.spec_bytes(), from as int, braces),
        body.closed ==> body.at + braces.count() <= usize::MAX,
{
    let ghost s = source.spec_bytes();
    let size = source.as_bytes().len();
    let mut names: Vec<&'a str> = Vec::new();
    let mut at: usize = from;
    proof {
        lemma_str_bytes(source);
        assert(scan_body(s, from as int, braces).after(name_bytes(names@)) =~= scan_body(
            s,
            from as int,
            braces,
        )) by {
            assert(name_bytes(names@) + scan_body(s, from as int, braces).names =~= scan_body(
                s,
                from as int,
                braces,
            ).names);
        }
    }
    loop
        invariant
            s == source.spec_bytes(),
            size == s.len(),
            vstd::utf8::valid_utf8(s),
            cut_point(s, at as int),
            scan_body(s, from as int, braces) == scan_body(s, at as int, braces).after(
                name_bytes(names@),
            ),
        decreases s.len() - at,
    {
        proof {
            lemma_ident_cut_points(s, at as int, braces);
        }
        match next_token(source, at, braces) {
            Token::Ident { start, end } => {
                let name = slice(source, start, end);
                let ghost before = name_bytes(names@);
                names.push(name);
                proof {
                    let rest = scan_body(s, end as int, braces);
                    assert(name_bytes(names@) =~= before.push(
                        s.subrange(start as int, end as int),
                    ));
                    assert(before + (seq![s.subrange(start as int, end as int)] + rest.names)
                        =~= name_bytes(names@) + rest.names);
                }
                at = end;
            },
            Token::Match { at: found } => {
                proof {
                    assert(name_bytes(names@) + Seq::<Seq<u8>>::empty() =~= name_bytes(names@));
                }
                return TagBody { names, closed: true, at: found };
            },
            Token::Stop => {
                proof {
                    assert(name_bytes(names@) + Seq::<Seq<u8>>::empty() =~= name_bytes(names@));
                }
                return TagBody { names, closed: false, at: size };
            },
        }
    }
}


} // verus!
