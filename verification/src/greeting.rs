//! The greeting: which capabilities a hello document lists.

use crate::framing::trim;
use crate::framing::trimmed;
use quick_xml::events::Event;
use quick_xml::reader::Reader;
use vstd::prelude::*;
use vstd::string::*;

verus! {

/// What kind of piece of an XML document a reader hands out.
#[derive(Debug, Clone, Copy, PartialEq, Eq, Structural)]
pub enum EventKind {
    /// A start tag, or the opening half of an element written without
    /// content; the text is the element's local name.
    Open,
    /// An end tag, or the closing half of an element written without
    /// content; the text is the element's local name.
    Close,
    /// Character data, or the content of a CDATA section, as written.
    Text,
    /// A reference such as `&amp;`; the text is what stands between `&` and
    /// `;`.
    Reference,
    /// A comment, a declaration, a processing instruction or a document type.
    Other,
    /// The end of the document.
    End,
    /// The document is not well formed here.
    Malformed,
}

/// `quick_xml::Reader`, carried through as it is: nothing inside it is
/// visible here.
#[verifier::external_type_specification]
#[verifier::external_body]
#[verifier::reject_recursive_types(R)]
pub struct ExReader<R>(Reader<R>);

/// What a reader over the document `text` hands out, up to and with the
/// first piece that ends the document.
pub uninterp spec fn document_events(text: Seq<char>) -> Seq<(EventKind, Seq<char>)>;

/// What a reader has not handed out yet, up to and with the first piece that
/// ends the document.
pub uninterp spec fn pending_events(reader: Reader<&[u8]>) -> Seq<(EventKind, Seq<char>)>;

/// What `raw` says once its references are resolved, or nothing where one of
/// them cannot be resolved.
pub uninterp spec fn unescaped(raw: Seq<char>) -> Option<Seq<char>>;

/// Whether a piece of this kind ends the document.
pub open spec fn ends_events(kind: EventKind) -> bool {
    kind == EventKind::End || kind == EventKind::Malformed
}

/// `quick_xml::Reader::from_str`: a reader at the start of `text`, set to
/// hand out an element written without content as a start tag and an end
/// tag. The contract gives what it will hand out a name that depends on
/// `text` alone.
#[verifier::external_body]
fn reader_over<'a>(text: &'a str) -> (reader: Reader<&'a [u8]>)
    ensures
        pending_events(reader) == document_events(text@),
{
    let mut reader = Reader::from_str(text);
    reader.config_mut().expand_empty_elements = true;
    reader
}

/// `quick_xml::Reader::read_event`: the next piece of the document. The
/// contract says that it is the first of those pending, that it is the last
/// of them where it ends the document, and that the others stay pending
/// where it does not; it says nothing of what the piece holds.
#[verifier::external_body]
fn next_event(reader: &mut Reader<&[u8]>) -> (event: (EventKind, String))
    ensures
        pending_events(*old(reader)).len() > 0,
        (event.0, event.1@) == pending_events(*old(reader))[0],
        if ends_events(event.0) {
            pending_events(*old(reader)).len() == 1
        } else {
            pending_events(*final(reader)) == pending_events(*old(reader)).drop_first()
        },
{
    match reader.read_event() {
        Ok(Event::Start(e)) => (EventKind::Open, e.local_name().into_inner().into()),
        Ok(Event::End(e)) => (EventKind::Close, e.local_name().into_inner().into()),
        Ok(Event::Text(t)) => (EventKind::Text, (&*t).into()),
        Ok(Event::CData(t)) => (EventKind::Text, (&*t).into()),
        Ok(Event::GeneralRef(r)) => (EventKind::Reference, (&*r).into()),
        Ok(Event::Eof) => (EventKind::End, String::new()),
        Ok(_) => (EventKind::Other, String::new()),
        Err(_) => (EventKind::Malformed, String::new()),
    }
}

/// `quick_xml::escape::unescape`: `raw` with its references resolved, or
/// nothing where one of them cannot be resolved.
#[verifier::external_body]
fn unescape(raw: &str) -> (plain: Option<String>)
    ensures
        match plain {
            Some(text) => unescaped(raw@) == Some(text@),
            None => unescaped(raw@) is None,
        },
{
    quick_xml::escape::unescape(raw).ok().map(std::borrow::Cow::into_owned)
}

/// What kind of piece of a document a token is.
#[derive(Debug, Clone, Copy, PartialEq, Eq, Structural)]
pub enum TokenKind {
    /// The opening of an element; the token's text is its local name.
    Open,
    /// The closing of an element; the token's text is its local name.
    Close,
    /// Text, with nothing left in it to resolve.
    Text,
    /// A comment, a declaration, a processing instruction or a document type.
    Other,
    /// The end of the document.
    End,
    /// The document is not well formed here.
    Malformed,
}

/// A piece of a document.
#[derive(Debug, Clone, PartialEq, Eq)]
pub struct Token {
    /// What kind of piece it is.
    pub kind: TokenKind,
    /// The name of the element, or the text.
    pub text: String,
}

impl View for Token {
    type V = (TokenKind, Seq<char>);

    open spec fn view(&self) -> (TokenKind, Seq<char>) {
        (self.kind, self.text@)
    }
}

/// The tokens of `list` as values of specifications.
pub open spec fn token_views(list: Seq<Token>) -> Seq<(TokenKind, Seq<char>)> {
    list.map_values(|token: Token| token@)
}

/// The token that a piece handed out by a reader becomes: a reference turns
/// into the text that it stands for, or breaks the document where it stands
/// for none; every other piece stays what it is.
pub open spec fn resolved(event: (EventKind, Seq<char>)) -> (TokenKind, Seq<char>) {
    match event.0 {
        EventKind::Open => (TokenKind::Open, event.1),
        EventKind::Close => (TokenKind::Close, event.1),
        EventKind::Text => (TokenKind::Text, event.1),
        EventKind::Reference => match unescaped(seq!['&'] + event.1 + seq![';']) {
            Some(plain) => (TokenKind::Text, plain),
            None => (TokenKind::Malformed, Seq::empty()),
        },
        EventKind::Other => (TokenKind::Other, event.1),
        EventKind::End => (TokenKind::End, event.1),
        EventKind::Malformed => (TokenKind::Malformed, event.1),
    }
}

/// The tokens of the document `text`, up to and with the end of the
/// document or the place where a reader gives up on it.
pub open spec fn document_tokens(text: Seq<char>) -> Seq<(TokenKind, Seq<char>)> {
    document_events(text).map_values(|event: (EventKind, Seq<char>)| resolved(event))
}

/// The token that a piece handed out by a reader becomes.
fn resolve(kind: EventKind, text: String) -> (token: Token)
    ensures
        token@ == resolved((kind, text@)),
{
    match kind {
        EventKind::Open => Token { kind: TokenKind::Open, text },
        EventKind::Close => Token { kind: TokenKind::Close, text },
        EventKind::Text => Token { kind: TokenKind::Text, text },
        EventKind::Reference => {
            let mut raw = String::from_str("&");
            raw.append(text.as_str());
            raw.append(";");
            proof {
                reveal_strlit("&");
                reveal_strlit(";");
                assert(raw@ =~= seq!['&'] + text@ + seq![';']);
            }
            match unescape(raw.as_str()) {
                Some(plain) => Token { kind: TokenKind::Text, text: plain },
                None => Token { kind: TokenKind::Malformed, text: String::new() },
            }
        },
        EventKind::Other => Token { kind: TokenKind::Other, text },
        EventKind::End => Token { kind: TokenKind::End, text },
        EventKind::Malformed => Token { kind: TokenKind::Malformed, text },
    }
}

/// The tokens of the document `text`.
pub fn tokenize(text: &str) -> (tokens: Vec<Token>)
    ensures
        token_views(tokens@) == document_tokens(text@),
{
    let ghost events = document_events(text@);
    let mut reader = reader_over(text);
    let mut tokens: Vec<Token> = Vec::new();
    loop
        invariant
            events == document_events(text@),
            tokens@.len() <= events.len(),
            pending_events(reader) == events.skip(tokens@.len() as int),
            forall|i: int| 0 <= i < tokens@.len() ==> (#[trigger] tokens@[i])@ == resolved(events[i]),
        decreases events.len() - tokens@.len(),
    {
        let event = next_event(&mut reader);
        let ghost at = tokens@.len() as int;
        assert(events.skip(at)[0] == events[at]);
        assert(events.skip(at).drop_first() =~= events.skip(at + 1));
        let last = match event.0 {
            EventKind::End => true,
            EventKind::Malformed => true,
            _ => false,
        };
        tokens.push(resolve(event.0, event.1));
        if last {
            assert(token_views(tokens@) =~= document_tokens(text@));
            return tokens;
        }
    }
}

/// The capability that every peer must list.
pub const BASE_CAPABILITY: &'static str = "urn:ietf:params:netconf:base:1.0";

/// Why a greeting was not accepted.
#[derive(Debug, Clone, Copy, PartialEq, Eq, Structural)]
pub enum GreetingError {
    /// The greeting is not a well-formed document.
    Malformed,
    /// The greeting lists no capability at all.
    NoCapabilities,
    /// The greeting lists capabilities, and the base capability is not one
    /// of them.
    MissingBaseCapability,
}

/// The local names on the way down to a capability: `hello`, `capabilities`,
/// `capability`.
pub open spec fn path_name(level: int) -> Seq<char> {
    if level == 0 {
        "hello"@
    } else if level == 1 {
        "capabilities"@
    } else {
        "capability"@
    }
}

/// Where a walk through a greeting stands.
pub struct Walk {
    /// How many elements are open.
    pub depth: int,
    /// How many of them, from the outermost in, are on the way down to a
    /// capability.
    pub matched: int,
    /// The text gathered so far of the capability that is open.
    pub text: Seq<char>,
    /// The capabilities closed so far.
    pub found: Seq<Seq<char>>,
    /// Whether the document has turned out to be malformed.
    pub broken: bool,
}

/// The walk before the first token.
pub open spec fn walk_start() -> Walk {
    Walk { depth: 0, matched: 0, text: Seq::empty(), found: Seq::empty(), broken: false }
}

/// Whether the walk stands directly inside a capability element.
pub open spec fn inside_capability(walk: Walk) -> bool {
    walk.matched == 3 && walk.depth == 3
}

/// The walk after one more token. A capability is an element `capability`
/// directly inside `capabilities` directly inside the outermost `hello`; its
/// text is the text directly inside it, without enclosing whitespace.
/// Everything else in the document is passed over. An end tag with no
/// element open, and the end of the document with one open, break the
/// document.
pub open spec fn walk_step(walk: Walk, kind: TokenKind, text: Seq<char>) -> Walk {
    match kind {
        TokenKind::Open => if walk.matched == walk.depth && walk.depth < 3 && text == path_name(
            walk.depth,
        ) {
            Walk {
                depth: walk.depth + 1,
                matched: walk.matched + 1,
                text: Seq::empty(),
                ..walk
            }
        } else {
            Walk { depth: walk.depth + 1, ..walk }
        },
        TokenKind::Close => if walk.depth <= 0 {
            Walk { broken: true, ..walk }
        } else if inside_capability(walk) {
            Walk {
                depth: 2,
                matched: 2,
                text: Seq::empty(),
                found: walk.found.push(trimmed(walk.text)),
                ..walk
            }
        } else if walk.matched == walk.depth {
            Walk { depth: walk.depth - 1, matched: walk.matched - 1, ..walk }
        } else {
            Walk { depth: walk.depth - 1, ..walk }
        },
        TokenKind::Text => if inside_capability(walk) {
            Walk { text: walk.text + text, ..walk }
        } else {
            walk
        },
        TokenKind::Other => walk,
        TokenKind::End => if walk.depth != 0 {
            Walk { broken: true, ..walk }
        } else {
            walk
        },
        TokenKind::Malformed => Walk { broken: true, ..walk },
    }
}

/// Whether a token of this kind ends the document.
pub open spec fn ends_document(kind: TokenKind) -> bool {
    kind == TokenKind::End || kind == TokenKind::Malformed
}

/// The walk after `tokens`, which stops at the first token that ends the
/// document and at the first that breaks it.
pub open spec fn walk_through(walk: Walk, tokens: Seq<(TokenKind, Seq<char>)>) -> Walk
    decreases tokens.len(),
{
    if tokens.len() == 0 {
        walk
    } else {
        let next = walk_step(walk, tokens[0].0, tokens[0].1);
        if next.broken || ends_document(tokens[0].0) {
            next
        } else {
            walk_through(next, tokens.drop_first())
        }
    }
}

/// The capabilities that a document with these tokens lists, in the order
/// of the document, or nothing where the document is malformed.
pub open spec fn listed_capabilities(tokens: Seq<(TokenKind, Seq<char>)>) -> Option<
    Seq<Seq<char>>,
> {
    let end = walk_through(walk_start(), tokens);
    if end.broken {
        None
    } else {
        Some(end.found)
    }
}

/// The texts of `list`.
pub open spec fn texts(list: Seq<String>) -> Seq<Seq<char>> {
    list.map_values(|text: String| text@)
}

/// A walk through a greeting, as it runs.
struct Walker {
    depth: usize,
    matched: usize,
    text: String,
    found: Vec<String>,
    broken: bool,
}

impl View for Walker {
    type V = Walk;

    closed spec fn view(&self) -> Walk {
        Walk {
            depth: self.depth as int,
            matched: self.matched as int,
            text: self.text@,
            found: texts(self.found@),
            broken: self.broken,
        }
    }
}

impl Walker {
    /// Whether the counters are in step: what is matched is open, and no more
    /// than the three levels of the way down can be matched.
    spec fn in_step(&self) -> bool {
        self.matched <= self.depth && self.matched <= 3
    }

    fn new() -> (walker: Walker)
        ensures
            walker@ == walk_start(),
            walker.in_step(),
    {
        let walker = Walker {
            depth: 0,
            matched: 0,
            text: String::new(),
            found: Vec::new(),
            broken: false,
        };
        assert(texts(walker.found@) =~= Seq::empty());
        walker
    }

    /// Closes the capability that is open.
    fn close_capability(&mut self)
        requires
            old(self).in_step(),
            inside_capability(old(self)@),
        ensures
            final(self)@ == walk_step(old(self)@, TokenKind::Close, Seq::empty()),
            final(self).in_step(),
    {
        let entry = String::from_str(trim(self.text.as_str()));
        let ghost before = self.found@;
        self.found.push(entry);
        self.text = String::new();
        self.depth = 2;
        self.matched = 2;
        assert(texts(self.found@) =~= texts(before).push(entry@));
    }

    /// Takes one more token.
    fn step(&mut self, kind: TokenKind, text: &str)
        requires
            old(self).in_step(),
            old(self).depth < usize::MAX,
        ensures
            final(self)@ == walk_step(old(self)@, kind, text@),
            final(self).in_step(),
            final(self).depth <= old(self).depth + 1,
    {
        proof {
            reveal_strlit("hello");
            reveal_strlit("capabilities");
            reveal_strlit("capability");
        }
        let inside = self.matched == 3 && self.depth == 3;
        match kind {
            TokenKind::Open => {
                let on_path = self.matched == self.depth && self.depth < 3 && same_text(
                    text,
                    level_name(self.depth),
                );
                if on_path {
                    self.matched = self.matched + 1;
                    self.text = String::new();
                }
                self.depth = self.depth + 1;
            },
            TokenKind::Close => {
                if self.depth == 0 {
                    self.broken = true;
                } else if inside {
                    self.close_capability();
                } else {
                    if self.matched == self.depth {
                        self.matched = self.matched - 1;
                    }
                    self.depth = self.depth - 1;
                }
            },
            TokenKind::Text => {
                if inside {
                    self.text.append(text);
                }
            },
            TokenKind::Other => {},
            TokenKind::End => {
                if self.depth != 0 {
                    self.broken = true;
                }
            },
            TokenKind::Malformed => {
                self.broken = true;
            },
        }
    }
}

/// The local name at `level` of the way down to a capability.
fn level_name(level: usize) -> (name: &'static str)
    ensures
        name@ == path_name(level as int),
{
    if level == 0 {
        "hello"
    } else if level == 1 {
        "capabilities"
    } else {
        "capability"
    }
}

/// Whether two texts are the same.
fn same_text(left: &str, right: &str) -> (same: bool)
    ensures
        same == (left@ == right@),
{
    let a = String::from_str(left);
    let b = String::from_str(right);
    a == b
}

/// The capabilities that a document with these tokens lists, in the order
/// of the document, or nothing where the document is malformed.
pub fn list_capabilities(tokens: &Vec<Token>) -> (listed: Option<Vec<String>>)
    ensures
        match listed {
            Some(list) => listed_capabilities(token_views(tokens@)) == Some(texts(list@)),
            None => listed_capabilities(token_views(tokens@)) is None,
        },
{
    let ghost all = token_views(tokens@);
    let mut walker = Walker::new();
    let mut at: usize = 0;
    assert(all.skip(0) =~= all);
    while at < tokens.len()
        invariant
            all == token_views(tokens@),
            at <= tokens@.len(),
            walker.in_step(),
            !walker.broken,
            walker.depth <= at,
            walk_through(walker@, all.skip(at as int)) == walk_through(walk_start(), all),
        decreases tokens@.len() - at,
    {
        let token = &tokens[at];
        proof {
            assert(all.skip(at as int)[0] == token@);
            assert(all.skip(at as int).drop_first() =~= all.skip(at + 1));
        }
        walker.step(token.kind, token.text.as_str());
        if walker.broken {
            return None;
        }
        match token.kind {
            TokenKind::End => {
                return Some(walker.found);
            },
            _ => {},
        }
        at = at + 1;
    }
    Some(walker.found)
}

/// What a list of capabilities is worth as a greeting: it must not be empty,
/// and the base capability must be in it.
pub open spec fn capabilities_verdict(list: Seq<Seq<char>>) -> Result<(), GreetingError> {
    if list.len() == 0 {
        Err(GreetingError::NoCapabilities)
    } else if !list.contains(BASE_CAPABILITY@) {
        Err(GreetingError::MissingBaseCapability)
    } else {
        Ok(())
    }
}

/// What the document `greeting` is worth as a greeting.
pub open spec fn greeting_verdict(greeting: Seq<char>) -> Result<(), GreetingError> {
    match listed_capabilities(document_tokens(greeting)) {
        None => Err(GreetingError::Malformed),
        Some(list) => capabilities_verdict(list),
    }
}

/// Accepts a list of capabilities that is not empty and holds the base
/// capability.
pub fn check_capabilities(list: &Vec<String>) -> (verdict: Result<(), GreetingError>)
    ensures
        verdict == capabilities_verdict(texts(list@)),
{
    if list.len() == 0 {
        return Err(GreetingError::NoCapabilities);
    }
    let mut at: usize = 0;
    while at < list.len()
        invariant
            at <= list@.len(),
            forall|i: int| 0 <= i < at ==> #[trigger] texts(list@)[i] != BASE_CAPABILITY@,
        decreases list@.len() - at,
    {
        if same_text(list[at].as_str(), BASE_CAPABILITY) {
            assert(texts(list@)[at as int] == BASE_CAPABILITY@);
            return Ok(());
        }
        at = at + 1;
    }
    Err(GreetingError::MissingBaseCapability)
}

/// The capabilities that the document `text` lists, in its order, or nothing
/// where the document is malformed.
pub fn read_capabilities(text: &str) -> (listed: Option<Vec<String>>)
    ensures
        match listed {
            Some(list) => listed_capabilities(document_tokens(text@)) == Some(texts(list@)),
            None => listed_capabilities(document_tokens(text@)) is None,
        },
{
    let tokens = tokenize(text);
    list_capabilities(&tokens)
}

/// Accepts a greeting that is well formed and lists the base capability.
pub fn check_greeting(greeting: &str) -> (verdict: Result<(), GreetingError>)
    ensures
        verdict == greeting_verdict(greeting@),
{
    match read_capabilities(greeting) {
        None => Err(GreetingError::Malformed),
        Some(list) => check_capabilities(&list),
    }
}

} // verus!
