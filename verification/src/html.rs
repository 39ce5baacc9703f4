//! The markup lexer: one linear scan that splits a document into tag and
//! text tokens, translating the few recognized character entities. Its exact
//! behaviour is pinned by `spec_lex`, a character-at-a-time state machine.

use vstd::prelude::*;

verus! {

use crate::text::{chars_of, string_of, lower_of, lowercase, chars_eq};

/// A lexed token: the lowercased inside of a tag, or a run of text.
#[derive(Debug, PartialEq)]
pub enum Token {
    Tag(String),
    Text(String),
}

pub enum TokenView {
    Tag(Seq<char>),
    Text(Seq<char>),
}

impl View for Token {
    type V = TokenView;

    open spec fn view(&self) -> TokenView {
        match self {
            Token::Tag(s) => TokenView::Tag(s@),
            Token::Text(s) => TokenView::Text(s@),
        }
    }
}

pub open spec fn is_alnum_char(c: char) -> bool {
    ('0' <= c && c <= '9') || ('a' <= c && c <= 'z') || ('A' <= c && c <= 'Z')
}

fn is_alnum_char_exec(c: char) -> (r: bool)
    ensures
        r == is_alnum_char(c),
{
    ('0' <= c && c <= '9') || ('a' <= c && c <= 'z') || ('A' <= c && c <= 'Z')
}

/// The entity names the lexer translates.
pub open spec fn spec_translate_entity(e: Seq<char>) -> Option<Seq<char>> {
    if e == seq!['g', 't'] {
        Some(seq!['>'])
    } else if e == seq!['l', 't'] {
        Some(seq!['<'])
    } else if e == seq!['a', 'm', 'p'] {
        Some(seq!['&'])
    } else if e == seq!['h', 'e', 'l', 'l', 'i', 'p'] {
        Some(seq!['\u{2026}'])
    } else if e == seq!['r', 's', 'q', 'u', 'o'] {
        Some(seq!['\u{2019}'])
    } else if e == seq!['l', 'd', 'q', 'u', 'o'] {
        Some(seq!['\u{201c}'])
    } else if e == seq!['r', 'd', 'q', 'u', 'o'] {
        Some(seq!['\u{201d}'])
    } else {
        None
    }
}

/// The replacement text of a recognized entity name, `None` otherwise.
pub fn translate_entity(entity: &str) -> (r: Option<&str>)
    ensures
        match r {
            Some(t) => spec_translate_entity(entity@) == Some(t@),
            None => spec_translate_entity(entity@) == None::<Seq<char>>,
        },
{
    let e = chars_of(entity);
    proof {
        reveal_strlit("gt");
        reveal_strlit("lt");
        reveal_strlit("amp");
        reveal_strlit("hellip");
        reveal_strlit("rsquo");
        reveal_strlit("ldquo");
        reveal_strlit("rdquo");
        reveal_strlit(">");
        reveal_strlit("<");
        reveal_strlit("&");
        reveal_strlit("\u{2026}");
        reveal_strlit("\u{2019}");
        reveal_strlit("\u{201c}");
        reveal_strlit("\u{201d}");
        assert("gt"@ =~= seq!['g', 't']);
        assert("lt"@ =~= seq!['l', 't']);
        assert("amp"@ =~= seq!['a', 'm', 'p']);
        assert("hellip"@ =~= seq!['h', 'e', 'l', 'l', 'i', 'p']);
        assert("rsquo"@ =~= seq!['r', 's', 'q', 'u', 'o']);
        assert("ldquo"@ =~= seq!['l', 'd', 'q', 'u', 'o']);
        assert("rdquo"@ =~= seq!['r', 'd', 'q', 'u', 'o']);
        assert(">"@ =~= seq!['>']);
        assert("<"@ =~= seq!['<']);
        assert("&"@ =~= seq!['&']);
        assert("\u{2026}"@ =~= seq!['\u{2026}']);
        assert("\u{2019}"@ =~= seq!['\u{2019}']);
        assert("\u{201c}"@ =~= seq!['\u{201c}']);
        assert("\u{201d}"@ =~= seq!['\u{201d}']);
    }
    if chars_eq(&e, &chars_of("gt")) {
        Some(">")
    } else if chars_eq(&e, &chars_of("lt")) {
        Some("<")
    } else if chars_eq(&e, &chars_of("amp")) {
        Some("&")
    } else if chars_eq(&e, &chars_of("hellip")) {
        Some("\u{2026}")
    } else if chars_eq(&e, &chars_of("rsquo")) {
        Some("\u{2019}")
    } else if chars_eq(&e, &chars_of("ldquo")) {
        Some("\u{201c}")
    } else if chars_eq(&e, &chars_of("rdquo")) {
        Some("\u{201d}")
    } else {
        None
    }
}

// ---------------------------------------------------------------------------
// The lexer state machine
// ---------------------------------------------------------------------------

/// The scanner state: emitted tokens, the text or tag being accumulated,
/// the entity name being accumulated, and the two mode flags.
pub struct LexState {
    pub out: Seq<TokenView>,
    pub buffer: Seq<char>,
    pub entity: Seq<char>,
    pub in_tag: bool,
    pub in_entity: bool,
}

pub open spec fn lex_init() -> LexState {
    LexState {
        out: Seq::empty(),
        buffer: Seq::empty(),
        entity: Seq::empty(),
        in_tag: false,
        in_entity: false,
    }
}

/// One scanned character. `<` flushes any pending entity and text and opens
/// a tag; `>` closes it, emitting the lowercased tag; `&` outside a tag
/// starts an entity; inside an entity, alphanumerics accumulate, `;` ends it
/// through the translation table, and anything else abandons it (that
/// character itself is dropped); every other character joins the buffer.
pub open spec fn lex_step(st: LexState, c: char) -> LexState {
    if c == '<' {
        let flushed = if st.in_entity {
            LexState { buffer: st.buffer + seq!['&'] + st.entity, entity: Seq::empty(), in_entity: false, ..st }
        } else {
            st
        };
        let emitted = if flushed.buffer.len() > 0 {
            LexState {
                out: flushed.out.push(TokenView::Text(flushed.buffer)),
                buffer: Seq::empty(),
                ..flushed
            }
        } else {
            flushed
        };
        LexState { in_tag: true, ..emitted }
    } else if c == '>' {
        LexState {
            out: st.out.push(TokenView::Tag(lower_of(st.buffer))),
            buffer: Seq::empty(),
            in_tag: false,
            ..st
        }
    } else if c == '&' && !st.in_tag {
        LexState { in_entity: true, ..st }
    } else if st.in_entity && !st.in_tag {
        if is_alnum_char(c) {
            LexState { entity: st.entity.push(c), ..st }
        } else if c == ';' {
            let replaced = match spec_translate_entity(st.entity) {
                Some(t) => st.buffer + t,
                None => st.buffer + seq!['&'] + st.entity + seq![';'],
            };
            LexState { buffer: replaced, entity: Seq::empty(), in_entity: false, ..st }
        } else {
            LexState {
                buffer: st.buffer + seq!['&'] + st.entity,
                entity: Seq::empty(),
                in_entity: false,
                ..st
            }
        }
    } else {
        LexState { buffer: st.buffer.push(c), ..st }
    }
}

pub open spec fn lex_from(st: LexState, s: Seq<char>) -> LexState
    decreases s.len(),
{
    if s.len() == 0 {
        st
    } else {
        lex_from(lex_step(st, s[0]), s.subrange(1, s.len() as int))
    }
}

/// End of input: outside a tag, a pending entity is flushed as literal text
/// and a non-empty buffer becomes a final text token; inside a tag,
/// everything after the `<` is discarded.
pub open spec fn lex_finish(st: LexState) -> Seq<TokenView> {
    if !st.in_tag {
        let buf = if st.in_entity {
            st.buffer + seq!['&'] + st.entity
        } else {
            st.buffer
        };
        if buf.len() > 0 {
            st.out.push(TokenView::Text(buf))
        } else {
            st.out
        }
    } else {
        st.out
    }
}

/// What lexing a document yields, for every input.
pub open spec fn spec_lex(s: Seq<char>) -> Seq<TokenView> {
    lex_finish(lex_from(lex_init(), s))
}

proof fn lemma_lex_from_snoc(st: LexState, s: Seq<char>, c: char)
    ensures
        lex_from(st, s.push(c)) == lex_step(lex_from(st, s), c),
    decreases s.len(),
{
    if s.len() == 0 {
        assert(s.push(c)[0] == c);
        assert(s.push(c).subrange(1, s.push(c).len() as int) =~= Seq::<char>::empty());
        assert(lex_from(lex_step(st, c), Seq::<char>::empty()) == lex_step(st, c));
    } else {
        assert(s.push(c)[0] == s[0]);
        assert(s.push(c).subrange(1, s.push(c).len() as int) =~= s.subrange(
            1,
            s.len() as int,
        ).push(c));
        lemma_lex_from_snoc(lex_step(st, s[0]), s.subrange(1, s.len() as int), c);
    }
}

/// Splits a document into tag and text tokens.
pub fn lex(body: &str) -> (r: Vec<Token>)
    ensures
        r@.map_values(|t: Token| t@) == spec_lex(body@),
{
    let s = chars_of(body);
    let mut out: Vec<Token> = Vec::new();
    let mut buffer: Vec<char> = Vec::new();
    let mut entity: Vec<char> = Vec::new();
    let mut in_tag = false;
    let mut in_entity = false;
    let mut i: usize = 0;
    while i < s.len()
        invariant
            i <= s@.len(),
            s@ == body@,
            ({
                let st = lex_from(lex_init(), s@.take(i as int));
                &&& out@.map_values(|t: Token| t@) == st.out
                &&& buffer@ == st.buffer
                &&& entity@ == st.entity
                &&& in_tag == st.in_tag
                &&& in_entity == st.in_entity
            }),
        decreases s@.len() - i,
    {
        let ghost st = lex_from(lex_init(), s@.take(i as int));
        let c = s[i];
        proof {
            assert(s@.take(i + 1) =~= s@.take(i as int).push(c));
            lemma_lex_from_snoc(lex_init(), s@.take(i as int), c);
        }
        if c == '<' {
            if in_entity {
                buffer.push('&');
                buffer.append(&mut entity);
                in_entity = false;
                proof {
                    assert(buffer@ =~= st.buffer + seq!['&'] + st.entity);
                }
            }
            let ghost flushed_buf = buffer@;
            if buffer.len() > 0 {
                let text = string_of(&buffer);
                out.push(Token::Text(text));
                buffer.clear();
                proof {
                    assert(text@ == flushed_buf);
                    assert(out@.map_values(|t: Token| t@) =~= lex_step(st, c).out);
                }
            }
            in_tag = true;
            proof {
                assert(buffer@ =~= lex_step(st, c).buffer);
                assert(entity@ =~= lex_step(st, c).entity);
                assert(out@.map_values(|t: Token| t@) =~= lex_step(st, c).out);
            }
        } else if c == '>' {
            let tag = lowercase(string_of(&buffer).as_str());
            out.push(Token::Tag(tag));
            buffer.clear();
            in_tag = false;
            proof {
                assert(out@.map_values(|t: Token| t@) =~~= lex_step(st, c).out);
                assert(buffer@ =~= lex_step(st, c).buffer);
            }
        } else if c == '&' && !in_tag {
            in_entity = true;
        } else if in_entity && !in_tag {
            if is_alnum_char_exec(c) {
                entity.push(c);
            } else if c == ';' {
                let name = string_of(&entity);
                match translate_entity(name.as_str()) {
                    Some(t) => {
                        let mut tc = chars_of(t);
                        buffer.append(&mut tc);
                    },
                    None => {
                        buffer.push('&');
                        buffer.append(&mut entity);
                        buffer.push(';');
                    },
                }
                entity.clear();
                in_entity = false;
                proof {
                    assert(buffer@ =~= lex_step(st, c).buffer);
                    assert(entity@ =~= lex_step(st, c).entity);
                }
            } else {
                buffer.push('&');
                buffer.append(&mut entity);
                in_entity = false;
                proof {
                    assert(buffer@ =~= lex_step(st, c).buffer);
                    assert(entity@ =~= lex_step(st, c).entity);
                }
            }
        } else {
            buffer.push(c);
        }
        i = i + 1;
    }
    proof {
        assert(s@.take(s@.len() as int) =~= s@);
    }
    let ghost st_end = lex_from(lex_init(), s@);
    if !in_tag {
        if in_entity {
            buffer.push('&');
            buffer.append(&mut entity);
            proof {
                assert(buffer@ =~= st_end.buffer + seq!['&'] + st_end.entity);
            }
        }
        let ghost final_buf = buffer@;
        if buffer.len() > 0 {
            let text = string_of(&buffer);
            out.push(Token::Text(text));
            proof {
                assert(text@ == final_buf);
                assert(out@.map_values(|t: Token| t@) =~= spec_lex(body@));
            }
        }
    }
    proof {
        assert(out@.map_values(|t: Token| t@) =~= spec_lex(body@));
    }
    out
}

} // verus!
