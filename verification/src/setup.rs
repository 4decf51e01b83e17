//! A draft of a reaction-role message: the template that its author sent,
//! with the places where roles will be bound.

use crate::emoji::{emoji_key, key_of};
use crate::guard::{resolve, Role, Server};
use crate::template::{
    draft, find_placeholders, lemma_placeholders, lemma_strip_keywords_boundary, placeholders,
    spans_of, strip_keywords_from, trim, Span, OPENING,
};
use crate::text::{
    lemma_boundary, lemma_next_boundary, push_text, slice, texts, utf8, BRACE_CLOSE, COLON,
};
use vstd::prelude::*;
use vstd::utf8::{
    decode_utf8, encode_utf8_decode_utf8, encode_utf8_valid_utf8, is_char_boundary, valid_utf8,
};

verus! {

/// A placeholder of a draft: the bytes from `start` up to `end` of the
/// content, and the role reference that stands between `{ROLE:` and `}`.
#[derive(Debug)]
pub struct RoleSlot {
    pub start: usize,
    pub end: usize,
    pub role: String,
}

impl Clone for RoleSlot {
    fn clone(&self) -> (out: Self)
        ensures
            out == *self,
    {
        RoleSlot { start: self.start, end: self.end, role: self.role.clone() }
    }
}

/// A draft, as the contracts speak of it. The placeholders are not held: they
/// are those of the content.
pub struct SetupView {
    pub author: Seq<char>,
    /// The content in UTF-8.
    pub content: Seq<u8>,
    pub exclusive: bool,
    pub formatted: bool,
}

impl SetupView {
    /// The places of the placeholders, from left to right.
    pub open spec fn spans(self) -> Seq<Span> {
        placeholders(self.content, 0)
    }

    /// The role reference of the placeholder `at`.
    pub open spec fn reference(self, at: int) -> Seq<char> {
        decode_utf8(
            self.content.subrange(self.spans()[at].start + OPENING, self.spans()[at].end - 1),
        )
    }

    /// The role references, from left to right.
    pub open spec fn references(self) -> Seq<Seq<char>> {
        Seq::new(self.spans().len(), |at: int| self.reference(at))
    }
}

/// What a template is read as: the draft that `draft` describes, if its
/// content holds a placeholder.
pub open spec fn parsed(author: Seq<char>, template: Seq<u8>) -> Option<SetupView> {
    let read = draft(template);
    if placeholders(read.content, 0).len() > 0 {
        Some(
            SetupView {
                author,
                content: read.content,
                exclusive: read.exclusive,
                formatted: read.formatted,
            },
        )
    } else {
        None
    }
}

/// Reading is repeatable: two readings of one template by one author give
/// the same draft or both give none, and the two drafts hold the same
/// placeholders at the same places, with the same references, in the same
/// order.
pub proof fn lemma_parse_repeatable(
    author: Seq<char>,
    template: Seq<u8>,
    first: Option<SetupView>,
    second: Option<SetupView>,
)
    requires
        first == parsed(author, template),
        second == parsed(author, template),
    ensures
        first == second,
        first is Some ==> first.unwrap().spans() == second.unwrap().spans(),
        first is Some ==> first.unwrap().references() == second.unwrap().references(),
{
}

/// What takes a placeholder's place: `:<key>:[](<id>)`, followed by
/// ` __<name>__` unless the draft is formatted.
pub open spec fn binding(key: Seq<char>, role: Role, formatted: bool) -> Seq<u8> {
    let bare = utf8(":"@) + utf8(key) + utf8(":[]("@) + utf8(role.id@) + utf8(")"@);
    if formatted {
        bare
    } else {
        bare + utf8(" __"@) + utf8(role.name@) + utf8("__"@)
    }
}

/// The content up to the end of the placeholder `count - 1`, with the first
/// `count` placeholders replaced by `bindings`.
pub open spec fn filled(content: Seq<u8>, spans: Seq<Span>, bindings: Seq<Seq<u8>>, count: int) -> Seq<
    u8,
>
    decreases count,
{
    if count <= 0 {
        Seq::empty()
    } else {
        let from = if count == 1 {
            0
        } else {
            spans[count - 2].end
        };
        filled(content, spans, bindings, count - 1) + content.subrange(from, spans[count - 1].start)
            + bindings[count - 1]
    }
}

/// The content with its first `count` placeholders replaced by `bindings`
/// and the rest, later placeholders included, as it is.
pub open spec fn replaced(content: Seq<u8>, spans: Seq<Span>, bindings: Seq<Seq<u8>>, count: int) -> Seq<
    u8,
> {
    let from = if count <= 0 {
        0
    } else {
        spans[count - 1].end
    };
    filled(content, spans, bindings, count) + content.subrange(from, content.len() as int)
}

/// How many placeholders `keys` can fill: each key fills one, and keys
/// beyond the last placeholder fill none.
pub open spec fn bound(draft: SetupView, keys: Seq<Seq<char>>) -> int {
    if keys.len() <= draft.spans().len() {
        keys.len() as int
    } else {
        draft.spans().len() as int
    }
}

/// Whether each of the first `count` references stands for a role.
pub open spec fn resolvable(draft: SetupView, roles: Seq<Role>, count: int) -> bool {
    forall|at: int| 0 <= at < count ==> (#[trigger] resolve(roles, draft.reference(at))) is Some
}

/// The bindings for the first placeholders of a draft, one for each key.
pub open spec fn bindings(draft: SetupView, roles: Seq<Role>, keys: Seq<Seq<char>>) -> Seq<Seq<u8>> {
    Seq::new(
        bound(draft, keys) as nat,
        |at: int| binding(keys[at], roles[resolve(roles, draft.reference(at)).unwrap()], draft.formatted),
    )
}

/// The content of a draft with emoji keys bound to its first placeholders:
/// `None` where any placeholder of the draft, filled or not, names no role.
pub open spec fn rendered(draft: SetupView, roles: Seq<Role>, keys: Seq<Seq<char>>) -> Option<
    Seq<u8>,
> {
    if resolvable(draft, roles, draft.spans().len() as int) {
        Some(replaced(draft.content, draft.spans(), bindings(draft, roles, keys), bound(draft, keys)))
    } else {
        None
    }
}

/// The keys of a list of emoji.
pub open spec fn keys_of(emojis: Seq<&str>) -> Seq<Seq<char>> {
    Seq::new(emojis.len(), |at: int| key_of(emojis[at]@))
}

/// A draft of a reaction-role message.
#[derive(Debug)]
pub struct SetupMessage {
    author_id: String,
    content: String,
    roles: Vec<RoleSlot>,
    is_exclusive: bool,
    is_formatted: bool,
}

impl View for SetupMessage {
    type V = SetupView;

    closed spec fn view(&self) -> SetupView {
        SetupView {
            author: self.author_id@,
            content: utf8(self.content@),
            exclusive: self.is_exclusive,
            formatted: self.is_formatted,
        }
    }
}

/// Whether `slots` are the placeholders of `content`, each with its
/// reference.
pub open spec fn slots_match(slots: Seq<RoleSlot>, content: Seq<u8>) -> bool {
    &&& slots.len() == placeholders(content, 0).len()
    &&& forall|at: int|
        0 <= at < slots.len() ==> {
            let span = placeholders(content, 0)[at];
            &&& (#[trigger] slots[at]).start == span.start
            &&& slots[at].end == span.end
            &&& utf8(slots[at].role@) == content.subrange(span.start + OPENING, span.end - 1)
        }
}

impl Clone for SetupMessage {
    fn clone(&self) -> (out: Self)
        ensures
            out@ == self@,
    {
        proof {
            use_type_invariant(self);
        }
        let mut roles: Vec<RoleSlot> = Vec::new();
        let mut i: usize = 0;
        while i < self.roles.len()
            invariant
                i <= self.roles.len(),
                roles@ == self.roles@.take(i as int),
            decreases self.roles.len() - i,
        {
            roles.push(self.roles[i].clone());
            assert(roles@ =~= self.roles@.take(i + 1));
            i += 1;
        }
        assert(self.roles@.take(self.roles.len() as int) =~= self.roles@);
        SetupMessage {
            author_id: self.author_id.clone(),
            content: self.content.clone(),
            roles,
            is_exclusive: self.is_exclusive,
            is_formatted: self.is_formatted,
        }
    }
}

impl SetupMessage {
    #[verifier::type_invariant]
    closed spec fn inv(self) -> bool {
        &&& self.roles@.len() > 0
        &&& slots_match(self.roles@, utf8(self.content@))
    }

    /// The content: the template without its keywords, behind the marker
    /// where the draft is exclusive.
    pub fn content(&self) -> (text: &str)
        ensures
            utf8(text@) == self@.content,
    {
        self.content.as_str()
    }

    /// Who sent the template.
    pub fn author_id(&self) -> (id: &str)
        ensures
            id@ == self@.author,
    {
        self.author_id.as_str()
    }

    /// Whether at most one of the roles may be held at a time.
    pub fn is_exclusive(&self) -> (yes: bool)
        ensures
            yes == self@.exclusive,
    {
        self.is_exclusive
    }

    /// Whether bindings are written without the role's name.
    pub fn is_formatted(&self) -> (yes: bool)
        ensures
            yes == self@.formatted,
    {
        self.is_formatted
    }

    /// The placeholders, from left to right.
    pub fn role_slots(&self) -> (slots: &Vec<RoleSlot>)
        ensures
            slots@.len() > 0,
            slots_match(slots@, self@.content),
            forall|at: int| 0 <= at < slots@.len() ==> (#[trigger] slots@[at]).role@ == self@.reference(at),
    {
        proof {
            use_type_invariant(self);
            assert forall|at: int| 0 <= at < self.roles@.len() implies (
            #[trigger] self.roles@[at]).role@ == self@.reference(at) by {
                encode_utf8_decode_utf8(self.roles@[at].role@);
            }
        }
        &self.roles
    }

    /// Reads a template. The result is `None` where the template holds no
    /// placeholder.
    pub fn parse(author_id: String, content: &str) -> (out: Option<SetupMessage>)
        ensures
            match out {
                Some(message) => parsed(author_id@, utf8(content@)) == Some(message@),
                None => parsed(author_id@, utf8(content@)) is None,
            },
    {
        broadcast use encode_utf8_valid_utf8;

        let body = trim(content);
        let ghost trim = utf8(body@);
        let body_bytes = body.as_bytes();
        let head = strip_keywords_from(body_bytes);
        proof {
            lemma_boundary(trim, 0);
            lemma_boundary(trim, trim.len() as int);
            lemma_strip_keywords_boundary(trim, 0, false, false);
        }
        let rest = slice(body, head.0, body_bytes.len());
        let text = if head.1 {
            let mut marked = String::from_str("[](EXCLUSIVE)");
            push_text(&mut marked, rest);
            marked
        } else {
            String::from_str(rest)
        };
        assert(utf8(text@) == draft(utf8(content@)).content);
        let spans = find_placeholders(text.as_str().as_bytes());
        if spans.len() == 0 {
            return None;
        }
        let ghost whole = utf8(text@);
        let mut roles: Vec<RoleSlot> = Vec::new();
        let mut i: usize = 0;
        while i < spans.len()
            invariant
                i <= spans.len(),
                roles@.len() == i,
                whole == utf8(text@),
                valid_utf8(whole),
                spans_of(spans@) == placeholders(whole, 0),
                forall|at: int|
                    0 <= at < i ==> {
                        let span = placeholders(whole, 0)[at];
                        &&& (#[trigger] roles@[at]).start == span.start
                        &&& roles@[at].end == span.end
                        &&& utf8(roles@[at].role@) == whole.subrange(
                            span.start + OPENING,
                            span.end - 1,
                        )
                    },
            decreases spans.len() - i,
        {
            let (start, end) = spans[i];
            proof {
                lemma_placeholders(whole, 0);
                let span = placeholders(whole, 0)[i as int];
                assert(spans_of(spans@)[i as int] == span);
                lemma_next_boundary(whole, start + 5);
                assert(whole.subrange(start + 5, whole.len() as int)[0] == COLON);
                lemma_boundary(whole, end - 1);
            }
            let role = String::from_str(slice(text.as_str(), start + OPENING, end - 1));
            roles.push(RoleSlot { start, end, role });
            i += 1;
        }
        Some(
            SetupMessage {
                author_id,
                content: text,
                roles,
                is_exclusive: head.1,
                is_formatted: head.2,
            },
        )
    }

    /// Writes the binding of `key` to `role` at the end of `out`.
    fn push_binding(out: &mut String, key: &str, role: &Role, formatted: bool)
        ensures
            utf8(final(out)@) == utf8(old(out)@) + binding(key@, *role, formatted),
    {
        let ghost before = utf8(out@);
        push_text(out, ":");
        push_text(out, key);
        push_text(out, ":[](");
        push_text(out, role.id.as_str());
        push_text(out, ")");
        if !formatted {
            push_text(out, " __");
            push_text(out, role.name.as_str());
            push_text(out, "__");
        }
        assert(utf8(out@) =~= before + binding(key@, *role, formatted));
    }

    /// Whether every placeholder names a role of the server.
    pub fn resolves(&self, server: &Server) -> (yes: bool)
        ensures
            yes == resolvable(self@, server.roles@, self@.spans().len() as int),
    {
        let slots = self.role_slots();
        let mut i: usize = 0;
        while i < slots.len()
            invariant
                i <= slots.len(),
                slots@.len() == self@.spans().len(),
                forall|at: int|
                    0 <= at < slots@.len() ==> (#[trigger] slots@[at]).role@ == self@.reference(at),
                resolvable(self@, server.roles@, i as int),
            decreases slots.len() - i,
        {
            if server.role_by_id_or_name(slots[i].role.as_str()).is_none() {
                assert(resolve(server.roles@, self@.reference(i as int)) is None);
                return false;
            }
            proof {
                assert forall|at: int| 0 <= at < i + 1 implies (#[trigger] resolve(
                    server.roles@,
                    self@.reference(at),
                )) is Some by {
                    if at < i {
                        assert(resolve(server.roles@, self@.reference(at)) is Some);
                    }
                }
            }
            i += 1;
        }
        true
    }

    /// The content with the emoji keys of `keys` bound to the first
    /// placeholders, one key to each. A key beyond the last placeholder is
    /// ignored, and a placeholder beyond the last key stays as it is. The
    /// result is `None` where any placeholder, filled or not, names no role
    /// of the server; nothing is written then.
    pub fn render(&self, keys: &[String], server: &Server) -> (out: Option<String>)
        ensures
            match out {
                Some(text) => rendered(self@, server.roles@, texts(keys@)) == Some(utf8(text@)),
                None => rendered(self@, server.roles@, texts(keys@)) is None,
            },
    {
        broadcast use encode_utf8_valid_utf8;

        proof {
            use_type_invariant(self);
        }
        if !self.resolves(server) {
            return None;
        }
        let slots = self.role_slots();
        let whole = self.content.as_str();
        let count = if keys.len() <= slots.len() {
            keys.len()
        } else {
            slots.len()
        };
        let ghost content = utf8(self.content@);
        let ghost spans = placeholders(content, 0);
        let ghost wanted = bindings(self@, server.roles@, texts(keys@));
        proof {
            lemma_placeholders(content, 0);
        }
        let mut out = String::new();
        let mut from: usize = 0;
        let mut i: usize = 0;
        while i < count
            invariant
                i <= count,
                count == bound(self@, texts(keys@)),
                count <= keys@.len(),
                content == utf8(self.content@),
                content == self@.content,
                whole@ == self.content@,
                spans == placeholders(content, 0),
                wanted == bindings(self@, server.roles@, texts(keys@)),
                valid_utf8(content),
                slots@.len() > 0,
                slots_match(slots@, content),
                forall|at: int|
                    0 <= at < slots@.len() ==> (#[trigger] slots@[at]).role@ == self@.reference(at),
                from == (if i == 0 {
                    0
                } else {
                    spans[i - 1].end
                }),
                from <= content.len(),
                is_char_boundary(content, from as int),
                resolvable(self@, server.roles@, self@.spans().len() as int),
                utf8(out@) == filled(content, spans, wanted, i as int),
            decreases count - i,
        {
            let slot = &slots[i];
            let ghost span = spans[i as int];
            proof {
                lemma_placeholders(content, 0);
                assert(slot.start == span.start && slot.end == span.end);
                if i > 0 {
                    assert(spans[i - 1].end <= spans[i as int].start);
                }
                lemma_boundary(content, span.start);
                lemma_next_boundary(content, span.end - 1);
                assert(content.subrange(span.end - 1, content.len() as int)[0] == BRACE_CLOSE);
            }
            assert(resolve(server.roles@, self@.reference(i as int)) is Some);
            let role = match server.role_by_id_or_name(slot.role.as_str()) {
                Some(role) => role,
                None => {
                    return None;
                },
            };
            push_text(&mut out, slice(whole, from, slot.start));
            Self::push_binding(&mut out, keys[i].as_str(), role, self.is_formatted);
            assert(wanted[i as int] == binding(keys@[i as int]@, *role, self.is_formatted));
            from = slot.end;
            i += 1;
        }
        proof {
            lemma_boundary(content, content.len() as int);
        }
        let total = whole.as_bytes().len();
        push_text(&mut out, slice(whole, from, total));
        Some(out)
    }

    /// The content with each of `emojis` bound, by its key, to a placeholder:
    /// the first emoji to the first placeholder, and so on.
    pub fn with_emojis(&self, emojis: &[&str], server: &Server) -> (out: Option<String>)
        ensures
            match out {
                Some(text) => rendered(self@, server.roles@, keys_of(emojis@)) == Some(utf8(text@)),
                None => rendered(self@, server.roles@, keys_of(emojis@)) is None,
            },
    {
        let mut keys: Vec<String> = Vec::new();
        let mut i: usize = 0;
        while i < emojis.len()
            invariant
                i <= emojis.len(),
                keys@.len() == i,
                forall|at: int| 0 <= at < i ==> (#[trigger] keys@[at])@ == key_of(emojis@[at]@),
            decreases emojis.len() - i,
        {
            keys.push(emoji_key(emojis[i]));
            i += 1;
        }
        assert(texts(keys@) =~= keys_of(emojis@));
        self.render(keys.as_slice(), server)
    }
}

} // verus!
