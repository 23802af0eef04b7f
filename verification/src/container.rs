//! Container kinds and container ids, with their text form.
use vstd::prelude::*;

use crate::error::LoroError;
use crate::id::{Counter, PeerID, ID};
use crate::text::{
    dec_int, dec_nat, find_char, find_sep, is_digit, lemma_dec_int_chars, lemma_dec_nat,
    lemma_find_sep_unique, lemma_parse_i32_of_dec, lemma_parse_u64_of_dec, parse_i32_spec,
    parse_u64_spec, push_dec_i32, push_dec_u64, read_i32, read_u64, str_to_chars,
};

verus! {

/// `string_cache::Atom`, an interned string.
#[verifier::external_type_specification]
#[verifier::external_body]
#[verifier::reject_recursive_types(Static)]
pub struct ExAtom<Static>(string_cache::Atom<Static>);

/// `string_cache::EmptyStaticAtomSet`, the marker of an atom type without
/// statically known strings.
#[verifier::external_type_specification]
#[verifier::external_body]
pub struct ExEmptyStaticAtomSet(string_cache::EmptyStaticAtomSet);

/// An interned string: cheap to copy, to compare and to hash.
pub type InternalString = string_cache::DefaultAtom;

/// The characters of the string that an atom was interned from.
pub uninterp spec fn atom_text(a: InternalString) -> Seq<char>;

/// `Atom::from(&str)`: interns the string. The atom stands for exactly the
/// characters given.
#[verifier::external_body]
pub(crate) fn atom_from_str(s: &str) -> (a: InternalString)
    ensures
        atom_text(a) == s@,
{
    InternalString::from(s)
}

/// `Deref` of an atom: the string that it was interned from.
#[verifier::external_body]
pub(crate) fn atom_as_str(a: &InternalString) -> (s: &str)
    ensures
        s@ == atom_text(*a),
{
    &**a
}

/// `PartialEq` of atoms: a string is always interned the same way, so two
/// atoms are equal exactly when their strings are.
#[verifier::external_body]
pub(crate) fn atom_eq(a: &InternalString, b: &InternalString) -> (r: bool)
    ensures
        r == (atom_text(*a) == atom_text(*b)),
{
    a == b
}

/// `Clone` of an atom: another handle on the same interned string.
#[verifier::external_body]
pub(crate) fn atom_clone(a: &InternalString) -> (r: InternalString)
    ensures
        r == *a,
{
    a.clone()
}

/// The kind of a container.
#[derive(Debug, PartialEq, Eq, Hash, Clone, Copy, PartialOrd, Ord, Structural)]
pub enum ContainerType {
    Text,
    Mapping,
    List,
}

impl ContainerType {
    /// The byte that stands for the kind wherever it is encoded.
    pub open spec fn tag(self) -> u8 {
        match self {
            ContainerType::Mapping => 1,
            ContainerType::List => 2,
            ContainerType::Text => 3,
        }
    }

    /// The name of the kind in the text form of a container id.
    pub open spec fn name(self) -> Seq<char> {
        match self {
            ContainerType::Mapping => seq!['M', 'a', 'p'],
            ContainerType::List => seq!['L', 'i', 's', 't'],
            ContainerType::Text => seq!['T', 'e', 'x', 't'],
        }
    }

    /// The kind that a name denotes; names are case-sensitive.
    pub open spec fn from_name(s: Seq<char>) -> Option<ContainerType> {
        if s == ContainerType::Mapping.name() {
            Some(ContainerType::Mapping)
        } else if s == ContainerType::List.name() {
            Some(ContainerType::List)
        } else if s == ContainerType::Text.name() {
            Some(ContainerType::Text)
        } else {
            None
        }
    }

    pub fn to_u8(self) -> (r: u8)
        ensures
            r == self.tag(),
            1 <= r <= 3,
    {
        match self {
            ContainerType::Mapping => 1,
            ContainerType::List => 2,
            ContainerType::Text => 3,
        }
    }

    /// The kind that a tag byte stands for. Only 1, 2 and 3 are tags.
    pub fn from_u8(v: u8) -> (r: Self)
        requires
            1 <= v <= 3,
        ensures
            r.tag() == v,
    {
        if v == 1 {
            ContainerType::Mapping
        } else if v == 2 {
            ContainerType::List
        } else {
            ContainerType::Text
        }
    }

    /// The kind that a tag byte stands for, if it is a tag.
    pub fn try_from_u8(v: u8) -> (r: Option<Self>)
        ensures
            (1 <= v <= 3) ==> r is Some && r->0.tag() == v,
            !(1 <= v <= 3) ==> r is None,
    {
        if 1 <= v && v <= 3 {
            Some(ContainerType::from_u8(v))
        } else {
            None
        }
    }

    /// The name of the kind.
    pub fn as_str(self) -> (s: &'static str)
        ensures
            s@ == self.name(),
    {
        proof {
            reveal_strlit("Map");
            reveal_strlit("List");
            reveal_strlit("Text");
        }
        let s = match self {
            ContainerType::Mapping => "Map",
            ContainerType::List => "List",
            ContainerType::Text => "Text",
        };
        assert(s@ =~= self.name());
        s
    }

    /// The name of the kind.
    pub fn to_string(&self) -> (s: String)
        ensures
            s@ == self.name(),
    {
        String::from_str(self.as_str())
    }

    /// Reads the kind whose name is `s[from..to]`.
    pub(crate) fn read(s: &Vec<char>, from: usize, to: usize) -> (r: Option<ContainerType>)
        requires
            from <= to <= s.len(),
        ensures
            r == ContainerType::from_name(s@.subrange(from as int, to as int)),
    {
        let ghost sub = s@.subrange(from as int, to as int);
        let n = to - from;
        proof {
            let m = ContainerType::Mapping.name();
            let l = ContainerType::List.name();
            let t = ContainerType::Text.name();
            assert(m.len() == 3 && m[0] == 'M' && m[1] == 'a' && m[2] == 'p');
            assert(l.len() == 4 && l[0] == 'L' && l[1] == 'i' && l[2] == 's' && l[3] == 't');
            assert(t.len() == 4 && t[0] == 'T' && t[1] == 'e' && t[2] == 'x' && t[3] == 't');
        }
        if n == 3 {
            assert(sub[0] == s@[from as int] && sub[1] == s@[from + 1] && sub[2] == s@[from + 2]);
            if s[from] == 'M' && s[from + 1] == 'a' && s[from + 2] == 'p' {
                assert(sub =~= ContainerType::Mapping.name());
                Some(ContainerType::Mapping)
            } else {
                None
            }
        } else if n == 4 {
            assert(sub[0] == s@[from as int] && sub[1] == s@[from + 1] && sub[2] == s@[from + 2]
                && sub[3] == s@[from + 3]);
            if s[from] == 'L' && s[from + 1] == 'i' && s[from + 2] == 's' && s[from + 3] == 't' {
                assert(sub =~= ContainerType::List.name());
                Some(ContainerType::List)
            } else if s[from] == 'T' && s[from + 1] == 'e' && s[from + 2] == 'x' && s[from + 3]
                == 't' {
                assert(sub =~= ContainerType::Text.name());
                Some(ContainerType::Text)
            } else {
                None
            }
        } else {
            None
        }
    }

    /// Reads a kind from its name. Any other text is a decode error whose
    /// message ends with the text.
    pub fn try_from(value: &str) -> (r: Result<ContainerType, LoroError>)
        ensures
            match ContainerType::from_name(value@) {
                Some(t) => r == Ok::<ContainerType, LoroError>(t),
                None => r is Err && r->Err_0 is DecodeError && r->Err_0.message()
                    == "Unknown container type"@ + value@,
            },
    {
        let chars = str_to_chars(value);
        assert(chars@.subrange(0, chars@.len() as int) =~= value@);
        match ContainerType::read(&chars, 0, chars.len()) {
            Some(t) => Ok(t),
            None => {
                let mut msg = String::from_str("Unknown container type");
                msg.append(value);
                Err(LoroError::DecodeError(msg))
            },
        }
    }
}

/// The id of a container: a root container has a name and exists without
/// an operation that creates it; a normal container is born at an
/// operation id.
///
/// Text form: `/<name>:<Type>` for a root and `<counter>@<peer>:<Type>` for a
/// normal container.
#[derive(Debug, Hash, PartialEq, Eq)]
pub enum ContainerID {
    Root { name: InternalString, container_type: ContainerType },
    Normal { peer: PeerID, counter: Counter, container_type: ContainerType },
}

/// A container id as a plain value.
pub enum ContainerIDView {
    Root { name: Seq<char>, container_type: ContainerType },
    Normal { peer: PeerID, counter: Counter, container_type: ContainerType },
}

impl View for ContainerID {
    type V = ContainerIDView;

    open spec fn view(&self) -> ContainerIDView {
        match self {
            ContainerID::Root { name, container_type } => ContainerIDView::Root {
                name: atom_text(*name),
                container_type: *container_type,
            },
            ContainerID::Normal { peer, counter, container_type } => ContainerIDView::Normal {
                peer: *peer,
                counter: *counter,
                container_type: *container_type,
            },
        }
    }
}

impl ContainerIDView {
    /// The text form of a container id.
    pub open spec fn text(self) -> Seq<char> {
        match self {
            ContainerIDView::Root { name, container_type } => seq!['/'] + name + seq![':']
                + container_type.name(),
            ContainerIDView::Normal { peer, counter, container_type } => dec_int(counter as int)
                + seq!['@'] + dec_nat(peer as nat) + seq![':'] + container_type.name(),
        }
    }

    /// The container id that a text denotes, if any.
    ///
    /// The text is cut at its colons: the first part is the id, the second
    /// the kind, anything after a second colon is ignored. An id that starts
    /// with a slash names a root. Any other id is cut at its at-signs: the
    /// first part is the counter, the second the peer.
    pub open spec fn parse(s: Seq<char>) -> Option<ContainerIDView> {
        let k = find_sep(s, ':');
        if k >= s.len() {
            None
        } else {
            let id = s.subrange(0, k);
            let rest = s.subrange(k + 1, s.len() as int);
            let kind = rest.subrange(0, find_sep(rest, ':'));
            match ContainerType::from_name(kind) {
                None => None,
                Some(container_type) => {
                    if id.len() > 0 && id[0] == '/' {
                        Some(
                            ContainerIDView::Root {
                                name: id.subrange(1, id.len() as int),
                                container_type,
                            },
                        )
                    } else {
                        let a = find_sep(id, '@');
                        if a >= id.len() {
                            None
                        } else {
                            let tail = id.subrange(a + 1, id.len() as int);
                            let peer_text = tail.subrange(0, find_sep(tail, '@'));
                            match (parse_i32_spec(id.subrange(0, a)), parse_u64_spec(peer_text)) {
                                (Some(counter), Some(peer)) => Some(
                                    ContainerIDView::Normal { peer, counter, container_type },
                                ),
                                _ => None,
                            }
                        }
                    }
                },
            }
        }
    }

    /// Whether the text form can be read back: the name of a root holds no
    /// colon.
    pub open spec fn is_printable(self) -> bool {
        match self {
            ContainerIDView::Root { name, .. } => !name.contains(':'),
            ContainerIDView::Normal { .. } => true,
        }
    }
}

/// Reading the text form of a container id gives the id back, provided
/// the name of a root holds no colon.
pub proof fn lemma_container_text_roundtrip(v: ContainerIDView)
    requires
        v.is_printable(),
    ensures
        ContainerIDView::parse(v.text()) == Some(v),
{
    let s = v.text();
    match v {
        ContainerIDView::Root { name, container_type } => {
            let tn = container_type.name();
            lemma_type_name(container_type);
            let k: int = (1 + name.len()) as int;
            assert forall|i: int| 0 <= i < k implies s[i] != ':' by {
                if i > 0 {
                    assert(s[i] == name[i - 1]);
                    assert(name.contains(name[i - 1]));
                }
            }
            assert(s[k] == ':');
            lemma_find_sep_unique(s, ':', k);
            let id = s.subrange(0, k);
            let rest = s.subrange(k + 1, s.len() as int);
            assert(rest =~= tn);
            assert(rest.subrange(0, rest.len() as int) =~= tn);
            assert(id[0] == '/');
            assert(id.subrange(1, id.len() as int) =~= name);
        },
        ContainerIDView::Normal { peer, counter, container_type } => {
            let tn = container_type.name();
            lemma_type_name(container_type);
            let c = dec_int(counter as int);
            let p = dec_nat(peer as nat);
            lemma_dec_nat(peer as nat);
            lemma_parse_i32_of_dec(counter);
            lemma_parse_u64_of_dec(peer);
            let a: int = c.len() as int;
            let k: int = (c.len() + 1 + p.len()) as int;
            assert forall|i: int| 0 <= i < k implies s[i] != ':' && (i < a ==> s[i] != '@') by {
                if i < a {
                    assert(s[i] == c[i]);
                    lemma_dec_int_chars(counter as int, i);
                } else if i > a {
                    assert(s[i] == p[i - a - 1]);
                    assert(is_digit(p[i - a - 1]));
                } else {
                    assert(s[i] == '@');
                }
            }
            assert(s[k] == ':');
            lemma_find_sep_unique(s, ':', k);
            let id = s.subrange(0, k);
            let rest = s.subrange(k + 1, s.len() as int);
            assert(rest =~= tn);
            assert(rest.subrange(0, rest.len() as int) =~= tn);
            assert(id[0] == c[0]);
            lemma_dec_int_chars(counter as int, 0);
            assert(id[0] != '/');
            assert forall|i: int| 0 <= i < a implies id[i] != '@' by {
                assert(id[i] == s[i]);
            }
            assert(id[a] == '@');
            lemma_find_sep_unique(id, '@', a);
            let tail = id.subrange(a + 1, id.len() as int);
            assert(tail =~= p);
            assert forall|i: int| 0 <= i < tail.len() implies tail[i] != '@' by {
                assert(is_digit(p[i]));
            }
            lemma_find_sep_unique(tail, '@', tail.len() as int);
            assert(tail.subrange(0, tail.len() as int) =~= p);
            assert(id.subrange(0, a) =~= c);
        },
    }
}

/// The names of the kinds are distinct and hold no colon.
pub proof fn lemma_type_name(t: ContainerType)
    ensures
        ContainerType::from_name(t.name()) == Some(t),
        find_sep(t.name(), ':') == t.name().len(),
{
    let m = ContainerType::Mapping.name();
    let l = ContainerType::List.name();
    let x = ContainerType::Text.name();
    assert(m.len() == 3 && m[0] == 'M' && m[1] == 'a' && m[2] == 'p');
    assert(l.len() == 4 && l[0] == 'L' && l[1] == 'i' && l[2] == 's' && l[3] == 't');
    assert(x.len() == 4 && x[0] == 'T' && x[1] == 'e' && x[2] == 'x' && x[3] == 't');
    lemma_find_sep_unique(t.name(), ':', t.name().len() as int);
}

impl ContainerID {
    pub fn new_normal(id: ID, container_type: ContainerType) -> (r: Self)
        ensures
            r == (ContainerID::Normal { peer: id.peer, counter: id.counter, container_type }),
    {
        ContainerID::Normal { peer: id.peer, counter: id.counter, container_type }
    }

    pub fn new_root(name: &str, container_type: ContainerType) -> (r: Self)
        ensures
            r@ == (ContainerIDView::Root { name: name@, container_type }),
    {
        ContainerID::Root { name: atom_from_str(name), container_type }
    }

    /// Whether the id names a root container.
    pub open spec fn is_root(&self) -> bool {
        self is Root
    }

    /// The name of a root container.
    pub fn name(&self) -> (r: &InternalString)
        requires
            self.is_root(),
        ensures
            *r == self->name,
    {
        match self {
            ContainerID::Root { name, .. } => name,
            ContainerID::Normal { .. } => vstd::pervasive::unreached(),
        }
    }

    /// The kind of the container.
    pub open spec fn spec_container_type(&self) -> ContainerType {
        match self {
            ContainerID::Root { container_type, .. } => *container_type,
            ContainerID::Normal { container_type, .. } => *container_type,
        }
    }

    pub fn container_type(&self) -> (r: ContainerType)
        ensures
            r == self.spec_container_type(),
    {
        match self {
            ContainerID::Root { container_type, .. } => *container_type,
            ContainerID::Normal { container_type, .. } => *container_type,
        }
    }

    /// A copy of the id.
    pub fn clone_id(&self) -> (r: Self)
        ensures
            r == *self,
    {
        match self {
            ContainerID::Root { name, container_type } => ContainerID::Root {
                name: atom_clone(name),
                container_type: *container_type,
            },
            ContainerID::Normal { peer, counter, container_type } => ContainerID::Normal {
                peer: *peer,
                counter: *counter,
                container_type: *container_type,
            },
        }
    }

    /// Whether two ids denote the same container.
    pub fn same(&self, other: &Self) -> (r: bool)
        ensures
            r == (self@ == other@),
    {
        match (self, other) {
            (
                ContainerID::Root { name: n1, container_type: t1 },
                ContainerID::Root { name: n2, container_type: t2 },
            ) => atom_eq(n1, n2) && *t1 == *t2,
            (
                ContainerID::Normal { peer: p1, counter: c1, container_type: t1 },
                ContainerID::Normal { peer: p2, counter: c2, container_type: t2 },
            ) => *p1 == *p2 && *c1 == *c2 && *t1 == *t2,
            _ => false,
        }
    }

    /// The text form of the id.
    pub fn to_string(&self) -> (s: String)
        ensures
            s@ == self@.text(),
    {
        proof {
            reveal_strlit("/");
            reveal_strlit(":");
            reveal_strlit("@");
            reveal_strlit("");
        }
        match self {
            ContainerID::Root { name, container_type } => {
                let mut s = String::from_str("/");
                s.append(atom_as_str(name));
                s.append(":");
                s.append(container_type.as_str());
                assert(s@ =~= self@.text());
                s
            },
            ContainerID::Normal { peer, counter, container_type } => {
                let mut s = String::from_str("");
                push_dec_i32(&mut s, *counter);
                s.append("@");
                push_dec_u64(&mut s, *peer);
                s.append(":");
                s.append(container_type.as_str());
                assert(s@ =~= self@.text());
                s
            },
        }
    }

    /// Reads a container id from its text form.
    pub fn try_from(value: &str) -> (r: Result<ContainerID, ()>)
        ensures
            match ContainerIDView::parse(value@) {
                Some(v) => r is Ok && r->Ok_0@ == v,
                None => r is Err,
            },
    {
        let chars = str_to_chars(value);
        let n = chars.len();
        let k = find_char(&chars, 0, n, ':');
        assert(chars@.subrange(0, n as int) =~= value@);
        if k >= n {
            return Err(());
        }
        let ghost id = value@.subrange(0, k as int);
        let ghost rest = value@.subrange(k + 1, n as int);
        let k2 = find_char(&chars, k + 1, n, ':');
        assert(chars@.subrange(k + 1, n as int) =~= rest);
        assert(chars@.subrange(k + 1, k2 as int) =~= rest.subrange(0, k2 - (k + 1)));
        let container_type = match ContainerType::read(&chars, k + 1, k2) {
            Some(t) => t,
            None => {
                return Err(());
            },
        };
        assert(chars@.subrange(0, k as int) =~= id);
        if k > 0 && chars[0] == '/' {
            assert(id[0] == chars@[0]);
            let name = value.substring_char(1, k);
            assert(name@ =~= id.subrange(1, id.len() as int));
            return Ok(ContainerID::Root { name: atom_from_str(name), container_type });
        }
        if k > 0 {
            assert(id[0] == chars@[0]);
        }
        let a = find_char(&chars, 0, k, '@');
        if a >= k {
            return Err(());
        }
        let ghost tail = id.subrange(a + 1, id.len() as int);
        let a2 = find_char(&chars, a + 1, k, '@');
        assert(chars@.subrange(a + 1, k as int) =~= tail);
        assert(chars@.subrange(a + 1, a2 as int) =~= tail.subrange(0, a2 - (a + 1)));
        assert(chars@.subrange(0, a as int) =~= id.subrange(0, a as int));
        let counter = read_i32(&chars, 0, a);
        let peer = read_u64(&chars, a + 1, a2);
        match (counter, peer) {
            (Some(counter), Some(peer)) => Ok(ContainerID::Normal { peer, counter, container_type }),
            _ => Err(()),
        }
    }
}

} // verus!
