//! Text that either stands alone or is a window on shared, append-only
//! bytes.
use append_only_bytes::BytesSlice;
use vstd::prelude::*;
use vstd::string::StringSliceAdditionalSpecFns;
use vstd::utf8::{decode_utf8, encode_utf8, valid_utf8};

verus! {

broadcast use {
    vstd::utf8::encode_utf8_valid_utf8,
    vstd::utf8::encode_utf8_decode_utf8,
    vstd::utf8::decode_utf8_encode_utf8,
};

/// `append_only_bytes::BytesSlice`, a window on shared bytes.
#[verifier::external_type_specification]
#[verifier::external_body]
pub struct ExBytesSlice(BytesSlice);

/// The bytes that a window shows.
pub uninterp spec fn slice_bytes(b: BytesSlice) -> Seq<u8>;

/// `BytesSlice::as_bytes`: the bytes that the window shows.
#[verifier::external_body]
fn window_bytes(b: &BytesSlice) -> (r: &[u8])
    ensures
        r@ == slice_bytes(*b),
{
    b.as_bytes()
}

/// `BytesSlice::len`: the number of bytes that the window shows.
#[verifier::external_body]
fn window_len(b: &BytesSlice) -> (n: usize)
    ensures
        n == slice_bytes(*b).len(),
{
    b.len()
}

/// `BytesSlice::try_merge`: where the other window starts, in the same
/// shared bytes, at the end of this one, this window grows over it; else
/// it stays as it is. Which of the two happens depends on where the
/// windows lie, not on the bytes that they show.
#[verifier::external_body]
fn window_try_merge(b: &mut BytesSlice, other: &BytesSlice) -> (merged: bool)
    ensures
        merged ==> slice_bytes(*final(b)) == slice_bytes(*old(b)) + slice_bytes(*other),
        !merged ==> *final(b) == *old(b),
{
    b.try_merge(other).is_ok()
}

/// `BytesSlice::slice_clone` with a range that is open at its end: a
/// window on the bytes from `start` on.
#[verifier::external_body]
fn window_from(b: &BytesSlice, start: usize) -> (r: BytesSlice)
    requires
        start <= slice_bytes(*b).len(),
    ensures
        slice_bytes(r) == slice_bytes(*b).subrange(start as int, slice_bytes(*b).len() as int),
{
    b.slice_clone(start..)
}

/// `BytesSlice::slice_` with a range that is open at its start: narrows
/// the window to its first `end` bytes.
#[verifier::external_body]
fn window_truncate(b: &mut BytesSlice, end: usize)
    requires
        end <= slice_bytes(*old(b)).len(),
    ensures
        slice_bytes(*final(b)) == slice_bytes(*old(b)).subrange(0, end as int),
{
    b.slice_(..end)
}

/// `Clone` of a window: another window on the same bytes.
#[verifier::external_body]
fn window_clone(b: &BytesSlice) -> (r: BytesSlice)
    ensures
        r == *b,
{
    b.clone()
}

/// `std::str::from_utf8`: the bytes as text, where they are valid UTF-8.
#[verifier::external_body]
fn utf8_to_str(bytes: &[u8]) -> (r: Option<&str>)
    ensures
        r is Some <==> valid_utf8(bytes@),
        r is Some ==> r->0.spec_bytes() == bytes@,
{
    std::str::from_utf8(bytes).ok()
}

enum Variant {
    BytesSlice(BytesSlice),
    Owned(String),
}

impl Variant {
    spec fn valid(&self) -> bool {
        match self {
            Variant::BytesSlice(b) => valid_utf8(slice_bytes(*b)),
            Variant::Owned(_) => true,
        }
    }

    spec fn text(&self) -> Seq<char> {
        match self {
            Variant::BytesSlice(b) => decode_utf8(slice_bytes(*b)),
            Variant::Owned(s) => s@,
        }
    }

    fn as_str(&self) -> (r: &str)
        requires
            self.valid(),
        ensures
            r@ == self.text(),
    {
        match self {
            Variant::BytesSlice(b) => {
                match utf8_to_str(window_bytes(b)) {
                    Some(s) => s,
                    None => vstd::pervasive::unreached(),
                }
            },
            Variant::Owned(s) => s.as_str(),
        }
    }

    /// Puts `other` behind this text, where that can be done in place.
    fn extend(&mut self, other: &Variant) -> (done: bool)
        requires
            old(self).valid(),
            other.valid(),
        ensures
            final(self).valid(),
            done ==> final(self).text() == old(self).text() + other.text(),
            done ==> (*final(self) is BytesSlice) == (*old(self) is BytesSlice),
            !done ==> *final(self) == *old(self),
            *old(self) is Owned ==> done,
            *old(self) is BytesSlice && other is Owned ==> !done,
    {
        match self {
            Variant::BytesSlice(s) => {
                match other {
                    Variant::BytesSlice(o) => {
                        let ghost a = slice_bytes(*s);
                        let ghost b = slice_bytes(*o);
                        let merged = window_try_merge(s, o);
                        proof {
                            if merged {
                                lemma_decode_concat(a, b);
                            }
                        }
                        merged
                    },
                    Variant::Owned(_) => false,
                }
            },
            Variant::Owned(s) => {
                s.append(other.as_str());
                true
            },
        }
    }

    /// Takes the first `length` characters off the text and gives them
    /// back. A window is cut in two windows on the same bytes; a string is
    /// split in two strings.
    fn take(&mut self, length: usize) -> (r: Variant)
        requires
            old(self).valid(),
            length <= old(self).text().len(),
        ensures
            final(self).valid(),
            r.valid(),
            r.text() == old(self).text().take(length as int),
            final(self).text() == old(self).text().skip(length as int),
            (r is BytesSlice) == (*old(self) is BytesSlice),
            (*final(self) is BytesSlice) == (*old(self) is BytesSlice),
    {
        let ghost all = self.text();
        let total = self.as_str().unicode_len();
        let head = String::from_str(self.as_str().substring_char(0, length));
        assert(head@ =~= all.take(length as int));
        match self {
            Variant::BytesSlice(s) => {
                // the characters that are taken end where their UTF-8 ends
                let cut = head.as_str().as_bytes().len();
                proof {
                    lemma_cut(slice_bytes(*s), length as int);
                }
                let rest = window_from(s, cut);
                let mut first = window_clone(s);
                window_truncate(&mut first, cut);
                *s = rest;
                Variant::BytesSlice(first)
            },
            Variant::Owned(text) => {
                let tail = String::from_str(text.as_str().substring_char(length, total));
                assert(tail@ =~= all.skip(length as int));
                *text = tail;
                Variant::Owned(head)
            },
        }
    }
}

/// A piece of text: a string of its own, or a window on shared bytes that
/// are valid UTF-8.
pub struct StringSlice {
    bytes: Variant,
}

impl StringSlice {
    #[verifier::type_invariant]
    spec fn valid(&self) -> bool {
        self.bytes.valid()
    }

    /// The characters of the text.
    pub closed spec fn text(&self) -> Seq<char> {
        self.bytes.text()
    }

    /// Whether the text is a window on shared bytes.
    pub closed spec fn is_window(&self) -> bool {
        self.bytes is BytesSlice
    }

    /// The text that a window on valid UTF-8 shows.
    pub fn new(s: BytesSlice) -> (r: Self)
        requires
            valid_utf8(slice_bytes(s)),
        ensures
            r.text() == decode_utf8(slice_bytes(s)),
            r.is_window(),
    {
        StringSlice { bytes: Variant::BytesSlice(s) }
    }

    /// Whether a window shows valid UTF-8, so that `new` takes it.
    pub fn is_valid_utf8(s: &BytesSlice) -> (b: bool)
        ensures
            b == valid_utf8(slice_bytes(*s)),
    {
        utf8_to_str(window_bytes(s)).is_some()
    }

    /// The text that a window shows, if the window shows valid UTF-8.
    pub fn try_new(s: BytesSlice) -> (r: Option<Self>)
        ensures
            r is Some <==> valid_utf8(slice_bytes(s)),
            r is Some ==> r->0.text() == decode_utf8(slice_bytes(s)) && r->0.is_window(),
    {
        if Self::is_valid_utf8(&s) {
            Some(StringSlice { bytes: Variant::BytesSlice(s) })
        } else {
            None
        }
    }

    /// A text of its own.
    pub fn from_string(s: String) -> (r: Self)
        ensures
            r.text() == s@,
            !r.is_window(),
    {
        StringSlice { bytes: Variant::Owned(s) }
    }

    /// A text of its own, copied from `s`.
    pub fn from_str(s: &str) -> (r: Self)
        ensures
            r.text() == s@,
            !r.is_window(),
    {
        StringSlice { bytes: Variant::Owned(String::from_str(s)) }
    }

    pub fn as_str(&self) -> (r: &str)
        ensures
            r@ == self.text(),
    {
        proof {
            use_type_invariant(self);
        }
        self.bytes.as_str()
    }

    pub fn to_string(&self) -> (r: String)
        ensures
            r@ == self.text(),
    {
        String::from_str(self.as_str())
    }

    /// The length of the text in bytes of UTF-8.
    pub fn len_bytes(&self) -> (n: usize)
        ensures
            n == encode_utf8(self.text()).len(),
    {
        proof {
            use_type_invariant(self);
        }
        match &self.bytes {
            Variant::BytesSlice(b) => {
                proof {
                    vstd::utf8::decode_utf8_encode_utf8(slice_bytes(*b));
                }
                window_len(b)
            },
            Variant::Owned(s) => s.as_str().as_bytes().len(),
        }
    }

    /// The length of the text in characters.
    pub fn len_unicode(&self) -> (n: usize)
        ensures
            n == self.text().len(),
    {
        self.as_str().unicode_len()
    }

    /// The length of the text in characters.
    pub fn length(&self) -> (n: usize)
        ensures
            n == self.text().len(),
    {
        self.len_unicode()
    }

    pub fn is_empty(&self) -> (b: bool)
        ensures
            b == (self.text().len() == 0),
    {
        self.as_str().is_empty()
    }

    /// A copy of the text; a window stays a window on the same bytes.
    pub fn clone_slice(&self) -> (r: Self)
        ensures
            r.text() == self.text(),
            r.is_window() == self.is_window(),
    {
        proof {
            use_type_invariant(self);
        }
        match &self.bytes {
            Variant::BytesSlice(b) => StringSlice { bytes: Variant::BytesSlice(window_clone(b)) },
            Variant::Owned(s) => StringSlice { bytes: Variant::Owned(s.clone()) },
        }
    }

    /// Whether two texts hold the same characters.
    pub fn same_text(&self, other: &Self) -> (b: bool)
        ensures
            b == (self.text() == other.text()),
    {
        let a = self.to_string();
        let b = other.to_string();
        a == b
    }

    /// Puts `other` behind this text, where that can be done in place: a
    /// text of its own takes any text in; a window takes in only a window
    /// that follows it in the same shared bytes. A text that is not taken
    /// in comes back.
    pub fn value_extend(&mut self, other: Self) -> (r: Result<(), Self>)
        ensures
            r is Ok ==> final(self).text() == old(self).text() + other.text(),
            r is Ok ==> final(self).is_window() == old(self).is_window(),
            r is Err ==> *final(self) == *old(self) && r->Err_0 == other,
            !old(self).is_window() ==> r is Ok,
            old(self).is_window() && !other.is_window() ==> r is Err,
    {
        proof {
            use_type_invariant(&*self);
            use_type_invariant(&other);
        }
        // the text is taken out of `self` while it is worked on
        let mut bytes = Variant::Owned(String::new());
        std::mem::swap(&mut self.bytes, &mut bytes);
        let done = bytes.extend(&other.bytes);
        std::mem::swap(&mut self.bytes, &mut bytes);
        if done {
            Ok(())
        } else {
            Err(other)
        }
    }

    /// Takes the first `length` characters off the text and gives them
    /// back; the text keeps the rest. Of a window both parts are windows
    /// on the same shared bytes, of a text of its own both are texts of
    /// their own.
    pub fn take(&mut self, length: usize) -> (r: Self)
        requires
            length <= old(self).text().len(),
        ensures
            r.text() == old(self).text().take(length as int),
            final(self).text() == old(self).text().skip(length as int),
            r.is_window() == old(self).is_window(),
            final(self).is_window() == old(self).is_window(),
    {
        proof {
            use_type_invariant(&*self);
        }
        // the text is taken out of `self` while it is worked on
        let mut bytes = Variant::Owned(String::new());
        std::mem::swap(&mut self.bytes, &mut bytes);
        let first = bytes.take(length);
        std::mem::swap(&mut self.bytes, &mut bytes);
        StringSlice { bytes: first }
    }
}

/// Valid UTF-8 can be cut behind any number of its characters: the cut lies
/// where the UTF-8 of the characters before it ends, and each side is the
/// UTF-8 of its characters.
pub proof fn lemma_cut(bytes: Seq<u8>, n: int)
    requires
        valid_utf8(bytes),
        0 <= n <= decode_utf8(bytes).len(),
    ensures
        ({
            let k = encode_utf8(decode_utf8(bytes).take(n)).len() as int;
            &&& k <= bytes.len()
            &&& valid_utf8(bytes.subrange(0, k))
            &&& decode_utf8(bytes.subrange(0, k)) == decode_utf8(bytes).take(n)
            &&& valid_utf8(bytes.subrange(k, bytes.len() as int))
            &&& decode_utf8(bytes.subrange(k, bytes.len() as int)) == decode_utf8(bytes).skip(n)
        }),
{
    let all = decode_utf8(bytes);
    let a = all.take(n);
    let b = all.skip(n);
    assert(a + b =~= all);
    lemma_encode_concat(a, b);
    assert(encode_utf8(all) == bytes);
    let k = encode_utf8(a).len() as int;
    assert(bytes.subrange(0, k) =~= encode_utf8(a));
    assert(bytes.subrange(k, bytes.len() as int) =~= encode_utf8(b));
}

/// Two runs of valid UTF-8, one behind the other, are valid UTF-8 and
/// hold the characters of the first followed by those of the second.
pub proof fn lemma_decode_concat(a: Seq<u8>, b: Seq<u8>)
    requires
        valid_utf8(a),
        valid_utf8(b),
    ensures
        valid_utf8(a + b),
        decode_utf8(a + b) == decode_utf8(a) + decode_utf8(b),
{
    let ca = decode_utf8(a);
    let cb = decode_utf8(b);
    vstd::utf8::valid_utf8_concat(a, b);
    lemma_encode_concat(ca, cb);
    assert(encode_utf8(ca) == a);
    assert(encode_utf8(cb) == b);
    assert(decode_utf8(encode_utf8(ca + cb)) == ca + cb);
}

/// The UTF-8 of two runs of characters, one behind the other, is the
/// UTF-8 of the first followed by that of the second.
pub proof fn lemma_encode_concat(a: Seq<char>, b: Seq<char>)
    ensures
        encode_utf8(a + b) == encode_utf8(a) + encode_utf8(b),
    decreases a.len(),
{
    if a.len() == 0 {
        assert(a + b =~= b);
        assert(encode_utf8(a) =~= Seq::<u8>::empty());
        assert(encode_utf8(a) + encode_utf8(b) =~= encode_utf8(b));
    } else {
        let rest = a.drop_first();
        lemma_encode_concat(rest, b);
        assert((a + b).drop_first() =~= rest + b);
        assert((a + b)[0] == a[0]);
        assert(encode_utf8(a + b) =~= encode_utf8(a) + encode_utf8(b));
    }
}

} // verus!
