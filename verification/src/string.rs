//! A growable UTF-8 string stored in a [Vector] of bytes.
use vstd::prelude::*;
use vstd::utf8::*;
use vstd::string::StringSliceAdditionalSpecFns;
use crate::vector::{Vector, spec_reserve_capacity};

verus! {

/// The string slice over `bytes`, when they are valid UTF-8
/// (`std::str::from_utf8`): the slice is returned exactly when the bytes are
/// valid UTF-8, and it holds those bytes.
#[verifier::external_body]
fn str_from_utf8<'a>(bytes: &'a [u8]) -> (r: Option<&'a str>)
    ensures
        r is Some <==> valid_utf8(bytes@),
        r matches Some(s) ==> s.spec_bytes() == bytes@,
{
    std::str::from_utf8(bytes).ok()
}

/// The `char` with the value `x`, when `x` is a Unicode scalar value
/// (`char::from_u32`).
#[verifier::external_body]
fn char_from_u32(x: u32) -> (r: Option<char>)
    ensures
        r == (if is_scalar(x) { Some(x as char) } else { None }),
{
    char::from_u32(x)
}

/// The UTF-8 bytes of the character `c`.
pub open spec fn char_bytes(c: char) -> Seq<u8> {
    encode_scalar(c as u32)
}

/// The UTF-8 encoding of the scalar value `x`.
fn encode(x: u32) -> (bytes: Vec<u8>)
    requires
        is_scalar(x),
    ensures
        bytes@ == encode_scalar(x),
{
    let mut bytes: Vec<u8> = Vec::new();
    if x <= 0x7F {
        bytes.push((x & 0x7F) as u8);
    } else if x <= 0x7FF {
        bytes.push(0xC0 | ((x >> 6) & 0x1F) as u8);
        bytes.push(0x80 | (x & 0x3F) as u8);
    } else if x <= 0xFFFF {
        bytes.push(0xE0 | ((x >> 12) & 0x0F) as u8);
        bytes.push(0x80 | ((x >> 6) & 0x3F) as u8);
        bytes.push(0x80 | (x & 0x3F) as u8);
    } else {
        bytes.push(0xF0 | ((x >> 18) & 0x7) as u8);
        bytes.push(0x80 | ((x >> 12) & 0x3F) as u8);
        bytes.push(0x80 | ((x >> 6) & 0x3F) as u8);
        bytes.push(0x80 | (x & 0x3F) as u8);
    }
    proof {
        assert(bytes@ =~= encode_scalar(x));
    }
    bytes
}

/// The encoding of one scalar value is valid UTF-8 and decodes back to it.
proof fn lemma_encode_scalar_valid(x: u32)
    requires
        is_scalar(x),
    ensures
        valid_utf8(encode_scalar(x)),
        (x as char) as u32 == x,
{
    let c = x as char;
    assert((c as u32) == x);
    let cs = seq![c];
    encode_utf8_valid_utf8(cs);
    assert(cs.drop_first() =~= Seq::<char>::empty());
    assert(encode_utf8(cs) =~= encode_scalar(x) + encode_utf8(Seq::<char>::empty()));
    assert(encode_utf8(cs) =~= encode_scalar(x));
}

/// Two bytes encode a value of at most eleven bits.
proof fn lemma_width_2_bound(b1: u8, b2: u8)
    by (bit_vector)
    ensures
        codepoint_width_2(b1, b2) <= 0x7FF,
{
}

/// Three bytes encode a value of at most sixteen bits.
proof fn lemma_width_3_bound(b1: u8, b2: u8, b3: u8)
    by (bit_vector)
    ensures
        codepoint_width_3(b1, b2, b3) <= 0xFFFF,
{
}

/// A well-formed first encoding decodes to a scalar value.
proof fn lemma_first_scalar_is_scalar(bytes: Seq<u8>)
    requires
        valid_first_scalar(bytes),
    ensures
        is_scalar(decode_first_scalar(bytes)),
{
    if is_leading_byte_width_2(bytes[0]) {
        lemma_width_2_bound(bytes[0], bytes[1]);
    } else if is_leading_byte_width_3(bytes[0]) {
        lemma_width_3_bound(bytes[0], bytes[1], bytes[2]);
    }
}

/// The first scalar value encoded at byte `idx` of `bytes`, and the length of
/// its encoding.
fn decode_at(bytes: &Vector<u8>, idx: usize) -> (r: (u32, usize))
    requires
        idx < bytes@.len(),
        valid_first_scalar(bytes@.subrange(idx as int, bytes@.len() as int)),
    ensures
        r.0 == decode_first_scalar(bytes@.subrange(idx as int, bytes@.len() as int)),
        r.1 == length_of_first_scalar(bytes@.subrange(idx as int, bytes@.len() as int)),
{
    let ghost sub = bytes@.subrange(idx as int, bytes@.len() as int);
    let n = bytes.len();
    let b0 = *bytes.at(idx);
    proof {
        assert(sub[0] == b0);
    }
    if b0 <= 0x7F {
        ((b0 & 0x7F) as u32, 1)
    } else if 0xC0 <= b0 && b0 <= 0xDF {
        let b1 = *bytes.at(idx + 1);
        proof {
            assert(sub[1] == b1);
        }
        ((((b0 & 0x1F) as u32) << 6) | ((b1 & 0x3F) as u32), 2)
    } else if 0xE0 <= b0 && b0 <= 0xEF {
        let b1 = *bytes.at(idx + 1);
        let b2 = *bytes.at(idx + 2);
        proof {
            assert(sub[1] == b1);
            assert(sub[2] == b2);
        }
        ((((b0 & 0x0F) as u32) << 12) | (((b1 & 0x3F) as u32) << 6) | ((b2 & 0x3F) as u32), 3)
    } else {
        let b1 = *bytes.at(idx + 1);
        let b2 = *bytes.at(idx + 2);
        let b3 = *bytes.at(idx + 3);
        proof {
            assert(sub[1] == b1);
            assert(sub[2] == b2);
            assert(sub[3] == b3);
        }
        ((((b0 & 0x07) as u32) << 18) | (((b1 & 0x3F) as u32) << 12) | (((b2 & 0x3F) as u32) << 6) | ((b3 & 0x3F) as u32), 4)
    }
}

/// Decoding two valid encodings one after the other decodes each in turn.
proof fn lemma_chars_append(a: Seq<u8>, b: Seq<u8>)
    requires
        valid_utf8(a),
        valid_utf8(b),
    ensures
        valid_utf8(a + b),
        decode_utf8(a + b) == decode_utf8(a) + decode_utf8(b),
{
    valid_utf8_concat(a, b);
    let ab = a + b;
    lemma_concat_boundary(a, b);
    decode_utf8_split(ab, a.len() as int);
    assert(ab.subrange(0, a.len() as int) =~= a);
    assert(ab.subrange(a.len() as int, ab.len() as int) =~= b);
}

/// The end of the first of two valid encodings is a character boundary of
/// their concatenation.
proof fn lemma_concat_boundary(a: Seq<u8>, b: Seq<u8>)
    requires
        valid_utf8(a),
        valid_utf8(b),
    ensures
        is_char_boundary(a + b, a.len() as int),
    decreases a.len(),
{
    valid_utf8_concat(a, b);
    if a.len() > 0 {
        let rest = pop_first_scalar(a);
        assert(valid_first_scalar(a));
        lemma_first_scalar_prefix(a, b);
        assert(pop_first_scalar(a + b) =~= rest + b);
        lemma_concat_boundary(rest, b);
    }
}

/// A well-formed first encoding stays the first encoding when bytes follow.
proof fn lemma_first_scalar_prefix(a: Seq<u8>, b: Seq<u8>)
    requires
        valid_first_scalar(a),
    ensures
        valid_first_scalar(a + b),
        decode_first_scalar(a + b) == decode_first_scalar(a),
        length_of_first_scalar(a + b) == length_of_first_scalar(a),
{
    let ab = a + b;
    assert(ab[0] == a[0]);
    if a.len() >= 2 {
        assert(ab[1] == a[1]);
    }
    if a.len() >= 3 {
        assert(ab[2] == a[2]);
    }
    if a.len() >= 4 {
        assert(ab[3] == a[3]);
    }
}

/// The encoding of one character decodes to that character.
proof fn lemma_char_bytes_chars(c: char)
    ensures
        valid_utf8(char_bytes(c)),
        decode_utf8(char_bytes(c)) == seq![c],
{
    let cs = seq![c];
    encode_utf8_valid_utf8(cs);
    encode_utf8_decode_utf8(cs);
    assert(cs.drop_first() =~= Seq::<char>::empty());
    assert(encode_utf8(cs) =~= char_bytes(c) + encode_utf8(Seq::<char>::empty()));
    assert(encode_utf8(cs) =~= char_bytes(c));
}

/// Whether the UTF-16 unit `u` is a surrogate.
pub open spec fn is_surrogate(u: u16) -> bool {
    0xD800 <= u <= 0xDFFF
}

/// The characters that the UTF-16 units `units` encode, or `None` when they
/// hold a surrogate that is not the high half of a pair followed by its low
/// half.
pub open spec fn decode_utf16(units: Seq<u16>) -> Option<Seq<char>>
    decreases units.len(),
{
    if units.len() == 0 {
        Some(Seq::<char>::empty())
    } else if !is_surrogate(units[0]) {
        match decode_utf16(units.drop_first()) {
            Some(rest) => Some(seq![(units[0] as u32) as char] + rest),
            None => None,
        }
    } else if units[0] <= 0xDBFF && units.len() >= 2 && 0xDC00 <= units[1] <= 0xDFFF {
        let c = (0x10000 + (units[0] - 0xD800) * 0x400 + (units[1] - 0xDC00)) as u32;
        match decode_utf16(units.subrange(2, units.len() as int)) {
            Some(rest) => Some(seq![c as char] + rest),
            None => None,
        }
    } else {
        None
    }
}

/// Reserving room for at most `usize::MAX / 4` bytes in a storage of at most
/// `usize::MAX / 2` bytes keeps it at most `usize::MAX / 2`.
proof fn lemma_grow_to_bound_for(capacity: nat, total: nat)
    requires
        capacity <= usize::MAX / 2,
        total <= usize::MAX / 4,
    ensures
        spec_reserve_capacity(1, capacity, total) <= usize::MAX / 2,
{
    if total > capacity {
        crate::vector::lemma_grow_to_at_most(1, crate::vector::spec_next_capacity(1, capacity), total);
    }
}

/// The error of a conversion from bytes that are not valid UTF-8; it gives
/// the bytes back.
pub struct FromUtf8Error {
    bytes: Vector<u8>,
}

impl FromUtf8Error {
    /// The bytes whose conversion failed.
    pub closed spec fn spec_bytes(&self) -> Seq<u8> {
        self.bytes@
    }

    /// The bytes whose conversion failed.
    pub fn as_bytes(&self) -> (r: &[u8])
        ensures
            r@ == self.spec_bytes(),
    {
        self.bytes.as_slice()
    }

    /// Gives the bytes whose conversion failed back.
    pub fn into_bytes(self) -> (r: Vector<u8>)
        ensures
            r@ == self.spec_bytes(),
    {
        self.bytes
    }
}

/// The error of a conversion from UTF-16 that meets an unpaired surrogate.
pub struct FromUtf16Error(());

/// A growable string: a vector of bytes that always holds valid UTF-8.
pub struct String {
    vec: Vector<u8>,
}

impl View for String {
    type V = Seq<u8>;

    /// The bytes of the string.
    closed spec fn view(&self) -> Seq<u8> {
        self.vec@
    }
}

impl String {
    /// The bytes are valid UTF-8 and fit in the storage.
    pub closed spec fn wf(&self) -> bool {
        self.vec.wf() && valid_utf8(self.vec@)
    }

    /// The capacity of the storage, in bytes.
    pub closed spec fn spec_capacity(&self) -> nat {
        self.vec.spec_capacity()
    }

    /// The characters of the string.
    pub open spec fn chars(&self) -> Seq<char> {
        decode_utf8(self@)
    }

    /// An empty string with no storage.
    pub fn new() -> (s: Self)
        ensures
            s.wf(),
            s@ == Seq::<u8>::empty(),
            s.spec_capacity() == 0,
    {
        String { vec: Vector::new() }
    }

    /// An empty string whose storage holds `capacity` bytes.
    pub fn with_capacity(capacity: usize) -> (s: Self)
        ensures
            s.wf(),
            s@ == Seq::<u8>::empty(),
            s.spec_capacity() == capacity,
    {
        String { vec: Vector::with_capacity(capacity) }
    }

    /// The string holding the bytes of `vec`, when they are valid UTF-8;
    /// else an error that gives the bytes back.
    pub fn from_utf8(vec: Vector<u8>) -> (r: Result<Self, FromUtf8Error>)
        requires
            vec.wf(),
        ensures
            r is Ok <==> valid_utf8(vec@),
            r matches Ok(s) ==> s.wf() && s@ == vec@ && s.spec_capacity() == vec.spec_capacity(),
            r matches Err(e) ==> e.spec_bytes() == vec@,
    {
        let valid = str_from_utf8(vec.as_slice()).is_some();
        if valid {
            Ok(String { vec })
        } else {
            Err(FromUtf8Error { bytes: vec })
        }
    }

    /// The string holding the bytes of `bytes`, which are valid UTF-8.
    pub fn from_utf8_unchecked(bytes: Vector<u8>) -> (s: Self)
        requires
            bytes.wf(),
            valid_utf8(bytes@),
        ensures
            s.wf(),
            s@ == bytes@,
            s.spec_capacity() == bytes.spec_capacity(),
    {
        String { vec: bytes }
    }

    /// The bytes of the string.
    pub fn into_bytes(self) -> (r: Vector<u8>)
        requires
            self.wf(),
        ensures
            r.wf(),
            r@ == self@,
            r.spec_capacity() == self.spec_capacity(),
    {
        self.vec
    }

    /// The string as a string slice.
    pub fn as_str(&self) -> (r: &str)
        requires
            self.wf(),
        ensures
            r.spec_bytes() == self@,
            r@ == self.chars(),
    {
        match str_from_utf8(self.vec.as_slice()) {
            Some(s) => {
                proof {
                    decode_utf8_encode_utf8(self.vec@);
                    encode_utf8_decode_utf8(s@);
                }
                s
            },
            None => {
                proof {
                    assert(false);
                }
                ""
            },
        }
    }

    /// The capacity of the storage, in bytes.
    pub fn capacity(&self) -> (r: usize)
        ensures
            r == self.spec_capacity(),
    {
        self.vec.capacity()
    }

    /// The length in bytes.
    pub fn len(&self) -> (r: usize)
        ensures
            r == self@.len(),
    {
        self.vec.len()
    }

    /// Whether the string is empty.
    pub fn is_empty(&self) -> (r: bool)
        ensures
            r == (self@.len() == 0),
    {
        self.vec.len() == 0
    }

    /// Makes room for `additional` more bytes.
    pub fn reserve(&mut self, additional: usize)
        requires
            old(self).wf(),
            old(self)@.len() + additional <= usize::MAX / 2,
            old(self).spec_capacity() <= usize::MAX / 2,
        ensures
            final(self).wf(),
            final(self)@ == old(self)@,
            final(self).spec_capacity() == spec_reserve_capacity(1, old(self).spec_capacity(), (old(self)@.len() + additional) as nat),
    {
        broadcast use vstd::layout::layout_of_primitives;
        self.vec.reserve(additional);
    }

    /// Empties the string, keeping its storage.
    pub fn clear(&mut self)
        requires
            old(self).wf(),
        ensures
            final(self).wf(),
            final(self)@ == Seq::<u8>::empty(),
            final(self).spec_capacity() == old(self).spec_capacity(),
    {
        self.vec.clear();
    }

    /// Appends the encoding of the scalar value `x`.
    fn push_scalar(&mut self, x: u32)
        requires
            old(self).wf(),
            is_scalar(x),
            old(self)@.len() + 4 <= usize::MAX / 2,
            old(self).spec_capacity() <= usize::MAX / 2,
        ensures
            final(self).wf(),
            final(self)@ == old(self)@ + encode_scalar(x),
            final(self).spec_capacity() == spec_reserve_capacity(1, old(self).spec_capacity(),
                (old(self)@.len() + encode_scalar(x).len()) as nat),
    {
        broadcast use vstd::layout::layout_of_primitives;
        let bytes = encode(x);
        proof {
            lemma_encode_scalar_valid(x);
        }
        let ghost before = self.vec@;
        self.vec.extend_from_slice(bytes.as_slice());
        proof {
            assert forall|i: int| 0 <= i < bytes@.len() implies self.vec@[before.len() + i] == bytes@[i] by {
                assert(cloned(bytes@[i], self.vec@[before.len() + i]));
            }
            assert forall|i: int| 0 <= i < before.len() implies self.vec@[i] == before[i] by {
                assert(self.vec@.take(before.len() as int)[i] == before[i]);
            }
            assert(self.vec@ =~= before + encode_scalar(x));
            valid_utf8_concat(before, encode_scalar(x));
        }
    }

    /// Appends the character `ch`.
    pub fn push(&mut self, ch: char)
        requires
            old(self).wf(),
            old(self)@.len() + 4 <= usize::MAX / 2,
            old(self).spec_capacity() <= usize::MAX / 2,
        ensures
            final(self).wf(),
            final(self)@ == old(self)@ + char_bytes(ch),
            final(self).chars() == old(self).chars().push(ch),
            final(self).spec_capacity() == spec_reserve_capacity(1, old(self).spec_capacity(),
                (old(self)@.len() + char_bytes(ch).len()) as nat),
    {
        proof {
            char_is_scalar(ch);
        }
        self.push_scalar(ch as u32);
        proof {
            lemma_char_bytes_chars(ch);
            lemma_chars_append(old(self)@, char_bytes(ch));
        }
    }

    /// Appends the characters of `string`.
    pub fn push_str(&mut self, string: &str)
        requires
            old(self).wf(),
            old(self)@.len() + string.spec_bytes().len() <= usize::MAX / 2,
            old(self).spec_capacity() <= usize::MAX / 2,
        ensures
            final(self).wf(),
            final(self)@ == old(self)@ + string.spec_bytes(),
            final(self).chars() == old(self).chars() + string@,
            final(self).spec_capacity() == spec_reserve_capacity(1, old(self).spec_capacity(),
                (old(self)@.len() + string.spec_bytes().len()) as nat),
    {
        broadcast use vstd::layout::layout_of_primitives;
        let bytes = string.as_bytes();
        let ghost before = self.vec@;
        self.vec.extend_from_slice(bytes);
        proof {
            assert forall|i: int| 0 <= i < bytes@.len() implies self.vec@[before.len() + i] == bytes@[i] by {
                assert(cloned(bytes@[i], self.vec@[before.len() + i]));
            }
            assert forall|i: int| 0 <= i < before.len() implies self.vec@[i] == before[i] by {
                assert(self.vec@.take(before.len() as int)[i] == before[i]);
            }
            assert(self.vec@ =~= before + string.spec_bytes());
            encode_utf8_valid_utf8(string@);
            valid_utf8_concat(before, string.spec_bytes());
            lemma_chars_append(before, string.spec_bytes());
            encode_utf8_decode_utf8(string@);
        }
    }

    /// Inserts the valid UTF-8 `bytes` at the character boundary `idx`.
    fn insert_valid(&mut self, idx: usize, bytes: &[u8])
        requires
            old(self).wf(),
            is_char_boundary(old(self)@, idx as int),
            valid_utf8(bytes@),
            old(self)@.len() + bytes@.len() <= usize::MAX / 4,
            old(self).spec_capacity() <= usize::MAX / 2,
        ensures
            final(self).wf(),
            final(self)@ == old(self)@.subrange(0, idx as int) + bytes@ + old(self)@.subrange(idx as int, old(self)@.len() as int),
            final(self).chars() == decode_utf8(old(self)@.subrange(0, idx as int)) + decode_utf8(bytes@)
                + decode_utf8(old(self)@.subrange(idx as int, old(self)@.len() as int)),
    {
        broadcast use vstd::layout::layout_of_primitives;
        let ghost whole = self.vec@;
        let ghost pre = whole.subrange(0, idx as int);
        let ghost post = whole.subrange(idx as int, whole.len() as int);
        proof {
            valid_utf8_split(whole, idx as int);
        }
        let mut tail = self.vec.split_off(idx);
        proof {
            assert(self.vec@ =~= pre);
            assert(tail@ =~= post);
        }
        let ghost cap0 = self.vec.spec_capacity();
        self.vec.extend_from_slice(bytes);
        proof {
            assert forall|i: int| 0 <= i < bytes@.len() implies self.vec@[pre.len() + i] == bytes@[i] by {
                assert(cloned(bytes@[i], self.vec@[pre.len() + i]));
            }
            assert forall|i: int| 0 <= i < pre.len() implies self.vec@[i] == pre[i] by {
                assert(self.vec@.take(pre.len() as int)[i] == pre[i]);
            }
            assert(self.vec@ =~= pre + bytes@);
            let total = (pre.len() + bytes@.len()) as nat;
            if total > cap0 {
                crate::vector::lemma_grow_to_at_most(1, crate::vector::spec_next_capacity(1, cap0), total);
            }
        }
        self.vec.append(&mut tail);
        proof {
            lemma_chars_append(pre, bytes@);
            lemma_chars_append(pre + bytes@, post);
        }
    }

    /// Inserts the character `ch` at byte offset `idx`, which must be a
    /// character boundary.
    pub fn insert(&mut self, idx: usize, ch: char)
        requires
            old(self).wf(),
            is_char_boundary(old(self)@, idx as int),
            old(self)@.len() + 4 <= usize::MAX / 4,
            old(self).spec_capacity() <= usize::MAX / 2,
        ensures
            final(self).wf(),
            final(self)@ == old(self)@.subrange(0, idx as int) + char_bytes(ch) + old(self)@.subrange(idx as int, old(self)@.len() as int),
            final(self).chars() == decode_utf8(old(self)@.subrange(0, idx as int)) + seq![ch]
                + decode_utf8(old(self)@.subrange(idx as int, old(self)@.len() as int)),
    {
        proof {
            char_is_scalar(ch);
            lemma_char_bytes_chars(ch);
        }
        let bytes = encode(ch as u32);
        self.insert_valid(idx, bytes.as_slice());
    }

    /// Inserts the characters of `string` at byte offset `idx`, which must be
    /// a character boundary.
    pub fn insert_str(&mut self, idx: usize, string: &str)
        requires
            old(self).wf(),
            is_char_boundary(old(self)@, idx as int),
            old(self)@.len() + string.spec_bytes().len() <= usize::MAX / 4,
            old(self).spec_capacity() <= usize::MAX / 2,
        ensures
            final(self).wf(),
            final(self)@ == old(self)@.subrange(0, idx as int) + string.spec_bytes() + old(self)@.subrange(idx as int, old(self)@.len() as int),
            final(self).chars() == decode_utf8(old(self)@.subrange(0, idx as int)) + string@
                + decode_utf8(old(self)@.subrange(idx as int, old(self)@.len() as int)),
    {
        proof {
            encode_utf8_valid_utf8(string@);
            encode_utf8_decode_utf8(string@);
        }
        self.insert_valid(idx, string.as_bytes());
    }

    /// Removes and returns the character that starts at byte offset `idx`,
    /// which must be a character boundary before the end of the string.
    pub fn remove(&mut self, idx: usize) -> (ch: char)
        requires
            old(self).wf(),
            idx < old(self)@.len(),
            is_char_boundary(old(self)@, idx as int),
        ensures
            final(self).wf(),
            ({
                let post = old(self)@.subrange(idx as int, old(self)@.len() as int);
                &&& ch == decode_utf8(post)[0]
                &&& final(self)@ == old(self)@.subrange(0, idx as int) + pop_first_scalar(post)
                &&& final(self).chars() == decode_utf8(old(self)@.subrange(0, idx as int)) + decode_utf8(post).drop_first()
            }),
            final(self).spec_capacity() == old(self).spec_capacity(),
    {
        let ghost whole = self.vec@;
        let ghost pre = whole.subrange(0, idx as int);
        let ghost post = whole.subrange(idx as int, whole.len() as int);
        proof {
            valid_utf8_split(whole, idx as int);
            assert(post.len() > 0);
            assert(valid_first_scalar(post));
            lemma_first_scalar_is_scalar(post);
        }
        let (x, n) = decode_at(&self.vec, idx);
        let mut k: usize = 0;
        while k < n
            invariant
                0 <= k <= n,
                n == length_of_first_scalar(post),
                idx + n <= whole.len(),
                pre == whole.subrange(0, idx as int),
                post == whole.subrange(idx as int, whole.len() as int),
                self.vec.wf(),
                self.vec.spec_capacity() == old(self).vec.spec_capacity(),
                self.vec@ == pre + whole.subrange(idx + k, whole.len() as int),
            decreases n - k,
        {
            self.vec.remove(idx);
            proof {
                assert(self.vec@ =~= pre + whole.subrange(idx + k + 1, whole.len() as int));
            }
            k = k + 1;
        }
        proof {
            assert(pop_first_scalar(post) =~= whole.subrange(idx + n, whole.len() as int));
            assert(self.vec@ =~= pre + pop_first_scalar(post));
            assert(valid_utf8(pop_first_scalar(post)));
            lemma_chars_append(pre, pop_first_scalar(post));
            assert(decode_utf8(post) == seq![decode_first_scalar(post) as char] + decode_utf8(pop_first_scalar(post)));
            assert(decode_utf8(post).drop_first() =~= decode_utf8(pop_first_scalar(post)));
        }
        match char_from_u32(x) {
            Some(c) => c,
            None => {
                proof {
                    assert(false);
                }
                ' '
            },
        }
    }

    /// Splits the string at byte offset `at`, which must be a character
    /// boundary: the string keeps the bytes before it and the bytes from it on
    /// are returned.
    pub fn split_off(&mut self, at: usize) -> (other: String)
        requires
            old(self).wf(),
            is_char_boundary(old(self)@, at as int),
        ensures
            final(self).wf(),
            other.wf(),
            final(self)@ == old(self)@.subrange(0, at as int),
            other@ == old(self)@.subrange(at as int, old(self)@.len() as int),
            old(self).chars() == final(self).chars() + other.chars(),
            final(self).spec_capacity() == old(self).spec_capacity(),
    {
        let ghost whole = self.vec@;
        proof {
            valid_utf8_split(whole, at as int);
            decode_utf8_split(whole, at as int);
        }
        let other = self.vec.split_off(at);
        proof {
            assert(self.vec@ =~= whole.subrange(0, at as int));
            assert(other@ =~= whole.subrange(at as int, whole.len() as int));
        }
        String { vec: other }
    }

    /// Replaces the bytes from `start` up to `end`, both character
    /// boundaries, with those of `replace_with`.
    pub fn replace_range(&mut self, start: usize, end: usize, replace_with: &str)
        requires
            old(self).wf(),
            start <= end,
            is_char_boundary(old(self)@, start as int),
            is_char_boundary(old(self)@, end as int),
            old(self)@.len() + replace_with.spec_bytes().len() <= usize::MAX / 4,
            old(self).spec_capacity() <= usize::MAX / 2,
        ensures
            final(self).wf(),
            final(self)@ == old(self)@.subrange(0, start as int) + replace_with.spec_bytes()
                + old(self)@.subrange(end as int, old(self)@.len() as int),
            final(self).chars() == decode_utf8(old(self)@.subrange(0, start as int)) + replace_with@
                + decode_utf8(old(self)@.subrange(end as int, old(self)@.len() as int)),
    {
        broadcast use vstd::layout::layout_of_primitives;
        let ghost whole = self.vec@;
        let ghost pre = whole.subrange(0, start as int);
        let ghost post = whole.subrange(end as int, whole.len() as int);
        let bytes = replace_with.as_bytes();
        proof {
            valid_utf8_split(whole, start as int);
            valid_utf8_split(whole, end as int);
            encode_utf8_valid_utf8(replace_with@);
            encode_utf8_decode_utf8(replace_with@);
        }
        let mut tail = self.vec.split_off(end);
        self.vec.truncate(start);
        proof {
            assert(self.vec@ =~= pre);
            assert(tail@ =~= post);
        }
        let ghost cap0 = self.vec.spec_capacity();
        self.vec.extend_from_slice(bytes);
        proof {
            assert forall|i: int| 0 <= i < bytes@.len() implies self.vec@[pre.len() + i] == bytes@[i] by {
                assert(cloned(bytes@[i], self.vec@[pre.len() + i]));
            }
            assert forall|i: int| 0 <= i < pre.len() implies self.vec@[i] == pre[i] by {
                assert(self.vec@.take(pre.len() as int)[i] == pre[i]);
            }
            assert(self.vec@ =~= pre + bytes@);
            let total = (pre.len() + bytes@.len()) as nat;
            if total > cap0 {
                crate::vector::lemma_grow_to_at_most(1, crate::vector::spec_next_capacity(1, cap0), total);
            }
        }
        self.vec.append(&mut tail);
        proof {
            lemma_chars_append(pre, bytes@);
            lemma_chars_append(pre + bytes@, post);
        }
    }

    /// The string that the UTF-16 units `v` encode, or an error when they
    /// hold an unpaired surrogate.
    pub fn from_utf16(v: &[u16]) -> (r: Result<String, FromUtf16Error>)
        requires
            v@.len() <= usize::MAX / 32,
        ensures
            r is Ok <==> decode_utf16(v@) is Some,
            r matches Ok(s) ==> s.wf() && s.chars() == decode_utf16(v@)->0 && s@ == encode_utf8(decode_utf16(v@)->0),
    {
        broadcast use vstd::layout::layout_of_primitives;
        let mut ret = String::with_capacity(v.len());
        let ghost units = v@;
        let mut i: usize = 0;
        proof {
            assert(units.skip(0) =~= units);
            assert(ret.chars() =~= Seq::<char>::empty());
            match decode_utf16(units) {
                Some(r) => {
                    assert(ret.chars() + r =~= r);
                },
                None => {},
            }
        }
        while i < v.len()
            invariant
                0 <= i <= units.len(),
                units == v@,
                units.len() <= usize::MAX / 32,
                ret.wf(),
                ret@.len() <= 3 * i,
                ret.spec_capacity() <= usize::MAX / 2,
                decode_utf16(units) == match decode_utf16(units.skip(i as int)) {
                    Some(rest) => Some(ret.chars() + rest),
                    None => None::<Seq<char>>,
                },
            decreases units.len() - i,
        {
            let u = v[i];
            let ghost rest = units.skip(i as int);
            proof {
                assert(rest[0] == u);
            }
            let ghost cap0 = ret.spec_capacity();
            let ghost bytes0 = ret@;
            let ghost chars0 = ret.chars();
            if u < 0xD800 || u > 0xDFFF {
                let x = u as u32;
                proof {
                    assert(rest.drop_first() =~= units.skip(i as int + 1));
                    lemma_encode_scalar_valid(x);
                    lemma_char_bytes_chars(x as char);
                    lemma_grow_to_bound_for(cap0, bytes0.len() + encode_scalar(x).len());
                }
                ret.push_scalar(x);
                proof {
                    assert(encode_scalar(x) == char_bytes(x as char));
                    lemma_chars_append(bytes0, encode_scalar(x));
                    assert(ret.chars() == chars0 + seq![x as char]);
                    match decode_utf16(units.skip(i as int + 1)) {
                        Some(r) => {
                            assert(chars0 + (seq![x as char] + r) =~= ret.chars() + r);
                        },
                        None => {},
                    }
                }
                i = i + 1;
            } else if u <= 0xDBFF && i + 1 < v.len() && 0xDC00 <= v[i + 1] && v[i + 1] <= 0xDFFF {
                let lo = v[i + 1];
                let x = 0x10000 + ((u - 0xD800) as u32) * 0x400 + ((lo - 0xDC00) as u32);
                proof {
                    assert(rest[1] == lo);
                    assert(rest.subrange(2, rest.len() as int) =~= units.skip(i as int + 2));
                    lemma_encode_scalar_valid(x);
                    lemma_char_bytes_chars(x as char);
                    lemma_grow_to_bound_for(cap0, bytes0.len() + encode_scalar(x).len());
                }
                ret.push_scalar(x);
                proof {
                    assert(encode_scalar(x) == char_bytes(x as char));
                    lemma_chars_append(bytes0, encode_scalar(x));
                    assert(ret.chars() == chars0 + seq![x as char]);
                    match decode_utf16(units.skip(i as int + 2)) {
                        Some(r) => {
                            assert(chars0 + (seq![x as char] + r) =~= ret.chars() + r);
                        },
                        None => {},
                    }
                }
                i = i + 2;
            } else {
                return Err(FromUtf16Error(()));
            }
        }
        proof {
            assert(units.skip(units.len() as int) =~= Seq::<u16>::empty());
            assert(ret.chars() + Seq::<char>::empty() =~= ret.chars());
            decode_utf8_encode_utf8(ret@);
        }
        Ok(ret)
    }

    /// Whether byte offset `index` starts a character or ends the string.
    pub fn is_char_boundary(&self, index: usize) -> (r: bool)
        requires
            self.wf(),
        ensures
            r == is_char_boundary(self@, index as int),
    {
        let len = self.vec.len();
        proof {
            is_char_boundary_start_end_of_seq(self@);
        }
        if index == 0 || index == len {
            true
        } else if index > len {
            false
        } else {
            let b = *self.vec.at(index);
            proof {
                is_char_boundary_iff_not_is_continuation_byte(self@, index as int);
            }
            !(0x80 <= b && b <= 0xBF)
        }
    }
}

/// Removing at the offset where a character was pushed gives that character
/// back and leaves the string as it was before the push.
pub proof fn lemma_push_then_remove(bytes: Seq<u8>, c: char)
    requires
        valid_utf8(bytes),
    ensures
        ({
            let pushed = bytes + char_bytes(c);
            let post = pushed.subrange(bytes.len() as int, pushed.len() as int);
            &&& valid_utf8(pushed)
            &&& is_char_boundary(pushed, bytes.len() as int)
            &&& bytes.len() < pushed.len()
            &&& decode_utf8(post)[0] == c
            &&& pushed.subrange(0, bytes.len() as int) + pop_first_scalar(post) == bytes
        }),
{
    let pushed = bytes + char_bytes(c);
    let post = pushed.subrange(bytes.len() as int, pushed.len() as int);
    lemma_char_bytes_chars(c);
    valid_utf8_concat(bytes, char_bytes(c));
    lemma_concat_boundary(bytes, char_bytes(c));
    assert(post =~= char_bytes(c));
    assert(pushed.subrange(0, bytes.len() as int) =~= bytes);
    char_is_scalar(c);
    assert(char_bytes(c).len() > 0);
    assert(valid_first_scalar(post));
    assert(decode_utf8(post) == seq![decode_first_scalar(post) as char] + decode_utf8(pop_first_scalar(post)));
    assert(decode_utf8(post)[0] == c);
    assert(valid_utf8(pop_first_scalar(post)));
    assert(decode_utf8(pop_first_scalar(post)).len() == 0);
    assert(pop_first_scalar(post).len() == 0) by {
        if pop_first_scalar(post).len() > 0 {
            assert(decode_utf8(pop_first_scalar(post)).len() > 0);
        }
    }
    assert(pushed.subrange(0, bytes.len() as int) + pop_first_scalar(post) =~= bytes);
}

/// The bytes of a string are always valid UTF-8.
pub proof fn lemma_string_is_utf8(s: String)
    requires
        s.wf(),
    ensures
        valid_utf8(s@),
{
}

} // verus!
