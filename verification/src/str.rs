//! Immutable strings allocated on the GC heap.
use vstd::prelude::*;
use vstd::string::StringSliceAdditionalSpecFns;

verus! {

/// The contents of `s` as a mutable string slice, by `String::as_mut_str`:
/// the slice holds the string's characters, and what the slice holds when
/// it is given up is what the string then holds.
#[verifier::external_body]
fn string_as_mut_str(s: &mut String) -> (r: &mut str)
    ensures
        (*r)@ == old(s)@,
        (*final(s))@ == (*final(r))@,
{
    s.as_mut_str()
}

/// An immutable string that records its length in bytes.
pub struct Str {
    length: usize,
    text: String,
}

impl View for Str {
    type V = Seq<char>;

    /// The characters of the string.
    closed spec fn view(&self) -> Seq<char> {
        self.text@
    }
}

impl Str {
    /// The recorded length.
    pub closed spec fn spec_len(&self) -> usize {
        self.length
    }

    /// A string holding the characters of `from`, with its length in bytes.
    pub fn new(from: &str) -> (s: Self)
        ensures
            s@ == from@,
            s.spec_len() == from.spec_bytes().len() as usize,
    {
        let length = from.len();
        Str { length, text: from.to_owned() }
    }

    /// The length of the string in bytes.
    pub fn len(&self) -> (r: usize)
        ensures
            r == self.spec_len(),
    {
        self.length
    }

    /// The string's characters.
    pub fn as_str(&self) -> (r: &str)
        ensures
            r@ == self@,
    {
        self.text.as_str()
    }

    /// The string's characters, as a mutable slice; changes made through it
    /// are changes of the string.
    pub fn as_mut_str(&mut self) -> (r: &mut str)
        ensures
            (*r)@ == old(self)@,
            final(self)@ == (*final(r))@,
            final(self).spec_len() == old(self).spec_len(),
    {
        string_as_mut_str(&mut self.text)
    }
}

} // verus!
