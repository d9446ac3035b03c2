use vstd::prelude::*;

use crate::repr::Decor;

verus! {

/// A key of a TOML table, with the whitespace around it.
#[derive(Debug)]
pub struct Key {
    key: String,
    pub(crate) decor: Decor,
}

impl View for Key {
    type V = Seq<char>;

    /// The key's text.
    closed spec fn view(&self) -> Seq<char> {
        self.key@
    }
}

impl Key {
    /// The whitespace around the key.
    pub closed spec fn spec_decor(&self) -> Decor {
        self.decor
    }

    /// The same key with other whitespace around it.
    pub closed spec fn spec_with_decor(self, decor: Decor) -> Key {
        Key { decor, ..self }
    }

    /// Creates a key with no whitespace around it.
    pub fn with_key(key: &str) -> (r: Key)
        ensures
            r@ == key@,
            r.spec_decor()@ == (Seq::<char>::empty(), Seq::<char>::empty()),
    {
        Key { key: key.to_owned(), decor: Decor::default() }
    }

    /// Creates a key with the given whitespace around it.
    pub fn with_decor(key: &str, decor: Decor) -> (r: Key)
        ensures
            r@ == key@,
            r.spec_decor() == decor,
    {
        Key { key: key.to_owned(), decor }
    }

    /// The key's text.
    pub fn get(&self) -> (r: &str)
        ensures
            r@ == self@,
    {
        self.key.as_str()
    }

    /// The whitespace around the key.
    pub fn decor(&self) -> (r: &Decor)
        ensures
            *r == self.spec_decor(),
    {
        &self.decor
    }

    /// Mutable access to the whitespace around the key.
    pub fn decor_mut(&mut self) -> (r: &mut Decor)
        ensures
            *r == old(self).spec_decor(),
            *final(self) == old(self).spec_with_decor(*final(r)),
            final(self)@ == old(self)@,
            final(self).spec_decor() == *final(r),
    {
        &mut self.decor
    }
}

/// Other whitespace around a key keeps its text, and is the whitespace
/// given.
pub broadcast proof fn lemma_with_decor_text(k: Key, decor: Decor)
    ensures
        (#[trigger] k.spec_with_decor(decor))@ == k@,
        k.spec_with_decor(decor).spec_decor() == decor,
{
}

impl Clone for Key {
    fn clone(&self) -> (r: Key)
        ensures
            r == *self,
    {
        Key { key: self.key.clone(), decor: self.decor.clone() }
    }
}

} // verus!
