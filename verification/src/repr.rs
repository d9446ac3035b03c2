use vstd::prelude::*;

verus! {

/// Whitespace (and comments) found before and after a key or a value.
#[derive(Debug)]
pub struct Decor {
    pub(crate) prefix: String,
    pub(crate) suffix: String,
}

impl View for Decor {
    type V = (Seq<char>, Seq<char>);

    /// The prefix and the suffix, as text.
    closed spec fn view(&self) -> (Seq<char>, Seq<char>) {
        (self.prefix@, self.suffix@)
    }
}

impl Decor {
    /// Creates a decor from its prefix and its suffix.
    pub fn new(prefix: &str, suffix: &str) -> (r: Decor)
        ensures
            r@ == (prefix@, suffix@),
    {
        Decor { prefix: prefix.to_owned(), suffix: suffix.to_owned() }
    }

    /// The text before the decorated item.
    pub fn prefix(&self) -> (r: &str)
        ensures
            r@ == self@.0,
    {
        self.prefix.as_str()
    }

    /// The text after the decorated item.
    pub fn suffix(&self) -> (r: &str)
        ensures
            r@ == self@.1,
    {
        self.suffix.as_str()
    }
}

impl Clone for Decor {
    fn clone(&self) -> (r: Decor)
        ensures
            r == *self,
    {
        Decor { prefix: self.prefix.clone(), suffix: self.suffix.clone() }
    }
}

impl Default for Decor {
    fn default() -> (r: Decor)
        ensures
            r@ == (Seq::<char>::empty(), Seq::<char>::empty()),
    {
        Decor { prefix: String::new(), suffix: String::new() }
    }
}

} // verus!
