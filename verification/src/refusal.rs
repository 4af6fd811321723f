//! A refusal, in words.
use vstd::prelude::*;

verus! {

/// Why something was refused.
#[derive(Clone, Debug, PartialEq, Eq)]
pub struct Refusal {
    pub why: String,
}

impl View for Refusal {
    type V = Seq<char>;

    open spec fn view(&self) -> Seq<char> {
        self.why@
    }
}

pub fn refuse(why: &str) -> (r: Refusal)
    ensures
        r@ == why@,
{
    Refusal { why: why.to_owned() }
}

/// A refusal that names something.
pub fn refuse_naming(why: &str, name: &str) -> (r: Refusal)
    ensures
        r@ == why@ + name@,
{
    let mut text = why.to_owned();
    text.append(name);
    Refusal { why: text }
}

impl Refusal {
    /// The refusal in words.
    pub fn message(&self) -> (r: String)
        ensures
            r@ == self@,
    {
        self.why.clone()
    }
}

/// A result with the refusal taken by its view.
pub open spec fn seen<T>(r: Result<T, Refusal>) -> Result<T, Seq<char>> {
    match r {
        Ok(v) => Ok(v),
        Err(e) => Err(e@),
    }
}

} // verus!
