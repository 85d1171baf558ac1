//! Random terminator lines that separate the outputs of the programs.
use vstd::prelude::*;

use crate::text::string_push;

verus! {

/// An ASCII letter or digit.
pub open spec fn is_ascii_alnum(c: char) -> bool {
    ('a' <= c <= 'z') || ('A' <= c <= 'Z') || ('0' <= c <= '9')
}

/// Calls `fastrand::alphanumeric`, which returns a character drawn at random
/// from `A-Z`, `a-z` and `0-9` (its source picks from exactly that list).
/// Which character comes back depends on the generator's state.
#[verifier::external_body]
fn random_alphanumeric() -> (c: char)
    ensures
        is_ascii_alnum(c),
{
    fastrand::alphanumeric()
}

/// A random string that ends the output of one program.
#[derive(Debug, Clone)]
pub struct OutputTerminator(pub String);

impl OutputTerminator {
    /// Twenty random ASCII letters and digits.
    pub fn new() -> (res: OutputTerminator)
        ensures
            res.0@.len() == 20,
            forall|i: int| 0 <= i < 20 ==> is_ascii_alnum(#[trigger] res.0@[i]),
    {
        let mut s = String::new();
        let mut i: usize = 0;
        while i < 20
            invariant
                i <= 20,
                s@.len() == i,
                forall|j: int| 0 <= j < i ==> is_ascii_alnum(#[trigger] s@[j]),
            decreases 20 - i,
        {
            let c = random_alphanumeric();
            let ghost old = s@;
            string_push(&mut s, c);
            proof {
                assert forall|j: int| 0 <= j < i + 1 implies is_ascii_alnum(#[trigger] s@[j]) by {
                    if j < i {
                        assert(s@[j] == old[j]);
                    }
                }
            }
            i += 1;
        }
        OutputTerminator(s)
    }

    /// The terminator's text.
    pub fn as_str(&self) -> (res: &str)
        ensures
            res@ == self.0@,
    {
        self.0.as_str()
    }
}

} // verus!
