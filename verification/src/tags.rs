use vstd::prelude::*;
use vstd::string::*;
use crate::text::to_char_vec;

verus! {

/// The failure of reading one command-line tag token.
#[derive(Debug)]
pub struct TagParseError {
    pub details: String,
}

impl TagParseError {
    /// An error carrying the given description.
    pub fn new(details: &str) -> (r: Self)
        ensures
            r.details@ == details@,
    {
        Self { details: details.to_owned() }
    }

    /// The description, for the caller's error stream.
    pub fn message(&self) -> (r: &str)
        ensures
            r@ == self.details@,
    {
        self.details.as_str()
    }
}

/// Reads one command-line tag token: `+label` yields `label`, anything
/// else is rejected.
pub fn parse_tags(arg: &str) -> (r: Result<String, TagParseError>)
    ensures
        match r {
            Ok(t) => arg@.len() > 0 && arg@[0] == '+' && t@ == arg@.skip(1),
            Err(e) => !(arg@.len() > 0 && arg@[0] == '+') && e.details@
                == "Tag must start with '+'"@,
        },
{
    let v = to_char_vec(arg);
    if v.len() > 0 && v[0] == '+' {
        let mut t = String::new();
        let mut i: usize = 1;
        proof {
            assert(t@ =~= v@.subrange(1, 1));
        }
        while i < v.len()
            invariant
                1 <= i <= v@.len(),
                v@ == arg@,
                t@ == v@.subrange(1, i as int),
            decreases v@.len() - i,
        {
            t.push(v[i]);
            proof {
                assert(t@ =~= v@.subrange(1, i + 1 as int));
            }
            i = i + 1;
        }
        proof {
            assert(t@ =~= arg@.skip(1));
        }
        Ok(t)
    } else {
        Err(TagParseError::new("Tag must start with '+'"))
    }
}

} // verus!
