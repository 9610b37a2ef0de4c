//! The arguments that a pass has not read yet.

use vstd::prelude::*;

verus! {

/// A cursor over a list of arguments. It moves forward only, one element at a
/// time, and its view is what is left to read.
pub struct ArgCursor<'a> {
    args: &'a [String],
    pos: usize,
}

impl<'a> View for ArgCursor<'a> {
    type V = Seq<Seq<char>>;

    closed spec fn view(&self) -> Seq<Seq<char>> {
        self.args.deep_view().skip(self.pos as int)
    }
}

impl<'a> ArgCursor<'a> {
    #[verifier::type_invariant]
    spec fn in_bounds(&self) -> bool {
        self.pos <= self.args@.len()
    }

    /// A cursor in front of the first element of `args`.
    pub fn new(args: &'a [String]) -> (cursor: Self)
        ensures
            cursor@ == args.deep_view(),
    {
        ArgCursor { args, pos: 0 }
    }

    /// Reads the next element, if one is left.
    pub fn next(&mut self) -> (arg: Option<&'a String>)
        ensures
            match arg {
                Some(text) => old(self)@.len() > 0 && text@ == old(self)@[0] && final(self)@
                    == old(self)@.skip(1),
                None => old(self)@.len() == 0 && final(self)@ == old(self)@,
            },
    {
        proof {
            use_type_invariant(&*self);
        }
        if self.pos < self.args.len() {
            let text = &self.args[self.pos];
            self.pos = self.pos + 1;
            Some(text)
        } else {
            None
        }
    }
}

} // verus!
