//! A stream of code pairs with room to put one back.
use vstd::prelude::*;

use crate::value::CodePair;

verus! {

/// Code pairs in reading order; a pair taken may be put back.
pub struct CodePairStream {
    stack: Vec<CodePair>,
}

/// The pairs still to come from a stack whose next pair is its last.
pub open spec fn pending_pairs(stack: Seq<CodePair>) -> Seq<CodePair> {
    Seq::new(stack.len(), |i: int| stack[stack.len() - 1 - i])
}

impl View for CodePairStream {
    type V = Seq<CodePair>;

    closed spec fn view(&self) -> Seq<CodePair> {
        pending_pairs(self.stack@)
    }
}

impl CodePairStream {
    /// A stream over the given pairs, in order.
    pub fn new(pairs: Vec<CodePair>) -> (r: CodePairStream)
        ensures
            r@ == pairs@,
    {
        let ghost orig = pairs@;
        let mut v = pairs;
        let mut stack: Vec<CodePair> = Vec::new();
        assert(orig.skip(orig.len() as int) =~= pending_pairs(stack@));
        while v.len() > 0
            invariant
                v@ == orig.take(v.len() as int),
                v.len() <= orig.len(),
                pending_pairs(stack@) == orig.skip(v.len() as int),
            decreases v.len(),
        {
            let ghost old_pending = pending_pairs(stack@);
            let p = v.pop().unwrap();
            let ghost n = v.len();
            assert(p == orig[n as int]);
            stack.push(p);
            assert(pending_pairs(stack@) =~= seq![p] + old_pending);
            assert(v@ =~= orig.take(n as int));
            assert(pending_pairs(stack@) =~= orig.skip(n as int));
        }
        assert(orig.skip(0) == orig);
        CodePairStream { stack }
    }

    /// Takes the next pair.
    pub fn next(&mut self) -> (r: Option<CodePair>)
        ensures
            old(self)@.len() == 0 ==> r is None && final(self)@ == old(self)@,
            old(self)@.len() > 0 ==> r == Some(old(self)@[0]) && final(self)@ == old(self)@.skip(1),
    {
        let ghost before = self@;
        let r = self.stack.pop();
        proof {
            if before.len() > 0 {
                assert(self@ =~= before.skip(1));
            }
        }
        r
    }

    /// Puts a pair back in front of the stream.
    pub fn put_back(&mut self, p: CodePair)
        ensures
            final(self)@ == seq![p] + old(self)@,
    {
        let ghost before = self@;
        self.stack.push(p);
        assert(self@ =~= seq![p] + before);
    }

    /// Whether no pair is left.
    pub fn is_empty(&self) -> (r: bool)
        ensures
            r == (self@.len() == 0),
    {
        self.stack.len() == 0
    }
}

} // verus!
