//! Counting the values in a run of tokens.

use crate::resp::constant::RESP_DEL_BULK_STR;
use crate::text::{begins_with, starts_with, texts};
use vstd::prelude::*;

verus! {

/// A way of counting values of one kind among tokens.
pub trait TokenCounter {
    /// The number of values of the kind among the tokens.
    spec fn counted(tokens: Seq<Seq<char>>) -> nat;

    /// Counts them. A count that 32 bits cannot hold is given as the
    /// largest number they can.
    fn count(tokens: Vec<String>) -> (n: u32)
        ensures
            n == if Self::counted(texts(tokens@)) <= u32::MAX {
                Self::counted(texts(tokens@))
            } else {
                u32::MAX as nat
            },
    ;
}

/// Counts bulk strings.
pub struct BulkStringTokenCounter;

/// The number of bulk strings among the tokens: each token that starts
/// with `$` opens one, and the token behind it is its payload, whatever it
/// starts with.
pub open spec fn bulk_count(tokens: Seq<Seq<char>>) -> nat
    decreases tokens.len(),
{
    if tokens.len() == 0 {
        0
    } else if starts_with(tokens[0], '$') {
        if tokens.len() >= 2 {
            1 + bulk_count(tokens.skip(2))
        } else {
            1
        }
    } else {
        bulk_count(tokens.skip(1))
    }
}

impl TokenCounter for BulkStringTokenCounter {
    open spec fn counted(tokens: Seq<Seq<char>>) -> nat {
        bulk_count(tokens)
    }

    fn count(tokens: Vec<String>) -> (n: u32) {
        let mut count: u32 = 0;
        let ghost all = texts(tokens@);
        let ghost mut seen: nat = 0;
        let mut i: usize = 0;
        proof {
            assert(all.skip(0) =~= all);
        }
        while i < tokens.len()
            invariant
                i <= tokens.len(),
                all == texts(tokens@),
                bulk_count(all) == seen + bulk_count(all.skip(i as int)),
                count == if seen <= u32::MAX {
                    seen
                } else {
                    u32::MAX as nat
                },
            decreases tokens.len() - i,
        {
            let ghost rest = all.skip(i as int);
            assert(rest[0] == tokens@[i as int]@);
            if begins_with(tokens[i].as_str(), RESP_DEL_BULK_STR) {
                if count < u32::MAX {
                    count += 1;
                }
                proof {
                    seen = seen + 1;
                }
                if tokens.len() - i >= 2 {
                    assert(rest.skip(2) =~= all.skip(i + 2));
                    i += 2;
                } else {
                    assert(all.skip(i + 1) =~= Seq::<Seq<char>>::empty());
                    i += 1;
                }
            } else {
                assert(rest.skip(1) =~= all.skip(i + 1));
                i += 1;
            }
        }
        count
    }
}

} // verus!
