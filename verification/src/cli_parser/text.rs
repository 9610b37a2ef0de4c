//! Questions about text that the tokenizer asks, answered over characters.

use crate::cli_parser::syntax::{
    first_equals, is_first_equals, lemma_first_equals_absent, lemma_first_equals_found,
};
use vstd::prelude::*;
use vstd::string::StringSliceAdditionalSpecFns;
use vstd::utf8::encode_utf8_decode_utf8;

verus! {

/// Whether two string slices hold the same characters.
///
/// The bytes are compared: the encoding can be read back, so equal bytes mean
/// equal characters.
pub fn str_eq(a: &str, b: &str) -> (same: bool)
    ensures
        same == (a@ == b@),
{
    let x = a.as_bytes();
    let y = b.as_bytes();
    proof {
        encode_utf8_decode_utf8(a@);
        encode_utf8_decode_utf8(b@);
    }
    if x.len() != y.len() {
        return false;
    }
    let n: usize = x.len();
    let mut i: usize = 0;
    while i < n
        invariant
            i <= n,
            n == x@.len(),
            n == y@.len(),
            forall|k: int| 0 <= k < i ==> x@[k] == y@[k],
            x@ == a.spec_bytes(),
            y@ == b.spec_bytes(),
        decreases n - i,
    {
        if x[i] != y[i] {
            return false;
        }
        i = i + 1;
    }
    assert(x@ =~= y@);
    true
}

/// Finds the first `=` in `text` and gives its position, counted in characters.
pub fn find_equals(text: &str) -> (found: Option<usize>)
    ensures
        match found {
            Some(i) => first_equals(text@) == Some(i as int),
            None => first_equals(text@) is None,
        },
{
    let n: usize = text.unicode_len();
    let mut i: usize = 0;
    for c in it: text.chars()
        invariant
            it.seq() == text@,
            i == it.index(),
            n == text@.len(),
            forall|j: int| 0 <= j < i ==> #[trigger] text@[j] != '=',
    {
        if c == '=' {
            proof {
                assert(is_first_equals(text@, i as int));
                lemma_first_equals_found(text@, i as int);
            }
            return Some(i);
        }
        i = i + 1;
    }
    proof {
        lemma_first_equals_absent(text@);
    }
    None
}

} // verus!
