use vstd::prelude::*;
use vstd::string::*;

use crate::text::{trim, trimmed};

verus! {

pub open spec fn heads_prefix() -> Seq<char> {
    seq!['r', 'e', 'f', 's', '/', 'h', 'e', 'a', 'd', 's', '/']
}

/// The branch that `git symbolic-ref HEAD` names in its output, or `None`
/// when HEAD is not a branch.
pub fn branch_from_symbolic_ref(output: &str) -> (r: Option<String>)
    ensures
        match r {
            Some(b) => output@.len() >= 11 && output@.subrange(0, 11) == heads_prefix() && b@
                == trim(output@.subrange(11, output@.len() as int)),
            None => !(output@.len() >= 11 && output@.subrange(0, 11) == heads_prefix()),
        },
{
    let n = output.unicode_len();
    if n < 11 {
        return None;
    }
    let prefix = output.substring_char(0, 11);
    let mut i: usize = 0;
    while i < 11
        invariant
            n == output@.len(),
            11 <= n,
            prefix@ == output@.subrange(0, 11),
            i <= 11,
            forall|j: int| 0 <= j < i ==> prefix@[j] == heads_prefix()[j],
        decreases 11 - i,
    {
        let want = if i < 4 {
            if i == 0 { 'r' } else if i == 1 { 'e' } else if i == 2 { 'f' } else { 's' }
        } else if i == 4 || i == 10 {
            '/'
        } else if i == 5 {
            'h'
        } else if i == 6 {
            'e'
        } else if i == 7 {
            'a'
        } else if i == 8 {
            'd'
        } else {
            's'
        };
        assert(want == heads_prefix()[i as int]);
        if prefix.get_char(i) != want {
            return None;
        }
        i = i + 1;
    }
    assert(prefix@ =~= heads_prefix());
    Some(trimmed(output.substring_char(11, n)))
}

} // verus!
