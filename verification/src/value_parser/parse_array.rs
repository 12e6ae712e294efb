use super::parse_spec::result_is;
use super::{byte_is, holds, skip_space, sp, VParserRes, ValueRes};
use vstd::prelude::*;
use vstd::slice::*;
use vstd::string::*;

verus! {

/// Whether `f` holds the character `c` at some offset from `from` on.
pub open spec fn holds_from(f: Seq<u8>, from: int, c: char) -> bool {
    exists|k: int| from <= k && #[trigger] byte_is(f, k, c)
}

/// What the array parser returns on the fragment `f`: no text in either case;
/// an array whose bracket is closed somewhere counts as unfinished, one that
/// is never closed asks for the stack to be cut back.
pub open spec fn array_spec(f: Seq<u8>) -> Option<ValueRes> {
    let g = skip_space(f);
    if !byte_is(g, 0, '[') {
        None
    } else if holds_from(g, 1, ']') {
        Some(ValueRes { text: Seq::empty(), is_complete: false, stack_recover: false })
    } else {
        Some(ValueRes { text: Seq::empty(), is_complete: true, stack_recover: true })
    }
}

/// Looks at an array at the start of `s`, behind white space.
#[verifier::loop_isolation(false)]
pub fn parse_array(s: &str) -> (r: Result<VParserRes, ()>)
    ensures
        result_is(r, array_spec(s.spec_bytes())),
{
    let (s, _) = sp(s);
    let bytes = s.as_bytes();
    let n = bytes.len();
    proof {
        reveal_strlit("");
        assert("".spec_bytes() =~= Seq::<u8>::empty());
    }
    if !holds(bytes, 0, '[') {
        return Err(());
    }
    let mut k: usize = 1;
    while k < n
        invariant
            1 <= k <= n,
            n == bytes@.len(),
            forall|j: int| 1 <= j < k ==> !byte_is(bytes@, j, ']'),
        decreases n - k,
    {
        if holds(bytes, k, ']') {
            return Ok(VParserRes::new("", false));
        }
        k += 1;
    }
    Ok(VParserRes::new("", true).set_stack_recover(true))
}

} // verus!
