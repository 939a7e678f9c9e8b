use vstd::prelude::*;

verus! {

/// Local-mode flags for raw input: the given flags with every bit of
/// `cleared` switched off (canonical mode and echo, in practice).
pub fn raw_local_flags(lflag: u32, cleared: u32) -> (r: u32)
    ensures
        r == lflag & !cleared,
{
    lflag & !cleared
}

} // verus!
