//! Messages that programs send.
use vstd::prelude::*;

verus! {

/// A message, which can be written to a log.
pub trait Message {
    /// The message as it stands in the log: nothing, unless an implementation says otherwise.
    open spec fn json(&self) -> Seq<u8> {
        Seq::empty()
    }

    /// Appends the message as it stands in the log.
    fn write_json(&self, dst: &mut Vec<u8>)
        ensures
            final(dst)@ == old(dst)@ + self.json(),
    ;
}

} // verus!
