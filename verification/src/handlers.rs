use vstd::prelude::*;

verus! {

/// A callback for inbound message text, implemented by users of the
/// library; the surrounding application invokes every registered handler
/// for each message the fixed peer sends back.
pub trait MessageHandler {
    fn handle(&self, message: &str);
}

} // verus!
