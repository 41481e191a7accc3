use vstd::prelude::*;

verus! {

/// The change notifier: the queue of accessory handles whose state changed and
/// whose controllers are still to be told.
pub struct Notifier {
    queue: Vec<usize>,
}

impl View for Notifier {
    type V = Seq<usize>;

    closed spec fn view(&self) -> Seq<usize> {
        self.queue@
    }
}

impl Notifier {
    pub fn new() -> (n: Notifier)
        ensures
            n@ == Seq::<usize>::empty(),
    {
        Notifier { queue: Vec::new() }
    }

    /// Records that the accessory behind `handle` changed.
    pub fn notify(&mut self, handle: usize)
        ensures
            final(self)@ == old(self)@.push(handle),
    {
        self.queue.push(handle);
    }

    /// Hands out the pending notifications, oldest first, and empties the queue.
    pub fn drain(&mut self) -> (r: Vec<usize>)
        ensures
            r@ == old(self)@,
            final(self)@ == Seq::<usize>::empty(),
    {
        let r = self.queue.split_off(0);
        assert(self.queue@ =~= Seq::<usize>::empty());
        assert(r@ =~= old(self)@);
        r
    }
}

} // verus!
