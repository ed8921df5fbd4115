use vstd::prelude::*;

verus! {

/// The delegate of a text field: the handlers bound to its edits, each named
/// by the number under which its owner keeps it, in the order of binding.
pub struct EventEmitter {
    callbacks: Vec<usize>,
}

impl View for EventEmitter {
    type V = Seq<usize>;

    closed spec fn view(&self) -> Seq<usize> {
        self.callbacks@
    }
}

impl EventEmitter {
    /// An emitter with no handlers.
    pub fn new() -> (e: Self)
        ensures
            e@ == Seq::<usize>::empty(),
    {
        EventEmitter { callbacks: Vec::new() }
    }

    /// How an emitter shows itself in debug output: its type name alone.
    pub fn debug_text(&self) -> (s: String)
        ensures
            s@ == "EventEmitter"@,
    {
        "EventEmitter".to_owned()
    }

    /// Binds one more handler; it runs after those bound before it.
    pub fn add_callback(&mut self, callback: usize)
        ensures
            final(self)@ == old(self)@.push(callback),
    {
        self.callbacks.push(callback);
    }

    /// The handlers to run, in this order, when the field's text changes:
    /// every bound handler, each once, in the order of binding.
    pub fn text_did_change(&self) -> (to_run: Vec<usize>)
        ensures
            to_run@ == self@,
    {
        let mut to_run: Vec<usize> = Vec::new();
        let mut i: usize = 0;
        while i < self.callbacks.len()
            invariant
                i <= self.callbacks@.len(),
                to_run@ == self.callbacks@.subrange(0, i as int),
            decreases self.callbacks@.len() - i,
        {
            to_run.push(self.callbacks[i]);
            i = i + 1;
        }
        assert(self.callbacks@.subrange(0, i as int) =~= self.callbacks@);
        to_run
    }
}

} // verus!
