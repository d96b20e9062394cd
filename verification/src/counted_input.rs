//! An input that counts the bytes read through it.
use crate::error::Error;
use crate::io::Input;
use crate::memory_limit::MemAlignment;
use vstd::prelude::*;

verus! {

/// The value of a counter that has a maximum.
#[derive(Eq, PartialEq, Clone, Debug)]
pub enum Count {
    /// The counter has an exact value.
    Exact(u32),
    /// The counter has reached its maximum countable value.
    MaxCountReached,
}

/// `a + b`, or `u32::MAX` where that does not fit.
pub open spec fn saturating_add_u32(a: nat, b: nat) -> u32 {
    if a + b <= u32::MAX {
        (a + b) as u32
    } else {
        u32::MAX
    }
}

/// A wrapper for `Input` which tracks the number of bytes that are successfully read.
///
/// If inner `Input` fails to read, the counter is not incremented.
///
/// It can count until `u32::MAX - 1` accurately.
pub struct CountedInput<'a, I: Input> {
    input: &'a mut I,
    counter: u32,
    read_so_far: Ghost<Seq<u8>>,
}

impl<'a, I: Input> CountedInput<'a, I> {
    /// The number of bytes read so far, saturated at `u32::MAX`.
    pub closed spec fn spec_counter(&self) -> u32 {
        self.counter
    }

    /// The input that is read through this one.
    pub closed spec fn spec_inner(&self) -> I {
        *self.input
    }

    /// The bytes read successfully through this input so far, in order.
    pub closed spec fn spec_read(&self) -> Seq<u8> {
        self.read_so_far@
    }

    /// The counter holds the number of bytes read so far, saturated at `u32::MAX`.
    pub closed spec fn wf(&self) -> bool {
        self.counter == saturating_add_u32(0, self.read_so_far@.len())
    }

    /// Create a new `CountedInput` with the given input.
    pub fn new(input: &'a mut I) -> (c: Self)
        ensures
            c.spec_counter() == 0,
            c.spec_inner() == *old(input),
            c.unread() == old(input).unread(),
            c.knows_len() == old(input).knows_len(),
            c.hooks_succeed() == old(input).hooks_succeed(),
            c.spec_read() == Seq::<u8>::empty(),
            c.wf(),
    {
        CountedInput { input, counter: 0, read_so_far: Ghost(Seq::empty()) }
    }

    /// Get the number of bytes successfully read.
    /// Count until `u32::MAX - 1` accurately.
    ///
    /// Whatever was done with the input since it was made, this is the number of all the bytes
    /// read through it.
    pub fn count(&self) -> (c: Count)
        ensures
            c == if self.spec_counter() == u32::MAX {
                Count::MaxCountReached
            } else {
                Count::Exact(self.spec_counter())
            },
            self.wf() ==> c == if self.spec_read().len() >= u32::MAX {
                Count::MaxCountReached
            } else {
                Count::Exact(self.spec_read().len() as u32)
            },
    {
        if self.counter == u32::MAX {
            Count::MaxCountReached
        } else {
            Count::Exact(self.counter)
        }
    }
}

/// The number of bytes in all of `reads` together.
pub open spec fn total_len(reads: Seq<Seq<u8>>) -> nat
    decreases reads.len(),
{
    if reads.len() == 0 {
        0
    } else {
        total_len(reads.drop_last()) + reads.last().len()
    }
}

/// Whatever sequence of operations a counted input goes through after it is made, its counter
/// is the total number of bytes that they read, saturated at `u32::MAX`.
///
/// `states[0]` is the input as made, `states[i + 1]` the input after the operation that read
/// `reads[i]` (empty where it read nothing or failed), as the operations' contracts state.
pub proof fn lemma_counter_sums_reads<'a, I: Input>(
    states: Seq<CountedInput<'a, I>>,
    reads: Seq<Seq<u8>>,
)
    requires
        states.len() == reads.len() + 1,
        states[0].spec_read() == Seq::<u8>::empty(),
        forall|i: int| 0 <= i < states.len() ==> #[trigger] states[i].wf(),
        forall|i: int|
            0 <= i < reads.len() ==> #[trigger] states[i + 1].spec_read() == states[i].spec_read()
                + reads[i],
    ensures
        states.last().spec_counter() == saturating_add_u32(0, total_len(reads)),
{
    lemma_read_len_sums(states, reads);
    let last = states.len() - 1;
    assert(states[last].wf());
    assert(states.last() == states[last]);
}

/// The bytes read up to the last state are all of `reads` together.
proof fn lemma_read_len_sums<'a, I: Input>(states: Seq<CountedInput<'a, I>>, reads: Seq<Seq<u8>>)
    requires
        states.len() == reads.len() + 1,
        states[0].spec_read() == Seq::<u8>::empty(),
        forall|i: int|
            0 <= i < reads.len() ==> #[trigger] states[i + 1].spec_read() == states[i].spec_read()
                + reads[i],
    ensures
        states.last().spec_read().len() == total_len(reads),
    decreases reads.len(),
{
    if reads.len() > 0 {
        let k = reads.len() - 1;
        assert(states[k + 1].spec_read() == states[k].spec_read() + reads[k]);
        lemma_read_len_sums(states.drop_last(), reads.drop_last());
        assert(states.drop_last().last() == states[k]);
    }
}

impl<'a, I: Input> Input for CountedInput<'a, I> {
    open spec fn unread(&self) -> Seq<u8> {
        self.spec_inner().unread()
    }

    open spec fn hooks_succeed(&self) -> bool {
        self.spec_inner().hooks_succeed()
    }

    open spec fn knows_len(&self) -> bool {
        self.spec_inner().knows_len()
    }

    open spec fn short_read_error(&self) -> Option<Seq<char>> {
        self.spec_inner().short_read_error()
    }

    open spec fn depth_count(&self) -> Option<(nat, nat)> {
        self.spec_inner().depth_count()
    }

    open spec fn mem_budget(&self) -> Option<(nat, Option<MemAlignment>)> {
        self.spec_inner().mem_budget()
    }

    fn remaining_len(&mut self) -> (r: Result<Option<usize>, Error>)
        ensures
            final(self).spec_counter() == old(self).spec_counter(),
            final(self).spec_read() == old(self).spec_read(),
            old(self).wf() ==> final(self).wf(),
    {
        self.input.remaining_len()
    }

    fn read(&mut self, into: &mut [u8]) -> (r: Result<(), Error>)
        ensures
            final(self).spec_counter() == if r is Ok {
                saturating_add_u32(old(self).spec_counter() as nat, old(into)@.len())
            } else {
                old(self).spec_counter()
            },
            final(self).spec_read() == if r is Ok {
                old(self).spec_read() + old(self).unread().take(old(into)@.len() as int)
            } else {
                old(self).spec_read()
            },
            old(self).wf() ==> final(self).wf(),
    {
        let len = into.len();
        let ghost before = self.input.unread();
        let r = self.input.read(into);
        if r.is_ok() {
            proof {
                self.read_so_far = Ghost(self.read_so_far@ + before.take(len as int));
            }
            let n: u32 = if len > u32::MAX as usize {
                u32::MAX
            } else {
                len as u32
            };
            self.counter = self.counter.saturating_add(n);
        }
        r
    }

    fn read_byte(&mut self) -> (r: Result<u8, Error>)
        ensures
            final(self).spec_counter() == if r is Ok {
                saturating_add_u32(old(self).spec_counter() as nat, 1)
            } else {
                old(self).spec_counter()
            },
            final(self).spec_read() == if r is Ok {
                old(self).spec_read() + old(self).unread().take(1)
            } else {
                old(self).spec_read()
            },
            old(self).wf() ==> final(self).wf(),
    {
        let ghost before = self.input.unread();
        let r = self.input.read_byte();
        if r.is_ok() {
            proof {
                self.read_so_far = Ghost(self.read_so_far@ + before.take(1));
            }
            self.counter = self.counter.saturating_add(1);
        }
        r
    }

    fn descend_ref(&mut self) -> (r: Result<(), Error>)
        ensures
            final(self).spec_counter() == old(self).spec_counter(),
            final(self).spec_read() == old(self).spec_read(),
            old(self).wf() ==> final(self).wf(),
    {
        self.input.descend_ref()
    }

    fn ascend_ref(&mut self)
        ensures
            final(self).spec_counter() == old(self).spec_counter(),
            final(self).spec_read() == old(self).spec_read(),
            old(self).wf() ==> final(self).wf(),
    {
        self.input.ascend_ref()
    }

    fn try_alloc(&mut self, size: usize) -> (r: Result<(), Error>)
        ensures
            final(self).spec_counter() == old(self).spec_counter(),
            final(self).spec_read() == old(self).spec_read(),
            old(self).wf() ==> final(self).wf(),
    {
        self.input.try_alloc(size)
    }
}

} // verus!
