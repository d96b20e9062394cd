//! Decoding under a limit on the memory it allocates.
use crate::codec::{decodes_to, mem_alignment, Decode, Encode};
use crate::error::Error;
use crate::io::Input;
use vstd::prelude::*;

verus! {

/// The description of the error for an allocation past the memory limit.
pub const MEM_LIMIT_ERR_MSG: &'static str = "Out of memory when decoding";

/// Alignment of some amount of memory.
///
/// Normally the word `alignment` is used in the context of a pointer - not an amount of memory,
/// but this is still the most fitting name.
#[derive(PartialEq, Eq, Clone, Copy, Debug)]
pub enum MemAlignment {
    /// Round up to the next power of two.
    NextPowerOfTwo,
}

/// The least power of two that is at least `n`, counting up from the power of two `p`.
pub open spec fn power_of_two_from(p: nat, n: nat) -> nat
    decreases n - p,
    when p >= 1
{
    if p >= n {
        p
    } else if 2 * p >= n {
        2 * p
    } else {
        power_of_two_from(2 * p, n)
    }
}

/// The least power of two that is at least `n` (`1` for `0`).
pub open spec fn next_power_of_two(n: nat) -> nat {
    power_of_two_from(1, n)
}

/// The amount that `size` takes once aligned by `align`: the next power of two where that fits
/// in a `usize`, else `size` itself.
pub open spec fn aligned_size(align: Option<MemAlignment>, size: usize) -> nat {
    match align {
        Some(MemAlignment::NextPowerOfTwo) => if size <= usize::MAX / 2 + 1 {
            next_power_of_two(size as nat)
        } else {
            size as nat
        },
        None => size as nat,
    }
}

impl MemAlignment {
    fn align(&self, size: usize) -> (r: usize)
        ensures
            r == aligned_size(Some(*self), size),
    {
        match self {
            MemAlignment::NextPowerOfTwo => {
                let mut p: usize = 1;
                while p < size
                    invariant
                        p >= 1,
                        power_of_two_from(p as nat, size as nat) == next_power_of_two(size as nat),
                    decreases usize::MAX - p,
                {
                    if p > usize::MAX / 2 {
                        return size;
                    }
                    p = p * 2;
                }
                if size > usize::MAX / 2 + 1 {
                    return size;
                }
                p
            },
        }
    }
}

/// A limit on allocated memory.
pub struct MemLimit {
    /// The remaining memory limit.
    limit: usize,
    /// Memory alignment to be applied before allocating memory.
    align: Option<MemAlignment>,
}

impl MemLimit {
    /// The memory that may still be allocated.
    pub closed spec fn spec_limit(&self) -> usize {
        self.limit
    }

    /// The alignment applied to each allocation.
    pub closed spec fn spec_align(&self) -> Option<MemAlignment> {
        self.align
    }

    /// Try to allocate a contiguous chunk of memory.
    pub fn try_alloc(&mut self, size: usize) -> (r: Result<(), Error>)
        ensures
            final(self).spec_align() == old(self).spec_align(),
            r is Ok <==> aligned_size(old(self).spec_align(), size) <= old(self).spec_limit(),
            r is Ok ==> final(self).spec_limit() == old(self).spec_limit() - aligned_size(
                old(self).spec_align(),
                size,
            ),
            r is Err ==> final(self).spec_limit() == old(self).spec_limit(),
            r matches Err(e) ==> e.description() == MEM_LIMIT_ERR_MSG@,
    {
        let size = match &self.align {
            Some(a) => a.align(size),
            None => size,
        };
        match self.limit.checked_sub(size) {
            Some(remaining) => {
                self.limit = remaining;
                Ok(())
            },
            None => Err(Error::new(MEM_LIMIT_ERR_MSG)),
        }
    }

    /// Maximal possible limit.
    pub fn max() -> (m: Self)
        ensures
            m.spec_limit() == usize::MAX,
            m.spec_align() == None::<MemAlignment>,
    {
        MemLimit { limit: usize::MAX, align: None }
    }
}

impl From<usize> for MemLimit {
    fn from(limit: usize) -> (m: MemLimit)
        ensures
            m.spec_limit() == limit,
            m.spec_align() == None::<MemAlignment>,
    {
        MemLimit { limit, align: None }
    }
}

impl vstd::std_specs::convert::FromSpecImpl<usize> for MemLimit {
    open spec fn obeys_from_spec() -> bool {
        true
    }

    closed spec fn from_spec(v: usize) -> MemLimit {
        MemLimit { limit: v, align: None }
    }
}

/// A limit made from a number by `From` (or `into`) allows that much memory, with no alignment.
pub broadcast proof fn lemma_mem_limit_from(v: usize)
    ensures
        #[trigger] <MemLimit as vstd::std_specs::convert::FromSpec<usize>>::from_spec(v).spec_limit()
            == v,
        <MemLimit as vstd::std_specs::convert::FromSpec<usize>>::from_spec(v).spec_align() == None::<
            MemAlignment,
        >,
{
}

/// An input that additionally tracks memory usage.
pub struct MemTrackingInput<'a, I> {
    /// The actual input.
    pub inner: &'a mut I,
    /// The remaining memory limit.
    pub limit: MemLimit,
}

impl<'a, I: Input> Input for MemTrackingInput<'a, I> {
    open spec fn unread(&self) -> Seq<u8> {
        (*self.inner).unread()
    }

    /// Allocation may be refused once the limit is spent.
    open spec fn hooks_succeed(&self) -> bool {
        false
    }

    open spec fn knows_len(&self) -> bool {
        (*self.inner).knows_len()
    }

    open spec fn short_read_error(&self) -> Option<Seq<char>> {
        (*self.inner).short_read_error()
    }

    /// Over an input whose hooks always succeed, only allocations are refused.
    open spec fn mem_budget(&self) -> Option<(nat, Option<MemAlignment>)> {
        if (*self.inner).hooks_succeed() {
            Some((self.limit.spec_limit() as nat, self.limit.spec_align()))
        } else {
            None
        }
    }

    fn remaining_len(&mut self) -> (r: Result<Option<usize>, Error>)
        ensures
            final(self).limit == old(self).limit,
    {
        self.inner.remaining_len()
    }

    fn read(&mut self, into: &mut [u8]) -> (r: Result<(), Error>)
        ensures
            final(self).limit == old(self).limit,
    {
        self.inner.read(into)
    }

    fn read_byte(&mut self) -> (r: Result<u8, Error>)
        ensures
            final(self).limit == old(self).limit,
    {
        self.inner.read_byte()
    }

    fn descend_ref(&mut self) -> (r: Result<(), Error>)
        ensures
            final(self).limit == old(self).limit,
            (*old(self).inner).hooks_succeed() ==> r is Ok,
    {
        self.inner.descend_ref()
    }

    fn ascend_ref(&mut self)
        ensures
            final(self).limit == old(self).limit,
    {
        self.inner.ascend_ref()
    }

    fn try_alloc(&mut self, size: usize) -> (r: Result<(), Error>)
        ensures
            r is Ok <==> aligned_size(old(self).limit.spec_align(), size) <= old(
                self,
            ).limit.spec_limit(),
            r is Ok ==> final(self).limit.spec_limit() == old(self).limit.spec_limit()
                - aligned_size(old(self).limit.spec_align(), size),
            r is Err ==> final(self).limit.spec_limit() == old(self).limit.spec_limit(),
            final(self).limit.spec_align() == old(self).limit.spec_align(),
    {
        self.limit.try_alloc(size)
    }
}

/// Extension trait to [`Decode`] for decoding with a maximum memory consumption.
pub trait DecodeMemLimit: Decode + Sized {
    /// Decode `Self` from `input`, allocating at most `limit` while doing so.
    ///
    /// On an input whose hooks always succeed, a value that parses decodes exactly when the
    /// memory it asks for, each request aligned as `limit` says, is at most `limit`, and is
    /// otherwise refused with `MEM_LIMIT_ERR_MSG`.
    fn decode_with_mem_limit<I: Input>(limit: MemLimit, input: &mut I) -> (r: Result<Self, Error>)
        ensures
            Self::spec_parse(old(input).unread()) is Some ==> (r matches Ok(v) ==> Self::spec_parse(
                old(input).unread(),
            ) == Some(v.spec_encode().len())),
            Self::spec_parse(old(input).unread()) is Some ==> (r matches Ok(v) ==> v.encodable()
                && v.spec_encode().len() <= old(input).unread().len() && old(input).unread().take(
                v.spec_encode().len() as int,
            ) == v.spec_encode()),
            old(input).hooks_succeed() && Self::spec_parse(old(input).unread()) is Some
                && Self::spec_mem(old(input).unread(), limit.spec_align()) <= limit.spec_limit()
                ==> r is Ok,
            old(input).hooks_succeed() && Self::spec_parse(old(input).unread()) is Some
                && Self::spec_mem(old(input).unread(), limit.spec_align()) > limit.spec_limit()
                ==> (r matches Err(e) && e.description() == MEM_LIMIT_ERR_MSG@),
            old(input).hooks_succeed() && Self::spec_parse(old(input).unread()) is Some ==> (
            r matches Err(e) ==> e.description() == MEM_LIMIT_ERR_MSG@ && Self::spec_mem(
                old(input).unread(),
                limit.spec_align(),
            ) > limit.spec_limit()),
    ;
}

impl<T: Decode> DecodeMemLimit for T {
    fn decode_with_mem_limit<I: Input>(limit: MemLimit, input: &mut I) -> (r: Result<Self, Error>) {
        let mut tracking = MemTrackingInput { inner: input, limit };
        assert(old(input).hooks_succeed() ==> mem_alignment(tracking) == limit.spec_align());
        let r = T::decode(&mut tracking);
        r
    }
}

} // verus!
