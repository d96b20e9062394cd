//! Decoding with a limit on how deeply nested the decoded value may be.
use crate::codec::Decode;
use crate::decode_all::DECODE_ALL_ERR_MSG;
use crate::error::Error;
use crate::io::Input;
use crate::memory_limit::MemAlignment;
use vstd::prelude::*;

verus! {

/// The description of the error for a value nested more deeply than the limit allows.
pub const DEPTH_LIMIT_ERR_MSG: &'static str = "Maximum recursion depth reached when decoding";

/// An input that counts how deeply the value being decoded is nested, and refuses to descend
/// past `max_depth`.
pub struct DepthTrackingInput<I> {
    /// The actual input.
    pub input: I,
    /// How deeply the decoding is nested now.
    pub depth: u32,
    /// The deepest nesting allowed.
    pub max_depth: u32,
}

impl<I: Input> Input for DepthTrackingInput<I> {
    open spec fn unread(&self) -> Seq<u8> {
        self.input.unread()
    }

    /// Descending may be refused once the limit is reached.
    open spec fn hooks_succeed(&self) -> bool {
        false
    }

    open spec fn knows_len(&self) -> bool {
        self.input.knows_len()
    }

    open spec fn short_read_error(&self) -> Option<Seq<char>> {
        self.input.short_read_error()
    }

    /// Over an input whose hooks always succeed, only descending is refused.
    open spec fn depth_count(&self) -> Option<(nat, nat)> {
        if self.input.hooks_succeed() {
            Some((self.depth as nat, self.max_depth as nat))
        } else {
            None
        }
    }

    fn remaining_len(&mut self) -> (r: Result<Option<usize>, Error>)
        ensures
            final(self).depth == old(self).depth,
            final(self).max_depth == old(self).max_depth,
            old(self).input.hooks_succeed() ==> r is Ok,
    {
        self.input.remaining_len()
    }

    fn read(&mut self, into: &mut [u8]) -> (r: Result<(), Error>)
        ensures
            final(self).depth == old(self).depth,
            final(self).max_depth == old(self).max_depth,
    {
        self.input.read(into)
    }

    fn read_byte(&mut self) -> (r: Result<u8, Error>)
        ensures
            final(self).depth == old(self).depth,
            final(self).max_depth == old(self).max_depth,
    {
        self.input.read_byte()
    }

    /// The inner input is descended into first; then one more level is counted, and refused
    /// where the maximum is reached.
    fn descend_ref(&mut self) -> (r: Result<(), Error>)
        ensures
            final(self).max_depth == old(self).max_depth,
            r is Ok ==> old(self).depth < old(self).max_depth && final(self).depth == old(
                self,
            ).depth + 1,
            r is Err ==> final(self).depth == old(self).depth || final(self).depth == old(
                self,
            ).depth + 1,
            old(self).depth >= old(self).max_depth ==> r is Err,
            old(self).depth < old(self).max_depth && old(self).input.hooks_succeed() ==> r is Ok,
    {
        self.input.descend_ref()?;
        if self.depth >= self.max_depth {
            self.depth = self.depth.saturating_add(1);
            return Err(Error::new(DEPTH_LIMIT_ERR_MSG));
        }
        self.depth = self.depth + 1;
        Ok(())
    }

    fn ascend_ref(&mut self)
        ensures
            final(self).max_depth == old(self).max_depth,
            final(self).depth == if old(self).depth > 0 {
                old(self).depth - 1
            } else {
                0
            },
    {
        self.input.ascend_ref();
        if self.depth > 0 {
            self.depth = self.depth - 1;
        }
    }

    fn try_alloc(&mut self, size: usize) -> (r: Result<(), Error>)
        ensures
            final(self).depth == old(self).depth,
            final(self).max_depth == old(self).max_depth,
            old(self).input.hooks_succeed() ==> r is Ok,
    {
        self.input.try_alloc(size)
    }
}

/// An input borrowed for the time of one decoding.
struct BorrowedInput<'a, I>(&'a mut I);

impl<'a, I: Input> Input for BorrowedInput<'a, I> {
    closed spec fn unread(&self) -> Seq<u8> {
        (*self.0).unread()
    }

    closed spec fn hooks_succeed(&self) -> bool {
        (*self.0).hooks_succeed()
    }

    closed spec fn knows_len(&self) -> bool {
        (*self.0).knows_len()
    }

    closed spec fn short_read_error(&self) -> Option<Seq<char>> {
        (*self.0).short_read_error()
    }

    closed spec fn depth_count(&self) -> Option<(nat, nat)> {
        (*self.0).depth_count()
    }

    closed spec fn mem_budget(&self) -> Option<(nat, Option<MemAlignment>)> {
        (*self.0).mem_budget()
    }

    fn remaining_len(&mut self) -> (r: Result<Option<usize>, Error>) {
        self.0.remaining_len()
    }

    fn read(&mut self, into: &mut [u8]) -> (r: Result<(), Error>) {
        self.0.read(into)
    }

    fn read_byte(&mut self) -> (r: Result<u8, Error>) {
        self.0.read_byte()
    }

    fn descend_ref(&mut self) -> (r: Result<(), Error>) {
        self.0.descend_ref()
    }

    fn ascend_ref(&mut self) {
        self.0.ascend_ref()
    }

    fn try_alloc(&mut self, size: usize) -> (r: Result<(), Error>) {
        self.0.try_alloc(size)
    }
}

/// Extension trait to [`Decode`] for decoding with a maximum recursion depth.
pub trait DecodeLimit: Sized {
    /// The length of the encoding of a value at the front of `bytes`, if `bytes` starts with one.
    spec fn spec_limit_parse(bytes: Seq<u8>) -> Option<nat>;

    /// The encoding of `v`.
    spec fn spec_limit_encode(v: Self) -> Seq<u8>;

    /// How deeply the value at the front of `bytes` nests.
    spec fn spec_limit_depth(bytes: Seq<u8>) -> nat;

    /// Decode `Self` with the given maximum recursion depth.
    ///
    /// Nesting deeper than `limit` is refused with an error. On an input whose hooks always
    /// succeed, a value that parses decodes exactly when it nests at most `limit` deep, and is
    /// otherwise refused with `DEPTH_LIMIT_ERR_MSG`.
    fn decode_with_depth_limit<I: Input>(limit: u32, input: &mut I) -> (r: Result<Self, Error>)
        ensures
            Self::spec_limit_parse(old(input).unread()) is Some ==> (r matches Ok(v)
                ==> Self::spec_limit_parse(old(input).unread()) == Some(
                Self::spec_limit_encode(v).len(),
            ) && old(input).unread().take(Self::spec_limit_encode(v).len() as int)
                == Self::spec_limit_encode(v)),
            old(input).hooks_succeed() && Self::spec_limit_parse(old(input).unread()) is Some
                && Self::spec_limit_depth(old(input).unread()) <= limit ==> r is Ok,
            old(input).hooks_succeed() && Self::spec_limit_parse(old(input).unread()) is Some
                && Self::spec_limit_depth(old(input).unread()) > limit ==> (r matches Err(e)
                && e.description() == DEPTH_LIMIT_ERR_MSG@),
            old(input).hooks_succeed() && Self::spec_limit_parse(old(input).unread()) is Some ==> (
            r matches Err(e) ==> e.description() == DEPTH_LIMIT_ERR_MSG@
                && Self::spec_limit_depth(old(input).unread()) > limit),
    ;

    /// Decode `Self` and consume all of the given input data, with the given maximum recursion
    /// depth.
    ///
    /// If not all data is consumed or nesting is deeper than `limit`, an error is returned.
    /// A whole encoding decodes exactly when it nests at most `limit` deep, and is otherwise
    /// refused with `DEPTH_LIMIT_ERR_MSG`; a value that fits with bytes left over is refused
    /// with `DECODE_ALL_ERR_MSG`.
    fn decode_all_with_depth_limit(limit: u32, input: &mut &[u8]) -> (r: Result<Self, Error>)
        ensures
            Self::spec_limit_parse(old(input)@) is Some ==> (r matches Ok(v)
                ==> Self::spec_limit_encode(v) == old(input)@ && (*final(input))@.len() == 0),
            Self::spec_limit_parse(old(input)@) matches Some(n) && n != old(input)@.len() ==> r is Err,
            Self::spec_limit_parse(old(input)@) == Some(old(input)@.len())
                && Self::spec_limit_depth(old(input)@) <= limit ==> r is Ok,
            Self::spec_limit_parse(old(input)@) is Some && Self::spec_limit_depth(old(input)@)
                > limit ==> (r matches Err(e) && e.description() == DEPTH_LIMIT_ERR_MSG@),
            Self::spec_limit_parse(old(input)@) matches Some(n) && n < old(input)@.len()
                && Self::spec_limit_depth(old(input)@) <= limit ==> (r matches Err(e)
                && e.description() == DECODE_ALL_ERR_MSG@),
    ;
}

impl<T: Decode> DecodeLimit for T {
    open spec fn spec_limit_parse(bytes: Seq<u8>) -> Option<nat> {
        T::spec_parse(bytes)
    }

    open spec fn spec_limit_encode(v: T) -> Seq<u8> {
        v.spec_encode()
    }

    open spec fn spec_limit_depth(bytes: Seq<u8>) -> nat {
        T::spec_depth(bytes)
    }

    fn decode_with_depth_limit<I: Input>(limit: u32, input: &mut I) -> (r: Result<T, Error>) {
        let mut tracking = DepthTrackingInput { input: BorrowedInput(input), depth: 0, max_depth: limit };
        assert(tracking.unread() == old(input).unread());
        assert(old(input).hooks_succeed() ==> tracking.depth_count() == Some((0nat, limit as nat)));
        T::decode(&mut tracking)
    }

    fn decode_all_with_depth_limit(limit: u32, input: &mut &[u8]) -> (r: Result<T, Error>) {
        let mut tracking = DepthTrackingInput { input: *input, depth: 0, max_depth: limit };
        assert(tracking.depth_count() == Some((0nat, limit as nat)));
        let res = T::decode(&mut tracking);
        *input = tracking.input;
        let t = res?;
        if input.len() == 0 {
            assert(old(input)@.take(old(input)@.len() as int) =~= old(input)@);
            Ok(t)
        } else {
            Err(Error::new(DECODE_ALL_ERR_MSG))
        }
    }
}

} // verus!
