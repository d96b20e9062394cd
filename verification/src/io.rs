//! Where decoding reads from and where encoding writes to.
use crate::depth_limit::DEPTH_LIMIT_ERR_MSG;
use crate::error::Error;
use crate::memory_limit::{aligned_size, MemAlignment, MEM_LIMIT_ERR_MSG};
use vstd::prelude::*;
use vstd::slice::slice_subrange;

verus! {

/// Trait that allows reading of data into a slice.
///
/// An input is modelled by the bytes it will still yield, in order (`unread`), and by how its
/// hooks — `remaining_len`, `descend_ref`, `ascend_ref` and `try_alloc` — behave:
/// - `hooks_succeed`: none of them ever fails;
/// - `depth_count` is `Some((depth, max))`: only `descend_ref` refuses, exactly when `depth`
///   nested values are open already and `depth` is not below `max`;
/// - `mem_budget` is `Some((remaining, align))`: only `try_alloc` refuses, exactly when the
///   allocation, aligned by `align`, is more than `remaining`.
///
/// A read that succeeds yields the next bytes. In each of these three cases a
/// read also fails only where too few bytes are left; an input that keeps the defaults, such
/// as one over a stream that can fail, may fail to read at any time.
pub trait Input {
    /// The bytes this input will still yield, in order.
    ///
    /// An input implemented outside verified code keeps this default, of which other modules
    /// know nothing. Its successful reads then contradict the contracts below: what this library
    /// proves of decoding holds of the inputs implemented in verified code.
    closed spec fn unread(&self) -> Seq<u8> {
        Seq::empty()
    }

    /// Whether `remaining_len`, `descend_ref` and `try_alloc` always succeed on this input, and
    /// a read fails only where too few bytes are left.
    ///
    /// The default promises nothing: an input implemented outside verified code, such as one
    /// over a stream that can fail, is not assumed to succeed.
    open spec fn hooks_succeed(&self) -> bool {
        false
    }

    /// Whether this input knows how many bytes it will still yield, and tells it in
    /// `remaining_len`.
    ///
    /// An input implemented outside verified code keeps this default, of which other modules
    /// know nothing.
    closed spec fn knows_len(&self) -> bool {
        false
    }

    /// The description of the error that a read past the end gives, where it is known.
    ///
    /// The default promises nothing.
    open spec fn short_read_error(&self) -> Option<Seq<char>> {
        None
    }

    /// `Some((depth, max))` where the only hook that refuses is `descend_ref`, counting nested
    /// values against a maximum.
    ///
    /// The default promises nothing.
    open spec fn depth_count(&self) -> Option<(nat, nat)> {
        None
    }

    /// `Some((remaining, align))` where the only hook that refuses is `try_alloc`, counting
    /// allocations against a remaining budget.
    ///
    /// The default promises nothing.
    open spec fn mem_budget(&self) -> Option<(nat, Option<MemAlignment>)> {
        None
    }

    /// Should return the remaining length of the input data. If no information about the input
    /// length is available, `None` should be returned.
    fn remaining_len(&mut self) -> (r: Result<Option<usize>, Error>)
        ensures
            final(self).unread() == old(self).unread(),
            final(self).hooks_succeed() == old(self).hooks_succeed(),
            final(self).depth_count() == old(self).depth_count(),
            final(self).mem_budget() == old(self).mem_budget(),
            r matches Ok(Some(n)) ==> n == old(self).unread().len(),
            r matches Ok(l) ==> (l is Some <==> old(self).knows_len()),
            old(self).hooks_succeed() || old(self).depth_count() is Some || old(
                self,
            ).mem_budget() is Some ==> r is Ok,
    ;

    /// Read the exact number of bytes required to fill the given buffer.
    fn read(&mut self, into: &mut [u8]) -> (r: Result<(), Error>)
        ensures
            final(self).hooks_succeed() == old(self).hooks_succeed(),
            final(self).depth_count() == old(self).depth_count(),
            final(self).mem_budget() == old(self).mem_budget(),
            final(self).short_read_error() == old(self).short_read_error(),
            final(into)@.len() == old(into)@.len(),
            r is Ok ==> old(into)@.len() <= old(self).unread().len(),
            (old(self).hooks_succeed() || old(self).depth_count() is Some || old(self).mem_budget() is Some) && old(into)@.len() <= old(self).unread().len() ==> r is Ok,
            r is Ok ==> final(into)@ == old(self).unread().take(old(into)@.len() as int),
            r is Ok ==> final(self).unread() == old(self).unread().skip(old(into)@.len() as int),
            old(self).short_read_error() matches Some(d) ==> (r matches Err(e) ==> e.description()
                == d),
    ;

    /// Read a single byte from the input.
    fn read_byte(&mut self) -> (r: Result<u8, Error>)
        ensures
            final(self).hooks_succeed() == old(self).hooks_succeed(),
            final(self).depth_count() == old(self).depth_count(),
            final(self).mem_budget() == old(self).mem_budget(),
            final(self).short_read_error() == old(self).short_read_error(),
            r is Ok ==> old(self).unread().len() > 0,
            (old(self).hooks_succeed() || old(self).depth_count() is Some || old(self).mem_budget() is Some) && old(self).unread().len() > 0 ==> r is Ok,
            r matches Ok(b) ==> b == old(self).unread()[0],
            r is Ok ==> final(self).unread() == old(self).unread().drop_first(),
            old(self).short_read_error() matches Some(d) ==> (r matches Err(e) ==> e.description()
                == d),
    {
        let mut buf: Vec<u8> = vec![0u8];
        let r = self.read(buf.as_mut_slice());
        match r {
            Ok(()) => {
                assert(old(self).unread().skip(1) =~= old(self).unread().drop_first());
                Ok(buf[0])
            },
            Err(e) => Err(e),
        }
    }

    /// Descend into nested reference when decoding.
    /// This is called when decoding a new reference-based instance, such as `Vec` or `Box`.
    fn descend_ref(&mut self) -> (r: Result<(), Error>)
        ensures
            final(self).unread() == old(self).unread(),
            final(self).hooks_succeed() == old(self).hooks_succeed(),
            final(self).mem_budget() == old(self).mem_budget(),
            old(self).hooks_succeed() || old(self).mem_budget() is Some ==> r is Ok,
            old(self).depth_count() is None ==> final(self).depth_count() is None,
            old(self).depth_count() matches Some((d, m)) ==> {
                &&& r is Ok <==> d < m
                &&& r is Ok ==> final(self).depth_count() == Some(((d + 1) as nat, m))
                &&& r matches Err(e) ==> e.description() == DEPTH_LIMIT_ERR_MSG@
            },
    ;

    /// Ascend to previous structure level when decoding.
    /// This is called when decoding reference-based type is finished.
    fn ascend_ref(&mut self)
        ensures
            final(self).unread() == old(self).unread(),
            final(self).hooks_succeed() == old(self).hooks_succeed(),
            final(self).mem_budget() == old(self).mem_budget(),
            old(self).depth_count() is None ==> final(self).depth_count() is None,
            old(self).depth_count() matches Some((d, m)) ==> final(self).depth_count() == Some(
                (if d > 0 { (d - 1) as nat } else { 0 }, m),
            ),
    ;

    /// Called before decoding allocates `size` bytes of memory; an input that limits memory
    /// refuses here once the limit is spent.
    fn try_alloc(&mut self, size: usize) -> (r: Result<(), Error>)
        ensures
            final(self).unread() == old(self).unread(),
            final(self).hooks_succeed() == old(self).hooks_succeed(),
            final(self).depth_count() == old(self).depth_count(),
            old(self).hooks_succeed() || old(self).depth_count() is Some ==> r is Ok,
            old(self).mem_budget() is None ==> final(self).mem_budget() is None,
            old(self).mem_budget() matches Some((rem, al)) ==> {
                &&& r is Ok <==> aligned_size(al, size) <= rem
                &&& r is Ok ==> final(self).mem_budget() == Some(
                    ((rem - aligned_size(al, size)) as nat, al),
                )
                &&& r is Err ==> final(self).mem_budget() == old(self).mem_budget()
                &&& r matches Err(e) ==> e.description() == MEM_LIMIT_ERR_MSG@
            },
    ;
}

/// Whether reads on `input` fail only where too few bytes are left: its hooks always succeed, or
/// it counts nesting or memory.
pub open spec fn reads_fully<I: Input + ?Sized>(input: &I) -> bool {
    input.hooks_succeed() || input.depth_count() is Some || input.mem_budget() is Some
}

impl<'a> Input for &'a [u8] {
    open spec fn unread(&self) -> Seq<u8> {
        (**self)@
    }

    open spec fn hooks_succeed(&self) -> bool {
        true
    }

    open spec fn knows_len(&self) -> bool {
        true
    }

    open spec fn short_read_error(&self) -> Option<Seq<char>> {
        Some("Not enough data to fill buffer"@)
    }

    fn remaining_len(&mut self) -> (r: Result<Option<usize>, Error>) {
        Ok(Some(self.len()))
    }

    /// A read past the end fails with nothing taken from the slice or written to the buffer.
    fn read(&mut self, into: &mut [u8]) -> (r: Result<(), Error>)
        ensures
            r is Err ==> *final(self) == *old(self) && final(into)@ == old(into)@,
    {
        if into.len() > self.len() {
            return Err(Error::new("Not enough data to fill buffer"));
        }
        let len = into.len();
        let src: &'a [u8] = *self;
        let mut i: usize = 0;
        while i < len
            invariant
                i <= len,
                len == old(into)@.len(),
                len <= src@.len(),
                src@ == old(self).unread(),
                into@.len() == len,
                forall|j: int| 0 <= j < i ==> into@[j] == src@[j],
            decreases len - i,
        {
            into[i] = src[i];
            i = i + 1;
        }
        assert(into@ =~= src@.take(len as int));
        *self = slice_subrange(src, len, src.len());
        assert((*self)@ =~= src@.skip(len as int));
        Ok(())
    }

    fn descend_ref(&mut self) -> (r: Result<(), Error>) {
        Ok(())
    }

    fn ascend_ref(&mut self) {
    }

    fn try_alloc(&mut self, size: usize) -> (r: Result<(), Error>) {
        Ok(())
    }
}

/// Trait that allows writing of data.
///
/// An output is modelled by the bytes written to it so far (`written`).
pub trait Output {
    /// The bytes written to this output so far.
    ///
    /// An output implemented outside verified code keeps this default, of which other modules
    /// know nothing. Its writes then contradict the contracts below: what this library proves
    /// of encoding holds of the outputs implemented in verified code.
    closed spec fn written(&self) -> Seq<u8> {
        Seq::empty()
    }

    /// Write to the output.
    fn write(&mut self, bytes: &[u8])
        requires
            old(self).written().len() + bytes@.len() <= usize::MAX,
        ensures
            final(self).written() == old(self).written() + bytes@,
    ;

    /// Write a single byte to the output.
    fn push_byte(&mut self, byte: u8)
        requires
            old(self).written().len() < usize::MAX,
        ensures
            final(self).written() == old(self).written().push(byte),
    {
        let buf: Vec<u8> = vec![byte];
        assert(buf@ =~= seq![byte]);
        self.write(buf.as_slice());
        assert(old(self).written() + seq![byte] =~= old(self).written().push(byte));
    }
}

impl Output for Vec<u8> {
    open spec fn written(&self) -> Seq<u8> {
        self@
    }

    fn write(&mut self, bytes: &[u8]) {
        self.extend_from_slice(bytes);
        assert(self@ =~= old(self)@ + bytes@);
    }

    fn push_byte(&mut self, byte: u8) {
        self.push(byte);
    }
}

/// An output that keeps only the number of bytes written to it.
pub(crate) struct SizeTracker {
    written: usize,
    bytes: Ghost<Seq<u8>>,
}

impl SizeTracker {
    #[verifier::type_invariant]
    spec fn counts_bytes(&self) -> bool {
        self.written == self.bytes@.len()
    }

    pub(crate) fn new() -> (t: SizeTracker)
        ensures
            t.written() == Seq::<u8>::empty(),
    {
        SizeTracker { written: 0, bytes: Ghost(Seq::empty()) }
    }

    pub(crate) fn count(&self) -> (n: usize)
        ensures
            n == self.written().len(),
    {
        proof {
            use_type_invariant(self);
        }
        self.written
    }
}

impl Output for SizeTracker {
    closed spec fn written(&self) -> Seq<u8> {
        self.bytes@
    }

    fn write(&mut self, bytes: &[u8]) {
        proof {
            use_type_invariant(&*self);
        }
        *self = SizeTracker {
            written: self.written + bytes.len(),
            bytes: Ghost(self.bytes@ + bytes@),
        };
    }

}

} // verus!
