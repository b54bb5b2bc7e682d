use vstd::prelude::*;

use crate::Io;

verus! {

/// Size of the scratch block that "drain to end" reads into.
pub const DEFAULT_BLOCK_SIZE: usize = 4096;

/// The bytes that a run of primitive results handed over, in order.
/// A failed call hands over nothing.
pub open spec fn delivered<E>(calls: Seq<Result<Seq<u8>, E>>) -> Seq<u8>
    decreases calls.len(),
{
    if calls.len() == 0 {
        Seq::empty()
    } else {
        delivered(calls.drop_last()) + match calls.last() {
            Ok(chunk) => chunk,
            Err(_) => Seq::empty(),
        }
    }
}

/// Every call of the run succeeded and moved at least one byte.
pub open spec fn progressing<E>(calls: Seq<Result<Seq<u8>, E>>) -> bool {
    forall|i: int| 0 <= i < calls.len() ==> (#[trigger] calls[i]) is Ok && calls[i]->Ok_0.len() > 0
}

/// The calls made after `before`, when `after` extends it.
pub open spec fn calls_since<E>(
    before: Seq<Result<Seq<u8>, E>>,
    after: Seq<Result<Seq<u8>, E>>,
) -> Seq<Result<Seq<u8>, E>> {
    after.skip(before.len() as int)
}

/// A run that made progress on every call but the last, which ended it with `last`.
pub open spec fn stopped_by<E>(calls: Seq<Result<Seq<u8>, E>>, last: Result<Seq<u8>, E>) -> bool {
    calls.len() > 0 && progressing(calls.drop_last()) && calls.last() == last
}

/// One more call adds what it moved to the end of what the run delivered.
pub proof fn lemma_delivered_push<E>(calls: Seq<Result<Seq<u8>, E>>, next: Result<Seq<u8>, E>)
    ensures
        delivered(calls.push(next)) == delivered(calls) + match next {
            Ok(chunk) => chunk,
            Err(_) => Seq::<u8>::empty(),
        },
{
    assert(calls.push(next).drop_last() =~= calls);
}

/// The failure of a composite read that must fill its whole buffer.
#[derive(Debug)]
pub enum ReadExactError<E> {
    /// The source ended before the buffer was full.
    UnexpectedEof,
    /// The medium failed; its error is passed on unchanged.
    Other(E),
}

/// How "fill exactly" ends on a buffer of `len` bytes, given the primitive results
/// `calls` it saw, and `filled`, the buffer afterwards.
pub open spec fn fill_exact_run<E>(
    len: nat,
    calls: Seq<Result<Seq<u8>, E>>,
    filled: Seq<u8>,
    r: Result<(), ReadExactError<E>>,
) -> bool {
    match r {
        Ok(()) => progressing(calls) && filled == delivered(calls) && delivered(calls).len() == len,
        Err(ReadExactError::UnexpectedEof) => stopped_by(calls, Ok(Seq::empty()))
            && delivered(calls).len() < len && filled.take(delivered(calls).len() as int)
            == delivered(calls),
        Err(ReadExactError::Other(e)) => stopped_by(calls, Err(e)) && delivered(calls).len() < len
            && filled.take(delivered(calls).len() as int) == delivered(calls),
    }
}

/// How "drain to end" ends, given the output sequence `before` and `after` the call,
/// and the primitive results `calls` it saw: everything delivered is appended, in
/// order, and the run stops at the first end of data or failure.
pub open spec fn drain_run<E>(
    before: Seq<u8>,
    calls: Seq<Result<Seq<u8>, E>>,
    after: Seq<u8>,
    r: Result<usize, E>,
) -> bool {
    &&& after == before + delivered(calls)
    &&& match r {
        Ok(count) => stopped_by(calls, Ok(Seq::empty())) && count == delivered(calls).len(),
        Err(e) => stopped_by(calls, Err(e)),
    }
}

/// A source of bytes read through an implicit cursor.
pub trait Read: Io {
    /// Every result the primitive `read` has given so far, oldest first:
    /// the bytes it delivered, or the error it failed with.
    /// Verified implementations state their own; the default body only lets
    /// implementations outside the verifier leave it out.
    closed spec fn reads(&self) -> Seq<Result<Seq<u8>, Self::Error>> {
        Seq::empty()
    }

    /// Reads at most `buf.len()` bytes into the front of `buf`. A result of 0 on a
    /// non-empty buffer means the source is exhausted.
    fn read(&mut self, buf: &mut [u8]) -> (r: Result<usize, Self::Error>)
        ensures
            final(buf)@.len() == old(buf)@.len(),
            match r {
                Ok(n) => n <= old(buf)@.len() && final(self).reads() == old(self).reads().push(
                    Ok(final(buf)@.take(n as int)),
                ),
                Err(e) => final(self).reads() == old(self).reads().push(Err(e)),
            },
    ;

    /// Fills the whole of `buf`, calling `read` on the unfilled rest until it is
    /// full, the source ends, or the medium fails.
    #[verifier::rlimit(40)]
    fn read_exact(&mut self, buf: &mut [u8]) -> (r: Result<(), ReadExactError<Self::Error>>)
        ensures
            final(buf)@.len() == old(buf)@.len(),
            old(self).reads().is_prefix_of(final(self).reads()),
            fill_exact_run(
                old(buf)@.len(),
                calls_since(old(self).reads(), final(self).reads()),
                final(buf)@,
                r,
            ),
    {
        let len = buf.len();
        let mut filled: usize = 0;
        while filled < len
            invariant
                buf@.len() == len,
                len == old(buf)@.len(),
                filled <= len,
                old(self).reads().is_prefix_of(self.reads()),
                progressing(calls_since(old(self).reads(), self.reads())),
                delivered(calls_since(old(self).reads(), self.reads())).len() == filled,
                buf@.take(filled as int) == delivered(calls_since(old(self).reads(), self.reads())),
            decreases len - filled,
        {
            let ghost before = self.reads();
            let ghost start = buf@;
            let (head, rest) = buf.split_at_mut(filled);
            let got = self.read(rest);
            proof {
                assert(head@ == start.take(filled as int));
                assert(buf@ == head@ + rest@);
                assert(buf@.len() == len);
                assert(self.reads().len() == before.len() + 1);
                let calls = calls_since(old(self).reads(), before);
                let next = if got is Ok {
                    Ok(buf@.subrange(filled as int, filled + got->Ok_0))
                } else {
                    Err(got->Err_0)
                };
                if got is Ok {
                    assert(rest@.take(got->Ok_0 as int) =~= next->Ok_0);
                }
                assert(self.reads() == before.push(next));
                assert(calls_since(old(self).reads(), self.reads()) =~= calls.push(next));
                assert(old(self).reads().is_prefix_of(self.reads()));
                assert(calls.push(next).drop_last() =~= calls);
                assert(buf@.take(filled as int) =~= start.take(filled as int));
                if got is Ok {
                    let n = got->Ok_0;
                    assert(buf@.take(filled + n) =~= start.take(filled as int) + rest@.take(n as int));
                    if n == 0 {
                        assert(next->Ok_0 =~= Seq::<u8>::empty());
                    }
                }
                lemma_delivered_push(calls, next);
            }
            match got {
                Ok(0) => {
                    return Err(ReadExactError::UnexpectedEof);
                },
                Ok(n) => {
                    filled = filled + n;
                },
                Err(e) => {
                    return Err(ReadExactError::Other(e));
                },
            }
        }
        assert(buf@ =~= buf@.take(len as int));
        Ok(())
    }

    /// Appends everything the source still holds to `buf`, reading block by block
    /// until `read` reports the end, and returns how many bytes were appended.
    /// A failure of the medium is returned as it is; what was appended stays.
    #[verifier::rlimit(40)]
    fn read_to_end(&mut self, buf: &mut Vec<u8>) -> (r: Result<usize, Self::Error>)
        ensures
            old(self).reads().is_prefix_of(final(self).reads()),
            drain_run(old(buf)@, calls_since(old(self).reads(), final(self).reads()), final(buf)@, r),
    {
        let start_len = buf.len();
        let mut count: usize = 0;
        let mut block = [0u8; DEFAULT_BLOCK_SIZE];
        loop
            invariant
                start_len == old(buf)@.len(),
                buf@.len() <= usize::MAX,
                count == buf@.len() - start_len,
                old(self).reads().is_prefix_of(self.reads()),
                progressing(calls_since(old(self).reads(), self.reads())),
                buf@ == old(buf)@ + delivered(calls_since(old(self).reads(), self.reads())),
            decreases usize::MAX - buf@.len(),
        {
            let ghost before = self.reads();
            let got = self.read(&mut block);
            proof {
                let calls = calls_since(old(self).reads(), before);
                let next = if got is Ok {
                    Ok(block@.take(got->Ok_0 as int))
                } else {
                    Err(got->Err_0)
                };
                assert(self.reads() == before.push(next));
                assert(calls_since(old(self).reads(), self.reads()) =~= calls.push(next));
                assert(old(self).reads().is_prefix_of(self.reads()));
                assert(calls.push(next).drop_last() =~= calls);
                lemma_delivered_push(calls, next);
                if got is Ok && got->Ok_0 == 0 {
                    assert(next->Ok_0 =~= Seq::<u8>::empty());
                    assert(buf@ =~= buf@ + next->Ok_0);
                }
            }
            match got {
                Ok(0) => {
                    return Ok(count);
                },
                Ok(n) => {
                    let ghost mid = buf@;
                    buf.extend_from_slice(block.as_slice().split_at(n).0);
                    assert(buf@ =~= mid + block@.take(n as int));
                    let total = buf.len();
                    count = count + n;
                },
                Err(e) => {
                    assert(buf@ =~= buf@ + Seq::<u8>::empty());
                    return Err(e);
                },
            }
        }
    }
}

} // verus!

verus! {

/// The results of a run of positional calls, without their offsets.
pub open spec fn results<E>(calls: Seq<(u64, Result<Seq<u8>, E>)>) -> Seq<Result<Seq<u8>, E>> {
    calls.map_values(|c: (u64, Result<Seq<u8>, E>)| c.1)
}

/// Each call of a positional run was addressed just past the bytes that the calls
/// before it moved, starting at `start`.
pub open spec fn follows_offsets<E>(start: u64, calls: Seq<(u64, Result<Seq<u8>, E>)>) -> bool {
    forall|i: int|
        0 <= i < calls.len() ==> (#[trigger] calls[i]).0 == start + delivered(
            results(calls).take(i),
        ).len()
}

/// The positional calls made after `before`, when `after` extends it.
pub open spec fn positional_since<E>(
    before: Seq<(u64, Result<Seq<u8>, E>)>,
    after: Seq<(u64, Result<Seq<u8>, E>)>,
) -> Seq<(u64, Result<Seq<u8>, E>)> {
    after.skip(before.len() as int)
}

/// A call addressed just past the bytes already moved keeps a positional run in step.
pub proof fn lemma_positional_push<E>(
    start: u64,
    calls: Seq<(u64, Result<Seq<u8>, E>)>,
    next: (u64, Result<Seq<u8>, E>),
)
    requires
        follows_offsets(start, calls),
        next.0 == start + delivered(results(calls)).len(),
    ensures
        results(calls.push(next)) == results(calls).push(next.1),
        follows_offsets(start, calls.push(next)),
{
    let all = calls.push(next);
    assert(results(all) =~= results(calls).push(next.1));
    assert forall|i: int| 0 <= i < all.len() implies (#[trigger] all[i]).0 == start + delivered(
        results(all).take(i),
    ).len() by {
        if i < calls.len() {
            assert(results(all).take(i) =~= results(calls).take(i));
        } else {
            assert(results(all).take(i) =~= results(calls));
        }
    }
}

/// A medium read at offsets that the caller gives; it keeps no cursor of its own.
pub trait ReadAt: Io {
    /// Every call of the primitive `read_at` so far, oldest first: the offset it was
    /// given, and the bytes it delivered or the error it failed with.
    /// Verified implementations state their own; the default body only lets
    /// implementations outside the verifier leave it out.
    closed spec fn reads_at(&self) -> Seq<(u64, Result<Seq<u8>, Self::Error>)> {
        Seq::empty()
    }

    /// Reads at most `buf.len()` bytes found at `offset` into the front of `buf`.
    /// A result of 0 on a non-empty buffer means there is nothing at `offset`.
    fn read_at(&mut self, buf: &mut [u8], offset: u64) -> (r: Result<usize, Self::Error>)
        ensures
            final(buf)@.len() == old(buf)@.len(),
            match r {
                Ok(n) => n <= old(buf)@.len() && offset + n <= u64::MAX && final(self).reads_at()
                    == old(self).reads_at().push((offset, Ok(final(buf)@.take(n as int)))),
                Err(e) => final(self).reads_at() == old(self).reads_at().push((offset, Err(e))),
            },
    ;

    /// Fills the whole of `buf` from `offset` on, calling `read_at` on the unfilled
    /// rest, each time just past the bytes already read.
    #[verifier::rlimit(40)]
    fn read_exact_at(&mut self, buf: &mut [u8], offset: u64) -> (r: Result<
        (),
        ReadExactError<Self::Error>,
    >)
        ensures
            final(buf)@.len() == old(buf)@.len(),
            old(self).reads_at().is_prefix_of(final(self).reads_at()),
            follows_offsets(offset, positional_since(old(self).reads_at(), final(self).reads_at())),
            fill_exact_run(
                old(buf)@.len(),
                results(positional_since(old(self).reads_at(), final(self).reads_at())),
                final(buf)@,
                r,
            ),
    {
        let len = buf.len();
        let mut filled: usize = 0;
        let mut pos: u64 = offset;
        while filled < len
            invariant
                buf@.len() == len,
                len == old(buf)@.len(),
                filled <= len,
                pos == offset + filled,
                old(self).reads_at().is_prefix_of(self.reads_at()),
                follows_offsets(offset, positional_since(old(self).reads_at(), self.reads_at())),
                progressing(results(positional_since(old(self).reads_at(), self.reads_at()))),
                delivered(results(positional_since(old(self).reads_at(), self.reads_at()))).len()
                    == filled,
                buf@.take(filled as int) == delivered(
                    results(positional_since(old(self).reads_at(), self.reads_at())),
                ),
            decreases len - filled,
        {
            let ghost before = self.reads_at();
            let ghost start = buf@;
            let (head, rest) = buf.split_at_mut(filled);
            let got = self.read_at(rest, pos);
            proof {
                let calls = positional_since(old(self).reads_at(), before);
                let next = if got is Ok {
                    Ok(buf@.subrange(filled as int, filled + got->Ok_0))
                } else {
                    Err(got->Err_0)
                };
                if got is Ok {
                    assert(rest@.take(got->Ok_0 as int) =~= next->Ok_0);
                }
                assert(self.reads_at() == before.push((pos, next)));
                assert(positional_since(old(self).reads_at(), self.reads_at()) =~= calls.push(
                    (pos, next),
                ));
                assert(old(self).reads_at().is_prefix_of(self.reads_at()));
                lemma_positional_push(offset, calls, (pos, next));
                assert(results(calls).push(next).drop_last() =~= results(calls));
                lemma_delivered_push(results(calls), next);
                assert(buf@.take(filled as int) =~= start.take(filled as int));
                if got is Ok {
                    let n = got->Ok_0;
                    assert(buf@.take(filled + n) =~= start.take(filled as int) + rest@.take(
                        n as int,
                    ));
                    if n == 0 {
                        assert(next->Ok_0 =~= Seq::<u8>::empty());
                    }
                }
            }
            match got {
                Ok(0) => {
                    return Err(ReadExactError::UnexpectedEof);
                },
                Ok(n) => {
                    filled = filled + n;
                    pos = pos + n as u64;
                },
                Err(e) => {
                    return Err(ReadExactError::Other(e));
                },
            }
        }
        assert(buf@ =~= buf@.take(len as int));
        Ok(())
    }

    /// Appends everything found from `offset` on to `buf`, reading block by block
    /// until `read_at` reports the end, and returns how many bytes were appended.
    #[verifier::rlimit(40)]
    fn read_to_end_at(&mut self, buf: &mut Vec<u8>, offset: u64) -> (r: Result<
        usize,
        Self::Error,
    >)
        ensures
            old(self).reads_at().is_prefix_of(final(self).reads_at()),
            follows_offsets(offset, positional_since(old(self).reads_at(), final(self).reads_at())),
            drain_run(
                old(buf)@,
                results(positional_since(old(self).reads_at(), final(self).reads_at())),
                final(buf)@,
                r,
            ),
    {
        let start_len = buf.len();
        let mut count: usize = 0;
        let mut pos: u64 = offset;
        let mut block = [0u8; DEFAULT_BLOCK_SIZE];
        loop
            invariant
                start_len == old(buf)@.len(),
                buf@.len() <= usize::MAX,
                count == buf@.len() - start_len,
                pos == offset + count,
                old(self).reads_at().is_prefix_of(self.reads_at()),
                follows_offsets(offset, positional_since(old(self).reads_at(), self.reads_at())),
                progressing(results(positional_since(old(self).reads_at(), self.reads_at()))),
                buf@ == old(buf)@ + delivered(
                    results(positional_since(old(self).reads_at(), self.reads_at())),
                ),
            decreases usize::MAX - buf@.len(),
        {
            let ghost before = self.reads_at();
            let got = self.read_at(&mut block, pos);
            proof {
                let calls = positional_since(old(self).reads_at(), before);
                let next = if got is Ok {
                    Ok(block@.take(got->Ok_0 as int))
                } else {
                    Err(got->Err_0)
                };
                assert(self.reads_at() == before.push((pos, next)));
                assert(positional_since(old(self).reads_at(), self.reads_at()) =~= calls.push(
                    (pos, next),
                ));
                assert(old(self).reads_at().is_prefix_of(self.reads_at()));
                lemma_positional_push(offset, calls, (pos, next));
                assert(results(calls).push(next).drop_last() =~= results(calls));
                lemma_delivered_push(results(calls), next);
                if got is Ok && got->Ok_0 == 0 {
                    assert(next->Ok_0 =~= Seq::<u8>::empty());
                    assert(buf@ =~= buf@ + next->Ok_0);
                }
            }
            match got {
                Ok(0) => {
                    return Ok(count);
                },
                Ok(n) => {
                    let ghost mid = buf@;
                    buf.extend_from_slice(block.as_slice().split_at(n).0);
                    assert(buf@ =~= mid + block@.take(n as int));
                    let total = buf.len();
                    count = count + n;
                    pos = pos + n as u64;
                },
                Err(e) => {
                    assert(buf@ =~= buf@ + Seq::<u8>::empty());
                    return Err(e);
                },
            }
        }
    }
}

} // verus!

verus! {

/// The failure of a composite write that must hand over its whole buffer.
#[derive(Debug)]
pub enum WriteAllError<E> {
    /// A call of the primitive accepted no bytes while some were left.
    WriteZero,
    /// The medium failed; its error is passed on unchanged.
    Other(E),
}

/// How "write exactly" ends on the bytes `data`, given the primitive results
/// `calls` it saw, each being the bytes that call accepted.
pub open spec fn write_all_run<E>(
    data: Seq<u8>,
    calls: Seq<Result<Seq<u8>, E>>,
    r: Result<(), WriteAllError<E>>,
) -> bool {
    match r {
        Ok(()) => progressing(calls) && delivered(calls) == data,
        Err(WriteAllError::WriteZero) => stopped_by(calls, Ok(Seq::empty()))
            && delivered(calls).len() < data.len() && data.take(delivered(calls).len() as int)
            == delivered(calls),
        Err(WriteAllError::Other(e)) => stopped_by(calls, Err(e)) && delivered(calls).len()
            < data.len() && data.take(delivered(calls).len() as int) == delivered(calls),
    }
}

/// A sink of bytes written through an implicit cursor.
pub trait Write: Io {
    /// Every result the primitive `write` has given so far, oldest first:
    /// the bytes it accepted, or the error it failed with.
    /// Verified implementations state their own; the default body only lets
    /// implementations outside the verifier leave it out.
    closed spec fn writes(&self) -> Seq<Result<Seq<u8>, Self::Error>> {
        Seq::empty()
    }

    /// Writes a front part of `buf` and returns its length. A result of 0 on a
    /// non-empty buffer means that no progress was made.
    fn write(&mut self, buf: &[u8]) -> (r: Result<usize, Self::Error>)
        ensures
            match r {
                Ok(n) => n <= buf@.len() && final(self).writes() == old(self).writes().push(
                    Ok(buf@.take(n as int)),
                ),
                Err(e) => final(self).writes() == old(self).writes().push(Err(e)),
            },
    ;

    /// Commits whatever the medium holds back; it accepts no new bytes.
    fn flush(&mut self) -> (r: Result<(), Self::Error>)
        ensures
            final(self).writes() == old(self).writes(),
    ;

    /// Hands the whole of `buf` to `write`, each time offering the part not yet
    /// accepted. A buffer of no bytes is done at once, without calling `write`.
    #[verifier::rlimit(40)]
    fn write_all(&mut self, buf: &[u8]) -> (r: Result<(), WriteAllError<Self::Error>>)
        ensures
            old(self).writes().is_prefix_of(final(self).writes()),
            write_all_run(buf@, calls_since(old(self).writes(), final(self).writes()), r),
    {
        let len = buf.len();
        let mut written: usize = 0;
        while written < len
            invariant
                len == buf@.len(),
                written <= len,
                old(self).writes().is_prefix_of(self.writes()),
                progressing(calls_since(old(self).writes(), self.writes())),
                delivered(calls_since(old(self).writes(), self.writes())) == buf@.take(
                    written as int,
                ),
            decreases len - written,
        {
            let ghost before = self.writes();
            let (_, rest) = buf.split_at(written);
            let got = self.write(rest);
            proof {
                let calls = calls_since(old(self).writes(), before);
                let next = if got is Ok {
                    Ok(buf@.subrange(written as int, written + got->Ok_0))
                } else {
                    Err(got->Err_0)
                };
                if got is Ok {
                    assert(rest@.take(got->Ok_0 as int) =~= next->Ok_0);
                    assert(buf@.take(written + got->Ok_0) =~= buf@.take(written as int)
                        + next->Ok_0);
                    if got->Ok_0 == 0 {
                        assert(next->Ok_0 =~= Seq::<u8>::empty());
                    }
                }
                assert(self.writes() == before.push(next));
                assert(calls_since(old(self).writes(), self.writes()) =~= calls.push(next));
                assert(old(self).writes().is_prefix_of(self.writes()));
                assert(calls.push(next).drop_last() =~= calls);
                lemma_delivered_push(calls, next);
            }
            match got {
                Ok(0) => {
                    return Err(WriteAllError::WriteZero);
                },
                Ok(n) => {
                    written = written + n;
                },
                Err(e) => {
                    return Err(WriteAllError::Other(e));
                },
            }
        }
        assert(buf@ =~= buf@.take(len as int));
        Ok(())
    }
}

/// A medium written at offsets that the caller gives; it keeps no cursor of its own.
pub trait WriteAt: Io {
    /// Every call of the primitive `write_at` so far, oldest first: the offset it was
    /// given, and the bytes it accepted or the error it failed with.
    /// Verified implementations state their own; the default body only lets
    /// implementations outside the verifier leave it out.
    closed spec fn writes_at(&self) -> Seq<(u64, Result<Seq<u8>, Self::Error>)> {
        Seq::empty()
    }

    /// Writes a front part of `buf` at `offset` and returns its length. A result of
    /// 0 on a non-empty buffer means that no progress was made.
    fn write_at(&mut self, buf: &[u8], offset: u64) -> (r: Result<usize, Self::Error>)
        ensures
            match r {
                Ok(n) => n <= buf@.len() && offset + n <= u64::MAX && final(self).writes_at()
                    == old(self).writes_at().push((offset, Ok(buf@.take(n as int)))),
                Err(e) => final(self).writes_at() == old(self).writes_at().push((offset, Err(e))),
            },
    ;

    /// Commits whatever the medium holds back; it accepts no new bytes.
    fn flush(&mut self) -> (r: Result<(), Self::Error>)
        ensures
            final(self).writes_at() == old(self).writes_at(),
    ;

    /// Hands the whole of `buf` to `write_at` from `offset` on, each time offering
    /// the part not yet accepted just past the bytes already written.
    #[verifier::rlimit(40)]
    fn write_all_at(&mut self, buf: &[u8], offset: u64) -> (r: Result<
        (),
        WriteAllError<Self::Error>,
    >)
        ensures
            old(self).writes_at().is_prefix_of(final(self).writes_at()),
            follows_offsets(offset, positional_since(old(self).writes_at(), final(self).writes_at())),
            write_all_run(
                buf@,
                results(positional_since(old(self).writes_at(), final(self).writes_at())),
                r,
            ),
    {
        let len = buf.len();
        let mut written: usize = 0;
        let mut pos: u64 = offset;
        while written < len
            invariant
                len == buf@.len(),
                written <= len,
                pos == offset + written,
                old(self).writes_at().is_prefix_of(self.writes_at()),
                follows_offsets(offset, positional_since(old(self).writes_at(), self.writes_at())),
                progressing(results(positional_since(old(self).writes_at(), self.writes_at()))),
                delivered(results(positional_since(old(self).writes_at(), self.writes_at())))
                    == buf@.take(written as int),
            decreases len - written,
        {
            let ghost before = self.writes_at();
            let (_, rest) = buf.split_at(written);
            let got = self.write_at(rest, pos);
            proof {
                let calls = positional_since(old(self).writes_at(), before);
                let next = if got is Ok {
                    Ok(buf@.subrange(written as int, written + got->Ok_0))
                } else {
                    Err(got->Err_0)
                };
                if got is Ok {
                    assert(rest@.take(got->Ok_0 as int) =~= next->Ok_0);
                    assert(buf@.take(written + got->Ok_0) =~= buf@.take(written as int)
                        + next->Ok_0);
                    if got->Ok_0 == 0 {
                        assert(next->Ok_0 =~= Seq::<u8>::empty());
                    }
                }
                assert(self.writes_at() == before.push((pos, next)));
                assert(positional_since(old(self).writes_at(), self.writes_at()) =~= calls.push(
                    (pos, next),
                ));
                assert(old(self).writes_at().is_prefix_of(self.writes_at()));
                lemma_positional_push(offset, calls, (pos, next));
                assert(results(calls).push(next).drop_last() =~= results(calls));
                lemma_delivered_push(results(calls), next);
            }
            match got {
                Ok(0) => {
                    return Err(WriteAllError::WriteZero);
                },
                Ok(n) => {
                    written = written + n;
                    pos = pos + n as u64;
                },
                Err(e) => {
                    return Err(WriteAllError::Other(e));
                },
            }
        }
        assert(buf@ =~= buf@.take(len as int));
        Ok(())
    }
}

} // verus!
