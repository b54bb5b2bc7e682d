use vstd::prelude::*;

pub mod blocking;
pub mod runs;
pub mod stdio;

verus! {

/// A capability whose failures are described by a medium-specific error type.
pub trait Io {
    type Error: core::fmt::Debug;
}

/// Where a seek moves the cursor to.
#[derive(Clone, Copy, Debug)]
pub enum SeekFrom {
    /// An absolute offset from the start.
    Start(u64),
    /// A signed distance from the end.
    End(i64),
    /// A signed distance from the current position.
    Current(i64),
}

/// Where a successful seek with `pos` lands, from the position `current`;
/// `None` where that depends on the medium's length.
pub open spec fn seek_target(pos: SeekFrom, current: int) -> Option<int> {
    match pos {
        SeekFrom::Start(n) => Some(n as int),
        SeekFrom::Current(d) => Some(current + d),
        SeekFrom::End(_) => None,
    }
}

/// One call of `seek`, with its result, as a medium's log of seeks keeps it.
pub type SeekCall<E> = (SeekFrom, Result<u64, E>);

/// `rewind` took a medium's log of seeks from `before` to `after`, leaving the
/// cursor at `position`: one seek to the start, whose failure is passed on.
pub open spec fn rewound<E>(
    before: Seq<SeekCall<E>>,
    after: Seq<SeekCall<E>>,
    position: int,
    r: Result<(), E>,
) -> bool {
    &&& r is Ok ==> exists|p: u64| after == before.push((SeekFrom::Start(0), Ok(p)))
    &&& r is Err ==> after == before.push((SeekFrom::Start(0), Err(r->Err_0)))
    &&& r is Ok ==> position == 0
}

/// `stream_position` took a medium's log of seeks from `before` to `after`, and its
/// cursor from `from` to `to`: one seek by no distance, which reports the position
/// and leaves it where it was.
pub open spec fn probed<E>(
    before: Seq<SeekCall<E>>,
    after: Seq<SeekCall<E>>,
    from: int,
    to: int,
    r: Result<u64, E>,
) -> bool {
    &&& after == before.push((SeekFrom::Current(0), r))
    &&& r is Ok ==> r->Ok_0 == from && to == from
}

/// A medium with a cursor that can be moved.
pub trait Seek: Io {
    /// The cursor's offset from the start of the medium.
    /// Verified implementations state their own; the default body only lets
    /// implementations outside the verifier leave it out.
    closed spec fn position(&self) -> int {
        0
    }

    /// Every call of the primitive `seek` so far, oldest first, with its result.
    /// Verified implementations state their own; the default body only lets
    /// implementations outside the verifier leave it out.
    closed spec fn seeks(&self) -> Seq<SeekCall<Self::Error>> {
        Seq::empty()
    }

    /// Moves the cursor and returns its new offset from the start.
    fn seek(&mut self, pos: SeekFrom) -> (r: Result<u64, Self::Error>)
        ensures
            final(self).seeks() == old(self).seeks().push((pos, r)),
            r is Ok ==> final(self).position() == r->Ok_0,
            r is Ok && seek_target(pos, old(self).position()) is Some ==> r->Ok_0 == seek_target(
                pos,
                old(self).position(),
            )->Some_0,
    ;

    /// Moves the cursor back to the start.
    fn rewind(&mut self) -> (r: Result<(), Self::Error>)
        ensures
            rewound(old(self).seeks(), final(self).seeks(), final(self).position(), r),
    {
        let moved = self.seek(SeekFrom::Start(0));
        match moved {
            Ok(_) => Ok(()),
            Err(e) => Err(e),
        }
    }

    /// Reports the cursor's offset from the start without moving it.
    fn stream_position(&mut self) -> (r: Result<u64, Self::Error>)
        ensures
            probed(
                old(self).seeks(),
                final(self).seeks(),
                old(self).position(),
                final(self).position(),
                r,
            ),
    {
        self.seek(SeekFrom::Current(0))
    }
}

/// Once `rewind` has succeeded, a successful `stream_position` reports offset 0,
/// wherever the cursor stood before.
pub proof fn rewind_then_stream_position<E>(
    log0: Seq<SeekCall<E>>,
    log1: Seq<SeekCall<E>>,
    log2: Seq<SeekCall<E>>,
    rewound_to: int,
    probed_to: int,
    r1: Result<(), E>,
    r2: Result<u64, E>,
)
    requires
        rewound(log0, log1, rewound_to, r1),
        probed(log1, log2, rewound_to, probed_to, r2),
        r1 is Ok,
        r2 is Ok,
    ensures
        r2->Ok_0 == 0,
        probed_to == 0,
{
}

} // verus!
