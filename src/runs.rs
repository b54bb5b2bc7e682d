use vstd::prelude::*;

use crate::blocking::{
    delivered, drain_run, fill_exact_run, follows_offsets, progressing, results, stopped_by,
    write_all_run, ReadExactError, WriteAllError,
};

verus! {

/// A run of a composite transfer on `len` bytes that has come to its end: every
/// call moved bytes and together they moved all `len`, or every call but the last
/// moved bytes, the last moved none or failed, and fewer than `len` were moved.
pub open spec fn complete_run<E>(len: nat, calls: Seq<Result<Seq<u8>, E>>) -> bool {
    ||| progressing(calls) && delivered(calls).len() == len
    ||| calls.len() > 0 && progressing(calls.drop_last()) && !progressing(seq![calls.last()])
        && delivered(calls).len() < len
}

/// The calls `calls` that were made got the results that `script` lists for them:
/// where the primitive answers call after call as `script` says.
pub open spec fn agrees<E>(calls: Seq<Result<Seq<u8>, E>>, script: Seq<Result<Seq<u8>, E>>) -> bool {
    forall|i: int| 0 <= i < calls.len() && i < script.len() ==> #[trigger] calls[i] == script[i]
}

proof fn lemma_delivered_grows<E>(calls: Seq<Result<Seq<u8>, E>>, i: int)
    requires
        0 <= i <= calls.len(),
    ensures
        delivered(calls.take(i)).len() <= delivered(calls).len(),
    decreases calls.len() - i,
{
    if i < calls.len() {
        lemma_delivered_grows(calls, i + 1);
        assert(calls.take(i + 1).drop_last() =~= calls.take(i));
    } else {
        assert(calls.take(i) =~= calls);
    }
}

proof fn lemma_last_not_progressing<E>(calls: Seq<Result<Seq<u8>, E>>)
    requires
        calls.len() > 0,
    ensures
        progressing(seq![calls.last()]) <==> (calls.last() is Ok && calls.last()->Ok_0.len() > 0),
{
    let one = seq![calls.last()];
    assert(one[0] == calls.last());
}

/// No complete run is a proper prefix of another complete run on the same length.
proof fn lemma_no_complete_prefix<E>(
    len: nat,
    a: Seq<Result<Seq<u8>, E>>,
    b: Seq<Result<Seq<u8>, E>>,
)
    requires
        a.len() < b.len(),
        a == b.take(a.len() as int),
    ensures
        !(complete_run(len, a) && complete_run(len, b)),
{
    if complete_run(len, a) && complete_run(len, b) {
        let j = a.len() as int;
        lemma_last_not_progressing(b);
        if a.len() > 0 {
            lemma_last_not_progressing(a);
        }
        assert(progressing(a)) by {
            assert forall|i: int| 0 <= i < a.len() implies (#[trigger] a[i]) is Ok && a[i]->Ok_0.len()
                > 0 by {
                assert(a[i] == b[i]);
                if i == b.len() - 1 {
                } else {
                    assert(b.drop_last()[i] == b[i]);
                }
            }
        }
        if a.len() > 0 {
            assert(a.last() == a[a.len() - 1]);
        }
        assert(delivered(a).len() == len);
        lemma_delivered_grows(b, j + 1);
        assert(b.take(j + 1).drop_last() =~= a);
        if j == b.len() - 1 {
            assert(b.take(j + 1) =~= b);
            assert(b.last() == b[j]);
        } else {
            assert(b.drop_last()[j] == b[j]);
        }
    }
}

/// A complete run whose calls got the results of a complete script is that script.
proof fn lemma_run_is_script<E>(
    len: nat,
    calls: Seq<Result<Seq<u8>, E>>,
    script: Seq<Result<Seq<u8>, E>>,
)
    requires
        complete_run(len, calls),
        complete_run(len, script),
        agrees(calls, script),
    ensures
        calls == script,
{
    if calls.len() < script.len() {
        assert(calls =~= script.take(calls.len() as int));
        lemma_no_complete_prefix(len, calls, script);
    } else if calls.len() > script.len() {
        assert(script =~= calls.take(script.len() as int));
        lemma_no_complete_prefix(len, script, calls);
    } else {
        assert(calls =~= script);
    }
}

proof fn lemma_fill_exact_complete<E>(
    len: nat,
    calls: Seq<Result<Seq<u8>, E>>,
    filled: Seq<u8>,
    r: Result<(), ReadExactError<E>>,
)
    requires
        fill_exact_run(len, calls, filled, r),
    ensures
        complete_run(len, calls),
{
    if r is Err {
        lemma_last_not_progressing(calls);
    }
}

proof fn lemma_write_all_complete<E>(
    data: Seq<u8>,
    calls: Seq<Result<Seq<u8>, E>>,
    r: Result<(), WriteAllError<E>>,
)
    requires
        write_all_run(data, calls, r),
    ensures
        complete_run(data.len(), calls),
{
    if r is Err {
        lemma_last_not_progressing(calls);
    }
}

/// Where the source hands over, call after call, non-empty chunks that together
/// are exactly as long as the buffer, "fill exactly" succeeds after making exactly
/// those calls, and the buffer holds the chunks in order.
pub proof fn fill_exact_from_full_chunks<E>(
    len: nat,
    script: Seq<Result<Seq<u8>, E>>,
    calls: Seq<Result<Seq<u8>, E>>,
    filled: Seq<u8>,
    r: Result<(), ReadExactError<E>>,
)
    requires
        progressing(script),
        delivered(script).len() == len,
        agrees(calls, script),
        fill_exact_run(len, calls, filled, r),
    ensures
        r is Ok,
        calls == script,
        filled == delivered(script),
{
    lemma_fill_exact_complete(len, calls, filled, r);
    lemma_run_is_script(len, calls, script);
}

/// Where the source hands over non-empty chunks that together are shorter than the
/// buffer and then reports its end, "fill exactly" fails with `UnexpectedEof` after
/// making exactly those calls, and the buffer begins with the chunks in order.
pub proof fn fill_exact_from_short_source<E>(
    len: nat,
    script: Seq<Result<Seq<u8>, E>>,
    calls: Seq<Result<Seq<u8>, E>>,
    filled: Seq<u8>,
    r: Result<(), ReadExactError<E>>,
)
    requires
        stopped_by(script, Ok(Seq::empty())),
        delivered(script).len() < len,
        agrees(calls, script),
        fill_exact_run(len, calls, filled, r),
    ensures
        r == Err::<(), ReadExactError<E>>(ReadExactError::UnexpectedEof),
        calls == script,
        filled.take(delivered(script).len() as int) == delivered(script),
{
    lemma_last_not_progressing(script);
    lemma_fill_exact_complete(len, calls, filled, r);
    lemma_run_is_script(len, calls, script);
    if r is Ok {
        assert(script[script.len() - 1] == script.last());
    } else if r->Err_0 is Other {
        assert(calls.last() == script.last());
    }
}

/// Where the sink accepts, call after call, non-empty parts that together are the
/// whole buffer, "write exactly" succeeds after exactly that many calls.
pub proof fn write_all_from_full_chunks<E>(
    data: Seq<u8>,
    script: Seq<Result<Seq<u8>, E>>,
    calls: Seq<Result<Seq<u8>, E>>,
    r: Result<(), WriteAllError<E>>,
)
    requires
        progressing(script),
        delivered(script) == data,
        agrees(calls, script),
        write_all_run(data, calls, r),
    ensures
        r is Ok,
        calls.len() == script.len(),
        calls == script,
{
    lemma_write_all_complete(data, calls, r);
    lemma_run_is_script(data.len(), calls, script);
}

/// Where the sink accepts nothing on some call while bytes are left, "write
/// exactly" fails with `WriteZero` on that call and makes no call after it.
pub proof fn write_all_stops_on_zero<E>(
    data: Seq<u8>,
    script: Seq<Result<Seq<u8>, E>>,
    calls: Seq<Result<Seq<u8>, E>>,
    r: Result<(), WriteAllError<E>>,
)
    requires
        stopped_by(script, Ok(Seq::empty())),
        delivered(script).len() < data.len(),
        agrees(calls, script),
        write_all_run(data, calls, r),
    ensures
        r == Err::<(), WriteAllError<E>>(WriteAllError::WriteZero),
        calls == script,
{
    lemma_last_not_progressing(script);
    lemma_write_all_complete(data, calls, r);
    lemma_run_is_script(data.len(), calls, script);
    if r is Ok {
        assert(script[script.len() - 1] == script.last());
    } else if r->Err_0 is Other {
        assert(calls.last() == script.last());
    }
}

/// Driven over the same primitive results, at offsets that follow the bytes already
/// read, the positional "fill exactly" ends as the sequential one does and leaves
/// the same bytes in the buffer.
pub proof fn fill_exact_positional_matches<E>(
    len: nat,
    offset: u64,
    calls: Seq<Result<Seq<u8>, E>>,
    positional: Seq<(u64, Result<Seq<u8>, E>)>,
    filled: Seq<u8>,
    r: Result<(), ReadExactError<E>>,
    filled_at: Seq<u8>,
    r_at: Result<(), ReadExactError<E>>,
)
    requires
        results(positional) == calls,
        follows_offsets(offset, positional),
        fill_exact_run(len, calls, filled, r),
        fill_exact_run(len, results(positional), filled_at, r_at),
    ensures
        r == r_at,
        filled.take(delivered(calls).len() as int) == filled_at.take(delivered(calls).len() as int),
        r is Ok ==> filled == filled_at,
{
    if calls.len() > 0 {
        lemma_last_not_progressing(calls);
        assert(calls.last() == calls[calls.len() - 1]);
    }
    if r is Ok {
        assert(r_at is Ok);
        let u: () = r->Ok_0;
        let v: () = r_at->Ok_0;
        assert(u == v);
    } else if r_at is Ok {
        assert(r is Ok);
    } else if r->Err_0 is Other {
        assert(calls.last() == Err::<Seq<u8>, E>(r->Err_0->Other_0));
        assert(r_at->Err_0 is Other);
        assert(calls.last() == Err::<Seq<u8>, E>(r_at->Err_0->Other_0));
        assert(r == Err::<(), ReadExactError<E>>(ReadExactError::Other(r->Err_0->Other_0)));
        assert(r_at == Err::<(), ReadExactError<E>>(ReadExactError::Other(r->Err_0->Other_0)));
    } else {
        assert(r_at->Err_0 !is Other);
        assert(r == Err::<(), ReadExactError<E>>(ReadExactError::UnexpectedEof));
        assert(r_at == Err::<(), ReadExactError<E>>(ReadExactError::UnexpectedEof));
    }
    if r is Ok {
        assert(filled.take(delivered(calls).len() as int) =~= filled);
    }
    if r_at is Ok {
        assert(filled_at.take(delivered(calls).len() as int) =~= filled_at);
    }
}

/// Driven over the same primitive results, at offsets that follow the bytes already
/// read, the positional "drain to end" ends as the sequential one does and appends
/// the same bytes.
pub proof fn drain_positional_matches<E>(
    before: Seq<u8>,
    offset: u64,
    calls: Seq<Result<Seq<u8>, E>>,
    positional: Seq<(u64, Result<Seq<u8>, E>)>,
    after: Seq<u8>,
    r: Result<usize, E>,
    after_at: Seq<u8>,
    r_at: Result<usize, E>,
)
    requires
        results(positional) == calls,
        follows_offsets(offset, positional),
        drain_run(before, calls, after, r),
        drain_run(before, results(positional), after_at, r_at),
    ensures
        r == r_at,
        after == after_at,
{
}

/// Driven over the same primitive results, at offsets that follow the bytes already
/// written, the positional "write exactly" ends as the sequential one does.
pub proof fn write_all_positional_matches<E>(
    data: Seq<u8>,
    offset: u64,
    calls: Seq<Result<Seq<u8>, E>>,
    positional: Seq<(u64, Result<Seq<u8>, E>)>,
    r: Result<(), WriteAllError<E>>,
    r_at: Result<(), WriteAllError<E>>,
)
    requires
        results(positional) == calls,
        follows_offsets(offset, positional),
        write_all_run(data, calls, r),
        write_all_run(data, results(positional), r_at),
    ensures
        r == r_at,
{
    if calls.len() > 0 {
        lemma_last_not_progressing(calls);
        assert(calls.last() == calls[calls.len() - 1]);
    }
    if r is Ok {
        assert(r_at is Ok);
        let u: () = r->Ok_0;
        let v: () = r_at->Ok_0;
        assert(u == v);
    } else if r_at is Ok {
        assert(r is Ok);
    } else if r->Err_0 is Other {
        assert(calls.last() == Err::<Seq<u8>, E>(r->Err_0->Other_0));
        assert(r_at->Err_0 is Other);
        assert(calls.last() == Err::<Seq<u8>, E>(r_at->Err_0->Other_0));
        assert(r == Err::<(), WriteAllError<E>>(WriteAllError::Other(r->Err_0->Other_0)));
        assert(r_at == Err::<(), WriteAllError<E>>(WriteAllError::Other(r->Err_0->Other_0)));
    } else {
        assert(r_at->Err_0 !is Other);
        assert(r == Err::<(), WriteAllError<E>>(WriteAllError::WriteZero));
        assert(r_at == Err::<(), WriteAllError<E>>(WriteAllError::WriteZero));
    }
}

} // verus!
