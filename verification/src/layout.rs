//! What a byte layout says, and what reading it back gives.
//!
//! A reader of a layout takes a value off the front of its input and leaves the
//! rest, or it names a fault. A writer turns a value into bytes.

use vstd::prelude::*;

verus! {

/// What reading the front of an input gives: a value and the rest of the input,
/// or a fault.
pub type Parsed<T, E> = Result<(T, Seq<u8>), E>;

/// Whether a reader and a writer describe one layout.
///
/// Reading what was written gives the value back and leaves what follows it.
/// Whatever the reader accepts is the writer's bytes for the value it reports,
/// so every value has one byte string.
pub open spec fn one_layout<T, E>(
    parse: spec_fn(Seq<u8>) -> Parsed<T, E>,
    write: spec_fn(T) -> Seq<u8>,
    writable: spec_fn(T) -> bool,
) -> bool {
    &&& forall|x: T, rest: Seq<u8>|
        writable(x) ==> #[trigger] parse(write(x) + rest) == Parsed::<T, E>::Ok((x, rest))
    &&& forall|d: Seq<u8>|
        (#[trigger] parse(d)) matches Ok((x, rest)) ==> writable(x) && d == write(x) + rest
}

/// Reads `n` values in a row.
pub open spec fn parse_run<T, E>(
    parse: spec_fn(Seq<u8>) -> Parsed<T, E>,
    n: nat,
    d: Seq<u8>,
) -> Parsed<Seq<T>, E>
    decreases n,
{
    if n == 0 {
        Ok((Seq::empty(), d))
    } else {
        match parse_run(parse, (n - 1) as nat, d) {
            Err(fault) => Err(fault),
            Ok((head, rest)) => match parse(rest) {
                Err(fault) => Err(fault),
                Ok((x, rest)) => Ok((head.push(x), rest)),
            },
        }
    }
}

/// What a read of `n` values in a row leaves unread, whatever comes of it, where
/// `left` says that of one value.
pub open spec fn left_by_run<T, E>(
    parse: spec_fn(Seq<u8>) -> Parsed<T, E>,
    left: spec_fn(Seq<u8>) -> Seq<u8>,
    n: nat,
    d: Seq<u8>,
) -> Seq<u8>
    decreases n,
{
    if n == 0 {
        d
    } else {
        match parse_run(parse, (n - 1) as nat, d) {
            Err(_) => left_by_run(parse, left, (n - 1) as nat, d),
            Ok((_, rest)) => left(rest),
        }
    }
}

/// The bytes of a run of values.
pub open spec fn write_run<T>(write: spec_fn(T) -> Seq<u8>, xs: Seq<T>) -> Seq<u8>
    decreases xs.len(),
{
    if xs.len() == 0 {
        Seq::empty()
    } else {
        write_run(write, xs.drop_last()) + write(xs.last())
    }
}

/// The bytes of a run, one value further.
pub proof fn lemma_write_run_step<T>(write: spec_fn(T) -> Seq<u8>, xs: Seq<T>, i: int)
    requires
        0 <= i < xs.len(),
    ensures
        write_run(write, xs.take(i + 1)) == write_run(write, xs.take(i)) + write(xs[i]),
{
    assert(xs.take(i + 1).drop_last() =~= xs.take(i));
}

/// The front of a run has no more bytes than the run.
pub proof fn lemma_write_run_front<T>(write: spec_fn(T) -> Seq<u8>, xs: Seq<T>, i: int)
    requires
        0 <= i <= xs.len(),
    ensures
        write_run(write, xs.take(i)).len() <= write_run(write, xs).len(),
    decreases xs.len() - i,
{
    if i < xs.len() {
        lemma_write_run_step(write, xs, i);
        lemma_write_run_front(write, xs, i + 1);
    } else {
        assert(xs.take(i) =~= xs);
    }
}

/// A run that fails keeps failing in the same way when it is made longer.
pub proof fn lemma_run_stops<T, E>(
    parse: spec_fn(Seq<u8>) -> Parsed<T, E>,
    m: nat,
    n: nat,
    d: Seq<u8>,
)
    requires
        m <= n,
    ensures
        parse_run(parse, m, d) matches Err(fault) ==> parse_run(parse, n, d) == Parsed::<
            Seq<T>,
            E,
        >::Err(fault),
    decreases n,
{
    if m < n {
        lemma_run_stops(parse, m, (n - 1) as nat, d);
    }
}

/// A run that fails leaves the same unread when it is made longer.
pub proof fn lemma_run_leaves<T, E>(
    parse: spec_fn(Seq<u8>) -> Parsed<T, E>,
    left: spec_fn(Seq<u8>) -> Seq<u8>,
    m: nat,
    n: nat,
    d: Seq<u8>,
)
    requires
        m <= n,
    ensures
        parse_run(parse, m, d) is Err ==> left_by_run(parse, left, n, d) == left_by_run(
            parse,
            left,
            m,
            d,
        ),
    decreases n,
{
    if m < n {
        lemma_run_leaves(parse, left, m, (n - 1) as nat, d);
        lemma_run_stops(parse, m, (n - 1) as nat, d);
    }
}

/// Reading a written run gives the run back.
pub proof fn lemma_run_reads_written<T, E>(
    parse: spec_fn(Seq<u8>) -> Parsed<T, E>,
    write: spec_fn(T) -> Seq<u8>,
    writable: spec_fn(T) -> bool,
    xs: Seq<T>,
    rest: Seq<u8>,
)
    requires
        one_layout(parse, write, writable),
        forall|i: int| 0 <= i < xs.len() ==> writable(#[trigger] xs[i]),
    ensures
        parse_run(parse, xs.len(), write_run(write, xs) + rest) == Parsed::<Seq<T>, E>::Ok(
            (xs, rest),
        ),
    decreases xs.len(),
{
    if xs.len() == 0 {
        assert(write_run(write, xs) + rest =~= rest);
        assert(xs =~= Seq::empty());
    } else {
        let head = xs.drop_last();
        let x = xs.last();
        assert forall|i: int| 0 <= i < head.len() implies writable(#[trigger] head[i]) by {
            assert(head[i] == xs[i]);
        }
        assert(writable(xs[xs.len() - 1]));
        lemma_run_reads_written(parse, write, writable, head, write(x) + rest);
        assert(write_run(write, xs) + rest =~= write_run(write, head) + (write(x) + rest));
        assert(parse(write(x) + rest) == Parsed::<T, E>::Ok((x, rest)));
        assert(head.push(x) =~= xs);
    }
}

/// A run that meets a faulty value behind good ones reports its fault.
pub proof fn lemma_run_meets_fault<T, E>(
    parse: spec_fn(Seq<u8>) -> Parsed<T, E>,
    write: spec_fn(T) -> Seq<u8>,
    writable: spec_fn(T) -> bool,
    good: Seq<T>,
    n: nat,
    rest: Seq<u8>,
)
    requires
        one_layout(parse, write, writable),
        forall|i: int| 0 <= i < good.len() ==> writable(#[trigger] good[i]),
        good.len() < n,
        parse(rest) is Err,
    ensures
        parse_run(parse, n, write_run(write, good) + rest) == Parsed::<Seq<T>, E>::Err(
            parse(rest)->Err_0,
        ),
{
    lemma_run_reads_written(parse, write, writable, good, rest);
    lemma_run_stops(parse, (good.len() + 1) as nat, n, write_run(write, good) + rest);
}

/// Whatever is read as a run is the bytes of that run.
pub proof fn lemma_run_was_written<T, E>(
    parse: spec_fn(Seq<u8>) -> Parsed<T, E>,
    write: spec_fn(T) -> Seq<u8>,
    writable: spec_fn(T) -> bool,
    n: nat,
    d: Seq<u8>,
)
    requires
        one_layout(parse, write, writable),
    ensures
        parse_run(parse, n, d) matches Ok((xs, rest)) ==> {
            &&& xs.len() == n
            &&& forall|i: int| 0 <= i < xs.len() ==> writable(#[trigger] xs[i])
            &&& d == write_run(write, xs) + rest
        },
    decreases n,
{
    if n == 0 {
        assert(d =~= write_run(write, Seq::empty()) + d);
    } else {
        lemma_run_was_written(parse, write, writable, (n - 1) as nat, d);
        if let Ok((head, middle)) = parse_run(parse, (n - 1) as nat, d) {
            if let Ok((x, rest)) = parse(middle) {
                let xs = head.push(x);
                assert(writable(x) && middle == write(x) + rest);
                assert(xs.drop_last() =~= head);
                assert(write_run(write, xs) + rest =~= write_run(write, head) + (write(x) + rest));
                assert forall|i: int| 0 <= i < xs.len() implies writable(#[trigger] xs[i]) by {
                    if i < head.len() {
                        assert(xs[i] == head[i]);
                    }
                }
            }
        }
    }
}

/// Whether a reader answers for the first `n` bytes of an input of `len` bytes
/// as it should, given what it answers for the whole: with `fault` where the
/// value does not fit in them, and with the same value where it does.
pub open spec fn shortened<T, E>(
    read: Parsed<T, E>,
    short: Parsed<T, E>,
    len: nat,
    n: int,
    fault: E,
) -> bool {
    read matches Ok((x, rest)) ==> {
        let used = len - rest.len();
        &&& 0 <= used
        &&& if n < used {
            short == Parsed::<T, E>::Err(fault)
        } else {
            short == Parsed::<T, E>::Ok((x, rest.take(n - used)))
        }
    }
}

/// A run is shortened as its values are.
pub proof fn lemma_run_shortened<T, E>(
    parse: spec_fn(Seq<u8>) -> Parsed<T, E>,
    count: nat,
    d: Seq<u8>,
    n: int,
    fault: E,
)
    requires
        0 <= n <= d.len(),
        forall|d: Seq<u8>, n: int|
            0 <= n <= d.len() ==> #[trigger] shortened(
                parse(d),
                parse(d.take(n)),
                d.len(),
                n,
                fault,
            ),
    ensures
        shortened(
            parse_run(parse, count, d),
            parse_run(parse, count, d.take(n)),
            d.len(),
            n,
            fault,
        ),
    decreases count,
{
    if count > 0 {
        lemma_run_shortened(parse, (count - 1) as nat, d, n, fault);
        if let Ok((head, middle)) = parse_run(parse, (count - 1) as nat, d) {
            let used = d.len() - middle.len();
            if n >= used {
                assert(shortened(
                    parse(middle),
                    parse(middle.take(n - used)),
                    middle.len(),
                    n - used,
                    fault,
                ));
            } else if let Ok((x, rest)) = parse(middle) {
                assert(shortened(
                    parse(middle),
                    parse(middle.take(middle.len() as int)),
                    middle.len(),
                    middle.len() as int,
                    fault,
                ));
            }
        }
    }
}

} // verus!
