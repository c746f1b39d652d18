//! Rows: a counted run of values of one type.

use crate::{ReadLhe, WriteLhe};
use crate::codec::{Codec, Field, lemma_split};
use crate::error::{Failure, ParseError, WriteError};
use crate::lexer::{has_at, skip_spaces, skip_whitespace};
use vstd::prelude::*;

verus! {

/// The views of the items of `items`.
pub open spec fn views<T: View>(items: Seq<T>) -> Seq<T::V> {
    items.map_values(|x: T| x@)
}

/// Reading `n` more values from `pos` on, after the values `done`.
pub open spec fn repeat_from<T: ReadLhe>(input: Seq<u8>, pos: int, n: nat, done: Seq<T::V>) -> Result<
    (Seq<T::V>, int),
    Failure,
>
    decreases n,
{
    if n == 0 {
        Ok((done, pos))
    } else {
        match T::parse(input, skip_spaces(input, pos)) {
            Err(e) => Err(e),
            Ok((v, end)) => repeat_from::<T>(input, end, (n - 1) as nat, done.push(v)),
        }
    }
}

/// Reading exactly `n` values one after the other from `pos` on, each from
/// the first place that holds no separator. The first value that fails to
/// read fails the whole.
pub open spec fn repeat<T: ReadLhe>(input: Seq<u8>, pos: int, n: nat) -> Result<
    (Seq<T::V>, int),
    Failure,
> {
    repeat_from::<T>(input, pos, n, Seq::empty())
}

/// The texts of `items`, one after the other.
pub open spec fn rows_bytes<T: WriteLhe>(items: Seq<T::V>) -> Seq<u8>
    decreases items.len(),
{
    if items.len() == 0 {
        Seq::empty()
    } else {
        rows_bytes::<T>(items.drop_last()) + T::lhe_bytes(items.last())
    }
}

/// Every item of `items` can be written.
pub open spec fn all_writable<T: WriteLhe>(items: Seq<T::V>) -> bool {
    forall|i: int| 0 <= i < items.len() ==> T::writable(#[trigger] items[i])
}

/// What a read of rows returns, in mathematical form.
pub open spec fn rows_outcome<T: View>(r: Result<(Vec<T>, usize), ParseError>) -> Result<
    (Seq<T::V>, int),
    Failure,
> {
    match r {
        Ok((v, end)) => Ok((views(v@), end as int)),
        Err(e) => Err(e@),
    }
}

/// Reads exactly `n` values one after the other.
pub fn read_rows<T: ReadLhe>(input: &[u8], pos: usize, n: u64) -> (r: Result<
    (Vec<T>, usize),
    ParseError,
>)
    ensures
        rows_outcome(r) == repeat::<T>(input@, pos as int, n as nat),
        r matches Ok((rows, end)) ==> rows.len() == n && pos <= end && (pos <= input.len() ==> end
            <= input.len()),
{
    let mut rows: Vec<T> = Vec::new();
    let mut p: usize = pos;
    let mut i: u64 = 0;
    assert(views(rows@) =~= Seq::<T::V>::empty());
    while i < n
        invariant
            i <= n,
            rows.len() == i,
            pos <= p,
            pos <= input.len() ==> p <= input.len(),
            repeat_from::<T>(input@, p as int, (n - i) as nat, views(rows@)) == repeat::<T>(
                input@,
                pos as int,
                n as nat,
            ),
        decreases n - i,
    {
        match T::read_from_lhe(input, skip_whitespace(input, p)) {
            Err(e) => {
                return Err(e);
            },
            Ok((v, end)) => {
                proof {
                    assert(views(rows@.push(v)) =~= views(rows@).push(v@));
                }
                rows.push(v);
                p = end;
                i = i + 1;
            },
        }
    }
    Ok((rows, p))
}

/// Writes the items one after the other, or nothing where one of them
/// cannot be written.
pub fn write_rows<T: WriteLhe>(items: &Vec<T>, out: &mut Vec<u8>) -> (r: Result<(), WriteError>)
    ensures
        r is Ok <==> all_writable::<T>(views(items@)),
        r is Ok ==> final(out)@ == old(out)@ + rows_bytes::<T>(views(items@)),
        r is Err ==> final(out)@ == old(out)@,
{
    let start = out.len();
    let mut i: usize = 0;
    assert(views(items@).subrange(0, 0) =~= Seq::<T::V>::empty());
    assert(out@ =~= old(out)@ + Seq::<u8>::empty());
    while i < items.len()
        invariant
            i <= items.len(),
            start == old(out)@.len(),
            out@ == old(out)@ + rows_bytes::<T>(views(items@).subrange(0, i as int)),
            all_writable::<T>(views(items@).subrange(0, i as int)),
        decreases items.len() - i,
    {
        let ghost before = out@;
        let ghost done = views(items@).subrange(0, i as int);
        let ghost next = views(items@).subrange(0, i + 1);
        proof {
            assert(next.drop_last() =~= done);
            assert(next.last() == items@[i as int]@);
        }
        match items[i].write_lhe(out) {
            Ok(()) => {
                proof {
                    assert(out@ =~= old(out)@ + rows_bytes::<T>(next));
                    assert forall|j: int| 0 <= j < next.len() implies T::writable(#[trigger] next[j]) by {
                        if j < i {
                            assert(next[j] == done[j]);
                        }
                    }
                }
            },
            Err(e) => {
                out.truncate(start);
                proof {
                    assert(out@ =~= old(out)@);
                    assert(!T::writable(views(items@)[i as int]));
                }
                return Err(e);
            },
        }
        i = i + 1;
    }
    assert(views(items@).subrange(0, i as int) =~= views(items@));
    Ok(())
}

/// Every item of `items` reads back as itself.
pub open spec fn all_canonical<T: Codec>(items: Seq<T::V>) -> bool {
    forall|i: int| 0 <= i < items.len() ==> T::canonical(#[trigger] items[i])
}

/// The length of the text of the first `k` items.
pub open spec fn rows_len<T: WriteLhe>(items: Seq<T::V>, k: int) -> int {
    rows_bytes::<T>(items.subrange(0, k)).len() as int
}

/// Where the texts of `items` stand from `pos` on, each is delimited by
/// what follows it.
pub open spec fn rows_delimited<T: Codec>(input: Seq<u8>, pos: int, items: Seq<T::V>) -> bool {
    forall|k: int| 0 < k <= items.len() ==> T::delimited(input, pos + #[trigger] rows_len::<T>(items, k))
}

/// The text of the first items is the start of the text of all.
pub proof fn lemma_rows_prefix<T: WriteLhe>(items: Seq<T::V>, k: int, input: Seq<u8>, pos: int)
    requires
        has_at(input, pos, rows_bytes::<T>(items)),
        0 <= k <= items.len(),
    ensures
        has_at(input, pos, rows_bytes::<T>(items.subrange(0, k))),
        k < items.len() ==> has_at(input, pos + rows_len::<T>(items, k), T::lhe_bytes(items[k]))
            && rows_len::<T>(items, k + 1) == rows_len::<T>(items, k) + T::lhe_bytes(items[k]).len(),
    decreases items.len() - k,
{
    if k == items.len() {
        assert(items.subrange(0, k) =~= items);
    } else {
        lemma_rows_prefix::<T>(items, k + 1, input, pos);
        let longer = items.subrange(0, k + 1);
        assert(longer.drop_last() =~= items.subrange(0, k));
        assert(longer.last() == items[k]);
        lemma_split(input, pos, rows_bytes::<T>(items.subrange(0, k)), T::lhe_bytes(items[k]));
    }
}

/// Reading the rest of the rows gives them back, where the first `k` have
/// been read and the read stands at `from`, behind their text.
pub proof fn lemma_rows_from<T: Codec>(items: Seq<T::V>, k: int, input: Seq<u8>, pos: int, from: int)
    requires
        all_canonical::<T>(items),
        has_at(input, pos, rows_bytes::<T>(items)),
        rows_delimited::<T>(input, pos, items),
        0 <= k <= items.len(),
        skip_spaces(input, from) == skip_spaces(input, pos + rows_len::<T>(items, k)),
    ensures
        repeat_from::<T>(input, from, (items.len() - k) as nat, items.subrange(0, k)) matches Ok(
            (w, end),
        ) && w == items && skip_spaces(input, end) == skip_spaces(
            input,
            pos + rows_bytes::<T>(items).len(),
        ),
    decreases items.len() - k,
{
    if k == items.len() {
        assert(items.subrange(0, k) =~= items);
    } else {
        let at = pos + rows_len::<T>(items, k);
        lemma_rows_prefix::<T>(items, k, input, pos);
        assert(T::canonical(items[k]));
        assert(T::delimited(input, pos + rows_len::<T>(items, k + 1)));
        T::lemma_round_trip(items[k], input, at);
        let end = T::parse(input, skip_spaces(input, at))->Ok_0.1;
        assert(items.subrange(0, k).push(items[k]) =~= items.subrange(0, k + 1));
        lemma_rows_from::<T>(items, k + 1, input, pos, end);
    }
}

/// Reading as many rows as were written gives them back.
pub proof fn lemma_rows_round_trip<T: Codec>(items: Seq<T::V>, input: Seq<u8>, pos: int, from: int)
    requires
        all_canonical::<T>(items),
        has_at(input, pos, rows_bytes::<T>(items)),
        rows_delimited::<T>(input, pos, items),
        skip_spaces(input, from) == skip_spaces(input, pos),
    ensures
        repeat::<T>(input, from, items.len()) matches Ok((w, end)) && w == items && skip_spaces(
            input,
            end,
        ) == skip_spaces(input, pos + rows_bytes::<T>(items).len()),
{
    assert(items.subrange(0, 0) =~= Seq::<T::V>::empty());
    lemma_rows_from::<T>(items, 0, input, pos, from);
}

/// As many rows are read as the count says.
pub proof fn lemma_rows_count<T: ReadLhe>(input: Seq<u8>, pos: int, n: nat, done: Seq<T::V>)
    ensures
        repeat_from::<T>(input, pos, n, done) matches Ok((rows, _)) ==> rows.len() == done.len() + n,
    decreases n,
{
    if n > 0 {
        match T::parse(input, skip_spaces(input, pos)) {
            Err(e) => {},
            Ok((v, end)) => {
                lemma_rows_count::<T>(input, end, (n - 1) as nat, done.push(v));
            },
        }
    }
}

/// Rows of fields end where the last field ends: at a place that holds no
/// separator.
pub proof fn lemma_rows_end<T: Field>(input: Seq<u8>, pos: int, n: nat, done: Seq<T::V>)
    requires
        n > 0,
    ensures
        repeat_from::<T>(input, pos, n, done) matches Ok((_, end)) ==> skip_spaces(input, end) == end,
    decreases n,
{
    match T::parse(input, skip_spaces(input, pos)) {
        Err(e) => {},
        Ok((v, end)) => {
            T::lemma_field_end(input, skip_spaces(input, pos));
            if n > 1 {
                lemma_rows_end::<T>(input, end, (n - 1) as nat, done.push(v));
            }
        },
    }
}

/// A list of fields that stands in front of a separator reads back, and the
/// read ends behind the separators that follow the list.
pub proof fn lemma_list_round_trip<T: Field>(items: Seq<T::V>, input: Seq<u8>, pos: int, from: int)
    requires
        all_canonical::<T>(items),
        has_at(input, pos, rows_bytes::<T>(items)),
        pos + rows_bytes::<T>(items).len() < input.len(),
        crate::lexer::is_space(input[pos + rows_bytes::<T>(items).len()]),
        forall|i: int| 0 <= i < items.len() ==> T::lhe_bytes(#[trigger] items[i]).len() > 0
            && T::lhe_bytes(items[i])[0] == 32,
        forall|text: Seq<u8>, at: int| 0 <= at < text.len() && crate::lexer::is_space(text[at])
            ==> #[trigger] T::delimited(text, at),
        skip_spaces(input, from) == skip_spaces(input, pos),
        items.len() > 0 || from == skip_spaces(input, pos),
    ensures
        repeat::<T>(input, from, items.len()) == Ok::<(Seq<T::V>, int), crate::error::Failure>(
            (items, skip_spaces(input, pos + rows_bytes::<T>(items).len())),
        ),
        items.len() > 0 ==> rows_bytes::<T>(items).len() > 0 && input[pos] == 32,
{
    let text = rows_bytes::<T>(items);
    let after = pos + text.len();
    assert(rows_delimited::<T>(input, pos, items)) by {
        assert forall|k: int| 0 < k <= items.len() implies T::delimited(
            input,
            pos + #[trigger] rows_len::<T>(items, k),
        ) by {
            lemma_rows_prefix::<T>(items, k, input, pos);
            let at = pos + rows_len::<T>(items, k);
            if k < items.len() {
                assert(input[at + 0] == T::lhe_bytes(items[k])[0]);
            } else {
                assert(items.subrange(0, k) =~= items);
            }
        }
    }
    lemma_rows_round_trip::<T>(items, input, pos, from);
    let end = repeat::<T>(input, from, items.len())->Ok_0.1;
    if items.len() > 0 {
        lemma_rows_end::<T>(input, from, items.len(), Seq::empty());
        lemma_rows_prefix::<T>(items, 0, input, pos);
        assert(items.subrange(0, 0) =~= Seq::<T::V>::empty());
        assert(input[pos + 0] == T::lhe_bytes(items[0])[0]);
    }
}

} // verus!
