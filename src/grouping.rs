use vstd::prelude::*;

verus! {

/// Splits a slice into runs of consecutive elements: an element joins the
/// current run when `compare(element, first element of the run)` holds.
pub struct GroupByFn<'a, T, F> where F: Fn(&T, &T) -> bool {
    pub data: &'a [T],
    pub idx_first: usize,
    pub compare: F,
}

/// `data[s..e]` is a run as `compare` draws it: every later element matches
/// the first one, and the element right after the run (if any) does not.
pub open spec fn is_run<T, F: Fn(&T, &T) -> bool>(data: Seq<T>, compare: F, s: int, e: int) -> bool {
    &&& 0 <= s < e <= data.len()
    &&& forall|j: int| s < j < e ==> #[trigger] compare.ensures((&data[j], &data[s]), true)
    &&& e < data.len() ==> compare.ensures((&data[e], &data[s]), false)
}

/// `ranges` cut `[lo, hi)` into non-empty, adjacent pieces, in order.
pub open spec fn is_partition(ranges: Seq<(usize, usize)>, lo: int, hi: int) -> bool {
    &&& ranges.len() == 0 ==> lo == hi
    &&& ranges.len() > 0 ==> ranges[0].0 == lo && ranges.last().1 == hi
    &&& forall|k: int| 0 <= k < ranges.len() ==> #[trigger] ranges[k].0 < ranges[k].1
    &&& forall|k: int| 0 <= k < ranges.len() - 1 ==> #[trigger] ranges[k].1 == ranges[k + 1].0
}

/// The elements of `data` that the ranges select, one range after the other.
pub open spec fn concat_ranges<T>(data: Seq<T>, ranges: Seq<(usize, usize)>) -> Seq<T>
    decreases ranges.len(),
{
    if ranges.len() == 0 {
        Seq::empty()
    } else {
        concat_ranges(data, ranges.drop_last()) + data.subrange(
            ranges.last().0 as int,
            ranges.last().1 as int,
        )
    }
}

/// A cut of a whole sequence into runs gives back the sequence when the runs
/// are put together again; an empty sequence has no runs.
pub proof fn lemma_runs_concat<T>(data: Seq<T>, ranges: Seq<(usize, usize)>)
    requires
        is_partition(ranges, 0, data.len() as int),
    ensures
        concat_ranges(data, ranges) == data,
        data.len() == 0 <==> ranges.len() == 0,
{
    lemma_concat_prefix(data, ranges);
    if ranges.len() > 0 {
        assert(data.subrange(0, data.len() as int) =~= data);
    }
}

proof fn lemma_concat_prefix<T>(data: Seq<T>, ranges: Seq<(usize, usize)>)
    requires
        ranges.len() > 0 ==> ranges.last().1 <= data.len(),
        is_partition(ranges, 0, if ranges.len() == 0 { 0 } else { ranges.last().1 as int }),
    ensures
        ranges.len() > 0 ==> concat_ranges(data, ranges) == data.subrange(0, ranges.last().1 as int),
        ranges.len() == 0 ==> concat_ranges(data, ranges) == Seq::<T>::empty(),
    decreases ranges.len(),
{
    if ranges.len() > 0 {
        let rest = ranges.drop_last();
        assert(concat_ranges(data, ranges) == concat_ranges(data, rest) + data.subrange(
            ranges.last().0 as int,
            ranges.last().1 as int,
        ));
        assert(ranges.last().0 < ranges.last().1);
        if rest.len() > 0 {
            assert(ranges[rest.len() - 1].1 == ranges[rest.len() as int].0);
            assert forall|k: int| 0 <= k < rest.len() implies #[trigger] rest[k].0 < rest[k].1 by {
                assert(ranges[k].0 < ranges[k].1);
            }
            assert forall|k: int| 0 <= k < rest.len() - 1 implies #[trigger] rest[k].1 == rest[k + 1].0 by {
                assert(ranges[k].1 == ranges[k + 1].0);
            }
            lemma_concat_prefix(data, rest);
            assert(data.subrange(0, rest.last().1 as int) + data.subrange(
                ranges.last().0 as int,
                ranges.last().1 as int,
            ) =~= data.subrange(0, ranges.last().1 as int));
        } else {
            assert(ranges.last().0 == 0);
            assert(concat_ranges(data, rest) == Seq::<T>::empty());
            assert(Seq::<T>::empty() + data.subrange(0, ranges.last().1 as int) =~= data.subrange(
                0,
                ranges.last().1 as int,
            ));
        }
    }
}

impl<'a, T, F> GroupByFn<'a, T, F> where F: Fn(&T, &T) -> bool {
    /// Starts grouping at the first element.
    pub fn new(data: &'a [T], compare: F) -> (r: GroupByFn<'a, T, F>)
        ensures
            r.data@ == data@,
            r.idx_first == 0,
            r.compare == compare,
    {
        GroupByFn { data: data, idx_first: 0, compare: compare }
    }

    /// The next run, as the half-open index range `(start, end)` into the
    /// slice, or `None` once the slice is used up.
    pub fn next(&mut self) -> (r: Option<(usize, usize)>)
        requires
            forall|x: &T, y: &T| #[trigger] old(self).compare.requires((x, y)),
        ensures
            final(self).data@ == old(self).data@,
            final(self).compare == old(self).compare,
            old(self).idx_first >= old(self).data@.len() ==> r is None && final(self).idx_first
                == old(self).idx_first,
            old(self).idx_first < old(self).data@.len() ==> r is Some,
            r matches Some(g) ==> {
                &&& g.0 == old(self).idx_first
                &&& g.1 == final(self).idx_first
                &&& is_run(old(self).data@, old(self).compare, g.0 as int, g.1 as int)
            },
    {
        let len = self.data.len();
        if self.idx_first >= len {
            return None;
        }
        let start = self.idx_first;
        let mut i: usize = start + 1;
        while i < len
            invariant
                len == self.data@.len(),
                start == self.idx_first,
                start < i <= len,
                self.data == old(self).data,
                self.compare == old(self).compare,
                self.idx_first == old(self).idx_first,
                forall|x: &T, y: &T| #[trigger] self.compare.requires((x, y)),
                forall|j: int| start < j < i ==> #[trigger] self.compare.ensures(
                    (&self.data@[j], &self.data@[start as int]),
                    true,
                ),
            decreases len - i,
        {
            let same = (self.compare)(&self.data[i], &self.data[start]);
            if !same {
                self.idx_first = i;
                return Some((start, i));
            }
            i = i + 1;
        }
        self.idx_first = len;
        Some((start, len))
    }

    /// Takes every remaining run, in order.
    pub fn groups(&mut self) -> (r: Vec<(usize, usize)>)
        requires
            forall|x: &T, y: &T| #[trigger] old(self).compare.requires((x, y)),
            old(self).idx_first <= old(self).data@.len(),
        ensures
            final(self).data@ == old(self).data@,
            final(self).compare == old(self).compare,
            final(self).idx_first == old(self).data@.len(),
            is_partition(r@, old(self).idx_first as int, old(self).data@.len() as int),
            forall|k: int|
                0 <= k < r@.len() ==> is_run(
                    old(self).data@,
                    old(self).compare,
                    #[trigger] r@[k].0 as int,
                    r@[k].1 as int,
                ),
    {
        let mut out: Vec<(usize, usize)> = Vec::new();
        let ghost lo = self.idx_first as int;
        let ghost data = self.data@;
        let ghost compare = self.compare;
        loop
            invariant
                self.data@ == data,
                self.compare == compare,
                data == old(self).data@,
                compare == old(self).compare,
                lo == old(self).idx_first,
                lo <= self.idx_first <= data.len(),
                forall|x: &T, y: &T| #[trigger] self.compare.requires((x, y)),
                is_partition(out@, lo, self.idx_first as int),
                forall|k: int|
                    0 <= k < out@.len() ==> is_run(data, compare, #[trigger] out@[k].0 as int, out@[k].1 as int),
            ensures
                self.idx_first == data.len(),
                self.data@ == data,
                self.compare == compare,
                is_partition(out@, lo, data.len() as int),
                forall|k: int|
                    0 <= k < out@.len() ==> is_run(data, compare, #[trigger] out@[k].0 as int, out@[k].1 as int),
            decreases data.len() - self.idx_first,
        {
            match self.next() {
                None => {
                    break;
                },
                Some(g) => {
                    let ghost old_out = out@;
                    out.push(g);
                    proof {
                        assert(out@[out@.len() - 1] == g);
                        assert forall|k: int| 0 <= k < out@.len() - 1 implies #[trigger] out@[k].1
                            == out@[k + 1].0 by {
                            if k < old_out.len() - 1 {
                                assert(old_out[k].1 == old_out[k + 1].0);
                            }
                        }
                    }
                },
            }
        }
        out
    }
}

/// Groups `data` into runs with `compare`.
pub fn group_by_fn<'a, T, F>(data: &'a [T], compare: F) -> (r: GroupByFn<'a, T, F>) where
    F: Fn(&T, &T) -> bool,

    ensures
        r.data@ == data@,
        r.idx_first == 0,
        r.compare == compare,
{
    GroupByFn::new(data, compare)
}

} // verus!
