//! A file of which only some pages are in memory.
//!
//! An asynchronous open runs the ordinary, synchronous parser over pages held in
//! memory. A read outside those pages stops the parser with
//! [`Error::Incomplete`]. The caller then fetches the pages that the read needed
//! and runs the parser again.
//!
//! A page that is not there is never guessed at: a read gives the bytes of the
//! pages, or it fails.

use std::collections::HashMap;

#[allow(unused_imports)]
use vstd::arithmetic::div_mod::{
    lemma_div_is_ordered, lemma_fundamental_div_mod, lemma_fundamental_div_mod_converse,
};
use vstd::prelude::*;

use crate::error::{Error, Result};
#[allow(unused_imports)]
use crate::error::ErrorView;
use crate::source::ByteSource;
#[allow(unused_imports)]
use crate::source::Image;

verus! {

broadcast use vstd::std_specs::hash::group_hash_axioms;

/// The pages of a file that are in memory.
pub struct Pages {
    /// Size of the whole file in bytes.
    pub size: u64,
    /// Size of one page in bytes.
    pub page_size: u64,
    /// The pages, by number.
    pub held: HashMap<u64, Vec<u8>>,
}

impl Pages {
    /// The number of the page that holds byte `i`.
    pub open spec fn page_of(&self, i: int) -> u64 {
        (i / self.page_size as int) as u64
    }

    /// Whether byte `i` of the file is in memory.
    pub open spec fn holds(&self, i: int) -> bool {
        &&& self.page_size > 0
        &&& self.held@.contains_key(self.page_of(i))
        &&& i % (self.page_size as int) < self.held@[self.page_of(i)]@.len()
    }

    /// Byte `i` of the file, where it is in memory.
    pub open spec fn byte(&self, i: int) -> u8 {
        if self.holds(i) {
            self.held@[self.page_of(i)]@[i % self.page_size as int]
        } else {
            0
        }
    }

    /// Whether every byte of a range is in memory.
    pub open spec fn holds_range(&self, offset: int, len: int) -> bool {
        forall|i: int| offset <= i < offset + len ==> #[trigger] self.holds(i)
    }

    /// What a read gives: the bytes, if the file has that many and all of them
    /// are in memory.
    pub open spec fn fetched(&self, offset: int, len: int) -> std::result::Result<
        Seq<u8>,
        ErrorView,
    > {
        match self.image().fetch(offset, len) {
            Err(e) => Err(e),
            Ok(bytes) => if self.holds_range(offset, len) {
                Ok(bytes)
            } else {
                Err(ErrorView::Incomplete)
            },
        }
    }

    /// The numbers of the pages from `number` up to `end` that are not in
    /// memory.
    pub open spec fn absent(&self, number: int, end: int) -> Seq<u64>
        decreases end - number,
    {
        if number >= end {
            Seq::empty()
        } else if self.held@.contains_key(number as u64) {
            self.absent(number + 1, end)
        } else {
            seq![number as u64] + self.absent(number + 1, end)
        }
    }

    /// The number of the first page behind a range.
    pub open spec fn end_page(&self, offset: int, len: int) -> int {
        if self.page_size == 0 || len <= 0 || offset >= self.size {
            0
        } else {
            let last = if offset + len < self.size {
                offset + len - 1
            } else {
                self.size - 1
            };
            last / self.page_size as int + 1
        }
    }

    /// The numbers of the pages that a read needs and that are not in memory.
    pub open spec fn lacking(&self, offset: u64, len: u64) -> Seq<u64> {
        let end = self.end_page(offset as int, len as int);
        if end == 0 {
            Seq::empty()
        } else {
            self.absent(offset as int / self.page_size as int, end)
        }
    }

    /// Whether one of the reads needs a page that is not in memory.
    pub open spec fn lacked_by(&self, reads: Seq<(u64, u64)>, number: u64) -> bool {
        exists|k: int|
            0 <= k < reads.len() && #[trigger] self.lacking(reads[k].0, reads[k].1).contains(number)
    }

    /// A file of `size` bytes with nothing in memory yet.
    pub fn new(size: u64, page_size: u64) -> (r: Self)
        ensures
            r.size == size,
            r.page_size == page_size,
            r.held@ == Map::<u64, Vec<u8>>::empty(),
    {
        Pages { size, page_size, held: HashMap::new() }
    }

    /// Put a page in memory.
    pub fn insert(&mut self, number: u64, bytes: Vec<u8>)
        ensures
            final(self).size == old(self).size,
            final(self).page_size == old(self).page_size,
            final(self).held@ == old(self).held@.insert(number, bytes),
    {
        self.held.insert(number, bytes);
    }

    /// The numbers of the pages that a read needs and that are not in memory.
    pub fn missing(&self, offset: u64, len: u64) -> (r: Vec<u64>)
        ensures
            r@ == self.lacking(offset, len),
    {
        let mut out: Vec<u64> = Vec::new();
        if self.page_size == 0 || len == 0 || offset >= self.size {
            return out;
        }
        let last: u64 = match offset.checked_add(len) {
            Some(end) if end < self.size => end - 1,
            _ => self.size - 1,
        };
        let first_page: u64 = offset / self.page_size;
        let last_page: u64 = last / self.page_size;
        proof {
            lemma_div_is_ordered(offset as int, last as int, self.page_size as int);
        }
        let ghost end = last_page + 1;
        let ghost want = self.absent(first_page as int, end);
        let mut done: bool = false;
        let mut number: u64 = first_page;
        assert(Seq::<u64>::empty() + want =~= want);
        while !done
            invariant
                first_page <= number <= last_page,
                end == last_page + 1,
                want == self.absent(first_page as int, end),
                !done ==> want == out@ + self.absent(number as int, end),
                done ==> want == out@,
            decreases last_page - number, if done { 0int } else { 1int },
        {
            let ghost before = out@;
            if !self.held.contains_key(&number) {
                out.push(number);
                assert(before + (seq![number] + self.absent(number + 1, end)) =~= out@
                    + self.absent(number + 1, end));
            }
            if number == last_page {
                assert(self.absent(number + 1, end) =~= Seq::<u64>::empty());
                assert(out@ + Seq::<u64>::empty() =~= out@);
                done = true;
            } else {
                number = number + 1;
            }
        }
        out
    }

    /// The numbers of the pages that the reads need and that are not in memory, each
    /// once and in ascending order. A read is an offset and a length.
    pub fn missing_in(&self, reads: &[(u64, u64)]) -> (r: Vec<u64>)
        ensures
            ascending(r@),
            forall|number: u64| r@.contains(number) <==> self.lacked_by(reads@, number),
    {
        let mut out: Vec<u64> = Vec::new();
        let mut k: usize = 0;
        while k < reads.len()
            invariant
                k <= reads@.len(),
                ascending(out@),
                forall|number: u64|
                    out@.contains(number) <==> self.lacked_by(reads@.take(k as int), number),
            decreases reads@.len() - k,
        {
            let (offset, len) = reads[k];
            let numbers = self.missing(offset, len);
            let ghost before = out@;
            let mut i: usize = 0;
            while i < numbers.len()
                invariant
                    i <= numbers@.len(),
                    ascending(out@),
                    forall|number: u64|
                        out@.contains(number) <==> before.contains(number) || numbers@.take(
                            i as int,
                        ).contains(number),
                decreases numbers@.len() - i,
            {
                let ghost so_far = out@;
                insert_number(&mut out, numbers[i]);
                proof {
                    lemma_take_contains(numbers@, i as int);
                    let taken = numbers@.take(i + 1);
                    assert forall|number: u64|
                        out@.contains(number) <==> before.contains(number) || taken.contains(
                            number,
                        ) by {
                        assert(so_far.contains(number) <==> before.contains(number) || numbers@.take(
                            i as int,
                        ).contains(number));
                    }
                }
                i = i + 1;
            }
            proof {
                assert(numbers@.take(i as int) =~= numbers@);
                self.lemma_lacked_by(reads@, k as int);
                assert forall|number: u64|
                    out@.contains(number) <==> self.lacked_by(reads@.take(k + 1), number) by {
                    assert(before.contains(number) <==> self.lacked_by(
                        reads@.take(k as int),
                        number,
                    ));
                }
            }
            k = k + 1;
        }
        assert(reads@.take(k as int) =~= reads@);
        out
    }

    proof fn lemma_lacked_by(&self, reads: Seq<(u64, u64)>, k: int)
        requires
            0 <= k < reads.len(),
        ensures
            forall|number: u64|
                self.lacked_by(reads.take(k + 1), number) <==> self.lacked_by(reads.take(k), number)
                    || self.lacking(reads[k].0, reads[k].1).contains(number),
    {
        let (more, less) = (reads.take(k + 1), reads.take(k));
        assert forall|number: u64|
            self.lacked_by(more, number) <==> self.lacked_by(less, number) || self.lacking(
                reads[k].0,
                reads[k].1,
            ).contains(number) by {
            if self.lacked_by(less, number) {
                let j = choose|j: int|
                    0 <= j < less.len() && #[trigger] self.lacking(less[j].0, less[j].1).contains(
                        number,
                    );
                assert(self.lacking(more[j].0, more[j].1).contains(number));
            }
            assert(more[k] == reads[k]);
            if self.lacked_by(more, number) {
                let j = choose|j: int|
                    0 <= j < more.len() && #[trigger] self.lacking(more[j].0, more[j].1).contains(
                        number,
                    );
                if j < k {
                    assert(self.lacking(less[j].0, less[j].1).contains(number));
                }
            }
        }
    }

    /// Where a page lies in the file and how long it is. The last page ends with the
    /// file. `None` where the file has no such page.
    pub fn range_of(&self, number: u64) -> (r: Option<(u64, u64)>)
        ensures
            r == if self.page_size > 0 && number * self.page_size < self.size {
                let start = number * self.page_size;
                Some(
                    (
                        start as u64,
                        if self.page_size < self.size - start {
                            self.page_size
                        } else {
                            (self.size - start) as u64
                        },
                    ),
                )
            } else {
                None
            },
    {
        match number.checked_mul(self.page_size) {
            Some(start) if self.page_size > 0 && start < self.size => {
                let left: u64 = self.size - start;
                Some((start, if self.page_size < left { self.page_size } else { left }))
            },
            _ => None,
        }
    }
}

/// Every number is less than the next.
pub open spec fn ascending(numbers: Seq<u64>) -> bool {
    forall|i: int, j: int| 0 <= i < j < numbers.len() ==> numbers[i] < numbers[j]
}

proof fn lemma_take_contains(numbers: Seq<u64>, i: int)
    requires
        0 <= i < numbers.len(),
    ensures
        forall|n: u64|
            numbers.take(i + 1).contains(n) <==> numbers.take(i).contains(n) || n == numbers[i],
{
    let (more, less) = (numbers.take(i + 1), numbers.take(i));
    assert(more =~= less.push(numbers[i]));
    assert forall|n: u64| more.contains(n) <==> less.contains(n) || n == numbers[i] by {
        if less.contains(n) {
            assert(more[less.index_of(n)] == n);
        }
        assert(more[i] == numbers[i]);
    }
}

/// Put a number in its place, if it is not there.
fn insert_number(numbers: &mut Vec<u64>, number: u64)
    requires
        ascending(old(numbers)@),
    ensures
        ascending(final(numbers)@),
        forall|n: u64|
            final(numbers)@.contains(n) <==> old(numbers)@.contains(n) || n == number,
{
    let ghost before = numbers@;
    // Numbers mostly come in order, so search from the end.
    let mut at: usize = numbers.len();
    while at > 0 && numbers[at - 1] > number
        invariant
            at <= numbers@.len(),
            numbers@ == before,
            forall|i: int| at <= i < before.len() ==> before[i] > number,
        decreases at,
    {
        at = at - 1;
    }
    if at > 0 && numbers[at - 1] == number {
        assert(before.contains(number));
        return;
    }
    numbers.insert(at, number);
    proof {
        let after = numbers@;
        assert forall|n: u64| after.contains(n) <==> before.contains(n) || n == number by {
            if before.contains(n) {
                let i = before.index_of(n);
                assert(after[if i < at {
                    i
                } else {
                    i + 1
                }] == n);
            }
            if after.contains(n) {
                let i = after.index_of(n);
                if i < at {
                    assert(before[i] == n);
                } else if i > at {
                    assert(before[i - 1] == n);
                }
            }
            assert(after[at as int] == number);
        }
    }
}

impl ByteSource for Pages {
    open spec fn image(&self) -> Image {
        Image { bytes: Seq::new(self.size as nat, |i: int| self.byte(i)), label: "pages"@ }
    }

    open spec fn dependable(&self) -> bool {
        false
    }

    fn label(&self) -> (r: &'static str) {
        "pages"
    }

    fn size(&self) -> (r: u64) {
        self.size
    }

    fn read_exact_at(&self, offset: u64, buf: &mut [u8]) -> (r: Result<()>)
        ensures
            (match r {
                Ok(()) => Ok(final(buf)@),
                Err(e) => Err(e@),
            }) == self.fetched(offset as int, old(buf)@.len() as int),
    {
        let len: usize = buf.len();
        if offset > self.size || len as u64 > self.size - offset {
            return Err(
                Error::OutOfBounds {
                    what: "pages",
                    offset,
                    len: len as u64,
                    available: if self.size > offset { self.size - offset } else { 0 },
                },
            );
        }
        let mut done: usize = 0;
        while done < len
            invariant
                done <= len == buf@.len() == old(buf)@.len(),
                offset + len <= self.size,
                forall|j: int| 0 <= j < done ==> self.holds(#[trigger] (offset + j)) && buf@[j]
                    == self.byte(offset + j),
            decreases len - done,
        {
            let at: u64 = offset + done as u64;
            if self.page_size == 0 {
                assert(!self.holds(at as int));
                return Err(Error::Incomplete);
            }
            let page = match self.held.get(&(at / self.page_size)) {
                Some(p) => p,
                None => {
                    assert(!self.holds(at as int));
                    return Err(Error::Incomplete);
                },
            };
            let number: u64 = at / self.page_size;
            let mut from: u64 = at % self.page_size;
            if from >= page.len() as u64 {
                assert(!self.holds(at as int));
                return Err(Error::Incomplete);
            }
            proof {
                lemma_fundamental_div_mod(at as int, self.page_size as int);
            }
            let ghost started = done;
            // Take as much of the page as the read wants.
            while done < len && from < self.page_size && from < page.len() as u64
                invariant
                    started <= done <= len == buf@.len() == old(buf)@.len(),
                    done > started || (from < self.page_size && from < page@.len() && done < len),
                    offset + len <= self.size,
                    self.page_size > 0,
                    self.held@.contains_key(number),
                    self.held@[number] == *page,
                    offset + done == self.page_size * number + from,
                    forall|j: int|
                        0 <= j < done ==> self.holds(#[trigger] (offset + j)) && buf@[j]
                            == self.byte(offset + j),
                decreases len - done,
            {
                proof {
                    let (i, p) = (offset + done, self.page_size as int);
                    assert(p * number == number * p) by (nonlinear_arith);
                    lemma_fundamental_div_mod_converse(i, p, number as int, from as int);
                    assert(self.holds(offset + done));
                }
                buf[done] = page[from as usize];
                done = done + 1;
                from = from + 1;
            }
        }
        proof {
            assert forall|i: int| offset <= i < offset + len implies #[trigger] self.holds(i) by {
                let j = i - offset;
                assert(self.holds(offset + j));
            }
            assert(buf@ =~= self.image().bytes.subrange(offset as int, offset + len)) by {
                assert forall|j: int| 0 <= j < len implies buf@[j] == self.image().bytes.subrange(
                    offset as int,
                    offset + len,
                )[j] by {
                    assert(self.holds(offset + j));
                }
            }
        }
        Ok(())
    }
}

/// A read over pages never gives wrong bytes: where every page in memory is what
/// the file holds there, whatever a read gives is what the file holds.
pub proof fn a_read_never_gives_wrong_bytes(pages: Pages, file: Seq<u8>, offset: int, len: int)
    requires
        file.len() == pages.size,
        0 <= offset,
        0 <= len,
        forall|i: int| 0 <= i < file.len() && #[trigger] pages.holds(i) ==> pages.byte(i) == file[i],
    ensures
        pages.fetched(offset, len) matches Ok(bytes) ==> bytes == file.subrange(
            offset,
            offset + len,
        ),
{
    if let Ok(bytes) = pages.fetched(offset, len) {
        assert forall|j: int| 0 <= j < len implies bytes[j] == file[offset + j] by {
            assert(pages.holds(offset + j));
        }
        assert(bytes =~= file.subrange(offset, offset + len));
    }
}

/// A page that is not in memory is among those that are absent.
proof fn lemma_absent(pages: Pages, number: int, end: int, page: int)
    requires
        number <= page < end,
        0 <= number,
        end <= u64::MAX + 1,
        !pages.held@.contains_key(page as u64),
    ensures
        pages.absent(number, end).contains(page as u64),
    decreases end - number,
{
    let rest = pages.absent(number + 1, end);
    if number == page {
        let all = seq![number as u64] + rest;
        assert(all[0] == page as u64);
    } else {
        lemma_absent(pages, number + 1, end, page);
        let k = choose|k: int| 0 <= k < rest.len() && rest[k] == page as u64;
        if !pages.held@.contains_key(number as u64) {
            let all = seq![number as u64] + rest;
            assert(all[k + 1] == page as u64);
        }
    }
}

/// A read that finds a page gone names it as missing, so fetching what is
/// missing always brings the next attempt further.
pub proof fn a_refused_read_names_the_page_it_lacks(pages: Pages, offset: int, len: int, i: int)
    requires
        pages.page_size > 0,
        0 <= offset <= i < offset + len <= pages.size,
        !pages.held@.contains_key(pages.page_of(i)),
    ensures
        pages.fetched(offset, len) is Err,
        pages.absent(offset / pages.page_size as int, pages.end_page(offset, len)).contains(
            pages.page_of(i),
        ),
{
    let p = pages.page_size as int;
    assert(!pages.holds(i));
    let last = offset + len - 1;
    lemma_div_is_ordered(offset, i, p);
    lemma_div_is_ordered(i, last, p);
    lemma_fundamental_div_mod(i, p);
    lemma_fundamental_div_mod(last, p);
    lemma_fundamental_div_mod(offset, p);
    let q = i / p;
    assert(0 <= q <= i && 0 <= offset / p && last / p <= last) by (nonlinear_arith)
        requires
            i == p * q + i % p,
            0 <= i % p < p,
            0 <= i,
            last == p * (last / p) + last % p,
            0 <= last % p < p,
            0 <= last,
            offset == p * (offset / p) + offset % p,
            0 <= offset % p < p,
            0 <= offset,
            p > 0,
    ;
    lemma_absent(pages, offset / p, pages.end_page(offset, len), q);
}

} // verus!
