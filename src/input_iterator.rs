//! Reads spooled inputs out of a byte window over the spool, one per line,
//! and keeps the counts that the ETA is computed from.

use vstd::prelude::*;

use crate::text::{push_text, u64_decimal, decimal, push_char};

verus! {

broadcast use vstd::string::group_string_axioms;

/// The size of the byte window that the spool is read through.
pub const BUFFER_SIZE: usize = 8192;

/// The newline byte that ends each spooled input.
pub open spec fn newline() -> u8 {
    10u8
}

/// The bytes of a spool that holds `records`, each followed by a newline.
pub open spec fn spool_bytes(records: Seq<Seq<u8>>) -> Seq<u8>
    decreases records.len(),
{
    if records.len() == 0 {
        Seq::empty()
    } else {
        records[0].push(newline()) + spool_bytes(records.drop_first())
    }
}

/// Whether `b` holds no newline.
pub open spec fn no_newline(b: Seq<u8>) -> bool {
    forall|i: int| 0 <= i < b.len() ==> #[trigger] b[i] != newline()
}

/// The text of a byte sequence decoded as UTF-8, each invalid sequence
/// replaced by U+FFFD.
pub uninterp spec fn lossy_utf8(b: Seq<u8>) -> Seq<char>;

/// Relies on `String::from_utf8_lossy`: decodes the bytes as UTF-8 with
/// replacement characters.
#[verifier::external_body]
fn decode_lossy(bytes: &[u8]) -> (r: String)
    ensures
        r@ == lossy_utf8(bytes@),
{
    String::from_utf8_lossy(bytes).into_owned()
}

/// Relies on `time::precise_time_ns`: a monotonic clock reading in nanoseconds.
#[verifier::external_body]
fn precise_time_ns() -> (r: u64) {
    time::precise_time_ns()
}

/// Appending one record to a spool appends its bytes and a newline.
pub proof fn lemma_spool_bytes_push(records: Seq<Seq<u8>>, r: Seq<u8>)
    ensures
        spool_bytes(records.push(r)) == spool_bytes(records) + r.push(newline()),
    decreases records.len(),
{
    if records.len() == 0 {
        assert(records.push(r).drop_first() =~= Seq::<Seq<u8>>::empty());
        assert(records.push(r)[0] == r);
        assert(spool_bytes(Seq::<Seq<u8>>::empty()) == Seq::<u8>::empty());
        assert(r.push(newline()) + Seq::<u8>::empty() =~= r.push(newline()));
        assert(spool_bytes(records.push(r)) =~= r.push(newline()));
        assert(spool_bytes(records) =~= Seq::<u8>::empty());
    } else {
        lemma_spool_bytes_push(records.drop_first(), r);
        assert(records.push(r).drop_first() =~= records.drop_first().push(r));
        assert(spool_bytes(records.push(r)) =~= spool_bytes(records) + r.push(newline()));
    }
}

/// The estimated time to completion of the remaining inputs.
#[allow(clippy::upper_case_acronyms)]
pub struct ETA {
    pub left: u64,
    pub time: u64,
    pub average: u64,
}

/// The two-digit rendering of `n`, which is below one hundred.
pub open spec fn two_digits(n: nat) -> Seq<char> {
    if n < 10 {
        seq!['0'] + decimal(n)
    } else {
        decimal(n)
    }
}

/// The ETA line: whole seconds left, inputs left, the average job time in
/// seconds with hundredths, and the completed count.
pub open spec fn eta_line(left: nat, time: nat, average: nat, completed: nat) -> Seq<char> {
    seq!['E', 'T', 'A', ':', ' '] + decimal(time / 1_000_000_000) + seq!['s', ' ', 'L', 'e', 'f', 't', ':', ' ']
        + decimal(left) + seq![' ', 'A', 'V', 'G', ':', ' '] + decimal(average / 1_000_000_000)
        + seq!['.'] + two_digits((average % 1_000_000_000) / 10_000_000) + seq![
        's',
        ' ',
        'C',
        'o',
        'm',
        'p',
        'l',
        'e',
        't',
        'e',
        'd',
        ':',
        ' ',
    ] + decimal(completed) + seq!['\n']
}

impl ETA {
    /// The line that reports this estimate with `completed` jobs done.
    pub fn line(&self, completed: usize) -> (r: String)
        ensures
            r@ == eta_line(self.left as nat, self.time as nat, self.average as nat, completed as nat),
    {
        let mut out = String::new();
        let a = "ETA: ";
        let b = "s Left: ";
        let c = " AVG: ";
        let d = "s Completed: ";
        proof {
            reveal_strlit("ETA: ");
            reveal_strlit("s Left: ");
            reveal_strlit(" AVG: ");
            reveal_strlit("s Completed: ");
        }
        push_text(&mut out, a);
        let secs = u64_decimal(self.time / 1_000_000_000);
        push_text(&mut out, secs.as_str());
        push_text(&mut out, b);
        let left = u64_decimal(self.left);
        push_text(&mut out, left.as_str());
        push_text(&mut out, c);
        let avg = u64_decimal(self.average / 1_000_000_000);
        push_text(&mut out, avg.as_str());
        push_char(&mut out, '.');
        let hundredths = (self.average % 1_000_000_000) / 10_000_000;
        if hundredths < 10 {
            push_char(&mut out, '0');
        }
        let h = u64_decimal(hundredths);
        push_text(&mut out, h.as_str());
        push_text(&mut out, d);
        let done = u64_decimal(completed as u64);
        push_text(&mut out, done.as_str());
        push_char(&mut out, '\n');
        assert(a@ =~= seq!['E', 'T', 'A', ':', ' ']);
        assert(b@ =~= seq!['s', ' ', 'L', 'e', 'f', 't', ':', ' ']);
        assert(c@ =~= seq![' ', 'A', 'V', 'G', ':', ' ']);
        assert(d@ =~= seq!['s', ' ', 'C', 'o', 'm', 'p', 'l', 'e', 't', 'e', 'd', ':', ' ']);
        assert(out@ =~= eta_line(self.left as nat, self.time as nat, self.average as nat, completed as nat));
        out
    }
}


/// The positions of the newlines in `data`, in order.
pub fn count_arguments(data: &Vec<u8>) -> (r: Vec<usize>)
    ensures
        forall|k: int| 0 <= k < r.len() ==> #[trigger] r@[k] < data.len() && data@[r@[k] as int] == newline(),
        forall|k: int, l: int| 0 <= k < l < r.len() ==> r@[k] < r@[l],
        forall|j: int| 0 <= j < data.len() && data@[j] == newline() ==> exists|k: int| 0 <= k < r.len() && r@[k] == j,
{
    let mut r: Vec<usize> = Vec::new();
    let mut i: usize = 0;
    while i < data.len()
        invariant
            i <= data.len(),
            forall|k: int| 0 <= k < r.len() ==> #[trigger] r@[k] < i && data@[r@[k] as int] == newline(),
            forall|k: int, l: int| 0 <= k < l < r.len() ==> r@[k] < r@[l],
            forall|j: int| 0 <= j < i && data@[j] == newline() ==> exists|k: int| 0 <= k < r.len() && r@[k] == j,
        decreases data.len() - i,
    {
        let ghost before = r@;
        if data[i] == 10u8 {
            r.push(i);
            assert(r@[r.len() - 1] == i);
        }
        assert forall|j: int| 0 <= j < i + 1 && data@[j] == newline() implies exists|k: int|
            0 <= k < r.len() && r@[k] == j by {
            if j == i {
                assert(r@[r.len() - 1] == j);
            } else {
                let k = choose|k: int| 0 <= k < before.len() && before[k] == j;
                assert(r@[k] == j);
            }
        }
        i += 1;
    }
    r
}

/// What the next call of [`InputIterator::next_value`] found.
#[derive(Clone, Copy, Debug, PartialEq, Eq, Structural)]
pub enum Fetch {
    /// The next input was written to the buffer.
    Input,
    /// The window holds no whole input: more of the spool must be read in.
    NeedsData,
    /// Every input has been handed out.
    Exhausted,
}

/// The window over the spool: the bytes read in, where the next input
/// starts, and the positions of the newlines not yet reached.
pub struct InputBuffer {
    index: usize,
    start: usize,
    data: Vec<u8>,
    indices: Vec<usize>,
}

impl InputBuffer {
    /// The newlines from `start` on are exactly `indices[index..]`, in order.
    pub closed spec fn wf(&self) -> bool {
        &&& self.start <= self.data.len()
        &&& self.index <= self.indices.len()
        &&& forall|k: int|
            self.index <= k < self.indices.len() ==> self.start <= #[trigger] self.indices@[k]
                < self.data.len() && self.data@[self.indices@[k] as int] == newline()
        &&& forall|k: int, l: int|
            self.index <= k < l < self.indices.len() ==> self.indices@[k] < self.indices@[l]
        &&& forall|j: int|
            self.start <= j < self.data.len() && self.data@[j] == newline() ==> exists|k: int|
                self.index <= k < self.indices.len() && self.indices@[k] == j
    }

    /// The bytes not yet handed out.
    pub closed spec fn unread(&self) -> Seq<u8> {
        self.data@.skip(self.start as int)
    }

    /// Whether the window holds a whole input not yet handed out.
    pub closed spec fn has_line(&self) -> bool {
        self.index < self.indices.len()
    }

    /// Takes the first bytes of the spool as the window.
    pub fn new(bytes: &[u8]) -> (r: InputBuffer)
        ensures
            r.wf(),
            r.unread() == bytes@,
    {
        let data = vstd::slice::slice_to_vec(bytes);
        let indices = count_arguments(&data);
        let r = InputBuffer { index: 0, start: 0, data, indices };
        assert(r.data@.skip(0) =~= bytes@);
        r
    }
}

/// The average job time after `completed` completions: unchanged before the
/// first, the time since the start after it, and the time since the start
/// divided by the completions after that.
pub open spec fn next_average(average: u64, start: u64, completed: usize, now: u64) -> u64 {
    let elapsed: u64 = if now >= start { (now - start) as u64 } else { 0 };
    if completed == 0 {
        average
    } else if completed == 1 {
        elapsed
    } else {
        (elapsed as int / completed as int) as u64
    }
}

/// The average job time after a clock reading of `now`, as [`next_average`] says.
fn updated_average(average: u64, start: u64, completed: usize, now: u64) -> (r: u64)
    ensures
        r == next_average(average, start, completed, now),
{
    let elapsed = if now >= start { now - start } else { 0 };
    if completed == 0 {
        average
    } else if completed == 1 {
        elapsed
    } else {
        elapsed / completed as u64
    }
}

/// The `InputIterator` tracks the total number of arguments, the current
/// argument counter, and owns the window through which the spool is read.
pub struct InputIterator {
    pub total_arguments: usize,
    pub curr_argument: usize,
    pub completed: usize,
    start_time: u64,
    average_time: u64,
    input_buffer: InputBuffer,
    fed: Ghost<Seq<u8>>,
    yielded: Ghost<Seq<Seq<u8>>>,
}

impl InputIterator {
    /// The iterator's window is well formed, what was read in is the inputs
    /// handed out followed by the bytes not yet handed out, and the counts
    /// are in order.
    pub closed spec fn wf(&self) -> bool {
        &&& self.input_buffer.wf()
        &&& self.fed@ == spool_bytes(self.yielded@) + self.input_buffer.unread()
        &&& self.yielded@.len() == self.curr_argument
        &&& self.completed <= self.curr_argument <= self.total_arguments
        &&& forall|i: int| 0 <= i < self.yielded@.len() ==> no_newline(#[trigger] self.yielded@[i])
    }

    /// The number of inputs in the spool.
    pub closed spec fn total(&self) -> usize {
        self.total_arguments
    }

    /// The number of inputs handed out.
    pub closed spec fn current(&self) -> usize {
        self.curr_argument
    }

    /// The number of jobs completed.
    pub closed spec fn done(&self) -> usize {
        self.completed
    }

    /// Every byte of the spool read in so far.
    pub closed spec fn fed(&self) -> Seq<u8> {
        self.fed@
    }

    /// The inputs handed out so far, as bytes.
    pub closed spec fn yielded(&self) -> Seq<Seq<u8>> {
        self.yielded@
    }

    /// Whether the window holds a whole input not yet handed out.
    pub closed spec fn has_line(&self) -> bool {
        self.input_buffer.has_line()
    }

    /// The running average job time in nanoseconds.
    pub closed spec fn average(&self) -> u64 {
        self.average_time
    }

    /// The clock reading at which the iterator was made.
    pub closed spec fn started(&self) -> u64 {
        self.start_time
    }

    /// An iterator over `args` inputs whose spool starts with `bytes`.
    pub fn new(bytes: &[u8], args: usize) -> (r: InputIterator)
        ensures
            r.wf(),
            r.fed() == bytes@,
            r.yielded().len() == 0,
            r.total() == args,
            r.current() == 0,
            r.done() == 0,
            r.average() == 0,
    {
        let input_buffer = InputBuffer::new(bytes);
        let r = InputIterator {
            total_arguments: args,
            curr_argument: 0,
            completed: 0,
            start_time: precise_time_ns(),
            average_time: 0,
            input_buffer,
            fed: Ghost(bytes@),
            yielded: Ghost(Seq::empty()),
        };
        assert(spool_bytes(Seq::<Seq<u8>>::empty()) + bytes@ =~= bytes@);
        r
    }

    /// Reads the next bytes of the spool into the window, after the bytes
    /// not yet handed out.
    pub fn buffer(&mut self, bytes: &[u8])
        requires
            old(self).wf(),
        ensures
            final(self).wf(),
            final(self).fed() == old(self).fed() + bytes@,
            final(self).yielded() == old(self).yielded(),
            final(self).total() == old(self).total(),
            final(self).current() == old(self).current(),
            final(self).done() == old(self).done(),
            final(self).average() == old(self).average(),
            final(self).started() == old(self).started(),
    {
        let start = self.input_buffer.start;
        let mut data: Vec<u8> = Vec::new();
        let mut i = start;
        let ghost old_data = self.input_buffer.data@;
        while i < self.input_buffer.data.len()
            invariant
                start <= i <= self.input_buffer.data.len(),
                old_data == self.input_buffer.data@,
                data@ == old_data.subrange(start as int, i as int),
            decreases self.input_buffer.data.len() - i,
        {
            data.push(self.input_buffer.data[i]);
            assert(data@ =~= old_data.subrange(start as int, i + 1));
            i += 1;
        }
        let mut k: usize = 0;
        let ghost kept = data@;
        while k < bytes.len()
            invariant
                k <= bytes@.len(),
                data@ == kept + bytes@.take(k as int),
            decreases bytes@.len() - k,
        {
            data.push(bytes[k]);
            assert(data@ =~= kept + bytes@.take(k + 1));
            k += 1;
        }
        assert(bytes@.take(k as int) =~= bytes@);
        assert(kept =~= old_data.skip(start as int));
        let indices = count_arguments(&data);
        self.input_buffer = InputBuffer { index: 0, start: 0, data, indices };
        self.fed = Ghost(self.fed@ + bytes@);
        assert(self.input_buffer.data@.skip(0) =~= kept + bytes@);
        assert(self.input_buffer.wf());
        assert(spool_bytes(self.yielded@) + (kept + bytes@) =~= (spool_bytes(self.yielded@) + kept) + bytes@);
    }

    /// Records a completed job.
    pub fn mark_completed(&mut self)
        requires
            old(self).wf(),
            old(self).done() < old(self).current(),
        ensures
            final(self).wf(),
            final(self).done() == old(self).done() + 1,
            final(self).current() == old(self).current(),
            final(self).total() == old(self).total(),
            final(self).fed() == old(self).fed(),
            final(self).yielded() == old(self).yielded(),
            final(self).average() == old(self).average(),
            final(self).started() == old(self).started(),
    {
        self.completed += 1;
    }

    /// The estimate of the time left: the inputs not yet completed times the
    /// average job time (saturating at the largest `u64`).
    pub fn eta(&self) -> (r: ETA)
        requires
            self.wf(),
        ensures
            r.left == self.total() - self.done(),
            r.average == self.average(),
            r.time as int == if r.left * r.average <= u64::MAX { r.left * r.average } else { u64::MAX as int },
    {
        let left = self.total_arguments as u64 - self.completed as u64;
        let time = match left.checked_mul(self.average_time) {
            Some(t) => t,
            None => u64::MAX,
        };
        ETA { left, time, average: self.average_time }
    }

    /// Writes the next input to `buffer`, and updates the average job time.
    /// Reports `NeedsData` where the window holds no whole input, and
    /// `Exhausted` once every input has been handed out.
    pub fn next_value(&mut self, buffer: &mut String) -> (r: Fetch)
        requires
            old(self).wf(),
        ensures
            final(self).wf(),
            final(self).total() == old(self).total(),
            final(self).done() == old(self).done(),
            final(self).fed() == old(self).fed(),
            final(self).started() == old(self).started(),
            old(self).current() == old(self).total() ==> r == Fetch::Exhausted,
            old(self).current() < old(self).total() && !old(self).has_line() ==> r == Fetch::NeedsData,
            old(self).current() < old(self).total() && old(self).has_line() ==> r == Fetch::Input,
            r != Fetch::Input ==> *final(buffer) == *old(buffer) && final(self).yielded() == old(self).yielded()
                && final(self).current() == old(self).current()
                && final(self).average() == old(self).average() && final(self).has_line() == old(self).has_line(),
            r == Fetch::Input ==> final(self).current() == old(self).current() + 1
                && final(self).yielded().len() == old(self).yielded().len() + 1
                && final(self).yielded().drop_last() == old(self).yielded()
                && final(buffer)@ == lossy_utf8(final(self).yielded().last())
                && exists|now: u64| final(self).average() == next_average(old(self).average(), old(self).started(), old(self).done(), now),
    {
        if self.curr_argument == self.total_arguments {
            return Fetch::Exhausted;
        }
        if self.input_buffer.index >= self.input_buffer.indices.len() {
            return Fetch::NeedsData;
        }
        let start = self.input_buffer.start;
        let end = self.input_buffer.indices[self.input_buffer.index];
        let ghost old_buf = self.input_buffer;
        let ghost record = self.input_buffer.data@.subrange(start as int, end as int);
        proof {
            assert forall|j: int| 0 <= j < record.len() implies #[trigger] record[j] != newline() by {
                let p = start + j;
                if self.input_buffer.data@[p] == newline() {
                    let k = choose|k: int| old_buf.index <= k < old_buf.indices.len() && old_buf.indices@[k] == p;
                    if k > old_buf.index {
                        assert(old_buf.indices@[old_buf.index as int] < old_buf.indices@[k]);
                    }
                }
            }
            let unread = self.input_buffer.data@.skip(start as int);
            assert(unread =~= record.push(newline()) + self.input_buffer.data@.skip(end + 1));
            lemma_spool_bytes_push(self.yielded@, record);
        }
        let text = decode_lossy(vstd::slice::slice_subrange(self.input_buffer.data.as_slice(), start, end));
        *buffer = text;
        let now = precise_time_ns();
        self.average_time = updated_average(self.average_time, self.start_time, self.completed, now);
        self.curr_argument += 1;
        self.input_buffer.index += 1;
        self.input_buffer.start = end + 1;
        self.yielded = Ghost(self.yielded@.push(record));
        proof {
            let b = self.input_buffer;
            assert forall|j: int| b.start <= j < b.data.len() && b.data@[j] == newline() implies exists|k: int|
                b.index <= k < b.indices.len() && b.indices@[k] == j by {
                assert(old_buf.start <= j);
                assert(old_buf.data@[j] == newline());
                let k = choose|k: int| old_buf.index <= k < old_buf.indices.len() && old_buf.indices@[k] == j;
                assert(k != old_buf.index);
                assert(b.indices@[k] == j);
                assert(b.index <= k < b.indices.len());
            }
            assert forall|k: int| b.index <= k < b.indices.len() implies b.start <= #[trigger] b.indices@[k]
                < b.data.len() && b.data@[b.indices@[k] as int] == newline() by {
                assert(old_buf.indices@[old_buf.index as int] < old_buf.indices@[k]);
            }
            assert(b.wf());
            assert(self.yielded@.drop_last() =~= old(self).yielded@);
            assert(self.yielded@.last() == record);
            assert(buffer@ == lossy_utf8(record));
            assert(self.average_time == next_average(old(self).average_time, old(self).start_time, old(self).completed, now));
            assert(self.input_buffer.unread() =~= old_buf.data@.skip(end + 1));
            let rest = old_buf.data@.skip(end + 1);
            assert(spool_bytes(old(self).yielded@) + (record.push(newline()) + rest) =~= (spool_bytes(
                old(self).yielded@,
            ) + record.push(newline())) + rest);
            assert(self.fed@ == spool_bytes(self.yielded@) + self.input_buffer.unread());
            assert(self.average() == next_average(old(self).average(), old(self).started(), old(self).done(), now));
            assert forall|i: int| 0 <= i < self.yielded@.len() implies no_newline(#[trigger] self.yielded@[i]) by {
                if i < self.yielded@.len() - 1 {
                    assert(self.yielded@[i] == old(self).yielded@[i]);
                }
            }
        }
        Fetch::Input
    }
}


/// Splitting the bytes of a spool at its newlines gives back its records:
/// where the spool of `yielded` followed by newline-free `rest` is the spool
/// of `records`, `yielded` is `records` and nothing is left.
pub proof fn lemma_spool_split(records: Seq<Seq<u8>>, yielded: Seq<Seq<u8>>, rest: Seq<u8>)
    requires
        forall|i: int| 0 <= i < records.len() ==> no_newline(#[trigger] records[i]),
        forall|i: int| 0 <= i < yielded.len() ==> no_newline(#[trigger] yielded[i]),
        no_newline(rest),
        spool_bytes(yielded) + rest == spool_bytes(records),
    ensures
        yielded == records,
        rest.len() == 0,
    decreases records.len(),
{
    let lhs = spool_bytes(yielded) + rest;
    if yielded.len() == 0 {
        assert(lhs =~= rest);
        if records.len() > 0 {
            let r0 = records[0];
            assert(spool_bytes(records)[r0.len() as int] == newline());
            assert(rest[r0.len() as int] == newline());
        }
        assert(records =~= yielded);
    } else {
        let y0 = yielded[0];
        assert(lhs[y0.len() as int] == newline());
        if records.len() == 0 {
            assert(spool_bytes(records).len() == 0);
            assert(lhs.len() > y0.len());
        } else {
            let r0 = records[0];
            assert(spool_bytes(records)[r0.len() as int] == newline());
            if y0.len() < r0.len() {
                assert(spool_bytes(records)[y0.len() as int] == r0[y0.len() as int]);
                assert(false);
            } else if r0.len() < y0.len() {
                assert(lhs[r0.len() as int] == y0[r0.len() as int]);
                assert(false);
            }
            assert(y0 =~= r0) by {
                assert forall|i: int| 0 <= i < y0.len() implies y0[i] == r0[i] by {
                    assert(lhs[i] == y0[i]);
                    assert(spool_bytes(records)[i] == r0[i]);
                }
            }
            let n = y0.len() + 1;
            assert(spool_bytes(yielded.drop_first()) + rest =~= lhs.skip(n as int));
            assert(spool_bytes(records.drop_first()) =~= spool_bytes(records).skip(n as int));
            lemma_spool_split(records.drop_first(), yielded.drop_first(), rest);
            assert(yielded =~= seq![y0] + yielded.drop_first());
            assert(records =~= seq![r0] + records.drop_first());
        }
    }
}

/// A reader that has read in the whole spool of `records` (no record holding
/// a newline) and finds no further whole input in its window has handed out
/// exactly those records, as many as the spool holds.
pub proof fn lemma_reader_yields_spool(it: InputIterator, records: Seq<Seq<u8>>)
    requires
        it.wf(),
        it.fed() == spool_bytes(records),
        forall|i: int| 0 <= i < records.len() ==> no_newline(#[trigger] records[i]),
        !it.has_line(),
    ensures
        it.yielded() == records,
        it.current() == records.len(),
{
    let b = it.input_buffer;
    let rest = b.unread();
    assert forall|i: int| 0 <= i < rest.len() implies #[trigger] rest[i] != newline() by {
        if rest[i] == newline() {
            assert(b.data@[b.start + i] == newline());
        }
    }
    lemma_spool_split(records, it.yielded@, rest);
}

} // verus!
