//! The bookkeeping of a batched package: readers ask for files one at a
//! time and wait; a poll asks the underlying package for every file asked
//! for since the last poll, each once, and hands each waiting reader the
//! data of the file it asked for.
use vstd::prelude::*;

use crate::reference::{SqPackFileReference, SqPackReaderError};

verus! {

/// The files asked for and, for each, the tickets of the readers waiting on
/// it, in the order in which they asked.
pub type Waiting = Seq<(SqPackFileReference, Seq<u64>)>;

/// No file is listed twice.
pub open spec fn distinct_files(s: Waiting) -> bool {
    forall|i: int, j: int| 0 <= i < j < s.len() ==> #[trigger] s[i].0 != #[trigger] s[j].0
}

/// Whether `file` is listed.
pub open spec fn is_waited(s: Waiting, file: SqPackFileReference) -> bool {
    exists|i: int| 0 <= i < s.len() && #[trigger] s[i].0 == file
}

/// The list after a reader with `ticket` asks for `file`: the ticket joins
/// the readers of the file if it is listed, else the file is listed last
/// with that one reader.
pub open spec fn spec_wait(s: Waiting, file: SqPackFileReference, ticket: u64) -> Waiting {
    if is_waited(s, file) {
        Seq::new(s.len(), |j: int| if s[j].0 == file { (file, s[j].1.push(ticket)) } else { s[j] })
    } else {
        s.push((file, seq![ticket]))
    }
}

/// The data that a batch answer gives for `file`: that of its first entry
/// for the file, `None` when it has none.
pub open spec fn spec_lookup(results: Seq<(SqPackFileReference, Seq<u8>)>, file: SqPackFileReference) -> Option<Seq<u8>>
    decreases results.len(),
{
    if results.len() == 0 {
        None
    } else if results[0].0 == file {
        Some(results[0].1)
    } else {
        spec_lookup(results.subrange(1, results.len() as int), file)
    }
}

/// What each reader receives: for each listed file in order, each of its
/// tickets in order with the data of the file. `None` when the answer lacks
/// a listed file.
pub open spec fn spec_deliveries(s: Waiting, results: Seq<(SqPackFileReference, Seq<u8>)>) -> Option<
    Seq<(u64, Seq<u8>)>,
>
    decreases s.len(),
{
    if s.len() == 0 {
        Some(Seq::empty())
    } else {
        let last = s.last();
        match (spec_deliveries(s.drop_last(), results), spec_lookup(results, last.0)) {
            (Some(d), Some(v)) => Some(d + last.1.map_values(|t: u64| (t, v))),
            _ => None,
        }
    }
}

/// The view of a batch answer or of deliveries: its byte vectors as
/// sequences.
pub open spec fn results_view(r: Seq<(SqPackFileReference, Vec<u8>)>) -> Seq<(SqPackFileReference, Seq<u8>)> {
    r.map_values(|p: (SqPackFileReference, Vec<u8>)| (p.0, p.1@))
}

/// The view of deliveries.
pub open spec fn deliveries_view(r: Seq<(u64, Vec<u8>)>) -> Seq<(u64, Seq<u8>)> {
    r.map_values(|p: (u64, Vec<u8>)| (p.0, p.1@))
}

/// The readers waiting on a batched package.
pub struct BatchWaiters {
    entries: Vec<(SqPackFileReference, Vec<u64>)>,
}

impl View for BatchWaiters {
    type V = Waiting;

    closed spec fn view(&self) -> Waiting {
        self.entries@.map_values(|e: (SqPackFileReference, Vec<u64>)| (e.0, e.1@))
    }
}

impl BatchWaiters {
    /// No file is listed twice.
    pub closed spec fn wf(&self) -> bool {
        distinct_files(self@)
    }

    /// No reader waits.
    pub fn new() -> (r: Self)
        ensures
            r.wf(),
            r@ == Seq::<(SqPackFileReference, Seq<u64>)>::empty(),
    {
        let r = BatchWaiters { entries: Vec::new() };
        assert(r@ =~= Seq::<(SqPackFileReference, Seq<u64>)>::empty());
        r
    }

    /// Whether no reader waits.
    pub fn is_empty(&self) -> (r: bool)
        ensures
            r == (self@.len() == 0),
    {
        self.entries.len() == 0
    }

    /// A reader with `ticket` asks for `file`.
    pub fn wait(&mut self, file: SqPackFileReference, ticket: u64)
        requires
            old(self).wf(),
        ensures
            final(self).wf(),
            final(self)@ == spec_wait(old(self)@, file, ticket),
    {
        let ghost s = self@;
        let n = self.entries.len();
        let mut i: usize = 0;
        while i < n
            invariant
                n == self.entries@.len(),
                i <= n,
                s == self@,
                s == old(self)@,
                distinct_files(s),
                forall|k: int| 0 <= k < i ==> #[trigger] s[k].0 != file,
            decreases n - i,
        {
            if self.entries[i].0 == file {
                assert(s[i as int].0 == file);
                let ghost old_entries = self.entries@;
                let mut tickets = self.entries[i].1.clone();
                proof {
                    assert(tickets@ =~= s[i as int].1);
                }
                tickets.push(ticket);
                self.entries.set(i, (file, tickets));
                proof {
                    assert(is_waited(s, file));
                    assert forall|j: int| 0 <= j < s.len() implies #[trigger] self@[j] == (if s[j].0 == file {
                        (file, s[j].1.push(ticket))
                    } else {
                        s[j]
                    }) by {
                        if j != i {
                            assert(old_entries[j] == self.entries@[j]);
                            assert(s[j] == (old_entries[j].0, old_entries[j].1@));
                        } else {
                            assert(self.entries@[j] == (file, tickets));
                        }
                    }
                    assert(self@ =~= spec_wait(s, file, ticket));
                }
                return;
            }
            i += 1;
        }
        let mut tickets: Vec<u64> = Vec::new();
        tickets.push(ticket);
        self.entries.push((file, tickets));
        proof {
            assert(!is_waited(s, file));
            assert(tickets@ =~= seq![ticket]);
            assert(self@ =~= spec_wait(s, file, ticket));
        }
    }

    /// The first step of a poll: nothing to ask when no reader waits (the
    /// list stays as it is); else every waiting reader is handed over,
    /// leaving none, with the files to ask the underlying package for, each
    /// once, in the order in which they were first asked for.
    pub fn start_poll(&mut self) -> (r: Option<(BatchWaiters, Vec<SqPackFileReference>)>)
        requires
            old(self).wf(),
        ensures
            final(self).wf(),
            old(self)@.len() == 0 ==> r is None && final(self)@ == old(self)@,
            old(self)@.len() > 0 ==> (r matches Some((batch, files)) && {
                &&& batch.wf()
                &&& batch@ == old(self)@
                &&& files@ == old(self)@.map_values(|e: (SqPackFileReference, Seq<u64>)| e.0)
                &&& forall|i: int, j: int| 0 <= i < j < files@.len() ==> files@[i] != files@[j]
                &&& final(self)@ == Seq::<(SqPackFileReference, Seq<u64>)>::empty()
            }),
    {
        if self.is_empty() {
            return None;
        }
        let batch = self.take();
        let files = batch.references();
        Some((batch, files))
    }

    /// The last step of a poll, once the underlying package answered for
    /// the files of this batch: its error as it came, or what each waiting
    /// reader receives. The answer must hold every file of the batch.
    pub fn finish_poll(&self, answer: Result<Vec<(SqPackFileReference, Vec<u8>)>, SqPackReaderError>) -> (r: Result<
        Vec<(u64, Vec<u8>)>,
        SqPackReaderError,
    >)
        requires
            answer matches Ok(v) ==> spec_deliveries(self@, results_view(v@)) is Some,
        ensures
            match answer {
                Err(e) => r == Err::<Vec<(u64, Vec<u8>)>, SqPackReaderError>(e),
                Ok(v) => r matches Ok(d) && spec_deliveries(self@, results_view(v@)) == Some(
                    deliveries_view(d@),
                ),
            },
    {
        match answer {
            Err(e) => Err(e),
            Ok(results) => Ok(self.dispatch(results.as_slice()).unwrap()),
        }
    }

    /// Hands over every waiting reader, leaving none.
    pub fn take(&mut self) -> (r: BatchWaiters)
        requires
            old(self).wf(),
        ensures
            r.wf(),
            r@ == old(self)@,
            final(self).wf(),
            final(self)@ == Seq::<(SqPackFileReference, Seq<u64>)>::empty(),
    {
        let mut entries = Vec::new();
        std::mem::swap(&mut entries, &mut self.entries);
        proof {
            assert(self@ =~= Seq::<(SqPackFileReference, Seq<u64>)>::empty());
        }
        BatchWaiters { entries }
    }

    /// The files to ask the underlying package for, each once, in the order
    /// in which they were first asked for.
    pub fn references(&self) -> (r: Vec<SqPackFileReference>)
        requires
            self.wf(),
        ensures
            r@ == self@.map_values(|e: (SqPackFileReference, Seq<u64>)| e.0),
            forall|i: int, j: int| 0 <= i < j < r@.len() ==> r@[i] != r@[j],
    {
        let n = self.entries.len();
        let mut r: Vec<SqPackFileReference> = Vec::new();
        let mut i: usize = 0;
        while i < n
            invariant
                n == self.entries@.len(),
                i <= n,
                r@ == self@.subrange(0, i as int).map_values(|e: (SqPackFileReference, Seq<u64>)| e.0),
            decreases n - i,
        {
            r.push(self.entries[i].0);
            i += 1;
            proof {
                assert(r@ =~= self@.subrange(0, i as int).map_values(
                    |e: (SqPackFileReference, Seq<u64>)| e.0,
                ));
            }
        }
        proof {
            assert(self@.subrange(0, n as int) =~= self@);
            assert forall|i: int, j: int| 0 <= i < j < r@.len() implies r@[i] != r@[j] by {
                assert(r@[i] == self@[i].0 && r@[j] == self@[j].0);
            }
        }
        r
    }

    /// What each waiting reader receives from the answer `results` of the
    /// underlying package: `None` when the answer lacks a waited-for file.
    pub fn dispatch(&self, results: &[(SqPackFileReference, Vec<u8>)]) -> (r: Option<Vec<(u64, Vec<u8>)>>)
        ensures
            (match r {
                Some(v) => Some(deliveries_view(v@)),
                None => None,
            }) == spec_deliveries(self@, results_view(results@)),
    {
        let ghost rv = results_view(results@);
        let n = self.entries.len();
        let mut out: Vec<(u64, Vec<u8>)> = Vec::new();
        let mut i: usize = 0;
        while i < n
            invariant
                n == self.entries@.len(),
                i <= n,
                rv == results_view(results@),
                spec_deliveries(self@.subrange(0, i as int), rv) == Some(deliveries_view(out@)),
            decreases n - i,
        {
            let file = self.entries[i].0;
            let found = lookup(results, file);
            proof {
                assert(self@.subrange(0, i as int + 1).drop_last() =~= self@.subrange(0, i as int));
            }
            match found {
                None => {
                    proof {
                        lemma_deliveries_none_extends(self@, rv, i as int + 1);
                    }
                    return None;
                },
                Some(k) => {
                    let ghost before = deliveries_view(out@);
                    let tickets = &self.entries[i].1;
                    let m = tickets.len();
                    let mut j: usize = 0;
                    while j < m
                        invariant
                            m == tickets@.len(),
                            j <= m,
                            k < results@.len(),
                            tickets@ == self@[i as int].1,
                            deliveries_view(out@) == before + tickets@.subrange(0, j as int).map_values(
                                |t: u64| (t, results@[k as int].1@),
                            ),
                        decreases m - j,
                    {
                        let data = results[k].1.clone();
                        proof {
                            assert(data@ =~= results@[k as int].1@);
                        }
                        let ghost prev = out@;
                        out.push((tickets[j], data));
                        j += 1;
                        proof {
                            assert(deliveries_view(out@) =~= deliveries_view(prev).push(
                                (tickets@[j - 1], results@[k as int].1@),
                            ));
                            assert(tickets@.subrange(0, j as int) =~= tickets@.subrange(0, j - 1).push(
                                tickets@[j - 1],
                            ));
                            assert(deliveries_view(out@) =~= before + tickets@.subrange(0, j as int).map_values(
                                |t: u64| (t, results@[k as int].1@),
                            ));
                        }
                    }
                    i += 1;
                    proof {
                        assert(tickets@.subrange(0, m as int) =~= tickets@);
                        let s = self@.subrange(0, i as int);
                        assert(s.last() == self@[i - 1]);
                        assert(s.drop_last() =~= self@.subrange(0, i - 1));
                    }
                },
            }
        }
        proof {
            assert(self@.subrange(0, n as int) =~= self@);
        }
        Some(out)
    }
}

/// Where the answer holds `file`, the index of its first entry for it.
fn lookup(results: &[(SqPackFileReference, Vec<u8>)], file: SqPackFileReference) -> (r: Option<usize>)
    ensures
        match r {
            Some(k) => k < results@.len() && spec_lookup(results_view(results@), file) == Some(
                results@[k as int].1@,
            ),
            None => spec_lookup(results_view(results@), file) is None,
        },
{
    let n = results.len();
    let mut k: usize = 0;
    assert(results_view(results@).subrange(0, n as int) =~= results_view(results@));
    while k < n
        invariant
            n == results@.len(),
            k <= n,
            spec_lookup(results_view(results@), file) == spec_lookup(
                results_view(results@).subrange(k as int, n as int),
                file,
            ),
        decreases n - k,
    {
        let ghost rest = results_view(results@).subrange(k as int, n as int);
        proof {
            assert(rest.subrange(1, rest.len() as int) =~= results_view(results@).subrange(
                k + 1,
                n as int,
            ));
        }
        if results[k].0 == file {
            return Some(k);
        }
        k += 1;
    }
    None
}

/// Every reader waiting on a listed file receives the answer's data for
/// that file, whenever the answer lets a poll hand out data at all.
pub proof fn lemma_delivered(s: Waiting, results: Seq<(SqPackFileReference, Seq<u8>)>, i: int, k: int)
    requires
        0 <= i < s.len(),
        0 <= k < s[i].1.len(),
        spec_deliveries(s, results) is Some,
    ensures
        spec_lookup(results, s[i].0) is Some,
        spec_deliveries(s, results)->0.contains((s[i].1[k], spec_lookup(results, s[i].0)->0)),
    decreases s.len(),
{
    let d = spec_deliveries(s.drop_last(), results)->0;
    let v = spec_lookup(results, s.last().0)->0;
    let all = spec_deliveries(s, results)->0;
    assert(all == d + s.last().1.map_values(|t: u64| (t, v)));
    if i == s.len() - 1 {
        assert(all[d.len() + k] == (s[i].1[k], v));
    } else {
        assert(s.drop_last()[i] == s[i]);
        lemma_delivered(s.drop_last(), results, i, k);
        let x = (s[i].1[k], spec_lookup(results, s[i].0)->0);
        let idx = choose|idx: int| 0 <= idx < d.len() && d[idx] == x;
        assert(all[idx] == x);
    }
}

/// A reader who asked for a file receives the data that the answer of the
/// next poll gives for that file, whenever the answer lets the poll hand
/// out data at all.
pub proof fn lemma_waiter_served(
    s: Waiting,
    file: SqPackFileReference,
    ticket: u64,
    results: Seq<(SqPackFileReference, Seq<u8>)>,
)
    requires
        spec_deliveries(spec_wait(s, file, ticket), results) is Some,
    ensures
        spec_lookup(results, file) is Some,
        spec_deliveries(spec_wait(s, file, ticket), results)->0.contains(
            (ticket, spec_lookup(results, file)->0),
        ),
{
    let w = spec_wait(s, file, ticket);
    if is_waited(s, file) {
        let i = choose|i: int| 0 <= i < s.len() && #[trigger] s[i].0 == file;
        assert(w[i] == (file, s[i].1.push(ticket)));
        lemma_delivered(w, results, i, s[i].1.len() as int);
    } else {
        assert(w[s.len() as int] == (file, seq![ticket]));
        lemma_delivered(w, results, s.len() as int, 0);
    }
}

/// A poll hands out data exactly when the answer holds every listed file.
pub proof fn lemma_deliveries_some(s: Waiting, results: Seq<(SqPackFileReference, Seq<u8>)>)
    ensures
        spec_deliveries(s, results) is Some <==> forall|i: int|
            0 <= i < s.len() ==> (#[trigger] spec_lookup(results, s[i].0)) is Some,
    decreases s.len(),
{
    if s.len() > 0 {
        lemma_deliveries_some(s.drop_last(), results);
        assert forall|i: int| 0 <= i < s.len() - 1 implies #[trigger] s.drop_last()[i] == s[i] by {}
        if spec_deliveries(s, results) is Some {
            assert forall|i: int| 0 <= i < s.len() implies (#[trigger] spec_lookup(results, s[i].0)) is Some by {
                if i < s.len() - 1 {
                    assert(s.drop_last()[i] == s[i]);
                }
            }
        } else if spec_deliveries(s.drop_last(), results) is None {
            let j = choose|j: int| 0 <= j < s.len() - 1 && !(spec_lookup(results, s.drop_last()[j].0) is Some);
            assert(s.drop_last()[j] == s[j]);
        }
    }
}

/// Once a listed file lacks an answer, so does every longer list.
proof fn lemma_deliveries_none_extends(s: Waiting, results: Seq<(SqPackFileReference, Seq<u8>)>, i: int)
    requires
        0 < i <= s.len(),
        spec_lookup(results, s[i - 1].0) is None,
    ensures
        spec_deliveries(s, results) is None,
    decreases s.len(),
{
    if i < s.len() {
        assert(s.drop_last().len() == s.len() - 1);
        assert(s.drop_last()[i - 1] == s[i - 1]);
        lemma_deliveries_none_extends(s.drop_last(), results, i);
    } else {
        assert(s.last() == s[i - 1]);
    }
}

} // verus!
