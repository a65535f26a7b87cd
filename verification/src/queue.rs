//! Requests for static files and the priority queue that orders them:
//! the request with the highest priority is served first.
use vstd::prelude::*;

verus! {

/// A queued request for a static file: who asked (the peer's address as
/// text, which also finds the peer's connection again), which file, and the
/// priority of the request.
#[derive(PartialEq, Eq, Debug)]
pub struct HttpRequest {
    pub peer_name: Vec<u8>,
    pub path: Vec<u8>,
    pub priority: u64,
}

/// The mathematical value of a request.
pub struct RequestView {
    pub peer_name: Seq<u8>,
    pub path: Seq<u8>,
    pub priority: u64,
}

impl View for HttpRequest {
    type V = RequestView;

    open spec fn view(&self) -> RequestView {
        RequestView { peer_name: self.peer_name@, path: self.path@, priority: self.priority }
    }
}

impl HttpRequest {
    /// Requests are ordered by priority alone: `self` comes before `other`
    /// in the order when its priority is lower.
    pub fn lt(&self, other: &HttpRequest) -> (r: bool)
        ensures
            r == (self.priority < other.priority),
    {
        self.priority < other.priority
    }
}

/// The index of the request that leaves the queue next: the first among
/// those of highest priority.
pub open spec fn first_max_index(q: Seq<RequestView>) -> int
    decreases q.len(),
{
    if q.len() <= 1 {
        0
    } else {
        let k = first_max_index(q.drop_last());
        if q[k].priority < q.last().priority {
            q.len() - 1
        } else {
            k
        }
    }
}

/// `k` is the first index of highest priority in `q`.
pub open spec fn is_first_max(q: Seq<RequestView>, k: int) -> bool {
    &&& 0 <= k < q.len()
    &&& forall|j: int| 0 <= j < q.len() ==> (#[trigger] q[j]).priority <= q[k].priority
    &&& forall|j: int| 0 <= j < k ==> (#[trigger] q[j]).priority < q[k].priority
}

/// For a non-empty queue, `first_max_index` is the first index of highest priority.
pub proof fn lemma_first_max_index(q: Seq<RequestView>)
    requires
        q.len() > 0,
    ensures
        is_first_max(q, first_max_index(q)),
    decreases q.len(),
{
    if q.len() > 1 {
        let p = q.drop_last();
        lemma_first_max_index(p);
        assert forall|j: int| 0 <= j < q.len() - 1 implies (#[trigger] q[j]) == p[j] by {}
    }
}

/// The queue of pending requests, served highest priority first.
pub struct RequestQueue {
    items: Vec<HttpRequest>,
}

impl View for RequestQueue {
    type V = Seq<RequestView>;

    closed spec fn view(&self) -> Seq<RequestView> {
        self.items@.map_values(|r: HttpRequest| r@)
    }
}

impl RequestQueue {
    /// An empty queue.
    pub fn new() -> (q: RequestQueue)
        ensures
            q@ == Seq::<RequestView>::empty(),
    {
        let q = RequestQueue { items: Vec::new() };
        assert(q@ =~= Seq::<RequestView>::empty());
        q
    }

    /// The number of requests waiting.
    pub fn len(&self) -> (n: usize)
        ensures
            n == self@.len(),
    {
        self.items.len()
    }

    /// Adds a request to the queue.
    pub fn push(&mut self, req: HttpRequest)
        ensures
            final(self)@ == old(self)@.push(req@),
    {
        let ghost before = self.items@;
        self.items.push(req);
        assert(self.items@.map_values(|r: HttpRequest| r@) =~= before.map_values(
            |r: HttpRequest| r@,
        ).push(req@));
    }

    /// Removes and returns a request of highest priority (the one queued
    /// first among equals); `None` when the queue is empty.
    pub fn maybe_pop(&mut self) -> (r: Option<HttpRequest>)
        ensures
            match r {
                None => old(self)@.len() == 0 && final(self)@ == old(self)@,
                Some(req) => {
                    &&& old(self)@.len() > 0
                    &&& req@ == old(self)@[first_max_index(old(self)@)]
                    &&& final(self)@ == old(self)@.remove(first_max_index(old(self)@))
                },
            },
    {
        let n = self.items.len();
        if n == 0 {
            return None;
        }
        let ghost q = self@;
        let mut best: usize = 0;
        let mut i: usize = 1;
        while i < n
            invariant
                n == self.items@.len(),
                q == self@,
                q.len() == n,
                1 <= i <= n,
                best < i,
                best == first_max_index(q.subrange(0, i as int)),
            decreases n - i,
        {
            proof {
                let s = q.subrange(0, i + 1);
                assert(s.drop_last() =~= q.subrange(0, i as int));
                assert(s[best as int] == q[best as int]);
                assert(s.last() == q[i as int]);
                assert(self.items@[i as int]@ == q[i as int]);
                assert(self.items@[best as int]@ == q[best as int]);
            }
            if self.items[best].priority < self.items[i].priority {
                best = i;
            }
            i = i + 1;
        }
        assert(q.subrange(0, n as int) =~= q);
        let ghost before = self.items@;
        let req = self.items.remove(best);
        assert(self.items@.map_values(|r: HttpRequest| r@) =~= before.map_values(
            |r: HttpRequest| r@,
        ).remove(best as int));
        Some(req)
    }
}

/// The request that leaves the queue next has the highest priority of all
/// requests in the queue.
pub proof fn law_pop_yields_highest_priority(q: Seq<RequestView>, j: int)
    requires
        0 <= j < q.len(),
    ensures
        q[j].priority <= q[first_max_index(q)].priority,
{
    lemma_first_max_index(q);
}

/// Two requests taken one after the other, with nothing queued in between,
/// come out in order of non-increasing priority.
pub proof fn law_successive_pops_nonincreasing(q: Seq<RequestView>)
    requires
        q.len() >= 2,
    ensures
        ({
            let k1 = first_max_index(q);
            let rest = q.remove(k1);
            rest[first_max_index(rest)].priority <= q[k1].priority
        }),
{
    let k1 = first_max_index(q);
    lemma_first_max_index(q);
    let rest = q.remove(k1);
    lemma_first_max_index(rest);
    let k2 = first_max_index(rest);
    if k2 < k1 {
        assert(rest[k2] == q[k2]);
    } else {
        assert(rest[k2] == q[k2 + 1]);
    }
}

/// Among requests of equal priority, the one queued first leaves first.
pub proof fn law_fifo_among_equals(q: Seq<RequestView>, j: int)
    requires
        0 <= j < q.len(),
        q[j].priority == q[first_max_index(q)].priority,
    ensures
        first_max_index(q) <= j,
{
    lemma_first_max_index(q);
}

/// A request queued with a priority above all waiting requests is the
/// next one to leave the queue.
pub proof fn law_push_highest_is_next(q: Seq<RequestView>, r: RequestView)
    requires
        forall|j: int| 0 <= j < q.len() ==> (#[trigger] q[j]).priority < r.priority,
    ensures
        first_max_index(q.push(r)) == q.len(),
        q.push(r)[first_max_index(q.push(r))] == r,
{
    let p = q.push(r);
    assert(p.drop_last() =~= q);
    if q.len() > 0 {
        lemma_first_max_index(q);
    }
}

} // verus!
