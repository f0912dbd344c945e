//! A board of jobs: queues that clients put jobs into and take jobs from by
//! priority.
//!
//! A job waits in its queue until a client takes it; then that client is
//! working on it until it deletes the job, gives it back, or goes away,
//! which gives back all its jobs. A client that takes from several queues
//! gets the job of the highest priority in them; of jobs of the same
//! priority, the one in the queue whose name comes last in the order of the
//! bytes; and of such jobs in one queue, the one that has waited longest.
//! Anybody can delete any job.
use vstd::prelude::*;
use crate::bytemap::{copy_bytes, same_bytes};
use crate::text::{
    lemma_lex_chain, lemma_lex_irreflexive, lemma_lex_transitive, less, lex_less,
};

verus! {

/// A job.
pub struct Job<J> {
    /// The number that the board gave the job.
    pub id: u64,
    /// The priority; more is more urgent.
    pub pri: u64,
    /// The name of the queue that the job belongs to.
    pub queue: Vec<u8>,
    /// What the job is, which the board does not look into.
    pub job: J,
}

/// A job as a mathematical value.
pub struct JobView<J> {
    pub id: u64,
    pub pri: u64,
    pub queue: Seq<u8>,
    pub job: J,
}

impl<J> View for Job<J> {
    type V = JobView<J>;

    open spec fn view(&self) -> JobView<J> {
        JobView { id: self.id, pri: self.pri, queue: self.queue@, job: self.job }
    }
}

/// A board as a mathematical value.
pub struct BoardView<J> {
    /// The number of the next job.
    pub next_id: u64,
    /// The jobs that wait, in the order in which they came to wait.
    pub waiting: Seq<JobView<J>>,
    /// The jobs that are worked on, each with its client.
    pub working: Seq<(u64, JobView<J>)>,
}

/// Whether a job waits with this number.
pub open spec fn waits<J>(waiting: Seq<JobView<J>>, id: u64) -> bool {
    exists|i: int| 0 <= i < waiting.len() && (#[trigger] waiting[i]).id == id
}

/// The place of the job with this number among the waiting.
pub open spec fn waiting_at<J>(waiting: Seq<JobView<J>>, id: u64) -> int {
    choose|i: int| 0 <= i < waiting.len() && (#[trigger] waiting[i]).id == id
}

/// Whether a job with this number is worked on.
pub open spec fn works<J>(working: Seq<(u64, JobView<J>)>, id: u64) -> bool {
    exists|i: int| 0 <= i < working.len() && (#[trigger] working[i]).1.id == id
}

/// The place of the job with this number among those worked on.
pub open spec fn working_at<J>(working: Seq<(u64, JobView<J>)>, id: u64) -> int {
    choose|i: int| 0 <= i < working.len() && (#[trigger] working[i]).1.id == id
}

/// The invariant of a board: every job has a number of its own, below the
/// number of the next job.
pub open spec fn board_wf<J>(b: BoardView<J>) -> bool {
    &&& forall|i: int| 0 <= i < b.waiting.len() ==> (#[trigger] b.waiting[i]).id < b.next_id
    &&& forall|i: int| 0 <= i < b.working.len() ==> (#[trigger] b.working[i]).1.id < b.next_id
    &&& forall|i: int, j: int|
        0 <= i < b.waiting.len() && 0 <= j < b.waiting.len() && i != j ==> (
        #[trigger] b.waiting[i]).id != (#[trigger] b.waiting[j]).id
    &&& forall|i: int, j: int|
        0 <= i < b.working.len() && 0 <= j < b.working.len() && i != j ==> (
        #[trigger] b.working[i]).1.id != (#[trigger] b.working[j]).1.id
    &&& forall|i: int, j: int|
        0 <= i < b.waiting.len() && 0 <= j < b.working.len() ==> (#[trigger] b.waiting[i]).id != (
        #[trigger] b.working[j]).1.id
}

/// Whether job `a` goes before job `b`: it has the higher priority, or the
/// same priority and the queue whose name comes later.
pub open spec fn better<J>(a: JobView<J>, b: JobView<J>) -> bool {
    a.pri > b.pri || (a.pri == b.pri && lex_less(b.queue, a.queue))
}

/// Whether a job waits in one of the queues.
pub open spec fn in_queues<J>(job: JobView<J>, queues: Seq<Seq<u8>>) -> bool {
    queues.contains(job.queue)
}

/// Whether the job at place `i` is the one to take from the queues: no
/// job in them goes before it, and it goes before all those in them that
/// came to wait earlier.
pub open spec fn is_next<J>(waiting: Seq<JobView<J>>, queues: Seq<Seq<u8>>, i: int) -> bool {
    &&& 0 <= i < waiting.len()
    &&& in_queues(waiting[i], queues)
    &&& forall|j: int|
        0 <= j < waiting.len() && in_queues(#[trigger] waiting[j], queues) ==> !better(
            waiting[j],
            waiting[i],
        ) && (j < i ==> better(waiting[i], waiting[j]))
}

/// There is one job to take at most.
pub proof fn lemma_next_is_unique<J>(
    waiting: Seq<JobView<J>>,
    queues: Seq<Seq<u8>>,
    i: int,
    j: int,
)
    requires
        is_next(waiting, queues, i),
        is_next(waiting, queues, j),
    ensures
        i == j,
{
    if i < j {
        assert(in_queues(waiting[i], queues));
        assert(better(waiting[j], waiting[i]));
    } else if j < i {
        assert(in_queues(waiting[j], queues));
        assert(better(waiting[i], waiting[j]));
    }
}

/// The jobs that `client` is working on, in order.
pub open spec fn jobs_of<J>(working: Seq<(u64, JobView<J>)>, client: u64) -> Seq<JobView<J>>
    decreases working.len(),
{
    if working.len() == 0 {
        Seq::empty()
    } else if working.last().0 == client {
        jobs_of(working.drop_last(), client).push(working.last().1)
    } else {
        jobs_of(working.drop_last(), client)
    }
}

/// The jobs that others than `client` are working on, in order.
pub open spec fn jobs_of_others<J>(working: Seq<(u64, JobView<J>)>, client: u64) -> Seq<
    (u64, JobView<J>),
>
    decreases working.len(),
{
    if working.len() == 0 {
        Seq::empty()
    } else if working.last().0 == client {
        jobs_of_others(working.drop_last(), client)
    } else {
        jobs_of_others(working.drop_last(), client).push(working.last())
    }
}

/// The board.
pub struct Board<J> {
    next_id: u64,
    waiting: Vec<Job<J>>,
    working: Vec<(u64, Job<J>)>,
}

impl<J> View for Board<J> {
    type V = BoardView<J>;

    closed spec fn view(&self) -> BoardView<J> {
        BoardView {
            next_id: self.next_id,
            waiting: Seq::new(self.waiting@.len(), |i: int| self.waiting@[i]@),
            working: Seq::new(self.working@.len(), |i: int| (self.working@[i].0, self.working@[i].1@)),
        }
    }
}

/// Whether `name` is one of `queues`.
fn is_listed(queues: &Vec<Vec<u8>>, name: &[u8]) -> (r: bool)
    ensures
        r == Seq::new(queues@.len(), |i: int| queues@[i]@).contains(name@),
{
    let ghost names = Seq::new(queues@.len(), |i: int| queues@[i]@);
    let mut i: usize = 0;
    while i < queues.len()
        invariant
            i <= queues.len(),
            names == Seq::new(queues@.len(), |i: int| queues@[i]@),
            forall|j: int| 0 <= j < i ==> names[j] != name@,
        decreases queues.len() - i,
    {
        if same_bytes(queues[i].as_slice(), name) {
            assert(names[i as int] == name@);
            return true;
        }
        i += 1;
    }
    false
}

impl<J> Board<J> {
    /// The invariant of the board.
    pub open spec fn wf(&self) -> bool {
        board_wf(self@)
    }

    /// A board without jobs.
    pub fn new() -> (b: Self)
        ensures
            b.wf(),
            b@.next_id == 0,
            b@.waiting.len() == 0,
            b@.working.len() == 0,
    {
        Board { next_id: 0, waiting: Vec::new(), working: Vec::new() }
    }

    /// The number of jobs that wait.
    pub fn waiting_len(&self) -> (n: usize)
        ensures
            n == self@.waiting.len(),
    {
        self.waiting.len()
    }

    /// The number of jobs that are worked on.
    pub fn working_len(&self) -> (n: usize)
        ensures
            n == self@.working.len(),
    {
        self.working.len()
    }

    /// Puts a job into `queue` and gives its number. `None`, and no change,
    /// when the numbers have run out.
    pub fn put(&mut self, queue: &[u8], job: J, pri: u64) -> (r: Option<u64>)
        requires
            old(self).wf(),
        ensures
            final(self).wf(),
            match r {
                Some(id) => id == old(self)@.next_id && id < u64::MAX && final(self)@ == (BoardView {
                    next_id: (id + 1) as u64,
                    waiting: old(self)@.waiting.push(JobView { id, pri, queue: queue@, job }),
                    working: old(self)@.working,
                }),
                None => old(self)@.next_id == u64::MAX && final(self)@ == old(self)@,
            },
    {
        if self.next_id == u64::MAX {
            return None;
        }
        let id = self.next_id;
        self.waiting.push(Job { id, pri, queue: copy_bytes(queue), job });
        self.next_id = id + 1;
        proof {
            assert(self@.waiting =~= old(self)@.waiting.push(JobView { id, pri, queue: queue@, job }));
            assert(self@.working =~= old(self)@.working);
        }
        Some(id)
    }

    /// The place of the job to take from `queues`, if a job waits in them.
    fn next(&self, queues: &Vec<Vec<u8>>) -> (r: Option<usize>)
        ensures
            match r {
                Some(i) => is_next(
                    self@.waiting,
                    Seq::new(queues@.len(), |k: int| queues@[k]@),
                    i as int,
                ),
                None => forall|i: int|
                    0 <= i < self@.waiting.len() ==> !in_queues(
                        #[trigger] self@.waiting[i],
                        Seq::new(queues@.len(), |k: int| queues@[k]@),
                    ),
            },
    {
        let ghost names = Seq::new(queues@.len(), |k: int| queues@[k]@);
        let ghost waiting = self@.waiting;
        let mut best: Option<usize> = None;
        let mut i: usize = 0;
        while i < self.waiting.len()
            invariant
                i <= self.waiting.len(),
                names == Seq::new(queues@.len(), |k: int| queues@[k]@),
                waiting == self@.waiting,
                match best {
                    Some(b) => b < i && is_next(waiting.take(i as int), names, b as int),
                    None => forall|j: int| 0 <= j < i ==> !in_queues(#[trigger] waiting[j], names),
                },
            decreases self.waiting.len() - i,
        {
            let job = &self.waiting[i];
            assert(job@ == waiting[i as int]);
            let ghost head = waiting.take(i as int);
            let ghost more = waiting.take(i + 1);
            proof {
                assert(forall|j: int| 0 <= j < i ==> more[j] == head[j]);
            }
            if is_listed(queues, job.queue.as_slice()) {
                match best {
                    Some(b) => {
                        let held = &self.waiting[b];
                        assert(held@ == waiting[b as int]);
                        let goes_first = job.pri > held.pri || (job.pri == held.pri && less(
                            held.queue.as_slice(),
                            job.queue.as_slice(),
                        ));
                        if goes_first {
                            proof {
                                assert forall|j: int|
                                    0 <= j < more.len() && in_queues(
                                        #[trigger] more[j],
                                        names,
                                    ) implies !better(more[j], more[i as int]) && (j < i
                                    ==> better(more[i as int], more[j])) by {
                                    if j < i {
                                        assert(in_queues(head[j], names));
                                        assert(!better(head[j], head[b as int]));
                                        lemma_better_chain(
                                            more[i as int],
                                            head[b as int],
                                            head[j],
                                        );
                                        lemma_better_one_way(more[i as int], more[j]);
                                    } else {
                                        lemma_lex_irreflexive(more[j].queue);
                                    }
                                }
                            }
                            best = Some(i);
                        } else {
                            proof {
                                assert forall|j: int|
                                    0 <= j < more.len() && in_queues(
                                        #[trigger] more[j],
                                        names,
                                    ) implies !better(more[j], more[b as int]) && (j < b
                                    ==> better(more[b as int], more[j])) by {
                                    if j < i {
                                        assert(in_queues(head[j], names));
                                    }
                                }
                            }
                        }
                    },
                    None => {
                        proof {
                            assert forall|j: int|
                                0 <= j < more.len() && in_queues(
                                    #[trigger] more[j],
                                    names,
                                ) implies !better(more[j], more[i as int]) && (j < i ==> better(
                                more[i as int],
                                more[j],
                            )) by {
                                if j < i {
                                    assert(!in_queues(waiting[j], names));
                                } else {
                                    lemma_lex_irreflexive(more[j].queue);
                                }
                            }
                        }
                        best = Some(i);
                    },
                }
            } else {
                proof {
                    match best {
                        Some(b) => {
                            assert forall|j: int|
                                0 <= j < more.len() && in_queues(
                                    #[trigger] more[j],
                                    names,
                                ) implies !better(more[j], more[b as int]) && (j < b ==> better(
                                more[b as int],
                                more[j],
                            )) by {
                                if j < i {
                                    assert(in_queues(head[j], names));
                                }
                            }
                        },
                        None => {},
                    }
                }
            }
            i += 1;
        }
        proof {
            assert(waiting.take(self.waiting.len() as int) == waiting);
        }
        best
    }
}

/// The number of the job at a place of a board, the waiting jobs counted
/// first.
pub open spec fn id_at<J>(b: BoardView<J>, k: int) -> u64 {
    if k < b.waiting.len() {
        b.waiting[k].id
    } else {
        b.working[k - b.waiting.len()].1.id
    }
}

/// The invariant of a board, said over the places of all its jobs.
pub open spec fn ids_distinct<J>(b: BoardView<J>) -> bool {
    let n = b.waiting.len() + b.working.len();
    &&& forall|k: int| 0 <= k < n ==> #[trigger] id_at(b, k) < b.next_id
    &&& forall|k: int, l: int|
        0 <= k < n && 0 <= l < n && k != l ==> #[trigger] id_at(b, k) != #[trigger] id_at(b, l)
}

/// The two ways to say the invariant say the same.
pub proof fn lemma_ids_distinct<J>(b: BoardView<J>)
    ensures
        board_wf(b) == ids_distinct(b),
{
    let n = b.waiting.len() + b.working.len();
    let w = b.waiting.len() as int;
    if board_wf(b) {
        assert forall|k: int, l: int| 0 <= k < n && 0 <= l < n && k != l implies #[trigger] id_at(
            b,
            k,
        ) != #[trigger] id_at(b, l) by {
            if k < w && l < w {
                assert(b.waiting[k].id != b.waiting[l].id);
            } else if k >= w && l >= w {
                assert(b.working[k - w].1.id != b.working[l - w].1.id);
            } else if k < w {
                assert(b.waiting[k].id != b.working[l - w].1.id);
            } else {
                assert(b.waiting[l].id != b.working[k - w].1.id);
            }
        }
        assert forall|k: int| 0 <= k < n implies #[trigger] id_at(b, k) < b.next_id by {
            if k < w {
                assert(b.waiting[k].id < b.next_id);
            } else {
                assert(b.working[k - w].1.id < b.next_id);
            }
        }
    }
    if ids_distinct(b) {
        assert forall|i: int| 0 <= i < b.waiting.len() implies (#[trigger] b.waiting[i]).id
            < b.next_id by {
            assert(id_at(b, i) < b.next_id);
        }
        assert forall|i: int| 0 <= i < b.working.len() implies (#[trigger] b.working[i]).1.id
            < b.next_id by {
            assert(id_at(b, i + w) < b.next_id);
        }
        assert forall|i: int, j: int|
            0 <= i < b.waiting.len() && 0 <= j < b.waiting.len() && i != j implies (
        #[trigger] b.waiting[i]).id != (#[trigger] b.waiting[j]).id by {
            assert(id_at(b, i) != id_at(b, j));
        }
        assert forall|i: int, j: int|
            0 <= i < b.working.len() && 0 <= j < b.working.len() && i != j implies (
        #[trigger] b.working[i]).1.id != (#[trigger] b.working[j]).1.id by {
            assert(id_at(b, i + w) != id_at(b, j + w));
        }
        assert forall|i: int, j: int|
            0 <= i < b.waiting.len() && 0 <= j < b.working.len() implies (
        #[trigger] b.waiting[i]).id != (#[trigger] b.working[j]).1.id by {
            assert(id_at(b, i) != id_at(b, j + w));
        }
    }
}

/// A board whose jobs are jobs of a well-formed board, each from a place of
/// its own, is well formed.
pub proof fn lemma_wf_by_places<J>(b: BoardView<J>, after: BoardView<J>, place: spec_fn(int) -> int)
    requires
        board_wf(b),
        after.next_id == b.next_id,
        forall|k: int|
            0 <= k < after.waiting.len() + after.working.len() ==> 0 <= #[trigger] place(k)
                < b.waiting.len() + b.working.len() && id_at(after, k) == id_at(b, place(k)),
        forall|k: int, l: int|
            0 <= k < after.waiting.len() + after.working.len() && 0 <= l < after.waiting.len()
                + after.working.len() && k != l ==> #[trigger] place(k) != #[trigger] place(l),
    ensures
        board_wf(after),
{
    lemma_ids_distinct(b);
    lemma_ids_distinct(after);
    let n = after.waiting.len() + after.working.len();
    assert forall|k: int| 0 <= k < n implies #[trigger] id_at(after, k) < after.next_id by {
        assert(id_at(b, place(k)) < b.next_id);
    }
    assert forall|k: int, l: int| 0 <= k < n && 0 <= l < n && k != l implies #[trigger] id_at(
        after,
        k,
    ) != #[trigger] id_at(after, l) by {
        assert(place(k) != place(l));
        assert(id_at(b, place(k)) != id_at(b, place(l)));
    }
}

/// A board stays well formed when a waiting job goes to a client.
pub proof fn lemma_take_wf<J>(b: BoardView<J>, i: int, client: u64)
    requires
        board_wf(b),
        0 <= i < b.waiting.len(),
    ensures
        board_wf(
            BoardView {
                next_id: b.next_id,
                waiting: b.waiting.remove(i),
                working: b.working.push((client, b.waiting[i])),
            },
        ),
{
    let after = BoardView {
        next_id: b.next_id,
        waiting: b.waiting.remove(i),
        working: b.working.push((client, b.waiting[i])),
    };
    let n = b.waiting.len() + b.working.len();
    lemma_wf_by_places(
        b,
        after,
        |k: int|
            if k < i {
                k
            } else if k < n - 1 {
                k + 1
            } else {
                i
            },
    );
}

/// A board stays well formed when a job that is worked on goes back to
/// wait.
pub proof fn lemma_give_back_wf<J>(b: BoardView<J>, i: int)
    requires
        board_wf(b),
        0 <= i < b.working.len(),
    ensures
        board_wf(
            BoardView {
                next_id: b.next_id,
                waiting: b.waiting.push(b.working[i].1),
                working: b.working.remove(i),
            },
        ),
{
    let after = BoardView {
        next_id: b.next_id,
        waiting: b.waiting.push(b.working[i].1),
        working: b.working.remove(i),
    };
    let w = b.waiting.len() as int;
    lemma_wf_by_places(
        b,
        after,
        |k: int|
            if k < w {
                k
            } else if k == w {
                w + i
            } else if k - w - 1 < i {
                k - 1
            } else {
                k
            },
    );
}

/// A board stays well formed when a waiting job leaves it.
pub proof fn lemma_drop_waiting_wf<J>(b: BoardView<J>, i: int)
    requires
        board_wf(b),
        0 <= i < b.waiting.len(),
    ensures
        board_wf(
            BoardView { next_id: b.next_id, waiting: b.waiting.remove(i), working: b.working },
        ),
{
    let after = BoardView { next_id: b.next_id, waiting: b.waiting.remove(i), working: b.working };
    lemma_wf_by_places(
        b,
        after,
        |k: int|
            if k < i {
                k
            } else {
                k + 1
            },
    );
}

/// A board stays well formed when a job that is worked on leaves it.
pub proof fn lemma_drop_working_wf<J>(b: BoardView<J>, i: int)
    requires
        board_wf(b),
        0 <= i < b.working.len(),
    ensures
        board_wf(
            BoardView { next_id: b.next_id, waiting: b.waiting, working: b.working.remove(i) },
        ),
{
    let after = BoardView { next_id: b.next_id, waiting: b.waiting, working: b.working.remove(i) };
    let w = b.waiting.len() as int;
    lemma_wf_by_places(
        b,
        after,
        |k: int|
            if k < w + i {
                k
            } else {
                k + 1
            },
    );
}

/// Of two jobs only one goes before the other.
pub proof fn lemma_better_one_way<J>(a: JobView<J>, b: JobView<J>)
    requires
        better(a, b),
    ensures
        !better(b, a),
{
    if a.pri == b.pri && lex_less(a.queue, b.queue) {
        lemma_lex_transitive(a.queue, b.queue, a.queue);
        lemma_lex_irreflexive(a.queue);
    }
}

impl<J> Board<J> {
    /// The place of the waiting job `id`, if it waits.
    fn find_waiting(&self, id: u64) -> (r: Option<usize>)
        requires
            self.wf(),
        ensures
            match r {
                Some(i) => waits(self@.waiting, id) && i == waiting_at(self@.waiting, id) && i
                    < self.waiting.len(),
                None => !waits(self@.waiting, id),
            },
    {
        let mut i: usize = 0;
        while i < self.waiting.len()
            invariant
                self.wf(),
                i <= self.waiting.len(),
                forall|j: int| 0 <= j < i ==> (#[trigger] self@.waiting[j]).id != id,
            decreases self.waiting.len() - i,
        {
            if self.waiting[i].id == id {
                assert(self@.waiting[i as int].id == id);
                assert(self@.waiting[waiting_at(self@.waiting, id)].id == id);
                return Some(i);
            }
            i += 1;
        }
        None
    }

    /// The place of the job `id` among those worked on, if it is worked
    /// on.
    fn find_working(&self, id: u64) -> (r: Option<usize>)
        requires
            self.wf(),
        ensures
            match r {
                Some(i) => works(self@.working, id) && i == working_at(self@.working, id) && i
                    < self.working.len(),
                None => !works(self@.working, id),
            },
    {
        let mut i: usize = 0;
        while i < self.working.len()
            invariant
                self.wf(),
                i <= self.working.len(),
                forall|j: int| 0 <= j < i ==> (#[trigger] self@.working[j]).1.id != id,
            decreases self.working.len() - i,
        {
            if self.working[i].1.id == id {
                assert(self@.working[i as int].1.id == id);
                assert(self@.working[working_at(self@.working, id)].1.id == id);
                return Some(i);
            }
            i += 1;
        }
        None
    }

    /// Gives `client` the job to take from `queues` and gives its number.
    /// `None`, and no change, when no job waits in them.
    pub fn get(&mut self, client: u64, queues: &Vec<Vec<u8>>) -> (r: Option<u64>)
        requires
            old(self).wf(),
        ensures
            final(self).wf(),
            match r {
                Some(id) => exists|i: int|
                    #![trigger old(self)@.waiting[i]]
                    is_next(old(self)@.waiting, Seq::new(queues@.len(), |k: int| queues@[k]@), i)
                        && old(self)@.waiting[i].id == id && final(self)@ == (BoardView {
                        next_id: old(self)@.next_id,
                        waiting: old(self)@.waiting.remove(i),
                        working: old(self)@.working.push((client, old(self)@.waiting[i])),
                    }),
                None => final(self)@ == old(self)@ && forall|i: int|
                    0 <= i < old(self)@.waiting.len() ==> !in_queues(
                        #[trigger] old(self)@.waiting[i],
                        Seq::new(queues@.len(), |k: int| queues@[k]@),
                    ),
            },
    {
        match self.next(queues) {
            Some(i) => {
                proof {
                    lemma_take_wf(self@, i as int, client);
                }
                let job = self.waiting.remove(i);
                let id = job.id;
                self.working.push((client, job));
                proof {
                    let after = BoardView {
                        next_id: old(self)@.next_id,
                        waiting: old(self)@.waiting.remove(i as int),
                        working: old(self)@.working.push((client, old(self)@.waiting[i as int])),
                    };
                    assert(self@.waiting =~= after.waiting);
                    assert(self@.working =~= after.working);
                    assert(self@ == after);
                }
                Some(id)
            },
            None => None,
        }
    }

    /// The job `id`, if `client` is working on it.
    pub fn held(&self, client: u64, id: u64) -> (r: Option<&Job<J>>)
        requires
            self.wf(),
        ensures
            match r {
                Some(job) => works(self@.working, id) && self@.working[working_at(
                    self@.working,
                    id,
                )] == (client, job@),
                None => !works(self@.working, id) || self@.working[working_at(
                    self@.working,
                    id,
                )].0 != client,
            },
    {
        match self.find_working(id) {
            Some(i) => {
                if self.working[i].0 == client {
                    Some(&self.working[i].1)
                } else {
                    None
                }
            },
            None => None,
        }
    }

    /// Deletes the job `id`, whether it waits or is worked on. Gives
    /// whether there was such a job.
    pub fn delete(&mut self, id: u64) -> (r: bool)
        requires
            old(self).wf(),
        ensures
            final(self).wf(),
            r == (waits(old(self)@.waiting, id) || works(old(self)@.working, id)),
            final(self)@.next_id == old(self)@.next_id,
            final(self)@.waiting == if waits(old(self)@.waiting, id) {
                old(self)@.waiting.remove(waiting_at(old(self)@.waiting, id))
            } else {
                old(self)@.waiting
            },
            final(self)@.working == if works(old(self)@.working, id) {
                old(self)@.working.remove(working_at(old(self)@.working, id))
            } else {
                old(self)@.working
            },
    {
        match self.find_waiting(id) {
            Some(i) => {
                proof {
                    lemma_drop_waiting_wf(self@, i as int);
                    if works(self@.working, id) {
                        assert(self@.working[working_at(self@.working, id)].1.id == id);
                        assert(self@.waiting[i as int].id == id);
                    }
                }
                self.waiting.remove(i);
                proof {
                    assert(self@.waiting =~= old(self)@.waiting.remove(i as int));
                    assert(self@.working =~= old(self)@.working);
                }
                true
            },
            None => match self.find_working(id) {
                Some(i) => {
                    proof {
                        lemma_drop_working_wf(self@, i as int);
                    }
                    self.working.remove(i);
                    proof {
                        assert(self@.waiting =~= old(self)@.waiting);
                        assert(self@.working =~= old(self)@.working.remove(i as int));
                    }
                    true
                },
                None => false,
            },
        }
    }

    /// Gives the job `id` back to its queue, if `client` is working on it.
    /// Gives whether it was.
    pub fn abort(&mut self, client: u64, id: u64) -> (r: bool)
        requires
            old(self).wf(),
        ensures
            final(self).wf(),
            r == (works(old(self)@.working, id) && old(self)@.working[working_at(
                old(self)@.working,
                id,
            )].0 == client),
            r ==> final(self)@ == (BoardView {
                next_id: old(self)@.next_id,
                waiting: old(self)@.waiting.push(
                    old(self)@.working[working_at(old(self)@.working, id)].1,
                ),
                working: old(self)@.working.remove(working_at(old(self)@.working, id)),
            }),
            !r ==> final(self)@ == old(self)@,
    {
        match self.find_working(id) {
            Some(i) => {
                if self.working[i].0 == client {
                    self.give_back(i);
                    true
                } else {
                    false
                }
            },
            None => false,
        }
    }

    /// Moves the job at place `i` of those worked on to the end of the
    /// waiting.
    fn give_back(&mut self, i: usize)
        requires
            old(self).wf(),
            i < old(self)@.working.len(),
        ensures
            final(self).wf(),
            final(self)@ == (BoardView {
                next_id: old(self)@.next_id,
                waiting: old(self)@.waiting.push(old(self)@.working[i as int].1),
                working: old(self)@.working.remove(i as int),
            }),
    {
        proof {
            lemma_give_back_wf(self@, i as int);
        }
        let (_, job) = self.working.remove(i);
        self.waiting.push(job);
        proof {
            assert(self@.waiting =~= old(self)@.waiting.push(old(self)@.working[i as int].1));
            assert(self@.working =~= old(self)@.working.remove(i as int));
        }
    }

    /// Gives back all the jobs that `client` is working on, in the order
    /// in which it took them.
    pub fn disconnect(&mut self, client: u64)
        requires
            old(self).wf(),
        ensures
            final(self).wf(),
            final(self)@ == (BoardView {
                next_id: old(self)@.next_id,
                waiting: old(self)@.waiting + jobs_of(old(self)@.working, client),
                working: jobs_of_others(old(self)@.working, client),
            }),
    {
        let ghost before = self@;
        let mut i: usize = 0;
        let ghost mut seen: int = 0;
        proof {
            assert(before.working.take(0) == Seq::<(u64, JobView<J>)>::empty());
            assert(before.working.skip(0) == before.working);
            assert(self@.waiting == before.waiting + jobs_of(before.working.take(0), client));
            assert(self@.working == jobs_of_others(before.working.take(0), client)
                + before.working.skip(0));
        }
        while i < self.working.len()
            invariant
                self.wf(),
                before == old(self)@,
                self@.next_id == before.next_id,
                0 <= seen <= before.working.len(),
                i == jobs_of_others(before.working.take(seen), client).len(),
                self@.waiting == before.waiting + jobs_of(before.working.take(seen), client),
                self@.working == jobs_of_others(before.working.take(seen), client)
                    + before.working.skip(seen),
            decreases before.working.len() - seen,
        {
            let ghost kept = jobs_of_others(before.working.take(seen), client);
            let ghost given = jobs_of(before.working.take(seen), client);
            proof {
                assert(self@.working.len() == kept.len() + before.working.len() - seen);
                assert(seen < before.working.len());
                assert(self@.working[i as int] == before.working.skip(seen)[0]);
                assert(before.working.take(seen + 1).drop_last() == before.working.take(seen));
                assert(before.working.take(seen + 1).last() == before.working[seen]);
            }
            if self.working[i].0 == client {
                self.give_back(i);
                proof {
                    assert(self@.waiting == before.waiting + given.push(before.working[seen].1));
                    assert(self@.working =~= kept + before.working.skip(seen + 1));
                }
            } else {
                proof {
                    assert(self@.working =~= kept.push(before.working[seen]) + before.working.skip(
                        seen + 1,
                    ));
                }
                i += 1;
            }
            proof {
                seen = seen + 1;
            }
        }
        proof {
            assert(self@.working.len() == i + before.working.len() - seen);
            assert(before.working.take(seen) == before.working);
            assert(self@.working =~= jobs_of_others(before.working, client));
        }
    }
}

/// Where `a` goes before `b`, and `c` does not go before `b`, `a` goes
/// before `c`.
pub proof fn lemma_better_chain<J>(a: JobView<J>, b: JobView<J>, c: JobView<J>)
    requires
        better(a, b),
        !better(c, b),
    ensures
        better(a, c),
{
    if a.pri == b.pri && b.pri == c.pri {
        // c.queue is not after b.queue, and b.queue is before a.queue.
        lemma_lex_chain(c.queue, b.queue, a.queue);
    }
}

} // verus!
