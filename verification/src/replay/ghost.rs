use vstd::prelude::*;

verus! {

/// Ghost data for comparing the current play against a previous attempt: the judge
/// level of each note.
#[derive(Debug, Clone)]
pub struct GhostData {
    /// Judge level per note (0=PG, 1=GR, 2=GD, 3=BD, 4=PR, 5=MS).
    data: Vec<u8>,
    /// Total number of notes in the chart.
    total_notes: usize,
}

/// EX score contribution of a judge level: 2 for PG, 1 for GR, 0 otherwise.
pub open spec fn ex_of(judge: u8) -> int {
    if judge == 0 {
        2
    } else if judge == 1 {
        1
    } else {
        0
    }
}

/// EX score of the first `n` judges of a sequence.
pub open spec fn ex_sum(judges: Seq<u8>, n: int) -> int
    decreases n,
{
    if n <= 0 || judges.len() == 0 {
        0
    } else {
        ex_sum(judges, n - 1) + ex_of(judges[n - 1])
    }
}

proof fn lemma_ex_sum_bound(judges: Seq<u8>, n: int)
    requires
        0 <= n,
    ensures
        0 <= ex_sum(judges, n) <= 2 * n,
        ex_sum(judges, n) <= ex_sum(judges, n + 1),
    decreases n,
{
    if n > 0 {
        lemma_ex_sum_bound(judges, n - 1);
    }
}

/// The smaller of two integers.
pub open spec fn min(a: int, b: int) -> int {
    if a < b {
        a
    } else {
        b
    }
}

impl GhostData {
    /// The judge levels of the ghost.
    pub closed spec fn judges(&self) -> Seq<u8> {
        self.data@
    }

    /// The note count the ghost was made for.
    pub closed spec fn notes(&self) -> nat {
        self.total_notes as nat
    }

    /// Create a ghost from recorded data.
    pub fn new(data: Vec<u8>, total_notes: usize) -> (r: Self)
        ensures
            r.judges() == data@,
            r.notes() == total_notes,
    {
        GhostData { data, total_notes }
    }

    /// Create a ghost of all poor (4) judges.
    pub fn empty(total_notes: usize) -> (r: Self)
        ensures
            r.judges() == Seq::new(total_notes as nat, |i: int| 4u8),
            r.notes() == total_notes,
    {
        let mut data: Vec<u8> = Vec::new();
        let mut i: usize = 0;
        while i < total_notes
            invariant
                i <= total_notes,
                data@ == Seq::new(i as nat, |k: int| 4u8),
            decreases total_notes - i,
        {
            data.push(4);
            i = i + 1;
        }
        GhostData { data, total_notes }
    }

    /// The judge level of a note, if the ghost has one.
    pub fn judge_at(&self, index: usize) -> (r: Option<u8>)
        ensures
            index < self.judges().len() ==> r == Some(self.judges()[index as int]),
            index >= self.judges().len() ==> r is None,
    {
        if index < self.data.len() {
            Some(self.data[index])
        } else {
            None
        }
    }

    /// The ghost data.
    pub fn data(&self) -> (r: &[u8])
        ensures
            r@ == self.judges(),
    {
        self.data.as_slice()
    }

    /// Total number of notes.
    pub fn total_notes(&self) -> (r: usize)
        ensures
            r == self.notes(),
    {
        self.total_notes
    }

    /// EX score difference between the current play and the ghost over the first
    /// `up_to` notes (as far as both have judges).
    pub fn exscore_diff(&self, current_ghost: &[u8], up_to: usize) -> (r: i32)
        requires
            2 * min(min(up_to as int, self.judges().len() as int), current_ghost@.len() as int)
                <= i32::MAX,
        ensures
            r == ex_difference(self.judges(), current_ghost@, up_to as int),
    {
        let mut limit = up_to;
        if self.data.len() < limit {
            limit = self.data.len();
        }
        if current_ghost.len() < limit {
            limit = current_ghost.len();
        }
        let mut current_ex: i32 = 0;
        let mut ghost_ex: i32 = 0;
        let mut i: usize = 0;
        while i < limit
            invariant
                limit <= self.data@.len(),
                limit <= current_ghost@.len(),
                2 * limit <= i32::MAX,
                i <= limit,
                current_ex == ex_sum(current_ghost@, i as int),
                ghost_ex == ex_sum(self.data@, i as int),
                0 <= current_ex <= 2 * i,
                0 <= ghost_ex <= 2 * i,
            decreases limit - i,
        {
            proof {
                lemma_ex_sum_bound(current_ghost@, i as int);
                lemma_ex_sum_bound(self.data@, i as int);
            }
            current_ex = current_ex + judge_to_exscore(current_ghost[i]);
            ghost_ex = ghost_ex + judge_to_exscore(self.data[i]);
            i = i + 1;
        }
        current_ex - ghost_ex
    }
}

/// Convert a judge level to its EX score contribution.
pub fn judge_to_exscore(judge: u8) -> (r: i32)
    ensures
        r == ex_of(judge),
{
    match judge {
        0 => 2,
        1 => 1,
        _ => 0,
    }
}

/// The EX score of `other` minus that of `own` over the first `up_to` judges, as far as
/// both have judges.
pub open spec fn ex_difference(own: Seq<u8>, other: Seq<u8>, up_to: int) -> int {
    let limit = min(min(up_to, own.len() as int), other.len() as int);
    ex_sum(other, limit) - ex_sum(own, limit)
}

/// The EX difference is antisymmetric, and zero against the same judges.
pub proof fn lemma_ex_difference_antisymmetric(a: Seq<u8>, b: Seq<u8>, up_to: int)
    ensures
        ex_difference(a, b, up_to) == -ex_difference(b, a, up_to),
        ex_difference(a, a, up_to) == 0,
{
}

} // verus!
