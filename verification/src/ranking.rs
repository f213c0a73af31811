//! Scores and the order they put candidates in: higher score first, and
//! among equal scores the lower publisher id first.

use vstd::prelude::*;

verus! {

/// A preference score. It stands for the number
/// `value() / 2^65`: `half` counts halves of a point, `jitter / 2^64` is a
/// fraction in `[0, 1)` that weighs three points.
#[derive(Clone, Copy, Debug, PartialEq, Eq, Structural)]
pub struct Score {
    pub half: i128,
    pub jitter: u64,
}

/// A candidate together with its score.
#[derive(Clone, Copy, Debug, PartialEq, Eq, Structural)]
pub struct Ranked {
    pub id: i64,
    pub score: Score,
}

impl Score {
    /// The score as an integer, in units of `2^-65` points.
    pub open spec fn value(self) -> int {
        self.half * 0x1_0000_0000_0000_0000 + 6 * self.jitter
    }

    /// Whether this score is strictly higher than `other`.
    #[verifier::rlimit(60)]
    pub fn exceeds(&self, other: &Score) -> (r: bool)
        ensures
            r == (self.value() > other.value()),
    {
        match self.half.checked_sub(other.half) {
            None => self.half > other.half,
            Some(d) => {
                if d >= 6 {
                    true
                } else if d <= -6 {
                    false
                } else {
                    let mine: i128 = d * 0x1_0000_0000_0000_0000 + 6 * (self.jitter as i128);
                    mine > 6 * (other.jitter as i128)
                }
            },
        }
    }
}

impl Ranked {
    /// Whether `self` is ranked before `other`: by higher score, then by
    /// lower id.
    pub open spec fn outranks(self, other: Ranked) -> bool {
        self.score.value() > other.score.value() || (self.score.value() == other.score.value()
            && self.id < other.id)
    }

    /// Whether `self` is taken before `other`. With `lowest` the order is
    /// turned round, so that the last in rank is taken first.
    pub open spec fn precedes(self, other: Ranked, lowest: bool) -> bool {
        if lowest {
            other.outranks(self)
        } else {
            self.outranks(other)
        }
    }

    /// Whether `self` is ranked before `other`.
    pub fn ranks_before(&self, other: &Ranked) -> (r: bool)
        ensures
            r == self.outranks(*other),
    {
        if self.score.exceeds(&other.score) {
            true
        } else if other.score.exceeds(&self.score) {
            false
        } else {
            self.id < other.id
        }
    }

    /// Whether `self` is taken before `other` in the chosen direction.
    pub fn goes_before(&self, other: &Ranked, lowest: bool) -> (r: bool)
        ensures
            r == self.precedes(*other, lowest),
    {
        if lowest {
            other.ranks_before(self)
        } else {
            self.ranks_before(other)
        }
    }
}

/// The ids of the entries, in their order.
pub open spec fn ids_of(entries: Seq<Ranked>) -> Seq<i64> {
    entries.map_values(|e: Ranked| e.id)
}

/// The position of the entry that is taken first: the earliest one that no
/// other entry precedes. 0 for an empty sequence.
pub open spec fn first_choice(entries: Seq<Ranked>, lowest: bool) -> int
    decreases entries.len(),
{
    if entries.len() <= 1 {
        0
    } else {
        let j = first_choice(entries.drop_last(), lowest);
        if entries.last().precedes(entries[j], lowest) {
            entries.len() - 1
        } else {
            j
        }
    }
}

/// The ids of the first `k` entries in the order of choice (all of them if
/// there are fewer): the first choice, then the first choice of the rest, and
/// so on.
pub open spec fn leading(entries: Seq<Ranked>, k: nat, lowest: bool) -> Seq<i64>
    decreases k,
{
    if k == 0 || entries.len() == 0 {
        Seq::empty()
    } else {
        let i = first_choice(entries, lowest);
        seq![entries[i].id] + leading(entries.remove(i), (k - 1) as nat, lowest)
    }
}

/// The first choice lies within the sequence.
pub proof fn lemma_first_choice_in_range(entries: Seq<Ranked>, lowest: bool)
    requires
        entries.len() > 0,
    ensures
        0 <= first_choice(entries, lowest) < entries.len(),
    decreases entries.len(),
{
    if entries.len() > 1 {
        lemma_first_choice_in_range(entries.drop_last(), lowest);
    }
}

/// No entry precedes the first choice, and the first choice precedes every
/// entry but those of its own id and score.
pub proof fn lemma_first_choice_leads(entries: Seq<Ranked>, lowest: bool, k: int)
    requires
        0 <= k < entries.len(),
    ensures
        !entries[k].precedes(entries[first_choice(entries, lowest)], lowest),
        entries[first_choice(entries, lowest)].precedes(entries[k], lowest) || (entries[k].id
            == entries[first_choice(entries, lowest)].id && entries[k].score.value()
            == entries[first_choice(entries, lowest)].score.value()),
    decreases entries.len(),
{
    lemma_first_choice_in_range(entries, lowest);
    if entries.len() > 1 {
        let front = entries.drop_last();
        let j = first_choice(front, lowest);
        lemma_first_choice_in_range(front, lowest);
        if k < entries.len() - 1 {
            lemma_first_choice_leads(front, lowest, k);
        }
        lemma_first_choice_leads(front, lowest, j);
    }
}

/// The entry that is chosen first for its rank has the highest score, and
/// among the entries with that score the lowest id.
pub proof fn ties_go_to_lower_id(entries: Seq<Ranked>, k: int)
    requires
        0 <= k < entries.len(),
    ensures
        entries[first_choice(entries, false)].score.value() >= entries[k].score.value(),
        entries[k].score.value() == entries[first_choice(entries, false)].score.value()
            ==> entries[first_choice(entries, false)].id <= entries[k].id,
{
    lemma_first_choice_leads(entries, false, k);
}

/// `leading` yields `k` ids, or as many as there are entries.
pub proof fn lemma_leading_len(entries: Seq<Ranked>, k: nat, lowest: bool)
    ensures
        leading(entries, k, lowest).len() == if k <= entries.len() {
            k
        } else {
            entries.len()
        },
    decreases k,
{
    if k > 0 && entries.len() > 0 {
        lemma_first_choice_in_range(entries, lowest);
        lemma_leading_len(entries.remove(first_choice(entries, lowest)), (k - 1) as nat, lowest);
    }
}

/// The position of the entry that is taken first, `None` if there is none.
pub fn choose_first(entries: &Vec<Ranked>, lowest: bool) -> (r: Option<usize>)
    ensures
        entries.len() == 0 ==> r is None,
        entries.len() > 0 ==> r == Some(first_choice(entries@, lowest) as usize),
        r matches Some(i) ==> i < entries.len(),
{
    if entries.len() == 0 {
        return None;
    }
    let mut best: usize = 0;
    let mut i: usize = 1;
    assert(entries@.take(1).len() == 1);
    while i < entries.len()
        invariant
            1 <= i <= entries.len(),
            best < i,
            best == first_choice(entries@.take(i as int), lowest),
        decreases entries.len() - i,
    {
        assert(entries@.take(i as int + 1).drop_last() =~= entries@.take(i as int));
        if entries[i].goes_before(&entries[best], lowest) {
            best = i;
        }
        i += 1;
    }
    assert(entries@.take(entries.len() as int) =~= entries@);
    Some(best)
}

/// The ids of the first `k` entries in the order of choice.
#[verifier::rlimit(60)]
pub fn take_leading(entries: Vec<Ranked>, k: usize, lowest: bool) -> (out: Vec<i64>)
    ensures
        out@ == leading(entries@, k as nat, lowest),
{
    let mut rest = entries;
    let mut out: Vec<i64> = Vec::new();
    let ghost all = rest@;
    while out.len() < k && rest.len() > 0
        invariant
            out.len() <= k,
            out@ + leading(rest@, (k - out.len()) as nat, lowest) == leading(all, k as nat, lowest),
        decreases rest.len(),
    {
        let ghost before = rest@;
        let ghost taken = out@;
        let found = choose_first(&rest, lowest);
        let i = found.unwrap();
        let e = rest.remove(i);
        out.push(e.id);
        proof {
            lemma_first_choice_in_range(before, lowest);
            let tail = leading(before.remove(i as int), (k - taken.len() - 1) as nat, lowest);
            assert(leading(before, (k - taken.len()) as nat, lowest) == seq![e.id] + tail);
            assert(taken + (seq![e.id] + tail) =~= taken.push(e.id) + tail);
        }
    }
    proof {
        assert(leading(rest@, (k - out.len()) as nat, lowest) =~= Seq::<i64>::empty());
        assert(out@ + Seq::<i64>::empty() =~= out@);
    }
    out
}

} // verus!
