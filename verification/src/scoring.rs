//! The preference score of a candidate, given who is already selected.
//!
//! In points, the score of `p` beside the selection `sel` is
//! `10 * priority + 3 * jitter + bonus - 2 * recent - 1.5 * pairs`, where
//! `jitter` lies in `[0, 1)`, `bonus` adds 5 for each mandatory and 2 for each
//! recommended partner in `sel`, `recent` is the recent assignment count of
//! `p`, and `pairs` sums the co-assignment counts of `p` with the members of
//! `sel`.

use vstd::prelude::*;
use crate::fairness::{pair_total, recent_count, Fairness};
use crate::ranking::{Ranked, Score};
use crate::roster::{
    kind_between, member_priority, priority_of, relation_between, Member, Relation,
    RelationshipKind,
};

verus! {

/// Days of history that weigh on a run.
pub const FAIRNESS_WINDOW_DAYS: u32 = 60;

/// Points for each unit of priority.
pub const PRIORITY_WEIGHT: u32 = 10;

/// Points that the jitter spans.
pub const JITTER_WEIGHT: u32 = 3;

/// Points lost for each recent assignment.
pub const RECENT_PENALTY: u32 = 2;

/// Half points lost for each earlier shift shared with a selected member.
pub const PAIR_PENALTY_HALVES: u32 = 3;

/// Points for each recommended partner already selected.
pub const BONUS_RECOMMENDED: u32 = 2;

/// Points for each mandatory partner already selected.
pub const BONUS_MANDATORY: u32 = 5;

/// What a score depends on besides the candidate and the selection.
pub struct Setting {
    pub roster: Seq<Member>,
    pub rels: Seq<Relation>,
    pub history: Seq<Seq<i64>>,
    pub seed: u64,
    pub day: u64,
}

/// The data that scores are computed from during the planning of one shift.
pub struct Context<'a> {
    pub roster: &'a Vec<Member>,
    pub rels: &'a Vec<Relation>,
    pub fairness: &'a Fairness,
    /// The seed of the jitter, fixed for a run.
    pub seed: u64,
    /// A number that stands for the day of the shift.
    pub day: u64,
}

impl<'a> View for Context<'a> {
    type V = Setting;

    open spec fn view(&self) -> Setting {
        Setting {
            roster: self.roster@,
            rels: self.rels@,
            history: self.fairness@,
            seed: self.seed,
            day: self.day,
        }
    }
}

/// The bits of an id, read as an unsigned number.
pub open spec fn id_bits(p: i64) -> u64 {
    if p >= 0 {
        p as u64
    } else {
        (p + 0x1_0000_0000_0000_0000) as u64
    }
}

/// One round of bit mixing.
pub open spec fn mix(x: u64) -> u64 {
    let a = x ^ (x >> 30);
    let b = a.wrapping_mul(0xbf58476d1ce4e5b9);
    let c = b ^ (b >> 27);
    let d = c.wrapping_mul(0x94d049bb133111eb);
    d ^ (d >> 31)
}

/// The jitter of publisher `p` on the day `day` under `seed`, as the
/// numerator of a fraction over `2^64`.
pub open spec fn jitter_of(seed: u64, day: u64, p: i64) -> u64 {
    mix(id_bits(p).wrapping_mul(6364136223846793005).wrapping_add(seed ^ day))
}

/// The points that a relationship between `p` and `o` adds.
pub open spec fn bonus_with(rels: Seq<Relation>, p: i64, o: i64) -> nat {
    match kind_between(rels, p, o) {
        Some(RelationshipKind::Mandatory) => BONUS_MANDATORY as nat,
        Some(RelationshipKind::Recommended) => BONUS_RECOMMENDED as nat,
        None => 0,
    }
}

/// The relationship bonus of `p` beside the selection `basis`.
pub open spec fn relationship_bonus(rels: Seq<Relation>, p: i64, basis: Seq<i64>) -> nat
    decreases basis.len(),
{
    if basis.len() == 0 {
        0
    } else {
        relationship_bonus(rels, p, basis.drop_last()) + bonus_with(rels, p, basis.last())
    }
}

/// The score of `p` beside `basis` without its jitter, in half points.
pub open spec fn half_points(s: Setting, p: i64, basis: Seq<i64>) -> int {
    2 * PRIORITY_WEIGHT * priority_of(s.roster, p) + 2 * relationship_bonus(s.rels, p, basis) - 2
        * RECENT_PENALTY * recent_count(s.history, p) - PAIR_PENALTY_HALVES * pair_total(
        s.history,
        p,
        basis,
    )
}

/// The score of `p` beside the selection `basis`.
pub open spec fn score_of(s: Setting, p: i64, basis: Seq<i64>) -> Score {
    Score { half: half_points(s, p, basis) as i128, jitter: jitter_of(s.seed, s.day, p) }
}

/// The candidates `cands`, each with its score beside `basis`.
pub open spec fn ranked(s: Setting, basis: Seq<i64>, cands: Seq<i64>) -> Seq<Ranked> {
    cands.map_values(|x: i64| Ranked { id: x, score: score_of(s, x, basis) })
}

/// The jitter of publisher `p` on the day `day` under `seed`.
#[verifier::rlimit(60)]
pub fn jitter(seed: u64, day: u64, p: i64) -> (r: u64)
    ensures
        r == jitter_of(seed, day, p),
{
    let bits: u64 = if p >= 0 {
        p as u64
    } else {
        (p as i128 + 0x1_0000_0000_0000_0000) as u64
    };
    let x = bits.wrapping_mul(6364136223846793005).wrapping_add(seed ^ day);
    let a = x ^ (x >> 30);
    let b = a.wrapping_mul(0xbf58476d1ce4e5b9);
    let c = b ^ (b >> 27);
    let d = c.wrapping_mul(0x94d049bb133111eb);
    d ^ (d >> 31)
}

impl<'a> Context<'a> {
    /// The relationship bonus of `p` beside the selection `basis`.
    pub fn bonus(&self, p: i64, basis: &Vec<i64>) -> (r: u128)
        ensures
            r == relationship_bonus(self.rels@, p, basis@),
            r <= 5 * basis.len(),
    {
        let mut sum: u128 = 0;
        let mut i: usize = 0;
        while i < basis.len()
            invariant
                i <= basis.len(),
                sum == relationship_bonus(self.rels@, p, basis@.take(i as int)),
                sum <= 5 * i,
            decreases basis.len() - i,
        {
            assert(basis@.take(i as int + 1).drop_last() =~= basis@.take(i as int));
            match relation_between(self.rels, p, basis[i]) {
                Some(RelationshipKind::Mandatory) => {
                    sum = sum + 5;
                },
                Some(RelationshipKind::Recommended) => {
                    sum = sum + 2;
                },
                None => {},
            }
            i += 1;
        }
        assert(basis@.take(basis.len() as int) =~= basis@);
        sum
    }

    /// The score of `p` beside the selection `basis`.
    #[verifier::rlimit(60)]
    pub fn score(&self, p: i64, basis: &Vec<i64>) -> (r: Score)
        ensures
            r == score_of(self@, p, basis@),
            r.half == half_points(self@, p, basis@),
    {
        let priority = member_priority(self.roster, p) as i128;
        let bonus = self.bonus(p, basis) as i128;
        let recent = self.fairness.recent(p) as i128;
        let pairs = self.fairness.together_with_all(p, basis);
        assert(basis.len() * 0xFFFF_FFFF <= 0xFFFF_FFFF_FFFF_FFFF * 0xFFFF_FFFF)
            by (nonlinear_arith)
            requires
                basis.len() <= 0xFFFF_FFFF_FFFF_FFFF,
        ;
        let pairs = pairs as i128;
        let half: i128 = 20 * priority + 2 * bonus - 4 * recent - 3 * pairs;
        Score { half, jitter: jitter(self.seed, self.day, p) }
    }

    /// The candidates `cands`, each with its score beside `basis`.
    pub fn score_all(&self, basis: &Vec<i64>, cands: &Vec<i64>) -> (r: Vec<Ranked>)
        ensures
            r@ == ranked(self@, basis@, cands@),
    {
        let mut out: Vec<Ranked> = Vec::new();
        let mut i: usize = 0;
        while i < cands.len()
            invariant
                i <= cands.len(),
                out@ == ranked(self@, basis@, cands@.take(i as int)),
            decreases cands.len() - i,
        {
            let s = self.score(cands[i], basis);
            out.push(Ranked { id: cands[i], score: s });
            assert(ranked(self@, basis@, cands@.take(i as int)).push(
                Ranked { id: cands@[i as int], score: s },
            ) =~= ranked(self@, basis@, cands@.take(i as int + 1)));
            i += 1;
        }
        assert(cands@.take(cands.len() as int) =~= cands@);
        out
    }
}

} // verus!
