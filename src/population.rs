use vstd::prelude::*;

use rayon::slice::ParallelSliceMut;
use tinyrand::{Probability, Wyrand};

use crate::individual::{mutation_gene, recombined, with_gene, Individual};
use crate::sinewave::SineWave;

verus! {

broadcast use vstd::seq_lib::group_to_multiset_ensures;

/// A scored individual: its fitness (lower is better) and its genome.
pub type Member = (u16, Individual);

/// The members are in ascending order of fitness.
pub open spec fn by_score(m: Seq<Member>) -> bool {
    forall|a: int, b: int| 0 <= a < b < m.len() ==> m[a].0 <= m[b].0
}

/// Every member's genome is well formed.
pub open spec fn all_members_wf(m: Seq<Member>) -> bool {
    forall|k: int| 0 <= k < m.len() ==> (#[trigger] m[k]).1.wf()
}

/// Each element of `after` is an element of `before`.
proof fn lemma_permuted_contains(before: Seq<Member>, after: Seq<Member>, k: int)
    requires
        after.to_multiset() == before.to_multiset(),
        0 <= k < after.len(),
    ensures
        before.contains(after[k]),
{
    assert(after.contains(after[k]));
    assert(after.to_multiset().count(after[k]) > 0);
    assert(before.to_multiset().count(after[k]) > 0);
}

proof fn lemma_permuted_wf(before: Seq<Member>, after: Seq<Member>)
    requires
        after.to_multiset() == before.to_multiset(),
        all_members_wf(before),
    ensures
        all_members_wf(after),
{
    assert forall|k: int| 0 <= k < after.len() implies (#[trigger] after[k]).1.wf() by {
        lemma_permuted_contains(before, after, k);
        let j = choose|j: int| 0 <= j < before.len() && before[j] == after[k];
        assert(before[j].1.wf());
    }
}

/// Relies on rayon's `ParallelSliceMut::par_sort_by_key`: the members are
/// rearranged, none changed, into ascending order of the key, here the score.
#[verifier::external_body]
fn sort_by_score(members: &mut Vec<Member>)
    ensures
        final(members)@.len() == old(members)@.len(),
        final(members)@.to_multiset() == old(members)@.to_multiset(),
        by_score(final(members)@),
{
    members.par_sort_by_key(|m| m.0);
}

/// The evolving population: scored members and the number kept after each
/// generation.
pub struct Population {
    pub size: usize,
    pub members: Vec<Member>,
}

impl Population {
    /// The configured size is even and positive and every genome is well formed.
    pub open spec fn wf(&self) -> bool {
        &&& self.size > 0
        &&& self.size % 2 == 0
        &&& all_members_wf(self.members@)
    }

    /// An empty population that keeps `size` members; `None` unless `size`
    /// is even and positive.
    pub fn new(size: usize) -> (r: Option<Population>)
        ensures
            r.is_some() <==> (size > 0 && size % 2 == 0),
            r matches Some(p) ==> p.wf() && p.size == size && p.members@.len() == 0,
    {
        if size == 0 || size % 2 == 1 {
            None
        } else {
            Some(Population { size, members: Vec::new() })
        }
    }

    /// Adds a scored individual.
    pub fn add(&mut self, score: u16, ind: Individual)
        requires
            old(self).wf(),
            ind.wf(),
        ensures
            final(self).wf(),
            final(self).size == old(self).size,
            final(self).members@ == old(self).members@.push((score, ind)),
    {
        self.members.push((score, ind));
    }

    /// Sorts the members by ascending fitness.
    pub fn rank(&mut self)
        requires
            old(self).wf(),
        ensures
            final(self).wf(),
            final(self).size == old(self).size,
            final(self).members@.len() == old(self).members@.len(),
            final(self).members@.to_multiset() == old(self).members@.to_multiset(),
            by_score(final(self).members@),
    {
        let ghost before = self.members@;
        sort_by_score(&mut self.members);
        proof {
            lemma_permuted_wf(before, self.members@);
        }
    }

    /// The fitness of the first member (the best, once ranked).
    pub fn best(&self) -> (r: u16)
        requires
            self.members@.len() > 0,
        ensures
            r == self.members@[0].0,
    {
        self.members[0].0
    }

    /// The fitness of the last member (the worst, once ranked).
    pub fn worst(&self) -> (r: u16)
        requires
            self.members@.len() > 0,
        ensures
            r == self.members@.last().0,
    {
        self.members[self.members.len() - 1].0
    }

    /// Recombines each adjacent pair of members (0 with 1, 2 with 3, ...);
    /// children `2j` and `2j + 1` come from pair `j`.
    pub fn breed(&self, rng: &mut Wyrand) -> (r: Vec<Individual>)
        requires
            self.wf(),
            self.members@.len() % 2 == 0,
        ensures
            r@.len() == self.members@.len(),
            forall|k: int| 0 <= k < r@.len() ==> (#[trigger] r@[k]).wf() && r@[k].waves@.len() >= 1,
            forall|j: int| 0 <= j < self.members@.len() / 2 ==> #[trigger] recombined(
                self.members@[2 * j].1,
                self.members@[2 * j + 1].1,
                r@[2 * j],
                r@[2 * j + 1],
            ),
    {
        let mut children: Vec<Individual> = Vec::new();
        let mut i: usize = 0;
        while i + 1 < self.members.len()
            invariant
                self.wf(),
                self.members@.len() % 2 == 0,
                i % 2 == 0,
                i <= self.members@.len(),
                children@.len() == i,
                forall|k: int| 0 <= k < i ==> (#[trigger] children@[k]).wf() && children@[k].waves@.len() >= 1,
                forall|j: int| 0 <= j < i / 2 ==> #[trigger] recombined(
                    self.members@[2 * j].1,
                    self.members@[2 * j + 1].1,
                    children@[2 * j],
                    children@[2 * j + 1],
                ),
            decreases self.members@.len() - i,
        {
            assert(self.members@[i as int].1.wf());
            assert(self.members@[i as int + 1].1.wf());
            let (first, second) = self.members[i].1.combine(&self.members[i + 1].1, rng);
            let ghost prev = children@;
            children.push(first);
            children.push(second);
            proof {
                assert forall|j: int| 0 <= j < (i + 2) / 2 implies #[trigger] recombined(
                    self.members@[2 * j].1,
                    self.members@[2 * j + 1].1,
                    children@[2 * j],
                    children@[2 * j + 1],
                ) by {
                    if j < i / 2 {
                        assert(children@[2 * j] == prev[2 * j]);
                        assert(children@[2 * j + 1] == prev[2 * j + 1]);
                    } else {
                        assert(j == i / 2);
                        assert(2 * j == i);
                    }
                }
            }
            i += 2;
        }
        children
    }

    /// Adds the scored offspring, ranks everyone by ascending fitness and
    /// keeps the best `size` members.
    pub fn merge(&mut self, offspring: Vec<Member>)
        requires
            old(self).wf(),
            all_members_wf(offspring@),
        ensures
            final(self).wf(),
            final(self).size == old(self).size,
            final(self).members@.len() == if old(self).members@.len() + offspring@.len() < old(self).size {
                (old(self).members@.len() + offspring@.len()) as int
            } else {
                old(self).size as int
            },
            by_score(final(self).members@),
            exists|m: Seq<Member>|
                #[trigger] by_score(m)
                && m.to_multiset() == (old(self).members@ + offspring@).to_multiset()
                && final(self).members@ == m.take(final(self).members@.len() as int),
            forall|k: int| 0 <= k < old(self).members@.len() ==> final(self).members@[0].0 <= #[trigger] old(self).members@[k].0,
            forall|k: int| 0 <= k < offspring@.len() ==> final(self).members@[0].0 <= #[trigger] offspring@[k].0,
    {
        let ghost before = self.members@;
        let ghost given = offspring@;
        let mut extra = offspring;
        self.members.append(&mut extra);
        let ghost joined = self.members@;
        assert(joined == before + given);
        assert forall|k: int| 0 <= k < joined.len() implies (#[trigger] joined[k]).1.wf() by {
            if k < before.len() {
                assert(joined[k] == before[k]);
            } else {
                assert(joined[k] == given[k - before.len()]);
            }
        }
        sort_by_score(&mut self.members);
        let ghost sorted = self.members@;
        proof {
            lemma_permuted_wf(joined, sorted);
        }
        self.members.truncate(self.size);
        proof {
            assert(self.members@ =~= sorted.take(self.members@.len() as int));
            assert forall|k: int| 0 <= k < joined.len() implies sorted[0].0 <= (#[trigger] joined[k]).0 by {
                lemma_permuted_contains(sorted, joined, k);
                let j = choose|j: int| 0 <= j < sorted.len() && sorted[j] == joined[k];
                if j > 0 {
                    assert(sorted[0].0 <= sorted[j].0);
                }
            }
            assert forall|k: int| 0 <= k < before.len() implies self.members@[0].0 <= #[trigger] before[k].0 by {
                assert(joined[k] == before[k]);
            }
            assert forall|k: int| 0 <= k < given.len() implies self.members@[0].0 <= #[trigger] given[k].0 by {
                assert(joined[before.len() + k] == given[k]);
            }
        }
    }

    /// Applies mutation with probability `chance` to every member, keeping
    /// the recorded scores; returns, per member, whether its genome changed
    /// (such a member is to be rescored).
    pub fn mutate_all(&mut self, chance: Probability, rng: &mut Wyrand) -> (r: Vec<bool>)
        requires
            old(self).wf(),
        ensures
            final(self).wf(),
            final(self).size == old(self).size,
            final(self).members@.len() == old(self).members@.len(),
            r@.len() == old(self).members@.len(),
            forall|k: int| 0 <= k < r@.len() ==> (#[trigger] final(self).members@[k]).0 == old(self).members@[k].0,
            forall|k: int| 0 <= k < r@.len() && !r@[k] ==> (#[trigger] final(self).members@[k]).1.waves@ == old(self).members@[k].1.waves@,
            forall|k: int| 0 <= k < r@.len() && r@[k] ==> exists|w: SineWave| #[trigger] mutation_gene(w)
                && final(self).members@[k].1.waves@ == with_gene(old(self).members@[k].1.waves@, w),
    {
        let ghost before = self.members@;
        let mut changed: Vec<bool> = Vec::new();
        let mut i: usize = 0;
        while i < self.members.len()
            invariant
                self.wf(),
                self.size == old(self).size,
                before == old(self).members@,
                self.members@.len() == before.len(),
                i <= before.len(),
                changed@.len() == i,
                forall|k: int| i <= k < before.len() ==> self.members@[k] == before[k],
                forall|k: int| 0 <= k < before.len() ==> (#[trigger] self.members@[k]).0 == before[k].0,
                forall|k: int| 0 <= k < i && !changed@[k] ==> (#[trigger] self.members@[k]).1.waves@ == before[k].1.waves@,
                forall|k: int| 0 <= k < i && changed@[k] ==> exists|w: SineWave| #[trigger] mutation_gene(w)
                    && self.members@[k].1.waves@ == with_gene(before[k].1.waves@, w),
            decreases before.len() - i,
        {
            let ghost prev = self.members@;
            assert(prev[i as int].1.wf());
            let m = &mut self.members[i];
            let did = m.1.mutate(chance, rng);
            changed.push(did);
            proof {
                assert forall|k: int| 0 <= k < self.members@.len() implies (#[trigger] self.members@[k]).1.wf() by {
                    if k != i {
                        assert(self.members@[k] == prev[k]);
                    }
                }
                assert forall|k: int| 0 <= k < i + 1 && !changed@[k] implies (#[trigger] self.members@[k]).1.waves@ == before[k].1.waves@ by {
                    if k < i {
                        assert(self.members@[k] == prev[k]);
                    }
                }
                assert forall|k: int| 0 <= k < i + 1 && changed@[k] implies exists|w: SineWave| #[trigger] mutation_gene(w)
                    && self.members@[k].1.waves@ == with_gene(before[k].1.waves@, w) by {
                    if k < i {
                        assert(self.members@[k] == prev[k]);
                    }
                }
            }
            i += 1;
        }
        changed
    }

    /// Records a new fitness for member `i`, whose genome changed.
    pub fn rescore(&mut self, i: usize, score: u16)
        requires
            old(self).wf(),
            i < old(self).members@.len(),
        ensures
            final(self).wf(),
            final(self).size == old(self).size,
            final(self).members@ == old(self).members@.update(i as int, (score, old(self).members@[i as int].1)),
    {
        let ghost prev = self.members@;
        self.members[i].0 = score;
        assert(self.members@ =~= prev.update(i as int, (score, prev[i as int].1)));
        assert forall|k: int| 0 <= k < self.members@.len() implies (#[trigger] self.members@[k]).1.wf() by {
            assert(prev[k].1.wf());
        }
    }
}

} // verus!
