//! Indexes of peers, blame and sums.
use crate::curve::{logs, values, Curve, Point, Scalar};
use crate::modular::{lemma_congruent_add, lemma_congruent_mod};
use vstd::prelude::*;

verus! {

/// A party that broke the protocol, and the messages that show it
#[derive(Debug, Clone, Copy, PartialEq, Eq, Structural)]
pub struct AbortBlame {
    /// Index of the party
    pub faulty_party: u16,
    /// Message with the data that the party sent
    pub data_message: u64,
    /// Message with the proof that the party sent
    pub proof_message: u64,
}

impl AbortBlame {
    /// Blames a party
    pub fn new(faulty_party: u16, data_message: u64, proof_message: u64) -> (blame: AbortBlame)
        ensures
            blame == (AbortBlame { faulty_party, data_message, proof_message }),
    {
        AbortBlame { faulty_party, data_message, proof_message }
    }
}

/// What was received in a round: one message of each other party, in the order of their
/// indexes, with the ids of the messages
pub struct Received<M> {
    /// Ids of the messages
    pub ids: Vec<u64>,
    /// The messages
    pub msgs: Vec<M>,
}

impl<M> Received<M> {
    /// Whether there is one message of each other party among `n`.
    pub open spec fn complete(&self, n: u16) -> bool {
        self.ids.len() == n - 1 && self.msgs.len() == n - 1
    }

    /// The messages of all parties, with one's own at one's index.
    pub open spec fn including(&self, i: u16, mine: M) -> Seq<M> {
        self.msgs@.insert(i as int, mine)
    }
}

/// The index of the party in place `p` among the peers of party `i`.
pub open spec fn peer(i: int, p: int) -> int {
    if p < i {
        p
    } else {
        p + 1
    }
}

/// The place of party `j` among the peers of party `i`.
pub open spec fn place(i: int, j: int) -> int {
    if j < i {
        j
    } else {
        j - 1
    }
}

/// The index of the party in place `p` among the peers of party `i`.
pub fn peer_index(i: u16, p: usize) -> (j: u16)
    requires
        p < u16::MAX,
    ensures
        j == peer(i as int, p as int),
        j != i,
{
    if p < i as usize {
        p as u16
    } else {
        (p + 1) as u16
    }
}

/// Blame for every peer of party `i` that is marked faulty, in the order of their indexes.
pub open spec fn blame_list(
    i: u16,
    data_ids: Seq<u64>,
    proof_ids: Seq<u64>,
    faulty: Seq<bool>,
) -> Seq<AbortBlame>
    decreases faulty.len(),
{
    if faulty.len() == 0 {
        Seq::empty()
    } else {
        let before = blame_list(i, data_ids, proof_ids, faulty.drop_last());
        let p = faulty.len() - 1;
        if faulty.last() {
            before.push(
                AbortBlame {
                    faulty_party: peer(i as int, p) as u16,
                    data_message: data_ids[p],
                    proof_message: proof_ids[p],
                },
            )
        } else {
            before
        }
    }
}

/// Nobody is blamed if and only if nobody is faulty.
pub proof fn blame_is_for_the_faulty(
    i: u16,
    data_ids: Seq<u64>,
    proof_ids: Seq<u64>,
    faulty: Seq<bool>,
)
    ensures
        blame_list(i, data_ids, proof_ids, faulty).len() == 0 <==> forall|p: int|
            0 <= p < faulty.len() ==> !#[trigger] faulty[p],
    decreases faulty.len(),
{
    if faulty.len() > 0 {
        blame_is_for_the_faulty(i, data_ids, proof_ids, faulty.drop_last());
        let before = faulty.drop_last();
        if forall|p: int| 0 <= p < faulty.len() ==> !#[trigger] faulty[p] {
            assert forall|p: int| 0 <= p < before.len() implies !#[trigger] before[p] by {
                assert(!faulty[p]);
            }
            assert(!faulty[faulty.len() - 1]);
        } else {
            let p = choose|p: int| 0 <= p < faulty.len() && #[trigger] faulty[p];
            if p < before.len() {
                assert(before[p]);
            }
        }
    }
}

/// A party is blamed if and only if it is marked faulty, with its own messages.
pub proof fn blame_names_the_faulty(
    i: u16,
    data_ids: Seq<u64>,
    proof_ids: Seq<u64>,
    faulty: Seq<bool>,
    p: int,
)
    requires
        0 <= p < faulty.len() < u16::MAX,
    ensures
        faulty[p] <==> exists|k: int|
            0 <= k < blame_list(i, data_ids, proof_ids, faulty).len() && (
            #[trigger] blame_list(i, data_ids, proof_ids, faulty)[k]).faulty_party == peer(
                i as int,
                p,
            ),
        faulty[p] ==> blame_list(i, data_ids, proof_ids, faulty).contains(
            AbortBlame {
                faulty_party: peer(i as int, p) as u16,
                data_message: data_ids[p],
                proof_message: proof_ids[p],
            },
        ),
    decreases faulty.len(),
{
    let list = blame_list(i, data_ids, proof_ids, faulty);
    let last = faulty.len() - 1;
    let before = blame_list(i, data_ids, proof_ids, faulty.drop_last());
    let entry = AbortBlame {
        faulty_party: peer(i as int, p) as u16,
        data_message: data_ids[p],
        proof_message: proof_ids[p],
    };
    lemma_blamed_are_peers(i, data_ids, proof_ids, faulty.drop_last());
    if p < last {
        blame_names_the_faulty(i, data_ids, proof_ids, faulty.drop_last(), p);
        assert(faulty.drop_last()[p] == faulty[p]);
        if faulty[p] {
            let k = choose|k: int| 0 <= k < before.len() && before[k] == entry;
            assert(list[k] == entry);
        } else {
            assert forall|k: int| 0 <= k < list.len() implies (
            #[trigger] list[k]).faulty_party != peer(i as int, p) by {
                if k < before.len() {
                    assert(list[k] == before[k]);
                }
            }
        }
    } else {
        if faulty[p] {
            assert(list[list.len() - 1] == entry);
        } else {
            assert forall|k: int| 0 <= k < list.len() implies (
            #[trigger] list[k]).faulty_party != peer(i as int, p) by {
                assert(list[k] == before[k]);
            }
        }
    }
}

proof fn lemma_blamed_are_peers(
    i: u16,
    data_ids: Seq<u64>,
    proof_ids: Seq<u64>,
    faulty: Seq<bool>,
)
    requires
        faulty.len() < u16::MAX,
    ensures
        forall|k: int|
            0 <= k < blame_list(i, data_ids, proof_ids, faulty).len() ==> (
            #[trigger] blame_list(i, data_ids, proof_ids, faulty)[k]).faulty_party < peer(
                i as int,
                faulty.len() as int,
            ),
    decreases faulty.len(),
{
    if faulty.len() > 0 {
        lemma_blamed_are_peers(i, data_ids, proof_ids, faulty.drop_last());
        let list = blame_list(i, data_ids, proof_ids, faulty);
        let before = blame_list(i, data_ids, proof_ids, faulty.drop_last());
        assert forall|k: int| 0 <= k < list.len() implies (#[trigger] list[k]).faulty_party < peer(
            i as int,
            faulty.len() as int,
        ) by {
            if k < before.len() {
                assert(list[k] == before[k]);
            }
        }
    }
}

/// Blames every peer of party `i` that is marked faulty.
pub fn collect_blame(
    i: u16,
    data_ids: &Vec<u64>,
    proof_ids: &Vec<u64>,
    faulty: &Vec<bool>,
) -> (blame: Vec<AbortBlame>)
    requires
        faulty.len() < u16::MAX,
        data_ids.len() == faulty.len(),
        proof_ids.len() == faulty.len(),
    ensures
        blame@ == blame_list(i, data_ids@, proof_ids@, faulty@),
{
    let mut blame: Vec<AbortBlame> = Vec::new();
    let mut p: usize = 0;
    while p < faulty.len()
        invariant
            p <= faulty.len() < u16::MAX,
            data_ids.len() == faulty.len(),
            proof_ids.len() == faulty.len(),
            blame@ == blame_list(i, data_ids@, proof_ids@, faulty@.take(p as int)),
        decreases faulty.len() - p,
    {
        proof {
            assert(faulty@.take(p + 1).drop_last() =~= faulty@.take(p as int));
        }
        if faulty[p] {
            blame.push(AbortBlame::new(peer_index(i, p), data_ids[p], proof_ids[p]));
        }
        p += 1;
    }
    assert(faulty@.take(p as int) =~= faulty@);
    blame
}

/// The sum of a sequence.
pub open spec fn sum(s: Seq<int>) -> int
    decreases s.len(),
{
    if s.len() == 0 {
        0
    } else {
        sum(s.drop_last()) + s.last()
    }
}

/// The sum of scalars.
pub fn sum_scalars<E: Curve>(scalars: &Vec<Scalar<E>>) -> (total: Scalar<E>)
    ensures
        total.wf(),
        total.value() == sum(values(scalars@)) % (E::order() as int),
{
    let mut total = Scalar::<E>::zero();
    let mut k: usize = 0;
    proof {
        total.lemma_range();
        crate::modular::lemma_congruent_small(0, 0, E::order());
    }
    while k < scalars.len()
        invariant
            k <= scalars.len(),
            total.wf(),
            total.value() == sum(values(scalars@.take(k as int))) % (E::order() as int),
        decreases scalars.len() - k,
    {
        proof {
            total.lemma_range();
            let before = values(scalars@.take(k as int));
            let after = values(scalars@.take(k as int + 1));
            assert(after.drop_last() =~= before);
            let v = scalars@[k as int].value() as int;
            lemma_congruent_mod(sum(before), E::order());
            lemma_congruent_add(total.value() as int, sum(before), v, v, E::order());
        }
        total = total.add(&scalars[k]);
        k += 1;
    }
    assert(scalars@.take(k as int) =~= scalars@);
    total
}

/// The sum of points.
pub fn sum_points<E: Curve>(points: &Vec<Point<E>>) -> (total: Point<E>)
    ensures
        total.wf(),
        total.log() == sum(logs(points@)) % (E::order() as int),
{
    let mut total = Point::<E>::zero();
    let mut k: usize = 0;
    proof {
        total.lemma_range();
        crate::modular::lemma_congruent_small(0, 0, E::order());
    }
    while k < points.len()
        invariant
            k <= points.len(),
            total.wf(),
            total.log() == sum(logs(points@.take(k as int))) % (E::order() as int),
        decreases points.len() - k,
    {
        proof {
            total.lemma_range();
            let before = logs(points@.take(k as int));
            let after = logs(points@.take(k as int + 1));
            assert(after.drop_last() =~= before);
            let v = points@[k as int].log() as int;
            lemma_congruent_mod(sum(before), E::order());
            lemma_congruent_add(total.log() as int, sum(before), v, v, E::order());
        }
        total = total.add(&points[k]);
        k += 1;
    }
    assert(points@.take(k as int) =~= points@);
    total
}

/// Inserting an element adds it to the sum.
pub proof fn lemma_sum_insert(s: Seq<int>, i: int, v: int)
    requires
        0 <= i <= s.len(),
    ensures
        sum(s.insert(i, v)) == sum(s) + v,
    decreases s.len(),
{
    let t = s.insert(i, v);
    if i == s.len() {
        assert(t.drop_last() =~= s);
    } else {
        assert(t.drop_last() =~= s.drop_last().insert(i, v));
        lemma_sum_insert(s.drop_last(), i, v);
    }
}

/// Tells whether any flag is set.
pub fn any(flags: &Vec<bool>) -> (result: bool)
    ensures
        result == exists|p: int| 0 <= p < flags.len() && #[trigger] flags@[p],
{
    let mut p: usize = 0;
    while p < flags.len()
        invariant
            p <= flags.len(),
            forall|k: int| 0 <= k < p ==> !#[trigger] flags@[k],
        decreases flags.len() - p,
    {
        if flags[p] {
            return true;
        }
        p += 1;
    }
    false
}

} // verus!
