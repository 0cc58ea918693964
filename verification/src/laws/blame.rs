//! Who is blamed, and for which messages.
use crate::utils::{blame_list, collect_blame, peer_index, AbortBlame};
use vstd::prelude::*;

verus! {

/// The place of party `j` among the others, seen from party `i`.
pub open spec fn seat(i: int, j: int) -> int {
    if j < i {
        j
    } else {
        j - 1
    }
}

/// The peers of a party are all other parties, in the order of their indexes.
pub proof fn peers_are_all_others(i: u16, p: usize, j: u16)
    requires
        p < u16::MAX,
        call_ensures(peer_index, (i, p), j),
    ensures
        j != i,
        p == seat(i as int, j as int),
{
}

/// Whether `list` blames exactly those parties other than `i`, out of `n`, of which `guilty`
/// holds, in the order of their indexes, each for the messages with its ids.
pub open spec fn blames_exactly(
    list: Seq<AbortBlame>,
    i: int,
    n: int,
    guilty: spec_fn(int) -> bool,
    data_ids: Seq<u64>,
    proof_ids: Seq<u64>,
) -> bool {
    &&& forall|j: int|
        0 <= j < n && j != i && #[trigger] guilty(j) ==> list.contains(
            AbortBlame {
                faulty_party: j as u16,
                data_message: data_ids[seat(i, j)],
                proof_message: proof_ids[seat(i, j)],
            },
        )
    &&& forall|k: int|
        0 <= k < list.len() ==> {
            let j = (#[trigger] list[k]).faulty_party as int;
            &&& 0 <= j < n
            &&& j != i
            &&& guilty(j)
            &&& list[k].data_message == data_ids[seat(i, j)]
            &&& list[k].proof_message == proof_ids[seat(i, j)]
        }
    &&& forall|a: int, b: int|
        0 <= a < b < list.len() ==> (#[trigger] list[a]).faulty_party < (
        #[trigger] list[b]).faulty_party
}

/// Blame goes to exactly the parties that are marked.
pub proof fn marked_parties_are_blamed(
    i: u16,
    data_ids: &Vec<u64>,
    proof_ids: &Vec<u64>,
    faulty: &Vec<bool>,
    blame: Vec<AbortBlame>,
)
    requires
        i <= faulty.len() < u16::MAX,
        data_ids.len() == faulty.len(),
        proof_ids.len() == faulty.len(),
        call_ensures(collect_blame, (i, data_ids, proof_ids, faulty), blame),
    ensures
        blames_exactly(
            blame@,
            i as int,
            faulty.len() + 1,
            |j: int| faulty@[seat(i as int, j)],
            data_ids@,
            proof_ids@,
        ),
{
    lemma_blame_list(
        i,
        faulty.len() + 1,
        data_ids@,
        proof_ids@,
        faulty@,
        |j: int| faulty@[seat(i as int, j)],
    );
}

/// The blame list is the list of those that are marked.
pub proof fn lemma_blame_list(
    i: u16,
    n: int,
    data_ids: Seq<u64>,
    proof_ids: Seq<u64>,
    faulty: Seq<bool>,
    guilty: spec_fn(int) -> bool,
)
    requires
        0 <= i < n <= u16::MAX,
        faulty.len() == n - 1,
        forall|j: int|
            0 <= j < n && j != i ==> #[trigger] guilty(j) == faulty[seat(i as int, j)],
    ensures
        blames_exactly(
            blame_list(i, data_ids, proof_ids, faulty),
            i as int,
            n,
            guilty,
            data_ids,
            proof_ids,
        ),
{
    let list = blame_list(i, data_ids, proof_ids, faulty);
    lemma_blame_prefix(i, data_ids, proof_ids, faulty);
    assert forall|j: int| 0 <= j < n && j != i && #[trigger] guilty(j) implies list.contains(
        AbortBlame {
            faulty_party: j as u16,
            data_message: data_ids[seat(i as int, j)],
            proof_message: proof_ids[seat(i as int, j)],
        },
    ) by {
        assert(faulty[seat(i as int, j)]);
    }
    assert forall|k: int| 0 <= k < list.len() implies {
        let j = (#[trigger] list[k]).faulty_party as int;
        &&& 0 <= j < n
        &&& j != i
        &&& guilty(j)
        &&& list[k].data_message == data_ids[seat(i as int, j)]
        &&& list[k].proof_message == proof_ids[seat(i as int, j)]
    } by {
        let j = list[k].faulty_party as int;
        assert(guilty(j) == faulty[seat(i as int, j)]);
    }
}

proof fn lemma_blame_prefix(
    i: u16,
    data_ids: Seq<u64>,
    proof_ids: Seq<u64>,
    faulty: Seq<bool>,
)
    requires
        faulty.len() < u16::MAX,
    ensures
        ({
            let list = blame_list(i, data_ids, proof_ids, faulty);
            &&& forall|p: int|
                0 <= p < faulty.len() && #[trigger] faulty[p] ==> list.contains(
                    AbortBlame {
                        faulty_party: (if p < i {
                            p
                        } else {
                            p + 1
                        }) as u16,
                        data_message: data_ids[p],
                        proof_message: proof_ids[p],
                    },
                )
            &&& forall|k: int|
                0 <= k < list.len() ==> {
                    let j = (#[trigger] list[k]).faulty_party as int;
                    &&& j != i
                    &&& 0 <= seat(i as int, j) < faulty.len()
                    &&& faulty[seat(i as int, j)]
                    &&& list[k].data_message == data_ids[seat(i as int, j)]
                    &&& list[k].proof_message == proof_ids[seat(i as int, j)]
                }
            &&& forall|a: int, b: int|
                0 <= a < b < list.len() ==> (#[trigger] list[a]).faulty_party < (
                #[trigger] list[b]).faulty_party
        }),
    decreases faulty.len(),
{
    if faulty.len() > 0 {
        let before_faulty = faulty.drop_last();
        let before = blame_list(i, data_ids, proof_ids, before_faulty);
        let list = blame_list(i, data_ids, proof_ids, faulty);
        let last = faulty.len() - 1;
        lemma_blame_prefix(i, data_ids, proof_ids, before_faulty);
        let entry = |p: int| AbortBlame {
            faulty_party: (if p < i {
                p
            } else {
                p + 1
            }) as u16,
            data_message: data_ids[p],
            proof_message: proof_ids[p],
        };
        assert forall|p: int| 0 <= p < faulty.len() && #[trigger] faulty[p] implies list.contains(
            entry(p),
        ) by {
            if p < last {
                assert(before_faulty[p]);
                let k = choose|k: int| 0 <= k < before.len() && before[k] == entry(p);
                assert(list[k] == entry(p));
            } else {
                assert(list[list.len() - 1] == entry(p));
            }
        }
        assert forall|k: int| 0 <= k < list.len() implies {
            let j = (#[trigger] list[k]).faulty_party as int;
            &&& j != i
            &&& 0 <= seat(i as int, j) < faulty.len()
            &&& faulty[seat(i as int, j)]
            &&& list[k].data_message == data_ids[seat(i as int, j)]
            &&& list[k].proof_message == proof_ids[seat(i as int, j)]
        } by {
            if k < before.len() {
                assert(list[k] == before[k]);
            }
        }
        assert forall|a: int, b: int| 0 <= a < b < list.len() implies (
        #[trigger] list[a]).faulty_party < (#[trigger] list[b]).faulty_party by {
            assert(list[a] == before[a]);
            if b < before.len() {
                assert(list[b] == before[b]);
            }
        }
    }
}

} // verus!
