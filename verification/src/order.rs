//! Ordering posts newest first, keeping posts of the same date in their order.

use vstd::prelude::*;
use crate::dates::date_rank;
use crate::site::Post;

verus! {

/// The rank of a post's date.
pub open spec fn post_rank(post: Post) -> int {
    date_rank(post.date@)
}

/// `output` is `input` ordered newest first, and `perm` says where each post of
/// `output` stood in `input`: every post is used once, dates never rise, and
/// posts of the same date keep their order.
pub open spec fn is_newest_first(input: Seq<Post>, output: Seq<Post>, perm: Seq<int>) -> bool {
    &&& perm.len() == input.len()
    &&& output.len() == input.len()
    &&& forall|k: int| 0 <= k < perm.len() ==> 0 <= #[trigger] perm[k] < input.len()
    &&& forall|k: int| 0 <= k < perm.len() ==> #[trigger] output[k] == input[perm[k]]
    &&& forall|k: int, l: int| 0 <= k < l < perm.len() ==> perm[k] != perm[l]
    &&& forall|k: int, l: int|
        0 <= k < l < output.len() ==> post_rank(#[trigger] output[k]) >= post_rank(
            #[trigger] output[l],
        )
    &&& forall|k: int, l: int|
        0 <= k < l < output.len() && post_rank(#[trigger] output[k]) == post_rank(
            #[trigger] output[l],
        ) ==> perm[k] < perm[l]
}

fn insertion_point(sorted: &Vec<Post>, rank: i64) -> (p: usize)
    requires
        forall|k: int, l: int|
            0 <= k < l < sorted@.len() ==> post_rank(#[trigger] sorted@[k]) >= post_rank(
                #[trigger] sorted@[l],
            ),
    ensures
        p <= sorted@.len(),
        forall|k: int| 0 <= k < p ==> post_rank(#[trigger] sorted@[k]) >= rank,
        forall|k: int| p <= k < sorted@.len() ==> post_rank(#[trigger] sorted@[k]) < rank,
{
    let mut p: usize = 0;
    while p < sorted.len() && sorted[p].date.rank() >= rank
        invariant
            p <= sorted@.len(),
            forall|k: int| 0 <= k < p ==> post_rank(#[trigger] sorted@[k]) >= rank,
        decreases sorted@.len() - p,
    {
        p += 1;
    }
    if p < sorted.len() {
        assert forall|k: int| p <= k < sorted@.len() implies post_rank(#[trigger] sorted@[k])
            < rank by {
            if k > p {
                assert(post_rank(sorted@[p as int]) >= post_rank(sorted@[k]));
            }
        }
    }
    p
}

/// The posts ordered newest first; posts of the same date keep their order.
pub fn sort_newest_first(posts: Vec<Post>) -> (sorted: Vec<Post>)
    ensures
        exists|perm: Seq<int>| is_newest_first(posts@, sorted@, perm),
{
    let ghost input = posts@;
    let mut sorted: Vec<Post> = Vec::new();
    let ghost mut perm: Seq<int> = seq![];
    for post in it: posts
        invariant
            input == it.seq(),
            is_newest_first(input.take(it.index() as int), sorted@, perm),
            forall|k: int| 0 <= k < perm.len() ==> #[trigger] perm[k] < it.index(),
    {
        let ghost i = it.index() as int;
        let ghost old_sorted = sorted@;
        let ghost old_perm = perm;
        let rank = post.date.rank();
        let p = insertion_point(&sorted, rank);
        sorted.insert(p, post);
        proof {
            perm = old_perm.insert(p as int, i);
            let before = input.take(i);
            let after = input.take(i + 1);
            assert(after.len() == i + 1);
            assert forall|k: int| 0 <= k < before.len() implies #[trigger] after[k] == before[k] by {}
            assert(after[i] == input[i]);
            assert(post_rank(sorted@[p as int]) == rank);
            assert forall|k: int| 0 <= k < perm.len() implies #[trigger] sorted@[k] == after[perm[k]] by {
                if k < p {
                    assert(sorted@[k] == old_sorted[k]);
                    assert(perm[k] == old_perm[k]);
                } else if k > p {
                    assert(sorted@[k] == old_sorted[k - 1]);
                    assert(perm[k] == old_perm[k - 1]);
                }
            }
            assert forall|k: int, l: int| 0 <= k < l < sorted@.len() implies post_rank(
                #[trigger] sorted@[k],
            ) >= post_rank(#[trigger] sorted@[l]) by {
                if k < p && l < p {
                    assert(post_rank(old_sorted[k]) >= post_rank(old_sorted[l]));
                } else if k < p && l > p {
                    assert(post_rank(old_sorted[k]) >= post_rank(old_sorted[l - 1]));
                } else if k > p {
                    assert(post_rank(old_sorted[k - 1]) >= post_rank(old_sorted[l - 1]));
                } else if k == p {
                    assert(post_rank(old_sorted[l - 1]) < rank);
                } else {
                    assert(post_rank(old_sorted[k]) >= rank);
                }
            }
            assert forall|k: int, l: int| 0 <= k < l < sorted@.len() && post_rank(
                #[trigger] sorted@[k],
            ) == post_rank(#[trigger] sorted@[l]) implies perm[k] < perm[l] by {
                if k < p && l < p {
                    assert(post_rank(old_sorted[k]) == post_rank(old_sorted[l]));
                } else if k < p && l > p {
                    assert(post_rank(old_sorted[k]) == post_rank(old_sorted[l - 1]));
                } else if k > p {
                    assert(post_rank(old_sorted[k - 1]) == post_rank(old_sorted[l - 1]));
                } else if k == p {
                    assert(post_rank(old_sorted[l - 1]) < rank);
                } else {
                    assert(old_perm[k] < i);
                }
            }
            assert forall|k: int, l: int| 0 <= k < l < perm.len() implies perm[k] != perm[l] by {
                if k < p && l < p {
                } else if k < p && l > p {
                    assert(old_perm[k] != old_perm[l - 1]);
                } else if k > p {
                    assert(old_perm[k - 1] != old_perm[l - 1]);
                } else if k == p {
                    assert(old_perm[l - 1] < i);
                } else {
                    assert(old_perm[k] < i);
                }
            }
            assert forall|k: int| 0 <= k < perm.len() implies #[trigger] perm[k] < i + 1 && 0 <= perm[k] by {
                if k < p {
                    assert(perm[k] == old_perm[k]);
                } else if k > p {
                    assert(perm[k] == old_perm[k - 1]);
                }
            }
        }
    }
    assert(input.take(input.len() as int) =~= input);
    sorted
}

} // verus!
