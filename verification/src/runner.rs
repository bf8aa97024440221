//! The counting steps of the pipelines: from the votes the model extracted
//! to voters, tallies and winners.

use vstd::prelude::*;
use crate::ai::scanner::VideoGame;
use crate::clustering::{cluster_index_of, set_contains, Cluster, ClusterSet};
use crate::ranked_choice::{
    all_ranked, count_of, count_votes, distinct_spec, lemma_contains_push, lemma_distinct_spec,
    Voter,
};
use crate::value::ValueEq;

verus! {

/// The games one post ranked, best first.
#[derive(Clone, Debug, PartialEq, Eq, Hash)]
pub struct ExtractedPost {
    pub post_author: String,
    pub ranks: Vec<VideoGame>,
}

/// The votes one post cast in the "Best Of" categories: category, then the
/// choice.
#[derive(Clone, Debug, PartialEq, Eq)]
pub struct ExtractedBestOfPost<T> {
    pub post_author: String,
    pub votes: Vec<(String, T)>,
}

/// The results of the "Best Of" categories: the votes of every post, and
/// the winners of every category.
#[derive(Clone, Debug)]
pub struct BestOfResults<T> {
    pub posts: Vec<ExtractedBestOfPost<T>>,
    pub winners: Vec<(String, Vec<T>)>,
}

/// One voter's choices in the "Best Of" categories: category, then choice.
#[derive(Clone, Debug)]
pub struct CategoryVoter<T> {
    pub votes: Vec<(String, T)>,
}

/// Category-choice pairs, as views.
pub open spec fn votes_view<T: View>(votes: Seq<(String, T)>) -> Seq<(Seq<char>, T::V)> {
    votes.map_values(|p: (String, T)| (p.0@, p.1@))
}

/// The choice paired with `category`: the last such pair wins, as when the
/// pairs are collected into a map.
pub open spec fn lookup_vote<V>(votes: Seq<(Seq<char>, V)>, category: Seq<char>) -> Option<V>
    decreases votes.len(),
{
    if votes.len() == 0 {
        None
    } else if votes.last().0 == category {
        Some(votes.last().1)
    } else {
        lookup_vote(votes.drop_last(), category)
    }
}

/// The choices made in `category`, voter after voter; voters that made none
/// are left out.
pub open spec fn votes_in_category<V>(voters: Seq<Seq<(Seq<char>, V)>>, category: Seq<char>) -> Seq<V>
    decreases voters.len(),
{
    if voters.len() == 0 {
        seq![]
    } else {
        let rest = votes_in_category(voters.drop_last(), category);
        match lookup_vote(voters.last(), category) {
            Some(v) => rest.push(v),
            None => rest,
        }
    }
}

/// The category votes of the voters, as views.
pub open spec fn voters_view<T: View>(voters: Seq<CategoryVoter<T>>) -> Seq<Seq<(Seq<char>, T::V)>> {
    voters.map_values(|v: CategoryVoter<T>| votes_view(v.votes@))
}

/// Whether no value of `s` occurs more often than `v`.
pub open spec fn has_most_votes<V>(s: Seq<V>, v: V) -> bool {
    forall|w: V| s.contains(w) ==> count_of(s, w) <= count_of(s, v)
}

/// The values of `s` that occur most often, each once, in the order they
/// first occur.
pub open spec fn most_voted<V>(s: Seq<V>) -> Seq<V> {
    distinct_spec(s).filter(|v: V| has_most_votes(s, v))
}

/// The choice paired with `category` in `votes`, if any.
pub fn category_vote<'a, T: ValueEq>(votes: &'a Vec<(String, T)>, category: &String) -> (r: Option<&'a T>)
    ensures
        match r {
            Some(v) => lookup_vote(votes_view(votes@), category@) == Some(v@),
            None => lookup_vote(votes_view(votes@), category@) is None,
        },
{
    let ghost vv = votes_view(votes@);
    let mut i: usize = votes.len();
    assert(vv.take(i as int) =~= vv);
    while i > 0
        invariant
            i <= votes@.len(),
            vv == votes_view(votes@),
            lookup_vote(vv, category@) == lookup_vote(vv.take(i as int), category@),
        decreases i,
    {
        assert(vv.take(i as int).drop_last() =~= vv.take(i - 1));
        if votes[i - 1].0 == *category {
            return Some(&votes[i - 1].1);
        }
        i = i - 1;
    }
    None
}

/// The choices made in `category`, voter after voter.
pub fn votes_for_category<T: ValueEq>(voters: &[CategoryVoter<T>], category: &String) -> (r: Vec<T>)
    ensures
        r@.map_values(|v: T| v@) == votes_in_category(voters_view(voters@), category@),
{
    let ghost vv = voters_view(voters@);
    let mut out: Vec<T> = Vec::new();
    let mut k: usize = 0;
    assert(out@.map_values(|v: T| v@) =~= Seq::<T::V>::empty());
    while k < voters.len()
        invariant
            k <= voters@.len(),
            vv == voters_view(voters@),
            out@.map_values(|v: T| v@) == votes_in_category(vv.take(k as int), category@),
        decreases voters@.len() - k,
    {
        assert(vv.take(k + 1).drop_last() =~= vv.take(k as int));
        assert(vv.take(k + 1).last() == votes_view(voters@[k as int].votes@));
        let ghost before = out@.map_values(|v: T| v@);
        match category_vote(&voters[k].votes, category) {
            Some(v) => {
                out.push(v.clone_value());
                assert(out@.map_values(|v: T| v@) =~= before.push(v@));
            },
            None => {},
        }
        k = k + 1;
    }
    assert(vv.take(voters@.len() as int) =~= vv);
    out
}

/// The choices that received the most votes in `category`, each once, in the
/// order they first received a vote; empty when nobody voted in it.
pub fn category_winners<T: ValueEq>(voters: &[CategoryVoter<T>], category: &String) -> (r: Vec<T>)
    ensures
        r@.map_values(|v: T| v@) == most_voted(votes_in_category(voters_view(voters@), category@)),
{
    let votes = votes_for_category(voters, category);
    let ghost s = votes@.map_values(|v: T| v@);
    let counts = count_votes(&votes);
    let ghost keys = counts@.map_values(|p: (T, usize)| p.0@);
    proof {
        lemma_distinct_spec(s);
    }
    let mut best: usize = 0;
    let mut j: usize = 0;
    while j < counts.len()
        invariant
            j <= counts@.len(),
            forall|q: int| 0 <= q < j ==> counts@[q].1 <= best,
            j > 0 ==> exists|q: int| 0 <= q < j && counts@[q].1 == best,
            j == 0 ==> best == 0,
        decreases counts@.len() - j,
    {
        if counts[j].1 > best {
            best = counts[j].1;
        }
        j = j + 1;
    }
    // A value has the most votes exactly when its count is the best count.
    assert forall|v: T::V| s.contains(v) implies (has_most_votes(s, v) <==> count_of(s, v) == best) by {
        assert(keys.contains(v));
        let q = choose|q: int| 0 <= q < keys.len() && keys[q] == v;
        assert(counts@[q].0@ == v);
        assert(counts@[q].1 == count_of(s, v));
        if has_most_votes(s, v) {
            let w = choose|w: int| 0 <= w < counts@.len() && counts@[w].1 == best;
            assert(keys[w] == counts@[w].0@);
            assert(keys.contains(counts@[w].0@));
            assert(s.contains(counts@[w].0@));
        }
        if count_of(s, v) == best {
            assert forall|w: T::V| s.contains(w) implies count_of(s, w) <= count_of(s, v) by {
                assert(keys.contains(w));
                let p = choose|p: int| 0 <= p < keys.len() && keys[p] == w;
                assert(counts@[p].0@ == w);
            }
        }
    }
    let ghost pred = |v: T::V| has_most_votes(s, v);
    let mut winners: Vec<T> = Vec::new();
    let mut i: usize = 0;
    assert(keys.take(0).filter(pred) =~= Seq::<T::V>::empty()) by {
        reveal(Seq::filter);
    }
    assert(winners@.map_values(|v: T| v@) =~= Seq::<T::V>::empty());
    while i < counts.len()
        invariant
            i <= counts@.len(),
            keys == counts@.map_values(|p: (T, usize)| p.0@),
            keys == distinct_spec(s),
            pred == (|v: T::V| has_most_votes(s, v)),
            forall|q: int| 0 <= q < counts@.len() ==> (#[trigger] counts@[q]).1 == count_of(s, counts@[q].0@),
            forall|v: T::V| s.contains(v) ==> (has_most_votes(s, v) <==> count_of(s, v) == best),
            forall|v: T::V| distinct_spec(s).contains(v) <==> s.contains(v),
            winners@.map_values(|v: T| v@) == keys.take(i as int).filter(pred),
        decreases counts@.len() - i,
    {
        let ghost before = winners@.map_values(|v: T| v@);
        assert(keys.take(i + 1) =~= keys.take(i as int).push(keys[i as int]));
        proof {
            keys.take(i as int).lemma_filter_push(keys[i as int], pred);
            assert(keys[i as int] == counts@[i as int].0@);
            assert(distinct_spec(s).contains(keys[i as int]));
        }
        if counts[i].1 == best {
            winners.push(counts[i].0.clone_value());
            assert(winners@.map_values(|v: T| v@) =~= before.push(keys[i as int]));
        }
        i = i + 1;
    }
    assert(keys.take(counts@.len() as int) =~= keys);
    winners
}


/// The games each post ranked, as views.
pub open spec fn posts_ranks_view(posts: Seq<ExtractedPost>) -> Seq<Seq<(Seq<char>, Seq<char>)>> {
    posts.map_values(|p: ExtractedPost| p.ranks@.map_values(|g: VideoGame| g@))
}

/// All ranked games, post after post.
pub fn flatten_ranked_games(posts: &[ExtractedPost]) -> (r: Vec<VideoGame>)
    ensures
        r@.map_values(|g: VideoGame| g@) == all_ranked(posts_ranks_view(posts@)),
{
    let ghost pv = posts_ranks_view(posts@);
    let mut out: Vec<VideoGame> = Vec::new();
    let mut k: usize = 0;
    assert(out@.map_values(|g: VideoGame| g@) =~= Seq::<(Seq<char>, Seq<char>)>::empty());
    while k < posts.len()
        invariant
            k <= posts@.len(),
            pv == posts_ranks_view(posts@),
            out@.map_values(|g: VideoGame| g@) == all_ranked(pv.take(k as int)),
        decreases posts@.len() - k,
    {
        let ranks = &posts[k].ranks;
        let ghost rk = ranks@.map_values(|g: VideoGame| g@);
        let ghost before = out@.map_values(|g: VideoGame| g@);
        assert(pv.take(k + 1).drop_last() =~= pv.take(k as int));
        assert(pv.take(k + 1).last() == rk);
        let mut i: usize = 0;
        assert(before + rk.take(0) =~= before);
        while i < ranks.len()
            invariant
                i <= ranks@.len(),
                rk == ranks@.map_values(|g: VideoGame| g@),
                out@.map_values(|g: VideoGame| g@) == before + rk.take(i as int),
            decreases ranks@.len() - i,
        {
            let ghost pre = out@.map_values(|g: VideoGame| g@);
            out.push(ranks[i].clone_value());
            assert(out@.map_values(|g: VideoGame| g@) =~= pre.push(rk[i as int]));
            assert(rk.take(i + 1) =~= rk.take(i as int).push(rk[i as int]));
            assert(before + rk.take(i + 1) =~= (before + rk.take(i as int)).push(rk[i as int]));
            i = i + 1;
        }
        assert(rk.take(ranks@.len() as int) =~= rk);
        k = k + 1;
    }
    assert(pv.take(posts@.len() as int) =~= pv);
    out
}

/// The cluster index of a game that some cluster holds.
fn cluster_id_of(cluster_set: &ClusterSet<VideoGame>, game: &VideoGame) -> (r: usize)
    requires
        set_contains(cluster_set@, game@),
    ensures
        cluster_index_of(cluster_set@, game@) == Some(r as int),
{
    proof {
        crate::clustering::lemma_cluster_index_of(cluster_set@, game@);
    }
    match cluster_set.get_cluster_index(game) {
        Some(i) => i,
        None => 0,
    }
}

/// The ballot of every post: the cluster index of each game it ranked, in
/// order. Every ranked game must be in a cluster.
pub fn organize_posts_into_voters(cluster_set: &ClusterSet<VideoGame>, posts: &[ExtractedPost]) -> (r: Vec<Voter<usize>>)
    requires
        forall|i: int, j: int|
            0 <= i < posts@.len() && 0 <= j < posts@[i].ranks@.len() ==> set_contains(
                cluster_set@,
                #[trigger] posts@[i].ranks@[j]@,
            ),
    ensures
        r@.len() == posts@.len(),
        forall|i: int|
            0 <= i < posts@.len() ==> (#[trigger] r@[i]).rankings@.len() == posts@[i].ranks@.len(),
        forall|i: int, j: int|
            0 <= i < posts@.len() && 0 <= j < posts@[i].ranks@.len() ==> cluster_index_of(
                cluster_set@,
                posts@[i].ranks@[j]@,
            ) == Some(#[trigger] r@[i].rankings@[j] as int),
{
    let mut out: Vec<Voter<usize>> = Vec::new();
    let mut k: usize = 0;
    while k < posts.len()
        invariant
            k <= posts@.len(),
            out@.len() == k,
            forall|i: int, j: int|
                0 <= i < posts@.len() && 0 <= j < posts@[i].ranks@.len() ==> set_contains(
                    cluster_set@,
                    #[trigger] posts@[i].ranks@[j]@,
                ),
            forall|i: int| 0 <= i < k ==> (#[trigger] out@[i]).rankings@.len() == posts@[i].ranks@.len(),
            forall|i: int, j: int|
                0 <= i < k && 0 <= j < posts@[i].ranks@.len() ==> cluster_index_of(
                    cluster_set@,
                    posts@[i].ranks@[j]@,
                ) == Some(#[trigger] out@[i].rankings@[j] as int),
        decreases posts@.len() - k,
    {
        let ranks = &posts[k].ranks;
        let mut ids: Vec<usize> = Vec::new();
        let mut j: usize = 0;
        while j < ranks.len()
            invariant
                k < posts@.len(),
                ranks == posts@[k as int].ranks,
                j <= ranks@.len(),
                ids@.len() == j,
                forall|i: int, j: int|
                    0 <= i < posts@.len() && 0 <= j < posts@[i].ranks@.len() ==> set_contains(
                        cluster_set@,
                        #[trigger] posts@[i].ranks@[j]@,
                    ),
                forall|q: int| 0 <= q < j ==> cluster_index_of(cluster_set@, ranks@[q]@) == Some(#[trigger] ids@[q] as int),
            decreases ranks@.len() - j,
        {
            assert(set_contains(cluster_set@, posts@[k as int].ranks@[j as int]@));
            ids.push(cluster_id_of(cluster_set, &ranks[j]));
            j = j + 1;
        }
        out.push(Voter { rankings: ids });
        k = k + 1;
    }
    out
}

/// The category ballot of every post: each category with the cluster index
/// of the game voted for. Every voted game must be in a cluster.
pub fn organize_best_of_posts_into_voters(
    cluster_set: &ClusterSet<VideoGame>,
    posts: &[ExtractedBestOfPost<VideoGame>],
) -> (r: Vec<CategoryVoter<usize>>)
    requires
        forall|i: int, j: int|
            0 <= i < posts@.len() && 0 <= j < posts@[i].votes@.len() ==> set_contains(
                cluster_set@,
                #[trigger] posts@[i].votes@[j].1@,
            ),
    ensures
        r@.len() == posts@.len(),
        forall|i: int| 0 <= i < posts@.len() ==> (#[trigger] r@[i]).votes@.len() == posts@[i].votes@.len(),
        forall|i: int, j: int|
            0 <= i < posts@.len() && 0 <= j < posts@[i].votes@.len() ==> {
                &&& (#[trigger] r@[i].votes@[j]).0@ == posts@[i].votes@[j].0@
                &&& cluster_index_of(cluster_set@, posts@[i].votes@[j].1@) == Some(r@[i].votes@[j].1 as int)
            },
{
    let mut out: Vec<CategoryVoter<usize>> = Vec::new();
    let mut k: usize = 0;
    while k < posts.len()
        invariant
            k <= posts@.len(),
            out@.len() == k,
            forall|i: int, j: int|
                0 <= i < posts@.len() && 0 <= j < posts@[i].votes@.len() ==> set_contains(
                    cluster_set@,
                    #[trigger] posts@[i].votes@[j].1@,
                ),
            forall|i: int| 0 <= i < k ==> (#[trigger] out@[i]).votes@.len() == posts@[i].votes@.len(),
            forall|i: int, j: int|
                0 <= i < k && 0 <= j < posts@[i].votes@.len() ==> {
                    &&& (#[trigger] out@[i].votes@[j]).0@ == posts@[i].votes@[j].0@
                    &&& cluster_index_of(cluster_set@, posts@[i].votes@[j].1@) == Some(out@[i].votes@[j].1 as int)
                },
        decreases posts@.len() - k,
    {
        let votes = &posts[k].votes;
        let mut ids: Vec<(String, usize)> = Vec::new();
        let mut j: usize = 0;
        while j < votes.len()
            invariant
                k < posts@.len(),
                votes == posts@[k as int].votes,
                j <= votes@.len(),
                ids@.len() == j,
                forall|i: int, j: int|
                    0 <= i < posts@.len() && 0 <= j < posts@[i].votes@.len() ==> set_contains(
                        cluster_set@,
                        #[trigger] posts@[i].votes@[j].1@,
                    ),
                forall|q: int|
                    0 <= q < j ==> {
                        &&& (#[trigger] ids@[q]).0@ == votes@[q].0@
                        &&& cluster_index_of(cluster_set@, votes@[q].1@) == Some(ids@[q].1 as int)
                    },
            decreases votes@.len() - j,
        {
            assert(set_contains(cluster_set@, posts@[k as int].votes@[j as int].1@));
            let id = cluster_id_of(cluster_set, &votes[j].1);
            ids.push((votes[j].0.clone(), id));
            j = j + 1;
        }
        out.push(CategoryVoter { votes: ids });
        k = k + 1;
    }
    out
}

/// The length of a title in bytes, as UTF-8: what `str::len` gives.
pub open spec fn title_bytes(g: (Seq<char>, Seq<char>)) -> usize {
    vstd::utf8::encode_utf8(g.0).len() as usize
}

/// The position of the last game with the longest title (0 when there is
/// none).
pub open spec fn longest_title_index(games: Seq<(Seq<char>, Seq<char>)>) -> int
    decreases games.len(),
{
    if games.len() <= 1 {
        0
    } else {
        let b = longest_title_index(games.drop_last());
        if title_bytes(games.last()) >= title_bytes(games[b]) {
            games.len() - 1
        } else {
            b
        }
    }
}

proof fn lemma_longest_title_index_in_range(games: Seq<(Seq<char>, Seq<char>)>)
    ensures
        games.len() > 0 ==> 0 <= longest_title_index(games) < games.len(),
    decreases games.len(),
{
    if games.len() > 1 {
        lemma_longest_title_index_in_range(games.drop_last());
    }
}

/// The game chosen to stand for a cluster has a title at least as long, in
/// UTF-8 bytes, as every member's title, and every later member's title is
/// shorter: the last of the longest titles wins, and the authors play no
/// part. Title lengths are those of strings, so they fit in a `usize`.
pub proof fn lemma_representative_has_longest_title(games: Seq<(Seq<char>, Seq<char>)>)
    requires
        games.len() > 0,
        forall|i: int| 0 <= i < games.len() ==> vstd::utf8::encode_utf8(#[trigger] games[i].0).len() <= usize::MAX,
    ensures
        0 <= longest_title_index(games) < games.len(),
        forall|i: int|
            0 <= i < games.len() ==> vstd::utf8::encode_utf8(#[trigger] games[i].0).len()
                <= vstd::utf8::encode_utf8(games[longest_title_index(games)].0).len(),
        forall|i: int|
            longest_title_index(games) < i < games.len() ==> vstd::utf8::encode_utf8(#[trigger] games[i].0).len()
                < vstd::utf8::encode_utf8(games[longest_title_index(games)].0).len(),
    decreases games.len(),
{
    lemma_longest_title_index_in_range(games);
    if games.len() > 1 {
        let d = games.drop_last();
        assert forall|i: int| 0 <= i < d.len() implies vstd::utf8::encode_utf8(#[trigger] d[i].0).len() <= usize::MAX by {
            assert(d[i] == games[i]);
        }
        lemma_representative_has_longest_title(d);
        let b = longest_title_index(d);
        let n = games.len() - 1;
        assert(d[b] == games[b]);
        assert(vstd::utf8::encode_utf8(games[n].0).len() <= usize::MAX);
        assert(vstd::utf8::encode_utf8(games[b].0).len() <= usize::MAX);
        assert forall|i: int|
            0 <= i < games.len() implies vstd::utf8::encode_utf8(#[trigger] games[i].0).len()
                <= vstd::utf8::encode_utf8(games[longest_title_index(games)].0).len() by {
            if i < n {
                assert(d[i] == games[i]);
            }
        }
        assert forall|i: int|
            longest_title_index(games) < i < games.len() implies vstd::utf8::encode_utf8(#[trigger] games[i].0).len()
                < vstd::utf8::encode_utf8(games[longest_title_index(games)].0).len() by {
            if i < n {
                assert(d[i] == games[i]);
            }
        }
    }
}

/// The game that stands for a cluster: the one with the longest title, since
/// some voters abbreviate titles; the last such game when several tie. The
/// cluster must not be empty.
pub fn choose_representative_entry_for_game(cluster: &Cluster<VideoGame>) -> (r: &VideoGame)
    requires
        cluster@.len() > 0,
    ensures
        r@ == cluster@[longest_title_index(cluster@)],
{
    let games = cluster.as_slice();
    let ghost gv = cluster@;
    assert(games@.map_values(|v: VideoGame| v@) == gv);
    let mut best: usize = 0;
    let mut best_len = games[0].title.as_str().len();
    assert(gv[0] == games@[0]@);
    let mut i: usize = 1;
    assert(gv.take(1).len() == 1);
    while i < games.len()
        invariant
            gv == games@.map_values(|v: VideoGame| v@),
            1 <= i <= games@.len(),
            best < i,
            best == longest_title_index(gv.take(i as int)),
            best_len == title_bytes(gv[best as int]),
        decreases games@.len() - i,
    {
        let l = games[i].title.as_str().len();
        proof {
            lemma_longest_title_index_in_range(gv.take(i as int));
            assert(gv.take(i + 1).drop_last() =~= gv.take(i as int));
            assert(gv.take(i as int)[best as int] == gv[best as int]);
            assert(gv[i as int] == games@[i as int]@);
            assert(l == title_bytes(gv[i as int]));
        }
        if l >= best_len {
            best = i;
            best_len = l;
        }
        i = i + 1;
    }
    assert(gv.take(games@.len() as int) =~= gv);
    &games[best]
}

/// The category-vote pairs whose choice is not `author`, in order.
pub open spec fn kept_votes(votes: Seq<(Seq<char>, Seq<char>)>, author: Seq<char>) -> Seq<(Seq<char>, Seq<char>)> {
    votes.filter(not_for(author))
}

/// Whether a category-vote pair names someone other than `author`.
pub open spec fn not_for(author: Seq<char>) -> spec_fn((Seq<char>, Seq<char>)) -> bool {
    |p: (Seq<char>, Seq<char>)| p.1 != author
}

/// The category-vote pairs whose choice is not `author`: the model often
/// lets a post vote for its own author, which does not count.
pub fn remove_self_votes(votes: Vec<(String, String)>, author: &String) -> (r: Vec<(String, String)>)
    ensures
        votes_view(r@) == kept_votes(votes_view(votes@), author@),
{
    let ghost vv = votes_view(votes@);
    let ghost pred = not_for(author@);
    let mut out: Vec<(String, String)> = Vec::new();
    let mut i: usize = 0;
    assert(vv.take(0).filter(pred) =~= Seq::<(Seq<char>, Seq<char>)>::empty()) by {
        reveal(Seq::filter);
    }
    assert(votes_view(out@) =~= Seq::<(Seq<char>, Seq<char>)>::empty());
    while i < votes.len()
        invariant
            i <= votes@.len(),
            vv == votes_view(votes@),
            pred == not_for(author@),
            votes_view(out@) == vv.take(i as int).filter(pred),
        decreases votes@.len() - i,
    {
        let ghost before = votes_view(out@);
        assert(vv.take(i + 1) =~= vv.take(i as int).push(vv[i as int]));
        proof {
            vv.take(i as int).lemma_filter_push(vv[i as int], pred);
        }
        if votes[i].1 != *author {
            out.push((votes[i].0.clone(), votes[i].1.clone()));
            assert(votes_view(out@) =~= before.push(vv[i as int]));
        }
        i = i + 1;
    }
    assert(vv.take(votes@.len() as int) =~= vv);
    out
}

/// The winners of every category, category after category.
pub fn winners_by_category<T: ValueEq>(voters: &[CategoryVoter<T>], categories: &[String]) -> (r: Vec<(String, Vec<T>)>)
    ensures
        r@.len() == categories@.len(),
        forall|k: int|
            0 <= k < categories@.len() ==> {
                &&& (#[trigger] r@[k]).0@ == categories@[k]@
                &&& r@[k].1@.map_values(|v: T| v@) == most_voted(
                    votes_in_category(voters_view(voters@), categories@[k]@),
                )
            },
{
    let mut out: Vec<(String, Vec<T>)> = Vec::new();
    let mut k: usize = 0;
    while k < categories.len()
        invariant
            k <= categories@.len(),
            out@.len() == k,
            forall|j: int|
                0 <= j < k ==> {
                    &&& (#[trigger] out@[j]).0@ == categories@[j]@
                    &&& out@[j].1@.map_values(|v: T| v@) == most_voted(
                        votes_in_category(voters_view(voters@), categories@[j]@),
                    )
                },
        decreases categories@.len() - k,
    {
        let winners = category_winners(voters, &categories[k]);
        out.push((categories[k].clone(), winners));
        k = k + 1;
    }
    out
}


proof fn lemma_lookup_vote_member<V>(votes: Seq<(Seq<char>, V)>, category: Seq<char>)
    ensures
        lookup_vote(votes, category) matches Some(x) ==> exists|j: int| 0 <= j < votes.len() && #[trigger] votes[j].1 == x,
    decreases votes.len(),
{
    if votes.len() > 0 && votes.last().0 != category {
        lemma_lookup_vote_member(votes.drop_last(), category);
        if let Some(x) = lookup_vote(votes, category) {
            let j = choose|j: int| 0 <= j < votes.drop_last().len() && #[trigger] votes.drop_last()[j].1 == x;
            assert(votes[j].1 == x);
        }
    } else if votes.len() > 0 {
        assert(votes[votes.len() - 1].1 == votes.last().1);
    }
}

proof fn lemma_votes_in_category_member<V>(voters: Seq<Seq<(Seq<char>, V)>>, category: Seq<char>, x: V)
    requires
        votes_in_category(voters, category).contains(x),
    ensures
        exists|i: int, j: int| 0 <= i < voters.len() && 0 <= j < voters[i].len() && #[trigger] voters[i][j].1 == x,
    decreases voters.len(),
{
    let rest = votes_in_category(voters.drop_last(), category);
    lemma_lookup_vote_member(voters.last(), category);
    match lookup_vote(voters.last(), category) {
        Some(v) => {
            lemma_contains_push(rest, v, x);
            if x == v {
                let j = choose|j: int| 0 <= j < voters.last().len() && #[trigger] voters.last()[j].1 == x;
                assert(voters[voters.len() - 1][j].1 == x);
            } else {
                lemma_votes_in_category_member(voters.drop_last(), category, x);
                let (i, j) = choose|i: int, j: int| 0 <= i < voters.drop_last().len() && 0 <= j < voters.drop_last()[i].len() && #[trigger] voters.drop_last()[i][j].1 == x;
                assert(voters[i][j].1 == x);
            }
        },
        None => {
            lemma_votes_in_category_member(voters.drop_last(), category, x);
            let (i, j) = choose|i: int, j: int| 0 <= i < voters.drop_last().len() && 0 <= j < voters.drop_last()[i].len() && #[trigger] voters.drop_last()[i][j].1 == x;
            assert(voters[i][j].1 == x);
        },
    }
}

/// Every most-voted value is one of the votes.
pub proof fn lemma_most_voted_are_votes<V>(s: Seq<V>, x: V)
    requires
        most_voted(s).contains(x),
    ensures
        s.contains(x),
{
    lemma_distinct_spec(s);
    let pred = |v: V| has_most_votes(s, v);
    assert(distinct_spec(s).filter(pred).contains(x));
    distinct_spec(s).lemma_filter_contains_rev(pred, x);
}

/// The game that stands for each cluster index in `ids`.
pub open spec fn representatives(clusters: Seq<Seq<(Seq<char>, Seq<char>)>>, ids: Seq<usize>) -> Seq<(Seq<char>, Seq<char>)> {
    ids.map_values(|i: usize| clusters[i as int][longest_title_index(clusters[i as int])])
}

/// The winning games of every category: the clusters that received the most
/// votes, each given by its representative game. Every vote must name a
/// cluster that is not empty.
pub fn game_winners_by_category(
    clusters: &ClusterSet<VideoGame>,
    voters: &[CategoryVoter<usize>],
    categories: &[String],
) -> (r: Vec<(String, Vec<VideoGame>)>)
    requires
        forall|i: int, j: int|
            0 <= i < voters@.len() && 0 <= j < voters@[i].votes@.len() ==> {
                &&& #[trigger] voters@[i].votes@[j].1 < clusters@.len()
                &&& clusters@[voters@[i].votes@[j].1 as int].len() > 0
            },
    ensures
        r@.len() == categories@.len(),
        forall|k: int|
            0 <= k < categories@.len() ==> {
                &&& (#[trigger] r@[k]).0@ == categories@[k]@
                &&& r@[k].1@.map_values(|g: VideoGame| g@) == representatives(
                    clusters@,
                    most_voted(votes_in_category(voters_view(voters@), categories@[k]@)),
                )
            },
{
    let ghost vv = voters_view(voters@);
    assert forall|i: int, j: int| 0 <= i < vv.len() && 0 <= j < vv[i].len() implies {
        &&& #[trigger] vv[i][j].1 < clusters@.len()
        &&& clusters@[vv[i][j].1 as int].len() > 0
    } by {
        assert(vv[i][j].1 == voters@[i].votes@[j].1);
    }
    let mut out: Vec<(String, Vec<VideoGame>)> = Vec::new();
    let mut k: usize = 0;
    while k < categories.len()
        invariant
            k <= categories@.len(),
            out@.len() == k,
            vv == voters_view(voters@),
            forall|i: int, j: int| 0 <= i < vv.len() && 0 <= j < vv[i].len() ==> {
                &&& #[trigger] vv[i][j].1 < clusters@.len()
                &&& clusters@[vv[i][j].1 as int].len() > 0
            },
            forall|j: int|
                0 <= j < k ==> {
                    &&& (#[trigger] out@[j]).0@ == categories@[j]@
                    &&& out@[j].1@.map_values(|g: VideoGame| g@) == representatives(
                        clusters@,
                        most_voted(votes_in_category(vv, categories@[j]@)),
                    )
                },
        decreases categories@.len() - k,
    {
        let ids = category_winners(voters, &categories[k]);
        let ghost winners = most_voted(votes_in_category(vv, categories@[k as int]@));
        assert(ids@ == winners) by {
            assert(ids@ =~= ids@.map_values(|v: usize| v@));
        }
        let mut games: Vec<VideoGame> = Vec::new();
        let mut q: usize = 0;
        while q < ids.len()
            invariant
                k < categories@.len(),
                q <= ids@.len(),
                ids@ == winners,
                winners == most_voted(votes_in_category(vv, categories@[k as int]@)),
                forall|i: int, j: int| 0 <= i < vv.len() && 0 <= j < vv[i].len() ==> {
                    &&& #[trigger] vv[i][j].1 < clusters@.len()
                    &&& clusters@[vv[i][j].1 as int].len() > 0
                },
                games@.map_values(|g: VideoGame| g@) == representatives(clusters@, winners.take(q as int)),
            decreases ids@.len() - q,
        {
            let id = ids[q];
            proof {
                assert(winners[q as int] == id);
                lemma_most_voted_are_votes(votes_in_category(vv, categories@[k as int]@), id);
                lemma_votes_in_category_member(vv, categories@[k as int]@, id);
            }
            let cluster = clusters.cluster(id);
            let rep = choose_representative_entry_for_game(cluster);
            let ghost before = games@.map_values(|g: VideoGame| g@);
            games.push(rep.clone_value());
            assert(winners.take(q + 1) =~= winners.take(q as int).push(id));
            assert(rep@ == clusters@[id as int][longest_title_index(clusters@[id as int])]);
            assert(representatives(clusters@, winners.take(q + 1)) =~= representatives(clusters@, winners.take(q as int)).push(rep@));
            assert(games@.map_values(|g: VideoGame| g@) =~= representatives(clusters@, winners.take(q + 1)));
            q = q + 1;
        }
        assert(winners.take(ids@.len() as int) =~= winners);
        out.push((categories[k].clone(), games));
        k = k + 1;
    }
    out
}


/// The category ballot of every post that voted for users: its votes as
/// they are.
pub fn user_voters(posts: &[ExtractedBestOfPost<String>]) -> (r: Vec<CategoryVoter<String>>)
    ensures
        r@.len() == posts@.len(),
        forall|i: int| 0 <= i < posts@.len() ==> votes_view((#[trigger] r@[i]).votes@) == votes_view(posts@[i].votes@),
{
    let mut out: Vec<CategoryVoter<String>> = Vec::new();
    let mut k: usize = 0;
    while k < posts.len()
        invariant
            k <= posts@.len(),
            out@.len() == k,
            forall|i: int| 0 <= i < k ==> votes_view((#[trigger] out@[i]).votes@) == votes_view(posts@[i].votes@),
        decreases posts@.len() - k,
    {
        let votes = &posts[k].votes;
        let mut copy: Vec<(String, String)> = Vec::new();
        let mut j: usize = 0;
        while j < votes.len()
            invariant
                j <= votes@.len(),
                votes_view(copy@) == votes_view(votes@).take(j as int),
            decreases votes@.len() - j,
        {
            let ghost before = votes_view(copy@);
            copy.push((votes[j].0.clone(), votes[j].1.clone()));
            assert(votes_view(copy@) =~= before.push(votes_view(votes@)[j as int]));
            assert(votes_view(votes@).take(j + 1) =~= votes_view(votes@).take(j as int).push(votes_view(votes@)[j as int]));
            j = j + 1;
        }
        assert(votes_view(votes@).take(votes@.len() as int) =~= votes_view(votes@));
        out.push(CategoryVoter { votes: copy });
        k = k + 1;
    }
    out
}


/// Whether no value among the first `k` of `s` occurs more often than
/// `s[j]`.
spec fn outnumbers_prefix<V>(s: Seq<V>, k: int, j: int) -> bool {
    forall|i: int| 0 <= i < k ==> count_of(s, #[trigger] s[i]) <= count_of(s, s[j])
}

proof fn lemma_some_value_has_most_votes_upto<V>(s: Seq<V>, k: int)
    requires
        0 < k <= s.len(),
    ensures
        exists|j: int| 0 <= j < k && #[trigger] outnumbers_prefix(s, k, j),
    decreases k,
{
    if k > 1 {
        lemma_some_value_has_most_votes_upto(s, k - 1);
        let j = choose|j: int| 0 <= j < k - 1 && #[trigger] outnumbers_prefix(s, k - 1, j);
        if count_of(s, s[k - 1]) > count_of(s, s[j]) {
            assert forall|i: int| 0 <= i < k implies count_of(s, #[trigger] s[i]) <= count_of(s, s[k - 1]) by {
                if i < k - 1 {
                    assert(count_of(s, s[i]) <= count_of(s, s[j]));
                }
            }
            assert(outnumbers_prefix(s, k, k - 1));
        } else {
            assert(outnumbers_prefix(s, k, j));
        }
    } else {
        assert(outnumbers_prefix(s, k, 0));
    }
}

/// The winners of a category are exactly the votes that no other vote
/// outnumbers, each listed once; when at least one vote was cast there is at
/// least one winner.
pub proof fn lemma_winners_have_most_votes<V>(s: Seq<V>)
    ensures
        forall|v: V| #[trigger] most_voted(s).contains(v) <==> s.contains(v) && has_most_votes(s, v),
        most_voted(s).no_duplicates(),
        s.len() > 0 ==> most_voted(s).len() > 0,
{
    lemma_distinct_spec(s);
    let d = distinct_spec(s);
    let pred = |v: V| has_most_votes(s, v);
    assert forall|v: V| #[trigger] most_voted(s).contains(v) <==> s.contains(v) && has_most_votes(s, v) by {
        if most_voted(s).contains(v) {
            d.lemma_filter_contains_rev(pred, v);
            let i = choose|i: int| 0 <= i < d.filter(pred).len() && d.filter(pred)[i] == v;
            d.lemma_filter_pred(pred, i);
        }
        if s.contains(v) && has_most_votes(s, v) {
            assert(d.contains(v));
            let i = choose|i: int| 0 <= i < d.len() && d[i] == v;
            d.lemma_filter_contains(pred, i);
        }
    }
    lemma_filter_keeps_no_duplicates(d, pred);
    if s.len() > 0 {
        lemma_some_value_has_most_votes_upto(s, s.len() as int);
        let j = choose|j: int| 0 <= j < s.len() && #[trigger] outnumbers_prefix(s, s.len() as int, j);
        assert(has_most_votes(s, s[j])) by {
            assert forall|w: V| s.contains(w) implies count_of(s, w) <= count_of(s, s[j]) by {
                let i = choose|i: int| 0 <= i < s.len() && s[i] == w;
                assert(count_of(s, s[i]) <= count_of(s, s[j]));
            }
        }
        assert(s.contains(s[j]));
        assert(most_voted(s).contains(s[j]));
    }
}

proof fn lemma_filter_keeps_no_duplicates<V>(s: Seq<V>, pred: spec_fn(V) -> bool)
    requires
        s.no_duplicates(),
    ensures
        s.filter(pred).no_duplicates(),
    decreases s.len(),
{
    if s.len() > 0 {
        let d = s.drop_last();
        assert(d.push(s.last()) =~= s);
        assert(d.no_duplicates()) by {
            assert forall|i: int, j: int| 0 <= i < d.len() && 0 <= j < d.len() && i != j implies d[i] != d[j] by {
                assert(d[i] == s[i] && d[j] == s[j]);
            }
        }
        lemma_filter_keeps_no_duplicates(d, pred);
        d.lemma_filter_push(s.last(), pred);
        if pred(s.last()) {
            let f = d.filter(pred);
            assert(!f.contains(s.last())) by {
                if f.contains(s.last()) {
                    d.lemma_filter_contains_rev(pred, s.last());
                    let i = choose|i: int| 0 <= i < d.len() && d[i] == s.last();
                    assert(s[i] == s[s.len() - 1]);
                }
            }
            assert forall|i: int, j: int| 0 <= i < f.push(s.last()).len() && 0 <= j < f.push(s.last()).len() && i != j implies f.push(s.last())[i] != f.push(s.last())[j] by {
                if i == f.len() {
                    assert(f.push(s.last())[j] == f[j]);
                } else if j == f.len() {
                    assert(f.push(s.last())[i] == f[i]);
                }
            }
        }
    }
}

/// No vote for the post's own author is left.
pub proof fn lemma_no_self_vote_left(votes: Seq<(Seq<char>, Seq<char>)>, author: Seq<char>)
    ensures
        forall|i: int| 0 <= i < kept_votes(votes, author).len() ==> (#[trigger] kept_votes(votes, author)[i]).1 != author,
{
    let pred = not_for(author);
    assert forall|i: int| 0 <= i < kept_votes(votes, author).len() implies (#[trigger] kept_votes(votes, author)[i]).1 != author by {
        votes.lemma_filter_pred(pred, i);
    }
}

} // verus!
