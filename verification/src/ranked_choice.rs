//! Ranked-choice tallies: at which places each entry was ranked, and how
//! often it was ranked at all.

use vstd::prelude::*;
use crate::value::ValueEq;

verus! {

/// One voter's ranking, best entry first.
#[derive(Clone, Debug)]
pub struct Voter<T> {
    pub rankings: Vec<T>,
}

/// The rankings of the voters, as views.
pub open spec fn rankings_views<T: View>(voters: Seq<Voter<T>>) -> Seq<Seq<T::V>> {
    voters.map_values(|v: Voter<T>| v.rankings@.map_values(|x: T| x@))
}

/// The places (0 for first) at which `e` occurs in one ranking, in order.
pub open spec fn places_in<V>(ranking: Seq<V>, e: V) -> Seq<int>
    decreases ranking.len(),
{
    if ranking.len() == 0 {
        seq![]
    } else {
        let rest = places_in(ranking.drop_last(), e);
        if ranking.last() == e {
            rest.push(ranking.len() - 1)
        } else {
            rest
        }
    }
}

/// The places at which `e` was ranked, voter after voter.
pub open spec fn all_places<V>(rankings: Seq<Seq<V>>, e: V) -> Seq<int>
    decreases rankings.len(),
{
    if rankings.len() == 0 {
        seq![]
    } else {
        all_places(rankings.drop_last(), e) + places_in(rankings.last(), e)
    }
}

/// All ranked entries, voter after voter.
pub open spec fn all_ranked<V>(rankings: Seq<Seq<V>>) -> Seq<V>
    decreases rankings.len(),
{
    if rankings.len() == 0 {
        seq![]
    } else {
        all_ranked(rankings.drop_last()) + rankings.last()
    }
}

/// How often `e` occurs in `s`.
pub open spec fn count_of<V>(s: Seq<V>, e: V) -> int
    decreases s.len(),
{
    if s.len() == 0 {
        0
    } else {
        count_of(s.drop_last(), e) + if s.last() == e { 1int } else { 0int }
    }
}

/// The distinct values of `s`, in the order they first occur.
pub open spec fn distinct_spec<V>(s: Seq<V>) -> Seq<V>
    decreases s.len(),
{
    if s.len() == 0 {
        seq![]
    } else {
        let rest = distinct_spec(s.drop_last());
        if rest.contains(s.last()) {
            rest
        } else {
            rest.push(s.last())
        }
    }
}

pub proof fn lemma_count_of_push<V>(s: Seq<V>, x: V, e: V)
    ensures
        count_of(s.push(x), e) == count_of(s, e) + if x == e { 1int } else { 0int },
{
    assert(s.push(x).drop_last() =~= s);
}

pub proof fn lemma_count_of_add<V>(a: Seq<V>, b: Seq<V>, e: V)
    ensures
        count_of(a + b, e) == count_of(a, e) + count_of(b, e),
    decreases b.len(),
{
    if b.len() == 0 {
        assert(a + b =~= a);
    } else {
        lemma_count_of_add(a, b.drop_last(), e);
        assert((a + b).drop_last() =~= a + b.drop_last());
    }
}

pub proof fn lemma_count_of_bounds<V>(s: Seq<V>, e: V)
    ensures
        0 <= count_of(s, e) <= s.len(),
    decreases s.len(),
{
    if s.len() > 0 {
        lemma_count_of_bounds(s.drop_last(), e);
    }
}

pub proof fn lemma_count_zero_when_absent<V>(s: Seq<V>, e: V)
    requires
        !s.contains(e),
    ensures
        count_of(s, e) == 0,
    decreases s.len(),
{
    if s.len() > 0 {
        assert(s[s.len() - 1] == s.last());
        assert forall|j: int| 0 <= j < s.drop_last().len() implies s.drop_last()[j] != e by {
            assert(s[j] == s.drop_last()[j]);
        }
        lemma_count_zero_when_absent(s.drop_last(), e);
    }
}

proof fn lemma_places_in_len<V>(ranking: Seq<V>, e: V)
    ensures
        places_in(ranking, e).len() == count_of(ranking, e),
    decreases ranking.len(),
{
    if ranking.len() > 0 {
        lemma_places_in_len(ranking.drop_last(), e);
    }
}

/// An entry was ranked as often as it has ranking places.
pub proof fn lemma_presence_is_number_of_places<V>(rankings: Seq<Seq<V>>, e: V)
    ensures
        count_of(all_ranked(rankings), e) == all_places(rankings, e).len(),
    decreases rankings.len(),
{
    if rankings.len() > 0 {
        lemma_presence_is_number_of_places(rankings.drop_last(), e);
        lemma_count_of_add(all_ranked(rankings.drop_last()), rankings.last(), e);
        lemma_places_in_len(rankings.last(), e);
    }
}

pub proof fn lemma_contains_push<V>(s: Seq<V>, y: V, x: V)
    ensures
        s.push(y).contains(x) <==> s.contains(x) || x == y,
{
    if s.contains(x) {
        let j = choose|j: int| 0 <= j < s.len() && s[j] == x;
        assert(s.push(y)[j] == x);
    }
    if x == y {
        assert(s.push(y)[s.len() as int] == x);
    }
    if s.push(y).contains(x) && x != y {
        let j = choose|j: int| 0 <= j < s.push(y).len() && s.push(y)[j] == x;
        assert(s[j] == x);
    }
}

pub proof fn lemma_distinct_spec<V>(s: Seq<V>)
    ensures
        forall|x: V| distinct_spec(s).contains(x) <==> s.contains(x),
        distinct_spec(s).no_duplicates(),
    decreases s.len(),
{
    if s.len() > 0 {
        let d = s.drop_last();
        let l = s.last();
        lemma_distinct_spec(d);
        assert(d.push(l) =~= s);
        let rest = distinct_spec(d);
        assert forall|x: V| distinct_spec(s).contains(x) <==> s.contains(x) by {
            lemma_contains_push(d, l, x);
            lemma_contains_push(rest, l, x);
        }
        if !rest.contains(l) {
            assert forall|i: int, j: int| 0 <= i < j < rest.push(l).len() implies rest.push(l)[i] != rest.push(l)[j] by {
                if j == rest.len() {
                    assert(rest.push(l)[i] == rest[i]);
                }
            }
        }
    }
}

/// The places recorded for an entry in one ballot are exactly its 0-based
/// positions in that ballot, in increasing order: a position `p` is listed
/// if and only if the ballot holds the entry at `p`.
pub proof fn lemma_places_are_positions<V>(ranking: Seq<V>, e: V)
    ensures
        forall|p: int|
            #![trigger places_in(ranking, e).contains(p)]
            places_in(ranking, e).contains(p) <==> 0 <= p < ranking.len() && ranking[p] == e,
        forall|a: int, b: int|
            0 <= a < b < places_in(ranking, e).len() ==> #[trigger] places_in(ranking, e)[a]
                < #[trigger] places_in(ranking, e)[b],
    decreases ranking.len(),
{
    if ranking.len() > 0 {
        let d = ranking.drop_last();
        let n = ranking.len() - 1;
        lemma_places_are_positions(d, e);
        let rest = places_in(d, e);
        assert forall|p: int|
            #![trigger places_in(ranking, e).contains(p)]
            places_in(ranking, e).contains(p) <==> 0 <= p < ranking.len() && ranking[p] == e by {
            if ranking.last() == e {
                lemma_contains_push(rest, n, p);
            }
            if 0 <= p < n {
                assert(ranking[p] == d[p]);
            }
        }
        if ranking.last() == e {
            assert forall|a: int, b: int|
                0 <= a < b < places_in(ranking, e).len() implies #[trigger] places_in(ranking, e)[a]
                    < #[trigger] places_in(ranking, e)[b] by {
                if b == rest.len() {
                    assert(rest.contains(rest[a]));
                }
            }
        }
    }
}

proof fn lemma_all_places_flatten_alt<V>(rankings: Seq<Seq<V>>, e: V)
    ensures
        all_places(rankings, e) == rankings.map_values(|r: Seq<V>| places_in(r, e)).flatten_alt(),
    decreases rankings.len(),
{
    if rankings.len() > 0 {
        lemma_all_places_flatten_alt(rankings.drop_last(), e);
        assert(rankings.drop_last().map_values(|r: Seq<V>| places_in(r, e))
            =~= rankings.map_values(|r: Seq<V>| places_in(r, e)).drop_last());
    }
}

/// The places of an entry over all ballots are its places in each ballot,
/// ballot after ballot.
pub proof fn lemma_all_places_joins_ballots<V>(rankings: Seq<Seq<V>>, e: V)
    ensures
        all_places(rankings, e) == rankings.map_values(|r: Seq<V>| places_in(r, e)).flatten(),
{
    lemma_all_places_flatten_alt(rankings, e);
    rankings.map_values(|r: Seq<V>| places_in(r, e)).lemma_flatten_and_flatten_alt_are_equivalent();
}

/// Whether every entry that a voter ranked is among `entries`.
pub open spec fn ranks_only_entries<V>(entries: Seq<V>, rankings: Seq<Seq<V>>) -> bool {
    forall|i: int, j: int|
        0 <= i < rankings.len() && 0 <= j < rankings[i].len() ==> entries.contains(
            #[trigger] rankings[i][j],
        )
}

/// The places (0 for first) at which the voters ranked `entry`, voter after
/// voter.
pub fn places_of<T: ValueEq>(entry: &T, voters: &[Voter<T>]) -> (r: Vec<usize>)
    ensures
        r@.map_values(|p: usize| p as int) == all_places(rankings_views(voters@), entry@),
{
    let ghost rv = rankings_views(voters@);
    let mut out: Vec<usize> = Vec::new();
    let mut v: usize = 0;
    assert(out@.map_values(|p: usize| p as int) =~= Seq::<int>::empty());
    while v < voters.len()
        invariant
            v <= voters@.len(),
            rv == rankings_views(voters@),
            out@.map_values(|p: usize| p as int) == all_places(rv.take(v as int), entry@),
        decreases voters@.len() - v,
    {
        let ranking = &voters[v].rankings;
        let ghost rk = ranking@.map_values(|x: T| x@);
        assert(rk == rv[v as int]);
        let ghost before = out@.map_values(|p: usize| p as int);
        let mut i: usize = 0;
        assert(before + places_in(rk.take(0), entry@) =~= before);
        while i < ranking.len()
            invariant
                i <= ranking@.len(),
                rk == ranking@.map_values(|x: T| x@),
                out@.map_values(|p: usize| p as int) == before + places_in(rk.take(i as int), entry@),
            decreases ranking@.len() - i,
        {
            let ghost pre = out@.map_values(|p: usize| p as int);
            assert(rk.take(i + 1).drop_last() =~= rk.take(i as int));
            if ranking[i].eq_value(entry) {
                out.push(i);
                assert(out@.map_values(|p: usize| p as int) =~= pre.push(i as int));
            }
            i = i + 1;
        }
        assert(rk.take(ranking@.len() as int) =~= rk);
        assert(rv.take(v + 1).drop_last() =~= rv.take(v as int));
        assert(rv.take(v + 1).last() == rk);
        v = v + 1;
    }
    assert(rv.take(voters@.len() as int) =~= rv);
    out
}

/// For every entry, the places at which the voters ranked it. Every ranked
/// entry must be one of `entries`.
pub fn ranked_choice_places<T: ValueEq>(entries: &[T], voters: &[Voter<T>]) -> (r: Vec<Vec<usize>>)
    requires
        ranks_only_entries(entries@.map_values(|e: T| e@), rankings_views(voters@)),
    ensures
        r@.len() == entries@.len(),
        forall|k: int|
            0 <= k < entries@.len() ==> (#[trigger] r@[k])@.map_values(|p: usize| p as int) == all_places(
                rankings_views(voters@),
                entries@[k]@,
            ),
{
    let mut out: Vec<Vec<usize>> = Vec::new();
    let mut k: usize = 0;
    while k < entries.len()
        invariant
            k <= entries@.len(),
            out@.len() == k,
            forall|j: int|
                0 <= j < k ==> (#[trigger] out@[j])@.map_values(|p: usize| p as int) == all_places(
                    rankings_views(voters@),
                    entries@[j]@,
                ),
        decreases entries@.len() - k,
    {
        out.push(places_of(&entries[k], voters));
        k = k + 1;
    }
    out
}

/// The position of the pair whose key is `x`, if any.
pub fn find_key<T: ValueEq>(pairs: &Vec<(T, usize)>, x: &T) -> (r: Option<usize>)
    ensures
        match r {
            Some(j) => j < pairs@.len() && pairs@[j as int].0@ == x@,
            None => forall|q: int| 0 <= q < pairs@.len() ==> pairs@[q].0@ != x@,
        },
{
    let mut j: usize = 0;
    while j < pairs.len()
        invariant
            j <= pairs@.len(),
            forall|q: int| 0 <= q < j ==> pairs@[q].0@ != x@,
        decreases pairs@.len() - j,
    {
        if pairs[j].0.eq_value(x) {
            return Some(j);
        }
        j = j + 1;
    }
    None
}

/// Every distinct value of `values` with the number of times it occurs, in
/// the order the values first occur.
pub fn count_votes<T: ValueEq>(values: &Vec<T>) -> (r: Vec<(T, usize)>)
    ensures
        r@.map_values(|p: (T, usize)| p.0@) == distinct_spec(values@.map_values(|v: T| v@)),
        forall|i: int|
            0 <= i < r@.len() ==> (#[trigger] r@[i]).1 == count_of(values@.map_values(|v: T| v@), r@[i].0@),
{
    let ghost all = values@.map_values(|v: T| v@);
    let mut out: Vec<(T, usize)> = Vec::new();
    let mut i: usize = 0;
    assert(all.take(0) =~= Seq::<T::V>::empty());
    assert(out@.map_values(|p: (T, usize)| p.0@) =~= Seq::<T::V>::empty());
    while i < values.len()
        invariant
            i <= values@.len(),
            all == values@.map_values(|v: T| v@),
            out@.map_values(|p: (T, usize)| p.0@) == distinct_spec(all.take(i as int)),
            forall|j: int|
                0 <= j < out@.len() ==> (#[trigger] out@[j]).1 == count_of(all.take(i as int), out@[j].0@),
        decreases values@.len() - i,
    {
        let ghost seen = all.take(i as int);
        let ghost seen_next = all.take(i + 1);
        let x = &values[i];
        assert(seen_next =~= seen.push(x@));
        assert(seen_next.drop_last() =~= seen);
        let ghost keys = out@.map_values(|p: (T, usize)| p.0@);
        let found_at = find_key(&out, x);
        proof {
            lemma_distinct_spec(seen);
            lemma_count_of_bounds(seen, x@);
            assert forall|q: int| 0 <= q < out@.len() implies #[trigger] count_of(seen_next, out@[q].0@)
                == count_of(seen, out@[q].0@) + if out@[q].0@ == x@ { 1int } else { 0int } by {
                lemma_count_of_push(seen, x@, out@[q].0@);
            }
        }
        if let Some(j) = found_at {
            assert(keys[j as int] == x@);
            let c = out[j].1;
            let key = out[j].0.clone_value();
            let ghost prev = out@;
            assert(c == count_of(seen, x@));
            out.set(j, (key, c + 1));
            assert(out@.map_values(|p: (T, usize)| p.0@) =~= keys);
            assert(seen.contains(x@)) by {
                assert(keys.contains(x@));
            }
            assert(distinct_spec(seen_next) == distinct_spec(seen));
            assert forall|q: int| 0 <= q < out@.len() implies #[trigger] out@[q].1 == count_of(
                seen_next,
                out@[q].0@,
            ) by {
                if q != j {
                    assert(out@[q] == prev[q]);
                    assert(keys[q] == prev[q].0@);
                    assert(keys[q] != x@);
                }
            }
        } else {
            assert(!keys.contains(x@)) by {
                if keys.contains(x@) {
                    let q = choose|q: int| 0 <= q < keys.len() && keys[q] == x@;
                    assert(out@[q].0@ == x@);
                }
            }
            out.push((x.clone_value(), 1));
            assert(out@.map_values(|p: (T, usize)| p.0@) =~= keys.push(x@));
            assert(distinct_spec(seen_next) == keys.push(x@));
            proof {
                lemma_count_zero_when_absent(seen, x@);
            }
        }
        i = i + 1;
    }
    assert(all.take(values@.len() as int) =~= all);
    out
}

/// All ranked entries, voter after voter, as one list.
pub fn flatten_rankings<T: ValueEq>(voters: &[Voter<T>]) -> (r: Vec<T>)
    ensures
        r@.map_values(|x: T| x@) == all_ranked(rankings_views(voters@)),
{
    let ghost rv = rankings_views(voters@);
    let mut out: Vec<T> = Vec::new();
    let mut v: usize = 0;
    assert(out@.map_values(|x: T| x@) =~= all_ranked(rv.take(0)));
    while v < voters.len()
        invariant
            v <= voters@.len(),
            rv == rankings_views(voters@),
            out@.map_values(|x: T| x@) == all_ranked(rv.take(v as int)),
        decreases voters@.len() - v,
    {
        let ranking = &voters[v].rankings;
        let ghost rk = ranking@.map_values(|x: T| x@);
        assert(rk == rv[v as int]);
        let ghost done = all_ranked(rv.take(v as int));
        assert(rv.take(v + 1).drop_last() =~= rv.take(v as int));
        assert(rv.take(v + 1).last() == rk);
        assert(all_ranked(rv.take(v + 1)) == done + rk);
        assert(done + rk.take(0) =~= done);
        let mut i: usize = 0;
        while i < ranking.len()
            invariant
                i <= ranking@.len(),
                rk == ranking@.map_values(|x: T| x@),
                out@.map_values(|x: T| x@) == done + rk.take(i as int),
            decreases ranking@.len() - i,
        {
            let ghost pre = out@.map_values(|x: T| x@);
            let x = ranking[i].clone_value();
            out.push(x);
            assert(out@.map_values(|x: T| x@) =~= pre.push(rk[i as int]));
            assert(done + rk.take(i + 1) =~= (done + rk.take(i as int)).push(rk[i as int]));
            i = i + 1;
        }
        assert(rk.take(ranking@.len() as int) =~= rk);
        v = v + 1;
    }
    assert(rv.take(voters@.len() as int) =~= rv);
    out
}

/// Every distinct ranked entry with the number of times it was ranked, in
/// the order the entries first occur.
pub fn count_presence_in_voter_lists<T: ValueEq>(voters: &[Voter<T>]) -> (r: Vec<(T, usize)>)
    ensures
        r@.map_values(|p: (T, usize)| p.0@) == distinct_spec(all_ranked(rankings_views(voters@))),
        forall|i: int|
            0 <= i < r@.len() ==> (#[trigger] r@[i]).1 == count_of(
                all_ranked(rankings_views(voters@)),
                r@[i].0@,
            ),
{
    let all = flatten_rankings(voters);
    count_votes(&all)
}


/// How an entry fared: the places at which it was ranked, voter after voter,
/// and how often it was ranked.
#[derive(Debug)]
pub struct RankTally {
    pub places: Vec<usize>,
    pub presence: usize,
}

/// The tally of every entry: its ranking places and its presence count, the
/// count looked up among the distinct ranked entries (0 when it was never
/// ranked). Every ranked entry must be one of `entries`.
pub fn ranked_choice_tallies<T: ValueEq>(entries: &[T], voters: &[Voter<T>]) -> (r: Vec<RankTally>)
    requires
        ranks_only_entries(entries@.map_values(|e: T| e@), rankings_views(voters@)),
    ensures
        r@.len() == entries@.len(),
        forall|k: int|
            0 <= k < entries@.len() ==> {
                &&& (#[trigger] r@[k]).places@.map_values(|p: usize| p as int) == all_places(
                    rankings_views(voters@),
                    entries@[k]@,
                )
                &&& r@[k].presence == count_of(all_ranked(rankings_views(voters@)), entries@[k]@)
                &&& r@[k].presence == r@[k].places@.len()
            },
{
    let ghost rv = rankings_views(voters@);
    let places = ranked_choice_places(entries, voters);
    let presence = count_presence_in_voter_lists(voters);
    let mut out: Vec<RankTally> = Vec::new();
    let mut rest = places;
    let mut k: usize = 0;
    while k < entries.len()
        invariant
            k <= entries@.len(),
            rv == rankings_views(voters@),
            rest@.len() == entries@.len(),
            out@.len() == k,
            presence@.map_values(|p: (T, usize)| p.0@) == distinct_spec(all_ranked(rv)),
            forall|i: int| 0 <= i < presence@.len() ==> (#[trigger] presence@[i]).1 == count_of(all_ranked(rv), presence@[i].0@),
            forall|j: int|
                k <= j < entries@.len() ==> (#[trigger] rest@[j])@.map_values(|p: usize| p as int) == all_places(rv, entries@[j]@),
            forall|j: int|
                0 <= j < k ==> {
                    &&& (#[trigger] out@[j]).places@.map_values(|p: usize| p as int) == all_places(rv, entries@[j]@)
                    &&& out@[j].presence == count_of(all_ranked(rv), entries@[j]@)
                    &&& out@[j].presence == out@[j].places@.len()
                },
        decreases entries@.len() - k,
    {
        let mut mine: Vec<usize> = Vec::new();
        std::mem::swap(&mut mine, &mut rest[k]);
        let ghost mine_places = mine@.map_values(|p: usize| p as int);
        assert(mine_places == all_places(rv, entries@[k as int]@));
        let count = match find_key(&presence, &entries[k]) {
            Some(j) => presence[j].1,
            None => {
                proof {
                    lemma_distinct_spec(all_ranked(rv));
                    let keys = presence@.map_values(|p: (T, usize)| p.0@);
                    assert(!keys.contains(entries@[k as int]@)) by {
                        if keys.contains(entries@[k as int]@) {
                            let q = choose|q: int| 0 <= q < keys.len() && keys[q] == entries@[k as int]@;
                            assert(presence@[q].0@ == entries@[k as int]@);
                        }
                    }
                    lemma_count_zero_when_absent(all_ranked(rv), entries@[k as int]@);
                }
                0
            },
        };
        proof {
            lemma_presence_is_number_of_places(rv, entries@[k as int]@);
            assert(mine_places.len() == mine@.len());
        }
        out.push(RankTally { places: mine, presence: count });
        k = k + 1;
    }
    out
}

} // verus!
