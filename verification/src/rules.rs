use std::collections::HashMap;
use vstd::prelude::*;
use crate::entity_type::EntityType;

verus! {

/// `perm` lists every position of `ranked` once, ordered by key from smallest
/// to largest, with equal keys kept in their original order.
pub open spec fn is_stable_ranking(ranked: Seq<(u64, i64)>, perm: Seq<int>) -> bool {
    &&& perm.len() == ranked.len()
    &&& forall|a: int| 0 <= a < perm.len() ==> 0 <= #[trigger] perm[a] < ranked.len()
    &&& perm.no_duplicates()
    &&& forall|a: int, b: int|
        #![trigger perm[a], perm[b]]
        0 <= a < b < perm.len() ==> ranked[perm[a]].1 <= ranked[perm[b]].1
    &&& forall|a: int, b: int|
        #![trigger perm[a], perm[b]]
        0 <= a < b < perm.len() && ranked[perm[a]].1 == ranked[perm[b]].1 ==> perm[a] < perm[b]
}

/// Orders identifiers from most to least fit. Each entry pairs an identifier
/// with its ranking key, the negated fitness scaled to an integer; the result
/// lists the identifiers by key from smallest to largest, ties kept in input
/// order.
pub fn fittest(ranked: &Vec<(u64, i64)>) -> (ids: Vec<u64>)
    ensures
        exists|perm: Seq<int>|
            is_stable_ranking(ranked@, perm) && ids@ == perm.map_values(|j: int| ranked@[j].0),
{
    let n = ranked.len();
    let mut order: Vec<usize> = Vec::new();
    let mut i: usize = 0;
    while i < n
        invariant
            n == ranked@.len(),
            i <= n,
            order@.len() == i,
            forall|a: int| 0 <= a < i ==> #[trigger] order@[a] < i,
            order@.no_duplicates(),
            forall|a: int, b: int|
                #![trigger order@[a], order@[b]]
                0 <= a < b < i ==> ranked@[order@[a] as int].1 <= ranked@[order@[b] as int].1,
            forall|a: int, b: int|
                #![trigger order@[a], order@[b]]
                0 <= a < b < i && ranked@[order@[a] as int].1 == ranked@[order@[b] as int].1
                    ==> order@[a] < order@[b],
        decreases n - i,
    {
        let key = ranked[i].1;
        let mut p: usize = 0;
        while p < i && ranked[order[p]].1 <= key
            invariant
                n == ranked@.len(),
                i < n,
                key == ranked@[i as int].1,
                p <= i,
                order@.len() == i,
                forall|a: int| 0 <= a < i ==> #[trigger] order@[a] < i,
                forall|q: int| 0 <= q < p ==> ranked@[#[trigger] order@[q] as int].1 <= key,
            decreases i - p,
        {
            p = p + 1;
        }
        proof {
            assert forall|q: int| p <= q < i implies key < ranked@[#[trigger] order@[q] as int].1 by {
                assert(ranked@[order@[p as int] as int].1 > key);
                if q > p {
                    assert(ranked@[order@[p as int] as int].1 <= ranked@[order@[q] as int].1);
                }
            }
        }
        let ghost prev = order@;
        order.insert(p, i);
        proof {
            prev.insert_ensures(p as int, i);
            assert forall|a: int| 0 <= a < i + 1 implies #[trigger] order@[a] < i + 1 by {
                if a < p {
                    assert(order@[a] == prev[a]);
                } else if a > p {
                    assert(order@[a] == prev[a - 1]);
                }
            }
            assert forall|a: int, b: int| 0 <= a < b < i + 1 implies order@[a] != order@[b] by {
                if a != p && b != p {
                    let pa = if a < p { a } else { a - 1 };
                    let pb = if b < p { b } else { b - 1 };
                    assert(order@[a] == prev[pa]);
                    assert(order@[b] == prev[pb]);
                } else if a == p {
                    assert(order@[b] == prev[b - 1]);
                } else {
                    assert(order@[a] == prev[a]);
                }
            }
            assert forall|a: int, b: int|
                #![trigger order@[a], order@[b]]
                0 <= a < b < i + 1 implies ranked@[order@[a] as int].1 <= ranked@[order@[b] as int].1
                    && (ranked@[order@[a] as int].1 == ranked@[order@[b] as int].1 ==> order@[a] < order@[b]) by {
                let pa = if a < p { a } else { a - 1 };
                let pb = if b < p { b } else { b - 1 };
                if a != p && b != p {
                    assert(order@[a] == prev[pa]);
                    assert(order@[b] == prev[pb]);
                } else if a == p {
                    assert(order@[b] == prev[pb]);
                    assert(key < ranked@[prev[pb] as int].1);
                } else {
                    assert(order@[a] == prev[pa]);
                    assert(ranked@[prev[pa] as int].1 <= key);
                }
            }
        }
        i = i + 1;
    }
    let ghost perm = order@.map_values(|x: usize| x as int);
    let mut ids: Vec<u64> = Vec::new();
    let mut k: usize = 0;
    while k < n
        invariant
            n == ranked@.len(),
            order@.len() == n,
            k <= n,
            forall|a: int| 0 <= a < n ==> #[trigger] order@[a] < n,
            perm == order@.map_values(|x: usize| x as int),
            ids@ == perm.take(k as int).map_values(|j: int| ranked@[j].0),
        decreases n - k,
    {
        ids.push(ranked[order[k]].0);
        proof {
            assert(perm.take(k + 1).drop_last() =~= perm.take(k as int));
            assert(ids@ =~= perm.take(k + 1).map_values(|j: int| ranked@[j].0));
        }
        k = k + 1;
    }
    proof {
        assert(perm.take(n as int) =~= perm);
        assert(is_stable_ranking(ranked@, perm)) by {
            assert forall|a: int, b: int| 0 <= a < b < perm.len() implies perm[a] != perm[b] by {
                assert(order@[a] != order@[b]);
            }
        }
    }
    ids
}

/// A stable ranking lists every position.
proof fn lemma_stable_ranking_covers(ranked: Seq<(u64, i64)>, perm: Seq<int>, x: int)
    requires
        is_stable_ranking(ranked, perm),
        0 <= x < ranked.len(),
    ensures
        perm.contains(x),
{
    perm.unique_seq_to_set();
    vstd::set_lib::lemma_int_range(0, ranked.len() as int);
    let range = vstd::set_lib::set_int_range(0, ranked.len() as int);
    assert(perm.to_set().subset_of(range)) by {
        assert forall|y: int| perm.to_set().contains(y) implies range.contains(y) by {
            let a = choose|a: int| 0 <= a < perm.len() && perm[a] == y;
        }
    }
    vstd::set_lib::lemma_subset_equality(perm.to_set(), range);
    assert(range.contains(x));
}

/// The ranking is determined by the keys: two stable rankings of the same
/// entries are the same, so `fittest` can return only one order.
pub proof fn lemma_stable_ranking_unique(ranked: Seq<(u64, i64)>, p1: Seq<int>, p2: Seq<int>)
    requires
        is_stable_ranking(ranked, p1),
        is_stable_ranking(ranked, p2),
    ensures
        p1 == p2,
{
    assert forall|a: int| 0 <= a < p1.len() implies p1[a] == p2[a] by {
        if p1[a] != p2[a] {
            lemma_first_difference(p1, p2, a);
            let first = choose|f: int|
                0 <= f <= a && p1[f] != p2[f] && forall|g: int| 0 <= g < f ==> p1[g] == p2[g];
            let x = p1[first];
            let y = p2[first];
            lemma_stable_ranking_covers(ranked, p1, y);
            lemma_stable_ranking_covers(ranked, p2, x);
            let b = choose|b: int| 0 <= b < p1.len() && p1[b] == y;
            let c = choose|c: int| 0 <= c < p2.len() && p2[c] == x;
            if b < first {
                assert(p2[b] == y);
            }
            if c < first {
                assert(p1[c] == x);
            }
            assert(b != first);
            assert(c != first);
            assert(ranked[x].1 <= ranked[y].1);
            assert(ranked[y].1 <= ranked[x].1);
        }
    }
    assert(p1 =~= p2);
}

/// Two sequences that differ at `a` have a first position where they differ.
proof fn lemma_first_difference(p1: Seq<int>, p2: Seq<int>, a: int)
    requires
        0 <= a < p1.len(),
        a < p2.len(),
        p1[a] != p2[a],
    ensures
        exists|f: int| 0 <= f <= a && p1[f] != p2[f] && forall|g: int| 0 <= g < f ==> p1[g] == p2[g],
    decreases a,
{
    if exists|g: int| 0 <= g < a && p1[g] != p2[g] {
        let g = choose|g: int| 0 <= g < a && p1[g] != p2[g];
        lemma_first_difference(p1, p2, g);
    } else {
        assert(forall|g: int| 0 <= g < a ==> p1[g] == p2[g]);
    }
}

/// Two entities found touching, in the order in which the walk over every
/// ordered pair of entities met them.
#[derive(Clone, Copy, PartialEq, Eq, Structural, Debug)]
pub struct Contact {
    pub id0: u64,
    pub type0: EntityType,
    pub id1: u64,
    pub type1: EntityType,
}

/// Whether a contact is one in which a prey meets a predator; each unordered
/// pair counts once, from the side whose identifier is larger.
pub open spec fn is_catch(c: Contact) -> bool {
    c.id0 > c.id1 && c.type0 != c.type1
}

/// The prey and the predator of a catch.
pub open spec fn catch_pair(c: Contact) -> (u64, u64) {
    if c.type0 == EntityType::Prey {
        (c.id0, c.id1)
    } else {
        (c.id1, c.id0)
    }
}

/// Each prey caught, mapped to the first predator that caught it.
pub open spec fn catches(contacts: Seq<Contact>) -> Map<u64, u64>
    decreases contacts.len(),
{
    if contacts.len() == 0 {
        Map::empty()
    } else {
        let earlier = catches(contacts.drop_last());
        let c = contacts.last();
        if is_catch(c) && !earlier.contains_key(catch_pair(c).0) {
            earlier.insert(catch_pair(c).0, catch_pair(c).1)
        } else {
            earlier
        }
    }
}

/// Pairs each prey that touches a predator with the first predator, in walk
/// order, that touches it.
pub fn prey_predator_collisions(contacts: &Vec<Contact>) -> (pairs: HashMap<u64, u64>)
    ensures
        pairs@ == catches(contacts@),
        forall|i: int|
            0 <= i < contacts@.len() && #[trigger] contacts@[i].id0 > contacts@[i].id1
                && contacts@[i].type0 != contacts@[i].type1 ==> pairs@.contains_key(
                prey_of_contact(contacts@[i]),
            ),
        forall|k: u64|
            #[trigger] pairs@.contains_key(k) ==> exists|i: int|
                #![trigger contacts@[i]]
                0 <= i < contacts@.len() && contacts@[i].id0 > contacts@[i].id1 && contacts@[i].type0
                    != contacts@[i].type1 && prey_of_contact(contacts@[i]) == k
                    && predator_of_contact(contacts@[i]) == pairs@[k] && forall|j: int|
                    #![trigger contacts@[j]]
                    0 <= j < i && contacts@[j].id0 > contacts@[j].id1 && contacts@[j].type0
                        != contacts@[j].type1 ==> prey_of_contact(contacts@[j]) != k,
{
    proof {
        lemma_catches_complete_and_first(contacts@);
    }
    let mut pairs: HashMap<u64, u64> = HashMap::new();
    let mut i: usize = 0;
    while i < contacts.len()
        invariant
            i <= contacts@.len(),
            pairs@ == catches(contacts@.take(i as int)),
        decreases contacts.len() - i,
    {
        let c = contacts[i];
        proof {
            assert(contacts@.take(i + 1).drop_last() =~= contacts@.take(i as int));
        }
        if c.id0 > c.id1 && c.type0 != c.type1 {
            let (prey_id, predator_id) = if c.type0 == EntityType::Prey {
                (c.id0, c.id1)
            } else {
                (c.id1, c.id0)
            };
            if !pairs.contains_key(&prey_id) {
                pairs.insert(prey_id, predator_id);
            }
        }
        i = i + 1;
    }
    assert(contacts@.take(i as int) =~= contacts@);
    pairs
}

/// The identifier of the prey in a contact between a prey and a predator.
pub open spec fn prey_of_contact(c: Contact) -> u64 {
    if c.type0 == EntityType::Prey {
        c.id0
    } else {
        c.id1
    }
}

/// The identifier of the predator in a contact between a prey and a predator.
pub open spec fn predator_of_contact(c: Contact) -> u64 {
    if c.type0 == EntityType::Prey {
        c.id1
    } else {
        c.id0
    }
}

/// Every prey that touches a predator is caught, whether or not that predator
/// has already caught another prey; and every caught prey is paired with the
/// predator of the first contact, in walk order, in which it touches one.
pub proof fn lemma_catches_complete_and_first(contacts: Seq<Contact>)
    ensures
        forall|i: int|
            0 <= i < contacts.len() && #[trigger] contacts[i].id0 > contacts[i].id1 && contacts[i].type0
                != contacts[i].type1 ==> catches(contacts).contains_key(prey_of_contact(contacts[i])),
        forall|k: u64|
            #[trigger] catches(contacts).contains_key(k) ==> exists|i: int|
                #![trigger contacts[i]]
                0 <= i < contacts.len() && contacts[i].id0 > contacts[i].id1 && contacts[i].type0
                    != contacts[i].type1 && prey_of_contact(contacts[i]) == k && predator_of_contact(
                    contacts[i],
                ) == catches(contacts)[k] && forall|j: int|
                    #![trigger contacts[j]]
                    0 <= j < i && contacts[j].id0 > contacts[j].id1 && contacts[j].type0
                        != contacts[j].type1 ==> prey_of_contact(contacts[j]) != k,
    decreases contacts.len(),
{
    if contacts.len() > 0 {
        let pre = contacts.drop_last();
        let last = contacts.len() - 1;
        let earlier = catches(pre);
        let all = catches(contacts);
        lemma_catches_complete_and_first(pre);
        assert forall|i: int|
            0 <= i < contacts.len() && #[trigger] contacts[i].id0 > contacts[i].id1 && contacts[i].type0
                != contacts[i].type1 implies all.contains_key(prey_of_contact(contacts[i])) by {
            if i < last {
                assert(pre[i] == contacts[i]);
                assert(earlier.contains_key(prey_of_contact(pre[i])));
            }
        }
        assert forall|k: u64| #[trigger] all.contains_key(k) implies exists|i: int|
            #![trigger contacts[i]]
            0 <= i < contacts.len() && contacts[i].id0 > contacts[i].id1 && contacts[i].type0
                != contacts[i].type1 && prey_of_contact(contacts[i]) == k && predator_of_contact(
                contacts[i],
            ) == all[k] && forall|j: int|
                #![trigger contacts[j]]
                0 <= j < i && contacts[j].id0 > contacts[j].id1 && contacts[j].type0
                    != contacts[j].type1 ==> prey_of_contact(contacts[j]) != k by {
            if earlier.contains_key(k) {
                assert(all[k] == earlier[k]);
                let i = choose|i: int|
                    #![trigger pre[i]]
                    0 <= i < pre.len() && pre[i].id0 > pre[i].id1 && pre[i].type0 != pre[i].type1
                        && prey_of_contact(pre[i]) == k && predator_of_contact(pre[i]) == earlier[k]
                        && forall|j: int|
                        #![trigger pre[j]]
                        0 <= j < i && pre[j].id0 > pre[j].id1 && pre[j].type0 != pre[j].type1
                            ==> prey_of_contact(pre[j]) != k;
                assert(contacts[i] == pre[i]);
                assert forall|j: int|
                    #![trigger contacts[j]]
                    0 <= j < i && contacts[j].id0 > contacts[j].id1 && contacts[j].type0
                        != contacts[j].type1 implies prey_of_contact(contacts[j]) != k by {
                    assert(contacts[j] == pre[j]);
                }
            } else {
                assert(contacts[last] == contacts.last());
                assert forall|j: int|
                    #![trigger contacts[j]]
                    0 <= j < last && contacts[j].id0 > contacts[j].id1 && contacts[j].type0
                        != contacts[j].type1 implies prey_of_contact(contacts[j]) != k by {
                    assert(contacts[j] == pre[j]);
                    if prey_of_contact(contacts[j]) == k {
                        assert(earlier.contains_key(prey_of_contact(pre[j])));
                    }
                }
            }
        }
    }
}

/// Every prey caught was caught in some contact between that prey and a
/// predator, by the predator it is mapped to.
pub proof fn lemma_catch_is_prey_and_predator(contacts: Seq<Contact>, prey: u64)
    requires
        catches(contacts).contains_key(prey),
    ensures
        exists|i: int|
            0 <= i < contacts.len() && is_catch(#[trigger] contacts[i]) && catch_pair(contacts[i])
                == (prey, catches(contacts)[prey]),
        exists|i: int|
            #![trigger contacts[i]]
            0 <= i < contacts.len() && (contacts[i].id0 == prey && contacts[i].type0
                == EntityType::Prey && contacts[i].type1 == EntityType::Predator
                || contacts[i].id1 == prey && contacts[i].type1 == EntityType::Prey
                && contacts[i].type0 == EntityType::Predator),
    decreases contacts.len(),
{
    let earlier = catches(contacts.drop_last());
    let last = contacts.len() - 1;
    if earlier.contains_key(prey) && catches(contacts)[prey] == earlier[prey] {
        lemma_catch_is_prey_and_predator(contacts.drop_last(), prey);
        let i = choose|i: int|
            0 <= i < contacts.drop_last().len() && is_catch(#[trigger] contacts.drop_last()[i])
                && catch_pair(contacts.drop_last()[i]) == (prey, earlier[prey]);
        assert(contacts[i] == contacts.drop_last()[i]);
    } else {
        assert(is_catch(contacts[last]) && catch_pair(contacts[last]) == (prey, catches(contacts)[prey]));
    }
    let i = choose|i: int|
        0 <= i < contacts.len() && is_catch(#[trigger] contacts[i]) && catch_pair(contacts[i])
            == (prey, catches(contacts)[prey]);
    assert(contacts[i].type0 == EntityType::Prey || contacts[i].type0 == EntityType::Predator);
}

/// The first catch of a prey in walk order decides its predator: a later
/// contact never changes it.
pub proof fn lemma_first_catch_stands(contacts: Seq<Contact>, more: Seq<Contact>, prey: u64)
    requires
        catches(contacts).contains_key(prey),
    ensures
        catches(contacts + more).contains_key(prey),
        catches(contacts + more)[prey] == catches(contacts)[prey],
    decreases more.len(),
{
    if more.len() > 0 {
        lemma_first_catch_stands(contacts, more.drop_last(), prey);
        assert((contacts + more).drop_last() =~= contacts + more.drop_last());
    } else {
        assert(contacts + more =~= contacts);
    }
}

/// What the float-valued state of one entity says at the start of its kind's
/// turn: whether it is alive and whether it has stored enough to reproduce.
#[derive(Clone, Copy, PartialEq, Eq, Structural, Debug)]
pub struct Standing {
    pub id: u64,
    pub alive: bool,
    pub can_reproduce: bool,
}

/// An entity that dies in a turn; a prey that was caught names the predator
/// that eats it.
#[derive(Clone, Copy, PartialEq, Eq, Debug)]
pub struct Death {
    pub id: u64,
    pub eaten_by: Option<u64>,
}

/// A parent and the identifier that its offspring receives.
#[derive(Clone, Copy, PartialEq, Eq, Structural, Debug)]
pub struct Birth {
    pub parent: u64,
    pub child: u64,
}

/// What one kind's turn of the death and birth rules decided.
pub struct PhaseOutcome {
    pub deaths: Vec<Death>,
    pub births: Vec<Birth>,
    pub population: u32,
}

/// The first `n` entries of `s`, or all of them when it is shorter.
pub open spec fn prefix_up_to(s: Seq<Standing>, n: int) -> Seq<Standing> {
    s.take(if n < s.len() { n } else { s.len() as int })
}

/// The identifiers of a sequence of standings.
pub open spec fn standing_ids(s: Seq<Standing>) -> Seq<u64> {
    s.map_values(|x: Standing| x.id)
}

/// The first `n` entries of `s`, in order, that satisfy `p` (all of them if
/// fewer than `n` do).
pub open spec fn first_n_matching(s: Seq<Standing>, p: spec_fn(Standing) -> bool, n: nat) -> Seq<
    Standing,
>
    decreases s.len(),
{
    if s.len() == 0 {
        Seq::empty()
    } else {
        let earlier = first_n_matching(s.drop_last(), p, n);
        if p(s.last()) && earlier.len() < n {
            earlier.push(s.last())
        } else {
            earlier
        }
    }
}

/// An entity dies if it is no longer alive, or if it is a prey that was
/// caught.
pub open spec fn dies(s: Standing, t: EntityType, caught: Map<u64, u64>) -> bool {
    (t == EntityType::Prey && caught.contains_key(s.id)) || !s.alive
}

/// The predator that eats a dying entity, if it is a caught prey.
pub open spec fn eater(t: EntityType, caught: Map<u64, u64>, id: u64) -> Option<u64> {
    if t == EntityType::Prey && caught.contains_key(id) {
        Some(caught[id])
    } else {
        None
    }
}

/// Those that die in a turn: visiting the ranking from least to most fit,
/// the dying ones, as long as the population stays at or above its minimum.
/// Nobody dies when the population is at or below its minimum.
pub open spec fn doomed(ranked: Seq<Standing>, t: EntityType, caught: Map<u64, u64>, min_pop: u32) -> Seq<
    Standing,
> {
    if ranked.len() > min_pop {
        first_n_matching(
            ranked.reverse(),
            |s: Standing| dies(s, t, caught),
            (ranked.len() - min_pop) as nat,
        )
    } else {
        Seq::empty()
    }
}

/// Those that reproduce in a turn: visiting the ranking from most to least
/// fit, the survivors able to reproduce, as long as the population stays at
/// or below its maximum. Nobody reproduces when the survivors are at or above
/// the maximum.
pub open spec fn breeders(
    ranked: Seq<Standing>,
    t: EntityType,
    caught: Map<u64, u64>,
    min_pop: u32,
    max_pop: u32,
) -> Seq<Standing> {
    let dead = standing_ids(doomed(ranked, t, caught, min_pop));
    let survivors = ranked.len() - dead.len();
    if survivors < max_pop {
        first_n_matching(
            ranked,
            |s: Standing| s.can_reproduce && !dead.contains(s.id),
            (max_pop - survivors) as nat,
        )
    } else {
        Seq::empty()
    }
}

/// The newborns of a turn: identifiers `next + 1` to `next + k`, all of kind
/// `t`.
pub open spec fn newborns(next: u64, k: nat, t: EntityType) -> Map<u64, EntityType> {
    Map::new(|id: u64| next < id <= next + k, |id: u64| t)
}

/// Extending the visited prefix by one entry adds it if it matches and room
/// is left.
pub proof fn lemma_first_n_step(s: Seq<Standing>, p: spec_fn(Standing) -> bool, n: nat, j: int)
    requires
        0 <= j < s.len(),
    ensures
        first_n_matching(s.take(j + 1), p, n) == ({
            let earlier = first_n_matching(s.take(j), p, n);
            if p(s[j]) && earlier.len() < n {
                earlier.push(s[j])
            } else {
                earlier
            }
        }),
{
    assert(s.take(j + 1).drop_last() =~= s.take(j));
}

/// At most `n` entries are taken, none that fails `p`, each one an entry of
/// `s`; distinct identifiers in `s` stay distinct.
pub proof fn lemma_first_n_shape(s: Seq<Standing>, p: spec_fn(Standing) -> bool, n: nat)
    ensures
        first_n_matching(s, p, n).len() <= n,
        first_n_matching(s, p, n).len() <= s.len(),
        forall|k: int|
            0 <= k < first_n_matching(s, p, n).len() ==> p(#[trigger] first_n_matching(s, p, n)[k])
                && s.contains(first_n_matching(s, p, n)[k]),
        standing_ids(s).no_duplicates() ==> standing_ids(first_n_matching(s, p, n)).no_duplicates(),
    decreases s.len(),
{
    if s.len() > 0 {
        let r = first_n_matching(s, p, n);
        let e = first_n_matching(s.drop_last(), p, n);
        lemma_first_n_shape(s.drop_last(), p, n);
        assert forall|k: int| 0 <= k < r.len() implies p(#[trigger] r[k]) && s.contains(r[k]) by {
            if k < e.len() {
                assert(r[k] == e[k]);
                let i = choose|i: int| 0 <= i < s.drop_last().len() && s.drop_last()[i] == e[k];
                assert(s[i] == e[k]);
            } else {
                assert(r[k] == s[s.len() - 1]);
            }
        }
        if standing_ids(s).no_duplicates() {
            assert(standing_ids(s.drop_last()).no_duplicates()) by {
                assert forall|a: int, b: int|
                    0 <= a < b < standing_ids(s.drop_last()).len() implies standing_ids(
                    s.drop_last(),
                )[a] != standing_ids(s.drop_last())[b] by {
                    assert(standing_ids(s.drop_last())[a] == standing_ids(s)[a]);
                    assert(standing_ids(s.drop_last())[b] == standing_ids(s)[b]);
                }
            }
            if r.len() > e.len() {
                assert forall|a: int, b: int|
                    0 <= a < b < standing_ids(r).len() implies standing_ids(r)[a]
                    != standing_ids(r)[b] by {
                    if b == r.len() - 1 {
                        let i = choose|i: int| 0 <= i < s.drop_last().len() && s.drop_last()[i] == e[a];
                        assert(standing_ids(s)[i] == r[a].id);
                        assert(standing_ids(s)[s.len() - 1] == r[b].id);
                    } else {
                        assert(standing_ids(r)[a] == standing_ids(e)[a]);
                        assert(standing_ids(r)[b] == standing_ids(e)[b]);
                    }
                }
            }
        }
    }
}

/// The first `n` entries of `s` taken by the rules are exactly the entries
/// that satisfy `p`, in order, cut off after `n` of them.
pub proof fn lemma_first_n_is_filter_take(s: Seq<Standing>, p: spec_fn(Standing) -> bool, n: nat)
    ensures
        first_n_matching(s, p, n) == s.filter(p).take(
            if n < s.filter(p).len() { n as int } else { s.filter(p).len() as int },
        ),
    decreases s.len(),
{
    reveal(Seq::filter);
    if s.len() == 0 {
        assert(s.filter(p) =~= Seq::<Standing>::empty());
        assert(first_n_matching(s, p, n) =~= s.filter(p).take(0));
    } else {
        lemma_first_n_is_filter_take(s.drop_last(), p, n);
        let f0 = s.drop_last().filter(p);
        let f = s.filter(p);
        if p(s.last()) {
            assert(f == f0.push(s.last()));
            if f0.len() < n {
                assert(f0.take(f0.len() as int) =~= f0);
                assert(f.take(f.len() as int) =~= f);
            } else {
                assert(f.take(n as int) =~= f0.take(n as int));
            }
        } else {
            assert(f == f0);
        }
    }
}

/// Once `n` entries are taken from a prefix, the rest of `s` adds nothing.
pub proof fn lemma_first_n_saturated(s: Seq<Standing>, p: spec_fn(Standing) -> bool, n: nat, j: int)
    requires
        0 <= j <= s.len(),
        first_n_matching(s.take(j), p, n).len() >= n,
    ensures
        first_n_matching(s, p, n) == first_n_matching(s.take(j), p, n),
    decreases s.len() - j,
{
    if j < s.len() {
        lemma_first_n_step(s, p, n, j);
        lemma_first_n_saturated(s, p, n, j + 1);
    } else {
        assert(s.take(j) =~= s);
    }
}

/// Taking from a longer prefix never takes fewer entries.
pub proof fn lemma_first_n_prefix_len(s: Seq<Standing>, p: spec_fn(Standing) -> bool, n: nat, j: int)
    requires
        0 <= j <= s.len(),
    ensures
        first_n_matching(s.take(j), p, n).len() <= first_n_matching(s, p, n).len(),
    decreases s.len() - j,
{
    if j < s.len() {
        lemma_first_n_step(s, p, n, j);
        lemma_first_n_prefix_len(s, p, n, j + 1);
    } else {
        assert(s.take(j) =~= s);
    }
}

/// The reversed ranking holds the same entries, and its identifiers are
/// distinct when the ranking's are.
pub proof fn lemma_reverse_ranking(ranked: Seq<Standing>)
    ensures
        ranked.reverse().len() == ranked.len(),
        forall|x: Standing| ranked.reverse().contains(x) ==> ranked.contains(x),
        standing_ids(ranked).no_duplicates() ==> standing_ids(ranked.reverse()).no_duplicates(),
{
    let r = ranked.reverse();
    let n = ranked.len();
    assert forall|x: Standing| r.contains(x) implies ranked.contains(x) by {
        let i = choose|i: int| 0 <= i < r.len() && r[i] == x;
        assert(ranked[n - 1 - i] == x);
    }
    if standing_ids(ranked).no_duplicates() {
        assert forall|a: int, b: int|
            0 <= a < b < standing_ids(r).len() implies standing_ids(r)[a] != standing_ids(r)[b] by {
            assert(standing_ids(r)[a] == standing_ids(ranked)[n - 1 - a]);
            assert(standing_ids(r)[b] == standing_ids(ranked)[n - 1 - b]);
        }
    }
}

/// The death and birth rules of one kind's turn: whoever dies is in the
/// ranking and is dead or caught, once; deaths never take a population that
/// was above its minimum below it, and nobody dies at or below the minimum;
/// whoever reproduces is a ranked survivor able to, once; births never take
/// the population above its maximum, and nobody reproduces when the survivors
/// are at or above it.
pub proof fn lemma_turn_rules(
    ranked: Seq<Standing>,
    t: EntityType,
    caught: Map<u64, u64>,
    min_pop: u32,
    max_pop: u32,
)
    requires
        standing_ids(ranked).no_duplicates(),
    ensures
        forall|k: int|
            0 <= k < doomed(ranked, t, caught, min_pop).len() ==> dies(
                #[trigger] doomed(ranked, t, caught, min_pop)[k],
                t,
                caught,
            ) && ranked.contains(doomed(ranked, t, caught, min_pop)[k]),
        standing_ids(doomed(ranked, t, caught, min_pop)).no_duplicates(),
        ranked.len() > min_pop ==> ranked.len() - doomed(ranked, t, caught, min_pop).len() >= min_pop,
        ranked.len() <= min_pop ==> doomed(ranked, t, caught, min_pop).len() == 0,
        forall|k: int|
            0 <= k < breeders(ranked, t, caught, min_pop, max_pop).len() ==> {
                let s = #[trigger] breeders(ranked, t, caught, min_pop, max_pop)[k];
                &&& s.can_reproduce
                &&& ranked.contains(s)
                &&& !standing_ids(doomed(ranked, t, caught, min_pop)).contains(s.id)
            },
        standing_ids(breeders(ranked, t, caught, min_pop, max_pop)).no_duplicates(),
        ranked.len() - doomed(ranked, t, caught, min_pop).len() < max_pop ==> ranked.len()
            - doomed(ranked, t, caught, min_pop).len() + breeders(
            ranked,
            t,
            caught,
            min_pop,
            max_pop,
        ).len() <= max_pop,
        ranked.len() - doomed(ranked, t, caught, min_pop).len() >= max_pop ==> breeders(
            ranked,
            t,
            caught,
            min_pop,
            max_pop,
        ).len() == 0,
{
    let pd = |s: Standing| dies(s, t, caught);
    lemma_reverse_ranking(ranked);
    if ranked.len() > min_pop {
        lemma_first_n_shape(ranked.reverse(), pd, (ranked.len() - min_pop) as nat);
    }
    let dead = standing_ids(doomed(ranked, t, caught, min_pop));
    let survivors = ranked.len() - dead.len();
    let pb = |s: Standing| s.can_reproduce && !dead.contains(s.id);
    if survivors < max_pop {
        lemma_first_n_shape(ranked, pb, (max_pop - survivors) as nat);
    }
}

} // verus!
