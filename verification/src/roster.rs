use std::collections::HashMap;
use vstd::prelude::*;
use vstd::std_specs::iter::IteratorSpec;
use crate::entity_type::EntityType;
use crate::rules::{
    Birth, Death, PhaseOutcome, Standing, breeders, dies, doomed, eater, first_n_matching,
    lemma_first_n_is_filter_take, lemma_first_n_prefix_len, lemma_first_n_saturated, prefix_up_to, lemma_first_n_shape, lemma_first_n_step, lemma_turn_rules, newborns,
    standing_ids,
};

verus! {

/// Which entities are alive, keyed by identifier, with the kind of each, and
/// the counter from which newborns get their identifiers.
pub struct Roster {
    members: HashMap<u64, EntityType>,
    next_unused_entity_id: u64,
}

/// The abstract state of a roster.
pub struct RosterView {
    pub members: Map<u64, EntityType>,
    pub next_unused: u64,
}

/// The roster after one kind's turn of the death and birth rules: the dead
/// removed, the newborns added above the counter, the counter advanced by the
/// number of births.
pub open spec fn turn(
    r: RosterView,
    t: EntityType,
    ranked: Seq<Standing>,
    caught: Map<u64, u64>,
    population: [u32; 2],
) -> RosterView {
    let born = breeders(ranked, t, caught, population[0], population[1]).len();
    RosterView {
        members: r.members.remove_keys(
            standing_ids(doomed(ranked, t, caught, population[0])).to_set(),
        ).union_prefer_right(newborns(r.next_unused, born, t)),
        next_unused: (r.next_unused + born) as u64,
    }
}

/// Whether `ranked` is a ranking of kind `t` for a turn on `r`: every entity of
/// that kind once, and room in the counter for every birth.
pub open spec fn is_turn_ranking(
    r: RosterView,
    t: EntityType,
    ranked: Seq<Standing>,
    caught: Map<u64, u64>,
    population: [u32; 2],
) -> bool {
    &&& standing_ids(ranked).no_duplicates()
    &&& standing_ids(ranked).to_set() == ids_of_kind(r.members, t)
    &&& ranked.len() <= u32::MAX
    &&& r.next_unused + breeders(ranked, t, caught, population[0], population[1]).len() <= u64::MAX
}

impl View for Roster {
    type V = RosterView;

    closed spec fn view(&self) -> RosterView {
        RosterView { members: self.members@, next_unused: self.next_unused_entity_id }
    }
}

/// The kinds laid out one identifier after another: for each `(kind, count)`
/// in order, `count` entries of that kind.
pub open spec fn layout(counts: Seq<(EntityType, u32)>) -> Seq<EntityType>
    decreases counts.len(),
{
    if counts.len() == 0 {
        Seq::empty()
    } else {
        let last = counts.last();
        layout(counts.drop_last()) + Seq::new(last.1 as nat, |i: int| last.0)
    }
}

/// The number of entities that the counts ask for in all.
pub open spec fn total_count(counts: Seq<(EntityType, u32)>) -> nat
    decreases counts.len(),
{
    if counts.len() == 0 {
        0
    } else {
        total_count(counts.drop_last()) + counts.last().1 as nat
    }
}

/// The number of entities of kind `t` that the counts ask for.
pub open spec fn kind_count(counts: Seq<(EntityType, u32)>, t: EntityType) -> nat
    decreases counts.len(),
{
    if counts.len() == 0 {
        0
    } else {
        kind_count(counts.drop_last(), t) + if counts.last().0 == t {
            counts.last().1 as nat
        } else {
            0
        }
    }
}

/// The identifiers below `len` as a set of `len` elements.
proof fn lemma_id_range(lo: nat, c: nat)
    requires
        lo + c <= u64::MAX + 1,
    ensures
        Set::new(|k: u64| lo <= k < lo + c).finite(),
        Set::new(|k: u64| lo <= k < lo + c).len() == c,
{
    let range = Seq::new(c, |i: int| (lo + i) as u64);
    assert(range.no_duplicates());
    range.unique_seq_to_set();
    assert(Set::new(|k: u64| lo <= k < lo + c) =~= range.to_set()) by {
        assert forall|k: u64| lo <= k < lo + c implies range.to_set().contains(k) by {
            assert(range[k - lo] == k);
        }
    }
}

/// The layout holds as many entries as the counts ask for in all.
pub proof fn lemma_layout_len(counts: Seq<(EntityType, u32)>)
    ensures
        layout(counts).len() == total_count(counts),
    decreases counts.len(),
{
    if counts.len() > 0 {
        lemma_layout_len(counts.drop_last());
    }
}

/// The counts of a prefix ask for no more than all the counts.
pub proof fn lemma_total_prefix(counts: Seq<(EntityType, u32)>, i: int)
    requires
        0 <= i <= counts.len(),
    ensures
        total_count(counts.take(i)) <= total_count(counts),
    decreases counts.len(),
{
    if i == counts.len() {
        assert(counts.take(i) =~= counts);
    } else {
        assert(counts.take(i) =~= counts.drop_last().take(i));
        lemma_total_prefix(counts.drop_last(), i);
    }
}

/// The `i`-th count's entities take the identifiers right after those of the
/// counts before it: from the total of the earlier counts, as many as it asks
/// for, all of its kind.
pub proof fn lemma_layout_blocks(counts: Seq<(EntityType, u32)>, i: int, k: int)
    requires
        0 <= i < counts.len(),
        total_count(counts.take(i)) <= k < total_count(counts.take(i + 1)),
    ensures
        k < layout(counts).len(),
        layout(counts)[k] == counts[i].0,
    decreases counts.len(),
{
    let pre = counts.drop_last();
    lemma_layout_len(counts);
    lemma_layout_len(pre);
    if i == counts.len() - 1 {
        assert(counts.take(i) =~= pre);
        assert(counts.take(i + 1) =~= counts);
    } else {
        assert(counts.take(i) =~= pre.take(i));
        assert(counts.take(i + 1) =~= pre.take(i + 1));
        lemma_layout_blocks(pre, i, k);
    }
}

/// The identifiers that the layout gives to kind `t`.
pub open spec fn layout_ids_of_kind(counts: Seq<(EntityType, u32)>, t: EntityType) -> Set<u64> {
    Set::new(|k: u64| k < layout(counts).len() && layout(counts)[k as int] == t)
}

/// Laying out the counts gives as many identifiers as they ask for in all,
/// and as many of kind `t` as they ask for of that kind.
pub proof fn lemma_layout_counts(counts: Seq<(EntityType, u32)>, t: EntityType)
    requires
        layout(counts).len() <= u64::MAX,
    ensures
        layout(counts).len() == total_count(counts),
        layout_ids_of_kind(counts, t).finite(),
        layout_ids_of_kind(counts, t).len() == kind_count(counts, t),
    decreases counts.len(),
{
    let s = layout_ids_of_kind(counts, t);
    if counts.len() == 0 {
        assert(s =~= Set::<u64>::empty());
    } else {
        let pre = counts.drop_last();
        let l0 = layout(pre);
        let last = counts.last();
        lemma_layout_counts(pre, t);
        let s0 = layout_ids_of_kind(pre, t);
        if last.0 == t {
            let b = Set::new(|k: u64| l0.len() <= k < l0.len() + last.1);
            lemma_id_range(l0.len(), last.1 as nat);
            assert(s =~= s0 + b);
            assert(s0.disjoint(b));
            vstd::set_lib::lemma_set_disjoint_lens(s0, b);
        } else {
            assert(s =~= s0);
        }
    }
}

/// The map that results from inserting the entries in order (a later entry
/// for an identifier replaces an earlier one).
pub open spec fn map_of_entries(entries: Seq<(u64, EntityType)>) -> Map<u64, EntityType>
    decreases entries.len(),
{
    if entries.len() == 0 {
        Map::empty()
    } else {
        map_of_entries(entries.drop_last()).insert(entries.last().0, entries.last().1)
    }
}

/// Rebuilding from saved entries keeps every saved identifier, with the kind
/// of its last entry, and adds nothing else.
#[verifier::spinoff_prover]
#[verifier::rlimit(40)]
pub proof fn lemma_entries_map(entries: Seq<(u64, EntityType)>)
    ensures
        forall|i: int|
            0 <= i < entries.len() && (forall|j: int|
                #![trigger entries[j]]
                i < j < entries.len() ==> entries[j].0 != entries[i].0) ==> map_of_entries(
                entries,
            ).contains_key(#[trigger] entries[i].0) && map_of_entries(entries)[entries[i].0]
                == entries[i].1,
        forall|k: u64|
            #[trigger] map_of_entries(entries).contains_key(k) <==> exists|i: int|
                0 <= i < entries.len() && #[trigger] entries[i].0 == k,
    decreases entries.len(),
{
    if entries.len() > 0 {
        let pre = entries.drop_last();
        let last = entries.len() - 1;
        lemma_entries_map(pre);
        let m = map_of_entries(entries);
        assert forall|i: int|
            0 <= i < entries.len() && (forall|j: int|
                #![trigger entries[j]]
                i < j < entries.len() ==> entries[j].0 != entries[i].0) implies m.contains_key(
            #[trigger] entries[i].0,
        ) && m[entries[i].0] == entries[i].1 by {
            if i < last {
                assert(pre[i] == entries[i]);
                assert(entries[last].0 != entries[i].0);
                assert forall|j: int| #![trigger pre[j]] i < j < pre.len() implies pre[j].0 != pre[i].0 by {
                    assert(pre[j] == entries[j]);
                }
            }
        }
        let pm = map_of_entries(pre);
        assert(m == pm.insert(entries[last].0, entries[last].1));
        assert forall|k: u64| #[trigger] m.contains_key(k) implies exists|i: int|
            0 <= i < entries.len() && #[trigger] entries[i].0 == k by {
            if k != entries[last].0 {
                assert(pm.contains_key(k));
                let i = choose|i: int| 0 <= i < pre.len() && #[trigger] pre[i].0 == k;
                assert(entries[i] == pre[i]);
            }
        }
        assert forall|i: int| 0 <= i < entries.len() implies #[trigger] m.contains_key(entries[i].0) by {
            if i < last {
                assert(pre[i] == entries[i]);
                assert(pm.contains_key(pre[i].0));
            }
        }
    }
}

/// The identifiers in the roster whose entity is of kind `t`.
pub open spec fn ids_of_kind(members: Map<u64, EntityType>, t: EntityType) -> Set<u64> {
    members.dom().filter(|k: u64| members[k] == t)
}

impl RosterView {
    /// No identifier in use is above the counter, so every identifier the
    /// counter hands out next is fresh.
    pub open spec fn ids_below_counter(self) -> bool {
        forall|k: u64| self.members.contains_key(k) ==> k <= self.next_unused
    }
}

impl Roster {
    /// Identifiers 0, 1, 2, ... given out in the order of `n_entity_types`,
    /// `count` of them for each `(kind, count)`; the counter ends at the total.
    pub fn new(n_entity_types: &Vec<(EntityType, u32)>) -> (r: Self)
        requires
            layout(n_entity_types@).len() <= u64::MAX,
        ensures
            r@.next_unused == layout(n_entity_types@).len(),
            r@.members == Map::new(
                |k: u64| k < layout(n_entity_types@).len(),
                |k: u64| layout(n_entity_types@)[k as int],
            ),
            r@.ids_below_counter(),
            r@.members.dom().finite(),
            r@.next_unused == total_count(n_entity_types@),
            r@.members.dom() == Set::new(|k: u64| k < total_count(n_entity_types@)),
            forall|t: EntityType|
                #[trigger] ids_of_kind(r@.members, t).len() == kind_count(n_entity_types@, t),
            forall|i: int, k: u64|
                #![trigger n_entity_types@[i], r@.members[k]]
                0 <= i < n_entity_types@.len() && total_count(n_entity_types@.take(i)) <= k
                    < total_count(n_entity_types@.take(i + 1)) ==> r@.members[k] == n_entity_types@[i].0,
            forall|i: int|
                0 <= i <= n_entity_types@.len() ==> #[trigger] total_count(n_entity_types@.take(i))
                    <= total_count(n_entity_types@),
    {
        let ghost full = layout(n_entity_types@);
        let mut members: HashMap<u64, EntityType> = HashMap::new();
        let mut n_entities: u64 = 0;
        let mut i: usize = 0;
        while i < n_entity_types.len()
            invariant
                i <= n_entity_types@.len(),
                full == layout(n_entity_types@),
                full.len() <= u64::MAX,
                n_entities == layout(n_entity_types@.take(i as int)).len(),
                members@ == Map::new(
                    |k: u64| k < n_entities,
                    |k: u64| layout(n_entity_types@.take(i as int))[k as int],
                ),
                layout(n_entity_types@.take(i as int)).is_prefix_of(full),
            decreases n_entity_types.len() - i,
        {
            let (type_, count) = n_entity_types[i];
            let ghost before = layout(n_entity_types@.take(i as int));
            let ghost after = layout(n_entity_types@.take(i + 1));
            proof {
                assert(n_entity_types@.take(i + 1).drop_last() =~= n_entity_types@.take(i as int));
                assert(after =~= before + Seq::new(count as nat, |j: int| type_));
                lemma_layout_prefix(n_entity_types@, i + 1);
            }
            let mut c: u32 = 0;
            while c < count
                invariant
                    c <= count,
                    n_entities == before.len() + c,
                    after == before + Seq::new(count as nat, |j: int| type_),
                    after.len() <= full.len(),
                    full.len() <= u64::MAX,
                    members@ == Map::new(
                        |k: u64| k < n_entities,
                        |k: u64| after[k as int],
                    ),
                decreases count - c,
            {
                members.insert(n_entities, type_);
                n_entities = n_entities + 1;
                c = c + 1;
                assert(members@ =~= Map::new(|k: u64| k < n_entities, |k: u64| after[k as int]));
            }
            i = i + 1;
        }
        assert(n_entity_types@.take(i as int) =~= n_entity_types@);
        proof {
            assert forall|t: EntityType| #[trigger] ids_of_kind(members@, t).len() == kind_count(n_entity_types@, t) by {
                lemma_layout_counts(n_entity_types@, t);
                assert(members@ == Map::new(
                    |k: u64| k < n_entities,
                    |k: u64| layout(n_entity_types@)[k as int],
                ));
                assert(n_entities == layout(n_entity_types@).len());
                assert(ids_of_kind(members@, t) =~= layout_ids_of_kind(n_entity_types@, t));
            }
            lemma_layout_counts(n_entity_types@, EntityType::Prey);
            assert(members@.dom() =~= Set::new(|k: u64| k < total_count(n_entity_types@)));
        }
        proof {
            assert forall|i: int, k: u64|
                #![trigger n_entity_types@[i], members@[k]]
                0 <= i < n_entity_types@.len() && total_count(n_entity_types@.take(i)) <= k
                    < total_count(n_entity_types@.take(i + 1)) implies members@[k] == n_entity_types@[i].0 by {
                lemma_layout_blocks(n_entity_types@, i, k as int);
                lemma_layout_len(n_entity_types@);
                assert(k < n_entities);
            }
        }
        proof {
            assert forall|i: int| 0 <= i <= n_entity_types@.len() implies #[trigger] total_count(
                n_entity_types@.take(i),
            ) <= total_count(n_entity_types@) by {
                lemma_total_prefix(n_entity_types@, i);
            }
        }
        let r = Roster { members, next_unused_entity_id: n_entities };
        r
    }
}

impl Roster {
    /// Rebuilds a roster from saved `(identifier, kind)` entries and the saved
    /// counter.
    pub fn load(entities: &Vec<(u64, EntityType)>, next_unused_entity_id: u64) -> (r: Self)
        ensures
            r@.members == map_of_entries(entities@),
            r@.next_unused == next_unused_entity_id,
            r@.members.dom().finite(),
            forall|i: int|
                0 <= i < entities@.len() && (forall|j: int|
                    #![trigger entities@[j]]
                    i < j < entities@.len() ==> entities@[j].0 != entities@[i].0) ==> r@.members.contains_key(
                    #[trigger] entities@[i].0,
                ) && r@.members[entities@[i].0] == entities@[i].1,
            forall|k: u64|
                #[trigger] r@.members.contains_key(k) <==> exists|i: int|
                    0 <= i < entities@.len() && #[trigger] entities@[i].0 == k,
    {
        proof {
            lemma_entries_map(entities@);
        }
        let mut members: HashMap<u64, EntityType> = HashMap::new();
        let mut i: usize = 0;
        while i < entities.len()
            invariant
                i <= entities@.len(),
                members@ == map_of_entries(entities@.take(i as int)),
            decreases entities.len() - i,
        {
            let (id, type_) = entities[i];
            members.insert(id, type_);
            assert(entities@.take(i + 1).drop_last() =~= entities@.take(i as int));
            i = i + 1;
        }
        assert(entities@.take(i as int) =~= entities@);
        Roster { members, next_unused_entity_id }
    }

    /// Whether every identifier in use is at most the counter.
    pub fn ids_below_counter(&self) -> (b: bool)
        ensures
            b == self@.ids_below_counter(),
    {
        let mut ok = true;
        let keys = self.members.keys();
        let ghost ks = keys.remaining();
        assert(ks.unref().to_set() == self.members@.dom());
        let ghost mut seen: int = 0;
        for k in it: keys
            invariant
                it.seq() == ks,
                seen == it.index(),
                ok == (forall|j: int| 0 <= j < seen ==> *ks[j] <= self.next_unused_entity_id),
        {
            if *k > self.next_unused_entity_id {
                ok = false;
            }
            proof {
                seen = seen + 1;
            }
        }
        assert(seen == ks.len());
        proof {
            if ok {
                assert forall|k: u64| self.members@.contains_key(k) implies k <= self.next_unused_entity_id by {
                    assert(ks.unref().to_set().contains(k));
                    let j = choose|j: int| 0 <= j < ks.unref().len() && ks.unref()[j] == k;
                    assert(*ks[j] == k);
                }
                assert(self@.ids_below_counter());
            } else {
                let j = choose|j: int| 0 <= j < ks.len() && !(*ks[j] <= self.next_unused_entity_id);
                assert(ks.unref()[j] == *ks[j]);
                assert(ks.unref().to_set().contains(ks.unref()[j]));
                let k = *ks[j];
                assert(self@.members.contains_key(k) && !(k <= self@.next_unused));
                assert(!self@.ids_below_counter());
            }
        }
        ok
    }

    /// The counter from which newborns get their identifiers.
    pub fn next_unused_entity_id(&self) -> (n: u64)
        ensures
            n == self@.next_unused,
    {
        self.next_unused_entity_id
    }

    /// Advances the counter by one and returns it as a newborn's identifier.
    pub fn get_new_entity_id(&mut self) -> (id: u64)
        requires
            old(self)@.next_unused < u64::MAX,
        ensures
            id == old(self)@.next_unused + 1,
            final(self)@.next_unused == id,
            final(self)@.members == old(self)@.members,
            final(self)@.members.dom().finite(),
            old(self)@.ids_below_counter() ==> !old(self)@.members.contains_key(id)
                && final(self)@.ids_below_counter(),
    {
        let tmp = self.next_unused_entity_id;
        self.next_unused_entity_id = self.next_unused_entity_id + 1;
        tmp + 1
    }
}

/// How many entities of each kind the roster holds.
#[derive(Clone, Copy, PartialEq, Eq, Structural, Debug)]
pub struct TypeCounts {
    pub predator: u32,
    pub prey: u32,
}

impl TypeCounts {
    /// The count for kind `t`.
    pub open spec fn count_of(self, t: EntityType) -> u32 {
        match t {
            EntityType::Predator => self.predator,
            EntityType::Prey => self.prey,
        }
    }

    /// The count for kind `t`.
    pub fn get(&self, t: EntityType) -> (n: u32)
        ensures
            n == self.count_of(t),
            t == EntityType::Predator ==> n == self.predator,
            t == EntityType::Prey ==> n == self.prey,
    {
        match t {
            EntityType::Predator => self.predator,
            EntityType::Prey => self.prey,
        }
    }
}

impl Roster {
    /// The identifiers of the entities of kind `type_`, each once, in the
    /// order in which the roster is walked.
    pub fn get_entity_ids_of_type(&self, type_: EntityType) -> (ids: Vec<u64>)
        ensures
            ids@.no_duplicates(),
            ids@.to_set() == ids_of_kind(self@.members, type_),
            ids@.len() == ids_of_kind(self@.members, type_).len(),
    {
        let mut out: Vec<u64> = Vec::new();
        let entries = self.members.iter();
        let ghost es = entries.remaining();
        let ghost mut seen: int = 0;
        proof {
            assert forall|j: int, l: int| 0 <= j < l < es.len() implies *es[j].0 != *es[l].0 by {
                if *es[j].0 == *es[l].0 {
                    assert(self.members@[*es[j].0] == *es[j].1);
                    assert(self.members@[*es[l].0] == *es[l].1);
                    assert(es[j] == es[l]);
                }
            }
        }
        for (id, entity_type) in it: entries
            invariant
                it.seq() == es,
                seen == it.index(),
                es.len() == self.members@.dom().len(),
                forall|j: int| 0 <= j < es.len() ==> #[trigger] self.members@.contains_key(*es[j].0)
                    && self.members@[*es[j].0] == *es[j].1,
                forall|j: int, l: int| 0 <= j < l < es.len() ==> *es[j].0 != *es[l].0,
                out@.no_duplicates(),
                forall|x: u64| out@.contains(x) <==> exists|j: int| 0 <= j < seen && *es[j].0 == x
                    && *es[j].1 == type_,
        {
            proof {
                assert(*es[seen].0 == *id && *es[seen].1 == *entity_type);
            }
            if *entity_type == type_ {
                proof {
                    assert(!out@.contains(*id)) by {
                        if out@.contains(*id) {
                            let j = choose|j: int| 0 <= j < seen && *es[j].0 == *id && *es[j].1 == type_;
                            assert(*es[j].0 != *es[seen].0);
                        }
                    }
                }
                let ghost prev = out@;
                out.push(*id);
                proof {
                    broadcast use vstd::seq_lib::group_seq_properties;
                    assert(out@ == prev.push(*id));
                    assert forall|x: u64| out@.contains(x) <==> exists|j: int| 0 <= j < seen + 1 && *es[j].0 == x
                        && *es[j].1 == type_ by {
                        assert(out@.contains(x) <==> prev.contains(x) || x == *id);
                        if exists|j: int| 0 <= j < seen + 1 && *es[j].0 == x && *es[j].1 == type_ {
                            let j = choose|j: int| 0 <= j < seen + 1 && *es[j].0 == x && *es[j].1 == type_;
                            if j < seen {
                                assert(prev.contains(x));
                            }
                        }
                    }
                }
            } else {
                proof {
                    assert forall|x: u64| out@.contains(x) <==> exists|j: int| 0 <= j < seen + 1 && *es[j].0 == x
                        && *es[j].1 == type_ by {
                        if exists|j: int| 0 <= j < seen + 1 && *es[j].0 == x && *es[j].1 == type_ {
                            let j = choose|j: int| 0 <= j < seen + 1 && *es[j].0 == x && *es[j].1 == type_;
                            assert(j < seen);
                        }
                    }
                }
            }
            proof {
                seen = seen + 1;
            }
        }
        proof {
            assert(seen == es.len());
            assert forall|x: u64| out@.to_set().contains(x) <==> ids_of_kind(self@.members, type_).contains(x) by {
                if out@.contains(x) {
                    let j = choose|j: int| 0 <= j < seen && *es[j].0 == x && *es[j].1 == type_;
                    assert(self.members@.contains_key(*es[j].0));
                }
                if ids_of_kind(self@.members, type_).contains(x) {
                    assert(es.unref().to_set() == self.members@.kv_pairs());
                    assert(self.members@.kv_pairs().contains((x, self.members@[x])));
                    let j = choose|j: int| 0 <= j < es.unref().len() && es.unref()[j] == (x, self.members@[x]);
                    assert(*es[j].0 == x && *es[j].1 == type_);
                }
            }
            assert(out@.to_set() =~= ids_of_kind(self@.members, type_));
            out@.unique_seq_to_set();
        }
        out
    }
}

impl Roster {
    /// How many entities of each kind the roster holds.
    pub fn entity_type_counts(&self) -> (counts: TypeCounts)
        requires
            self@.members.dom().len() <= u32::MAX,
        ensures
            counts.predator == ids_of_kind(self@.members, EntityType::Predator).len(),
            counts.prey == ids_of_kind(self@.members, EntityType::Prey).len(),
    {
        let predators = self.get_entity_ids_of_type(EntityType::Predator);
        let prey = self.get_entity_ids_of_type(EntityType::Prey);
        proof {
            lemma_kind_count_bounded(self@.members, EntityType::Predator);
            lemma_kind_count_bounded(self@.members, EntityType::Prey);
        }
        TypeCounts { predator: predators.len() as u32, prey: prey.len() as u32 }
    }
}

impl Roster {
    /// One kind's turn of the death and birth rules. `ranked` lists every
    /// entity of kind `type_` from most to least fit, with what its
    /// float-valued state says; `population` holds the kind's lower and upper
    /// limits; `caught` maps caught prey to their predators. Visiting from
    /// least to most fit, entities that died or (for prey) were caught are
    /// removed while the population stays above its minimum; then, visiting
    /// from most to least fit, each surviving entity able to reproduce gets a
    /// newborn with the next identifier while the population is below its
    /// maximum.
    #[verifier::spinoff_prover]
    pub fn spawn_and_death_rules(
        &mut self,
        type_: EntityType,
        ranked: &Vec<Standing>,
        population: [u32; 2],
        caught: &HashMap<u64, u64>,
    ) -> (outcome: PhaseOutcome)
        requires
            old(self)@.ids_below_counter(),
            standing_ids(ranked@).no_duplicates(),
            standing_ids(ranked@).to_set() == ids_of_kind(old(self)@.members, type_),
            ranked@.len() <= u32::MAX,
            old(self)@.next_unused + breeders(ranked@, type_, caught@, population[0], population[1]).len()
                <= u64::MAX,
        ensures
            final(self)@ == turn(old(self)@, type_, ranked@, caught@, population),
            outcome.deaths@.map_values(|d: Death| d.id) == (if ranked@.len() > population[0] {
                standing_ids(
                    prefix_up_to(
                        ranked@.reverse().filter(
                            |s: Standing|
                                (type_ == EntityType::Prey && caught@.contains_key(s.id)) || !s.alive,
                        ),
                        ranked@.len() - population[0],
                    ),
                )
            } else {
                Seq::empty()
            }),
            forall|i: int|
                0 <= i < outcome.deaths@.len() ==> (#[trigger] outcome.deaths@[i]).eaten_by == (if type_
                    == EntityType::Prey && caught@.contains_key(outcome.deaths@[i].id) {
                    Some(caught@[outcome.deaths@[i].id])
                } else {
                    None
                }),
            outcome.births@.map_values(|b: Birth| b.parent) == (if ranked@.len()
                - outcome.deaths@.len() < population[1] {
                standing_ids(
                    prefix_up_to(
                        ranked@.filter(
                            |s: Standing|
                                s.can_reproduce && !outcome.deaths@.map_values(|d: Death| d.id).contains(
                                    s.id,
                                ),
                        ),
                        population[1] - (ranked@.len() - outcome.deaths@.len()),
                    ),
                )
            } else {
                Seq::empty()
            }),
            outcome.deaths@.len() == doomed(ranked@, type_, caught@, population[0]).len(),
            forall|i: int|
                0 <= i < outcome.deaths@.len() ==> #[trigger] outcome.deaths@[i] == (Death {
                    id: doomed(ranked@, type_, caught@, population[0])[i].id,
                    eaten_by: eater(type_, caught@, doomed(ranked@, type_, caught@, population[0])[i].id),
                }),
            outcome.births@.len() == breeders(ranked@, type_, caught@, population[0], population[1]).len(),
            forall|i: int|
                0 <= i < outcome.births@.len() ==> #[trigger] outcome.births@[i] == (Birth {
                    parent: breeders(ranked@, type_, caught@, population[0], population[1])[i].id,
                    child: (old(self)@.next_unused + i + 1) as u64,
                }),
            outcome.population == ranked@.len() - outcome.deaths@.len() + outcome.births@.len(),
            final(self)@.next_unused == old(self)@.next_unused + outcome.births@.len(),
            final(self)@.members == old(self)@.members.remove_keys(
                standing_ids(doomed(ranked@, type_, caught@, population[0])).to_set(),
            ).union_prefer_right(newborns(old(self)@.next_unused, outcome.births@.len(), type_)),
            ids_of_kind(final(self)@.members, type_).len() == outcome.population,
            forall|u: EntityType|
                u != type_ ==> ids_of_kind(final(self)@.members, u) == ids_of_kind(old(self)@.members, u),
            final(self)@.ids_below_counter(),
            final(self)@.members.dom().finite(),
            ranked@.len() > population[0] ==> ranked@.len() - outcome.deaths@.len() >= population[0],
            ranked@.len() <= population[0] ==> outcome.deaths@.len() == 0,
            ranked@.len() - outcome.deaths@.len() < population[1] ==> outcome.population <= population[1],
            ranked@.len() - outcome.deaths@.len() >= population[1] ==> outcome.births@.len() == 0,
    {
        let n = ranked.len();
        let min_pop = population[0];
        let max_pop = population[1];
        let ghost old_members = self.members@;
        let ghost next0 = self.next_unused_entity_id;
        let ghost rev = ranked@.reverse();
        let ghost pd = |s: Standing| dies(s, type_, caught@);
        let ghost budget: nat = if n > min_pop { (n - min_pop) as nat } else { 0 };
        proof {
            lemma_first_n_shape(rev.take(0), pd, budget);
            assert(rev.take(0) =~= Seq::<Standing>::empty());
            assert forall|k: int| 0 <= k < n implies #[trigger] old_members.contains_key(ranked@[k].id)
                && old_members[ranked@[k].id] == type_ by {
                assert(standing_ids(ranked@)[k] == ranked@[k].id);
                assert(standing_ids(ranked@).to_set().contains(ranked@[k].id));
            }
        }
        let mut e_count: u32 = n as u32;
        let mut deaths: Vec<Death> = Vec::new();
        let mut j: usize = 0;
        while j < n && e_count > min_pop
            invariant
                n == ranked@.len(),
                n <= u32::MAX,
                min_pop == population[0],
                rev == ranked@.reverse(),
                pd == (|s: Standing| dies(s, type_, caught@)),
                budget == (if n > min_pop { (n - min_pop) as nat } else { 0 }),
                j <= n,
                e_count as int == n - first_n_matching(rev.take(j as int), pd, budget).len(),
                e_count > min_pop || j == 0 || first_n_matching(rev.take(j as int), pd, budget).len() == budget,
                first_n_matching(rev.take(j as int), pd, budget).len() <= budget,
                deaths@.len() == first_n_matching(rev.take(j as int), pd, budget).len(),
                forall|i: int|
                    0 <= i < deaths@.len() ==> #[trigger] deaths@[i] == (Death {
                        id: first_n_matching(rev.take(j as int), pd, budget)[i].id,
                        eaten_by: eater(type_, caught@, first_n_matching(rev.take(j as int), pd, budget)[i].id),
                    }),
                self.members@ == old_members.remove_keys(
                    standing_ids(first_n_matching(rev.take(j as int), pd, budget)).to_set(),
                ),
                self.next_unused_entity_id == next0,
                standing_ids(ranked@).no_duplicates(),
                forall|k: int| 0 <= k < n ==> #[trigger] old_members.contains_key(ranked@[k].id)
                    && old_members[ranked@[k].id] == type_,
            decreases n - j,
        {
            let s = ranked[n - 1 - j];
            let ghost cs = first_n_matching(rev.take(j as int), pd, budget);
            proof {
                assert(rev[j as int] == s);
                lemma_first_n_step(rev, pd, budget, j as int);
                lemma_first_n_shape(rev.take(j + 1), pd, budget);
            }
            let caught_here = type_ == EntityType::Prey && caught.contains_key(&s.id);
            if caught_here || !s.alive {
                let eaten_by = if caught_here {
                    match caught.get(&s.id) {
                        Some(predator) => Some(*predator),
                        None => None,
                    }
                } else {
                    None
                };
                let ghost prev_members = self.members@;
                self.members.remove(&s.id);
                let ghost prev_deaths = deaths@;
                deaths.push(Death { id: s.id, eaten_by });
                e_count = e_count - 1;
                proof {
                    let cs2 = first_n_matching(rev.take(j + 1), pd, budget);
                    assert(cs2 == cs.push(s));
                    assert(standing_ids(cs2) =~= standing_ids(cs).push(s.id));
                    assert(self.members@ == prev_members.remove(s.id));
                    assert(standing_ids(cs2).to_set() =~= standing_ids(cs).to_set().insert(s.id)) by {
                        broadcast use vstd::seq_lib::group_seq_properties;
                    }
                    assert(self.members@ =~= old_members.remove_keys(standing_ids(cs2).to_set()));
                    assert forall|i: int| 0 <= i < deaths@.len() implies #[trigger] deaths@[i] == (Death {
                        id: cs2[i].id,
                        eaten_by: eater(type_, caught@, cs2[i].id),
                    }) by {
                        if i < deaths@.len() - 1 {
                            assert(deaths@[i] == prev_deaths[i]);
                        }
                    }
                }
            }
            j = j + 1;
        }
        let ghost dead = first_n_matching(rev.take(j as int), pd, budget);
        proof {
            if n > min_pop {
                if j < n {
                    lemma_first_n_saturated(rev, pd, budget, j as int);
                } else {
                    assert(rev.take(j as int) =~= rev);
                }
                assert(dead == doomed(ranked@, type_, caught@, min_pop));
            } else {
                assert(dead =~= Seq::<Standing>::empty());
            }
        }
        let ghost dead_ids = standing_ids(dead);
        let ghost survivors: int = n - dead.len();
        let ghost pb = |s: Standing| s.can_reproduce && !dead_ids.contains(s.id);
        let ghost budget2: nat = if survivors < max_pop { (max_pop - survivors) as nat } else { 0 };
        proof {
            lemma_first_n_shape(ranked@.take(0), pb, budget2);
            assert(ranked@.take(0) =~= Seq::<Standing>::empty());
            assert(self.members@ =~= old_members.remove_keys(dead_ids.to_set()).union_prefer_right(
                newborns(next0, 0, type_),
            ));
            if survivors < max_pop {
                assert(breeders(ranked@, type_, caught@, population[0], population[1])
                    == first_n_matching(ranked@, pb, budget2));
            }
        }
        let mut births: Vec<Birth> = Vec::new();
        let mut i: usize = 0;
        while i < n && e_count < max_pop
            invariant
                n == ranked@.len(),
                max_pop == population[1],
                pb == (|s: Standing| s.can_reproduce && !dead_ids.contains(s.id)),
                budget2 == (if survivors < max_pop { (max_pop - survivors) as nat } else { 0 }),
                survivors == n - dead.len(),
                i <= n,
                e_count == survivors + first_n_matching(ranked@.take(i as int), pb, budget2).len(),
                e_count < max_pop || i == 0 || first_n_matching(ranked@.take(i as int), pb, budget2).len() == budget2,
                first_n_matching(ranked@.take(i as int), pb, budget2).len() <= budget2,
                first_n_matching(ranked@.take(i as int), pb, budget2).len() <= i,
                births@.len() == first_n_matching(ranked@.take(i as int), pb, budget2).len(),
                forall|k: int|
                    0 <= k < births@.len() ==> #[trigger] births@[k] == (Birth {
                        parent: first_n_matching(ranked@.take(i as int), pb, budget2)[k].id,
                        child: (next0 + k + 1) as u64,
                    }),
                self.next_unused_entity_id == next0 + births@.len(),
                self.members@ == old_members.remove_keys(dead_ids.to_set()).union_prefer_right(
                    newborns(next0, births@.len(), type_),
                ),
                survivors < max_pop ==> next0 + first_n_matching(ranked@, pb, budget2).len() <= u64::MAX,
                forall|k: u64| old_members.contains_key(k) ==> k <= next0,
                forall|k: int| 0 <= k < n ==> #[trigger] old_members.contains_key(ranked@[k].id)
                    && old_members[ranked@[k].id] == type_,
            decreases n - i,
        {
            let s = ranked[i];
            let ghost bs = first_n_matching(ranked@.take(i as int), pb, budget2);
            proof {
                lemma_first_n_step(ranked@, pb, budget2, i as int);
                lemma_first_n_shape(ranked@.take(i + 1), pb, budget2);
                assert(old_members.contains_key(ranked@[i as int].id));
                assert(s.id <= next0);
                assert(!newborns(next0, births@.len(), type_).contains_key(s.id));
                assert(self.members@.contains_key(s.id) <==> !dead_ids.contains(s.id)) by {
                    broadcast use vstd::seq_lib::group_seq_properties;
                }
            }
            if self.members.contains_key(&s.id) {
                if s.can_reproduce {
                    proof {
                        lemma_first_n_prefix_len(ranked@, pb, budget2, i + 1);
                    }
                    let child = self.get_new_entity_id();
                    let ghost prev_members = self.members@;
                    self.members.insert(child, type_);
                    let ghost prev_births = births@;
                    births.push(Birth { parent: s.id, child });
                    e_count = e_count + 1;
                    proof {
                        let bs2 = first_n_matching(ranked@.take(i + 1), pb, budget2);
                        assert(bs2 == bs.push(s));
                        assert(self.members@ =~= old_members.remove_keys(dead_ids.to_set()).union_prefer_right(
                            newborns(next0, births@.len(), type_),
                        ));
                        assert forall|k: int| 0 <= k < births@.len() implies #[trigger] births@[k] == (Birth {
                            parent: bs2[k].id,
                            child: (next0 + k + 1) as u64,
                        }) by {
                            if k < births@.len() - 1 {
                                assert(births@[k] == prev_births[k]);
                            }
                        }
                    }
                }
            }
            i = i + 1;
        }
        proof {
            let bs = first_n_matching(ranked@.take(i as int), pb, budget2);
            if survivors < max_pop {
                if i < n {
                    lemma_first_n_saturated(ranked@, pb, budget2, i as int);
                } else {
                    assert(ranked@.take(i as int) =~= ranked@);
                }
            } else {
                assert(bs =~= Seq::<Standing>::empty());
            }
            assert(bs == breeders(ranked@, type_, caught@, population[0], population[1]));
            lemma_turn_rules(ranked@, type_, caught@, population[0], population[1]);
            lemma_census(old_members, next0, ranked@, type_, dead, births@.len());
            let death_ids = deaths@.map_values(|d: Death| d.id);
            assert(death_ids =~= dead_ids);
            let pd2 = |s: Standing| (type_ == EntityType::Prey && caught@.contains_key(s.id)) || !s.alive;
            assert(pd =~= pd2);
            if n > min_pop {
                lemma_first_n_is_filter_take(rev, pd, budget);
            }
            let pb2 = |s: Standing| s.can_reproduce && !death_ids.contains(s.id);
            assert(pb =~= pb2);
            if survivors < max_pop {
                lemma_first_n_is_filter_take(ranked@, pb, budget2);
            }
            assert(births@.map_values(|b: Birth| b.parent) =~= standing_ids(bs));
        }
        PhaseOutcome { deaths, births, population: e_count }
    }
}

/// After removing `dead` (entities of kind `t` taken from `ranked`, which
/// lists every entity of that kind once) and adding `b` newborns of kind `t`
/// above the counter, the kind counts `|ranked| - |dead| + b` entities,
/// other kinds are unchanged, and the counter plus `b` bounds every
/// identifier.
proof fn lemma_census(
    old_members: Map<u64, EntityType>,
    next0: u64,
    ranked: Seq<Standing>,
    t: EntityType,
    dead: Seq<Standing>,
    b: nat,
)
    requires
        old_members.dom().finite(),
        forall|k: u64| old_members.contains_key(k) ==> k <= next0,
        standing_ids(ranked).no_duplicates(),
        standing_ids(ranked).to_set() == ids_of_kind(old_members, t),
        standing_ids(dead).no_duplicates(),
        forall|k: int| 0 <= k < dead.len() ==> ranked.contains(#[trigger] dead[k]),
        next0 + b <= u64::MAX,
    ensures
        ({
            let nm = old_members.remove_keys(standing_ids(dead).to_set()).union_prefer_right(
                newborns(next0, b, t),
            );
            &&& ids_of_kind(nm, t).len() == ranked.len() - dead.len() + b
            &&& forall|u: EntityType| u != t ==> ids_of_kind(nm, u) == ids_of_kind(old_members, u)
            &&& forall|k: u64| nm.contains_key(k) ==> k <= next0 + b
        }),
{
    let nm = old_members.remove_keys(standing_ids(dead).to_set()).union_prefer_right(
        newborns(next0, b, t),
    );
    let kset = ids_of_kind(old_members, t);
    let dset = standing_ids(dead).to_set();
    let born = Seq::new(b, |i: int| (next0 + 1 + i) as u64);
    let nb = born.to_set();
    standing_ids(ranked).unique_seq_to_set();
    standing_ids(dead).unique_seq_to_set();
    assert(born.no_duplicates());
    born.unique_seq_to_set();
    assert forall|k: u64| nb.contains(k) <==> next0 < k <= next0 + b by {
        if next0 < k <= next0 + b {
            assert(born[k - next0 - 1] == k);
        }
    }
    assert forall|k: u64| dset.contains(k) implies kset.contains(k) by {
        let i = choose|i: int| 0 <= i < standing_ids(dead).len() && standing_ids(dead)[i] == k;
        assert(ranked.contains(dead[i]));
        let j = choose|j: int| 0 <= j < ranked.len() && ranked[j] == dead[i];
        assert(standing_ids(ranked)[j] == k);
        assert(standing_ids(ranked).to_set().contains(k));
    }
    assert(kset.finite()) by {
        vstd::set_lib::lemma_len_subset(kset, old_members.dom());
    }
    assert(kset.intersect(dset) =~= dset);
    vstd::set_lib::lemma_set_difference_len(kset, dset);
    assert(ids_of_kind(nm, t) =~= kset.difference(dset) + nb);
    assert(kset.difference(dset).disjoint(nb));
    vstd::set_lib::lemma_set_disjoint_lens(kset.difference(dset), nb);
    assert forall|u: EntityType| u != t implies ids_of_kind(nm, u) == ids_of_kind(old_members, u) by {
        assert forall|k: u64| ids_of_kind(nm, u).contains(k) <==> ids_of_kind(old_members, u).contains(k) by {
            if old_members.contains_key(k) && old_members[k] == u {
                assert(!kset.contains(k));
                assert(!dset.contains(k));
            }
        }
        assert(ids_of_kind(nm, u) =~= ids_of_kind(old_members, u));
    }
}

/// The limits of the death and birth rules for kind `t` across a change from
/// `before` to `after`: a population above its minimum stays at or above it;
/// one at or below its minimum loses nobody; and the population ends at most
/// at the larger of its old size and its maximum.
pub open spec fn kind_within_limits(
    before: RosterView,
    after: RosterView,
    t: EntityType,
    population: [u32; 2],
) -> bool {
    let n0 = ids_of_kind(before.members, t).len();
    let n = ids_of_kind(after.members, t).len();
    &&& n0 > population[0] ==> n >= population[0]
    &&& n0 <= population[0] ==> n >= n0 && forall|k: u64|
        #[trigger] ids_of_kind(before.members, t).contains(k) ==> ids_of_kind(after.members, t).contains(k)
    &&& n <= if n0 > population[1] { n0 } else { population[1] as nat }
}

/// Identifiers across a change from `before` to `after`: the counter only
/// grows, every identifier stays at or below it, an entity that was there and
/// still is keeps its kind, and every new identifier lies above the old
/// counter.
pub open spec fn ids_stay_fresh(before: RosterView, after: RosterView) -> bool {
    &&& before.next_unused <= after.next_unused
    &&& after.ids_below_counter()
    &&& forall|k: u64|
        #[trigger] after.members.contains_key(k) && before.members.contains_key(k) ==> after.members[k]
            == before.members[k]
    &&& forall|k: u64|
        #[trigger] after.members.contains_key(k) && !before.members.contains_key(k) ==> before.next_unused
            < k <= after.next_unused
}

/// One kind's turn, stated over the roster: the kind ends with its survivors
/// plus its newborns, within its limits; the other kind is untouched; the
/// newborns are of the kind, numbered above the old counter, and the counter
/// advances by their number; every parent was in the ranking, once.
pub proof fn lemma_turn(
    r: RosterView,
    t: EntityType,
    ranked: Seq<Standing>,
    caught: Map<u64, u64>,
    population: [u32; 2],
)
    requires
        r.ids_below_counter(),
        r.members.dom().finite(),
        is_turn_ranking(r, t, ranked, caught, population),
    ensures
        ids_of_kind(turn(r, t, ranked, caught, population).members, t).len() == ranked.len()
            - doomed(ranked, t, caught, population[0]).len() + breeders(
            ranked,
            t,
            caught,
            population[0],
            population[1],
        ).len(),
        ranked.len() == ids_of_kind(r.members, t).len(),
        forall|u: EntityType|
            u != t ==> ids_of_kind(turn(r, t, ranked, caught, population).members, u) == ids_of_kind(
                r.members,
                u,
            ),
        turn(r, t, ranked, caught, population).members.dom().finite(),
        turn(r, t, ranked, caught, population).next_unused == r.next_unused + breeders(
            ranked,
            t,
            caught,
            population[0],
            population[1],
        ).len(),
        kind_within_limits(r, turn(r, t, ranked, caught, population), t, population),
        ids_stay_fresh(r, turn(r, t, ranked, caught, population)),
        forall|k: u64|
            #[trigger] turn(r, t, ranked, caught, population).members.contains_key(k)
                && !r.members.contains_key(k) ==> turn(r, t, ranked, caught, population).members[k] == t,
        forall|k: int|
            0 <= k < breeders(ranked, t, caught, population[0], population[1]).len() ==> ids_of_kind(
                r.members,
                t,
            ).contains(#[trigger] breeders(ranked, t, caught, population[0], population[1])[k].id),
        standing_ids(breeders(ranked, t, caught, population[0], population[1])).no_duplicates(),
{
    let r2 = turn(r, t, ranked, caught, population);
    let dead = doomed(ranked, t, caught, population[0]);
    let born = breeders(ranked, t, caught, population[0], population[1]);
    lemma_turn_rules(ranked, t, caught, population[0], population[1]);
    lemma_census(r.members, r.next_unused, ranked, t, dead, born.len());
    standing_ids(ranked).unique_seq_to_set();
    let n0 = ids_of_kind(r.members, t).len();
    let n = ids_of_kind(r2.members, t).len();
    assert(n0 == ranked.len());
    assert(r2.members.dom().finite()) by {
        assert(r2.members.dom() =~= r.members.dom().difference(standing_ids(dead).to_set()).union(
            newborns(r.next_unused, born.len(), t).dom(),
        ));
        assert(newborns(r.next_unused, born.len(), t).dom() =~= Set::new(
            |k: u64| r.next_unused < k <= r.next_unused + born.len(),
        ));
        let range = Seq::new(born.len(), |i: int| (r.next_unused + 1 + i) as u64);
        assert(newborns(r.next_unused, born.len(), t).dom() =~= range.to_set()) by {
            assert forall|k: u64| newborns(r.next_unused, born.len(), t).dom().contains(k) implies range.to_set().contains(k) by {
                assert(range[k - r.next_unused - 1] == k);
            }
        }
    }
    if n0 <= population[0] {
        assert(dead.len() == 0);
        assert(standing_ids(dead).to_set() =~= Set::<u64>::empty());
        assert forall|k: u64| #[trigger] ids_of_kind(r.members, t).contains(k) implies ids_of_kind(r2.members, t).contains(k) by {
            assert(k <= r.next_unused);
        }
    }
    assert forall|k: int| 0 <= k < born.len() implies ids_of_kind(r.members, t).contains(#[trigger] born[k].id) by {
        assert(ranked.contains(born[k]));
        let j = choose|j: int| 0 <= j < ranked.len() && ranked[j] == born[k];
        assert(standing_ids(ranked)[j] == born[k].id);
        assert(standing_ids(ranked).to_set().contains(born[k].id));
    }
}

/// A whole step of the death and birth rules: the prey take their turn, then
/// the predators, ranked afresh on the roster the prey turn left. For each
/// kind the limits hold between the roster before and after the step;
/// identifiers stay fresh across it; the prey newborns take the identifiers
/// right above the old counter and the predator newborns those after them;
/// and every parent was an entity before the step, with at most one newborn.
pub proof fn lemma_step(
    r0: RosterView,
    caught: Map<u64, u64>,
    prey_ranked: Seq<Standing>,
    prey_population: [u32; 2],
    predator_ranked: Seq<Standing>,
    predator_population: [u32; 2],
)
    requires
        r0.ids_below_counter(),
        r0.members.dom().finite(),
        is_turn_ranking(r0, EntityType::Prey, prey_ranked, caught, prey_population),
        is_turn_ranking(
            turn(r0, EntityType::Prey, prey_ranked, caught, prey_population),
            EntityType::Predator,
            predator_ranked,
            caught,
            predator_population,
        ),
    ensures
        ({
            let r1 = turn(r0, EntityType::Prey, prey_ranked, caught, prey_population);
            let r2 = turn(r1, EntityType::Predator, predator_ranked, caught, predator_population);
            let prey_born = breeders(
                prey_ranked,
                EntityType::Prey,
                caught,
                prey_population[0],
                prey_population[1],
            );
            let predators_born = breeders(
                predator_ranked,
                EntityType::Predator,
                caught,
                predator_population[0],
                predator_population[1],
            );
            &&& kind_within_limits(r0, r2, EntityType::Prey, prey_population)
            &&& kind_within_limits(r0, r2, EntityType::Predator, predator_population)
            &&& ids_stay_fresh(r0, r2)
            &&& r2.next_unused == r0.next_unused + prey_born.len() + predators_born.len()
            &&& forall|k: u64|
                #[trigger] r2.members.contains_key(k) && !r0.members.contains_key(k) ==> (r2.members[k]
                    == EntityType::Prey <==> k <= r0.next_unused + prey_born.len())
            &&& forall|k: int|
                0 <= k < prey_born.len() ==> ids_of_kind(r0.members, EntityType::Prey).contains(
                    #[trigger] prey_born[k].id,
                )
            &&& forall|k: int|
                0 <= k < predators_born.len() ==> ids_of_kind(r0.members, EntityType::Predator).contains(
                    #[trigger] predators_born[k].id,
                )
            &&& standing_ids(prey_born).no_duplicates()
            &&& standing_ids(predators_born).no_duplicates()
        }),
{
    let r1 = turn(r0, EntityType::Prey, prey_ranked, caught, prey_population);
    let r2 = turn(r1, EntityType::Predator, predator_ranked, caught, predator_population);
    lemma_turn(r0, EntityType::Prey, prey_ranked, caught, prey_population);
    lemma_turn(r1, EntityType::Predator, predator_ranked, caught, predator_population);
    let prey0 = ids_of_kind(r0.members, EntityType::Prey);
    let pred0 = ids_of_kind(r0.members, EntityType::Predator);
    assert(ids_of_kind(r1.members, EntityType::Predator) == pred0);
    assert(ids_of_kind(r2.members, EntityType::Prey) == ids_of_kind(r1.members, EntityType::Prey));
    assert forall|k: u64|
        #[trigger] r2.members.contains_key(k) && r0.members.contains_key(k) implies r2.members[k]
        == r0.members[k] by {
        if !r1.members.contains_key(k) {
            assert(r0.next_unused < k);
        }
    }
    assert forall|k: u64|
        #[trigger] r2.members.contains_key(k) && !r0.members.contains_key(k) implies (r2.members[k]
        == EntityType::Prey <==> k <= r1.next_unused) by {
        if r1.members.contains_key(k) {
            assert(r1.members[k] == EntityType::Prey);
            assert(k <= r1.next_unused);
        } else {
            assert(r1.next_unused < k);
            assert(r2.members[k] == EntityType::Predator);
        }
    }
}

/// A roster holds finitely many entities.
pub proof fn lemma_roster_finite(r: &Roster)
    ensures
        r@.members.dom().finite(),
{
}

/// No kind has more entities than the roster holds.
pub proof fn lemma_kind_count_bounded(members: Map<u64, EntityType>, t: EntityType)
    requires
        members.dom().finite(),
    ensures
        ids_of_kind(members, t).len() <= members.dom().len(),
{
    vstd::set_lib::lemma_len_subset(ids_of_kind(members, t), members.dom());
}

/// A layout of a prefix of the counts is a prefix of the whole layout.
proof fn lemma_layout_prefix(counts: Seq<(EntityType, u32)>, i: int)
    requires
        0 <= i <= counts.len(),
    ensures
        layout(counts.take(i)).is_prefix_of(layout(counts)),
    decreases counts.len() - i,
{
    if i < counts.len() {
        lemma_layout_prefix(counts, i + 1);
        assert(counts.take(i + 1).drop_last() =~= counts.take(i));
    } else {
        assert(counts.take(i) =~= counts);
    }
}

} // verus!
