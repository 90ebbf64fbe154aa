use vstd::prelude::*;

verus! {

/// The two kinds of entity that live in the arena.
#[derive(Clone, Copy, PartialEq, Eq, Structural, Hash, Debug)]
pub enum EntityType {
    Predator,
    Prey,
}

/// The name that the settings files and the front end use for a kind.
pub open spec fn kind_name(t: EntityType) -> Seq<char> {
    match t {
        EntityType::Predator => seq!['p', 'r', 'e', 'd', 'a', 't', 'o', 'r'],
        EntityType::Prey => seq!['p', 'r', 'e', 'y'],
    }
}

/// Whether `s` is the name of some kind.
pub open spec fn is_kind_name(s: Seq<char>) -> bool {
    s == kind_name(EntityType::Predator) || s == kind_name(EntityType::Prey)
}

/// The kind that a name denotes (meaningful for the two names only).
pub open spec fn kind_of_name(s: Seq<char>) -> EntityType {
    if s == kind_name(EntityType::Predator) {
        EntityType::Predator
    } else {
        EntityType::Prey
    }
}

/// Compares two strings character by character.
pub fn str_equal(a: &str, b: &str) -> (res: bool)
    ensures
        res == (a@ == b@),
{
    let n = a.unicode_len();
    let m = b.unicode_len();
    if n != m {
        return false;
    }
    let mut i: usize = 0;
    while i < n
        invariant
            n == a@.len(),
            m == b@.len(),
            n == m,
            i <= n,
            forall|j: int| 0 <= j < i ==> a@[j] == b@[j],
        decreases n - i,
    {
        if a.get_char(i) != b.get_char(i) {
            return false;
        }
        i = i + 1;
    }
    assert(a@ =~= b@);
    true
}

impl EntityType {
    /// The kind's name: "predator" or "prey".
    pub fn to_string(&self) -> (s: String)
        ensures
            s@ == kind_name(*self),
            *self == EntityType::Predator ==> s@ == seq!['p', 'r', 'e', 'd', 'a', 't', 'o', 'r'],
            *self == EntityType::Prey ==> s@ == seq!['p', 'r', 'e', 'y'],
    {
        match self {
            EntityType::Predator => {
                let s = "predator".to_owned();
                proof {
                    reveal_strlit("predator");
                }
                assert(s@ =~= kind_name(EntityType::Predator));
                s
            },
            EntityType::Prey => {
                let s = "prey".to_owned();
                proof {
                    reveal_strlit("prey");
                }
                assert(s@ =~= kind_name(EntityType::Prey));
                s
            },
        }
    }

    /// The kind that `t` names; `t` must be "predator" or "prey".
    pub fn from_string(t: &str) -> (r: Self)
        requires
            is_kind_name(t@),
        ensures
            r == kind_of_name(t@),
            kind_name(r) == t@,
            t@ == seq!['p', 'r', 'e', 'd', 'a', 't', 'o', 'r'] ==> r == EntityType::Predator,
            t@ == seq!['p', 'r', 'e', 'y'] ==> r == EntityType::Prey,
    {
        proof {
            reveal_strlit("predator");
            reveal_strlit("prey");
        }
        if str_equal(t, "predator") {
            assert("predator"@ =~= kind_name(EntityType::Predator));
            EntityType::Predator
        } else {
            assert("predator"@ =~= kind_name(EntityType::Predator));
            assert(t@ != kind_name(EntityType::Predator));
            EntityType::Prey
        }
    }

    /// The names of all kinds: "predator", then "prey".
    pub fn string_vector() -> (v: Vec<String>)
        ensures
            v@.len() == 2,
            v@[0]@ == kind_name(EntityType::Predator),
            v@[1]@ == kind_name(EntityType::Prey),
    {
        let mut v: Vec<String> = Vec::new();
        v.push(EntityType::Predator.to_string());
        v.push(EntityType::Prey.to_string());
        v
    }

    /// All kinds: prey first, then predator.
    pub fn vector() -> (v: Vec<Self>)
        ensures
            v@ == seq![EntityType::Prey, EntityType::Predator],
    {
        let mut v: Vec<Self> = Vec::new();
        v.push(EntityType::Prey);
        v.push(EntityType::Predator);
        v
    }
}

/// Naming a kind and reading the name back gives the kind again.
pub proof fn lemma_name_round_trip(t: EntityType)
    ensures
        is_kind_name(kind_name(t)),
        kind_of_name(kind_name(t)) == t,
{
    assert(kind_name(EntityType::Predator) != kind_name(EntityType::Prey)) by {
        assert(kind_name(EntityType::Predator).len() != kind_name(EntityType::Prey).len());
    }
}

/// Reading a valid name and naming the kind gives the name again.
pub proof fn lemma_parse_round_trip(s: Seq<char>)
    requires
        is_kind_name(s),
    ensures
        kind_name(kind_of_name(s)) == s,
{
}

/// Different kinds have different names.
pub proof fn lemma_names_distinct(t: EntityType, u: EntityType)
    ensures
        kind_name(t) == kind_name(u) <==> t == u,
{
    assert(kind_name(EntityType::Predator).len() != kind_name(EntityType::Prey).len());
}

} // verus!
