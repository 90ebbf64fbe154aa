use vstd::prelude::*;
use crate::entity_type::{EntityType, is_kind_name, kind_name, kind_of_name, str_equal};

verus! {

/// One input of an entity's network, as a settings command names it.
#[derive(PartialEq, Eq, Debug)]
pub enum NnInput {
    /// `vision <kind>`: one reading per vision bin, of entities of that kind.
    Vision(EntityType),
    /// `c <number>`: a constant input; the text of the number.
    Constant(String),
}

/// The position of the first space at or after `from`, or the length when
/// there is none.
pub open spec fn next_space(s: Seq<char>, from: int) -> int
    decreases s.len() - from,
{
    if from < 0 || from >= s.len() {
        s.len() as int
    } else if s[from] == ' ' {
        from
    } else {
        next_space(s, from + 1)
    }
}

/// The position `next_space` finds is the first space at or after `from`:
/// no space lies between, and it is a space unless it is the end.
pub proof fn lemma_next_space(s: Seq<char>, from: int)
    requires
        0 <= from <= s.len(),
    ensures
        from <= next_space(s, from) <= s.len(),
        next_space(s, from) < s.len() ==> s[next_space(s, from)] == ' ',
        forall|j: int| from <= j < next_space(s, from) ==> s[j] != ' ',
    decreases s.len() - from,
{
    if from < s.len() && s[from] != ' ' {
        lemma_next_space(s, from + 1);
    }
}

/// The fields of a command: the first field holds no space and is followed by
/// the first space (when there is one); the second field holds no space and
/// is followed by a space or the end.
pub proof fn lemma_fields(s: Seq<char>)
    ensures
        !first_field(s).contains(' '),
        has_second_field(s) <==> s.contains(' '),
        has_second_field(s) ==> s[first_field(s).len() as int] == ' ' && !second_field(s).contains(' ')
            && s.subrange(
            first_field(s).len() + 1 as int,
            first_field(s).len() + 1 + second_field(s).len() as int,
        ) == second_field(s) && (first_field(s).len() + 1 + second_field(s).len() == s.len()
            || s[first_field(s).len() + 1 + second_field(s).len() as int] == ' '),
{
    lemma_next_space(s, 0);
    let p1 = next_space(s, 0);
    if s.contains(' ') {
        let j = choose|j: int| 0 <= j < s.len() && s[j] == ' ';
        assert(p1 <= j);
    }
    if has_second_field(s) {
        lemma_next_space(s, p1 + 1);
        let p2 = next_space(s, p1 + 1);
        assert forall|c: int| 0 <= c < second_field(s).len() implies second_field(s)[c] != ' ' by {
            assert(second_field(s)[c] == s[p1 + 1 + c]);
        }
    }
    assert forall|c: int| 0 <= c < first_field(s).len() implies first_field(s)[c] != ' ' by {
        assert(first_field(s)[c] == s[c]);
    }
}

/// The text before the first space.
pub open spec fn first_field(s: Seq<char>) -> Seq<char> {
    s.subrange(0, next_space(s, 0))
}

/// Whether the command has a space, and so a second field.
pub open spec fn has_second_field(s: Seq<char>) -> bool {
    next_space(s, 0) < s.len()
}

/// The text between the first space and the next space (or the end).
pub open spec fn second_field(s: Seq<char>) -> Seq<char> {
    s.subrange(next_space(s, 0) + 1, next_space(s, next_space(s, 0) + 1))
}

pub open spec fn vision_word() -> Seq<char> {
    seq!['v', 'i', 's', 'i', 'o', 'n']
}

pub open spec fn constant_word() -> Seq<char> {
    seq!['c']
}

/// Whether a command is well formed: `vision` followed by a kind's name, or
/// `c` followed by a field.
pub open spec fn is_valid_command(s: Seq<char>) -> bool {
    has_second_field(s) && ((first_field(s) == vision_word() && is_kind_name(second_field(s)))
        || first_field(s) == constant_word())
}

/// Scans from `from` to the next space (or the end).
fn find_space(s: &str, from: usize) -> (p: usize)
    requires
        from <= s@.len(),
    ensures
        p == next_space(s@, from as int),
        from <= p <= s@.len(),
{
    let n = s.unicode_len();
    let mut p = from;
    while p < n && s.get_char(p) != ' '
        invariant
            n == s@.len(),
            from <= p <= n,
            next_space(s@, from as int) == next_space(s@, p as int),
        decreases n - p,
    {
        p = p + 1;
    }
    p
}

/// Reads an input command: the words are separated by single spaces; the
/// first word says which input, the second its argument, and later words are
/// ignored. Returns `None` for a command that is not `vision` with a kind's
/// name, nor `c` with an argument.
pub fn parse_nn_input(command: &str) -> (r: Option<NnInput>)
    ensures
        r is Some <==> is_valid_command(command@),
        r matches Some(NnInput::Vision(t)) ==> first_field(command@) == seq![
            'v',
            'i',
            's',
            'i',
            'o',
            'n',
        ] && t == kind_of_name(second_field(command@)),
        r matches Some(NnInput::Constant(c)) ==> first_field(command@) == seq!['c'] && c@
            == second_field(command@),
        has_second_field(command@) && first_field(command@) == seq!['c'] ==> r is Some,
        has_second_field(command@) && first_field(command@) == seq!['v', 'i', 's', 'i', 'o', 'n']
            && (second_field(command@) == seq!['p', 'r', 'e', 'y'] || second_field(command@) == seq![
            'p',
            'r',
            'e',
            'd',
            'a',
            't',
            'o',
            'r',
        ]) ==> r is Some,
{
    proof {
        reveal_strlit("vision");
        reveal_strlit("c");
        reveal_strlit("predator");
        reveal_strlit("prey");
    }
    let n = command.unicode_len();
    let p1 = find_space(command, 0);
    if p1 == n {
        return None;
    }
    let p2 = find_space(command, p1 + 1);
    let first = command.substring_char(0, p1);
    let second = command.substring_char(p1 + 1, p2);
    assert("vision"@ =~= vision_word());
    assert("c"@ =~= constant_word());
    assert("predator"@ =~= kind_name(EntityType::Predator));
    assert("prey"@ =~= kind_name(EntityType::Prey));
    if str_equal(first, "vision") {
        if str_equal(second, "predator") || str_equal(second, "prey") {
            let t = EntityType::from_string(second);
            Some(NnInput::Vision(t))
        } else {
            None
        }
    } else if str_equal(first, "c") {
        Some(NnInput::Constant(second.to_owned()))
    } else {
        None
    }
}

} // verus!
