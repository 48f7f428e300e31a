//! Character-level checks on token text.
use vstd::prelude::*;

use crate::model::strip_leading_at;

verus! {

broadcast use vstd::string::group_string_axioms;

/// The characters of a string, in order.
pub fn char_vec(s: &str) -> (r: Vec<char>)
    ensures
        r@ == s@,
{
    let mut v: Vec<char> = Vec::new();
    for c in it: s.chars()
        invariant
            it.seq() == s@,
            v@ == it.seq().take(it.index() as int),
    {
        v.push(c);
    }
    v
}

/// Whether the text holds a newline.
pub fn has_newline(s: &str) -> (r: bool)
    ensures
        r == s@.contains('\n'),
{
    let cs = char_vec(s);
    let mut i: usize = 0;
    while i < cs.len()
        invariant
            i <= cs.len(),
            cs@ == s@,
            forall|j: int| 0 <= j < i ==> cs@[j] != '\n',
        decreases cs.len() - i,
    {
        if cs[i] == '\n' {
            return true;
        }
        i += 1;
    }
    false
}

/// Dropping leading `@` characters one by one leaves the same stripped text.
proof fn lemma_strip_skips_at(s: Seq<char>, k: int)
    requires
        0 <= k <= s.len(),
        forall|j: int| 0 <= j < k ==> s[j] == '@',
    ensures
        strip_leading_at(s) == strip_leading_at(s.subrange(k, s.len() as int)),
    decreases k,
{
    if k > 0 {
        lemma_strip_skips_at(s.drop_first(), k - 1);
        assert(s.drop_first().subrange(k - 1, s.drop_first().len() as int) =~= s.subrange(k, s.len() as int));
    } else {
        assert(s.subrange(0, s.len() as int) =~= s);
    }
}

/// Whether an annotation text names `name`: equal once its leading `@`
/// characters are dropped.
pub fn names(text: &str, name: &str) -> (r: bool)
    ensures
        r == (strip_leading_at(text@) == name@),
{
    let cs = char_vec(text);
    let ns = char_vec(name);
    let mut k: usize = 0;
    while k < cs.len() && cs[k] == '@'
        invariant
            k <= cs.len(),
            cs@ == text@,
            forall|j: int| 0 <= j < k ==> cs@[j] == '@',
        decreases cs.len() - k,
    {
        k += 1;
    }
    proof {
        lemma_strip_skips_at(cs@, k as int);
        let rest = cs@.subrange(k as int, cs@.len() as int);
        if rest.len() > 0 {
            assert(rest[0] == cs@[k as int]);
        }
        assert(strip_leading_at(rest) == rest);
    }
    let ghost rest = cs@.subrange(k as int, cs@.len() as int);
    if cs.len() - k != ns.len() {
        assert(rest.len() != name@.len());
        return false;
    }
    let mut i: usize = 0;
    while i < ns.len()
        invariant
            i <= ns.len(),
            k + ns.len() == cs.len(),
            cs@ == text@,
            ns@ == name@,
            rest == cs@.subrange(k as int, cs@.len() as int),
            strip_leading_at(text@) == rest,
            forall|j: int| 0 <= j < i ==> rest[j] == ns@[j],
        decreases ns.len() - i,
    {
        if cs[k + i] != ns[i] {
            assert(rest[i as int] != name@[i as int]);
            return false;
        }
        i += 1;
    }
    assert(rest =~= name@);
    true
}

} // verus!
