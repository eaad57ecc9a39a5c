use vstd::prelude::*;

verus! {

/// `p` is a literal, case-sensitive, character-exact prefix of `t`.
pub open spec fn is_prefix(p: Seq<char>, t: Seq<char>) -> bool {
    p.len() <= t.len() && (forall|i: int| 0 <= i < p.len() ==> p[i] == t[i])
}

/// Runtime prefix test, character by character.
pub fn is_prefix_of(p: &str, t: &str) -> (r: bool)
    ensures
        r == is_prefix(p@, t@),
{
    let np = p.unicode_len();
    let nt = t.unicode_len();
    if np > nt {
        return false;
    }
    let mut i: usize = 0;
    while i < np
        invariant
            0 <= i <= np,
            np == p@.len(),
            nt == t@.len(),
            np <= nt,
            forall|k: int| 0 <= k < i ==> p@[k] == t@[k],
        decreases np - i,
    {
        if p.get_char(i) != t.get_char(i) {
            return false;
        }
        i += 1;
    }
    true
}

/// Relies on `String::push`: appends the character at the end of the string.
#[verifier::external_body]
pub fn push_char(s: &mut String, c: char)
    ensures
        final(s)@ == old(s)@.push(c),
{
    s.push(c);
}

/// Relies on `String::pop`: removes and returns the last character, or
/// returns `None` and leaves the string unchanged when it is empty.
#[verifier::external_body]
pub fn pop_char(s: &mut String) -> (r: Option<char>)
    ensures
        old(s)@.len() == 0 ==> final(s)@ == old(s)@ && r is None,
        old(s)@.len() > 0 ==> final(s)@ == old(s)@.drop_last() && r == Some(old(s)@.last()),
{
    s.pop()
}

} // verus!
