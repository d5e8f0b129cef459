//! Small facts about membership in sequences built by `push` and `+`.

use vstd::prelude::*;

verus! {

/// An element is in `s.push(x)` exactly when it is `x` or already in `s`.
pub proof fn lemma_push_contains<A>(s: Seq<A>, x: A, y: A)
    ensures
        s.push(x).contains(y) <==> (s.contains(y) || y == x),
{
    let t = s.push(x);
    if s.contains(y) {
        let i = choose|i: int| 0 <= i < s.len() && s[i] == y;
        assert(t[i] == y);
    }
    if y == x {
        assert(t[s.len() as int] == y);
    }
    if t.contains(y) {
        let i = choose|i: int| 0 <= i < t.len() && t[i] == y;
        if i < s.len() {
            assert(s[i] == y);
        }
    }
}

/// An element is in `s + t` exactly when it is in `s` or in `t`.
pub proof fn lemma_concat_contains<A>(s: Seq<A>, t: Seq<A>, y: A)
    ensures
        (s + t).contains(y) <==> (s.contains(y) || t.contains(y)),
{
    let u = s + t;
    if s.contains(y) {
        let i = choose|i: int| 0 <= i < s.len() && s[i] == y;
        assert(u[i] == y);
    }
    if t.contains(y) {
        let i = choose|i: int| 0 <= i < t.len() && t[i] == y;
        assert(u[s.len() + i] == y);
    }
    if u.contains(y) {
        let i = choose|i: int| 0 <= i < u.len() && u[i] == y;
        if i < s.len() {
            assert(s[i] == y);
        } else {
            assert(t[i - s.len()] == y);
        }
    }
}

} // verus!
