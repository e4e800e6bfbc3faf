use vstd::prelude::*;

verus! {

pub proof fn lemma_take_step<T>(s: Seq<T>, i: int, x: T)
    requires
        0 <= i < s.len(),
    ensures
        s.take(i + 1).contains(x) <==> (s.take(i).contains(x) || s[i] == x),
{
    let a = s.take(i);
    let b = s.take(i + 1);
    if b.contains(x) {
        let w = choose|w: int| 0 <= w < b.len() && b[w] == x;
        if w < i {
            assert(a[w] == x);
        }
    }
    if a.contains(x) {
        let w = choose|w: int| 0 <= w < a.len() && a[w] == x;
        assert(b[w] == x);
    }
    if s[i] == x {
        assert(b[i] == x);
    }
}

pub proof fn lemma_push_contains<T>(s: Seq<T>, y: T, x: T)
    ensures
        s.push(y).contains(x) <==> (s.contains(x) || x == y),
{
    let t = s.push(y);
    if t.contains(x) {
        let w = choose|w: int| 0 <= w < t.len() && t[w] == x;
        if w < s.len() {
            assert(s[w] == x);
        }
    }
    if s.contains(x) {
        let w = choose|w: int| 0 <= w < s.len() && s[w] == x;
        assert(t[w] == x);
    }
    if x == y {
        assert(t[s.len() as int] == x);
    }
}

pub proof fn lemma_push_keeps<T>(s: Seq<T>, y: T, x: T)
    requires
        s.contains(x),
    ensures
        s.push(y).contains(x),
{
    let w = choose|w: int| 0 <= w < s.len() && s[w] == x;
    assert(s.push(y)[w] == x);
}

pub proof fn lemma_drop_last_contains<T>(s: Seq<T>, x: T)
    requires
        s.len() > 0,
    ensures
        s.contains(x) <==> (s.drop_last().contains(x) || s.last() == x),
{
    lemma_take_step(s, s.len() - 1, x);
    assert(s.take(s.len() - 1) == s.drop_last());
    assert(s.take(s.len() as int) == s);
}

} // verus!
