use vstd::prelude::*;

verus! {

/// `s` with `x` appended, the oldest element dropped when that makes it
/// longer than `cap`.
pub open spec fn bounded_push<T>(s: Seq<T>, x: T, cap: nat) -> Seq<T> {
    if s.push(x).len() > cap {
        s.push(x).drop_first()
    } else {
        s.push(x)
    }
}

/// The last `n` elements of `s` (all of them when it has fewer).
pub open spec fn last_n<T>(s: Seq<T>, n: nat) -> Seq<T> {
    if n >= s.len() {
        s
    } else {
        s.skip(s.len() - n)
    }
}

/// A bounded history never grows past its cap.
pub proof fn lemma_bounded_push_len<T>(s: Seq<T>, x: T, cap: nat)
    requires
        s.len() <= cap,
        cap > 0,
    ensures
        bounded_push(s, x, cap).len() <= cap,
        bounded_push(s, x, cap).last() == x,
{
}

/// Pushing onto the last `cap` elements of a sequence keeps the last `cap`
/// elements of the longer sequence.
pub proof fn lemma_bounded_push_last_n<T>(s: Seq<T>, x: T, cap: nat)
    requires
        cap > 0,
    ensures
        bounded_push(last_n(s, cap), x, cap) == last_n(s.push(x), cap),
{
    if s.len() < cap {
        assert(last_n(s.push(x), cap) == s.push(x));
    } else {
        let t = s.skip(s.len() - cap);
        assert(t.push(x).len() > cap);
        assert(t.push(x).drop_first() =~= s.push(x).skip(s.push(x).len() - cap));
    }
}

/// Appends `x`, then drops the oldest element when the vector is longer
/// than `cap`.
pub fn push_bounded<T>(v: &mut Vec<T>, x: T, cap: usize)
    ensures
        final(v)@ == bounded_push(old(v)@, x, cap as nat),
{
    v.push(x);
    if v.len() > cap {
        v.remove(0);
        assert(final(v)@ =~= bounded_push(old(v)@, x, cap as nat)) by {
            assert(old(v)@.push(x).remove(0) =~= old(v)@.push(x).drop_first());
        }
    }
}

/// Index where the last `n` elements of a sequence of length `len` start.
pub fn tail_start(len: usize, n: usize) -> (r: usize)
    ensures
        r == if n >= len {
            0
        } else {
            len - n
        },
{
    if n >= len {
        0
    } else {
        len - n
    }
}

} // verus!
