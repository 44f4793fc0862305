use vstd::prelude::*;

verus! {

/// Appends every byte of `s` to `out`.
pub fn append_bytes(out: &mut Vec<u8>, s: &[u8])
    ensures
        final(out)@ == old(out)@ + s@,
{
    let mut i: usize = 0;
    while i < s.len()
        invariant
            0 <= i <= s@.len(),
            out@ == old(out)@ + s@.subrange(0, i as int),
        decreases s@.len() - i,
    {
        out.push(s[i]);
        i = i + 1;
        assert(out@ =~= old(out)@ + s@.subrange(0, i as int));
    }
    assert(s@.subrange(0, s@.len() as int) =~= s@);
}

/// A copy of the bytes `s[lo..hi]`.
pub fn copy_range(s: &[u8], lo: usize, hi: usize) -> (r: Vec<u8>)
    requires
        lo <= hi <= s@.len(),
    ensures
        r@ == s@.subrange(lo as int, hi as int),
{
    let mut r: Vec<u8> = Vec::new();
    let mut i: usize = lo;
    while i < hi
        invariant
            lo <= i <= hi,
            hi <= s@.len(),
            r@ == s@.subrange(lo as int, i as int),
        decreases hi - i,
    {
        r.push(s[i]);
        i = i + 1;
        assert(r@ =~= s@.subrange(lo as int, i as int));
    }
    r
}

/// Whether `s` begins with `head`.
pub fn starts_with(s: &[u8], head: &[u8]) -> (r: bool)
    ensures
        r == (head@.len() <= s@.len() && s@.subrange(0, head@.len() as int) == head@),
{
    if head.len() > s.len() {
        return false;
    }
    let mut i: usize = 0;
    while i < head.len()
        invariant
            head@.len() <= s@.len(),
            0 <= i <= head@.len(),
            forall|j: int| 0 <= j < i ==> s@[j] == head@[j],
        decreases head@.len() - i,
    {
        if s[i] != head[i] {
            assert(s@.subrange(0, head@.len() as int)[i as int] != head@[i as int]);
            return false;
        }
        i = i + 1;
    }
    assert(s@.subrange(0, head@.len() as int) =~= head@);
    true
}

/// Whether two byte strings are equal.
pub fn bytes_eq(a: &[u8], b: &[u8]) -> (r: bool)
    ensures
        r == (a@ == b@),
{
    if a.len() != b.len() {
        return false;
    }
    let r = starts_with(a, b);
    proof {
        if r {
            assert(a@.subrange(0, b@.len() as int) =~= a@);
        } else {
            assert(a@.subrange(0, b@.len() as int) =~= a@);
        }
    }
    r
}

/// `s` split at its first `b`: what comes before it and what comes after.
pub open spec fn is_split(s: Seq<u8>, b: u8, a: Seq<u8>, c: Seq<u8>) -> bool {
    s == a + seq![b] + c && !a.contains(b)
}

pub proof fn lemma_split_unique(s: Seq<u8>, b: u8, a1: Seq<u8>, c1: Seq<u8>, a2: Seq<u8>, c2: Seq<u8>)
    requires
        is_split(s, b, a1, c1),
        is_split(s, b, a2, c2),
    ensures
        a1 == a2,
        c1 == c2,
{
    if a1.len() < a2.len() {
        assert(s[a1.len() as int] == b);
        assert(a2[a1.len() as int] == s[a1.len() as int]);
        assert(a2.contains(b));
    } else if a2.len() < a1.len() {
        assert(s[a2.len() as int] == b);
        assert(a1[a2.len() as int] == s[a2.len() as int]);
        assert(a1.contains(b));
    }
    assert(a1 =~= s.subrange(0, a1.len() as int));
    assert(a2 =~= s.subrange(0, a2.len() as int));
    assert(c1 =~= s.subrange(a1.len() as int + 1, s.len() as int));
    assert(c2 =~= s.subrange(a2.len() as int + 1, s.len() as int));
}

/// The part of `s` before its first `b` and the part after it; all of `s` and
/// nothing when `b` does not occur.
pub open spec fn cut(s: Seq<u8>, b: u8) -> (Seq<u8>, Seq<u8>) {
    if s.contains(b) {
        choose|p: (Seq<u8>, Seq<u8>)| is_split(s, b, p.0, p.1)
    } else {
        (s, Seq::empty())
    }
}

/// Splits `s` at its first `b`, if there is one.
pub fn split_first(s: &[u8], b: u8) -> (r: Option<(Vec<u8>, Vec<u8>)>)
    ensures
        match r {
            Some(p) => is_split(s@, b, p.0@, p.1@) && cut(s@, b) == (p.0@, p.1@),
            None => !s@.contains(b) && cut(s@, b) == (s@, Seq::<u8>::empty()),
        },
{
    let mut i: usize = 0;
    while i < s.len()
        invariant
            0 <= i <= s@.len(),
            forall|j: int| 0 <= j < i ==> s@[j] != b,
        decreases s@.len() - i,
    {
        if s[i] == b {
            let a = copy_range(s, 0, i);
            let c = copy_range(s, i + 1, s.len());
            proof {
                assert(s@ =~= a@ + seq![b] + c@);
                assert(!a@.contains(b));
                assert(s@[i as int] == b);
                assert(s@.contains(b));
                let w = (a@, c@);
                assert(is_split(s@, b, w.0, w.1));
                let p = choose|p: (Seq<u8>, Seq<u8>)| is_split(s@, b, p.0, p.1);
                lemma_split_unique(s@, b, p.0, p.1, a@, c@);
            }
            return Some((a, c));
        }
        i = i + 1;
    }
    None
}

/// Splits `s` at its first `b`; all of `s` and nothing when there is none.
pub fn cut_at(s: &[u8], b: u8) -> (r: (Vec<u8>, Vec<u8>))
    ensures
        (r.0@, r.1@) == cut(s@, b),
{
    match split_first(s, b) {
        Some(p) => p,
        None => (copy_range(s, 0, s.len()), Vec::new()),
    }
}

} // verus!
