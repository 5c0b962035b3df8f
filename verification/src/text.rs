//! Byte-level text utilities shared by the table loader: ASCII whitespace
//! tokenization, separator splitting, and small copying helpers.

use vstd::prelude::*;

verus! {

/// A byte is ASCII whitespace as the hosts grammar understands it:
/// space, tab, line feed, form feed, carriage return.
pub open spec fn is_space(c: u8) -> bool {
    c == 32 || c == 9 || c == 10 || c == 12 || c == 13
}

/// The pieces of `s` between occurrences of the separator `sep`.
/// Splitting the empty sequence gives one empty piece, so the number of
/// pieces is always one more than the number of separators.
pub open spec fn split_on(s: Seq<u8>, sep: u8) -> Seq<Seq<u8>>
    decreases s.len(),
{
    if s.len() == 0 {
        seq![Seq::<u8>::empty()]
    } else {
        let init = split_on(s.drop_last(), sep);
        if s.last() == sep {
            init.push(Seq::<u8>::empty())
        } else {
            init.update(init.len() - 1, init.last().push(s.last()))
        }
    }
}

/// The maximal runs of non-whitespace bytes of `s`, in order.
pub open spec fn tokens_of(s: Seq<u8>) -> Seq<Seq<u8>>
    decreases s.len(),
{
    if s.len() == 0 {
        Seq::empty()
    } else {
        let init = tokens_of(s.drop_last());
        let c = s.last();
        if is_space(c) {
            init
        } else if s.len() == 1 || is_space(s[s.len() - 2]) {
            init.push(seq![c])
        } else {
            init.update(init.len() - 1, init.last().push(c))
        }
    }
}

/// Index of the first occurrence of `c` in `s`, or -1 when absent.
pub open spec fn find_first(s: Seq<u8>, c: u8) -> int
    decreases s.len(),
{
    if s.len() == 0 {
        -1
    } else if s[0] == c {
        0
    } else {
        let r = find_first(s.skip(1), c);
        if r < 0 {
            -1
        } else {
            r + 1
        }
    }
}

pub proof fn lemma_find_first(s: Seq<u8>, c: u8)
    ensures
        -1 <= find_first(s, c) < s.len(),
        find_first(s, c) >= 0 ==> s[find_first(s, c)] == c,
        forall|j: int| 0 <= j < find_first(s, c) ==> s[j] != c,
        find_first(s, c) == -1 ==> forall|j: int| 0 <= j < s.len() ==> s[j] != c,
    decreases s.len(),
{
    if s.len() == 0 {
    } else if s[0] == c {
    } else {
        lemma_find_first(s.skip(1), c);
        assert forall|j: int| 1 <= j < s.len() implies s[j] == s.skip(1)[j - 1] by {}
    }
}

/// Finds the first occurrence of `c` in `s`, as `find_first` describes.
pub fn find_byte(s: &Vec<u8>, c: u8) -> (r: Option<usize>)
    ensures
        r matches Some(k) ==> k as int == find_first(s@, c) && (k as int) < s@.len(),
        r is None ==> find_first(s@, c) == -1,
{
    proof {
        lemma_find_first(s@, c);
    }
    let mut i: usize = 0;
    while i < s.len()
        invariant
            0 <= i <= s@.len(),
            forall|j: int| 0 <= j < i ==> s@[j] != c,
        decreases s@.len() - i,
    {
        if s[i] == c {
            proof {
                lemma_find_first(s@, c);
            }
            return Some(i);
        }
        i += 1;
    }
    proof {
        lemma_find_first(s@, c);
    }
    None
}

/// The views of a sequence of byte vectors.
pub open spec fn seq_views(vs: Seq<Vec<u8>>) -> Seq<Seq<u8>> {
    vs.map_values(|v: Vec<u8>| v@)
}

/// Compares two byte vectors for exact (case-sensitive) equality.
pub fn bytes_eq(a: &Vec<u8>, b: &Vec<u8>) -> (r: bool)
    ensures
        r == (a@ == b@),
{
    if a.len() != b.len() {
        return false;
    }
    let mut i: usize = 0;
    while i < a.len()
        invariant
            a@.len() == b@.len(),
            0 <= i <= a@.len(),
            forall|j: int| 0 <= j < i ==> a@[j] == b@[j],
        decreases a@.len() - i,
    {
        if a[i] != b[i] {
            return false;
        }
        i += 1;
    }
    proof {
        assert(a@ =~= b@);
    }
    true
}

/// Copies a byte vector.
pub fn copy_bytes(a: &Vec<u8>) -> (r: Vec<u8>)
    ensures
        r@ == a@,
{
    let mut r: Vec<u8> = Vec::new();
    let mut i: usize = 0;
    while i < a.len()
        invariant
            0 <= i <= a@.len(),
            r@ == a@.take(i as int),
        decreases a@.len() - i,
    {
        r.push(a[i]);
        proof {
            assert(a@.take(i + 1) =~= a@.take(i as int).push(a@[i as int]));
        }
        i += 1;
    }
    proof {
        assert(a@.take(a@.len() as int) =~= a@);
    }
    r
}

/// Copies the first `n` bytes of `a`.
pub fn prefix_bytes(a: &Vec<u8>, n: usize) -> (r: Vec<u8>)
    requires
        n <= a@.len(),
    ensures
        r@ == a@.take(n as int),
{
    let mut r: Vec<u8> = Vec::new();
    let mut i: usize = 0;
    while i < n
        invariant
            0 <= i <= n <= a@.len(),
            r@ == a@.take(i as int),
        decreases n - i,
    {
        r.push(a[i]);
        proof {
            assert(a@.take(i + 1) =~= a@.take(i as int).push(a@[i as int]));
        }
        i += 1;
    }
    r
}

/// Copies the bytes of `a` from position `from` on.
pub fn suffix_bytes(a: &Vec<u8>, from: usize) -> (r: Vec<u8>)
    requires
        from <= a@.len(),
    ensures
        r@ == a@.skip(from as int),
{
    let mut r: Vec<u8> = Vec::new();
    let mut i: usize = from;
    while i < a.len()
        invariant
            from <= i <= a@.len(),
            r@ == a@.subrange(from as int, i as int),
        decreases a@.len() - i,
    {
        r.push(a[i]);
        proof {
            assert(a@.subrange(from as int, i + 1) =~= a@.subrange(from as int, i as int).push(
                a@[i as int],
            ));
        }
        i += 1;
    }
    proof {
        assert(a@.subrange(from as int, a@.len() as int) =~= a@.skip(from as int));
    }
    r
}

/// Appends all bytes of `src` to `dst`.
pub fn push_all(dst: &mut Vec<u8>, src: &Vec<u8>)
    ensures
        final(dst)@ == old(dst)@ + src@,
{
    let mut i: usize = 0;
    while i < src.len()
        invariant
            0 <= i <= src@.len(),
            dst@ == old(dst)@ + src@.take(i as int),
        decreases src@.len() - i,
    {
        let ghost pre = dst@;
        dst.push(src[i]);
        proof {
            assert(old(dst)@ + src@.take(i + 1) =~= pre.push(src@[i as int]));
        }
        i += 1;
    }
    proof {
        assert(old(dst)@ + src@.take(src@.len() as int) =~= old(dst)@ + src@);
    }
}

/// Splits `s` on the separator byte `sep`, as `split_on` describes.
pub fn split_bytes(s: &Vec<u8>, sep: u8) -> (r: Vec<Vec<u8>>)
    ensures
        seq_views(r@) == split_on(s@, sep),
{
    let mut parts: Vec<Vec<u8>> = Vec::new();
    let mut cur: Vec<u8> = Vec::new();
    let mut i: usize = 0;
    proof {
        assert(seq_views(parts@).push(cur@) =~= split_on(s@.take(0), sep));
    }
    while i < s.len()
        invariant
            0 <= i <= s@.len(),
            seq_views(parts@).push(cur@) == split_on(s@.take(i as int), sep),
        decreases s@.len() - i,
    {
        let ghost prev_parts = parts@;
        let ghost prev_cur = cur@;
        let c = s[i];
        proof {
            assert(s@.take(i + 1).drop_last() =~= s@.take(i as int));
            assert(s@.take(i + 1).last() == s@[i as int]);
        }
        if c == sep {
            parts.push(cur);
            cur = Vec::new();
            proof {
                assert(seq_views(parts@) =~= seq_views(prev_parts).push(prev_cur));
                assert(seq_views(parts@).push(cur@) =~= split_on(s@.take(i as int), sep).push(
                    Seq::<u8>::empty(),
                ));
            }
        } else {
            cur.push(c);
            proof {
                let sp = split_on(s@.take(i as int), sep);
                assert(seq_views(parts@).push(cur@) =~= sp.update(
                    sp.len() - 1,
                    sp.last().push(s@[i as int]),
                ));
            }
        }
        i += 1;
    }
    proof {
        assert(s@.take(s@.len() as int) =~= s@);
    }
    parts.push(cur);
    proof {
        assert(seq_views(parts@) =~= split_on(s@, sep));
    }
    parts
}

/// Splits `s` into its whitespace-separated tokens, as `tokens_of` describes.
pub fn split_tokens(s: &Vec<u8>) -> (r: Vec<Vec<u8>>)
    ensures
        seq_views(r@) == tokens_of(s@),
{
    let mut parts: Vec<Vec<u8>> = Vec::new();
    let mut cur: Vec<u8> = Vec::new();
    let mut i: usize = 0;
    proof {
        assert(seq_views(parts@) =~= tokens_of(s@.take(0)));
    }
    while i < s.len()
        invariant
            0 <= i <= s@.len(),
            cur@.len() > 0 ==> i > 0 && !is_space(s@[i as int - 1]),
            cur@.len() == 0 ==> i == 0 || is_space(s@[i as int - 1]),
            seq_views(parts@) + (if cur@.len() > 0 {
                seq![cur@]
            } else {
                Seq::empty()
            }) == tokens_of(s@.take(i as int)),
        decreases s@.len() - i,
    {
        let ghost prev_parts = parts@;
        let ghost prev_cur = cur@;
        let c = s[i];
        proof {
            assert(s@.take(i + 1).drop_last() =~= s@.take(i as int));
            assert(s@.take(i + 1).last() == s@[i as int]);
            if i > 0 {
                assert(s@.take(i + 1)[i as int - 1] == s@[i as int - 1]);
            }
        }
        let is_sp = c == 32 || c == 9 || c == 10 || c == 12 || c == 13;
        if is_sp {
            if cur.len() > 0 {
                parts.push(cur);
                cur = Vec::new();
                proof {
                    assert(seq_views(parts@) =~= seq_views(prev_parts).push(prev_cur));
                    assert(seq_views(parts@) + Seq::<Seq<u8>>::empty() =~= seq_views(parts@));
                    assert(seq_views(prev_parts) + seq![prev_cur] =~= seq_views(prev_parts).push(
                        prev_cur,
                    ));
                }
            } else {
                proof {
                    assert(seq_views(parts@) + Seq::<Seq<u8>>::empty() =~= seq_views(parts@));
                }
            }
        } else {
            if cur.len() == 0 {
                cur.push(c);
                proof {
                    let t = tokens_of(s@.take(i as int));
                    assert(tokens_of(s@.take(i + 1)) =~= t.push(seq![s@[i as int]]));
                    assert(seq_views(parts@) + Seq::<Seq<u8>>::empty() =~= seq_views(parts@));
                    assert(cur@ =~= seq![s@[i as int]]);
                    assert(seq_views(parts@) + seq![cur@] =~= seq_views(parts@).push(cur@));
                    assert(t.push(seq![s@[i as int]]) =~= seq_views(parts@).push(cur@));
                }
            } else {
                cur.push(c);
                proof {
                    let t = tokens_of(s@.take(i as int));
                    assert(tokens_of(s@.take(i + 1)) =~= t.update(
                        t.len() - 1,
                        t.last().push(s@[i as int]),
                    ));
                    assert(seq_views(prev_parts) + seq![prev_cur] =~= t);
                    assert(t.len() - 1 == prev_parts.len());
                    assert(t.last() == prev_cur);
                    assert(seq_views(parts@) + seq![cur@] =~= t.update(
                        t.len() - 1,
                        t.last().push(s@[i as int]),
                    ));
                }
            }
        }
        i += 1;
    }
    proof {
        assert(s@.take(s@.len() as int) =~= s@);
    }
    if cur.len() > 0 {
        parts.push(cur);
        proof {
            assert(seq_views(parts@) =~= tokens_of(s@));
        }
    } else {
        proof {
            assert(seq_views(parts@) + Seq::<Seq<u8>>::empty() =~= seq_views(parts@));
        }
    }
    parts
}

} // verus!
