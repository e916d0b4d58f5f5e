//! Common prefix and suffix lengths of two byte strings, and the splice that
//! turns an old text into a new one by rewriting only the differing middle.
use vstd::prelude::*;
use vstd::string::StringSliceAdditionalSpecFns;
use vstd::utf8::*;

verus! {

/// Size of the blocks compared at once before the byte-by-byte scan.
pub const BLOCK: usize = 128;

/// The naive scan: length of the longest shared leading run of `a` and `b`.
pub open spec fn prefix_len(a: Seq<u8>, b: Seq<u8>) -> nat
    decreases a.len(),
{
    if a.len() == 0 || b.len() == 0 || a[0] != b[0] {
        0
    } else {
        1 + prefix_len(a.drop_first(), b.drop_first())
    }
}

/// The naive scan from the end: length of the longest shared trailing run.
pub open spec fn suffix_len(a: Seq<u8>, b: Seq<u8>) -> nat
    decreases a.len(),
{
    if a.len() == 0 || b.len() == 0 || a.last() != b.last() {
        0
    } else {
        1 + suffix_len(a.drop_last(), b.drop_last())
    }
}

/// `n` is a shared leading run of `a` and `b` that cannot be extended.
pub open spec fn is_maximal_prefix(a: Seq<u8>, b: Seq<u8>, n: int) -> bool {
    &&& 0 <= n <= a.len()
    &&& n <= b.len()
    &&& a.subrange(0, n) == b.subrange(0, n)
    &&& (n < a.len() && n < b.len() ==> a[n] != b[n])
}

/// `n` is a shared trailing run of `a` and `b` that cannot be extended.
pub open spec fn is_maximal_suffix(a: Seq<u8>, b: Seq<u8>, n: int) -> bool {
    &&& 0 <= n <= a.len()
    &&& n <= b.len()
    &&& a.subrange(a.len() - n, a.len() as int) == b.subrange(b.len() - n, b.len() as int)
    &&& (n < a.len() && n < b.len() ==> a[a.len() - n - 1] != b[b.len() - n - 1])
}

/// The naive prefix scan is the one maximal shared leading run.
pub proof fn lemma_prefix_len_maximal(a: Seq<u8>, b: Seq<u8>, n: int)
    ensures
        is_maximal_prefix(a, b, n) <==> n == prefix_len(a, b),
    decreases a.len(),
{
    if a.len() == 0 || b.len() == 0 || a[0] != b[0] {
        assert(a.subrange(0, 0) =~= b.subrange(0, 0));
        if is_maximal_prefix(a, b, n) && n > 0 {
            assert(a.subrange(0, n)[0] == b.subrange(0, n)[0]);
        }
    } else {
        let (a1, b1) = (a.drop_first(), b.drop_first());
        lemma_prefix_len_maximal(a1, b1, n - 1);
        if is_maximal_prefix(a, b, n) {
            if n == 0 {
                assert(a[0] != b[0]);
            }
            assert(a1.subrange(0, n - 1) =~= a.subrange(0, n).drop_first());
            assert(b1.subrange(0, n - 1) =~= b.subrange(0, n).drop_first());
            assert(is_maximal_prefix(a1, b1, n - 1));
        }
        if n == prefix_len(a, b) {
            assert(is_maximal_prefix(a1, b1, n - 1));
            assert(a.subrange(0, n) =~= seq![a[0]] + a1.subrange(0, n - 1));
            assert(b.subrange(0, n) =~= seq![b[0]] + b1.subrange(0, n - 1));
        }
    }
}

/// The naive suffix scan is the one maximal shared trailing run.
pub proof fn lemma_suffix_len_maximal(a: Seq<u8>, b: Seq<u8>, n: int)
    ensures
        is_maximal_suffix(a, b, n) <==> n == suffix_len(a, b),
    decreases a.len(),
{
    if a.len() == 0 || b.len() == 0 || a.last() != b.last() {
        assert(a.subrange(a.len() - 0, a.len() as int) =~= b.subrange(b.len() - 0, b.len() as int));
        if is_maximal_suffix(a, b, n) && n > 0 {
            let sa = a.subrange(a.len() - n, a.len() as int);
            let sb = b.subrange(b.len() - n, b.len() as int);
            assert(sa[n - 1] == sb[n - 1]);
        }
    } else {
        let (a1, b1) = (a.drop_last(), b.drop_last());
        lemma_suffix_len_maximal(a1, b1, n - 1);
        if is_maximal_suffix(a, b, n) {
            if n == 0 {
                assert(a.last() != b.last());
            }
            assert(a1.subrange(a1.len() - (n - 1), a1.len() as int) =~= a.subrange(
                a.len() - n,
                a.len() as int,
            ).drop_last());
            assert(b1.subrange(b1.len() - (n - 1), b1.len() as int) =~= b.subrange(
                b.len() - n,
                b.len() as int,
            ).drop_last());
            assert(is_maximal_suffix(a1, b1, n - 1));
        }
        if n == suffix_len(a, b) {
            assert(is_maximal_suffix(a1, b1, n - 1));
            assert(a.subrange(a.len() - n, a.len() as int) =~= a1.subrange(
                a1.len() - (n - 1),
                a1.len() as int,
            ).push(a.last()));
            assert(b.subrange(b.len() - n, b.len() as int) =~= b1.subrange(
                b1.len() - (n - 1),
                b1.len() as int,
            ).push(b.last()));
        }
    }
}

/// Whether the blocks of `a` and `b` that start `from_a` and `from_b` bytes in
/// hold the same bytes.
fn block_eq(a: &[u8], b: &[u8], from_a: usize, from_b: usize) -> (r: bool)
    requires
        from_a + BLOCK <= a@.len(),
        from_b + BLOCK <= b@.len(),
    ensures
        r == (a@.subrange(from_a as int, from_a + BLOCK) == b@.subrange(
            from_b as int,
            from_b + BLOCK,
        )),
{
    let la = a.len();
    let lb = b.len();
    let mut i: usize = 0;
    while i < BLOCK
        invariant
            i <= BLOCK,
            la == a@.len(),
            lb == b@.len(),
            from_a + BLOCK <= a@.len(),
            from_b + BLOCK <= b@.len(),
            a@.subrange(from_a as int, from_a + i) == b@.subrange(from_b as int, from_b + i),
        decreases BLOCK - i,
    {
        if a[from_a + i] != b[from_b + i] {
            assert(a@.subrange(from_a as int, from_a + BLOCK)[i as int] != b@.subrange(
                from_b as int,
                from_b + BLOCK,
            )[i as int]);
            return false;
        }
        assert(a@.subrange(from_a as int, from_a + i + 1) =~= a@.subrange(from_a as int, from_a + i).push(a@[from_a + i]));
        assert(b@.subrange(from_b as int, from_b + i + 1) =~= b@.subrange(from_b as int, from_b + i).push(b@[from_b + i]));
        i += 1;
    }
    true
}

/// Length of the longest shared leading byte run of `a` and `b`, found block by
/// block and then byte by byte.
pub fn common_prefix(a: &[u8], b: &[u8]) -> (r: usize)
    ensures
        r == prefix_len(a@, b@),
        is_maximal_prefix(a@, b@, r as int),
{
    let mut off: usize = 0;
    while off <= a.len() && off <= b.len() && BLOCK <= a.len() - off && BLOCK <= b.len() - off
        && block_eq(a, b, off, off)
        invariant
            off <= a@.len(),
            off <= b@.len(),
            a@.subrange(0, off as int) == b@.subrange(0, off as int),
        decreases a@.len() - off,
    {
        assert(a@.subrange(0, off + BLOCK) =~= a@.subrange(0, off as int) + a@.subrange(
            off as int,
            off + BLOCK,
        ));
        assert(b@.subrange(0, off + BLOCK) =~= b@.subrange(0, off as int) + b@.subrange(
            off as int,
            off + BLOCK,
        ));
        off = off + BLOCK;
    }
    while off < a.len() && off < b.len() && a[off] == b[off]
        invariant
            off <= a@.len(),
            off <= b@.len(),
            a@.subrange(0, off as int) == b@.subrange(0, off as int),
        decreases a@.len() - off,
    {
        assert(a@.subrange(0, off + 1) =~= a@.subrange(0, off as int).push(a@[off as int]));
        assert(b@.subrange(0, off + 1) =~= b@.subrange(0, off as int).push(b@[off as int]));
        off = off + 1;
    }
    proof {
        lemma_prefix_len_maximal(a@, b@, off as int);
    }
    off
}

/// Length of the longest shared trailing byte run of `a` and `b`, found block
/// by block from the end and then byte by byte.
pub fn common_suffix(a: &[u8], b: &[u8]) -> (r: usize)
    ensures
        r == suffix_len(a@, b@),
        is_maximal_suffix(a@, b@, r as int),
{
    let la = a.len();
    let lb = b.len();
    let mut off: usize = 0;
    while off <= la && off <= lb && BLOCK <= la - off && BLOCK <= lb - off && block_eq(
        a,
        b,
        la - off - BLOCK,
        lb - off - BLOCK,
    )
        invariant
            la == a@.len(),
            lb == b@.len(),
            off <= la,
            off <= lb,
            a@.subrange(la - off, la as int) == b@.subrange(lb - off, lb as int),
        decreases la - off,
    {
        assert(a@.subrange(la - (off + BLOCK), la as int) =~= a@.subrange(
            la - off - BLOCK,
            la - off,
        ) + a@.subrange(la - off, la as int));
        assert(b@.subrange(lb - (off + BLOCK), lb as int) =~= b@.subrange(
            lb - off - BLOCK,
            lb - off,
        ) + b@.subrange(lb - off, lb as int));
        off = off + BLOCK;
    }
    while off < la && off < lb && a[la - off - 1] == b[lb - off - 1]
        invariant
            la == a@.len(),
            lb == b@.len(),
            off <= la,
            off <= lb,
            a@.subrange(la - off, la as int) == b@.subrange(lb - off, lb as int),
        decreases la - off,
    {
        assert(a@.subrange(la - (off + 1), la as int) =~= seq![a@[la - off - 1]] + a@.subrange(
            la - off,
            la as int,
        ));
        assert(b@.subrange(lb - (off + 1), lb as int) =~= seq![b@[lb - off - 1]] + b@.subrange(
            lb - off,
            lb as int,
        ));
        off = off + 1;
    }
    proof {
        lemma_suffix_len_maximal(a@, b@, off as int);
    }
    off
}

/// The greatest character boundary of `b` at or below `k`.
pub open spec fn boundary_below(b: Seq<u8>, k: nat) -> nat
    decreases k,
{
    if k == 0 || is_char_boundary(b, k as int) {
        k
    } else {
        boundary_below(b, (k - 1) as nat)
    }
}

/// The greatest `s` at or below `k` such that the last `s` bytes of `b` start
/// at a character boundary.
pub open spec fn suffix_boundary(b: Seq<u8>, k: nat) -> nat
    decreases k,
{
    if k == 0 || is_char_boundary(b, b.len() - k) {
        k
    } else {
        suffix_boundary(b, (k - 1) as nat)
    }
}

/// The shared leading and trailing runs of `new` and `old` that a splice
/// keeps: the common prefix, and the common suffix of what follows it, each
/// shortened to a character boundary of `new`.
pub open spec fn splice_bounds(new: Seq<u8>, old: Seq<u8>) -> (nat, nat) {
    let p0 = prefix_len(new, old);
    let s0 = suffix_len(new.subrange(p0 as int, new.len() as int), old.subrange(p0 as int, old.len() as int));
    let s = suffix_boundary(new, s0);
    (boundary_below(new.subrange(0, new.len() - s), p0), s)
}

/// Text `t` after deleting `del` bytes at `pos` and inserting `ins` there.
pub open spec fn spliced(t: Seq<u8>, pos: int, del: int, ins: Seq<u8>) -> Seq<u8> {
    t.subrange(0, pos) + ins + t.subrange(pos + del, t.len() as int)
}

/// Splicing the middle of `new` into `old` over a shared leading run of `p`
/// bytes and a shared trailing run of `s` bytes yields `new`.
pub proof fn lemma_splice_gives_new(old: Seq<u8>, new: Seq<u8>, p: int, s: int)
    requires
        0 <= p,
        0 <= s,
        p + s <= old.len(),
        p + s <= new.len(),
        old.subrange(0, p) == new.subrange(0, p),
        old.subrange(old.len() - s, old.len() as int) == new.subrange(
            new.len() - s,
            new.len() as int,
        ),
    ensures
        spliced(old, p, old.len() - p - s, new.subrange(p, new.len() - s)) == new,
{
    assert(spliced(old, p, old.len() - p - s, new.subrange(p, new.len() - s)) =~= new.subrange(
        0,
        p,
    ) + new.subrange(p, new.len() - s) + new.subrange(new.len() - s, new.len() as int));
    assert(new =~= new.subrange(0, p) + new.subrange(p, new.len() - s) + new.subrange(
        new.len() - s,
        new.len() as int,
    ));
}

/// A shared trailing run of two remainders is a shared trailing run of the
/// whole strings.
proof fn lemma_suffix_of_remainder(a: Seq<u8>, b: Seq<u8>, p: int, s: int)
    requires
        0 <= p <= a.len(),
        p <= b.len(),
        0 <= s,
        is_maximal_suffix(a.subrange(p, a.len() as int), b.subrange(p, b.len() as int), s),
    ensures
        a.subrange(a.len() - s, a.len() as int) == b.subrange(b.len() - s, b.len() as int),
{
    let (ar, br) = (a.subrange(p, a.len() as int), b.subrange(p, b.len() as int));
    assert(ar.subrange(ar.len() - s, ar.len() as int) =~= a.subrange(a.len() - s, a.len() as int));
    assert(br.subrange(br.len() - s, br.len() as int) =~= b.subrange(b.len() - s, b.len() as int));
}

/// The splice that rewrites the text `old` into `new`: `Some((pos, del, ins))`
/// to delete `del` bytes at `pos` and insert `ins` there, or `None` where the
/// two share neither a leading nor a trailing run, and the whole text is to be
/// replaced. The shared runs are the common prefix of the two and the common
/// suffix of what follows it, each shortened to the nearest character boundary
/// of `new` so that `ins` is a whole string.
pub fn plan_text_splice<'a>(old: &str, new: &'a str) -> (r: Option<(usize, usize, &'a str)>)
    ensures
        match r {
            Some((pos, del, ins)) => {
                &&& pos + del <= old.spec_bytes().len()
                &&& spliced(old.spec_bytes(), pos as int, del as int, ins.spec_bytes())
                    == new.spec_bytes()
                &&& pos <= prefix_len(new.spec_bytes(), old.spec_bytes())
                &&& pos + del < old.spec_bytes().len() || pos > 0
                &&& pos == splice_bounds(new.spec_bytes(), old.spec_bytes()).0
                &&& del == old.spec_bytes().len() - splice_bounds(new.spec_bytes(), old.spec_bytes()).0
                    - splice_bounds(new.spec_bytes(), old.spec_bytes()).1
                &&& ins.spec_bytes() == new.spec_bytes().subrange(
                    pos as int,
                    new.spec_bytes().len() - splice_bounds(new.spec_bytes(), old.spec_bytes()).1,
                )
            },
            None => true,
        },
        r is Some <==> (splice_bounds(new.spec_bytes(), old.spec_bytes()).0 > 0 || splice_bounds(
            new.spec_bytes(),
            old.spec_bytes(),
        ).1 > 0),
        prefix_len(new.spec_bytes(), old.spec_bytes()) == 0 && suffix_len(
            new.spec_bytes(),
            old.spec_bytes(),
        ) == 0 ==> r is None,
{
    broadcast use encode_utf8_valid_utf8, is_char_boundary_start_end_of_seq;

    let nb = new.as_bytes();
    let ob = old.as_bytes();
    let n = nb.len();
    let m = ob.len();
    let p0 = common_prefix(nb, ob);
    let new_rest = &nb[p0..n];
    let old_rest = &ob[p0..m];
    let s0 = common_suffix(new_rest, old_rest);
    proof {
        if p0 == 0 {
            assert(nb@.subrange(0, n as int) =~= nb@);
            assert(ob@.subrange(0, m as int) =~= ob@);
        }
        lemma_suffix_of_remainder(nb@, ob@, p0 as int, s0 as int);
    }
    let mut s = s0;
    proof {
        assert(new_rest@ == nb@.subrange(p0 as int, n as int));
        assert(old_rest@ == ob@.subrange(p0 as int, m as int));
    }
    while s > 0 && !new.is_char_boundary(n - s)
        invariant
            s <= s0,
            suffix_boundary(nb@, s0 as nat) == suffix_boundary(nb@, s as nat),
            p0 + s0 <= n,
            n == nb@.len(),
            nb@ == new.spec_bytes(),
        decreases s,
    {
        s = s - 1;
    }
    proof {
        assert(is_char_boundary(new.spec_bytes(), 0));
    }
    let (head, _tail) = new.split_at(n - s);
    let mut p = p0;
    while p > 0 && !head.is_char_boundary(p)
        invariant
            p <= p0,
            p0 + s0 <= n,
            s <= s0,
            head.spec_bytes() == nb@.subrange(0, n - s),
            nb@ == new.spec_bytes(),
            n == nb@.len(),
            boundary_below(head.spec_bytes(), p0 as nat) == boundary_below(head.spec_bytes(), p as nat),
        decreases p,
    {
        p = p - 1;
    }
    if p == 0 && s == 0 {
        return None;
    }
    proof {
        assert(is_char_boundary(head.spec_bytes(), 0));
    }
    let (_front, ins) = head.split_at(p);
    proof {
        assert(ins.spec_bytes() =~= nb@.subrange(p as int, n - s));
        assert(ob@.subrange(0, p as int) =~= ob@.subrange(0, p0 as int).subrange(0, p as int));
        assert(nb@.subrange(0, p as int) =~= nb@.subrange(0, p0 as int).subrange(0, p as int));
        assert(ob@.subrange(m - s, m as int) =~= ob@.subrange(m - s0, m as int).subrange(
            s0 - s,
            s0 as int,
        ));
        assert(nb@.subrange(n - s, n as int) =~= nb@.subrange(n - s0, n as int).subrange(
            s0 - s,
            s0 as int,
        ));
        lemma_splice_gives_new(ob@, nb@, p as int, s as int);
    }
    Some((p, m - p - s, ins))
}

} // verus!
