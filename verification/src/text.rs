//! Verified helpers over character sequences: substring search, prefix
//! tests, and conversion of a `&str` into its character vector.

use vstd::prelude::*;

verus! {

/// `p` occurs in `s` starting at index `i`.
pub open spec fn occurs_at(s: Seq<char>, p: Seq<char>, i: int) -> bool {
    0 <= i && i + p.len() <= s.len() && s.subrange(i, i + p.len() as int) == p
}

/// `p` occurs somewhere in `s`.
pub open spec fn contains_seq(s: Seq<char>, p: Seq<char>) -> bool {
    exists|i: int| occurs_at(s, p, i)
}

/// `p` is a prefix of `s`.
pub open spec fn is_prefix(p: Seq<char>, s: Seq<char>) -> bool {
    p.len() <= s.len() && s.subrange(0, p.len() as int) == p
}

/// The characters of `s`, as a vector.
pub fn chars_of(s: &str) -> (r: Vec<char>)
    ensures
        r@ == s@,
{
    let n = s.unicode_len();
    let mut r: Vec<char> = Vec::new();
    let mut i: usize = 0;
    while i < n
        invariant
            n == s@.len(),
            i <= n,
            r@ == s@.subrange(0, i as int),
        decreases n - i,
    {
        r.push(s.get_char(i));
        i += 1;
        assert(r@ =~= s@.subrange(0, i as int));
    }
    assert(r@ =~= s@);
    r
}

/// Whether `s` contains the character `c`.
pub fn vec_contains_char(s: &Vec<char>, c: char) -> (r: bool)
    ensures
        r == s@.contains(c),
{
    let mut i: usize = 0;
    while i < s.len()
        invariant
            i <= s@.len(),
            forall|j: int| 0 <= j < i ==> s@[j] != c,
        decreases s@.len() - i,
    {
        if s[i] == c {
            return true;
        }
        i += 1;
    }
    false
}

/// Whether `p` occurs in `s` starting exactly at `i`.
fn matches_at(s: &Vec<char>, p: &Vec<char>, i: usize) -> (r: bool)
    requires
        i + p@.len() <= s@.len(),
    ensures
        r == occurs_at(s@, p@, i as int),
{
    let n = s.len();
    let mut j: usize = 0;
    while j < p.len()
        invariant
            n == s@.len(),
            i + p@.len() <= n,
            j <= p@.len(),
            forall|k: int| 0 <= k < j ==> s@[i + k] == p@[k],
        decreases p@.len() - j,
    {
        if s[i + j] != p[j] {
            assert(!occurs_at(s@, p@, i as int)) by {
                if occurs_at(s@, p@, i as int) {
                    assert(s@.subrange(i as int, i + p@.len() as int)[j as int] == p@[j as int]);
                }
            }
            return false;
        }
        j += 1;
    }
    assert(s@.subrange(i as int, i + p@.len() as int) =~= p@);
    true
}

/// Whether `p` occurs anywhere in `s`.
pub fn vec_contains_seq(s: &Vec<char>, p: &Vec<char>) -> (r: bool)
    ensures
        r == contains_seq(s@, p@),
{
    if p.len() > s.len() {
        assert(!contains_seq(s@, p@));
        return false;
    }
    if p.len() == 0 {
        assert(occurs_at(s@, p@, 0)) by {
            assert(s@.subrange(0, 0) =~= p@);
        }
        return true;
    }
    let last = s.len() - p.len();
    let mut i: usize = 0;
    while i <= last
        invariant
            1 <= p@.len() <= s@.len(),
            s@.len() <= usize::MAX,
            last == s@.len() - p@.len(),
            i <= last + 1,
            forall|k: int| 0 <= k < i ==> !occurs_at(s@, p@, k),
        decreases last - i + 1,
    {
        if matches_at(s, p, i) {
            return true;
        }
        i += 1;
    }
    false
}

/// Whether `p` is a prefix of `s`.
pub fn vec_is_prefix(s: &Vec<char>, p: &Vec<char>) -> (r: bool)
    ensures
        r == is_prefix(p@, s@),
{
    if p.len() > s.len() {
        return false;
    }
    matches_at(s, p, 0)
}

/// Lexicographic order on character sequences, by code point; a prefix
/// precedes its extensions.
pub open spec fn lex_leq(a: Seq<char>, b: Seq<char>) -> bool
    decreases a.len(),
{
    if a.len() == 0 {
        true
    } else if b.len() == 0 {
        false
    } else if (a[0] as u32) < (b[0] as u32) {
        true
    } else if (a[0] as u32) > (b[0] as u32) {
        false
    } else {
        lex_leq(a.drop_first(), b.drop_first())
    }
}

/// The order is total.
proof fn lemma_lex_total(a: Seq<char>, b: Seq<char>)
    ensures
        lex_leq(a, b) || lex_leq(b, a),
    decreases a.len(),
{
    if a.len() != 0 && b.len() != 0 && !((a[0] as u32) < (b[0] as u32)) && !((a[0] as u32) > (
    b[0] as u32)) {
        lemma_lex_total(a.drop_first(), b.drop_first());
    }
}

/// The order is transitive.
proof fn lemma_lex_trans(a: Seq<char>, b: Seq<char>, c: Seq<char>)
    requires
        lex_leq(a, b),
        lex_leq(b, c),
    ensures
        lex_leq(a, c),
    decreases a.len(),
{
    if a.len() != 0 && b.len() != 0 && c.len() != 0 && !((a[0] as u32) < (b[0] as u32)) && !((
    a[0] as u32) > (b[0] as u32)) && !((b[0] as u32) < (c[0] as u32)) && !((b[0] as u32) > (
    c[0] as u32)) {
        lemma_lex_trans(a.drop_first(), b.drop_first(), c.drop_first());
    }
}

/// Whether `a` precedes `b` (or equals it) in lexicographic order.
pub fn lex_leq_exec(a: &str, b: &str) -> (r: bool)
    ensures
        r == lex_leq(a@, b@),
{
    let na = a.unicode_len();
    let nb = b.unicode_len();
    let mut k: usize = 0;
    proof {
        assert(a@.skip(0) =~= a@);
        assert(b@.skip(0) =~= b@);
    }
    while k < na && k < nb
        invariant
            na == a@.len(),
            nb == b@.len(),
            k <= na,
            k <= nb,
            lex_leq(a@, b@) == lex_leq(a@.skip(k as int), b@.skip(k as int)),
        decreases na - k,
    {
        let ca = a.get_char(k);
        let cb = b.get_char(k);
        let ghost sa = a@.skip(k as int);
        let ghost sb = b@.skip(k as int);
        proof {
            assert(sa.len() > 0 && sb.len() > 0);
            assert(sa[0] == a@[k as int]);
            assert(sb[0] == b@[k as int]);
            assert(sa.drop_first() =~= a@.skip(k + 1));
            assert(sb.drop_first() =~= b@.skip(k + 1));
        }
        if (ca as u32) < (cb as u32) {
            return true;
        }
        if (ca as u32) > (cb as u32) {
            return false;
        }
        k += 1;
    }
    proof {
        assert(a@.skip(k as int).len() == na - k);
        assert(b@.skip(k as int).len() == nb - k);
    }
    if k >= na {
        assert(lex_leq(a@.skip(k as int), b@.skip(k as int)));
        true
    } else {
        assert(b@.skip(k as int).len() == 0);
        assert(a@.skip(k as int).len() > 0);
        false
    }
}

proof fn lemma_strings_dv(v: &Vec<String>)
    ensures
        v.deep_view().len() == v@.len(),
        forall|i: int| 0 <= i < v@.len() ==> v.deep_view()[i] == v@[i]@,
{
}

/// Sorts distinct strings into strictly increasing lexicographic order,
/// keeping exactly the same elements.
pub fn sort_strings(items: Vec<String>) -> (r: Vec<String>)
    requires
        forall|i: int, j: int|
            0 <= i < j < items.deep_view().len() ==> items.deep_view()[i]
                != items.deep_view()[j],
    ensures
        r.deep_view().len() == items.deep_view().len(),
        forall|x: Seq<char>| r.deep_view().contains(x) == items.deep_view().contains(x),
        forall|i: int, j: int|
            0 <= i < j < r.deep_view().len() ==> lex_leq(
                #[trigger] r.deep_view()[i],
                #[trigger] r.deep_view()[j],
            ) && r.deep_view()[i] != r.deep_view()[j],
{
    let ghost src = items.deep_view();
    let mut out: Vec<String> = Vec::new();
    let mut idx: usize = 0;
    proof {
        lemma_strings_dv(&items);
        assert(out.deep_view() =~= Seq::<Seq<char>>::empty());
    }
    while idx < items.len()
        invariant
            src == items.deep_view(),
            src.len() == items@.len(),
            forall|i: int, j: int| 0 <= i < j < src.len() ==> src[i] != src[j],
            idx <= items@.len(),
            out.deep_view().len() == idx,
            forall|x: Seq<char>|
                out.deep_view().contains(x) == src.subrange(0, idx as int).contains(x),
            forall|i: int, j: int|
                0 <= i < j < out.deep_view().len() ==> lex_leq(
                    #[trigger] out.deep_view()[i],
                    #[trigger] out.deep_view()[j],
                ) && out.deep_view()[i] != out.deep_view()[j],
        decreases items@.len() - idx,
    {
        proof {
            lemma_strings_dv(&items);
            assert(src[idx as int] == items@[idx as int]@);
        }
        let item = items[idx].clone();
        // `item` is not in `out`: it only holds earlier, distinct items
        proof {
            if out.deep_view().contains(item@) {
                assert(src.subrange(0, idx as int).contains(item@));
                let w = choose|w: int| 0 <= w < idx && src.subrange(0, idx as int)[w] == item@;
                assert(src[w] == src[idx as int]);
                assert(false);
            }
        }
        let mut j: usize = 0;
        while j < out.len() && !lex_leq_exec(item.as_str(), out[j].as_str())
            invariant
                out.deep_view().len() == out@.len(),
                j <= out@.len(),
                forall|k: int| 0 <= k < j ==> !lex_leq(item@, #[trigger] out.deep_view()[k]),
            decreases out@.len() - j,
        {
            proof {
                lemma_strings_dv(&out);
            }
            j += 1;
        }
        proof {
            lemma_strings_dv(&out);
            assert forall|k: int| 0 <= k < j implies lex_leq(
                #[trigger] out.deep_view()[k],
                item@,
            ) by {
                lemma_lex_total(item@, out.deep_view()[k]);
            }
            if (j as int) < out.deep_view().len() {
                assert(lex_leq(item@, out.deep_view()[j as int]));
            }
        }
        let ghost pre = out.deep_view();
        let ghost pos = j as int;
        out.insert(j, item);
        idx += 1;
        proof {
            lemma_strings_dv(&out);
            let dv = out.deep_view();
            assert(dv.len() == pre.len() + 1);
            assert forall|k: int| 0 <= k < dv.len() implies dv[k] == (if k < pos {
                pre[k]
            } else if k == pos {
                item@
            } else {
                pre[k - 1]
            }) by {
                if k < pos {
                    assert(out@[k] == out@.subrange(0, pos)[k]);
                } else if k > pos {
                    assert(out@[k] == out@.subrange(pos + 1, out@.len() as int)[k - pos - 1]);
                }
            }
            assert forall|x: Seq<char>|
                dv.contains(x) == src.subrange(0, idx as int).contains(x) by {
                if dv.contains(x) {
                    let w = choose|w: int| 0 <= w < dv.len() && dv[w] == x;
                    if w == pos {
                        assert(src.subrange(0, idx as int)[idx - 1] == x);
                    } else {
                        let wp: int = if w < pos {
                            w
                        } else {
                            w - 1
                        };
                        assert(pre[wp] == x);
                        assert(pre.contains(x));
                        assert(src.subrange(0, idx - 1).contains(x));
                        let w2 = choose|w2: int|
                            0 <= w2 < idx - 1 && (#[trigger] src.subrange(0, idx - 1)[w2]) == x;
                        assert(src.subrange(0, idx as int)[w2] == x);
                    }
                }
                if src.subrange(0, idx as int).contains(x) {
                    let w = choose|w: int|
                        0 <= w < idx && src.subrange(0, idx as int)[w] == x;
                    if w == idx - 1 {
                        assert(dv[pos] == x);
                    } else {
                        assert(src.subrange(0, idx - 1)[w] == x);
                        assert(pre.contains(x));
                        let w2 = choose|w2: int| 0 <= w2 < pre.len() && pre[w2] == x;
                        if w2 < pos {
                            assert(dv[w2] == x);
                        } else {
                            assert(dv[w2 + 1] == x);
                        }
                    }
                }
            }
            assert forall|i1: int, j1: int|
                0 <= i1 < j1 < dv.len() implies lex_leq(#[trigger] dv[i1], #[trigger] dv[j1])
                && dv[i1] != dv[j1] by {
                let li: Seq<char> = dv[i1];
                let lj: Seq<char> = dv[j1];
                if i1 == pos {
                    // item before a shifted tail element
                    assert(lj == pre[j1 - 1]);
                    if pos < pre.len() {
                        assert(lex_leq(item@, pre[pos]));
                        if j1 - 1 > pos {
                            lemma_lex_trans(item@, pre[pos], pre[j1 - 1]);
                        }
                    }
                    assert(!pre.contains(lj) ==> false);
                    assert(pre.contains(lj));
                    assert(li != lj);
                } else if j1 == pos {
                    assert(li == pre[i1]);
                    assert(lex_leq(pre[i1], item@));
                    assert(pre.contains(li));
                    assert(li != lj);
                } else {
                    let i2: int = if i1 < pos {
                        i1
                    } else {
                        i1 - 1
                    };
                    let j2: int = if j1 < pos {
                        j1
                    } else {
                        j1 - 1
                    };
                    assert(li == pre[i2] && lj == pre[j2]);
                    assert(i2 < j2);
                }
            }
        }
    }
    assert(src.subrange(0, src.len() as int) =~= src);
    out
}

} // verus!
