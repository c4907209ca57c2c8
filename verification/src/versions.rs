//! Ordering version directory names for registry listings.
//!
//! `String`'s order compares UTF-8 bytes, which orders like the code points of the
//! characters; the order here compares characters by code point.
use vstd::prelude::*;
use vstd::multiset::Multiset;

use crate::resolver::strings_view;
use crate::text::to_chars;

verus! {

/// `a[i..]` is at most `b[i..]` in lexicographic order.
pub open spec fn lex_le_from(a: Seq<char>, b: Seq<char>, i: int) -> bool
    decreases a.len() - i,
{
    if i < 0 || i >= a.len() {
        true
    } else if i >= b.len() {
        false
    } else if (a[i] as u32) != (b[i] as u32) {
        (a[i] as u32) < (b[i] as u32)
    } else {
        lex_le_from(a, b, i + 1)
    }
}

/// `a` is at most `b` in lexicographic order of code points.
pub open spec fn lex_le(a: Seq<char>, b: Seq<char>) -> bool {
    lex_le_from(a, b, 0)
}

/// The texts are in lexicographic order.
pub open spec fn lex_sorted(s: Seq<Seq<char>>) -> bool {
    forall|i: int, j: int| 0 <= i < j < s.len() ==> lex_le(#[trigger] s[i], #[trigger] s[j])
}

/// Any two texts compare one way or the other.
proof fn lemma_lex_total(a: Seq<char>, b: Seq<char>, i: int)
    requires
        0 <= i,
    ensures
        lex_le_from(a, b, i) || lex_le_from(b, a, i),
    decreases a.len() - i,
{
    if i < a.len() && i < b.len() && (a[i] as u32) == (b[i] as u32) {
        lemma_lex_total(a, b, i + 1);
    }
}

/// The order is transitive.
proof fn lemma_lex_trans(a: Seq<char>, b: Seq<char>, c: Seq<char>, i: int)
    requires
        0 <= i,
        lex_le_from(a, b, i),
        lex_le_from(b, c, i),
    ensures
        lex_le_from(a, c, i),
    decreases a.len() - i,
{
    if i < a.len() && i < b.len() && i < c.len() && (a[i] as u32) == (b[i] as u32) && (b[i] as u32)
        == (c[i] as u32) {
        lemma_lex_trans(a, b, c, i + 1);
    }
}

/// `a` is a prefix of `b`.
pub open spec fn is_prefix(a: Seq<char>, b: Seq<char>) -> bool {
    a.len() <= b.len() && b.take(a.len() as int) == a
}

/// `a` and `b` first differ at position `i`, where `a` has the smaller code point.
pub open spec fn smaller_at(a: Seq<char>, b: Seq<char>, i: int) -> bool {
    &&& 0 <= i < a.len()
    &&& i < b.len()
    &&& a.take(i) == b.take(i)
    &&& (a[i] as u32) < (b[i] as u32)
}

/// Distinct characters have distinct code points.
proof fn lemma_code_point_injective(c: char, d: char)
    requires
        (c as u32) == (d as u32),
    ensures
        c == d,
{
}

/// From position `i` on, with equal prefixes before it, the order is prefix-or-smaller.
proof fn lemma_lex_from_characterized(a: Seq<char>, b: Seq<char>, i: int)
    requires
        0 <= i <= a.len(),
        i <= b.len(),
        a.take(i) == b.take(i),
    ensures
        lex_le_from(a, b, i) <==> (is_prefix(a, b) || exists|j: int| i <= j && #[trigger] smaller_at(a, b, j)),
        lex_le_from(a, b, i) && lex_le_from(b, a, i) ==> a == b,
    decreases a.len() - i,
{
    if i == a.len() {
        assert(b.take(a.len() as int) == a.take(i));
        assert(a.take(i) =~= a);
        if lex_le_from(b, a, i) {
            if i < b.len() {
            } else {
                assert(a =~= b.take(i));
                assert(b.take(i) =~= b);
            }
        }
    } else if i == b.len() {
        assert(!is_prefix(a, b));
        assert forall|j: int| i <= j implies !#[trigger] smaller_at(a, b, j) by {}
    } else if (a[i] as u32) != (b[i] as u32) {
        if (a[i] as u32) < (b[i] as u32) {
            assert(smaller_at(a, b, i));
        } else {
            assert(!is_prefix(a, b)) by {
                if is_prefix(a, b) {
                    assert(b.take(a.len() as int)[i] == b[i]);
                }
            }
            assert forall|j: int| i <= j implies !#[trigger] smaller_at(a, b, j) by {
                if smaller_at(a, b, j) && j > i {
                    assert(a.take(j)[i] == b.take(j)[i]);
                }
            }
        }
    } else {
        lemma_code_point_injective(a[i], b[i]);
        assert(a.take(i + 1) =~= b.take(i + 1));
        lemma_lex_from_characterized(a, b, i + 1);
        if smaller_at(a, b, i) {
        }
        assert((exists|j: int| i <= j && #[trigger] smaller_at(a, b, j)) == (exists|j: int|
            i + 1 <= j && #[trigger] smaller_at(a, b, j)));
    }
}

/// `lex_le` is the lexicographic order of code points, as `String`'s order compares:
/// `a` comes first when it is a prefix of `b` or, at the first position where they
/// differ, has the smaller character.
pub proof fn law_lex_le_is_code_point_order(a: Seq<char>, b: Seq<char>)
    ensures
        lex_le(a, b) <==> (is_prefix(a, b) || exists|j: int| #[trigger] smaller_at(a, b, j)),
{
    assert(a.take(0) =~= b.take(0));
    lemma_lex_from_characterized(a, b, 0);
    assert forall|j: int| smaller_at(a, b, j) implies 0 <= j by {}
}

/// The order is antisymmetric: two texts each at most the other are equal, so sorting
/// leaves no two different versions in an arbitrary order.
pub proof fn law_lex_le_antisymmetric(a: Seq<char>, b: Seq<char>)
    requires
        lex_le(a, b),
        lex_le(b, a),
    ensures
        a == b,
{
    assert(a.take(0) =~= b.take(0));
    lemma_lex_from_characterized(a, b, 0);
}

/// Compares two texts.
fn lex_le_exec(a: &Vec<char>, b: &Vec<char>) -> (r: bool)
    ensures
        r == lex_le(a@, b@),
{
    let mut i: usize = 0;
    while i < a.len() && i < b.len() && (a[i] as u32) == (b[i] as u32)
        invariant
            0 <= i <= a.len(),
            i <= b.len(),
            lex_le_from(a@, b@, 0) == lex_le_from(a@, b@, i as int),
        decreases a.len() - i,
    {
        i = i + 1;
    }
    if i == a.len() {
        true
    } else if i == b.len() {
        false
    } else {
        (a[i] as u32) < (b[i] as u32)
    }
}

/// Inserting an element into a sequence adds it to the multiset.
proof fn lemma_insert_multiset(s: Seq<Seq<char>>, p: int, x: Seq<char>)
    requires
        0 <= p <= s.len(),
    ensures
        s.insert(p, x).to_multiset() == s.to_multiset().insert(x),
{
    broadcast use vstd::seq_lib::group_to_multiset_ensures;
    broadcast use vstd::multiset::group_multiset_axioms;

    let t = s.insert(p, x);
    assert(t.remove(p) =~= s);
    assert(t[p] == x);
    assert(t.to_multiset().remove(x) == s.to_multiset());
    assert(t.contains(x));
    assert(t.to_multiset().count(x) > 0);
    assert(t.to_multiset() =~= s.to_multiset().insert(x));
}

/// The version names in lexicographic order, as `sort` orders strings.
pub fn sort_versions(versions: &Vec<String>) -> (r: Vec<String>)
    ensures
        lex_sorted(strings_view(r@)),
        forall|i: int, j: int|
            0 <= i < j < r.len() ==> is_prefix(#[trigger] r@[i]@, #[trigger] r@[j]@) || exists|k: int|
                smaller_at(r@[i]@, r@[j]@, k),
        strings_view(r@).to_multiset() == strings_view(versions@).to_multiset(),
{
    broadcast use vstd::seq_lib::group_to_multiset_ensures;

    let mut out: Vec<String> = Vec::new();
    let mut keys: Vec<Vec<char>> = Vec::new();
    let mut i: usize = 0;
    assert(strings_view(versions@).take(0) =~= Seq::<Seq<char>>::empty());
    assert(strings_view(out@) =~= Seq::<Seq<char>>::empty());
    while i < versions.len()
        invariant
            0 <= i <= versions.len(),
            keys.len() == out.len(),
            forall|k: int| 0 <= k < out.len() ==> (#[trigger] keys@[k])@ == out@[k]@,
            lex_sorted(strings_view(out@)),
            strings_view(out@).to_multiset() == strings_view(versions@).take(
                i as int,
            ).to_multiset(),
        decreases versions.len() - i,
    {
        let x = versions[i].clone();
        let xk = to_chars(x.as_str());
        let ghost sv = strings_view(out@);
        let mut j: usize = 0;
        while j < out.len() && lex_le_exec(&keys[j], &xk)
            invariant
                0 <= j <= out.len(),
                keys.len() == out.len(),
                forall|k: int| 0 <= k < out.len() ==> (#[trigger] keys@[k])@ == out@[k]@,
                sv == strings_view(out@),
                xk@ == x@,
                forall|k: int| 0 <= k < j ==> lex_le(#[trigger] sv[k], x@),
            decreases out.len() - j,
        {
            assert(keys@[j as int]@ == sv[j as int]);
            j = j + 1;
        }
        proof {
            if j < out.len() {
                assert(keys@[j as int]@ == sv[j as int]);
                assert(!lex_le(sv[j as int], x@));
                lemma_lex_total(sv[j as int], x@, 0);
            }
        }
        let ghost keys0 = keys@;
        let ghost out0 = out@;
        out.insert(j, x);
        keys.insert(j, xk);
        proof {
            let nv = strings_view(out@);
            assert(nv =~= sv.insert(j as int, x@));
            assert forall|a: int, b: int| 0 <= a < b < nv.len() implies lex_le(
                #[trigger] nv[a],
                #[trigger] nv[b],
            ) by {
                if b < j {
                    assert(nv[a] == sv[a] && nv[b] == sv[b]);
                } else if b == j {
                    assert(nv[a] == sv[a]);
                } else if a < j {
                    assert(nv[a] == sv[a] && nv[b] == sv[b - 1]);
                    assert(lex_le(sv[a], sv[b - 1]));
                } else if a == j {
                    assert(nv[b] == sv[b - 1]);
                    if j < b - 1 {
                        assert(lex_le(sv[j as int], sv[b - 1]));
                        lemma_lex_trans(x@, sv[j as int], sv[b - 1], 0);
                    }
                } else {
                    assert(nv[a] == sv[a - 1] && nv[b] == sv[b - 1]);
                }
            }
            lemma_insert_multiset(sv, j as int, x@);
            let pre = strings_view(versions@).take(i as int);
            assert(strings_view(versions@)[i as int] == x@);
            assert(strings_view(versions@).take(i + 1) =~= pre.push(x@));
            vstd::seq_lib::to_multiset_build(pre, x@);
            assert(nv.to_multiset() == sv.to_multiset().insert(x@));
            assert(sv.to_multiset() == pre.to_multiset());
            assert(nv.to_multiset() == pre.push(x@).to_multiset());
            assert forall|k: int| 0 <= k < out.len() implies (#[trigger] keys@[k])@ == out@[k]@ by {
                if k > j {
                    assert(keys@[k] == keys0[k - 1]);
                    assert(out@[k] == out0[k - 1]);
                } else if k < j {
                    assert(keys@[k] == keys0[k]);
                    assert(out@[k] == out0[k]);
                }
            }
        }
        i = i + 1;
    }
    assert(strings_view(versions@).take(versions.len() as int) =~= strings_view(versions@));
    assert forall|i: int, j: int| 0 <= i < j < out.len() implies is_prefix(
        #[trigger] out@[i]@,
        #[trigger] out@[j]@,
    ) || exists|k: int| smaller_at(out@[i]@, out@[j]@, k) by {
        assert(lex_le(strings_view(out@)[i], strings_view(out@)[j]));
        law_lex_le_is_code_point_order(out@[i]@, out@[j]@);
    }
    out
}

} // verus!
