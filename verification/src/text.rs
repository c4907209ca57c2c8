//! Character-level text utilities: whitespace, trimming, line splitting,
//! decimal rendering and conversions between `str`, `String` and `Vec<char>`.
use vstd::prelude::*;

verus! {

/// Unicode `White_Space` characters, the set `char::is_whitespace` recognizes.
pub open spec fn is_white(c: char) -> bool {
    let u = c as u32;
    ||| 0x09 <= u <= 0x0d
    ||| u == 0x20
    ||| u == 0x85
    ||| u == 0xa0
    ||| u == 0x1680
    ||| 0x2000 <= u <= 0x200a
    ||| u == 0x2028
    ||| u == 0x2029
    ||| u == 0x202f
    ||| u == 0x205f
    ||| u == 0x3000
}

/// `s` without its leading whitespace.
pub open spec fn trim_start(s: Seq<char>) -> Seq<char>
    decreases s.len(),
{
    if s.len() > 0 && is_white(s[0]) {
        trim_start(s.drop_first())
    } else {
        s
    }
}

/// `s` without its trailing whitespace.
pub open spec fn trim_end(s: Seq<char>) -> Seq<char>
    decreases s.len(),
{
    if s.len() > 0 && is_white(s.last()) {
        trim_end(s.drop_last())
    } else {
        s
    }
}

/// `s` without leading and trailing whitespace, as `str::trim` gives it.
pub open spec fn trim(s: Seq<char>) -> Seq<char> {
    trim_end(trim_start(s))
}

/// The pieces of `s` between newline characters (one more piece than there are newlines).
pub open spec fn pieces(s: Seq<char>) -> Seq<Seq<char>>
    decreases s.len(),
{
    if s.len() == 0 {
        seq![Seq::<char>::empty()]
    } else {
        let p = pieces(s.drop_last());
        if s.last() == '\n' {
            p.push(Seq::<char>::empty())
        } else {
            p.update(p.len() - 1, p.last().push(s.last()))
        }
    }
}

/// The lines of `s` as `str::lines` yields them before trimming: the pieces between
/// newlines, where a final empty piece (after a last newline, or of an empty text) is no line.
pub open spec fn lines(s: Seq<char>) -> Seq<Seq<char>> {
    let p = pieces(s);
    if p.last().len() == 0 {
        p.drop_last()
    } else {
        p
    }
}

/// The character of a decimal digit.
pub open spec fn digit_char(d: nat) -> char {
    if d == 0 {
        '0'
    } else if d == 1 {
        '1'
    } else if d == 2 {
        '2'
    } else if d == 3 {
        '3'
    } else if d == 4 {
        '4'
    } else if d == 5 {
        '5'
    } else if d == 6 {
        '6'
    } else if d == 7 {
        '7'
    } else if d == 8 {
        '8'
    } else {
        '9'
    }
}

/// The decimal notation of `n`, without leading zeros.
pub open spec fn decimal(n: nat) -> Seq<char>
    decreases n,
{
    if n < 10 {
        seq![digit_char(n)]
    } else {
        decimal(n / 10).push(digit_char(n % 10))
    }
}

/// Appends one character to a `String`.
#[verifier::external_body]
pub(crate) fn push_char(s: &mut String, c: char)
    ensures
        final(s)@ == old(s)@.push(c),
{
    s.push(c);
}

/// The characters of `s`.
pub fn to_chars(s: &str) -> (v: Vec<char>)
    ensures
        v@ == s@,
{
    let mut v: Vec<char> = Vec::new();
    for c in it: s.chars()
        invariant
            it.seq() == s@,
            v@ == it.seq().take(it.index() as int),
    {
        v.push(c);
    }
    v
}

/// The characters `v[lo..hi]` as a `String`.
pub fn string_of(v: &Vec<char>, lo: usize, hi: usize) -> (s: String)
    requires
        lo <= hi <= v.len(),
    ensures
        s@ == v@.subrange(lo as int, hi as int),
{
    let mut s = String::new();
    let mut i = lo;
    while i < hi
        invariant
            lo <= i <= hi <= v.len(),
            s@ == v@.subrange(lo as int, i as int),
        decreases hi - i,
    {
        push_char(&mut s, v[i]);
        i = i + 1;
        assert(s@ =~= v@.subrange(lo as int, i as int));
    }
    s
}

/// Whether the characters `v[lo..hi]` are exactly `w`.
pub fn range_equals(v: &Vec<char>, lo: usize, hi: usize, w: &Vec<char>) -> (b: bool)
    requires
        lo <= hi <= v.len(),
    ensures
        b == (v@.subrange(lo as int, hi as int) == w@),
{
    if hi - lo != w.len() {
        proof {
            assert(v@.subrange(lo as int, hi as int).len() != w@.len());
        }
        return false;
    }
    let mut i: usize = 0;
    while i < w.len()
        invariant
            lo <= hi <= v.len(),
            hi - lo == w.len(),
            0 <= i <= w.len(),
            forall|j: int| 0 <= j < i ==> v@[lo + j] == w@[j],
        decreases w.len() - i,
    {
        if v[lo + i] != w[i] {
            proof {
                assert(v@.subrange(lo as int, hi as int)[i as int] != w@[i as int]);
            }
            return false;
        }
        i = i + 1;
    }
    assert(v@.subrange(lo as int, hi as int) =~= w@);
    true
}

/// Whether `c` is whitespace.
pub fn is_whitespace(c: char) -> (b: bool)
    ensures
        b == is_white(c),
{
    let u = c as u32;
    (0x09 <= u && u <= 0x0d) || u == 0x20 || u == 0x85 || u == 0xa0 || u == 0x1680 || (0x2000
        <= u && u <= 0x200a) || u == 0x2028 || u == 0x2029 || u == 0x202f || u == 0x205f || u
        == 0x3000
}

/// Skipping a prefix of whitespace characters does not change `trim_start`'s result.
pub proof fn lemma_trim_start_skip(s: Seq<char>, k: int)
    requires
        0 <= k <= s.len(),
        forall|j: int| 0 <= j < k ==> is_white(#[trigger] s[j]),
    ensures
        trim_start(s) == trim_start(s.skip(k)),
    decreases k,
{
    if k > 0 {
        assert(s.drop_first().skip(k - 1) =~= s.skip(k));
        lemma_trim_start_skip(s.drop_first(), k - 1);
    } else {
        assert(s.skip(0) =~= s);
    }
}

/// Dropping a suffix of whitespace characters does not change `trim_end`'s result.
pub proof fn lemma_trim_end_take(s: Seq<char>, k: int)
    requires
        0 <= k <= s.len(),
        forall|j: int| k <= j < s.len() ==> is_white(#[trigger] s[j]),
    ensures
        trim_end(s) == trim_end(s.take(k)),
    decreases s.len() - k,
{
    if k < s.len() {
        assert(s.drop_last().take(k) =~= s.take(k));
        lemma_trim_end_take(s.drop_last(), k);
    } else {
        assert(s.take(k) =~= s);
    }
}

/// The bounds of `v[lo..hi]` with its surrounding whitespace removed.
pub fn trim_range(v: &Vec<char>, lo: usize, hi: usize) -> (r: (usize, usize))
    requires
        lo <= hi <= v.len(),
    ensures
        lo <= r.0 <= r.1 <= hi,
        v@.subrange(r.0 as int, r.1 as int) == trim(v@.subrange(lo as int, hi as int)),
{
    let ghost s = v@.subrange(lo as int, hi as int);
    let mut a = lo;
    while a < hi && is_whitespace(v[a])
        invariant
            lo <= a <= hi <= v.len(),
            forall|j: int| lo <= j < a ==> is_white(#[trigger] v@[j]),
        decreases hi - a,
    {
        a = a + 1;
    }
    proof {
        assert forall|j: int| 0 <= j < a - lo implies is_white(#[trigger] s[j]) by {
            assert(s[j] == v@[lo + j]);
        }
        lemma_trim_start_skip(s, a - lo);
        assert(s.skip(a - lo) =~= v@.subrange(a as int, hi as int));
        let t = v@.subrange(a as int, hi as int);
        if t.len() > 0 {
            assert(t[0] == v@[a as int]);
        }
        assert(trim_start(t) == t);
    }
    let mut b = hi;
    while b > a && is_whitespace(v[b - 1])
        invariant
            lo <= a <= b <= hi <= v.len(),
            forall|j: int| b <= j < hi ==> is_white(#[trigger] v@[j]),
        decreases b - a,
    {
        b = b - 1;
    }
    proof {
        let t = v@.subrange(a as int, hi as int);
        assert forall|j: int| b - a <= j < t.len() implies is_white(#[trigger] t[j]) by {
            assert(t[j] == v@[a + j]);
        }
        lemma_trim_end_take(t, b - a);
        let u = v@.subrange(a as int, b as int);
        assert(t.take(b - a) =~= u);
        if u.len() > 0 {
            assert(u.last() == v@[b - 1]);
        }
        assert(trim_end(u) == u);
    }
    (a, b)
}

/// The bounds of the lines of `v`, in order.
pub fn split_lines(v: &Vec<char>) -> (r: Vec<(usize, usize)>)
    ensures
        r.len() == lines(v@).len(),
        forall|k: int| 0 <= k < r.len() ==> (#[trigger] r[k]).0 <= r[k].1 <= v.len(),
        forall|k: int|
            0 <= k < r.len() ==> #[trigger] v@.subrange(r[k].0 as int, r[k].1 as int) == lines(
                v@,
            )[k],
{
    let mut r: Vec<(usize, usize)> = Vec::new();
    let mut start: usize = 0;
    let mut i: usize = 0;
    assert(v@.take(0) =~= Seq::<char>::empty());
    assert(v@.subrange(0, 0) =~= Seq::<char>::empty());
    while i < v.len()
        invariant
            0 <= start <= i <= v.len(),
            pieces(v@.take(i as int)).len() == r.len() + 1,
            pieces(v@.take(i as int)).last() == v@.subrange(start as int, i as int),
            forall|k: int| 0 <= k < r.len() ==> (#[trigger] r[k]).0 <= r[k].1 <= i,
            forall|k: int|
                0 <= k < r.len() ==> #[trigger] v@.subrange(r[k].0 as int, r[k].1 as int)
                    == pieces(v@.take(i as int))[k],
        decreases v.len() - i,
    {
        let ghost before = pieces(v@.take(i as int));
        assert(v@.take(i + 1).drop_last() =~= v@.take(i as int));
        assert(v@.take(i + 1).last() == v@[i as int]);
        let ghost old_r = r@;
        let ghost old_start = start;
        if v[i] == '\n' {
            r.push((start, i));
            start = i + 1;
            assert(v@.subrange(start as int, (i + 1) as int) =~= Seq::<char>::empty());
        } else {
            assert(v@.subrange(start as int, (i + 1) as int) =~= v@.subrange(
                start as int,
                i as int,
            ).push(v@[i as int]));
        }
        let ghost after = pieces(v@.take(i + 1));
        if v[i] == '\n' {
            assert(after == before.push(Seq::<char>::empty()));
        } else {
            assert(after == before.update(before.len() - 1, before.last().push(v@[i as int])));
        }
        assert forall|k: int| 0 <= k < r.len() implies #[trigger] v@.subrange(
            r[k].0 as int,
            r[k].1 as int,
        ) == pieces(v@.take(i + 1))[k] by {
            if k < old_r.len() {
                assert(r[k] == old_r[k]);
                assert(after[k] == before[k]);
                assert(v@.subrange(old_r[k].0 as int, old_r[k].1 as int) == before[k]);
            } else {
                assert(r[k] == (old_start, i));
                assert(after[k] == before.last());
            }
        }
        i = i + 1;
    }
    assert(v@.take(v.len() as int) =~= v@);
    let ghost p = pieces(v@);
    let ghost old_r = r@;
    assert(p == pieces(v@.take(v.len() as int)));
    if start < v.len() {
        r.push((start, v.len()));
        assert(lines(v@) == p);
        assert forall|k: int| 0 <= k < r.len() implies #[trigger] v@.subrange(
            r[k].0 as int,
            r[k].1 as int,
        ) == lines(v@)[k] by {
            if k < old_r.len() {
                assert(r[k] == old_r[k]);
                assert(v@.subrange(old_r[k].0 as int, old_r[k].1 as int) == p[k]);
            }
        }
    } else {
        assert(p.last() =~= Seq::<char>::empty());
        assert(lines(v@) == p.drop_last());
        assert forall|k: int| 0 <= k < r.len() implies #[trigger] v@.subrange(
            r[k].0 as int,
            r[k].1 as int,
        ) == lines(v@)[k] by {
            assert(v@.subrange(r[k].0 as int, r[k].1 as int) == p[k]);
        }
    }
    r
}

/// The character of the decimal digit `d`.
fn digit(d: usize) -> (c: char)
    requires
        d < 10,
    ensures
        c == digit_char(d as nat),
{
    if d == 0 {
        '0'
    } else if d == 1 {
        '1'
    } else if d == 2 {
        '2'
    } else if d == 3 {
        '3'
    } else if d == 4 {
        '4'
    } else if d == 5 {
        '5'
    } else if d == 6 {
        '6'
    } else if d == 7 {
        '7'
    } else if d == 8 {
        '8'
    } else {
        '9'
    }
}

/// Appends the decimal notation of `n` to `s`.
pub fn push_decimal(s: &mut String, n: usize)
    ensures
        final(s)@ == old(s)@ + decimal(n as nat),
    decreases n,
{
    if n >= 10 {
        push_decimal(s, n / 10);
    }
    push_char(s, digit(n % 10));
}

/// The position of the first `c` in `v[lo..hi]`, as `str::find` gives it.
pub fn find_char(v: &Vec<char>, lo: usize, hi: usize, c: char) -> (r: Option<usize>)
    requires
        lo <= hi <= v.len(),
    ensures
        match r {
            Some(e) => lo <= e < hi && v@.subrange(lo as int, hi as int).index_of_first(c)
                == Some(e - lo),
            None => v@.subrange(lo as int, hi as int).index_of_first(c) is None,
        },
{
    let ghost t = v@.subrange(lo as int, hi as int);
    proof {
        t.index_of_first_ensures(c);
    }
    let mut i = lo;
    while i < hi
        invariant
            lo <= i <= hi <= v.len(),
            t == v@.subrange(lo as int, hi as int),
            forall|j: int| lo <= j < i ==> v@[j] != c,
        decreases hi - i,
    {
        if v[i] == c {
            proof {
                t.index_of_first_ensures(c);
                assert(t[i - lo] == c);
                assert(t.contains(c));
                let k = t.index_of_first(c).unwrap();
                if k < i - lo {
                    assert(t[k] == v@[lo + k]);
                }
                if k > i - lo {
                    assert(t[i - lo] == c);
                }
            }
            return Some(i);
        }
        i = i + 1;
    }
    proof {
        t.index_of_first_ensures(c);
        if t.contains(c) {
            let k = choose|k: int| 0 <= k < t.len() && t[k] == c;
            assert(t[k] == v@[lo + k]);
        }
    }
    None
}

/// `s` holds no newline.
pub open spec fn no_newline(s: Seq<char>) -> bool {
    forall|i: int| 0 <= i < s.len() ==> s[i] != '\n'
}

/// The text made of the given lines, each followed by a newline.
pub open spec fn join_lines(ls: Seq<Seq<char>>) -> Seq<char>
    decreases ls.len(),
{
    if ls.len() == 0 {
        Seq::empty()
    } else {
        join_lines(ls.drop_last()) + ls.last() + seq!['\n']
    }
}

/// Text without newlines extends the last piece.
pub proof fn lemma_pieces_append(s: Seq<char>, w: Seq<char>)
    requires
        no_newline(w),
    ensures
        pieces(s + w) == pieces(s).update(pieces(s).len() - 1, pieces(s).last() + w),
        pieces(s).len() >= 1,
    decreases w.len(),
{
    lemma_pieces_nonempty(s);
    if w.len() == 0 {
        assert(s + w =~= s);
        assert(pieces(s).last() + w =~= pieces(s).last());
        assert(pieces(s).update(pieces(s).len() - 1, pieces(s).last()) =~= pieces(s));
    } else {
        let w0 = w.drop_last();
        lemma_pieces_append(s, w0);
        assert((s + w).drop_last() =~= s + w0);
        assert((s + w).last() == w.last());
        assert(pieces(s).last() + w0 + seq![w.last()] =~= pieces(s).last() + w);
        assert(pieces(s + w0).last() == pieces(s).last() + w0);
        assert(pieces(s + w0).last().push(w.last()) =~= pieces(s).last() + w);
        assert(pieces(s + w) =~= pieces(s).update(pieces(s).len() - 1, pieces(s).last() + w));
    }
}

/// There is always at least one piece.
pub proof fn lemma_pieces_nonempty(s: Seq<char>)
    ensures
        pieces(s).len() >= 1,
    decreases s.len(),
{
    if s.len() > 0 {
        lemma_pieces_nonempty(s.drop_last());
    }
}

/// Joined lines split back into the same lines.
pub proof fn lemma_lines_of_join(ls: Seq<Seq<char>>)
    requires
        forall|i: int| 0 <= i < ls.len() ==> no_newline(#[trigger] ls[i]),
    ensures
        pieces(join_lines(ls)) == ls.push(Seq::<char>::empty()),
        lines(join_lines(ls)) == ls,
    decreases ls.len(),
{
    if ls.len() == 0 {
        assert(pieces(Seq::<char>::empty()) =~= seq![Seq::<char>::empty()]);
        assert(ls.push(Seq::<char>::empty()) =~= seq![Seq::<char>::empty()]);
    } else {
        let rest = ls.drop_last();
        assert forall|i: int| 0 <= i < rest.len() implies no_newline(#[trigger] rest[i]) by {
            assert(rest[i] == ls[i]);
        }
        lemma_lines_of_join(rest);
        let a = join_lines(rest);
        assert(no_newline(ls.last()));
        lemma_pieces_append(a, ls.last());
        let b = a + ls.last();
        let t = b + seq!['\n'];
        assert(join_lines(ls) == t);
        assert(t.drop_last() =~= b);
        assert(t.last() == '\n');
        assert(Seq::<char>::empty() + ls.last() =~= ls.last());
        assert(pieces(b) =~= rest.push(ls.last()));
        assert(pieces(t) =~= ls.push(Seq::<char>::empty()));
        assert(pieces(t).drop_last() =~= ls);
    }
}

/// Joining lines distributes over concatenation.
pub proof fn lemma_join_add(a: Seq<Seq<char>>, b: Seq<Seq<char>>)
    ensures
        join_lines(a + b) == join_lines(a) + join_lines(b),
    decreases b.len(),
{
    if b.len() == 0 {
        assert(a + b =~= a);
        assert(join_lines(a) + join_lines(b) =~= join_lines(a));
    } else {
        lemma_join_add(a, b.drop_last());
        assert((a + b).drop_last() =~= a + b.drop_last());
        assert((a + b).last() == b.last());
        assert(join_lines(a + b) =~= join_lines(a) + join_lines(b));
    }
}

/// Trimming never lengthens.
pub proof fn lemma_trim_shortens(s: Seq<char>)
    ensures
        trim_start(s).len() <= s.len(),
        trim_end(s).len() <= s.len(),
        s.len() > 0 && is_white(s[0]) ==> trim_start(s).len() < s.len(),
        s.len() > 0 && is_white(s.last()) ==> trim_end(s).len() < s.len(),
    decreases s.len(),
{
    if s.len() > 0 {
        lemma_trim_shortens(s.drop_first());
        lemma_trim_shortens(s.drop_last());
    }
}

/// A text equal to its trim starts and ends with non-whitespace.
pub proof fn lemma_trimmed_edges(s: Seq<char>)
    requires
        trim(s) == s,
        s.len() > 0,
    ensures
        !is_white(s[0]),
        !is_white(s.last()),
{
    lemma_trim_shortens(s);
    lemma_trim_shortens(trim_start(s));
    if !is_white(s[0]) {
        assert(trim_start(s) == s);
    }
}

/// Text that starts and ends with non-whitespace is its own trim.
pub proof fn lemma_trim_unchanged(s: Seq<char>)
    requires
        s.len() > 0 ==> !is_white(s[0]) && !is_white(s.last()),
    ensures
        trim(s) == s,
{
}

/// The number of leading whitespace characters `trim_start` removes.
proof fn lemma_trim_start_bound(s: Seq<char>) -> (lo: int)
    ensures
        0 <= lo <= s.len(),
        trim_start(s) == s.skip(lo),
        forall|j: int| 0 <= j < lo ==> is_white(#[trigger] s[j]),
        lo < s.len() ==> !is_white(s[lo]),
    decreases s.len(),
{
    if s.len() > 0 && is_white(s[0]) {
        let r = lemma_trim_start_bound(s.drop_first());
        assert(s.drop_first().skip(r) =~= s.skip(r + 1));
        assert forall|j: int| 0 <= j < r + 1 implies is_white(#[trigger] s[j]) by {
            if j > 0 {
                assert(s[j] == s.drop_first()[j - 1]);
            }
        }
        r + 1
    } else {
        assert(s.skip(0) =~= s);
        0
    }
}

/// The length `trim_end` keeps.
proof fn lemma_trim_end_bound(s: Seq<char>) -> (hi: int)
    ensures
        0 <= hi <= s.len(),
        trim_end(s) == s.take(hi),
        forall|j: int| hi <= j < s.len() ==> is_white(#[trigger] s[j]),
        hi > 0 ==> !is_white(s[hi - 1]),
    decreases s.len(),
{
    if s.len() > 0 && is_white(s.last()) {
        let r = lemma_trim_end_bound(s.drop_last());
        assert(s.drop_last().take(r) =~= s.take(r));
        assert forall|j: int| r <= j < s.len() implies is_white(#[trigger] s[j]) by {
            if j < s.len() - 1 {
                assert(s[j] == s.drop_last()[j]);
            }
        }
        r
    } else {
        assert(s.take(s.len() as int) =~= s);
        s.len() as int
    }
}

/// Trimming keeps the stretch of `s` between its leading and its trailing whitespace:
/// everything cut off is whitespace, and what is kept starts and ends with a
/// character that is not.
pub proof fn law_trim_cuts_only_edge_whitespace(s: Seq<char>)
    ensures
        exists|lo: int, hi: int|
            {
                &&& 0 <= lo <= hi <= s.len()
                &&& trim(s) == s.subrange(lo, hi)
                &&& forall|j: int| 0 <= j < lo ==> is_white(#[trigger] s[j])
                &&& forall|j: int| hi <= j < s.len() ==> is_white(#[trigger] s[j])
                &&& lo < hi ==> !is_white(s[lo]) && !is_white(s[hi - 1])
            },
{
    let lo = lemma_trim_start_bound(s);
    let t = s.skip(lo);
    let h = lemma_trim_end_bound(t);
    let hi = lo + h;
    assert(t.take(h) =~= s.subrange(lo, hi));
    assert forall|j: int| hi <= j < s.len() implies is_white(#[trigger] s[j]) by {
        assert(t[j - lo] == s[j]);
    }
    if lo < hi {
        assert(t[0] == s[lo]);
        assert(t[h - 1] == s[hi - 1]);
    }
    assert({
        &&& 0 <= lo <= hi <= s.len()
        &&& trim(s) == s.subrange(lo, hi)
        &&& forall|j: int| 0 <= j < lo ==> is_white(#[trigger] s[j])
        &&& forall|j: int| hi <= j < s.len() ==> is_white(#[trigger] s[j])
        &&& lo < hi ==> !is_white(s[lo]) && !is_white(s[hi - 1])
    });
}

} // verus!
