//! Character-sequence utilities: trimming, searching, splitting and joining,
//! together with the specification functions that describe them.
//!
//! All extraction and codec logic in this crate works over `Vec<char>` values
//! whose mathematical model is `Seq<char>`.

use vstd::prelude::*;
use vstd::string::StrSliceExecFns;

verus! {

/// The glyph that encodes one rating point in page markup.
pub const STAR: char = '\u{2b50}';

/// Characters treated as blank when text is trimmed.
pub open spec fn is_space(c: char) -> bool {
    c == ' ' || c == '\t' || c == '\r' || c == '\n' || c == '\u{b}' || c == '\u{c}'
}

/// Executable counterpart of [`is_space`].
pub fn space(c: char) -> (r: bool)
    ensures
        r == is_space(c),
{
    c == ' ' || c == '\t' || c == '\r' || c == '\n' || c == '\u{b}' || c == '\u{c}'
}

/// The sequence with blank characters removed from the front.
pub open spec fn trim_front(s: Seq<char>) -> Seq<char>
    decreases s.len(),
{
    if s.len() > 0 && is_space(s[0]) {
        trim_front(s.drop_first())
    } else {
        s
    }
}

/// The sequence with blank characters removed from the back.
pub open spec fn trim_back(s: Seq<char>) -> Seq<char>
    decreases s.len(),
{
    if s.len() > 0 && is_space(s.last()) {
        trim_back(s.drop_last())
    } else {
        s
    }
}

/// The sequence with blank characters removed from both ends.
pub open spec fn trim_spec(s: Seq<char>) -> Seq<char> {
    trim_back(trim_front(s))
}

/// A trimmed sequence neither starts nor ends with a blank character.
pub open spec fn is_trimmed(s: Seq<char>) -> bool {
    s.len() > 0 ==> !is_space(s[0]) && !is_space(s.last())
}

proof fn lemma_trim_front_skip(s: Seq<char>, a: int)
    requires
        0 <= a <= s.len(),
        forall|k: int| 0 <= k < a ==> is_space(s[k]),
        a == s.len() || !is_space(s[a]),
    ensures
        trim_front(s) == s.skip(a),
    decreases a,
{
    if a == 0 {
        assert(s.skip(0) =~= s);
    } else {
        let t = s.drop_first();
        assert(forall|k: int| 0 <= k < a - 1 ==> is_space(#[trigger] t[k]));
        lemma_trim_front_skip(t, a - 1);
        assert(t.skip(a - 1) =~= s.skip(a));
    }
}

proof fn lemma_trim_back_take(s: Seq<char>, b: int)
    requires
        0 <= b <= s.len(),
        forall|k: int| b <= k < s.len() ==> is_space(s[k]),
        b == 0 || !is_space(s[b - 1]),
    ensures
        trim_back(s) == s.take(b),
    decreases s.len() - b,
{
    if b == s.len() {
        assert(s.take(b) =~= s);
    } else {
        let t = s.drop_last();
        assert(is_space(s.last()));
        assert(forall|k: int| b <= k < t.len() ==> is_space(#[trigger] t[k]));
        lemma_trim_back_take(t, b);
        assert(t.take(b) =~= s.take(b));
    }
}

/// Characterizes the trimmed range of a sequence: if everything before `a`
/// and from `b` on is blank, and the edges at `a` and `b - 1` are not,
/// trimming yields exactly the range `a .. b`.
pub proof fn lemma_trim_range(s: Seq<char>, a: int, b: int)
    requires
        0 <= a <= b <= s.len(),
        forall|k: int| 0 <= k < a ==> is_space(s[k]),
        forall|k: int| b <= k < s.len() ==> is_space(s[k]),
        a < b ==> !is_space(s[a]) && !is_space(s[b - 1]),
    ensures
        trim_spec(s) == s.subrange(a, b),
    decreases s.len(),
{
    if a == b {
        lemma_trim_front_skip(s, s.len() as int);
        assert(s.skip(s.len() as int) =~= Seq::<char>::empty());
        assert(trim_back(Seq::<char>::empty()) =~= Seq::<char>::empty());
        assert(s.subrange(a, b) =~= Seq::<char>::empty());
    } else {
        lemma_trim_front_skip(s, a);
        let u = s.skip(a);
        assert(forall|k: int| b - a <= k < u.len() ==> is_space(#[trigger] u[k]));
        assert(!is_space(u[b - a - 1]));
        lemma_trim_back_take(u, b - a);
        assert(u.take(b - a) =~= s.subrange(a, b));
    }
}

/// Every character of the trimmed sequence occurs in the untrimmed one.
pub proof fn lemma_trim_spec_contains(s: Seq<char>)
    ensures
        forall|k: int| 0 <= k < trim_spec(s).len() ==> s.contains(#[trigger] trim_spec(s)[k]),
{
    lemma_trim_front_props(s);
    let u = trim_front(s);
    lemma_trim_back_props(u);
    let t = trim_back(u);
    assert forall|k: int| 0 <= k < t.len() implies s.contains(#[trigger] t[k]) by {
        assert(t[k] == u[k]);
        assert(u[k] == s[s.len() - u.len() + k]);
    }
}

/// Trimming is idempotent in the sense that the result is trimmed.
pub proof fn lemma_trim_spec_trimmed(s: Seq<char>)
    ensures
        is_trimmed(trim_spec(s)),
{
    lemma_trim_front_props(s);
    lemma_trim_back_props(trim_front(s));
    let u = trim_front(s);
    let t = trim_back(u);
    if t.len() > 0 {
        assert(t[0] == u[0]);
    }
}

proof fn lemma_trim_front_props(s: Seq<char>)
    ensures
        trim_front(s).len() > 0 ==> !is_space(trim_front(s)[0]),
        trim_front(s).len() <= s.len(),
        forall|k: int|
            0 <= k < trim_front(s).len() ==> trim_front(s)[k] == s[s.len() - trim_front(s).len()
                + k],
    decreases s.len(),
{
    if s.len() > 0 && is_space(s[0]) {
        lemma_trim_front_props(s.drop_first());
    }
}

proof fn lemma_trim_back_props(s: Seq<char>)
    ensures
        trim_back(s).len() > 0 ==> !is_space(trim_back(s).last()),
        trim_back(s).len() <= s.len(),
        forall|k: int| 0 <= k < trim_back(s).len() ==> trim_back(s)[k] == s[k],
    decreases s.len(),
{
    if s.len() > 0 && is_space(s.last()) {
        let t = s.drop_last();
        lemma_trim_back_props(t);
        assert forall|k: int| 0 <= k < trim_back(s).len() implies trim_back(s)[k] == s[k] by {
            assert(trim_back(s)[k] == t[k]);
        }
    }
}

/// Removes blank characters from both ends of `v`.
pub fn trim(v: &Vec<char>) -> (r: Vec<char>)
    ensures
        r@ == trim_spec(v@),
{
    let n = v.len();
    let mut a: usize = 0;
    while a < n && space(v[a])
        invariant
            n == v.len(),
            a <= n,
            forall|k: int| 0 <= k < a ==> is_space(v@[k]),
        decreases n - a,
    {
        a += 1;
    }
    let mut b: usize = n;
    while b > a && space(v[b - 1])
        invariant
            n == v.len(),
            a <= b <= n,
            forall|k: int| b <= k < n ==> is_space(v@[k]),
        decreases b,
    {
        b -= 1;
    }
    let mut r: Vec<char> = Vec::new();
    let mut i: usize = a;
    while i < b
        invariant
            n == v.len(),
            a <= i <= b <= n,
            r@ == v@.subrange(a as int, i as int),
        decreases b - i,
    {
        r.push(v[i]);
        i += 1;
        proof {
            assert(v@.subrange(a as int, i as int) =~= v@.subrange(a as int, i as int - 1).push(
                v@[i - 1],
            ));
        }
    }
    proof {
        lemma_trim_range(v@, a as int, b as int);
    }
    r
}

/// The index of the first occurrence of `c` in `s`, or `s.len()` if there is
/// none.
pub open spec fn find_char(s: Seq<char>, c: char) -> int
    decreases s.len(),
{
    if s.len() == 0 {
        0
    } else if s[0] == c {
        0
    } else {
        1 + find_char(s.drop_first(), c)
    }
}

/// `find_char` returns the index it is characterized by: all earlier
/// characters differ from `c`, and the index either carries `c` or is the
/// length.
pub proof fn lemma_find_char_at(s: Seq<char>, c: char, a: int)
    requires
        0 <= a <= s.len(),
        forall|k: int| 0 <= k < a ==> s[k] != c,
        a == s.len() || s[a] == c,
    ensures
        find_char(s, c) == a,
    decreases a,
{
    if a > 0 {
        let t = s.drop_first();
        assert(forall|k: int| 0 <= k < a - 1 ==> #[trigger] t[k] != c);
        lemma_find_char_at(t, c, a - 1);
    }
}

/// Basic bounds and properties of `find_char`.
pub proof fn lemma_find_char_props(s: Seq<char>, c: char)
    ensures
        0 <= find_char(s, c) <= s.len(),
        find_char(s, c) < s.len() ==> s[find_char(s, c)] == c,
        forall|k: int| 0 <= k < find_char(s, c) ==> s[k] != c,
    decreases s.len(),
{
    if s.len() > 0 && s[0] != c {
        let t = s.drop_first();
        lemma_find_char_props(t, c);
        assert forall|k: int| 0 <= k < find_char(s, c) implies s[k] != c by {
            if k > 0 {
                assert(t[k - 1] != c);
            }
        }
    }
}

/// Finds the first occurrence of `c` in `v`; returns `v.len()` if absent.
pub fn find_char_in(v: &Vec<char>, c: char) -> (r: usize)
    ensures
        r == find_char(v@, c),
        r <= v.len(),
{
    let n = v.len();
    let mut i: usize = 0;
    while i < n && v[i] != c
        invariant
            n == v.len(),
            i <= n,
            forall|k: int| 0 <= k < i ==> v@[k] != c,
        decreases n - i,
    {
        i += 1;
    }
    proof {
        lemma_find_char_at(v@, c, i as int);
    }
    i
}

/// The number of occurrences of `c` in `s`.
pub open spec fn count_char(s: Seq<char>, c: char) -> nat
    decreases s.len(),
{
    if s.len() == 0 {
        0
    } else {
        count_char(s.drop_last(), c) + (if s.last() == c {
            1nat
        } else {
            0
        })
    }
}

/// Counts the occurrences of `c` in `v`.
pub fn count_char_in(v: &Vec<char>, c: char) -> (r: usize)
    ensures
        r == count_char(v@, c),
{
    let n = v.len();
    let mut r: usize = 0;
    let mut i: usize = 0;
    while i < n
        invariant
            n == v.len(),
            i <= n,
            r <= i,
            r == count_char(v@.take(i as int), c),
        decreases n - i,
    {
        proof {
            assert(v@.take(i as int + 1).drop_last() =~= v@.take(i as int));
            assert(v@.take(i as int + 1).last() == v@[i as int]);
        }
        if v[i] == c {
            r += 1;
        }
        i += 1;
    }
    proof {
        assert(v@.take(n as int) =~= v@);
    }
    r
}

/// `p` occurs in `s` at position `i`.
pub open spec fn starts_at(s: Seq<char>, p: Seq<char>, i: int) -> bool {
    0 <= i && i + p.len() <= s.len() && s.subrange(i, i + p.len()) == p
}

/// `p` is a prefix of `s`.
pub open spec fn starts_with(s: Seq<char>, p: Seq<char>) -> bool {
    starts_at(s, p, 0)
}

/// Tests whether the pattern `p` occurs in `v` at position `i`.
pub fn starts_with_at(v: &Vec<char>, p: &str, i: usize) -> (r: bool)
    requires
        i <= v.len(),
    ensures
        r == starts_at(v@, p@, i as int),
{
    let m = p.unicode_len();
    if m > v.len() - i {
        return false;
    }
    let mut j: usize = 0;
    while j < m
        invariant
            i + m <= v.len(),
            m == p@.len(),
            j <= m,
            forall|k: int| 0 <= k < j ==> v@[i + k] == p@[k],
        decreases m - j,
    {
        if v[i + j] != p.get_char(j) {
            proof {
                assert(!starts_at(v@, p@, i as int)) by {
                    if starts_at(v@, p@, i as int) {
                        assert(v@.subrange(i as int, i as int + p@.len())[j as int] == p@[j as int]);
                    }
                }
            }
            return false;
        }
        j += 1;
    }
    proof {
        assert(v@.subrange(i as int, i as int + p@.len()) =~= p@);
    }
    true
}

/// The index of the first occurrence of the pattern `p` in `s`.
pub open spec fn find_sub(s: Seq<char>, p: Seq<char>) -> Option<int>
    decreases s.len(),
{
    if starts_with(s, p) {
        Some(0)
    } else if s.len() == 0 {
        None
    } else {
        match find_sub(s.drop_first(), p) {
            Option::None => Option::None,
            Option::Some(i) => Option::Some(1 + i),
        }
    }
}

proof fn lemma_starts_at_shift(s: Seq<char>, p: Seq<char>, k: int)
    requires
        s.len() > 0,
        0 <= k,
    ensures
        starts_at(s, p, k + 1) == starts_at(s.drop_first(), p, k),
{
    if k + 1 + p.len() <= s.len() {
        assert(s.subrange(k + 1, k + 1 + p.len()) =~= s.drop_first().subrange(k, k + p.len()));
    }
}

/// `find_sub` returns `Some(a)` exactly for the least position where `p`
/// occurs.
pub proof fn lemma_find_sub_some(s: Seq<char>, p: Seq<char>, a: int)
    requires
        starts_at(s, p, a),
        forall|k: int| 0 <= k < a ==> !starts_at(s, p, k),
    ensures
        find_sub(s, p) == Some(a),
    decreases a,
{
    if a == 0 {
    } else {
        assert(!starts_at(s, p, 0));
        let t = s.drop_first();
        lemma_starts_at_shift(s, p, a - 1);
        assert(forall|k: int| 0 <= k < a - 1 ==> !starts_at(t, p, k)) by {
            assert forall|k: int| 0 <= k < a - 1 implies !starts_at(t, p, k) by {
                lemma_starts_at_shift(s, p, k);
            }
        }
        lemma_find_sub_some(t, p, a - 1);
    }
}

/// `find_sub` returns `None` when `p` occurs nowhere in `s`.
pub proof fn lemma_find_sub_none(s: Seq<char>, p: Seq<char>)
    requires
        forall|k: int| !starts_at(s, p, k),
    ensures
        find_sub(s, p) is None,
    decreases s.len(),
{
    assert(!starts_at(s, p, 0));
    if s.len() > 0 {
        let t = s.drop_first();
        assert(forall|k: int| !starts_at(t, p, k)) by {
            assert forall|k: int| !starts_at(t, p, k) by {
                if 0 <= k {
                    lemma_starts_at_shift(s, p, k);
                }
            }
        }
        lemma_find_sub_none(t, p);
    }
}

/// Bounds and properties of `find_sub`.
pub proof fn lemma_find_sub_props(s: Seq<char>, p: Seq<char>)
    ensures
        match find_sub(s, p) {
            Option::Some(i) => starts_at(s, p, i) && forall|k: int| 0 <= k < i ==> !starts_at(s, p, k),
            Option::None => forall|k: int| !starts_at(s, p, k),
        },
    decreases s.len(),
{
    if starts_with(s, p) {
    } else if s.len() == 0 {
        assert forall|k: int| !starts_at(s, p, k) by {
            if 0 <= k && k + p.len() <= s.len() {
                assert(k == 0 && p.len() == 0);
            }
        }
    } else {
        let t = s.drop_first();
        lemma_find_sub_props(t, p);
        match find_sub(t, p) {
            Option::Some(i) => {
                lemma_starts_at_shift(s, p, i);
                assert forall|k: int| 0 <= k < i + 1 implies !starts_at(s, p, k) by {
                    if k > 0 {
                        lemma_starts_at_shift(s, p, k - 1);
                    }
                }
            },
            Option::None => {
                assert forall|k: int| !starts_at(s, p, k) by {
                    if k > 0 {
                        lemma_starts_at_shift(s, p, k - 1);
                    }
                }
            },
        }
    }
}

/// Finds the first occurrence of the pattern `p` in `v`.
pub fn find_sub_in(v: &Vec<char>, p: &str) -> (r: Option<usize>)
    ensures
        match r {
            Option::Some(i) => i <= v.len() && find_sub(v@, p@) == Some(i as int),
            Option::None => find_sub(v@, p@) is None,
        },
{
    let n = v.len();
    let mut i: usize = 0;
    while i < n
        invariant
            n == v.len(),
            i <= n,
            forall|k: int| 0 <= k < i ==> !starts_at(v@, p@, k),
        decreases n - i,
    {
        if starts_with_at(v, p, i) {
            proof {
                lemma_find_sub_some(v@, p@, i as int);
            }
            return Some(i);
        }
        i += 1;
    }
    if starts_with_at(v, p, n) {
        proof {
            lemma_find_sub_some(v@, p@, n as int);
        }
        return Some(n);
    }
    proof {
        assert(forall|k: int| !starts_at(v@, p@, k)) by {
            assert forall|k: int| !starts_at(v@, p@, k) by {
                if 0 <= k <= n {
                    assert(!starts_at(v@, p@, k));
                }
            }
        }
        lemma_find_sub_none(v@, p@);
    }
    None
}

/// The pieces of `s` delimited by `c`; a sequence with no delimiter is one
/// piece, and each delimiter ends a piece.
pub open spec fn split_char(s: Seq<char>, c: char) -> Seq<Seq<char>>
    decreases s.len(),
{
    if s.len() == 0 {
        seq![Seq::<char>::empty()]
    } else {
        let r = split_char(s.drop_last(), c);
        if s.last() == c {
            r.push(Seq::<char>::empty())
        } else {
            r.update(r.len() - 1, r.last().push(s.last()))
        }
    }
}

proof fn lemma_split_char_len(s: Seq<char>, c: char)
    ensures
        split_char(s, c).len() >= 1,
    decreases s.len(),
{
    if s.len() > 0 {
        lemma_split_char_len(s.drop_last(), c);
    }
}

/// The views of a sequence of character vectors.
pub open spec fn seq_views(vs: Seq<Vec<char>>) -> Seq<Seq<char>> {
    Seq::new(vs.len(), |i: int| vs[i]@)
}

/// Splits `v` at every occurrence of `c`.
pub fn split_char_in(v: &Vec<char>, c: char) -> (r: Vec<Vec<char>>)
    ensures
        seq_views(r@) == split_char(v@, c),
{
    let n = v.len();
    let mut pieces: Vec<Vec<char>> = Vec::new();
    let mut cur: Vec<char> = Vec::new();
    let mut i: usize = 0;
    while i < n
        invariant
            n == v.len(),
            i <= n,
            seq_views(pieces@).push(cur@) =~= split_char(v@.take(i as int), c),
        decreases n - i,
    {
        proof {
            assert(v@.take(i as int + 1).drop_last() =~= v@.take(i as int));
            assert(v@.take(i as int + 1).last() == v@[i as int]);
            lemma_split_char_len(v@.take(i as int), c);
        }
        if v[i] == c {
            let ghost old_pieces = pieces@;
            let ghost old_cur = cur@;
            pieces.push(cur);
            cur = Vec::new();
            proof {
                assert(seq_views(pieces@).push(cur@) =~= seq_views(old_pieces).push(old_cur).push(
                    Seq::<char>::empty(),
                ));
            }
        } else {
            let ghost old_cur = cur@;
            cur.push(v[i]);
            proof {
                let full = seq_views(pieces@).push(old_cur);
                assert(seq_views(pieces@).push(cur@) =~= full.update(
                    full.len() - 1,
                    full.last().push(v@[i as int]),
                ));
            }
        }
        i += 1;
    }
    proof {
        assert(v@.take(n as int) =~= v@);
    }
    pieces.push(cur);
    proof {
        assert(seq_views(pieces@) =~= split_char(v@, c));
    }
    pieces
}

/// Trims every piece and keeps the non-empty results, in order.
pub open spec fn clean_pieces(ps: Seq<Seq<char>>) -> Seq<Seq<char>>
    decreases ps.len(),
{
    if ps.len() == 0 {
        Seq::<Seq<char>>::empty()
    } else {
        let r = clean_pieces(ps.drop_last());
        let t = trim_spec(ps.last());
        if t.len() > 0 {
            r.push(t)
        } else {
            r
        }
    }
}

/// The non-empty trimmed lines of `s`.
pub open spec fn clean_lines(s: Seq<char>) -> Seq<Seq<char>> {
    clean_pieces(split_char(s, '\n'))
}

/// Splits `v` into non-empty trimmed lines.
pub fn clean_lines_in(v: &Vec<char>) -> (r: Vec<Vec<char>>)
    ensures
        seq_views(r@) == clean_lines(v@),
{
    let pieces = split_char_in(v, '\n');
    clean_pieces_in(pieces)
}

/// Trims every piece of `ps` and keeps the non-empty results.
pub fn clean_pieces_in(ps: Vec<Vec<char>>) -> (r: Vec<Vec<char>>)
    ensures
        seq_views(r@) == clean_pieces(seq_views(ps@)),
{
    let n = ps.len();
    let mut r: Vec<Vec<char>> = Vec::new();
    let mut i: usize = 0;
    while i < n
        invariant
            n == ps.len(),
            i <= n,
            seq_views(r@) =~= clean_pieces(seq_views(ps@).take(i as int)),
        decreases n - i,
    {
        proof {
            assert(seq_views(ps@).take(i as int + 1).drop_last() =~= seq_views(ps@).take(i as int));
            assert(seq_views(ps@).take(i as int + 1).last() == ps@[i as int]@);
        }
        let t = trim(&ps[i]);
        if t.len() > 0 {
            r.push(t);
        }
        i += 1;
    }
    proof {
        assert(seq_views(ps@).take(n as int) =~= seq_views(ps@));
    }
    r
}

/// The pieces joined with a single space between them.
pub open spec fn join_space(ls: Seq<Seq<char>>) -> Seq<char>
    decreases ls.len(),
{
    if ls.len() == 0 {
        Seq::<char>::empty()
    } else if ls.len() == 1 {
        ls[0]
    } else {
        join_space(ls.drop_last()) + seq![' '] + ls.last()
    }
}

/// Joins the pieces of `ls` with single spaces.
pub fn join_space_in(ls: &Vec<Vec<char>>) -> (r: Vec<char>)
    ensures
        r@ == join_space(seq_views(ls@)),
{
    let n = ls.len();
    let mut r: Vec<char> = Vec::new();
    let mut i: usize = 0;
    while i < n
        invariant
            n == ls.len(),
            i <= n,
            r@ =~= join_space(seq_views(ls@).take(i as int)),
        decreases n - i,
    {
        proof {
            assert(seq_views(ls@).take(i as int + 1).drop_last() =~= seq_views(ls@).take(i as int));
            assert(seq_views(ls@).take(i as int + 1).last() == ls@[i as int]@);
            assert(seq_views(ls@).take(i as int + 1)[0] == ls@[0]@);
        }
        if i > 0 {
            r.push(' ');
        }
        let mut j: usize = 0;
        let m = ls[i].len();
        let ghost base = r@;
        while j < m
            invariant
                i < n,
                n == ls.len(),
                m == ls@[i as int]@.len(),
                j <= m,
                r@ =~= base + ls@[i as int]@.take(j as int),
            decreases m - j,
        {
            r.push(ls[i][j]);
            j += 1;
        }
        proof {
            assert(ls@[i as int]@.take(m as int) =~= ls@[i as int]@);
        }
        i += 1;
    }
    proof {
        assert(seq_views(ls@).take(n as int) =~= seq_views(ls@));
    }
    r
}

/// Joining non-empty trimmed pieces with single spaces gives a trimmed
/// result, empty exactly when there are no pieces.
pub proof fn lemma_join_space_trimmed(ls: Seq<Seq<char>>)
    requires
        forall|i: int| 0 <= i < ls.len() ==> (#[trigger] ls[i]).len() > 0 && is_trimmed(ls[i]),
    ensures
        join_space(ls).len() > 0 <==> ls.len() > 0,
        is_trimmed(join_space(ls)),
    decreases ls.len(),
{
    if ls.len() >= 2 {
        let rest = ls.drop_last();
        assert(forall|i: int|
            0 <= i < rest.len() ==> (#[trigger] rest[i]).len() > 0 && is_trimmed(rest[i]));
        lemma_join_space_trimmed(rest);
        let j = join_space(ls);
        assert(j[0] == join_space(rest)[0]);
        assert(j.last() == ls.last().last());
    }
}

/// `s` with every occurrence of `p` replaced by `q`; an empty pattern
/// replaces nothing.
pub open spec fn replace_sub(s: Seq<char>, p: Seq<char>, q: Seq<char>) -> Seq<char>
    decreases s.len(),
{
    if p.len() == 0 || s.len() == 0 {
        s
    } else if starts_with(s, p) {
        q + replace_sub(s.skip(p.len() as int), p, q)
    } else {
        seq![s[0]] + replace_sub(s.drop_first(), p, q)
    }
}

/// Replaces every occurrence of the pattern `p` in `v` by `q`.
pub fn replace_sub_in(v: &Vec<char>, p: &str, q: &str) -> (r: Vec<char>)
    requires
        p@.len() > 0,
    ensures
        r@ == replace_sub(v@, p@, q@),
{
    let n = v.len();
    let qc = chars_of(q);
    let mut r: Vec<char> = Vec::new();
    let mut i: usize = 0;
    proof {
        assert(v@.skip(0) =~= v@);
    }
    while i < n
        invariant
            n == v.len(),
            i <= n,
            p@.len() > 0,
            qc@ == q@,
            replace_sub(v@, p@, q@) =~= r@ + replace_sub(v@.skip(i as int), p@, q@),
        decreases n - i,
    {
        let ghost rem = v@.skip(i as int);
        if starts_with_at(v, p, i) {
            proof {
                assert(rem.subrange(0, p@.len() as int) =~= v@.subrange(
                    i as int,
                    i as int + p@.len(),
                ));
                assert(starts_with(rem, p@));
                assert(rem.skip(p@.len() as int) =~= v@.skip(i as int + p@.len()));
            }
            let mut j: usize = 0;
            let m = qc.len();
            let ghost base = r@;
            while j < m
                invariant
                    m == qc.len(),
                    j <= m,
                    r@ =~= base + qc@.take(j as int),
                decreases m - j,
            {
                r.push(qc[j]);
                j += 1;
            }
            proof {
                assert(qc@.take(m as int) =~= qc@);
            }
            i += p.unicode_len();
        } else {
            proof {
                assert(rem.len() > 0 && rem[0] == v@[i as int]);
                assert(!starts_with(rem, p@)) by {
                    if starts_with(rem, p@) {
                        assert(v@.subrange(i as int, i as int + p@.len()) =~= rem.subrange(
                            0,
                            p@.len() as int,
                        ));
                    }
                }
                assert(rem.drop_first() =~= v@.skip(i as int + 1));
            }
            r.push(v[i]);
            i += 1;
        }
    }
    proof {
        assert(v@.skip(n as int) =~= Seq::<char>::empty());
    }
    r
}

/// Copies the range `a .. b` of `v`.
pub fn subvec(v: &Vec<char>, a: usize, b: usize) -> (r: Vec<char>)
    requires
        a <= b <= v.len(),
    ensures
        r@ == v@.subrange(a as int, b as int),
{
    let mut r: Vec<char> = Vec::new();
    let mut i: usize = a;
    while i < b
        invariant
            a <= i <= b <= v.len(),
            r@ =~= v@.subrange(a as int, i as int),
        decreases b - i,
    {
        r.push(v[i]);
        i += 1;
        proof {
            assert(v@.subrange(a as int, i as int) =~= v@.subrange(a as int, i as int - 1).push(
                v@[i - 1],
            ));
        }
    }
    r
}

/// Compares two string slices character by character.
pub fn str_eq(a: &str, b: &str) -> (r: bool)
    ensures
        r == (a@ == b@),
{
    let n = a.unicode_len();
    let m = b.unicode_len();
    if n != m {
        proof {
            assert(a@ != b@);
        }
        return false;
    }
    let mut i: usize = 0;
    while i < n
        invariant
            n == a@.len(),
            n == b@.len(),
            i <= n,
            forall|k: int| 0 <= k < i ==> a@[k] == b@[k],
        decreases n - i,
    {
        if a.get_char(i) != b.get_char(i) {
            return false;
        }
        i += 1;
    }
    proof {
        assert(a@ =~= b@);
    }
    true
}

/// Compares a character vector with a string slice.
pub fn chars_eq_str(v: &Vec<char>, s: &str) -> (r: bool)
    ensures
        r == (v@ == s@),
{
    let n = v.len();
    let m = s.unicode_len();
    if n != m {
        proof {
            assert(v@ != s@);
        }
        return false;
    }
    let mut i: usize = 0;
    while i < n
        invariant
            n == v.len(),
            n == s@.len(),
            i <= n,
            forall|k: int| 0 <= k < i ==> v@[k] == s@[k],
        decreases n - i,
    {
        if v[i] != s.get_char(i) {
            return false;
        }
        i += 1;
    }
    proof {
        assert(v@ =~= s@);
    }
    true
}

/// The views of a sequence of strings.
pub open spec fn str_seq_views(vs: Seq<String>) -> Seq<Seq<char>> {
    Seq::new(vs.len(), |i: int| vs[i]@)
}

/// Every piece `clean_pieces` keeps is trimmed and non-empty.
pub proof fn lemma_clean_pieces_trimmed(ps: Seq<Seq<char>>)
    ensures
        forall|i: int|
            0 <= i < clean_pieces(ps).len() ==> (#[trigger] clean_pieces(ps)[i]).len() > 0
                && is_trimmed(clean_pieces(ps)[i]),
    decreases ps.len(),
{
    if ps.len() > 0 {
        let r = clean_pieces(ps.drop_last());
        lemma_clean_pieces_trimmed(ps.drop_last());
        lemma_trim_spec_trimmed(ps.last());
        assert forall|i: int|
            0 <= i < clean_pieces(ps).len() implies (#[trigger] clean_pieces(ps)[i]).len() > 0
            && is_trimmed(clean_pieces(ps)[i]) by {
            if i < r.len() {
                assert(clean_pieces(ps)[i] == r[i]);
            }
        }
    }
}

/// The characters of `s`, as a vector.
pub fn chars_of(s: &str) -> (r: Vec<char>)
    ensures
        r@ == s@,
{
    let n = s.unicode_len();
    let mut r: Vec<char> = Vec::new();
    let mut i: usize = 0;
    while i < n
        invariant
            n == s@.len(),
            i <= n,
            r@ =~= s@.take(i as int),
        decreases n - i,
    {
        r.push(s.get_char(i));
        i += 1;
    }
    proof {
        assert(s@.take(n as int) =~= s@);
    }
    r
}

/// Relies on `String::push`: appends the given character to the end of the
/// string.
pub assume_specification[ String::push ](s: &mut String, c: char)
    ensures
        final(s)@ == old(s)@.push(c),
;

/// Appends every character of `s` to `out`.
pub fn append_str(out: &mut Vec<char>, s: &str)
    ensures
        final(out)@ == old(out)@ + s@,
{
    let cs = chars_of(s);
    let n = cs.len();
    let mut i: usize = 0;
    while i < n
        invariant
            n == cs.len(),
            cs@ == s@,
            i <= n,
            out@ =~= old(out)@ + cs@.take(i as int),
        decreases n - i,
    {
        out.push(cs[i]);
        i += 1;
    }
    proof {
        assert(cs@.take(n as int) =~= cs@);
    }
}

/// Builds a `String` holding exactly the characters of `v`.
pub fn string_of(v: &Vec<char>) -> (r: String)
    ensures
        r@ == v@,
{
    let n = v.len();
    let mut r = String::new();
    let mut i: usize = 0;
    while i < n
        invariant
            n == v.len(),
            i <= n,
            r@ =~= v@.take(i as int),
        decreases n - i,
    {
        r.push(v[i]);
        i += 1;
    }
    proof {
        assert(v@.take(n as int) =~= v@);
    }
    r
}

} // verus!
