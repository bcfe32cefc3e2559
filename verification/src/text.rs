//! Character-level helpers the rest of the library is stated over: trimming,
//! the order `String` sorts by, sorting distinct ids, and decimal rendering.

use vstd::prelude::*;

verus! {

/// Unicode `White_Space`, the set `char::is_whitespace` tests.
pub open spec fn is_space(c: char) -> bool {
    let u = c as u32;
    ||| 0x09 <= u <= 0x0D
    ||| u == 0x20
    ||| u == 0x85
    ||| u == 0xA0
    ||| u == 0x1680
    ||| 0x2000 <= u <= 0x200A
    ||| u == 0x2028
    ||| u == 0x2029
    ||| u == 0x202F
    ||| u == 0x205F
    ||| u == 0x3000
}

/// Whether `c` is a Unicode white-space character.
pub fn char_is_space(c: char) -> (r: bool)
    ensures
        r == is_space(c),
{
    let u = c as u32;
    (0x09 <= u && u <= 0x0D) || u == 0x20 || u == 0x85 || u == 0xA0 || u == 0x1680 || (0x2000
        <= u && u <= 0x200A) || u == 0x2028 || u == 0x2029 || u == 0x202F || u == 0x205F || u
        == 0x3000
}

/// `s` without its leading white space.
pub open spec fn trim_front(s: Seq<char>) -> Seq<char>
    decreases s.len(),
{
    if s.len() > 0 && is_space(s[0]) {
        trim_front(s.drop_first())
    } else {
        s
    }
}

/// `s` without its trailing white space.
pub open spec fn trim_back(s: Seq<char>) -> Seq<char>
    decreases s.len(),
{
    if s.len() > 0 && is_space(s.last()) {
        trim_back(s.drop_last())
    } else {
        s
    }
}

/// `s` without leading or trailing white space, as `str::trim` returns it.
pub open spec fn trimmed(s: Seq<char>) -> Seq<char> {
    trim_back(trim_front(s))
}

/// Whether `s` is empty or white space only.
pub open spec fn is_blank(s: Seq<char>) -> bool {
    trimmed(s).len() == 0
}

/// `s` with leading and trailing white space removed.
pub fn trim(s: &str) -> (r: String)
    ensures
        r@ == trimmed(s@),
{
    let n = s.unicode_len();
    let mut i: usize = 0;
    assert(s@.subrange(0, n as int) =~= s@);
    while i < n && char_is_space(s.get_char(i))
        invariant
            n == s@.len(),
            i <= n,
            trim_front(s@) == trim_front(s@.subrange(i as int, n as int)),
        decreases n - i,
    {
        assert(s@.subrange(i as int, n as int).drop_first() =~= s@.subrange(i + 1, n as int));
        i = i + 1;
    }
    assert(trim_front(s@) == s@.subrange(i as int, n as int));
    let mut j: usize = n;
    while j > i && char_is_space(s.get_char(j - 1))
        invariant
            n == s@.len(),
            i <= j <= n,
            trim_front(s@) == s@.subrange(i as int, n as int),
            trimmed(s@) == trim_back(s@.subrange(i as int, j as int)),
        decreases j - i,
    {
        assert(s@.subrange(i as int, j as int).drop_last() =~= s@.subrange(i as int, j - 1));
        j = j - 1;
    }
    let t = s.substring_char(i, j);
    String::from_str(t)
}

/// Whether `s` is empty or white space only.
pub fn blank(s: &str) -> (r: bool)
    ensures
        r == is_blank(s@),
{
    let t = trim(s);
    t.as_str().unicode_len() == 0
}

/// The order `String` sorts by: lexicographic over code points.
pub open spec fn seq_lt(a: Seq<char>, b: Seq<char>) -> bool
    decreases a.len(),
{
    if b.len() == 0 {
        false
    } else if a.len() == 0 {
        true
    } else if a[0] != b[0] {
        (a[0] as int) < (b[0] as int)
    } else {
        seq_lt(a.drop_first(), b.drop_first())
    }
}

/// No text sorts before itself.
pub proof fn lemma_lt_irreflexive(a: Seq<char>)
    ensures
        !seq_lt(a, a),
    decreases a.len(),
{
    if a.len() > 0 {
        lemma_lt_irreflexive(a.drop_first());
    }
}

/// Sorting before is transitive.
pub proof fn lemma_lt_transitive(a: Seq<char>, b: Seq<char>, c: Seq<char>)
    requires
        seq_lt(a, b),
        seq_lt(b, c),
    ensures
        seq_lt(a, c),
    decreases a.len(),
{
    if a.len() > 0 && b.len() > 0 && c.len() > 0 && a[0] == b[0] && b[0] == c[0] {
        lemma_lt_transitive(a.drop_first(), b.drop_first(), c.drop_first());
    }
}

/// Of two different texts, one sorts before the other.
pub proof fn lemma_lt_total(a: Seq<char>, b: Seq<char>)
    ensures
        a == b || seq_lt(a, b) || seq_lt(b, a),
    decreases a.len(),
{
    if a.len() > 0 && b.len() > 0 && a[0] == b[0] {
        lemma_lt_total(a.drop_first(), b.drop_first());
        if a.drop_first() == b.drop_first() {
            assert(a =~= seq![a[0]] + a.drop_first());
            assert(b =~= seq![b[0]] + b.drop_first());
        }
    } else if a.len() == 0 && b.len() == 0 {
        assert(a =~= b);
    } else if a.len() > 0 && b.len() > 0 {
        assert(a[0] as int != b[0] as int);
    }
}

/// Of two texts, at most one sorts before the other.
pub proof fn lemma_lt_asymmetric(a: Seq<char>, b: Seq<char>)
    requires
        seq_lt(a, b),
    ensures
        !seq_lt(b, a),
{
    if seq_lt(b, a) {
        lemma_lt_transitive(a, b, a);
        lemma_lt_irreflexive(a);
    }
}

/// Whether `a` sorts before `b`.
pub fn str_lt(a: &str, b: &str) -> (r: bool)
    ensures
        r == seq_lt(a@, b@),
{
    let n = a.unicode_len();
    let m = b.unicode_len();
    let mut i: usize = 0;
    assert(a@.skip(0) =~= a@);
    assert(b@.skip(0) =~= b@);
    while i < n && i < m
        invariant
            n == a@.len(),
            m == b@.len(),
            i <= n,
            i <= m,
            seq_lt(a@, b@) == seq_lt(a@.skip(i as int), b@.skip(i as int)),
        decreases n - i,
    {
        let x = a.get_char(i);
        let y = b.get_char(i);
        if x != y {
            proof {
                assert((x as u32) as int == x as int);
                assert((y as u32) as int == y as int);
            }
            return (x as u32) < (y as u32);
        }
        assert(a@.skip(i as int).drop_first() =~= a@.skip(i + 1));
        assert(b@.skip(i as int).drop_first() =~= b@.skip(i + 1));
        i = i + 1;
    }
    i < m
}

/// Whether `a` and `b` hold the same characters.
pub fn str_eq(a: &str, b: &str) -> (r: bool)
    ensures
        r == (a@ == b@),
{
    let n = a.unicode_len();
    let m = b.unicode_len();
    if n != m {
        return false;
    }
    let mut i: usize = 0;
    while i < n
        invariant
            n == a@.len(),
            m == b@.len(),
            n == m,
            i <= n,
            forall|k: int| 0 <= k < i ==> a@[k] == b@[k],
        decreases n - i,
    {
        if a.get_char(i) != b.get_char(i) {
            return false;
        }
        i = i + 1;
    }
    assert(a@ =~= b@);
    true
}

/// The character views of a sequence of strings.
pub open spec fn views(v: Seq<String>) -> Seq<Seq<char>> {
    v.map_values(|s: String| s@)
}

/// Every element sorts strictly before every later one.
pub open spec fn strictly_sorted(s: Seq<Seq<char>>) -> bool {
    forall|i: int, j: int| 0 <= i < j < s.len() ==> seq_lt(#[trigger] s[i], #[trigger] s[j])
}

/// No two elements are equal.
pub open spec fn distinct(s: Seq<Seq<char>>) -> bool {
    forall|i: int, j: int| 0 <= i < j < s.len() ==> #[trigger] s[i] != #[trigger] s[j]
}

/// The same distinct strings, in the order `String` sorts by.
pub fn sort_distinct(v: Vec<String>) -> (r: Vec<String>)
    requires
        distinct(views(v@)),
    ensures
        r@.len() == v@.len(),
        strictly_sorted(views(r@)),
        forall|x: Seq<char>| views(r@).contains(x) <==> views(v@).contains(x),
{
    let mut r: Vec<String> = Vec::new();
    let mut k: usize = 0;
    while k < v.len()
        invariant
            k <= v@.len(),
            distinct(views(v@)),
            r@.len() == k,
            strictly_sorted(views(r@)),
            forall|x: Seq<char>|
                views(r@).contains(x) <==> views(v@.subrange(0, k as int)).contains(x),
        decreases v@.len() - k,
    {
        let x = v[k].clone();
        assert(!views(r@).contains(x@)) by {
            if views(r@).contains(x@) {
                let t = choose|t: int| 0 <= t < k && views(v@.subrange(0, k as int))[t] == x@;
                assert(views(v@)[t] == views(v@)[k as int]);
            }
        }
        let mut p: usize = 0;
        while p < r.len() && str_lt(r[p].as_str(), x.as_str())
            invariant
                p <= r@.len(),
                forall|t: int| 0 <= t < p ==> seq_lt(#[trigger] views(r@)[t], x@),
            decreases r@.len() - p,
        {
            p = p + 1;
        }
        let ghost old_r = r@;
        proof {
            if p < r@.len() {
                lemma_lt_total(r@[p as int]@, x@);
                assert(views(r@)[p as int] == r@[p as int]@);
                assert(r@[p as int]@ != x@);
                assert(seq_lt(x@, views(r@)[p as int]));
            }
        }
        r.insert(p, x);
        proof {
            assert forall|i: int, j: int| 0 <= i < j < r@.len() implies seq_lt(
                #[trigger] views(r@)[i],
                #[trigger] views(r@)[j],
            ) by {
                if j < p {
                    assert(views(r@)[i] == views(old_r)[i]);
                    assert(views(r@)[j] == views(old_r)[j]);
                } else if j == p {
                    assert(views(r@)[i] == views(old_r)[i]);
                } else if i == p {
                    assert(views(r@)[j] == views(old_r)[j - 1]);
                    if j - 1 > p {
                        lemma_lt_transitive(x@, views(old_r)[p as int], views(old_r)[j - 1]);
                    }
                } else if i < p {
                    assert(views(r@)[i] == views(old_r)[i]);
                    assert(views(r@)[j] == views(old_r)[j - 1]);
                    lemma_lt_transitive(views(old_r)[i], x@, views(old_r)[p as int]);
                    if j - 1 > p {
                        lemma_lt_transitive(
                            views(old_r)[i],
                            views(old_r)[p as int],
                            views(old_r)[j - 1],
                        );
                    }
                } else {
                    assert(views(r@)[i] == views(old_r)[i - 1]);
                    assert(views(r@)[j] == views(old_r)[j - 1]);
                }
            }
            let ghost pre = views(v@.subrange(0, k as int));
            let ghost post = views(v@.subrange(0, k + 1));
            assert(post =~= pre.push(x@));
            assert forall|y: Seq<char>| #[trigger] views(r@).contains(y) implies post.contains(y) by {
                let t = choose|t: int| 0 <= t < r@.len() && views(r@)[t] == y;
                if t < p {
                    assert(views(old_r)[t] == y);
                    assert(views(old_r).contains(y));
                    let u = choose|u: int| 0 <= u < pre.len() && pre[u] == y;
                    assert(post[u] == y);
                } else if t > p {
                    assert(views(old_r)[t - 1] == y);
                    assert(views(old_r).contains(y));
                    let u = choose|u: int| 0 <= u < pre.len() && pre[u] == y;
                    assert(post[u] == y);
                } else {
                    assert(post[k as int] == y);
                }
            }
            assert forall|y: Seq<char>| #[trigger] post.contains(y) implies views(r@).contains(y) by {
                let u = choose|u: int| 0 <= u < post.len() && post[u] == y;
                if u < k {
                    assert(pre[u] == y);
                    assert(pre.contains(y));
                    assert(views(old_r).contains(y));
                    let t = choose|t: int| 0 <= t < old_r.len() && views(old_r)[t] == y;
                    if t < p {
                        assert(views(r@)[t] == y);
                    } else {
                        assert(views(r@)[t + 1] == y);
                    }
                } else {
                    assert(views(r@)[p as int] == y);
                }
            }
        }
        k = k + 1;
    }
    assert(v@.subrange(0, v@.len() as int) =~= v@);
    r
}

/// The character a decimal digit is written with.
pub open spec fn digit_char(d: int) -> char {
    if d == 0 {
        '0'
    } else if d == 1 {
        '1'
    } else if d == 2 {
        '2'
    } else if d == 3 {
        '3'
    } else if d == 4 {
        '4'
    } else if d == 5 {
        '5'
    } else if d == 6 {
        '6'
    } else if d == 7 {
        '7'
    } else if d == 8 {
        '8'
    } else {
        '9'
    }
}

/// `n` written in decimal, as `Display` writes an unsigned integer.
pub open spec fn decimal(n: nat) -> Seq<char>
    decreases n,
{
    if n < 10 {
        seq![digit_char(n as int)]
    } else {
        decimal(n / 10).push(digit_char((n % 10) as int))
    }
}

/// The decimal digit of `d`.
pub fn digit(d: u64) -> (c: char)
    requires
        d < 10,
    ensures
        c == digit_char(d as int),
{
    if d == 0 {
        '0'
    } else if d == 1 {
        '1'
    } else if d == 2 {
        '2'
    } else if d == 3 {
        '3'
    } else if d == 4 {
        '4'
    } else if d == 5 {
        '5'
    } else if d == 6 {
        '6'
    } else if d == 7 {
        '7'
    } else if d == 8 {
        '8'
    } else {
        '9'
    }
}

/// Appends one character, as `String::push` does.
#[verifier::external_body]
pub(crate) fn push_char(s: &mut String, c: char)
    ensures
        final(s)@ == old(s)@.push(c),
{
    s.push(c)
}

/// `n` in decimal.
pub fn decimal_string(n: u64) -> (r: String)
    ensures
        r@ == decimal(n as nat),
    decreases n,
{
    if n < 10 {
        let mut s = String::new();
        push_char(&mut s, digit(n));
        assert(s@ =~= seq![digit_char(n as int)]);
        s
    } else {
        let mut s = decimal_string(n / 10);
        push_char(&mut s, digit(n % 10));
        s
    }
}

} // verus!

verus! {

proof fn lemma_trim_front_head(s: Seq<char>)
    ensures
        trim_front(s).len() == 0 || !is_space(trim_front(s)[0]),
    decreases s.len(),
{
    if s.len() > 0 && is_space(s[0]) {
        lemma_trim_front_head(s.drop_first());
    }
}

proof fn lemma_trim_back_prefix(s: Seq<char>)
    ensures
        trim_back(s).len() <= s.len(),
        trim_back(s) == s.subrange(0, trim_back(s).len() as int),
        trim_back(s).len() == 0 || !is_space(trim_back(s).last()),
    decreases s.len(),
{
    if s.len() > 0 && is_space(s.last()) {
        lemma_trim_back_prefix(s.drop_last());
        let t = trim_back(s.drop_last());
        assert(s.drop_last().subrange(0, t.len() as int) =~= s.subrange(0, t.len() as int));
    } else {
        assert(s.subrange(0, s.len() as int) =~= s);
    }
}

/// Trimming what is trimmed changes nothing.
pub proof fn lemma_trimmed_idempotent(s: Seq<char>)
    ensures
        trimmed(trimmed(s)) == trimmed(s),
{
    let x = trim_front(s);
    lemma_trim_front_head(s);
    let y = trim_back(x);
    lemma_trim_back_prefix(x);
    if y.len() > 0 {
        assert(y[0] == x[0]);
    }
    assert(trim_front(y) == y);
    assert(trim_back(y) == y);
}

} // verus!
