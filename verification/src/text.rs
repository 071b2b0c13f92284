use vstd::prelude::*;

verus! {

/// Lexicographic order of texts by character code, which is the order of their UTF-8 bytes:
/// `a` comes before `b`.
pub open spec fn text_lt(a: Seq<char>, b: Seq<char>) -> bool
    decreases a.len(),
{
    if a.len() == 0 {
        b.len() > 0
    } else if b.len() == 0 {
        false
    } else if a[0] != b[0] {
        (a[0] as int) < (b[0] as int)
    } else {
        text_lt(a.drop_first(), b.drop_first())
    }
}

/// The order is strict and total: of two texts, exactly one of "before", "equal" and
/// "after" holds.
pub proof fn lemma_text_lt_trichotomy(a: Seq<char>, b: Seq<char>)
    ensures
        !(text_lt(a, b) && text_lt(b, a)),
        !text_lt(a, a),
        text_lt(a, b) || text_lt(b, a) || a == b,
    decreases a.len(),
{
    if a.len() > 0 && b.len() > 0 {
        lemma_text_lt_trichotomy(a.drop_first(), b.drop_first());
        if a[0] == b[0] && a.drop_first() == b.drop_first() {
            assert(a =~= seq![a[0]] + a.drop_first());
            assert(b =~= seq![b[0]] + b.drop_first());
        }
    } else if a.len() > 0 {
        lemma_text_lt_trichotomy(a.drop_first(), a.drop_first());
    } else if b.len() == 0 {
        assert(a =~= b);
    }
}

/// The order is transitive.
pub proof fn lemma_text_lt_transitive(a: Seq<char>, b: Seq<char>, c: Seq<char>)
    requires
        text_lt(a, b),
        text_lt(b, c),
    ensures
        text_lt(a, c),
    decreases a.len(),
{
    if a.len() > 0 && b.len() > 0 && c.len() > 0 {
        if a[0] == b[0] && b[0] == c[0] {
            lemma_text_lt_transitive(a.drop_first(), b.drop_first(), c.drop_first());
        }
    }
}

/// Whether the text `a` comes before the text `b`.
pub fn str_lt(a: &str, b: &str) -> (res: bool)
    ensures
        res == text_lt(a@, b@),
{
    let na = a.unicode_len();
    let nb = b.unicode_len();
    let mut i: usize = 0;
    proof {
        assert(a@.skip(0) =~= a@);
        assert(b@.skip(0) =~= b@);
    }
    while i < na && i < nb
        invariant
            na == a@.len(),
            nb == b@.len(),
            i <= na,
            i <= nb,
            text_lt(a@, b@) == text_lt(a@.skip(i as int), b@.skip(i as int)),
        decreases na - i,
    {
        let ca = a.get_char(i);
        let cb = b.get_char(i);
        proof {
            assert(a@.skip(i as int)[0] == ca);
            assert(b@.skip(i as int)[0] == cb);
            assert(a@.skip(i as int).drop_first() =~= a@.skip(i + 1));
            assert(b@.skip(i as int).drop_first() =~= b@.skip(i + 1));
        }
        if ca != cb {
            return (ca as u32) < (cb as u32);
        }
        i += 1;
    }
    proof {
        assert(i == na ==> a@.skip(i as int).len() == 0);
        assert(i == nb ==> b@.skip(i as int).len() == 0);
    }
    i == na && i < nb
}

/// Whether the two texts are equal.
pub fn str_eq(a: &str, b: &str) -> (res: bool)
    ensures
        res == (a@ == b@),
{
    proof {
        lemma_text_lt_trichotomy(a@, b@);
    }
    !str_lt(a, b) && !str_lt(b, a)
}

/// The text `p` occurs in the text `s`.
pub open spec fn text_contains(s: Seq<char>, p: Seq<char>) -> bool {
    exists|i: int| 0 <= i && i + p.len() <= s.len() && #[trigger] s.subrange(i, i + p.len()) == p
}

/// Whether the text `p` occurs in the text `s`.
pub fn str_contains(s: &str, p: &str) -> (res: bool)
    ensures
        res == text_contains(s@, p@),
{
    let n = s.unicode_len();
    let m = p.unicode_len();
    if m > n {
        proof {
            assert forall|i: int| 0 <= i && i + p@.len() <= s@.len() implies #[trigger] s@.subrange(i, i + p@.len())
                != p@ by {}
        }
        return false;
    }
    if m == 0 {
        proof {
            assert(s@.subrange(0, 0 + p@.len() as int) =~= p@);
            assert(text_contains(s@, p@));
        }
        return true;
    }
    let mut i: usize = 0;
    while i <= n - m
        invariant
            n == s@.len(),
            m == p@.len(),
            1 <= m <= n,
            i <= n - m + 1,
            forall|i2: int| 0 <= i2 < i ==> #[trigger] s@.subrange(i2, i2 + m) != p@,
        decreases n - m + 1 - i,
    {
        let mut j: usize = 0;
        let mut matched = true;
        while j < m
            invariant
                n == s@.len(),
                m == p@.len(),
                i + m <= n,
                j <= m,
                matched ==> forall|j2: int| 0 <= j2 < j ==> s@[i + j2] == p@[j2],
                !matched ==> s@.subrange(i as int, i + m) != p@,
            decreases m - j,
        {
            if matched && s.get_char(i + j) != p.get_char(j) {
                matched = false;
                proof {
                    assert(s@.subrange(i as int, i + m)[j as int] == s@[i + j]);
                }
            }
            j += 1;
        }
        if matched {
            proof {
                assert(s@.subrange(i as int, i + p@.len()) =~= p@);
                assert(text_contains(s@, p@));
            }
            return true;
        }
        i += 1;
    }
    proof {
        assert forall|i2: int| 0 <= i2 && i2 + p@.len() <= s@.len() implies #[trigger] s@.subrange(i2, i2 + p@.len())
            != p@ by {
            assert(i2 < i);
        }
    }
    false
}

/// The order reads texts from the left: a proper prefix comes before the longer text, and
/// where the texts first differ, at position `i`, the one with the smaller character there
/// comes first.
pub proof fn lemma_text_lt_from_the_left(a: Seq<char>, b: Seq<char>, i: int)
    requires
        0 <= i <= a.len(),
        i <= b.len(),
        a.take(i) == b.take(i),
    ensures
        i == a.len() && i < b.len() ==> text_lt(a, b),
        i < a.len() && i < b.len() && (a[i] as int) < (b[i] as int) ==> text_lt(a, b),
        i < a.len() && i < b.len() && (a[i] as int) > (b[i] as int) ==> text_lt(b, a),
    decreases i,
{
    if i > 0 {
        assert(a[0] == a.take(i)[0]);
        assert(b[0] == b.take(i)[0]);
        assert(a.drop_first().take(i - 1) =~= a.take(i).drop_first());
        assert(b.drop_first().take(i - 1) =~= b.take(i).drop_first());
        lemma_text_lt_from_the_left(a.drop_first(), b.drop_first(), i - 1);
    }
}

} // verus!
