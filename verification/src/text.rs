//! Character-level operations on strings: ordering, searching, replacing, joining.
use vstd::prelude::*;
use vstd::string::*;

verus! {

/// Strict lexicographic order on character sequences, comparing code points.
/// For Rust strings this is the order `String`'s `Ord` gives, since UTF-8
/// preserves the order of code points.
pub open spec fn key_lt(a: Seq<char>, b: Seq<char>) -> bool
    decreases a.len(),
{
    if a.len() == 0 {
        b.len() > 0
    } else if b.len() == 0 {
        false
    } else if a[0] != b[0] {
        (a[0] as int) < (b[0] as int)
    } else {
        key_lt(a.drop_first(), b.drop_first())
    }
}

/// No sequence precedes itself.
pub proof fn lemma_key_lt_irreflexive(a: Seq<char>)
    ensures
        !key_lt(a, a),
    decreases a.len(),
{
    if a.len() > 0 {
        lemma_key_lt_irreflexive(a.drop_first());
    }
}

/// The order is transitive.
pub proof fn lemma_key_lt_transitive(a: Seq<char>, b: Seq<char>, c: Seq<char>)
    requires
        key_lt(a, b),
        key_lt(b, c),
    ensures
        key_lt(a, c),
    decreases a.len(),
{
    if a.len() > 0 && b.len() > 0 && c.len() > 0 {
        if a[0] == b[0] && b[0] == c[0] {
            lemma_key_lt_transitive(a.drop_first(), b.drop_first(), c.drop_first());
        }
    }
}

/// Two distinct sequences are ordered one way or the other, and not both ways.
pub proof fn lemma_key_lt_total(a: Seq<char>, b: Seq<char>)
    ensures
        a != b ==> (key_lt(a, b) || key_lt(b, a)),
        !(key_lt(a, b) && key_lt(b, a)),
    decreases a.len(),
{
    if a.len() > 0 && b.len() > 0 {
        lemma_key_lt_total(a.drop_first(), b.drop_first());
        if a[0] == b[0] && a.drop_first() == b.drop_first() {
            assert(a =~= seq![a[0]] + a.drop_first());
            assert(b =~= seq![b[0]] + b.drop_first());
        }
    } else if a.len() == 0 && b.len() == 0 {
        assert(a =~= b);
    }
}

/// Whether `a` comes strictly before `b` in the order of `key_lt`.
pub fn str_lt(a: &str, b: &str) -> (r: bool)
    ensures
        r == key_lt(a@, b@),
{
    let la = a.unicode_len();
    let lb = b.unicode_len();
    let mut i: usize = 0;
    assert(a@.skip(0) =~= a@);
    assert(b@.skip(0) =~= b@);
    while i < la && i < lb
        invariant
            i <= la,
            i <= lb,
            la == a@.len(),
            lb == b@.len(),
            key_lt(a@, b@) == key_lt(a@.skip(i as int), b@.skip(i as int)),
        decreases la - i,
    {
        let ca = a.get_char(i);
        let cb = b.get_char(i);
        assert(a@.skip(i as int).drop_first() =~= a@.skip(i + 1));
        assert(b@.skip(i as int).drop_first() =~= b@.skip(i + 1));
        if ca != cb {
            return ca < cb;
        }
        i = i + 1;
    }
    la < lb
}

/// Whether `a` and `b` hold the same characters.
pub fn str_eq(a: &str, b: &str) -> (r: bool)
    ensures
        r == (a@ == b@),
{
    proof {
        lemma_key_lt_total(a@, b@);
        lemma_key_lt_irreflexive(a@);
    }
    !str_lt(a, b) && !str_lt(b, a)
}

/// Whether `p` occurs in `s` starting at index `i`.
pub open spec fn occurs_at(s: Seq<char>, p: Seq<char>, i: int) -> bool {
    0 <= i && i + p.len() <= s.len() && s.subrange(i, i + p.len()) == p
}

/// Whether `p` occurs anywhere in `s`.
pub open spec fn contains_seq(s: Seq<char>, p: Seq<char>) -> bool {
    exists|i: int| #[trigger] occurs_at(s, p, i)
}

/// `s` with every occurrence of the nonempty `p` replaced by `r`, matches taken
/// from the left and not overlapping.
pub open spec fn replace_seq(s: Seq<char>, p: Seq<char>, r: Seq<char>) -> Seq<char>
    decreases s.len(),
{
    if p.len() == 0 || s.len() < p.len() {
        s
    } else if s.take(p.len() as int) == p {
        r + replace_seq(s.skip(p.len() as int), p, r)
    } else {
        seq![s[0]] + replace_seq(s.drop_first(), p, r)
    }
}

/// Replacing leaves a sequence in which the pattern does not occur as it is.
pub proof fn law_replace_without_match(s: Seq<char>, p: Seq<char>, r: Seq<char>)
    requires
        p.len() > 0,
        !contains_seq(s, p),
    ensures
        replace_seq(s, p, r) == s,
    decreases s.len(),
{
    if s.len() >= p.len() {
        assert(s.subrange(0, p.len() as int) =~= s.take(p.len() as int));
        assert(!occurs_at(s, p, 0));
        let t = s.drop_first();
        assert forall|i: int| !#[trigger] occurs_at(t, p, i) by {
            if occurs_at(t, p, i) {
                assert(s.subrange(i + 1, i + 1 + p.len()) =~= t.subrange(i, i + p.len()));
                assert(occurs_at(s, p, i + 1));
            }
        }
        law_replace_without_match(t, p, r);
        assert(s =~= seq![s[0]] + t);
    }
}

/// The first occurrence of the pattern is replaced, and what precedes it is kept:
/// when `p` first occurs in `a + p + b` right after `a`, the result is `a`, then
/// `r`, then the replacement of `b`.
pub proof fn law_replace_first(a: Seq<char>, p: Seq<char>, r: Seq<char>, b: Seq<char>)
    requires
        p.len() > 0,
        forall|i: int| 0 <= i < a.len() ==> !#[trigger] occurs_at(a + p + b, p, i),
    ensures
        replace_seq(a + p + b, p, r) == a + r + replace_seq(b, p, r),
    decreases a.len(),
{
    let s = a + p + b;
    if a.len() == 0 {
        assert(a + p + b =~= p + b);
        assert((p + b).take(p.len() as int) =~= p);
        assert((p + b).skip(p.len() as int) =~= b);
        assert(a + r + replace_seq(b, p, r) =~= r + replace_seq(b, p, r));
    } else {
        assert(s.subrange(0, p.len() as int) =~= s.take(p.len() as int));
        assert(!occurs_at(s, p, 0));
        let a2 = a.drop_first();
        assert(s.drop_first() =~= a2 + p + b);
        assert forall|i: int| 0 <= i < a2.len() implies !#[trigger] occurs_at(a2 + p + b, p, i) by {
            assert(s.subrange(i + 1, i + 1 + p.len()) =~= (a2 + p + b).subrange(i, i + p.len()));
            assert(!occurs_at(s, p, i + 1));
        }
        law_replace_first(a2, p, r, b);
        assert(a + r + replace_seq(b, p, r) =~= seq![s[0]] + (a2 + r + replace_seq(b, p, r)));
    }
}

/// Whether `p` occurs in `s` at character index `i`.
fn occurs_at_exec(s: &str, p: &str, i: usize) -> (r: bool)
    requires
        i + p@.len() <= s@.len(),
    ensures
        r == occurs_at(s@, p@, i as int),
{
    let ls = s.unicode_len();
    let lp = p.unicode_len();
    let mut j: usize = 0;
    while j < lp
        invariant
            ls == s@.len(),
            lp == p@.len(),
            i + lp <= s@.len(),
            j <= lp,
            forall|k: int| 0 <= k < j ==> s@[i + k] == p@[k],
        decreases lp - j,
    {
        if s.get_char(i + j) != p.get_char(j) {
            assert(s@.subrange(i as int, i + p@.len())[j as int] != p@[j as int]);
            return false;
        }
        j = j + 1;
    }
    assert(s@.subrange(i as int, i + p@.len()) =~= p@);
    true
}

/// Whether `p` occurs anywhere in `s` (what `str::contains` answers for a string pattern).
pub fn contains_str(s: &str, p: &str) -> (r: bool)
    ensures
        r == contains_seq(s@, p@),
{
    let ls = s.unicode_len();
    let lp = p.unicode_len();
    if lp > ls {
        assert forall|i: int| !#[trigger] occurs_at(s@, p@, i) by {}
        return false;
    }
    if lp == 0 {
        assert(s@.subrange(0, 0) =~= p@);
        assert(occurs_at(s@, p@, 0));
        return true;
    }
    let mut i: usize = 0;
    while i <= ls - lp
        invariant
            ls == s@.len(),
            lp == p@.len(),
            0 < lp <= ls,
            i <= ls - lp + 1,
            forall|k: int| 0 <= k < i ==> !#[trigger] occurs_at(s@, p@, k),
        decreases ls - lp + 1 - i,
    {
        if occurs_at_exec(s, p, i) {
            return true;
        }
        i = i + 1;
    }
    assert forall|k: int| !#[trigger] occurs_at(s@, p@, k) by {
        if 0 <= k < i {
        }
    }
    false
}

proof fn lemma_replace_seq_step(s: Seq<char>, p: Seq<char>, r: Seq<char>, i: int)
    requires
        p.len() > 0,
        0 <= i <= s.len(),
    ensures
        i + p.len() <= s.len() && occurs_at(s, p, i) ==> replace_seq(s.skip(i), p, r) == r
            + replace_seq(s.skip(i + p.len()), p, r),
        i < s.len() && !occurs_at(s, p, i) ==> replace_seq(s.skip(i), p, r) == seq![s[i]]
            + replace_seq(s.skip(i + 1), p, r),
        s.len() - i < p.len() ==> replace_seq(s.skip(i), p, r) == s.skip(i),
{
    let t = s.skip(i);
    if t.len() >= p.len() {
        assert(t.take(p.len() as int) =~= s.subrange(i, i + p.len()));
        assert(t.skip(p.len() as int) =~= s.skip(i + p.len()));
        assert(t.drop_first() =~= s.skip(i + 1));
    }
}

/// `s` with every occurrence of the nonempty `p` replaced by `r`, as `str::replace` does.
pub fn replace_str(s: &str, p: &str, r: &str) -> (out: String)
    requires
        p@.len() > 0,
    ensures
        out@ == replace_seq(s@, p@, r@),
{
    let ls = s.unicode_len();
    let lp = p.unicode_len();
    let mut out = String::new();
    let mut i: usize = 0;
    assert(s@.skip(0) =~= s@);
    while i < ls
        invariant
            ls == s@.len(),
            lp == p@.len(),
            lp > 0,
            i <= ls,
            out@ + replace_seq(s@.skip(i as int), p@, r@) == replace_seq(s@, p@, r@),
        decreases ls - i,
    {
        proof {
            lemma_replace_seq_step(s@, p@, r@, i as int);
        }
        if lp <= ls - i && occurs_at_exec(s, p, i) {
            let ghost before = out@;
            out.append(r);
            assert(before + (r@ + replace_seq(s@.skip(i + lp), p@, r@)) =~= out@ + replace_seq(
                s@.skip(i + lp),
                p@,
                r@,
            ));
            i = i + lp;
        } else {
            let ghost before = out@;
            let piece = s.substring_char(i, i + 1);
            out.append(piece);
            assert(piece@ =~= seq![s@[i as int]]);
            assert(before + (seq![s@[i as int]] + replace_seq(s@.skip(i + 1), p@, r@)) =~= out@
                + replace_seq(s@.skip(i + 1), p@, r@));
            i = i + 1;
        }
    }
    proof {
        lemma_replace_seq_step(s@, p@, r@, i as int);
        assert(s@.skip(i as int) =~= Seq::<char>::empty());
        assert(out@ + Seq::<char>::empty() =~= out@);
    }
    out
}

/// The concatenation of `a` and `b` as a new string.
pub fn concat_str(a: &str, b: &str) -> (out: String)
    ensures
        out@ == a@ + b@,
{
    let mut out = String::from_str(a);
    out.append(b);
    out
}

} // verus!
