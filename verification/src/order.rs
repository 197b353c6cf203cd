use vstd::prelude::*;
use vstd::string::StrSliceExecFns;
use crate::store::names_view;

verus! {

/// Lexicographic "less than or equal" on character sequences, comparing
/// characters by their Unicode scalar value. Backup listings are sorted
/// descending under this order, which the timestamped naming scheme makes
/// newest-first.
pub open spec fn lex_le(a: Seq<char>, b: Seq<char>) -> bool
    decreases a.len(),
{
    if a.len() == 0 {
        true
    } else if b.len() == 0 {
        false
    } else if a[0] == b[0] {
        lex_le(a.drop_first(), b.drop_first())
    } else {
        (a[0] as int) < (b[0] as int)
    }
}

/// Any two sequences are comparable under `lex_le`.
pub proof fn lemma_lex_le_total(a: Seq<char>, b: Seq<char>)
    ensures
        lex_le(a, b) || lex_le(b, a),
    decreases a.len(),
{
    if a.len() != 0 && b.len() != 0 {
        if a[0] == b[0] {
            lemma_lex_le_total(a.drop_first(), b.drop_first());
        } else {
            assert(a[0] as int != b[0] as int);
        }
    }
}

/// `lex_le` is transitive.
pub proof fn lemma_lex_le_transitive(a: Seq<char>, b: Seq<char>, c: Seq<char>)
    requires
        lex_le(a, b),
        lex_le(b, c),
    ensures
        lex_le(a, c),
    decreases a.len(),
{
    if a.len() != 0 && b.len() != 0 && c.len() != 0 && a[0] == b[0] && b[0] == c[0] {
        lemma_lex_le_transitive(a.drop_first(), b.drop_first(), c.drop_first());
    }
}

/// Compares the suffixes of `a` and `b` that start at character `i`.
fn str_le_from(a: &str, b: &str, i: usize, alen: usize, blen: usize) -> (r: bool)
    requires
        alen == a@.len(),
        blen == b@.len(),
        i <= alen,
        i <= blen,
    ensures
        r == lex_le(a@.skip(i as int), b@.skip(i as int)),
    decreases alen - i,
{
    if i == alen {
        true
    } else if i == blen {
        false
    } else {
        let ca = a.get_char(i);
        let cb = b.get_char(i);
        if ca == cb {
            let r = str_le_from(a, b, i + 1, alen, blen);
            proof {
                assert(a@.skip(i as int).drop_first() =~= a@.skip(i + 1));
                assert(b@.skip(i as int).drop_first() =~= b@.skip(i + 1));
            }
            r
        } else {
            let r = (ca as u32) < (cb as u32);
            proof {
                assert(r == ((ca as int) < (cb as int)));
            }
            r
        }
    }
}

/// Sorted from lexicographically greatest to least: under the timestamped
/// naming scheme, newest first.
pub open spec fn sorted_desc(s: Seq<Seq<char>>) -> bool {
    forall|i: int, j: int| 0 <= i < j < s.len() ==> lex_le(#[trigger] s[j], #[trigger] s[i])
}

/// Character-for-character string equality.
pub fn str_eq(a: &str, b: &str) -> (r: bool)
    ensures
        r == (a@ == b@),
{
    let alen = a.unicode_len();
    let blen = b.unicode_len();
    if alen != blen {
        return false;
    }
    let mut i: usize = 0;
    while i < alen
        invariant
            alen == a@.len(),
            blen == b@.len(),
            alen == blen,
            i <= alen,
            forall|j: int| 0 <= j < i ==> a@[j] == b@[j],
        decreases alen - i,
    {
        if a.get_char(i) != b.get_char(i) {
            assert(a@[i as int] != b@[i as int]);
            return false;
        }
        i = i + 1;
    }
    proof {
        assert(a@ =~= b@);
    }
    true
}

/// True when `a` precedes `b` (or equals it) in lexicographic order.
pub fn str_le(a: &str, b: &str) -> (r: bool)
    ensures
        r == lex_le(a@, b@),
{
    let alen = a.unicode_len();
    let blen = b.unicode_len();
    let r = str_le_from(a, b, 0, alen, blen);
    proof {
        assert(a@.skip(0) =~= a@);
        assert(b@.skip(0) =~= b@);
    }
    r
}

/// Inserting anywhere in a sequence adds exactly one occurrence to its
/// multiset of elements.
pub proof fn lemma_insert_multiset(s: Seq<Seq<char>>, p: int, x: Seq<char>)
    requires
        0 <= p <= s.len(),
    ensures
        s.insert(p, x).to_multiset() == s.to_multiset().insert(x),
{
    broadcast use vstd::seq_lib::group_to_multiset_ensures;

    let t = s.insert(p, x);
    s.insert_ensures(p, x);
    assert(t.remove(p) =~= s) by {
        t.remove_ensures(p);
    }
    assert(t[p] == x);
    assert(t.contains(x));
    assert(t.to_multiset().count(x) > 0);
    assert(s.to_multiset() == t.to_multiset().remove(x)) by {
        assert(t.remove(p).to_multiset() =~= t.to_multiset().remove(t[p]));
    }
    assert(t.to_multiset() =~= s.to_multiset().insert(x));
}

/// Places `x` into a list kept in descending lexicographic order.
pub fn insert_sorted_desc(v: &mut Vec<String>, x: String)
    requires
        sorted_desc(names_view(old(v)@)),
    ensures
        sorted_desc(names_view(final(v)@)),
        names_view(final(v)@).to_multiset() == names_view(old(v)@).to_multiset().insert(x@),
{
    let ghost s = names_view(v@);
    let ghost gx = x@;
    let n = v.len();
    let mut p: usize = 0;
    while p < n
        invariant
            n == v@.len(),
            s == names_view(v@),
            gx == x@,
            p <= n,
            forall|j: int| 0 <= j < p ==> !lex_le(#[trigger] s[j], gx),
        ensures
            p <= n,
            n == v@.len(),
            s == names_view(v@),
            gx == x@,
            p < n ==> lex_le(s[p as int], gx),
            forall|j: int| 0 <= j < p ==> !lex_le(#[trigger] s[j], gx),
        decreases n - p,
    {
        if str_le(v[p].as_str(), x.as_str()) {
            break;
        }
        p = p + 1;
    }
    let ghost prev = v@;
    v.insert(p, x);
    proof {
        prev.insert_ensures(p as int, x);
        s.insert_ensures(p as int, gx);
        let t = s.insert(p as int, gx);
        assert(names_view(v@) =~= t);
        assert forall|a: int, b: int| 0 <= a < b < t.len() implies lex_le(
            #[trigger] t[b],
            #[trigger] t[a],
        ) by {
            let pi = p as int;
            if b < pi {
                assert(t[a] == s[a] && t[b] == s[b]);
            } else if a < pi && b == pi {
                assert(t[a] == s[a] && t[b] == gx);
                lemma_lex_le_total(s[a], gx);
            } else if a < pi && b > pi {
                assert(t[a] == s[a] && t[b] == s[b - 1]);
                assert(lex_le(s[b - 1], s[a]));
            } else if a == pi && b > pi {
                assert(t[a] == gx && t[b] == s[b - 1]);
                assert(lex_le(s[pi], gx));
                if b - 1 > pi {
                    assert(lex_le(s[b - 1], s[pi]));
                    lemma_lex_le_transitive(s[b - 1], s[pi], gx);
                }
            } else {
                assert(t[a] == s[a - 1] && t[b] == s[b - 1]);
            }
        }
        lemma_insert_multiset(s, p as int, gx);
    }
}

} // verus!
