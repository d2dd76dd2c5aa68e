use vstd::prelude::*;
use vstd::string::StrSliceExecFns;

verus! {

/// Strict lexicographic order on character sequences, comparing by code
/// point. This is the total, deterministic order the deletion candidate
/// list is sorted by.
pub open spec fn lex_lt(a: Seq<char>, b: Seq<char>) -> bool
    decreases a.len(),
{
    if b.len() == 0 {
        false
    } else if a.len() == 0 {
        true
    } else if a[0] != b[0] {
        a[0] < b[0]
    } else {
        lex_lt(a.drop_first(), b.drop_first())
    }
}

/// A sequence of paths in strictly ascending lexicographic order:
/// sorted, and therefore also free of duplicates.
pub open spec fn strictly_sorted(s: Seq<Seq<char>>) -> bool {
    forall|i: int, j: int| 0 <= i < j < s.len() ==> lex_lt(#[trigger] s[i], #[trigger] s[j])
}

pub proof fn lemma_lex_lt_irreflexive(a: Seq<char>)
    ensures
        !lex_lt(a, a),
    decreases a.len(),
{
    if a.len() > 0 {
        lemma_lex_lt_irreflexive(a.drop_first());
    }
}

pub proof fn lemma_lex_lt_connected(a: Seq<char>, b: Seq<char>)
    ensures
        a != b ==> lex_lt(a, b) || lex_lt(b, a),
    decreases a.len(),
{
    if a.len() == 0 && b.len() == 0 {
        assert(a =~= b);
    } else if a.len() == 0 || b.len() == 0 {
    } else if a[0] != b[0] {
    } else {
        lemma_lex_lt_connected(a.drop_first(), b.drop_first());
        assert(lex_lt(a, b) == lex_lt(a.drop_first(), b.drop_first()));
        assert(lex_lt(b, a) == lex_lt(b.drop_first(), a.drop_first()));
        if a.drop_first() == b.drop_first() {
            assert(a =~= b) by {
                assert(a.drop_first().len() == a.len() - 1);
                assert(b.drop_first().len() == b.len() - 1);
                assert(a.len() == b.len());
                assert forall|k: int| 0 <= k < a.len() implies a[k] == b[k] by {
                    if k > 0 {
                        assert(a[k] == a.drop_first()[k - 1]);
                        assert(b[k] == b.drop_first()[k - 1]);
                    }
                }
            }
        }
    }
}

pub proof fn lemma_lex_lt_transitive(a: Seq<char>, b: Seq<char>, c: Seq<char>)
    requires
        lex_lt(a, b),
        lex_lt(b, c),
    ensures
        lex_lt(a, c),
    decreases a.len(),
{
    if a.len() > 0 && b.len() > 0 && c.len() > 0 {
        if a[0] == b[0] && b[0] == c[0] {
            lemma_lex_lt_transitive(a.drop_first(), b.drop_first(), c.drop_first());
        }
    }
}

/// When two sequences agree on their first `i` characters, their order is
/// decided by what follows.
proof fn lemma_lex_lt_common_prefix(a: Seq<char>, b: Seq<char>, i: int)
    requires
        0 <= i <= a.len(),
        i <= b.len(),
        a.subrange(0, i) == b.subrange(0, i),
    ensures
        lex_lt(a, b) == lex_lt(a.skip(i), b.skip(i)),
    decreases i,
{
    if i == 0 {
        assert(a.skip(0) =~= a);
        assert(b.skip(0) =~= b);
    } else {
        assert(a[0] == a.subrange(0, i)[0]);
        assert(b[0] == b.subrange(0, i)[0]);
        assert(a.drop_first().subrange(0, i - 1) =~= b.drop_first().subrange(0, i - 1)) by {
            assert forall|k: int| 0 <= k < i - 1 implies
                #[trigger] a.drop_first().subrange(0, i - 1)[k]
                    == b.drop_first().subrange(0, i - 1)[k] by {
                assert(a.drop_first().subrange(0, i - 1)[k] == a.drop_first()[k]);
                assert(a.drop_first()[k] == a[k + 1]);
                assert(b.drop_first().subrange(0, i - 1)[k] == b.drop_first()[k]);
                assert(b.drop_first()[k] == b[k + 1]);
                assert(a.subrange(0, i)[k + 1] == b.subrange(0, i)[k + 1]);
                assert(a.subrange(0, i)[k + 1] == a[k + 1]);
                assert(b.subrange(0, i)[k + 1] == b[k + 1]);
            }
        }
        lemma_lex_lt_common_prefix(a.drop_first(), b.drop_first(), i - 1);
        assert(a.drop_first().skip(i - 1) =~= a.skip(i));
        assert(b.drop_first().skip(i - 1) =~= b.skip(i));
    }
}

/// Compares two strings in lexicographic code-point order.
pub fn str_lt(a: &str, b: &str) -> (r: bool)
    ensures
        r == lex_lt(a@, b@),
{
    let alen = a.unicode_len();
    let blen = b.unicode_len();
    let mut i: usize = 0;
    loop
        invariant
            alen == a@.len(),
            blen == b@.len(),
            i <= alen,
            i <= blen,
            a@.subrange(0, i as int) == b@.subrange(0, i as int),
        decreases alen - i,
    {
        if i == alen {
            proof {
                lemma_lex_lt_common_prefix(a@, b@, i as int);
            }
            return i < blen;
        }
        if i == blen {
            proof {
                lemma_lex_lt_common_prefix(a@, b@, i as int);
            }
            return false;
        }
        let ca = a.get_char(i);
        let cb = b.get_char(i);
        if ca != cb {
            proof {
                lemma_lex_lt_common_prefix(a@, b@, i as int);
                assert(a@.skip(i as int)[0] == a@[i as int]);
                assert(b@.skip(i as int)[0] == b@[i as int]);
            }
            return ca < cb;
        }
        proof {
            assert(a@.subrange(0, i + 1) =~= b@.subrange(0, i + 1)) by {
                assert forall|k: int| 0 <= k < i + 1 implies
                    #[trigger] a@.subrange(0, i + 1)[k] == b@.subrange(0, i + 1)[k] by {
                    if k < i {
                        assert(a@.subrange(0, i as int)[k] == b@.subrange(0, i as int)[k]);
                    }
                }
            }
        }
        i = i + 1;
    }
}

/// Inserts a path into a strictly sorted vector, keeping it strictly
/// sorted; a path already present is not inserted again.
fn insert_path(out: &mut Vec<String>, s: String)
    requires
        strictly_sorted(old(out).deep_view()),
    ensures
        strictly_sorted(final(out).deep_view()),
        forall|x: Seq<char>| final(out).deep_view().contains(x)
            <==> old(out).deep_view().contains(x) || x == s@,
{
    let n = out.len();
    let mut i: usize = 0;
    loop
        invariant
            i <= n,
            n == out.len(),
            out.deep_view() == old(out).deep_view(),
            strictly_sorted(out.deep_view()),
            forall|k: int| 0 <= k < i ==> lex_lt(#[trigger] out.deep_view()[k], s@),
        ensures
            i <= n,
            n == out.len(),
            out.deep_view() == old(out).deep_view(),
            forall|k: int| 0 <= k < i ==> lex_lt(#[trigger] out.deep_view()[k], s@),
            i < n ==> !lex_lt(out.deep_view()[i as int], s@),
        decreases n - i,
    {
        if i == n {
            break;
        }
        if !str_lt(out[i].as_str(), s.as_str()) {
            break;
        }
        i = i + 1;
    }
    if i < n && out[i] == s {
        return;
    }
    proof {
        if i < out.len() {
            lemma_lex_lt_connected(out.deep_view()[i as int], s@);
        }
    }
    let ghost pre = out.deep_view();
    out.insert(i, s);
    proof {
        assert(out.deep_view() =~= pre.insert(i as int, s@)) by {
            assert forall|k: int| 0 <= k < out.deep_view().len() implies
                #[trigger] out.deep_view()[k] == pre.insert(i as int, s@)[k] by {
                assert(out.deep_view()[k] == out@[k]@);
            }
        }
        assert forall|p: int, q: int| 0 <= p < q < out.deep_view().len() implies
            lex_lt(#[trigger] out.deep_view()[p], #[trigger] out.deep_view()[q]) by {
            let dv = out.deep_view();
            let ii = i as int;
            if p < ii && q == ii {
            } else if p == ii && q > ii {
                if q - 1 > ii {
                    lemma_lex_lt_transitive(s@, pre[ii], pre[q - 1]);
                }
            } else if p < ii && q > ii {
                if q - 1 > ii {
                    lemma_lex_lt_transitive(s@, pre[ii], pre[q - 1]);
                }
                lemma_lex_lt_transitive(pre[p], s@, pre[q - 1]);
            }
        }
        assert forall|x: Seq<char>|
            old(out).deep_view().contains(x) || x == s@ implies
            out.deep_view().contains(x) by {
            if x == s@ {
                assert(out.deep_view()[i as int] == x);
            } else {
                let k = choose|k: int| 0 <= k < pre.len() && pre[k] == x;
                if k < i as int {
                    assert(out.deep_view()[k] == x);
                } else {
                    assert(out.deep_view()[k + 1] == x);
                }
            }
        }
        assert forall|x: Seq<char>| out.deep_view().contains(x) implies
            old(out).deep_view().contains(x) || x == s@ by {
            let k = choose|k: int| 0 <= k < out.deep_view().len() && out.deep_view()[k] == x;
            if k < i as int {
                assert(pre[k] == x);
            } else if k > i as int {
                assert(pre[k - 1] == x);
            }
        }
    }
}

/// Sorts a list of paths lexicographically and removes duplicates: the
/// result is strictly ascending and holds exactly the paths of the input.
pub fn sort_dedup_paths(v: &Vec<String>) -> (r: Vec<String>)
    ensures
        strictly_sorted(r.deep_view()),
        forall|x: Seq<char>| r.deep_view().contains(x) <==> v.deep_view().contains(x),
{
    let mut out: Vec<String> = Vec::new();
    let mut i: usize = 0;
    while i < v.len()
        invariant
            i <= v.len(),
            strictly_sorted(out.deep_view()),
            forall|x: Seq<char>| out.deep_view().contains(x)
                <==> (exists|k: int| 0 <= k < i && #[trigger] v.deep_view()[k] == x),
        decreases v.len() - i,
    {
        let s = v[i].clone();
        assert(s@ == v.deep_view()[i as int]);
        insert_path(&mut out, s);
        i = i + 1;
    }
    out
}

/// Two strictly sorted sequences that hold the same paths are the same
/// sequence: a sorted, deduplicated list is determined by its set of
/// elements alone, whatever order they arrived in.
pub proof fn lemma_strictly_sorted_unique(a: Seq<Seq<char>>, b: Seq<Seq<char>>)
    requires
        strictly_sorted(a),
        strictly_sorted(b),
        forall|x: Seq<char>| a.contains(x) <==> b.contains(x),
    ensures
        a == b,
    decreases a.len(),
{
    if a.len() == 0 {
        if b.len() > 0 {
            assert(b.contains(b[0]));
            assert(a.contains(b[0]));
        }
        assert(a =~= b);
    } else if b.len() == 0 {
        assert(a.contains(a[0]));
        assert(b.contains(a[0]));
    } else {
        assert(a.contains(a[0]));
        assert(b.contains(b[0]));
        let j = choose|j: int| 0 <= j < b.len() && b[j] == a[0];
        let k = choose|k: int| 0 <= k < a.len() && a[k] == b[0];
        if j > 0 {
            assert(lex_lt(b[0], b[j]));
            if k > 0 {
                assert(lex_lt(a[0], a[k]));
                lemma_lex_lt_transitive(a[0], b[0], a[0]);
                lemma_lex_lt_irreflexive(a[0]);
            }
        }
        assert(a[0] == b[0]);
        let at = a.drop_first();
        let bt = b.drop_first();
        assert forall|x: Seq<char>| at.contains(x) implies bt.contains(x) by {
            let p = choose|p: int| 0 <= p < at.len() && at[p] == x;
            assert(a[p + 1] == x);
            assert(a.contains(x));
            let q = choose|q: int| 0 <= q < b.len() && b[q] == x;
            if q == 0 {
                assert(lex_lt(a[0], a[p + 1]));
                lemma_lex_lt_irreflexive(a[0]);
            }
            assert(bt[q - 1] == x);
        }
        assert forall|x: Seq<char>| bt.contains(x) implies at.contains(x) by {
            let p = choose|p: int| 0 <= p < bt.len() && bt[p] == x;
            assert(b[p + 1] == x);
            assert(b.contains(x));
            let q = choose|q: int| 0 <= q < a.len() && a[q] == x;
            if q == 0 {
                assert(lex_lt(b[0], b[p + 1]));
                lemma_lex_lt_irreflexive(b[0]);
            }
            assert(at[q - 1] == x);
        }
        assert(strictly_sorted(at)) by {
            assert forall|p: int, q: int| 0 <= p < q < at.len() implies
                lex_lt(#[trigger] at[p], #[trigger] at[q]) by {
                assert(lex_lt(a[p + 1], a[q + 1]));
            }
        }
        assert(strictly_sorted(bt)) by {
            assert forall|p: int, q: int| 0 <= p < q < bt.len() implies
                lex_lt(#[trigger] bt[p], #[trigger] bt[q]) by {
                assert(lex_lt(b[p + 1], b[q + 1]));
            }
        }
        lemma_strictly_sorted_unique(at, bt);
        assert(a =~= b) by {
            assert forall|p: int| 0 <= p < a.len() implies a[p] == b[p] by {
                if p > 0 {
                    assert(at[p - 1] == bt[p - 1]);
                }
            }
        }
    }
}

} // verus!
