//! Literal, non-overlapping string substitution: the kernel that content
//! substitution applies to each text file, and that name substitution and
//! skeleton-id derivation reuse.

use vstd::prelude::*;
use vstd::string::StrSliceExecFns;
use vstd::string::StringExecFns;

verus! {

/// `pat` occurs in `s` starting at position `i`.
pub open spec fn matches_at(s: Seq<char>, pat: Seq<char>, i: int) -> bool {
    0 <= i && i + pat.len() <= s.len() && s.subrange(i, i + pat.len() as int) == pat
}

/// `pat` occurs somewhere in `s`.
pub open spec fn contains_token(s: Seq<char>, pat: Seq<char>) -> bool {
    exists|i: int| matches_at(s, pat, i)
}

/// The result of replacing every non-overlapping occurrence of `from` in `s`
/// by `to`, scanning left to right and resuming immediately past each matched
/// span. An empty `from` matches at every position, both ends included.
pub open spec fn replace_all_spec(s: Seq<char>, from: Seq<char>, to: Seq<char>) -> Seq<char>
    decreases s.len(),
{
    if from.len() == 0 {
        if s.len() == 0 {
            to
        } else {
            to + seq![s[0]] + replace_all_spec(s.skip(1), from, to)
        }
    } else if s.len() < from.len() {
        s
    } else if s.subrange(0, from.len() as int) == from {
        to + replace_all_spec(s.skip(from.len() as int), from, to)
    } else {
        seq![s[0]] + replace_all_spec(s.skip(1), from, to)
    }
}

/// What an empty-token replacement emits after its leading copy of `to`.
spec fn empty_token_tail(s: Seq<char>, to: Seq<char>) -> Seq<char>
    decreases s.len(),
{
    if s.len() == 0 {
        Seq::empty()
    } else {
        seq![s[0]] + to + empty_token_tail(s.skip(1), to)
    }
}

proof fn lemma_replace_empty_token(s: Seq<char>, from: Seq<char>, to: Seq<char>)
    requires
        from.len() == 0,
    ensures
        replace_all_spec(s, from, to) == to + empty_token_tail(s, to),
    decreases s.len(),
{
    if s.len() == 0 {
        assert(replace_all_spec(s, from, to) =~= to + empty_token_tail(s, to));
    } else {
        lemma_replace_empty_token(s.skip(1), from, to);
        assert(to + seq![s[0]] + (to + empty_token_tail(s.skip(1), to)) =~= to + (seq![s[0]]
            + to + empty_token_tail(s.skip(1), to)));
    }
}

/// No character is shared between `from` and `to`; replacing then cannot
/// splice a new occurrence of `from` out of kept text and inserted text.
pub open spec fn disjoint_alphabets(from: Seq<char>, to: Seq<char>) -> bool {
    forall|i: int, j: int|
        0 <= i < from.len() && 0 <= j < to.len() ==> #[trigger] from[i] != #[trigger] to[j]
}

/// A token that occurs nowhere in the input is left alone: replacement is
/// the identity on such input.
pub proof fn lemma_replace_all_absent(s: Seq<char>, from: Seq<char>, to: Seq<char>)
    requires
        from.len() > 0,
        !contains_token(s, from),
    ensures
        replace_all_spec(s, from, to) == s,
    decreases s.len(),
{
    let m = from.len() as int;
    if s.len() < from.len() {
    } else {
        assert(!matches_at(s, from, 0));
        assert(s.subrange(0, m) != from);
        assert forall|i: int| !matches_at(s.skip(1), from, i) by {
            if matches_at(s.skip(1), from, i) {
                assert(s.subrange(i + 1, i + 1 + m) =~= s.skip(1).subrange(i, i + m));
                assert(matches_at(s, from, i + 1));
            }
        }
        lemma_replace_all_absent(s.skip(1), from, to);
        assert(seq![s[0]] + s.skip(1) =~= s);
    }
}

/// A tail of `from` that starts some prefix of a replacement result must
/// have been present, unreplaced, at the head of the scanned text.
proof fn lemma_token_tail_prefix(s: Seq<char>, from: Seq<char>, to: Seq<char>, d: int)
    requires
        from.len() > 0,
        to.len() > 0,
        disjoint_alphabets(from, to),
        1 <= d <= from.len(),
        from.skip(d).is_prefix_of(replace_all_spec(s, from, to)),
    ensures
        from.skip(d).is_prefix_of(s),
    decreases from.len() - d,
{
    let m = from.len() as int;
    let f = from.skip(d);
    let r = replace_all_spec(s, from, to);
    if d == m {
        assert(f.len() == 0);
        assert(f =~= s.subrange(0, 0));
    } else {
        assert(f.len() > 0);
        assert(f[0] == from[d]);
        if s.len() < from.len() {
            // the result is s itself
        } else if s.subrange(0, m) == from {
            // the result starts with to, whose characters from avoids
            assert(r == to + replace_all_spec(s.skip(m), from, to));
            assert(r[0] == to[0]);
            assert(f[0] == r.subrange(0, f.len() as int)[0]);
            assert(false);
        } else {
            let r1 = replace_all_spec(s.skip(1), from, to);
            assert(r == seq![s[0]] + r1);
            assert(f[0] == r.subrange(0, f.len() as int)[0]);
            assert(f[0] == s[0]);
            assert(from.skip(d + 1).is_prefix_of(r1)) by {
                assert(from.skip(d + 1) =~= r1.subrange(0, from.skip(d + 1).len() as int)) by {
                    assert forall|k: int| 0 <= k < m - d - 1 implies #[trigger] from.skip(d + 1)[k]
                        == r1.subrange(0, from.skip(d + 1).len() as int)[k] by {
                        assert(from.skip(d + 1)[k] == from[d + 1 + k]);
                        assert(f[k + 1] == r.subrange(0, f.len() as int)[k + 1]);
                    }
                }
            }
            lemma_token_tail_prefix(s.skip(1), from, to, d + 1);
            assert(f =~= s.subrange(0, f.len() as int)) by {
                assert forall|k: int| 0 <= k < f.len() implies f[k] == s[k] by {
                    if k > 0 {
                        assert(from.skip(d + 1)[k - 1] == s.skip(1).subrange(
                            0,
                            from.skip(d + 1).len() as int,
                        )[k - 1]);
                    }
                }
            }
        }
    }
}

/// After replacement the token no longer occurs anywhere in the result,
/// provided `from` and `to` share no character and neither is empty.
pub proof fn lemma_replace_all_removes_token(s: Seq<char>, from: Seq<char>, to: Seq<char>)
    requires
        from.len() > 0,
        to.len() > 0,
        disjoint_alphabets(from, to),
    ensures
        !contains_token(replace_all_spec(s, from, to), from),
    decreases s.len(),
{
    let m = from.len() as int;
    let r = replace_all_spec(s, from, to);
    if s.len() < from.len() {
        assert forall|p: int| !matches_at(r, from, p) by {
            if matches_at(r, from, p) {
                assert(p + m <= s.len());
            }
        }
    } else if s.subrange(0, m) == from {
        let rr = replace_all_spec(s.skip(m), from, to);
        lemma_replace_all_removes_token(s.skip(m), from, to);
        assert(r == to + rr);
        assert forall|p: int| !matches_at(r, from, p) by {
            if matches_at(r, from, p) {
                if p < to.len() {
                    assert(r.subrange(p, p + m)[0] == to[p]);
                    assert(from[0] == to[p]);
                } else {
                    let q = p - to.len();
                    assert(rr.subrange(q, q + m) =~= r.subrange(p, p + m));
                    assert(matches_at(rr, from, q));
                }
            }
        }
    } else {
        let r1 = replace_all_spec(s.skip(1), from, to);
        lemma_replace_all_removes_token(s.skip(1), from, to);
        assert(r == seq![s[0]] + r1);
        assert forall|p: int| !matches_at(r, from, p) by {
            if matches_at(r, from, p) {
                if p == 0 {
                    assert(from.skip(1).is_prefix_of(r1)) by {
                        assert forall|k: int| 0 <= k < m - 1 implies from.skip(1)[k]
                            == r1.subrange(0, m - 1)[k] by {
                            assert(r.subrange(0, m)[k + 1] == from[k + 1]);
                        }
                        assert(from.skip(1) =~= r1.subrange(0, m - 1));
                    }
                    lemma_token_tail_prefix(s.skip(1), from, to, 1);
                    assert(s.subrange(0, m) =~= from) by {
                        assert forall|k: int| 0 <= k < m implies s.subrange(0, m)[k] == from[k] by {
                            if k == 0 {
                                assert(r.subrange(0, m)[0] == s[0]);
                            } else {
                                assert(from.skip(1)[k - 1] == s.skip(1).subrange(0, m - 1)[k - 1]);
                            }
                        }
                    }
                } else {
                    assert(r1.subrange(p - 1, p - 1 + m) =~= r.subrange(p, p + m));
                    assert(matches_at(r1, from, p - 1));
                }
            }
        }
    }
}

pub(crate) fn matches_from(s: &str, pat: &str, i: usize) -> (r: bool)
    requires
        i + pat@.len() <= s@.len(),
        s@.len() <= usize::MAX,
    ensures
        r == matches_at(s@, pat@, i as int),
{
    let m = pat.unicode_len();
    let mut j: usize = 0;
    while j < m
        invariant
            j <= m,
            m == pat@.len(),
            i + m <= s@.len() <= usize::MAX,
            forall|k: int| 0 <= k < j ==> s@[i + k] == pat@[k],
        decreases m - j,
    {
        if s.get_char(i + j) != pat.get_char(j) {
            assert(s@.subrange(i as int, i + m as int)[j as int] != pat@[j as int]);
            return false;
        }
        j += 1;
    }
    assert(s@.subrange(i as int, i + m as int) =~= pat@);
    true
}

/// Replace every non-overlapping literal occurrence of `from` in `s` by `to`.
pub fn replace_all(s: &str, from: &str, to: &str) -> (r: String)
    ensures
        r@ == replace_all_spec(s@, from@, to@),
{
    let n = s.unicode_len();
    let m = from.unicode_len();
    let mut out = String::new();
    if m == 0 {
        proof {
            lemma_replace_empty_token(s@, from@, to@);
        }
        out.append(to);
        let mut i: usize = 0;
        proof {
            assert(out@ =~= to@);
            assert(s@.skip(0) =~= s@);
        }
        while i < n
            invariant
                i <= n,
                n == s@.len(),
                out@ + empty_token_tail(s@.skip(i as int), to@) == replace_all_spec(
                    s@,
                    from@,
                    to@,
                ),
            decreases n - i,
        {
            let piece = s.substring_char(i, i + 1);
            out.append(piece);
            out.append(to);
            proof {
                let suf = s@.skip(i as int);
                assert(suf.skip(1) =~= s@.skip(i + 1));
                assert(piece@ =~= seq![suf[0]]);
                assert(out@ + empty_token_tail(s@.skip(i + 1), to@) =~= replace_all_spec(
                    s@,
                    from@,
                    to@,
                ));
            }
            i += 1;
        }
        proof {
            assert(s@.skip(n as int) =~= Seq::empty());
            assert(out@ =~= replace_all_spec(s@, from@, to@));
        }
        return out;
    }
    let mut i: usize = 0;
    proof {
        assert(s@.skip(0) =~= s@);
    }
    while i < n
        invariant
            i <= n,
            n == s@.len(),
            m == from@.len(),
            m >= 1,
            out@ + replace_all_spec(s@.skip(i as int), from@, to@) == replace_all_spec(
                s@,
                from@,
                to@,
            ),
        decreases n - i,
    {
        let ghost suf = s@.skip(i as int);
        if m <= n - i && matches_from(s, from, i) {
            out.append(to);
            proof {
                assert(suf.subrange(0, m as int) =~= s@.subrange(i as int, i + m as int));
                assert(suf.skip(m as int) =~= s@.skip(i + m));
                assert(out@ + replace_all_spec(s@.skip(i + m), from@, to@)
                    =~= replace_all_spec(s@, from@, to@));
            }
            i += m;
        } else if m <= n - i {
            let piece = s.substring_char(i, i + 1);
            out.append(piece);
            proof {
                assert(suf.subrange(0, m as int) =~= s@.subrange(i as int, i + m as int));
                assert(suf.skip(1) =~= s@.skip(i + 1));
                assert(piece@ =~= seq![suf[0]]);
                assert(out@ + replace_all_spec(s@.skip(i + 1), from@, to@)
                    =~= replace_all_spec(s@, from@, to@));
            }
            i += 1;
        } else {
            let rest = s.substring_char(i, n);
            out.append(rest);
            proof {
                assert(rest@ =~= suf);
                assert(out@ + replace_all_spec(s@.skip(n as int), from@, to@)
                    =~= replace_all_spec(s@, from@, to@));
            }
            i = n;
        }
    }
    proof {
        assert(s@.skip(n as int) =~= Seq::empty());
        assert(out@ =~= replace_all_spec(s@, from@, to@));
    }
    out
}

} // verus!
