//! Substitution inside file and directory names. A name is rewritten only
//! when its first dot-delimited segment equals the token, and only that
//! leading occurrence is replaced, so multi-part extensions survive intact.

use vstd::prelude::*;
use vstd::string::StrSliceExecFns;
use vstd::string::StringExecFns;
use crate::text::matches_at;
use crate::text::matches_from;

verus! {

/// No dot occurs in `s`.
pub open spec fn dot_free(s: Seq<char>) -> bool {
    forall|i: int| 0 <= i < s.len() ==> #[trigger] s[i] != '.'
}

/// The first dot-delimited segment of `name` equals `from`: `from` holds no
/// dot, it is a prefix of `name`, and the name either ends there or a dot
/// follows.
pub open spec fn name_matches(name: Seq<char>, from: Seq<char>) -> bool {
    &&& dot_free(from)
    &&& from.is_prefix_of(name)
    &&& (name.len() == from.len() || name[from.len() as int] == '.')
}

/// The renamed form of `name`: the leading occurrence of `from` is replaced
/// by `to` and the remainder of the name is kept verbatim; a name that does
/// not match is kept whole.
pub open spec fn substituted_name_spec(name: Seq<char>, from: Seq<char>, to: Seq<char>) -> Seq<
    char,
> {
    if name_matches(name, from) {
        to + name.skip(from.len() as int)
    } else {
        name
    }
}

/// A replacement value whose own leading segment does not reintroduce the
/// token; under this condition renaming settles after one pass.
pub open spec fn rename_stable(from: Seq<char>, to: Seq<char>) -> bool {
    to == from || !name_matches(to, from)
}

/// Rename `name` when its first dot-delimited segment equals `from`.
pub fn substitute_name(name: &str, from: &str, to: &str) -> (r: String)
    ensures
        r@ == substituted_name_spec(name@, from@, to@),
{
    let n = name.unicode_len();
    let m = from.unicode_len();
    let mut i: usize = 0;
    while i < m
        invariant
            i <= m,
            m == from@.len(),
            forall|k: int| 0 <= k < i ==> #[trigger] from@[k] != '.',
        decreases m - i,
    {
        if from.get_char(i) == '.' {
            return String::from_str(name);
        }
        i += 1;
    }
    if m <= n && matches_from(name, from, 0) {
        if n == m || name.get_char(m) == '.' {
            proof {
                assert(from@.is_prefix_of(name@)) by {
                    assert(name@.subrange(0, m as int) =~= from@);
                }
            }
            let mut out = String::from_str(to);
            out.append(name.substring_char(m, n));
            return out;
        }
    }
    proof {
        if name_matches(name@, from@) {
            assert(name@.subrange(0, m as int) =~= from@);
            assert(matches_at(name@, from@, 0));
        }
    }
    String::from_str(name)
}

/// Renaming is idempotent: once the leading segment has been rewritten, a
/// second pass with the same token and replacement changes nothing, provided
/// the replacement's own leading segment does not equal the token.
pub proof fn lemma_substitute_name_idempotent(name: Seq<char>, from: Seq<char>, to: Seq<char>)
    requires
        rename_stable(from, to),
    ensures
        substituted_name_spec(substituted_name_spec(name, from, to), from, to)
            == substituted_name_spec(name, from, to),
{
    let m = from.len() as int;
    if name_matches(name, from) {
        let r = to + name.skip(m);
        if to == from {
            assert(r =~= name);
        } else if name_matches(r, from) {
            assert(!name_matches(to, from));
            if m <= to.len() {
                assert(from.is_prefix_of(to)) by {
                    assert forall|k: int| 0 <= k < m implies #[trigger] to.subrange(0, m)[k]
                        == from[k] by {
                        assert(r.subrange(0, m)[k] == from[k]);
                    }
                    assert(to.subrange(0, m) =~= from);
                }
                if to.len() == m {
                    assert(name_matches(to, from));
                } else {
                    assert(r[m] == to[m]);
                    assert(r.len() > m);
                    assert(to[m] == '.');
                    assert(name_matches(to, from));
                }
                assert(false);
            } else {
                // from runs past to into the kept remainder of the name
                assert(r.len() >= m);
                if name.len() == from.len() {
                    assert(r =~= to);
                    assert(false);
                } else {
                    assert(name[m] == '.');
                    assert(r[to.len() as int] == name.skip(m)[0]);
                    assert(r.subrange(0, m)[to.len() as int] == '.');
                    assert(from[to.len() as int] == '.');
                    assert(!dot_free(from));
                    assert(false);
                }
            }
        }
    }
}

} // verus!
