//! The mathematical value of a changed-file identifier, its total order,
//! and its display form.

use vstd::prelude::*;
use crate::text::{lex_lt, TextOrder, compare_str, lemma_lex_trichotomy, lemma_lex_transitive};

verus! {

/// What a changed-file identifier denotes: an optional namespace prefix
/// and a path, each a character sequence. Equality and ordering are over
/// the full (prefix, path) pair.
#[verifier::ext_equal]
pub struct FileName {
    pub prefix: Option<Seq<char>>,
    pub path: Seq<char>,
}

/// The view of an optional string.
pub open spec fn opt_view(o: Option<String>) -> Option<Seq<char>> {
    match o {
        Some(p) => Some(p@),
        None => None,
    }
}

/// Strict total order on file names: an absent prefix comes before any
/// present one; otherwise prefixes compare first and paths break ties.
pub open spec fn name_lt(a: FileName, b: FileName) -> bool {
    match (a.prefix, b.prefix) {
        (None, Some(_)) => true,
        (Some(_), None) => false,
        (None, None) => lex_lt(a.path, b.path),
        (Some(pa), Some(pb)) => lex_lt(pa, pb) || (pa == pb && lex_lt(a.path, b.path)),
    }
}

/// How a file name reads: the path alone, or `prefix@path`.
pub open spec fn display_of(n: FileName) -> Seq<char> {
    match n.prefix {
        None => n.path,
        Some(p) => p + "@"@ + n.path,
    }
}

/// `name_lt` is a strict total order: exactly one of the three relations
/// holds for any two file names.
pub proof fn lemma_name_trichotomy(a: FileName, b: FileName)
    ensures
        name_lt(a, b) || a == b || name_lt(b, a),
        name_lt(a, b) ==> a != b && !name_lt(b, a),
        a == b ==> !name_lt(a, b) && !name_lt(b, a),
{
    match (a.prefix, b.prefix) {
        (None, None) => {
            lemma_lex_trichotomy(a.path, b.path);
        },
        (Some(pa), Some(pb)) => {
            lemma_lex_trichotomy(pa, pb);
            lemma_lex_trichotomy(a.path, b.path);
        },
        _ => {},
    }
}

/// `name_lt` is transitive.
pub proof fn lemma_name_transitive(a: FileName, b: FileName, c: FileName)
    requires
        name_lt(a, b),
        name_lt(b, c),
    ensures
        name_lt(a, c),
{
    match (a.prefix, b.prefix, c.prefix) {
        (None, None, None) => {
            lemma_lex_transitive(a.path, b.path, c.path);
        },
        (Some(pa), Some(pb), Some(pc)) => {
            if lex_lt(pa, pb) && lex_lt(pb, pc) {
                lemma_lex_transitive(pa, pb, pc);
            } else if pa == pb && pb == pc {
                lemma_lex_transitive(a.path, b.path, c.path);
            }
        },
        _ => {},
    }
}

/// Every file name of the set, carrying the given prefix instead of its
/// own.
pub open spec fn prefixed(s: Set<FileName>, p: Seq<char>) -> Set<FileName> {
    Set::new(
        |y: FileName|
            exists|n: FileName|
                #[trigger] s.contains(n) && y == (FileName { prefix: Some(p), path: n.path }),
    )
}

/// Prefixing keeps only the prefix applied last: prefixing a set that
/// was already prefixed reads the same as prefixing the plain set,
/// so no file ever carries two prefixes.
pub proof fn lemma_prefix_last_wins(s: Set<FileName>, first: Seq<char>, second: Seq<char>)
    ensures
        prefixed(prefixed(s, first), second) == prefixed(s, second),
{
    assert forall|y: FileName|
        prefixed(prefixed(s, first), second).contains(y) implies prefixed(s, second).contains(
        y,
    ) by {
        let n = choose|n: FileName|
            #[trigger] prefixed(s, first).contains(n) && y == (FileName {
                prefix: Some(second),
                path: n.path,
            });
        let m = choose|m: FileName|
            #[trigger] s.contains(m) && n == (FileName { prefix: Some(first), path: m.path });
        assert(y == (FileName { prefix: Some(second), path: m.path }));
    }
    assert forall|y: FileName|
        prefixed(s, second).contains(y) implies prefixed(prefixed(s, first), second).contains(
        y,
    ) by {
        let m = choose|m: FileName|
            #[trigger] s.contains(m) && y == (FileName { prefix: Some(second), path: m.path });
        let n = FileName { prefix: Some(first), path: m.path };
        assert(prefixed(s, first).contains(n));
        assert(y == (FileName { prefix: Some(second), path: n.path }));
    }
    assert(prefixed(prefixed(s, first), second) =~= prefixed(s, second));
}

/// A sequence of file names that rises strictly under `name_lt`.
pub open spec fn strictly_sorted(s: Seq<FileName>) -> bool {
    forall|i: int, j: int| 0 <= i < j < s.len() ==> name_lt(s[i], s[j])
}

/// Two strictly sorted sequences with the same elements are the same
/// sequence: the sorted form is canonical.
pub proof fn lemma_sorted_canonical(a: Seq<FileName>, b: Seq<FileName>)
    requires
        strictly_sorted(a),
        strictly_sorted(b),
        a.to_set() == b.to_set(),
    ensures
        a == b,
    decreases a.len(),
{
    if a.len() == 0 {
        if b.len() > 0 {
            assert(b.to_set().contains(b[0]));
            assert(a.to_set().contains(b[0]));
        }
        assert(a =~= b);
    } else {
        assert(a.to_set().contains(a[0]));
        assert(b.to_set().contains(a[0]));
        let j = choose|j: int| 0 <= j < b.len() && b[j] == a[0];
        assert(b.to_set().contains(b[0]));
        assert(a.to_set().contains(b[0]));
        let i = choose|i: int| 0 <= i < a.len() && a[i] == b[0];
        assert(a[0] == b[0]) by {
            lemma_name_trichotomy(a[0], b[0]);
            if i > 0 {
                assert(name_lt(a[0], a[i]));
            }
            if j > 0 {
                assert(name_lt(b[0], b[j]));
            }
        }
        assert(a.drop_first().to_set() =~= a.to_set().remove(a[0])) by {
            assert forall|x: FileName| a.drop_first().to_set().contains(x) implies a.to_set()
                .remove(a[0]).contains(x) by {
                let k = choose|k: int| 0 <= k < a.drop_first().len() && a.drop_first()[k] == x;
                assert(a[k + 1] == x);
                assert(name_lt(a[0], a[k + 1]));
                lemma_name_trichotomy(a[0], x);
            }
            assert forall|x: FileName| a.to_set().remove(a[0]).contains(x) implies a.drop_first()
                .to_set().contains(x) by {
                let k = choose|k: int| 0 <= k < a.len() && a[k] == x;
                assert(k != 0);
                assert(a.drop_first()[k - 1] == x);
            }
        }
        assert(b.drop_first().to_set() =~= b.to_set().remove(b[0])) by {
            assert forall|x: FileName| b.drop_first().to_set().contains(x) implies b.to_set()
                .remove(b[0]).contains(x) by {
                let k = choose|k: int| 0 <= k < b.drop_first().len() && b.drop_first()[k] == x;
                assert(b[k + 1] == x);
                assert(name_lt(b[0], b[k + 1]));
                lemma_name_trichotomy(b[0], x);
            }
            assert forall|x: FileName| b.to_set().remove(b[0]).contains(x) implies b.drop_first()
                .to_set().contains(x) by {
                let k = choose|k: int| 0 <= k < b.len() && b[k] == x;
                assert(k != 0);
                assert(b.drop_first()[k - 1] == x);
            }
        }
        lemma_sorted_canonical(a.drop_first(), b.drop_first());
        assert forall|k: int| 0 <= k < a.len() implies a[k] == b[k] by {
            if k > 0 {
                assert(a.drop_first()[k - 1] == b.drop_first()[k - 1]);
            }
        }
        assert(a =~= b);
    }
}

/// Three-way comparison of a (prefix, path) pair of strings, proved
/// against `name_lt` on the corresponding file names.
pub fn compare_name(ap: &Option<String>, a: &String, bp: &Option<String>, b: &String) -> (o:
    TextOrder)
    ensures
        ({
            let na = FileName { prefix: opt_view(*ap), path: a@ };
            let nb = FileName { prefix: opt_view(*bp), path: b@ };
            match o {
                TextOrder::Before => name_lt(na, nb),
                TextOrder::Same => na == nb,
                TextOrder::After => name_lt(nb, na),
            }
        }),
{
    match (ap, bp) {
        (None, Some(_)) => TextOrder::Before,
        (Some(_), None) => TextOrder::After,
        (None, None) => compare_str(a.as_str(), b.as_str()),
        (Some(pa), Some(pb)) => {
            match compare_str(pa.as_str(), pb.as_str()) {
                TextOrder::Before => TextOrder::Before,
                TextOrder::After => TextOrder::After,
                TextOrder::Same => compare_str(a.as_str(), b.as_str()),
            }
        },
    }
}

} // verus!
