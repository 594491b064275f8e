//! Lexicographic ordering of character sequences, and an executable
//! three-way comparison of strings proved against it.

use vstd::prelude::*;

verus! {

/// Strict lexicographic order on character sequences, by code point.
pub open spec fn lex_lt(a: Seq<char>, b: Seq<char>) -> bool
    decreases a.len() + b.len(),
{
    if b.len() == 0 {
        false
    } else if a.len() == 0 {
        true
    } else if (a[0] as u32) < (b[0] as u32) {
        true
    } else if a[0] == b[0] {
        lex_lt(a.drop_first(), b.drop_first())
    } else {
        false
    }
}

/// Outcome of a three-way comparison.
pub enum TextOrder {
    Before,
    Same,
    After,
}

/// Distinct characters have distinct code points.
pub proof fn lemma_char_code_injective(a: char, b: char)
    requires
        (a as u32) == (b as u32),
    ensures
        a == b,
{
    vstd::utf8::char_u32_cast(a, a as u32);
    vstd::utf8::char_u32_cast(b, b as u32);
}

/// At most one of `lex_lt(a, b)`, `a == b`, `lex_lt(b, a)` holds, and at
/// least one does: the order is total.
pub proof fn lemma_lex_trichotomy(a: Seq<char>, b: Seq<char>)
    ensures
        lex_lt(a, b) || a == b || lex_lt(b, a),
        lex_lt(a, b) ==> a != b && !lex_lt(b, a),
        a == b ==> !lex_lt(a, b) && !lex_lt(b, a),
    decreases a.len() + b.len(),
{
    if a.len() == 0 && b.len() == 0 {
        assert(a =~= b);
    } else if a.len() > 0 && b.len() > 0 {
        if a[0] == b[0] {
            lemma_lex_trichotomy(a.drop_first(), b.drop_first());
            if a.drop_first() == b.drop_first() {
                assert forall|i: int| 0 <= i < a.len() implies a[i] == b[i] by {
                    if i > 0 {
                        assert(a.drop_first()[i - 1] == a[i]);
                        assert(b.drop_first()[i - 1] == b[i]);
                    }
                }
                assert(a =~= b);
            }
            if a == b {
                assert(a.drop_first() =~= b.drop_first());
            }
        } else {
            assert((a[0] as u32) != (b[0] as u32)) by {
                if (a[0] as u32) == (b[0] as u32) {
                    lemma_char_code_injective(a[0], b[0]);
                }
            }
        }
    }
}

/// The lexicographic order is transitive.
pub proof fn lemma_lex_transitive(a: Seq<char>, b: Seq<char>, c: Seq<char>)
    requires
        lex_lt(a, b),
        lex_lt(b, c),
    ensures
        lex_lt(a, c),
    decreases a.len() + b.len() + c.len(),
{
    if a.len() == 0 {
        assert(b.len() > 0 && c.len() > 0);
    } else {
        assert(b.len() > 0 && c.len() > 0);
        if a[0] == b[0] && b[0] == c[0] {
            lemma_lex_transitive(a.drop_first(), b.drop_first(), c.drop_first());
        }
    }
}

/// A sequence that agrees with a longer one on its whole length comes first.
proof fn lemma_lex_lt_at(a: Seq<char>, b: Seq<char>, i: int)
    requires
        0 <= i <= a.len(),
        i <= b.len(),
        forall|k: int| 0 <= k < i ==> a[k] == b[k],
        (i < a.len() && i < b.len() && (a[i] as u32) < (b[i] as u32)) || (i == a.len() && i
            < b.len()),
    ensures
        lex_lt(a, b),
    decreases i,
{
    if i == 0 {
    } else {
        assert(a[0] == b[0]);
        assert forall|k: int| 0 <= k < i - 1 implies a.drop_first()[k] == b.drop_first()[k] by {
            assert(a.drop_first()[k] == a[k + 1]);
        }
        if i < a.len() && i < b.len() {
            assert(a.drop_first()[i - 1] == a[i]);
            assert(b.drop_first()[i - 1] == b[i]);
        }
        lemma_lex_lt_at(a.drop_first(), b.drop_first(), i - 1);
    }
}

/// Three-way comparison of two strings under `lex_lt` on their views.
pub fn compare_str(a: &str, b: &str) -> (o: TextOrder)
    ensures
        match o {
            TextOrder::Before => lex_lt(a@, b@),
            TextOrder::Same => a@ == b@,
            TextOrder::After => lex_lt(b@, a@),
        },
{
    let a_len: usize = a.unicode_len();
    let b_len: usize = b.unicode_len();
    let mut i: usize = 0;
    loop
        invariant
            0 <= i <= a_len,
            i <= b_len,
            a_len == a@.len(),
            b_len == b@.len(),
            forall|k: int| 0 <= k < i ==> a@[k] == b@[k],
        ensures
            i <= a_len,
            i <= b_len,
            forall|k: int| 0 <= k < i ==> a@[k] == b@[k],
            i == a_len || i == b_len || (a@[i as int] as u32) != (b@[i as int] as u32),
        decreases a_len - i,
    {
        if i == a_len || i == b_len {
            break ;
        }
        let ca: char = a.get_char(i);
        let cb: char = b.get_char(i);
        if (ca as u32) != (cb as u32) {
            break ;
        }
        proof {
            lemma_char_code_injective(ca, cb);
        }
        assert(a@[i as int] == b@[i as int]);
        i = i + 1;
    }
    if i < a_len && i < b_len {
        let ca: char = a.get_char(i);
        let cb: char = b.get_char(i);
        if (ca as u32) < (cb as u32) {
            proof {
                lemma_lex_lt_at(a@, b@, i as int);
            }
            TextOrder::Before
        } else {
            proof {
                lemma_lex_lt_at(b@, a@, i as int);
            }
            TextOrder::After
        }
    } else if a_len < b_len {
        proof {
            lemma_lex_lt_at(a@, b@, i as int);
        }
        TextOrder::Before
    } else if b_len < a_len {
        proof {
            lemma_lex_lt_at(b@, a@, i as int);
        }
        TextOrder::After
    } else {
        proof {
            assert(a@ =~= b@);
        }
        TextOrder::Same
    }
}

} // verus!
