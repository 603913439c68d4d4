//! Text helpers: the trigram similarity key used to rank name-search
//! results, string equality, and the lexicographic order used to
//! enumerate stop names deterministically.
use vstd::prelude::*;
use vstd::string::StrSliceExecFns;

verus! {

/// The trigram similarity of the two strings, as the bit pattern of a
/// value in [0.0, 1.0]. A function of the two strings alone; the bit
/// patterns order as the similarities do, since the value is never
/// negative.
pub uninterp spec fn similarity_key_of(a: Seq<char>, b: Seq<char>) -> u32;

/// Relies on trigram's `similarity`: the Jaccard similarity of the two
/// strings' trigram sets (both lowercased and space-padded first), in
/// [0.0, 1.0], a deterministic function of the two strings alone.
#[verifier::external_body]
pub fn similarity_key(a: &str, b: &str) -> (r: u32)
    ensures
        r == similarity_key_of(a@, b@),
{
    trigram::similarity(a, b).to_bits()
}

/// String equality of a slice against an owned string.
pub fn str_eq_string(a: &str, b: &String) -> (r: bool)
    ensures
        r == (a@ == b@),
{
    let a_owned: String = a.to_owned();
    a_owned.eq(b)
}

/// Lexicographic order on character sequences, by scalar value.
pub open spec fn lex_le(a: Seq<char>, b: Seq<char>) -> bool
    decreases a.len(),
{
    if a.len() == 0 {
        true
    } else if b.len() == 0 {
        false
    } else if a[0] == b[0] {
        lex_le(a.drop_first(), b.drop_first())
    } else {
        (a[0] as int) < (b[0] as int)
    }
}

/// Skipping a common prefix does not change the lexicographic order.
proof fn lemma_lex_le_common_prefix(a: Seq<char>, b: Seq<char>, i: int)
    requires
        0 <= i <= a.len(),
        i <= b.len(),
        forall|j: int| 0 <= j < i ==> a[j] == b[j],
    ensures
        lex_le(a, b) == lex_le(a.skip(i), b.skip(i)),
    decreases i,
{
    if i == 0 {
        assert(a.skip(0) =~= a);
        assert(b.skip(0) =~= b);
    } else {
        assert(a.len() > 0 && b.len() > 0 && a[0] == b[0]);
        lemma_lex_le_common_prefix(a.drop_first(), b.drop_first(), i - 1);
        assert(a.drop_first().skip(i - 1) =~= a.skip(i));
        assert(b.drop_first().skip(i - 1) =~= b.skip(i));
    }
}

/// The order is reflexive.
pub proof fn lemma_lex_le_reflexive(a: Seq<char>)
    ensures
        lex_le(a, a),
    decreases a.len(),
{
    if a.len() > 0 {
        lemma_lex_le_reflexive(a.drop_first());
    }
}

/// The order is total: one of the two directions always holds.
pub proof fn lemma_lex_le_connected(a: Seq<char>, b: Seq<char>)
    ensures
        lex_le(a, b) || lex_le(b, a),
    decreases a.len(),
{
    if a.len() > 0 && b.len() > 0 {
        if a[0] == b[0] {
            lemma_lex_le_connected(a.drop_first(), b.drop_first());
        } else {
            assert((a[0] as int) != (b[0] as int));
        }
    }
}

/// The order is antisymmetric: both directions only for equal sequences.
pub proof fn lemma_lex_le_antisymmetric(a: Seq<char>, b: Seq<char>)
    requires
        lex_le(a, b),
        lex_le(b, a),
    ensures
        a == b,
    decreases a.len(),
{
    if a.len() == 0 {
        assert(b.len() == 0);
        assert(a =~= b);
    } else {
        assert(b.len() > 0);
        assert(a[0] == b[0]);
        lemma_lex_le_antisymmetric(a.drop_first(), b.drop_first());
        assert(a =~= seq![a[0]] + a.drop_first());
        assert(b =~= seq![b[0]] + b.drop_first());
    }
}

/// The order is transitive.
pub proof fn lemma_lex_le_transitive(a: Seq<char>, b: Seq<char>, c: Seq<char>)
    requires
        lex_le(a, b),
        lex_le(b, c),
    ensures
        lex_le(a, c),
    decreases a.len(),
{
    if a.len() > 0 && b.len() > 0 && c.len() > 0 {
        if a[0] == b[0] && b[0] == c[0] {
            lemma_lex_le_transitive(a.drop_first(), b.drop_first(), c.drop_first());
        }
    }
}

/// Lexicographic comparison of two strings, character by character.
pub fn str_lex_le(a: &String, b: &String) -> (r: bool)
    ensures
        r == lex_le(a@, b@),
{
    let a_len = a.as_str().unicode_len();
    let b_len = b.as_str().unicode_len();
    let mut i: usize = 0;
    loop
        invariant
            i <= a_len,
            i <= b_len,
            a_len == a@.len(),
            b_len == b@.len(),
            forall|j: int| 0 <= j < i ==> a@[j] == b@[j],
        ensures
            (i == a_len || i == b_len || a@[i as int] != b@[i as int]),
            i <= a_len,
            i <= b_len,
            forall|j: int| 0 <= j < i ==> a@[j] == b@[j],
        decreases a_len - i,
    {
        if i == a_len || i == b_len {
            break ;
        }
        let ca = a.as_str().get_char(i);
        let cb = b.as_str().get_char(i);
        if ca as u32 != cb as u32 {
            proof {
                assert(a@[i as int] == ca && b@[i as int] == cb);
            }
            break ;
        }
        i = i + 1;
    }
    proof {
        lemma_lex_le_common_prefix(a@, b@, i as int);
    }
    if i == a_len {
        proof {
            assert(a@.skip(i as int).len() == 0);
        }
        true
    } else if i == b_len {
        proof {
            assert(b@.skip(i as int).len() == 0);
            assert(a@.skip(i as int).len() > 0);
        }
        false
    } else {
        let ca = a.as_str().get_char(i);
        let cb = b.as_str().get_char(i);
        proof {
            assert(a@.skip(i as int)[0] == a@[i as int]);
            assert(b@.skip(i as int)[0] == b@[i as int]);
        }
        (ca as u32) < (cb as u32)
    }
}

} // verus!
