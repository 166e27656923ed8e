//! Lexicographic order on strings, compared character by character, with the
//! order lemmas the ordered containers of the crate rest on.
use vstd::prelude::*;

verus! {

/// Three-way comparison outcome.
#[derive(Clone, Copy, PartialEq, Eq, Structural, Debug)]
pub enum Rank {
    Less,
    Equal,
    Greater,
}

pub open spec fn is_digit(c: char) -> bool {
    '0' <= c <= '9'
}

pub open spec fn digit_val(c: char) -> int {
    c as u32 - '0' as u32
}

/// Strict lexicographic order on character sequences: a proper prefix comes
/// first, otherwise the first differing character decides.
pub open spec fn str_lt(a: Seq<char>, b: Seq<char>) -> bool
    decreases a.len(),
{
    if b.len() == 0 {
        false
    } else if a.len() == 0 {
        true
    } else if a[0] == b[0] {
        str_lt(a.drop_first(), b.drop_first())
    } else {
        a[0] < b[0]
    }
}

pub open spec fn str_le(a: Seq<char>, b: Seq<char>) -> bool {
    str_lt(a, b) || a == b
}

fn str_cmp_from(a: &str, b: &str, i: usize) -> (o: Rank)
    requires
        i <= a@.len(),
        i <= b@.len(),
    ensures
        (o is Less) == str_lt(a@.skip(i as int), b@.skip(i as int)),
        (o is Equal) == (a@.skip(i as int) == b@.skip(i as int)),
        (o is Greater) == str_lt(b@.skip(i as int), a@.skip(i as int)),
    decreases a@.len() - i,
{
    let alen = a.unicode_len();
    let blen = b.unicode_len();
    if i == alen && i == blen {
        proof {
            assert(a@.skip(i as int) =~= b@.skip(i as int));
        }
        Rank::Equal
    } else if i == alen {
        proof {
            assert(a@.skip(i as int).len() == 0);
            assert(b@.skip(i as int).len() > 0);
        }
        Rank::Less
    } else if i == blen {
        proof {
            assert(b@.skip(i as int).len() == 0);
            assert(a@.skip(i as int).len() > 0);
        }
        Rank::Greater
    } else {
        let ca = a.get_char(i);
        let cb = b.get_char(i);
        proof {
            assert(a@.skip(i as int)[0] == ca);
            assert(b@.skip(i as int)[0] == cb);
        }
        if ca < cb {
            Rank::Less
        } else if cb < ca {
            Rank::Greater
        } else {
            let o = str_cmp_from(a, b, i + 1);
            proof {
                assert(a@.skip(i as int).drop_first() =~= a@.skip(i as int + 1));
                assert(b@.skip(i as int).drop_first() =~= b@.skip(i as int + 1));
                if a@.skip(i as int + 1) == b@.skip(i as int + 1) {
                    assert forall|j: int| 0 <= j < a@.skip(i as int).len() implies a@.skip(
                        i as int,
                    )[j] == b@.skip(i as int)[j] by {
                        if j > 0 {
                            assert(a@.skip(i as int)[j] == a@.skip(i as int + 1)[j - 1]);
                            assert(b@.skip(i as int)[j] == b@.skip(i as int + 1)[j - 1]);
                        }
                    }
                    assert(a@.skip(i as int) =~= b@.skip(i as int));
                }
            }
            o
        }
    }
}

/// Compares two strings in the order of `str_lt`.
pub fn str_cmp(a: &str, b: &str) -> (o: Rank)
    ensures
        (o is Less) == str_lt(a@, b@),
        (o is Equal) == (a@ == b@),
        (o is Greater) == str_lt(b@, a@),
{
    let o = str_cmp_from(a, b, 0);
    proof {
        assert(a@.skip(0) =~= a@);
        assert(b@.skip(0) =~= b@);
    }
    o
}

/// `str_lt` is a strict total order: exactly one of `a < b`, `a == b`,
/// `b < a` holds of any two strings.
pub proof fn lemma_str_lt_trichotomy(a: Seq<char>, b: Seq<char>)
    ensures
        str_lt(a, b) || str_lt(b, a) || a == b,
        str_lt(a, b) ==> !str_lt(b, a) && a != b,
        a == b ==> !str_lt(a, b),
    decreases a.len(),
{
    if a.len() > 0 && b.len() > 0 && a[0] == b[0] {
        lemma_str_lt_trichotomy(a.drop_first(), b.drop_first());
        if a.drop_first() == b.drop_first() {
            assert forall|j: int| 0 <= j < a.len() implies a[j] == b[j] by {
                if j > 0 {
                    assert(a[j] == a.drop_first()[j - 1]);
                    assert(b[j] == b.drop_first()[j - 1]);
                }
            }
            assert(a =~= b);
        }
    }
}

/// `str_lt` is transitive.
pub proof fn lemma_str_lt_trans(a: Seq<char>, b: Seq<char>, c: Seq<char>)
    requires
        str_lt(a, b),
        str_lt(b, c),
    ensures
        str_lt(a, c),
    decreases a.len(),
{
    if a.len() > 0 && b.len() > 0 && c.len() > 0 && a[0] == b[0] && b[0] == c[0] {
        lemma_str_lt_trans(a.drop_first(), b.drop_first(), c.drop_first());
    }
}

} // verus!
