//! The listing order: directories strictly before files, and within the same
//! classification, case-insensitive lexicographic order of the entry name.

use vstd::prelude::*;
use crate::entry::{FileEntry, FileEntryView};
use vstd::string::StrSliceExecFns;

verus! {

/// Strict lexicographic order on character sequences, by code point.
pub open spec fn lex_lt(a: Seq<char>, b: Seq<char>) -> bool
    decreases a.len(),
{
    if b.len() == 0 {
        false
    } else if a.len() == 0 {
        true
    } else if a[0] != b[0] {
        (a[0] as u32) < (b[0] as u32)
    } else {
        lex_lt(a.drop_first(), b.drop_first())
    }
}

/// `lex_lt` is asymmetric: no two sequences are each below the other.
pub proof fn lemma_lex_lt_asymmetric(a: Seq<char>, b: Seq<char>)
    ensures
        lex_lt(a, b) ==> !lex_lt(b, a),
    decreases a.len(),
{
    if a.len() > 0 && b.len() > 0 && a[0] == b[0] {
        lemma_lex_lt_asymmetric(a.drop_first(), b.drop_first());
    }
}

/// `lex_lt` is transitive.
pub proof fn lemma_lex_lt_transitive(a: Seq<char>, b: Seq<char>, c: Seq<char>)
    ensures
        lex_lt(a, b) && lex_lt(b, c) ==> lex_lt(a, c),
    decreases a.len(),
{
    if lex_lt(a, b) && lex_lt(b, c) {
        if a.len() > 0 && b.len() > 0 && c.len() > 0 && a[0] == b[0] && b[0] == c[0] {
            lemma_lex_lt_transitive(a.drop_first(), b.drop_first(), c.drop_first());
        }
    }
}

/// `lex_lt` is total: two sequences are ordered one way, the other, or equal.
pub proof fn lemma_lex_lt_total(a: Seq<char>, b: Seq<char>)
    ensures
        lex_lt(a, b) || lex_lt(b, a) || a == b,
    decreases a.len(),
{
    if a.len() == 0 && b.len() == 0 {
        assert(a =~= b);
    } else if a.len() == 0 {
        assert(lex_lt(a, b));
    } else if b.len() == 0 {
        assert(lex_lt(b, a));
    } else if a[0] != b[0] {
        assert(a[0] as u32 != b[0] as u32) by {
            vstd::utf8::char_u32_cast(a[0], a[0] as u32);
            vstd::utf8::char_u32_cast(b[0], b[0] as u32);
        }
        assert(lex_lt(a, b) || lex_lt(b, a));
    } else {
        lemma_lex_lt_total(a.drop_first(), b.drop_first());
        if lex_lt(a.drop_first(), b.drop_first()) {
            assert(lex_lt(a, b));
        } else if lex_lt(b.drop_first(), a.drop_first()) {
            assert(lex_lt(b, a));
        }
        if a.drop_first() == b.drop_first() {
            assert(a.drop_first().len() == b.drop_first().len());
            assert(a.len() == b.len());
            assert forall|i: int| 0 <= i < a.len() implies a[i] == b[i] by {
                if i > 0 {
                    assert(a[i] == a.drop_first()[i - 1]);
                    assert(b[i] == b.drop_first()[i - 1]);
                }
            }
            assert(a =~= b);
        }
    }
}


/// The case folding used by the order, a function of the characters alone.
pub uninterp spec fn lower_of(s: Seq<char>) -> Seq<char>;

/// Relies on str::to_lowercase: the Unicode lowercase mapping of the
/// characters, independent of locale, machine and call site.
#[verifier::external_body]
fn lowercase(s: &str) -> (r: String)
    ensures
        r@ == lower_of(s@),
{
    s.to_lowercase()
}

/// The strict listing order: any directory precedes any file, and entries of
/// the same classification are ordered by case-folded name.
pub open spec fn entry_lt(a: FileEntryView, b: FileEntryView) -> bool {
    (a.is_directory && !b.is_directory) || (a.is_directory == b.is_directory && lex_lt(
        lower_of(a.name),
        lower_of(b.name),
    ))
}

/// Two entries the listing order ties: neither is strictly below the other.
pub open spec fn entry_tied(a: FileEntryView, b: FileEntryView) -> bool {
    !entry_lt(a, b) && !entry_lt(b, a)
}

/// The order ties exactly the pairs with the same classification and equal
/// case-folded names.
pub proof fn lemma_entry_tied_characterised(a: FileEntryView, b: FileEntryView)
    ensures
        entry_tied(a, b) <==> (a.is_directory == b.is_directory && lower_of(a.name) == lower_of(
            b.name,
        )),
{
    lemma_lex_lt_total(lower_of(a.name), lower_of(b.name));
    lemma_lex_lt_asymmetric(lower_of(a.name), lower_of(b.name));
}

/// `entry_lt` is asymmetric.
pub proof fn lemma_entry_lt_asymmetric(a: FileEntryView, b: FileEntryView)
    ensures
        entry_lt(a, b) ==> !entry_lt(b, a),
{
    lemma_lex_lt_asymmetric(lower_of(a.name), lower_of(b.name));
}

/// `entry_lt` is connected across any third entry: whenever `a` is strictly
/// below `b`, any `c` is either strictly above `a` or strictly below `b`.
pub proof fn lemma_entry_lt_connected(a: FileEntryView, b: FileEntryView, c: FileEntryView)
    ensures
        entry_lt(a, b) ==> entry_lt(a, c) || entry_lt(c, b),
{
    if entry_lt(a, b) && a.is_directory == b.is_directory && c.is_directory == a.is_directory {
        lemma_lex_lt_total(lower_of(a.name), lower_of(c.name));
        lemma_lex_lt_transitive(lower_of(c.name), lower_of(a.name), lower_of(b.name));
    }
}

/// Decides `lex_lt` on the views of two strings.
pub fn str_lt(a: &str, b: &str) -> (r: bool)
    ensures
        r == lex_lt(a@, b@),
{
    let alen: usize = a.unicode_len();
    let blen: usize = b.unicode_len();
    let mut i: usize = 0;
    proof {
        assert(a@.skip(0) =~= a@);
        assert(b@.skip(0) =~= b@);
    }
    loop
        invariant
            i <= alen,
            i <= blen,
            alen == a@.len(),
            blen == b@.len(),
            lex_lt(a@, b@) == lex_lt(a@.skip(i as int), b@.skip(i as int)),
        decreases alen - i,
    {
        if i == alen {
            assert(a@.skip(i as int).len() == 0);
            return i < blen;
        }
        if i == blen {
            assert(b@.skip(i as int).len() == 0);
            return false;
        }
        let ca: char = a.get_char(i);
        let cb: char = b.get_char(i);
        assert(a@.skip(i as int)[0] == a@[i as int] && b@.skip(i as int)[0] == b@[i as int]);
        if ca == cb {
            proof {
                lemma_lex_lt_skip_one(a@, b@, i as int);
            }
            i = i + 1;
        } else {
            return (ca as u32) < (cb as u32);
        }
    }
}

/// Skipping one more shared character on both sides leaves `lex_lt` unchanged.
proof fn lemma_lex_lt_skip_one(a: Seq<char>, b: Seq<char>, i: int)
    requires
        0 <= i < a.len(),
        i < b.len(),
        a[i] == b[i],
    ensures
        lex_lt(a.skip(i), b.skip(i)) == lex_lt(a.skip(i + 1), b.skip(i + 1)),
{
    assert(a.skip(i).drop_first() =~= a.skip(i + 1));
    assert(b.skip(i).drop_first() =~= b.skip(i + 1));
}

/// Decides the listing order on two entries.
pub fn entry_before(a: &FileEntry, b: &FileEntry) -> (r: bool)
    ensures
        r == entry_lt(a@, b@),
{
    if a.is_directory && !b.is_directory {
        true
    } else if !a.is_directory && b.is_directory {
        false
    } else {
        let la: String = lowercase(a.name.as_str());
        let lb: String = lowercase(b.name.as_str());
        str_lt(la.as_str(), lb.as_str())
    }
}

} // verus!
