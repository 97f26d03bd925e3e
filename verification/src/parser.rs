//! Validation and decomposition of compound record identifiers of the shape
//! `table:⟨inner⟩`, together with the inverse rendering helpers.
//!
//! The identifier grammar is modelled over sequences of Unicode scalar
//! values: the functions below state their contracts over `Seq<char>` views
//! of the input strings.

use vstd::prelude::*;
use crate::errors::IdError;

verus! {

/// The opening delimiter wrapping a well-formed inner identifier.
pub const OPEN_DELIMITER: char = '⟨';

/// The closing delimiter wrapping a well-formed inner identifier.
pub const CLOSE_DELIMITER: char = '⟩';

/// How often the character `c` occurs in `s`.
pub open spec fn count_char(s: Seq<char>, c: char) -> nat
    decreases s.len(),
{
    if s.len() == 0 {
        0
    } else {
        count_char(s.drop_last(), c) + if s.last() == c {
            1nat
        } else {
            0nat
        }
    }
}

/// The index of the first `:` in `s`, or `s.len()` when `s` has none.
pub open spec fn first_colon(s: Seq<char>) -> int
    decreases s.len(),
{
    if s.len() == 0 {
        0
    } else if s[0] == ':' {
        0
    } else {
        1 + first_colon(s.drop_first())
    }
}

/// Whether `s` contains a `:` separator.
pub open spec fn has_colon(s: Seq<char>) -> bool {
    first_colon(s) < s.len()
}

/// The identifier segment of the input: everything after the first `:`,
/// or the whole input when no `:` is present.
pub open spec fn id_part(s: Seq<char>) -> Seq<char> {
    if has_colon(s) {
        s.subrange(first_colon(s) + 1, s.len() as int)
    } else {
        s
    }
}

/// The table segment of the input: everything before the first `:`, or the
/// caller-supplied expected table when no `:` is present (the implicit
/// default).
pub open spec fn table_part(s: Seq<char>, expected: Seq<char>) -> Seq<char> {
    if has_colon(s) {
        s.subrange(0, first_colon(s))
    } else {
        expected
    }
}

/// The well-formed delimiter condition: the identifier segment is wrapped in
/// the open and close delimiters, and each delimiter occurs exactly once in
/// the whole input (not merely in the identifier segment).
pub open spec fn well_delimited(s: Seq<char>) -> bool {
    &&& id_part(s).len() > 0
    &&& id_part(s).first() == OPEN_DELIMITER
    &&& id_part(s).last() == CLOSE_DELIMITER
    &&& count_char(s, OPEN_DELIMITER) == 1
    &&& count_char(s, CLOSE_DELIMITER) == 1
}

/// The inner identifier of a well-delimited input: the identifier segment
/// with its leading open and trailing close delimiter stripped.
pub open spec fn inner_id(s: Seq<char>) -> Seq<char> {
    id_part(s).subrange(1, id_part(s).len() - 1)
}

/// `first_colon` is a position no greater than the length, points at a `:`
/// when it is inside the sequence, and nothing before it is a `:`.
proof fn lemma_first_colon_bounds(s: Seq<char>)
    ensures
        0 <= first_colon(s) <= s.len(),
        first_colon(s) < s.len() ==> s[first_colon(s)] == ':',
        forall|j: int| 0 <= j < first_colon(s) ==> s[j] != ':',
    decreases s.len(),
{
    if s.len() != 0 && s[0] != ':' {
        lemma_first_colon_bounds(s.drop_first());
        assert forall|j: int| 0 <= j < first_colon(s) implies s[j] != ':' by {
            if j > 0 {
                assert(s.drop_first()[j - 1] == s[j]);
            }
        }
    }
}

/// A position with no `:` before it that either sits on a `:` or at the end
/// of the sequence is exactly `first_colon`.
proof fn lemma_first_colon_is(s: Seq<char>, k: int)
    requires
        0 <= k <= s.len(),
        forall|j: int| 0 <= j < k ==> s[j] != ':',
        k < s.len() ==> s[k] == ':',
    ensures
        first_colon(s) == k,
    decreases s.len(),
{
    if s.len() != 0 && k > 0 {
        assert(s[0] != ':');
        assert forall|j: int| 0 <= j < k - 1 implies s.drop_first()[j] != ':' by {
            assert(s.drop_first()[j] == s[j + 1]);
        }
        lemma_first_colon_is(s.drop_first(), k - 1);
    }
}

/// Counting over a one-longer prefix adds one exactly when the new character
/// is the counted one.
proof fn lemma_count_char_extend(s: Seq<char>, c: char, i: int)
    requires
        0 <= i < s.len(),
    ensures
        count_char(s.subrange(0, i + 1), c) == count_char(s.subrange(0, i), c) + if s[i] == c {
            1int
        } else {
            0int
        },
{
    assert(s.subrange(0, i + 1).drop_last() =~= s.subrange(0, i));
    assert(s.subrange(0, i + 1).last() == s[i]);
}

/// Counting distributes over concatenation.
proof fn lemma_count_char_add(a: Seq<char>, b: Seq<char>, c: char)
    ensures
        count_char(a + b, c) == count_char(a, c) + count_char(b, c),
    decreases b.len(),
{
    if b.len() == 0 {
        assert(a + b =~= a);
    } else {
        assert((a + b).drop_last() =~= a + b.drop_last());
        assert((a + b).last() == b.last());
        lemma_count_char_add(a, b.drop_last(), c);
    }
}

/// A character's count is zero exactly when it occurs nowhere in `s`. This
/// bridges the counts in the laws' preconditions and pointwise knowledge of
/// a concrete string.
pub proof fn lemma_count_char_zero(s: Seq<char>, c: char)
    ensures
        count_char(s, c) == 0 <==> (forall|i: int| 0 <= i < s.len() ==> s[i] != c),
    decreases s.len(),
{
    if s.len() != 0 {
        lemma_count_char_zero(s.drop_last(), c);
        assert forall|i: int| 0 <= i < s.len() && count_char(s, c) == 0 implies s[i] != c by {
            if i < s.len() - 1 {
                assert(s.drop_last()[i] == s[i]);
            }
        }
        if forall|i: int| 0 <= i < s.len() ==> s[i] != c {
            assert forall|i: int| 0 <= i < s.drop_last().len() implies s.drop_last()[i] != c by {
                assert(s.drop_last()[i] == s[i]);
            }
            assert(s.last() != c);
        }
    }
}

/// The index of the first `:` of `s`, or its character length when `s`
/// contains none.
fn find_first_colon(s: &str) -> (r: usize)
    ensures
        r == first_colon(s@),
        r <= s@.len(),
{
    let n = s.unicode_len();
    let mut i: usize = 0;
    loop
        invariant
            0 <= i <= n,
            n == s@.len(),
            forall|j: int| 0 <= j < i ==> s@[j] != ':',
        decreases n - i,
    {
        if i == n {
            proof {
                lemma_first_colon_is(s@, i as int);
            }
            return i;
        }
        if s.get_char(i) == ':' {
            proof {
                lemma_first_colon_is(s@, i as int);
            }
            return i;
        }
        i = i + 1;
    }
}

/// How often the character `c` occurs in `s`.
fn count_occurrences(s: &str, c: char) -> (r: usize)
    ensures
        r == count_char(s@, c),
{
    let n = s.unicode_len();
    let mut count: usize = 0;
    let mut i: usize = 0;
    proof {
        assert(s@.subrange(0, 0) =~= Seq::<char>::empty());
    }
    loop
        invariant
            0 <= i <= n,
            n == s@.len(),
            count == count_char(s@.subrange(0, i as int), c),
            count <= i,
        decreases n - i,
    {
        if i == n {
            proof {
                assert(s@.subrange(0, n as int) =~= s@);
            }
            return count;
        }
        proof {
            lemma_count_char_extend(s@, c, i as int);
        }
        if s.get_char(i) == c {
            count = count + 1;
        }
        i = i + 1;
    }
}

/// Whether two string slices hold the same sequence of characters.
fn str_eq(a: &str, b: &str) -> (r: bool)
    ensures
        r == (a@ == b@),
{
    let na = a.unicode_len();
    let nb = b.unicode_len();
    if na != nb {
        return false;
    }
    let mut i: usize = 0;
    loop
        invariant
            0 <= i <= na,
            na == a@.len(),
            na == b@.len(),
            forall|j: int| 0 <= j < i ==> a@[j] == b@[j],
        decreases na - i,
    {
        if i == na {
            proof {
                assert(a@ =~= b@);
            }
            return true;
        }
        let ca = a.get_char(i);
        let cb = b.get_char(i);
        if ca != cb {
            return false;
        }
        i = i + 1;
    }
}

/// Validates and decomposes an identifier string into a table name and an
/// inner identifier.
///
/// An empty input is rejected. A colon-qualified, well-delimited input
/// `table:⟨inner⟩` yields `(table, inner)` after the table segment has been
/// checked against `expected_table`; without a colon the expected table
/// stands in for the missing segment. A colon-qualified input whose
/// delimiter structure is not well formed is rejected as malformed, carrying
/// the input verbatim. A colon-free input without well-formed delimiters is
/// accepted unchanged as a bare inner identifier under the expected table.
pub fn parse(input: &str, expected_table: &str) -> (r: Result<(String, String), IdError>)
    requires
        expected_table@.len() > 0,
    ensures
        ({
            let s = input@;
            let t = expected_table@;
            &&& s.len() == 0 ==> (r matches Err(IdError::IdCannotBeEmpty))
            &&& s.len() > 0 && well_delimited(s) && inner_id(s).len() == 0 ==> (r matches Err(
                IdError::IdCannotBeEmpty,
            ))
            &&& s.len() > 0 && well_delimited(s) && inner_id(s).len() > 0 && table_part(s, t) != t
                ==> (r matches Err(IdError::InvalidTable(want, got)) && want@ == t && got@
                == table_part(s, t))
            &&& s.len() > 0 && well_delimited(s) && inner_id(s).len() > 0 && table_part(s, t) == t
                ==> (r matches Ok(p) && p.0@ == t && p.1@ == inner_id(s))
            &&& s.len() > 0 && !well_delimited(s) && has_colon(s) ==> (r matches Err(
                IdError::InvalidIdFormat(original),
            ) && original@ == s)
            &&& s.len() > 0 && !well_delimited(s) && !has_colon(s) ==> (r matches Ok(p) && p.0@
                == t && p.1@ == s)
        }),
{
    let n = input.unicode_len();
    if n == 0 {
        return Err(IdError::IdCannotBeEmpty);
    }
    let ci = find_first_colon(input);
    let open_count = count_occurrences(input, OPEN_DELIMITER);
    let close_count = count_occurrences(input, CLOSE_DELIMITER);
    let id_lo: usize = if ci < n {
        ci + 1
    } else {
        0
    };
    proof {
        if ci < n {
            assert(id_part(input@) == input@.subrange(id_lo as int, n as int));
        } else {
            assert(id_part(input@) =~= input@.subrange(id_lo as int, n as int));
        }
    }
    let is_valid_format = id_lo < n && input.get_char(id_lo) == OPEN_DELIMITER && input.get_char(
        n - 1,
    ) == CLOSE_DELIMITER && open_count == 1 && close_count == 1;
    proof {
        if id_lo < n {
            assert(id_part(input@).first() == input@[id_lo as int]);
            assert(id_part(input@).last() == input@[n - 1]);
        }
        assert(is_valid_format == well_delimited(input@));
    }
    if is_valid_format {
        proof {
            assert(id_lo != n - 1);
        }
        let inner = input.substring_char(id_lo + 1, n - 1);
        proof {
            assert(inner@ =~= inner_id(input@));
        }
        if inner.unicode_len() == 0 {
            return Err(IdError::IdCannotBeEmpty);
        }
        if ci < n {
            let table = input.substring_char(0, ci);
            proof {
                assert(table@ == table_part(input@, expected_table@));
            }
            if !str_eq(table, expected_table) {
                return Err(
                    IdError::InvalidTable(
                        String::from_str(expected_table),
                        String::from_str(table),
                    ),
                );
            }
        }
        return Ok((String::from_str(expected_table), String::from_str(inner)));
    }
    if ci < n {
        return Err(IdError::InvalidIdFormat(String::from_str(input)));
    }
    Ok((String::from_str(expected_table), String::from_str(input)))
}

/// An inner identifier wrapped in the open and close delimiters.
pub open spec fn wrapped(inner: Seq<char>) -> Seq<char> {
    seq![OPEN_DELIMITER] + inner + seq![CLOSE_DELIMITER]
}

/// Whether `c` is neither the open nor the close delimiter.
pub open spec fn is_not_delimiter(c: char) -> bool {
    c != OPEN_DELIMITER && c != CLOSE_DELIMITER
}

/// `s` with every open and close delimiter removed.
pub open spec fn strip_delimiters(s: Seq<char>) -> Seq<char> {
    s.filter(|c: char| is_not_delimiter(c))
}

/// Wraps an inner identifier in the delimiters: `inner` becomes `⟨inner⟩`.
/// No validation happens here; the caller guarantees the payload is valid.
pub fn render_with_delimiters(inner_id: &str) -> (r: String)
    ensures
        r@ == wrapped(inner_id@),
{
    proof {
        reveal_strlit("⟨");
        reveal_strlit("⟩");
    }
    let mut r = String::from_str("⟨");
    r.append(inner_id);
    r.append("⟩");
    proof {
        assert(r@ =~= wrapped(inner_id@));
    }
    r
}

/// Extracts the displayable payload from a stored identifier form: any
/// leading table segment up to and including the first `:` is dropped, and
/// every delimiter character is filtered out wherever it occurs. This is a
/// tolerant, best-effort extraction, not a validator: it never fails,
/// whatever shape the stored form has.
pub fn render_without_delimiters(stored: &str) -> (r: String)
    ensures
        r@ == strip_delimiters(id_part(stored@)),
{
    let n = stored.unicode_len();
    let ci = find_first_colon(stored);
    let lo: usize = if ci < n {
        ci + 1
    } else {
        0
    };
    proof {
        if ci < n {
            assert(id_part(stored@) == stored@.subrange(lo as int, n as int));
        } else {
            assert(id_part(stored@) =~= stored@.subrange(lo as int, n as int));
        }
    }
    let mut r = String::new();
    let mut i: usize = lo;
    proof {
        assert(stored@.subrange(lo as int, lo as int) =~= Seq::<char>::empty());
        assert(Seq::<char>::empty().filter(|c: char| is_not_delimiter(c)) =~= Seq::<
            char,
        >::empty()) by {
            reveal(Seq::filter);
        }
    }
    loop
        invariant
            lo <= i <= n,
            n == stored@.len(),
            id_part(stored@) == stored@.subrange(lo as int, n as int),
            r@ == strip_delimiters(stored@.subrange(lo as int, i as int)),
        decreases n - i,
    {
        if i == n {
            return r;
        }
        let c = stored.get_char(i);
        proof {
            lemma_strip_delimiters_extend(stored@, lo as int, i as int);
        }
        if c != OPEN_DELIMITER && c != CLOSE_DELIMITER {
            let piece = stored.substring_char(i, i + 1);
            r.append(piece);
            proof {
                assert(r@ =~= strip_delimiters(stored@.subrange(lo as int, i + 1)));
            }
        }
        i = i + 1;
    }
}

/// Filtering the delimiters out of a one-longer slice keeps the new
/// character exactly when it is not a delimiter.
proof fn lemma_strip_delimiters_extend(s: Seq<char>, lo: int, i: int)
    requires
        0 <= lo <= i < s.len(),
    ensures
        strip_delimiters(s.subrange(lo, i + 1)) == if is_not_delimiter(s[i]) {
            strip_delimiters(s.subrange(lo, i)).push(s[i])
        } else {
            strip_delimiters(s.subrange(lo, i))
        },
{
    reveal(Seq::filter);
    assert(s.subrange(lo, i + 1).drop_last() =~= s.subrange(lo, i));
    assert(s.subrange(lo, i + 1).last() == s[i]);
}

/// The count over a one-character sequence is one exactly for that character.
proof fn lemma_count_char_singleton(x: char, c: char)
    ensures
        count_char(seq![x], c) == if x == c {
            1nat
        } else {
            0nat
        },
{
    reveal_with_fuel(count_char, 2);
    assert(seq![x].drop_last() =~= Seq::<char>::empty());
}

/// A colon-qualified identifier built from a table name and an inner id:
/// `t:⟨inner⟩`.
pub open spec fn formatted(t: Seq<char>, inner: Seq<char>) -> Seq<char> {
    t + seq![':'] + wrapped(inner)
}

/// The structure of a formatted identifier whose table name is free of
/// colons and delimiters and whose non-empty inner id is free of delimiters:
/// the colon after the table is the first one, the input is well delimited,
/// and the two segments read back as the pieces it was built from.
proof fn lemma_formatted_structure(t: Seq<char>, inner: Seq<char>)
    requires
        inner.len() > 0,
        count_char(inner, OPEN_DELIMITER) == 0,
        count_char(inner, CLOSE_DELIMITER) == 0,
        count_char(t, OPEN_DELIMITER) == 0,
        count_char(t, CLOSE_DELIMITER) == 0,
        count_char(t, ':') == 0,
    ensures
        formatted(t, inner).len() > 0,
        has_colon(formatted(t, inner)),
        first_colon(formatted(t, inner)) == t.len(),
        well_delimited(formatted(t, inner)),
        inner_id(formatted(t, inner)) == inner,
        formatted(t, inner).subrange(0, t.len() as int) == t,
{
    let s = formatted(t, inner);
    let w = wrapped(inner);
    assert(s.len() == t.len() + 1 + inner.len() + 2);
    lemma_count_char_zero(t, ':');
    assert forall|j: int| 0 <= j < t.len() implies s[j] != ':' by {
        assert(s[j] == t[j]);
    }
    assert(s[t.len() as int] == ':');
    lemma_first_colon_is(s, t.len() as int);
    assert(id_part(s) =~= w);
    assert(w.first() == OPEN_DELIMITER);
    assert(w.last() == CLOSE_DELIMITER);
    lemma_count_char_add(t + seq![':'], w, OPEN_DELIMITER);
    lemma_count_char_add(t, seq![':'], OPEN_DELIMITER);
    lemma_count_char_add(seq![OPEN_DELIMITER] + inner, seq![CLOSE_DELIMITER], OPEN_DELIMITER);
    lemma_count_char_add(seq![OPEN_DELIMITER], inner, OPEN_DELIMITER);
    lemma_count_char_singleton(':', OPEN_DELIMITER);
    lemma_count_char_singleton(OPEN_DELIMITER, OPEN_DELIMITER);
    lemma_count_char_singleton(CLOSE_DELIMITER, OPEN_DELIMITER);
    assert(count_char(s, OPEN_DELIMITER) == 1);
    lemma_count_char_add(t + seq![':'], w, CLOSE_DELIMITER);
    lemma_count_char_add(t, seq![':'], CLOSE_DELIMITER);
    lemma_count_char_add(seq![OPEN_DELIMITER] + inner, seq![CLOSE_DELIMITER], CLOSE_DELIMITER);
    lemma_count_char_add(seq![OPEN_DELIMITER], inner, CLOSE_DELIMITER);
    lemma_count_char_singleton(':', CLOSE_DELIMITER);
    lemma_count_char_singleton(OPEN_DELIMITER, CLOSE_DELIMITER);
    lemma_count_char_singleton(CLOSE_DELIMITER, CLOSE_DELIMITER);
    assert(count_char(s, CLOSE_DELIMITER) == 1);
    assert(inner_id(s) =~= inner);
    assert(s.subrange(0, t.len() as int) =~= t);
}

/// Law: a well-qualified identifier parses back to its own pieces. For every
/// table name `t` free of colons and delimiters and every non-empty inner id
/// free of delimiters, `t:⟨inner⟩` is non-empty and well delimited, its
/// inner id is exactly `inner`, and its table segment equals `t`; through
/// the contract of `parse`, parsing it against expected table `t` therefore
/// returns `Ok((t, inner))`.
pub proof fn lemma_parse_formatted_ok(t: Seq<char>, inner: Seq<char>)
    requires
        inner.len() > 0,
        count_char(inner, OPEN_DELIMITER) == 0,
        count_char(inner, CLOSE_DELIMITER) == 0,
        count_char(t, OPEN_DELIMITER) == 0,
        count_char(t, CLOSE_DELIMITER) == 0,
        count_char(t, ':') == 0,
    ensures
        formatted(t, inner).len() > 0,
        well_delimited(formatted(t, inner)),
        inner_id(formatted(t, inner)) == inner,
        inner_id(formatted(t, inner)).len() > 0,
        table_part(formatted(t, inner), t) == t,
{
    lemma_formatted_structure(t, inner);
}

/// Law: a well-qualified identifier under the wrong expected table is
/// rejected as a table mismatch. For every table name `t1` free of colons
/// and delimiters, every non-empty inner id free of delimiters, and every
/// expected table `t2 != t1`, the input `t1:⟨inner⟩` is well delimited with
/// a non-empty inner id, and its table segment is `t1`, not `t2`; through
/// the contract of `parse`, parsing it against `t2` therefore returns
/// `Err(InvalidTable(t2, t1))`.
pub proof fn lemma_parse_formatted_table_mismatch(t1: Seq<char>, t2: Seq<char>, inner: Seq<char>)
    requires
        inner.len() > 0,
        count_char(inner, OPEN_DELIMITER) == 0,
        count_char(inner, CLOSE_DELIMITER) == 0,
        count_char(t1, OPEN_DELIMITER) == 0,
        count_char(t1, CLOSE_DELIMITER) == 0,
        count_char(t1, ':') == 0,
        t1 != t2,
    ensures
        formatted(t1, inner).len() > 0,
        well_delimited(formatted(t1, inner)),
        inner_id(formatted(t1, inner)) == inner,
        inner_id(formatted(t1, inner)).len() > 0,
        table_part(formatted(t1, inner), t2) == t1,
        table_part(formatted(t1, inner), t2) != t2,
{
    lemma_formatted_structure(t1, inner);
}

/// Law: a colon-qualified input in which the open or the close delimiter
/// occurs more than once is never well delimited; through the contract of
/// `parse`, such an input is rejected as `Err(InvalidIdFormat(input))`.
/// (Without a colon, such an input is instead accepted verbatim as a bare
/// inner id: the bare shortcut skips all delimiter validation.)
pub proof fn lemma_repeated_delimiter_malformed(s: Seq<char>)
    requires
        has_colon(s),
        count_char(s, OPEN_DELIMITER) >= 2 || count_char(s, CLOSE_DELIMITER) >= 2,
    ensures
        s.len() > 0,
        !well_delimited(s),
{
    lemma_first_colon_bounds(s);
}

/// Law: round trip. Re-wrapping the inner id parsed out of a well-delimited
/// input reproduces the input's bracketed segment exactly: through the
/// contracts of `parse` and `render_with_delimiters`, rendering the parsed
/// inner id of `t:⟨inner⟩` yields `⟨inner⟩`.
pub proof fn lemma_round_trip(s: Seq<char>)
    requires
        well_delimited(s),
    ensures
        wrapped(inner_id(s)) == id_part(s),
{
    let idp = id_part(s);
    assert(idp.len() >= 2) by {
        if idp.len() == 1 {
            assert(idp.first() == idp.last());
        }
    }
    assert(wrapped(inner_id(s)) =~= idp);
}

} // verus!
