//! Column letters: `A`..`Z`, `AA`, `AB`, ... (bijective base 26).
use vstd::prelude::*;
use crate::cell::CellError;
use crate::text::string_of;

verus! {

/// The letter for `d < 26`: `A` for 0 up to `Z` for 25.
pub open spec fn letter(d: nat) -> char {
    (('A' as int) + d) as char
}

/// `c` is one of `A`..`Z`.
pub open spec fn is_upper(c: char) -> bool {
    'A' <= c && c <= 'Z'
}

/// The letters naming column `col` (0 is `A`, 25 is `Z`, 26 is `AA`).
pub open spec fn column_letters(col: nat) -> Seq<char>
    decreases col,
{
    if col < 26 {
        seq![letter(col)]
    } else {
        column_letters((col / 26 - 1) as nat).push(letter(col % 26))
    }
}

/// The bijective base-26 value of upper-case letters: `A` is 1, `Z` is 26, `AA` is 27.
pub open spec fn letters_value(s: Seq<char>) -> int
    decreases s.len(),
{
    if s.len() == 0 {
        0
    } else {
        letters_value(s.drop_last()) * 26 + (s.last() as int - 'A' as int + 1)
    }
}

/// All of `s` is upper-case letters.
pub open spec fn all_upper(s: Seq<char>) -> bool {
    forall|i: int| 0 <= i < s.len() ==> #[trigger] is_upper(s[i])
}

/// The column that `s` names, or the error that [`letter_to_col`] reports for it.
pub open spec fn column_of(s: Seq<char>) -> Result<usize, CellError> {
    if !all_upper(s) || s.len() == 0 {
        Err(CellError::Syntax)
    } else {
        Ok((letters_value(s) - 1) as usize)
    }
}

/// Converting `s` keeps every partial value within `usize`: each upper-case prefix of `s`
/// has a value that fits.
pub open spec fn letters_fit(s: Seq<char>) -> bool {
    forall|k: int| 0 <= k <= s.len() && all_upper(#[trigger] s.subrange(0, k)) ==> letters_value(s.subrange(0, k)) <= usize::MAX
}

/// Each upper-case letter adds at least one to the value.
pub proof fn lemma_letters_value_nonneg(s: Seq<char>)
    requires
        all_upper(s),
    ensures
        letters_value(s) >= s.len(),
        s.len() > 0 ==> letters_value(s) >= 1,
    decreases s.len(),
{
    if s.len() > 0 {
        assert(is_upper(s[s.len() - 1]));
        lemma_letters_value_nonneg(s.drop_last());
    }
}

/// The letters naming column `col`: `A` for 0, `Z` for 25, `AA` for 26.
pub fn col_to_letter(col: usize) -> (s: String)
    ensures
        s@ == column_letters(col as nat),
{
    let mut out: Vec<char> = Vec::new();
    let mut c = col;
    loop
        invariant_except_break
            column_letters(col as nat) == column_letters(c as nat) + out@,
        ensures
            out@ == column_letters(col as nat),
        decreases c,
    {
        let ghost old_out = out@;
        let rem = c % 26;
        let ch = upper_letter(rem);
        out.insert(0, ch);
        proof {
            assert(out@ == seq![ch] + old_out);
        }
        if c < 26 {
            proof {
                assert(column_letters(c as nat) == seq![letter(c as nat)]);
                assert(rem == c);
            }
            break;
        }
        proof {
            assert(column_letters(c as nat) == column_letters((c / 26 - 1) as nat).push(letter((c % 26) as nat)));
            assert(column_letters((c / 26 - 1) as nat).push(letter((c % 26) as nat)) + old_out
                == column_letters((c / 26 - 1) as nat) + out@);
        }
        c = c / 26 - 1;
    }
    string_of(&out)
}

/// The upper-case letter for `d < 26`.
fn upper_letter(d: usize) -> (c: char)
    requires
        d < 26,
    ensures
        c == letter(d as nat),
{
    let code: u8 = 65u8 + (d as u8);
    code as char
}

/// The column index that the upper-case letters `letters` name (`A` is 0); `Syntax` when a
/// character is not an upper-case letter or there is none.
pub fn letter_to_col(letters: &Vec<char>) -> (r: Result<usize, CellError>)
    requires
        letters_fit(letters@),
    ensures
        r == column_of(letters@),
{
    let mut col: usize = 0;
    let mut i: usize = 0;
    while i < letters.len()
        invariant
            letters_fit(letters@),
            i <= letters.len(),
            all_upper(letters@.subrange(0, i as int)),
            col == letters_value(letters@.subrange(0, i as int)),
        decreases letters.len() - i,
    {
        let c = letters[i];
        if !('A' <= c && c <= 'Z') {
            proof {
                assert(!all_upper(letters@)) by {
                    assert(!is_upper(letters@[i as int]));
                }
            }
            return Err(CellError::Syntax);
        }
        proof {
            let p = letters@.subrange(0, i + 1);
            assert(p.drop_last() == letters@.subrange(0, i as int));
            assert(all_upper(p));
            assert(letters_value(p) <= usize::MAX);
        }
        col = col * 26 + ((c as u32 - 'A' as u32 + 1) as usize);
        i = i + 1;
    }
    proof {
        assert(letters@.subrange(0, i as int) == letters@);
    }
    if col == 0 {
        proof {
            if letters.len() > 0 {
                lemma_letters_value_nonneg(letters@);
            }
        }
        return Err(CellError::Syntax);
    }
    proof {
        lemma_letters_value_nonneg(letters@);
    }
    Ok(col - 1)
}

proof fn lemma_letter_code(d: nat)
    requires
        d < 26,
    ensures
        letter(d) as int == 'A' as int + d,
        is_upper(letter(d)),
{
}

/// The letters of a column are upper-case and read back as that column.
pub proof fn law_column_letters_read_back(col: nat)
    ensures
        column_letters(col).len() > 0,
        all_upper(column_letters(col)),
        letters_value(column_letters(col)) == col + 1,
    decreases col,
{
    lemma_letter_code(col % 26);
    let s0 = column_letters(col);
    if col < 26 {
        assert(s0.drop_last() == Seq::<char>::empty());
        assert(letters_value(s0.drop_last()) == 0);
    }
    if col >= 26 {
        let q = (col / 26 - 1) as nat;
        law_column_letters_read_back(q);
        let s = column_letters(col);
        assert(s.drop_last() == column_letters(q));
        assert(s.last() == letter(col % 26));
        assert(letters_value(s) == letters_value(column_letters(q)) * 26 + (col % 26) + 1);
        assert forall|i: int| 0 <= i < s.len() implies #[trigger] is_upper(s[i]) by {
            if i < s.len() - 1 {
                assert(s[i] == column_letters(q)[i]);
            }
        }
    }
}

/// Every non-empty run of upper-case letters names exactly one column, and naming that
/// column gives the run back.
pub proof fn law_letters_name_one_column(s: Seq<char>)
    requires
        s.len() > 0,
        all_upper(s),
    ensures
        column_letters((letters_value(s) - 1) as nat) == s,
    decreases s.len(),
{
    let t = s.drop_last();
    assert(is_upper(s[s.len() - 1]));
    let d = s.last() as int - 'A' as int;
    lemma_letter_code(d as nat);
    if t.len() == 0 {
        assert(letters_value(t) == 0);
        assert(letters_value(s) == d + 1);
        assert(letter(d as nat) == s.last());
        assert(column_letters(d as nat) == s);
    } else {
        assert(all_upper(t)) by {
            assert forall|i: int| 0 <= i < t.len() implies #[trigger] is_upper(t[i]) by {
                assert(is_upper(s[i]));
            }
        }
        law_letters_name_one_column(t);
        lemma_letters_value_nonneg(t);
        let c = letters_value(s) - 1;
        assert(c == letters_value(t) * 26 + d);
        assert(c >= 26);
        assert(c % 26 == d);
        assert(c / 26 == letters_value(t));
        assert(letter(d as nat) == s.last());
        assert(column_letters(c as nat) == column_letters((letters_value(t) - 1) as nat).push(letter(d as nat)));
        assert(s == t.push(s.last()));
    }
}

/// A prefix of upper-case letters is worth no more than the whole.
pub proof fn lemma_prefix_value_le(s: Seq<char>, k: int)
    requires
        all_upper(s),
        0 <= k <= s.len(),
    ensures
        letters_value(s.subrange(0, k)) <= letters_value(s),
    decreases s.len(),
{
    if k < s.len() {
        let t = s.drop_last();
        assert(all_upper(t)) by {
            assert forall|i: int| 0 <= i < t.len() implies #[trigger] is_upper(t[i]) by {
                assert(is_upper(s[i]));
            }
        }
        lemma_prefix_value_le(t, k);
        assert(t.subrange(0, k) == s.subrange(0, k));
        lemma_letters_value_nonneg(t);
        assert(is_upper(s[s.len() - 1]));
    } else {
        assert(s.subrange(0, k) == s);
    }
}

/// Naming a column and reading the name back gives the column: [`letter_to_col`] accepts
/// what [`col_to_letter`] gives (for every column below `usize::MAX`, whose name's value
/// fits) and returns the same column.
pub proof fn law_column_round_trip(col: usize)
    requires
        col < usize::MAX,
    ensures
        letters_fit(column_letters(col as nat)),
        column_of(column_letters(col as nat)) == Ok::<usize, CellError>(col),
{
    let s = column_letters(col as nat);
    law_column_letters_read_back(col as nat);
    assert forall|k: int| 0 <= k <= s.len() && all_upper(#[trigger] s.subrange(0, k))
        implies letters_value(s.subrange(0, k)) <= usize::MAX by {
        lemma_prefix_value_le(s, k);
    }
}

} // verus!
