use vstd::prelude::*;

verus! {

pub open spec fn is_digit(c: char) -> bool {
    '0' <= c <= '9'
}

pub open spec fn all_digits(line: Seq<char>) -> bool {
    forall|j: int| 0 <= j < line.len() ==> is_digit(#[trigger] line[j])
}

/// The digits of a line as values 0 to 9.
pub open spec fn digits_of(line: Seq<char>) -> Seq<u8> {
    line.map_values(|c: char| (c as int - '0' as int) as u8)
}

/// Turns lines of digits into rows of their values; `None` where a line
/// holds a character that is no decimal digit.
pub fn read_to_2d_byte_array(lines: &[String]) -> (r: Option<Vec<Vec<u8>>>)
    ensures
        match r {
            Some(rows) => rows@.len() == lines@.len() && forall|i: int|
                0 <= i < lines@.len() ==> all_digits(#[trigger] lines@[i]@) && rows@[i]@
                    == digits_of(lines@[i]@),
            None => exists|i: int| 0 <= i < lines@.len() && !all_digits(#[trigger] lines@[i]@),
        },
{
    let mut rows: Vec<Vec<u8>> = Vec::new();
    let mut i: usize = 0;
    while i < lines.len()
        invariant
            i <= lines@.len(),
            rows@.len() == i,
            forall|k: int|
                0 <= k < i ==> all_digits(#[trigger] lines@[k]@) && rows@[k]@ == digits_of(
                    lines@[k]@,
                ),
        decreases lines@.len() - i,
    {
        let line = lines[i].as_str();
        let n = line.unicode_len();
        let mut row: Vec<u8> = Vec::new();
        let mut j: usize = 0;
        while j < n
            invariant
                j <= n,
                i < lines@.len(),
                n == line@.len(),
                line@ == lines@[i as int]@,
                row@.len() == j,
                forall|k: int| 0 <= k < j ==> is_digit(#[trigger] line@[k]),
                forall|k: int| 0 <= k < j ==> #[trigger] row@[k] == (line@[k] as int - '0' as int) as u8,
            decreases n - j,
        {
            let ch = line.get_char(j);
            if ch < '0' || ch > '9' {
                assert(!all_digits(lines@[i as int]@));
                return None;
            }
            row.push((ch as u8) - 48u8);
            j = j + 1;
        }
        assert(row@ =~= digits_of(lines@[i as int]@));
        assert(all_digits(lines@[i as int]@));
        rows.push(row);
        i = i + 1;
    }
    Some(rows)
}

} // verus!
