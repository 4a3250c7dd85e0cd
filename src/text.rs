use vstd::prelude::*;


verus! {

/// The pieces of `s` between the occurrences of `sep`, in order, empty
/// pieces included: one more piece than there are separators.
pub open spec fn pieces(s: Seq<char>, sep: char) -> Seq<Seq<char>>
    decreases s.len(),
{
    if s.len() == 0 {
        seq![seq![]]
    } else {
        let p = pieces(s.drop_last(), sep);
        if s.last() == sep {
            p.push(seq![])
        } else {
            p.update(p.len() - 1, p.last().push(s.last()))
        }
    }
}

proof fn lemma_pieces_len(s: Seq<char>, sep: char)
    ensures
        pieces(s, sep).len() >= 1,
    decreases s.len(),
{
    if s.len() > 0 {
        lemma_pieces_len(s.drop_last(), sep);
    }
}

/// The characters of a string.
pub fn chars_of(s: &str) -> (r: Vec<char>)
    ensures
        r@ == s@,
{
    let n = s.unicode_len();
    let mut out: Vec<char> = Vec::new();
    let mut i: usize = 0;
    while i < n
        invariant
            i <= n,
            n == s@.len(),
            out@ == s@.take(i as int),
        decreases n - i,
    {
        out.push(s.get_char(i));
        assert(out@ =~= s@.take(i + 1));
        i = i + 1;
    }
    assert(out@ =~= s@);
    out
}

/// Splits `s` at every `sep`.
pub fn split_on(s: &[char], sep: char) -> (r: Vec<Vec<char>>)
    ensures
        r@.len() == pieces(s@, sep).len(),
        forall|i: int| 0 <= i < r@.len() ==> (#[trigger] r@[i])@ == pieces(s@, sep)[i],
{
    let mut out: Vec<Vec<char>> = Vec::new();
    let mut current: Vec<char> = Vec::new();
    let mut i: usize = 0;
    while i < s.len()
        invariant
            i <= s@.len(),
            out@.len() + 1 == pieces(s@.take(i as int), sep).len(),
            forall|j: int| 0 <= j < out@.len() ==> (#[trigger] out@[j])@ == pieces(s@.take(i as int), sep)[j],
            current@ == pieces(s@.take(i as int), sep).last(),
        decreases s@.len() - i,
    {
        proof {
            assert(s@.take(i + 1).drop_last() =~= s@.take(i as int));
            lemma_pieces_len(s@.take(i as int), sep);
        }
        let c = s[i];
        if c == sep {
            out.push(current);
            current = Vec::new();
        } else {
            current.push(c);
        }
        i = i + 1;
    }
    proof {
        assert(s@.take(s@.len() as int) =~= s@);
        lemma_pieces_len(s@, sep);
    }
    out.push(current);
    out
}

pub open spec fn is_digit(c: char) -> bool {
    '0' <= c <= '9'
}

/// The number that the digits `s[..n]` write.
pub open spec fn digits_value(s: Seq<char>, n: int) -> int
    decreases n,
{
    if n <= 0 {
        0
    } else {
        digits_value(s, n - 1) * 10 + (s[n - 1] as int - '0' as int)
    }
}

pub open spec fn all_digits(s: Seq<char>) -> bool {
    s.len() > 0 && forall|i: int| 0 <= i < s.len() ==> is_digit(#[trigger] s[i])
}

/// The integer that `s` writes in decimal, with an optional sign; `None`
/// where `s` is no such text.
pub open spec fn decimal(s: Seq<char>) -> Option<int> {
    if s.len() > 0 && (s[0] == '-' || s[0] == '+') {
        let body = s.drop_first();
        if all_digits(body) {
            Some(
                if s[0] == '-' {
                    -digits_value(body, body.len() as int)
                } else {
                    digits_value(body, body.len() as int)
                },
            )
        } else {
            None
        }
    } else if all_digits(s) {
        Some(digits_value(s, s.len() as int))
    } else {
        None
    }
}

proof fn lemma_digits_value_grows(s: Seq<char>, k: int, n: int)
    requires
        0 <= k <= n <= s.len(),
        forall|i: int| 0 <= i < s.len() ==> is_digit(#[trigger] s[i]),
    ensures
        0 <= digits_value(s, k) <= digits_value(s, n),
    decreases n,
{
    if k < n {
        lemma_digits_value_grows(s, k, n - 1);
    } else if n > 0 {
        lemma_digits_value_grows(s, n - 1, n - 1);
    }
}

/// Reads the digits of `s[from..]` as a number, or `None` where one is no
/// digit, there is none, or the number passes `limit`.
fn unsigned(s: &[char], from: usize, limit: i128) -> (r: Option<i128>)
    requires
        from <= s@.len(),
        9 <= limit <= 0x8000_0000_0000_0000,
    ensures
        r matches Some(v) ==> 0 <= v <= limit,
        match r {
            Some(v) => all_digits(s@.skip(from as int)) && v == digits_value(
                s@.skip(from as int),
                s@.len() - from,
            ) && v <= limit,
            None => !all_digits(s@.skip(from as int)) || digits_value(
                s@.skip(from as int),
                s@.len() - from,
            ) > limit,
        },
{
    let ghost body = s@.skip(from as int);
    if from >= s.len() {
        return None;
    }
    let mut v: i128 = 0;
    let mut i: usize = from;
    while i < s.len()
        invariant
            from <= i <= s@.len(),
            body == s@.skip(from as int),
            9 <= limit <= 0x8000_0000_0000_0000,
            forall|j: int| 0 <= j < i - from ==> is_digit(#[trigger] body[j]),
            v == digits_value(body, i - from),
            0 <= v <= limit,
        decreases s@.len() - i,
    {
        let c = s[i];
        if c < '0' || c > '9' {
            assert(!is_digit(body[i - from]));
            return None;
        }
        let d = (c as u32 - '0' as u32) as i128;
        assert(d == body[i - from] as int - '0' as int);
        if v > (limit - d) / 10 {
            proof {
                assert(v * 10 + d > limit) by (nonlinear_arith)
                    requires
                        v > (limit - d) / 10,
                        0 <= d <= 9,
                        limit >= 9,
                ;
                if all_digits(body) {
                    lemma_digits_value_grows(body, i + 1 - from, body.len() as int);
                }
            }
            return None;
        }
        proof {
            assert(v * 10 + d <= limit) by (nonlinear_arith)
                requires
                    v <= (limit - d) / 10,
                    0 <= d <= 9,
                    limit >= 9,
                    v >= 0,
            ;
        }
        v = v * 10 + d;
        i = i + 1;
    }
    Some(v)
}

/// The integer that `s` writes in decimal, where it is one and fits `i64`.
pub fn parse_i64(s: &[char]) -> (r: Option<i64>)
    ensures
        match r {
            Some(v) => decimal(s@) == Some(v as int),
            None => match decimal(s@) {
                Some(x) => x < i64::MIN || x > i64::MAX,
                None => true,
            },
        },
{
    if s.len() > 0 && (s[0] == '-' || s[0] == '+') {
        let negative = s[0] == '-';
        let limit: i128 = if negative {
            0x8000_0000_0000_0000
        } else {
            0x7fff_ffff_ffff_ffff
        };
        let r = unsigned(s, 1, limit);
        assert(s@.skip(1) =~= s@.drop_first());
        match r {
            Some(v) => Some(
                if negative {
                    (-v) as i64
                } else {
                    v as i64
                },
            ),
            None => None,
        }
    } else {
        let r = unsigned(s, 0, 0x7fff_ffff_ffff_ffff);
        assert(s@.skip(0) =~= s@);
        match r {
            Some(v) => Some(v as i64),
            None => None,
        }
    }
}

/// The integer that `s` writes in decimal, where it is one and fits `i32`.
pub fn parse_i32(s: &[char]) -> (r: Option<i32>)
    ensures
        match r {
            Some(v) => decimal(s@) == Some(v as int),
            None => match decimal(s@) {
                Some(x) => x < i32::MIN || x > i32::MAX,
                None => true,
            },
        },
{
    match parse_i64(s) {
        Some(v) => if v >= i32::MIN as i64 && v <= i32::MAX as i64 {
            Some(v as i32)
        } else {
            None
        },
        None => None,
    }
}

/// The values of the first `k` pieces, where each is a decimal `i32`.
pub open spec fn piece_values(ps: Seq<Seq<char>>, k: int) -> Option<Seq<i32>>
    decreases k,
{
    if k <= 0 {
        Some(seq![])
    } else {
        match (piece_values(ps, k - 1), decimal(ps[k - 1])) {
            (Some(vs), Some(x)) => if i32::MIN <= x <= i32::MAX {
                Some(vs.push(x as i32))
            } else {
                None
            },
            _ => None,
        }
    }
}

proof fn lemma_piece_values_fail(ps: Seq<Seq<char>>, k: int, n: int)
    requires
        1 <= k <= n,
        piece_values(ps, k) is None,
    ensures
        piece_values(ps, n) is None,
    decreases n,
{
    if k < n {
        lemma_piece_values_fail(ps, k, n - 1);
    }
}

/// The `i32` values of the pieces of `s` between the `sep`s; `None` where a
/// piece is no decimal `i32`.
pub fn parse_list(s: &str, sep: char) -> (r: Option<Vec<i32>>)
    ensures
        match r {
            Some(v) => piece_values(pieces(s@, sep), pieces(s@, sep).len() as int) == Some(v@),
            None => piece_values(pieces(s@, sep), pieces(s@, sep).len() as int) is None,
        },
{
    let chars = chars_of(s);
    let parts = split_on(chars.as_slice(), sep);
    let ghost ps = pieces(s@, sep);
    let mut out: Vec<i32> = Vec::new();
    let mut i: usize = 0;
    while i < parts.len()
        invariant
            i <= parts@.len(),
            ps == pieces(s@, sep),
            parts@.len() == ps.len(),
            forall|j: int| 0 <= j < parts@.len() ==> (#[trigger] parts@[j])@ == ps[j],
            piece_values(ps, i as int) == Some(out@),
        decreases parts@.len() - i,
    {
        match parse_i32(parts[i].as_slice()) {
            Some(v) => {
                out.push(v);
            },
            None => {
                proof {
                    lemma_piece_values_fail(ps, i + 1, ps.len() as int);
                }
                return None;
            },
        }
        i = i + 1;
    }
    Some(out)
}

/// The values of the first `k` pieces, where each is a decimal `i64`.
pub open spec fn piece_values_i64(ps: Seq<Seq<char>>, k: int) -> Option<Seq<i64>>
    decreases k,
{
    if k <= 0 {
        Some(seq![])
    } else {
        match (piece_values_i64(ps, k - 1), decimal(ps[k - 1])) {
            (Some(vs), Some(x)) => if i64::MIN <= x <= i64::MAX {
                Some(vs.push(x as i64))
            } else {
                None
            },
            _ => None,
        }
    }
}

proof fn lemma_piece_values_i64_fail(ps: Seq<Seq<char>>, k: int, n: int)
    requires
        1 <= k <= n,
        piece_values_i64(ps, k) is None,
    ensures
        piece_values_i64(ps, n) is None,
    decreases n,
{
    if k < n {
        lemma_piece_values_i64_fail(ps, k, n - 1);
    }
}

/// The `i64` values of the pieces of `s` between the `sep`s; `None` where a
/// piece is no decimal `i64`.
pub fn parse_list_i64(s: &str, sep: char) -> (r: Option<Vec<i64>>)
    ensures
        match r {
            Some(v) => piece_values_i64(pieces(s@, sep), pieces(s@, sep).len() as int) == Some(v@),
            None => piece_values_i64(pieces(s@, sep), pieces(s@, sep).len() as int) is None,
        },
{
    let chars = chars_of(s);
    let parts = split_on(chars.as_slice(), sep);
    let ghost ps = pieces(s@, sep);
    let mut out: Vec<i64> = Vec::new();
    let mut i: usize = 0;
    while i < parts.len()
        invariant
            i <= parts@.len(),
            ps == pieces(s@, sep),
            parts@.len() == ps.len(),
            forall|j: int| 0 <= j < parts@.len() ==> (#[trigger] parts@[j])@ == ps[j],
            piece_values_i64(ps, i as int) == Some(out@),
        decreases parts@.len() - i,
    {
        match parse_i64(parts[i].as_slice()) {
            Some(v) => {
                out.push(v);
            },
            None => {
                proof {
                    lemma_piece_values_i64_fail(ps, i + 1, ps.len() as int);
                }
                return None;
            },
        }
        i = i + 1;
    }
    Some(out)
}

/// Whether two character sequences are equal.
pub fn same_chars(a: &Vec<char>, b: &Vec<char>) -> (r: bool)
    ensures
        r == (a@ == b@),
{
    if a.len() != b.len() {
        return false;
    }
    let mut i: usize = 0;
    while i < a.len()
        invariant
            i <= a@.len(),
            a@.len() == b@.len(),
            forall|j: int| 0 <= j < i ==> a@[j] == b@[j],
        decreases a@.len() - i,
    {
        if a[i] != b[i] {
            return false;
        }
        i = i + 1;
    }
    assert(a@ =~= b@);
    true
}

/// Whether a character is white space as Unicode's White_Space property
/// lists it: tab to carriage return, space, next line, no-break space, ogham
/// space mark, the spaces from en quad to hair space, line and paragraph
/// separators, narrow no-break space, medium mathematical space and
/// ideographic space.
pub open spec fn whitespace_char(c: char) -> bool {
    let u = c as u32;
    (0x9 <= u <= 0xd) || u == 0x20 || u == 0x85 || u == 0xa0 || u == 0x1680 || (0x2000 <= u
        <= 0x200a) || u == 0x2028 || u == 0x2029 || u == 0x202f || u == 0x205f || u == 0x3000
}

/// Whether `c` is white space.
pub fn is_whitespace(c: char) -> (r: bool)
    ensures
        r == whitespace_char(c),
{
    let u = c as u32;
    (0x9 <= u && u <= 0xd) || u == 0x20 || u == 0x85 || u == 0xa0 || u == 0x1680 || (0x2000 <= u
        && u <= 0x200a) || u == 0x2028 || u == 0x2029 || u == 0x202f || u == 0x205f || u == 0x3000
}

/// The words found among the first `n` characters, and the word still
/// being read: words are runs of characters that are not white space.
pub open spec fn word_state(s: Seq<char>, n: int) -> (Seq<Seq<char>>, Seq<char>)
    decreases n,
{
    if n <= 0 {
        (seq![], seq![])
    } else {
        let (done, current) = word_state(s, n - 1);
        if whitespace_char(s[n - 1]) {
            if current.len() > 0 {
                (done.push(current), seq![])
            } else {
                (done, seq![])
            }
        } else {
            (done, current.push(s[n - 1]))
        }
    }
}

/// The words of `s`, in order.
pub open spec fn words(s: Seq<char>) -> Seq<Seq<char>> {
    let (done, current) = word_state(s, s.len() as int);
    if current.len() > 0 {
        done.push(current)
    } else {
        done
    }
}

/// The values of those of the first `k` pieces that are decimal `i32`s.
pub open spec fn valid_values(ps: Seq<Seq<char>>, k: int) -> Seq<i32>
    decreases k,
{
    if k <= 0 {
        seq![]
    } else {
        match decimal(ps[k - 1]) {
            Some(x) => if i32::MIN <= x <= i32::MAX {
                valid_values(ps, k - 1).push(x as i32)
            } else {
                valid_values(ps, k - 1)
            },
            None => valid_values(ps, k - 1),
        }
    }
}

/// Splits `s` into its words.
pub fn split_words(s: &[char]) -> (r: Vec<Vec<char>>)
    ensures
        r@.len() == words(s@).len(),
        forall|i: int| 0 <= i < r@.len() ==> (#[trigger] r@[i])@ == words(s@)[i],
{
    let mut done: Vec<Vec<char>> = Vec::new();
    let mut current: Vec<char> = Vec::new();
    let mut i: usize = 0;
    while i < s.len()
        invariant
            i <= s@.len(),
            done@.len() == word_state(s@, i as int).0.len(),
            forall|j: int| 0 <= j < done@.len() ==> (#[trigger] done@[j])@ == word_state(s@, i as int).0[j],
            current@ == word_state(s@, i as int).1,
        decreases s@.len() - i,
    {
        let c = s[i];
        if is_whitespace(c) {
            if current.len() > 0 {
                done.push(current);
            }
            current = Vec::new();
        } else {
            current.push(c);
        }
        i = i + 1;
    }
    if current.len() > 0 {
        done.push(current);
    }
    done
}

/// The `i32` values among the pieces, in order, skipping the others.
pub fn keep_values(ps: &Vec<Vec<char>>) -> (r: Vec<i32>)
    ensures
        forall|qs: Seq<Seq<char>>|
            qs.len() == ps@.len() && (forall|j: int| 0 <= j < qs.len() ==> #[trigger] qs[j] == ps@[j]@)
                ==> r@ == valid_values(qs, qs.len() as int),
{
    let ghost qs0 = ps@.map_values(|v: Vec<char>| v@);
    let mut out: Vec<i32> = Vec::new();
    let mut i: usize = 0;
    while i < ps.len()
        invariant
            i <= ps@.len(),
            qs0 == ps@.map_values(|v: Vec<char>| v@),
            out@ == valid_values(qs0, i as int),
        decreases ps@.len() - i,
    {
        match parse_i32(ps[i].as_slice()) {
            Some(v) => {
                out.push(v);
            },
            None => {},
        }
        i = i + 1;
    }
    proof {
        assert forall|qs: Seq<Seq<char>>|
            qs.len() == ps@.len() && (forall|j: int| 0 <= j < qs.len() ==> #[trigger] qs[j] == ps@[j]@)
                implies out@ == valid_values(qs, qs.len() as int) by {
            assert(qs =~= qs0);
        }
    }
    out
}

/// The pieces put back together with `sep` between them.
pub open spec fn join(ps: Seq<Seq<char>>, sep: char) -> Seq<char>
    decreases ps.len(),
{
    if ps.len() == 0 {
        seq![]
    } else if ps.len() == 1 {
        ps[0]
    } else {
        join(ps.drop_last(), sep) + seq![sep] + ps.last()
    }
}

proof fn lemma_join_pieces(s: Seq<char>, sep: char)
    ensures
        join(pieces(s, sep), sep) == s,
    decreases s.len(),
{
    if s.len() == 0 {
        assert(join(pieces(s, sep), sep) =~= s);
    } else {
        lemma_join_pieces(s.drop_last(), sep);
        lemma_pieces_len(s.drop_last(), sep);
        let p = pieces(s.drop_last(), sep);
        if s.last() == sep {
            assert(p.push(seq![]).drop_last() =~= p);
            assert(join(pieces(s, sep), sep) =~= s);
        } else {
            let q = p.update(p.len() - 1, p.last().push(s.last()));
            if p.len() == 1 {
                assert(join(q, sep) =~= s);
            } else {
                assert(q.drop_last() =~= p.drop_last());
                assert(join(p, sep) == join(p.drop_last(), sep) + seq![sep] + p.last());
                assert(join(q, sep) == join(q.drop_last(), sep) + seq![sep] + q.last());
                assert(q.last() == p.last().push(s.last()));
                assert(s.drop_last().push(s.last()) =~= s);
                assert(join(q, sep) =~= s);
            }
        }
    }
}

/// The two sides of `s` around its only `sep`; `None` where `s` holds no
/// `sep` or more than one.
pub fn split_pair(s: &str, sep: char) -> (r: Option<(String, String)>)
    ensures
        match r {
            Some((a, b)) => pieces(s@, sep).len() == 2 && a@ == pieces(s@, sep)[0] && b@ == pieces(
                s@,
                sep,
            )[1],
            None => pieces(s@, sep).len() != 2,
        },
{
    let chars = chars_of(s);
    let parts = split_on(chars.as_slice(), sep);
    if parts.len() != 2 {
        return None;
    }
    let d = parts[0].len();
    let n = chars.len();
    proof {
        let ps = pieces(s@, sep);
        lemma_join_pieces(s@, sep);
        assert(ps.drop_last() =~= seq![ps[0]]);
        assert(join(ps.drop_last(), sep) == ps[0]);
        assert(join(ps, sep) == join(ps.drop_last(), sep) + seq![sep] + ps.last());
        assert(s@ == ps[0] + seq![sep] + ps[1]);
        assert(s@.subrange(0, d as int) =~= ps[0]);
        assert(s@.subrange(d + 1, n as int) =~= ps[1]);
    }
    let first = String::from_str(s.substring_char(0, d));
    let second = String::from_str(s.substring_char(d + 1, n));
    Some((first, second))
}

/// The words of `s`, each as a string.
pub fn words_of(s: &str) -> (r: Vec<String>)
    ensures
        r@.len() == words(s@).len(),
        forall|i: int| 0 <= i < r@.len() ==> (#[trigger] r@[i])@ == words(s@)[i],
{
    let chars = chars_of(s);
    let n = chars.len();
    let mut done: Vec<String> = Vec::new();
    let mut start: usize = 0;
    let mut i: usize = 0;
    while i < n
        invariant
            start <= i <= n,
            n == s@.len(),
            chars@ == s@,
            done@.len() == word_state(s@, i as int).0.len(),
            forall|j: int| 0 <= j < done@.len() ==> (#[trigger] done@[j])@ == word_state(s@, i as int).0[j],
            s@.subrange(start as int, i as int) == word_state(s@, i as int).1,
        decreases n - i,
    {
        let c = chars[i];
        if is_whitespace(c) {
            if start < i {
                done.push(String::from_str(s.substring_char(start, i)));
            }
            start = i + 1;
            proof {
                assert(s@.subrange(start as int, i + 1) =~= seq![]);
            }
        } else {
            proof {
                assert(s@.subrange(start as int, i + 1) =~= s@.subrange(start as int, i as int).push(c));
            }
        }
        i = i + 1;
    }
    if start < n {
        done.push(String::from_str(s.substring_char(start, n)));
    }
    done
}

} // verus!
