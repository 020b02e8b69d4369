use vstd::prelude::*;

verus! {

/// Relies on String::push: appends the given character to the end of the string.
#[verifier::external_body]
pub fn push_char(s: &mut String, c: char)
    ensures
        final(s)@ == old(s)@.push(c),
{
    s.push(c);
}

/// Character-by-character string equality.
pub fn str_eq(a: &str, b: &str) -> (r: bool)
    ensures
        r == (a@ == b@),
{
    let na = a.unicode_len();
    let nb = b.unicode_len();
    if na != nb {
        return false;
    }
    let mut i: usize = 0;
    while i < na
        invariant
            na == a@.len(),
            na == b@.len(),
            i <= na,
            forall|j: int| 0 <= j < i ==> a@[j] == b@[j],
        decreases na - i,
    {
        if a.get_char(i) != b.get_char(i) {
            return false;
        }
        i += 1;
    }
    proof {
        assert(a@ =~= b@);
    }
    true
}

/// `p` occurs in `s` starting at position `i`.
pub open spec fn has_sub_at(s: Seq<char>, p: Seq<char>, i: int) -> bool {
    0 <= i && i + p.len() <= s.len() && s.subrange(i, i + p.len()) == p
}

/// `p` occurs somewhere in `s`.
pub open spec fn contains_sub(s: Seq<char>, p: Seq<char>) -> bool {
    exists|i: int| has_sub_at(s, p, i)
}

/// Substring search: whether `p` occurs anywhere in `s`.
pub fn contains_str(s: &str, p: &str) -> (r: bool)
    ensures
        r == contains_sub(s@, p@),
{
    let n = s.unicode_len();
    let m = p.unicode_len();
    if m > n {
        proof {
            assert(forall|i: int| !has_sub_at(s@, p@, i));
        }
        return false;
    }
    if m == 0 {
        proof {
            assert(s@.subrange(0, 0) =~= p@);
            assert(has_sub_at(s@, p@, 0));
        }
        return true;
    }
    let mut i: usize = 0;
    while i <= n - m
        invariant
            n == s@.len(),
            m == p@.len(),
            1 <= m <= n,
            i <= n - m + 1,
            forall|k: int| 0 <= k < i ==> !has_sub_at(s@, p@, k),
        decreases n - i,
    {
        let mut j: usize = 0;
        let mut matched = true;
        while j < m
            invariant
                n == s@.len(),
                m == p@.len(),
                1 <= m <= n,
                i <= n - m,
                j <= m,
                matched ==> forall|l: int| 0 <= l < j ==> s@[i + l] == p@[l],
                !matched ==> !has_sub_at(s@, p@, i as int),
            decreases m - j,
        {
            if s.get_char(i + j) != p.get_char(j) {
                proof {
                    assert(s@.subrange(i as int, i + p@.len())[j as int] != p@[j as int]);
                }
                matched = false;
                j = m;
            } else {
                j += 1;
            }
        }
        if matched {
            proof {
                assert(s@.subrange(i as int, i + p@.len()) =~= p@);
                assert(has_sub_at(s@, p@, i as int));
            }
            return true;
        }
        i += 1;
    }
    proof {
        assert(forall|k: int| has_sub_at(s@, p@, k) ==> 0 <= k < i);
    }
    false
}

/// Upper-case image of one character, for the ASCII letters only.
pub open spec fn upper_char(c: char) -> char {
    if 'a' <= c && c <= 'z' {
        (((c as u32) - 32) as u8) as char
    } else {
        c
    }
}

/// Upper-case image of a whole string, ASCII letters only.
pub open spec fn upper_seq(s: Seq<char>) -> Seq<char> {
    s.map_values(|c: char| upper_char(c))
}

/// ASCII upper-casing, as property identifiers are normalized.
pub fn to_upper(s: &str) -> (r: String)
    ensures
        r@ == upper_seq(s@),
{
    let n = s.unicode_len();
    let mut r = String::new();
    let mut i: usize = 0;
    while i < n
        invariant
            n == s@.len(),
            i <= n,
            r@ == upper_seq(s@.take(i as int)),
        decreases n - i,
    {
        let c = s.get_char(i);
        let u = c as u32;
        let up: char = if u >= 97 && u <= 122 {
            ((u - 32) as u8) as char
        } else {
            c
        };
        proof {
            assert(up == upper_char(c));
        }
        push_char(&mut r, up);
        i += 1;
        proof {
            assert(upper_seq(s@.take(i as int)) =~= upper_seq(s@.take(i - 1)).push(
                upper_char(s@[i - 1]),
            ));
        }
    }
    proof {
        assert(s@.take(n as int) =~= s@);
    }
    r
}

/// Position of the first occurrence of `c` in `s`, if any.
pub open spec fn find_char(s: Seq<char>, c: char) -> Option<int>
    decreases s.len(),
{
    if s.len() == 0 {
        None
    } else if s[0] == c {
        Some(0)
    } else {
        match find_char(s.skip(1), c) {
            Some(i) => Some(i + 1),
            None => None,
        }
    }
}

/// `find_char` returns the first position of `c`, or nothing when `c` is absent.
pub proof fn lemma_find_char(s: Seq<char>, c: char)
    ensures
        match find_char(s, c) {
            Some(i) => 0 <= i < s.len() && s[i] == c && forall|j: int| 0 <= j < i ==> s[j] != c,
            None => forall|j: int| 0 <= j < s.len() ==> s[j] != c,
        },
    decreases s.len(),
{
    if s.len() > 0 {
        lemma_find_char(s.skip(1), c);
        assert(forall|j: int| 1 <= j < s.len() ==> #[trigger] s[j] == s.skip(1)[j - 1]);
    }
}

/// The pieces of `s` between the commas, commas dropped.
pub open spec fn split_commas(s: Seq<char>) -> Seq<Seq<char>>
    decreases s.len(),
    via split_commas_decreases
{
    match find_char(s, ',') {
        None => seq![s],
        Some(i) => seq![s.take(i)] + split_commas(s.skip(i + 1)),
    }
}

#[via_fn]
proof fn split_commas_decreases(s: Seq<char>) {
    lemma_find_char(s, ',');
}

/// Splits on commas, as the requested property list is given.
pub fn split_commas_exec(s: &str) -> (r: Vec<String>)
    ensures
        r@.map_values(|x: String| x@) == split_commas(s@),
{
    let n = s.unicode_len();
    let mut r: Vec<String> = Vec::new();
    let mut piece = String::new();
    let mut start: usize = 0;
    let mut i: usize = 0;
    proof {
        assert(s@.skip(0) =~= s@);
        assert(piece@ =~= s@.subrange(0, 0));
        assert(r@.map_values(|x: String| x@) =~= Seq::<Seq<char>>::empty());
        assert(Seq::<Seq<char>>::empty() + split_commas(s@) =~= split_commas(s@));
    }
    while i < n
        invariant
            n == s@.len(),
            start <= i <= n,
            piece@ == s@.subrange(start as int, i as int),
            forall|j: int| start <= j < i ==> s@[j] != ',',
            split_commas(s@) =~= r@.map_values(|x: String| x@) + split_commas(
                s@.skip(start as int),
            ),
        decreases n - i,
    {
        let c = s.get_char(i);
        if c == ',' {
            proof {
                lemma_split_at_comma(s@, start as int, i as int);
            }
            r.push(piece);
            piece = String::new();
            proof {
                assert(r@.map_values(|x: String| x@) =~= r@.drop_last().map_values(
                    |x: String| x@,
                ).push(r@.last()@));
            }
            start = i + 1;
            i += 1;
            proof {
                assert(piece@ =~= s@.subrange(start as int, i as int));
            }
        } else {
            push_char(&mut piece, c);
            i += 1;
            proof {
                assert(piece@ =~= s@.subrange(start as int, i as int));
            }
        }
    }
    proof {
        lemma_split_no_comma(s@, start as int);
        assert(piece@ == s@.skip(start as int));
    }
    r.push(piece);
    proof {
        assert(r@.map_values(|x: String| x@) =~= r@.drop_last().map_values(|x: String| x@).push(
            r@.last()@,
        ));
        assert(r@.map_values(|x: String| x@) =~= split_commas(s@));
    }
    r
}

/// A suffix whose first comma sits at `i` splits into the piece before `i`
/// and the split of what follows.
proof fn lemma_split_at_comma(s: Seq<char>, start: int, i: int)
    requires
        0 <= start <= i < s.len(),
        s[i] == ',',
        forall|j: int| start <= j < i ==> s[j] != ',',
    ensures
        split_commas(s.skip(start)) == seq![s.subrange(start, i)] + split_commas(s.skip(i + 1)),
{
    let t = s.skip(start);
    lemma_find_char(t, ',');
    assert(forall|j: int| 0 <= j < t.len() ==> t[j] == s[start + j]);
    assert(t[i - start] == ',');
    match find_char(t, ',') {
        None => {
            assert(false);
        },
        Some(k) => {
            if k < i - start {
                assert(s[start + k] == ',');
                assert(false);
            }
            if k > i - start {
                assert(t[i - start] != ',');
                assert(false);
            }
            assert(k == i - start);
            assert(t.take(k) =~= s.subrange(start, i));
            assert(t.skip(k + 1) =~= s.skip(i + 1));
        },
    }
}

/// A suffix without a comma is one single piece.
proof fn lemma_split_no_comma(s: Seq<char>, start: int)
    requires
        0 <= start <= s.len(),
        forall|j: int| start <= j < s.len() ==> s[j] != ',',
    ensures
        split_commas(s.skip(start)) == seq![s.skip(start)],
{
    let t = s.skip(start);
    lemma_find_char(t, ',');
    assert(forall|j: int| 0 <= j < t.len() ==> t[j] == s[start + j]);
    match find_char(t, ',') {
        None => {},
        Some(k) => {
            assert(s[start + k] == ',');
            assert(false);
        },
    }
}

/// Decimal digits of `n`, most significant first.
pub open spec fn dec_str(n: nat) -> Seq<char>
    decreases n,
{
    if n < 10 {
        seq![digit_char(n)]
    } else {
        dec_str(n / 10).push(digit_char(n % 10))
    }
}

/// The digit characters.
pub open spec fn digit_char(d: nat) -> char {
    if d == 0 {
        '0'
    } else if d == 1 {
        '1'
    } else if d == 2 {
        '2'
    } else if d == 3 {
        '3'
    } else if d == 4 {
        '4'
    } else if d == 5 {
        '5'
    } else if d == 6 {
        '6'
    } else if d == 7 {
        '7'
    } else if d == 8 {
        '8'
    } else {
        '9'
    }
}

/// One digit, as a character.
fn digit_exec(d: u64) -> (c: char)
    requires
        d < 10,
    ensures
        c == digit_char(d as nat),
{
    if d == 0 {
        '0'
    } else if d == 1 {
        '1'
    } else if d == 2 {
        '2'
    } else if d == 3 {
        '3'
    } else if d == 4 {
        '4'
    } else if d == 5 {
        '5'
    } else if d == 6 {
        '6'
    } else if d == 7 {
        '7'
    } else if d == 8 {
        '8'
    } else {
        '9'
    }
}

/// Decimal rendering of `n`, as shard files are numbered.
pub fn u64_to_dec(n: u64) -> (s: String)
    ensures
        s@ == dec_str(n as nat),
    decreases n,
{
    if n < 10 {
        let mut s = String::new();
        push_char(&mut s, digit_exec(n));
        proof {
            assert(s@ =~= dec_str(n as nat));
        }
        s
    } else {
        let mut s = u64_to_dec(n / 10);
        push_char(&mut s, digit_exec(n % 10));
        s
    }
}

/// A line with its trailing list-separator comma removed, if it has one.
pub open spec fn strip_spec(line: Seq<char>) -> Seq<char> {
    if line.len() > 0 && line.last() == ',' {
        line.drop_last()
    } else {
        line
    }
}

/// Strips one trailing list-separator comma from a line, if present.
///
/// Lines of the dump are elements of a JSON array, so every line but the
/// last carries a trailing comma that must go before the line is parsed.
pub fn strip_separator(line: &str) -> (r: &str)
    ensures
        r@ == strip_spec(line@),
{
    let n = line.unicode_len();
    if n > 0 && line.get_char(n - 1) == ',' {
        line.substring_char(0, n - 1)
    } else {
        line
    }
}

/// The views of a sequence of strings.
pub open spec fn strs_view(ss: Seq<String>) -> Seq<Seq<char>> {
    ss.map_values(|s: String| s@)
}

} // verus!
