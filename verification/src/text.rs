//! Character and string utilities shared by the ingestion pipelines and the
//! query engine: digit arithmetic over character sequences, a verified
//! splitter, decimal rendering, and the two trusted normalization wrappers
//! (Unicode case folding and whitespace trimming).
use vstd::prelude::*;

verus! {

/// Unicode uppercase of a character sequence. The result of
/// `str::to_uppercase` depends on the characters alone, so it is given a
/// name rather than a definition.
pub uninterp spec fn upper_of(s: Seq<char>) -> Seq<char>;

/// Relies on str::to_uppercase: the Unicode uppercase of a string is a
/// function of its characters alone.
#[verifier::external_body]
pub fn to_upper(s: &str) -> (r: String)
    ensures
        r@ == upper_of(s@),
{
    s.to_uppercase()
}

/// The string with leading and trailing whitespace removed. The result of
/// `str::trim` depends on the characters alone.
pub uninterp spec fn trim_of(s: Seq<char>) -> Seq<char>;

/// Relies on str::trim: removing leading and trailing whitespace depends on
/// the characters alone.
#[verifier::external_body]
pub fn trim(s: &str) -> (r: String)
    ensures
        r@ == trim_of(s@),
{
    s.trim().to_owned()
}

pub open spec fn is_digit(c: char) -> bool {
    48 <= c as u32 && c as u32 <= 57
}

pub open spec fn digit_val(c: char) -> int {
    c as u32 - 48
}

pub open spec fn all_digits(s: Seq<char>) -> bool {
    forall|i: int| 0 <= i < s.len() ==> is_digit(#[trigger] s[i])
}

/// Value of a sequence of decimal digit characters, most significant first.
pub open spec fn digits_value(s: Seq<char>) -> int
    decreases s.len(),
{
    if s.len() == 0 {
        0
    } else {
        digits_value(s.drop_last()) * 10 + digit_val(s.last())
    }
}

pub proof fn lemma_digits_value_nonneg(s: Seq<char>)
    requires
        all_digits(s),
    ensures
        digits_value(s) >= 0,
    decreases s.len(),
{
    if s.len() > 0 {
        assert(all_digits(s.drop_last()));
        lemma_digits_value_nonneg(s.drop_last());
    }
}

/// Extending a digit string to the right never decreases its value.
pub proof fn lemma_digits_value_prefix_le(s: Seq<char>, i: int, j: int)
    requires
        all_digits(s),
        0 <= i <= j <= s.len(),
    ensures
        digits_value(s.subrange(0, i)) <= digits_value(s.subrange(0, j)),
    decreases j - i,
{
    if i < j {
        lemma_digits_value_prefix_le(s, i, j - 1);
        let p = s.subrange(0, j);
        assert(p.drop_last() =~= s.subrange(0, j - 1));
        assert(all_digits(s.subrange(0, j - 1)));
        lemma_digits_value_nonneg(s.subrange(0, j - 1));
    }
}

/// Parses an unsigned 32-bit decimal number: every character must be a
/// digit, there must be at least one, and the value must fit.
pub fn parse_u32(s: &str) -> (r: Option<u32>)
    ensures
        r == (if s@.len() >= 1 && all_digits(s@) && digits_value(s@) <= u32::MAX {
            Some(digits_value(s@) as u32)
        } else {
            None::<u32>
        }),
{
    let n = s.unicode_len();
    if n == 0 {
        return None;
    }
    let mut acc: u64 = 0;
    let mut i: usize = 0;
    while i < n
        invariant
            0 <= i <= n,
            n == s@.len(),
            all_digits(s@.subrange(0, i as int)),
            acc == digits_value(s@.subrange(0, i as int)),
            acc <= u32::MAX,
        decreases n - i,
    {
        let c = s.get_char(i);
        let cv = c as u32;
        if cv < 48 || cv > 57 {
            assert(!is_digit(s@[i as int]));
            return None;
        }
        let v = (cv - 48) as u64;
        let next = acc * 10 + v;
        proof {
            let p = s@.subrange(0, i + 1);
            assert(p.drop_last() =~= s@.subrange(0, i as int));
            assert(p.last() == s@[i as int]);
            assert forall|k: int| 0 <= k < p.len() implies is_digit(#[trigger] p[k]) by {
                if k < i {
                    assert(is_digit(s@.subrange(0, i as int)[k]));
                }
            }
        }
        if next > u32::MAX as u64 {
            proof {
                if all_digits(s@) && digits_value(s@) <= u32::MAX {
                    lemma_digits_value_prefix_le(s@, i + 1, s@.len() as int);
                    assert(s@.subrange(0, s@.len() as int) =~= s@);
                }
            }
            return None;
        }
        acc = next;
        i += 1;
    }
    proof {
        assert(s@.subrange(0, n as int) =~= s@);
    }
    Some(acc as u32)
}

/// Index of the first occurrence of `sep` at or after `from`, or the length
/// of the sequence when there is none.
pub open spec fn find_sep(s: Seq<char>, sep: char, from: int) -> int
    decreases s.len() - from,
{
    if from < 0 || from >= s.len() {
        s.len() as int
    } else if s[from] == sep {
        from
    } else {
        find_sep(s, sep, from + 1)
    }
}

pub proof fn lemma_find_sep_ge(s: Seq<char>, sep: char, from: int)
    requires
        0 <= from <= s.len(),
    ensures
        from <= find_sep(s, sep, from) <= s.len(),
    decreases s.len() - from,
{
    if from < s.len() && s[from] != sep {
        lemma_find_sep_ge(s, sep, from + 1);
    }
}

/// Scanning one more non-separator character pushes the first hit further.
pub proof fn lemma_find_sep_skip(s: Seq<char>, sep: char, from: int, i: int)
    requires
        0 <= from <= i < s.len(),
        find_sep(s, sep, from) >= i,
        s[i] != sep,
    ensures
        find_sep(s, sep, from) >= i + 1,
    decreases i - from,
{
    if from == i {
        lemma_find_sep_ge(s, sep, from + 1);
    } else {
        assert(s[from] != sep);
        lemma_find_sep_skip(s, sep, from + 1, i);
    }
}

/// A separator at `i` caps the first hit at `i`.
pub proof fn lemma_find_sep_hit(s: Seq<char>, sep: char, from: int, i: int)
    requires
        0 <= from <= i < s.len(),
        s[i] == sep,
    ensures
        find_sep(s, sep, from) <= i,
    decreases i - from,
{
    if from < i && s[from] != sep {
        lemma_find_sep_hit(s, sep, from + 1, i);
    }
}

/// The pieces of `s` cut at every `sep`, starting at `from`: always one
/// more piece than there are separators.
pub open spec fn split_from(s: Seq<char>, sep: char, from: int) -> Seq<Seq<char>>
    decreases s.len() - from when 0 <= from <= s.len() via split_from_decreases
{
    let j = find_sep(s, sep, from);
    if j >= s.len() {
        seq![s.subrange(from, s.len() as int)]
    } else {
        seq![s.subrange(from, j)] + split_from(s, sep, j + 1)
    }
}

#[via_fn]
proof fn split_from_decreases(s: Seq<char>, sep: char, from: int) {
    lemma_find_sep_ge(s, sep, from);
}

pub open spec fn split_spec(s: Seq<char>, sep: char) -> Seq<Seq<char>> {
    split_from(s, sep, 0)
}

/// Splits `s` at every occurrence of `sep`.
pub fn split_char(s: &str, sep: char) -> (r: Vec<String>)
    ensures
        r.deep_view() == split_spec(s@, sep),
        r.len() >= 1,
{
    let n = s.unicode_len();
    let mut out: Vec<String> = Vec::new();
    let mut start: usize = 0;
    let mut i: usize = 0;
    proof {
        lemma_find_sep_ge(s@, sep, 0);
    }
    loop
        invariant
            0 <= start as int <= i as int <= n as int,
            n == s@.len(),
            find_sep(s@, sep, start as int) >= i,
            split_spec(s@, sep) =~= out.deep_view() + split_from(s@, sep, start as int),
        decreases n - i,
    {
        proof {
            lemma_find_sep_ge(s@, sep, start as int);
        }
        if i == n {
            assert(find_sep(s@, sep, start as int) == s@.len());
            let piece = s.substring_char(start, n);
            let piece_string = piece.to_owned();
            let ghost prev = out.deep_view();
            out.push(piece_string);
            proof {
                assert(out.deep_view() =~= prev + seq![
                    s@.subrange(start as int, s@.len() as int),
                ]);
                assert(split_from(s@, sep, start as int) == seq![
                    s@.subrange(start as int, s@.len() as int),
                ]);
                assert(split_spec(s@, sep) =~= out.deep_view());
            }
            return out;
        }
        let c = s.get_char(i);
        if c == sep {
            proof {
                lemma_find_sep_hit(s@, sep, start as int, i as int);
            }
            assert(find_sep(s@, sep, start as int) == i);
            let piece = s.substring_char(start, i);
            let piece_string = piece.to_owned();
            let ghost prev = out.deep_view();
            out.push(piece_string);
            proof {
                assert(out.deep_view() =~= prev + seq![s@.subrange(start as int, i as int)]);
                assert(split_from(s@, sep, start as int) == seq![
                    s@.subrange(start as int, i as int),
                ] + split_from(s@, sep, i + 1));
                lemma_find_sep_ge(s@, sep, i + 1);
            }
            start = i + 1;
        } else {
            proof {
                lemma_find_sep_skip(s@, sep, start as int, i as int);
            }
        }
        i += 1;
    }
}

/// Index of the first character at or after `from` that is not a decimal
/// digit, or the length of the sequence when the digits run to the end.
pub open spec fn digits_end(s: Seq<char>, from: int) -> int
    decreases s.len() - from,
{
    if from < 0 || from >= s.len() {
        s.len() as int
    } else if !is_digit(s[from]) {
        from
    } else {
        digits_end(s, from + 1)
    }
}

pub proof fn lemma_digits_end_ge(s: Seq<char>, from: int)
    requires
        0 <= from <= s.len(),
    ensures
        from <= digits_end(s, from) <= s.len(),
    decreases s.len() - from,
{
    if from < s.len() && is_digit(s[from]) {
        lemma_digits_end_ge(s, from + 1);
    }
}

pub proof fn lemma_digits_end_skip(s: Seq<char>, from: int, i: int)
    requires
        0 <= from <= i < s.len(),
        digits_end(s, from) >= i,
        is_digit(s[i]),
    ensures
        digits_end(s, from) >= i + 1,
    decreases i - from,
{
    if from == i {
        lemma_digits_end_ge(s, from + 1);
    } else {
        assert(is_digit(s[from]));
        lemma_digits_end_skip(s, from + 1, i);
    }
}

pub proof fn lemma_digits_end_hit(s: Seq<char>, from: int, i: int)
    requires
        0 <= from <= i < s.len(),
        !is_digit(s[i]),
    ensures
        digits_end(s, from) <= i,
    decreases i - from,
{
    if from < i && is_digit(s[from]) {
        lemma_digits_end_hit(s, from + 1, i);
    }
}

/// Everything between `from` and the first non-digit is a digit.
pub proof fn lemma_digits_end_all_digits(s: Seq<char>, from: int)
    requires
        0 <= from <= s.len(),
    ensures
        all_digits(s.subrange(from, digits_end(s, from))),
    decreases s.len() - from,
{
    lemma_digits_end_ge(s, from);
    if from < s.len() && is_digit(s[from]) {
        lemma_digits_end_all_digits(s, from + 1);
        let j = digits_end(s, from);
        let p = s.subrange(from, j);
        let q = s.subrange(from + 1, j);
        assert forall|k: int| 0 <= k < p.len() implies is_digit(#[trigger] p[k]) by {
            if k > 0 {
                assert(is_digit(q[k - 1]));
            }
        }
    } else {
        assert(s.subrange(from, digits_end(s, from)) =~= Seq::<char>::empty());
    }
}

/// First index at or after `from` holding a character that is not a digit.
pub fn scan_digits(s: &str, from: usize) -> (j: usize)
    requires
        from <= s@.len(),
    ensures
        j == digits_end(s@, from as int),
        from <= j <= s@.len(),
{
    let n = s.unicode_len();
    let mut i = from;
    proof {
        lemma_digits_end_ge(s@, from as int);
    }
    while i < n
        invariant
            from <= i <= n,
            n == s@.len(),
            digits_end(s@, from as int) >= i,
        decreases n - i,
    {
        let c = s.get_char(i);
        let cv = c as u32;
        if cv < 48 || cv > 57 {
            proof {
                lemma_digits_end_hit(s@, from as int, i as int);
            }
            return i;
        }
        proof {
            lemma_digits_end_skip(s@, from as int, i as int);
        }
        i += 1;
    }
    proof {
        lemma_digits_end_ge(s@, from as int);
    }
    i
}

/// Every split has at least one piece.
pub proof fn lemma_split_from_len(s: Seq<char>, sep: char, from: int)
    requires
        0 <= from <= s.len(),
    ensures
        split_from(s, sep, from).len() >= 1,
    decreases s.len() - from,
{
    lemma_find_sep_ge(s, sep, from);
    let j = find_sep(s, sep, from);
    if j < s.len() {
        lemma_split_from_len(s, sep, j + 1);
    }
}

/// A line with its trailing carriage return removed.
pub open spec fn strip_cr(l: Seq<char>) -> Seq<char> {
    if l.len() > 0 && l.last() == '\r' {
        l.drop_last()
    } else {
        l
    }
}

/// The lines of a document: pieces between newlines, a final newline
/// producing no extra line, each line shorn of a trailing carriage return.
pub open spec fn lines_of(s: Seq<char>) -> Seq<Seq<char>> {
    let raw = split_spec(s, '\n');
    let kept = if raw.len() > 0 && raw.last().len() == 0 {
        raw.drop_last()
    } else {
        raw
    };
    kept.map_values(|l: Seq<char>| strip_cr(l))
}

/// Splits a document into lines.
pub fn lines(s: &str) -> (r: Vec<String>)
    ensures
        r.deep_view() == lines_of(s@),
{
    let mut raw = split_char(s, '\n');
    let ghost rawv = raw.deep_view();
    if raw[raw.len() - 1].as_str().is_empty() {
        let _ = raw.pop();
        proof {
            assert(raw.deep_view() =~= rawv.drop_last());
        }
    }
    let ghost kept = raw.deep_view();
    let mut out: Vec<String> = Vec::new();
    let mut i: usize = 0;
    while i < raw.len()
        invariant
            0 <= i <= raw@.len(),
            kept == raw.deep_view(),
            out.deep_view() =~= kept.subrange(0, i as int).map_values(|l: Seq<char>| strip_cr(l)),
        decreases raw@.len() - i,
    {
        let l = &raw[i];
        let n = l.as_str().unicode_len();
        let ghost prev = out.deep_view();
        if n > 0 && l.as_str().get_char(n - 1) == '\r' {
            let stripped = l.as_str().substring_char(0, n - 1);
            out.push(stripped.to_owned());
            proof {
                assert(l@.drop_last() =~= l@.subrange(0, n - 1));
            }
        } else {
            let copy = l.clone();
            out.push(copy);
        }
        proof {
            assert(kept[i as int] == raw@[i as int]@);
            assert(out.deep_view() =~= prev.push(strip_cr(kept[i as int])));
            assert(kept.subrange(0, i + 1).map_values(|l: Seq<char>| strip_cr(l)) =~= kept.subrange(
                0,
                i as int,
            ).map_values(|l: Seq<char>| strip_cr(l)).push(strip_cr(kept[i as int])));
        }
        i += 1;
    }
    proof {
        assert(kept.subrange(0, kept.len() as int) =~= kept);
        assert(out.deep_view() =~= lines_of(s@));
    }
    out
}

/// First index whose entry equals `t`, or the length when there is none.
pub open spec fn find_str(s: Seq<Seq<char>>, t: Seq<char>) -> int
    decreases s.len(),
{
    if s.len() == 0 {
        0
    } else if s[0] == t {
        0
    } else {
        1 + find_str(s.drop_first(), t)
    }
}

pub proof fn lemma_find_str_range(s: Seq<Seq<char>>, t: Seq<char>)
    ensures
        0 <= find_str(s, t) <= s.len(),
        find_str(s, t) < s.len() ==> s[find_str(s, t)] == t,
        forall|k: int| 0 <= k < find_str(s, t) ==> s[k] != t,
    decreases s.len(),
{
    if s.len() > 0 && s[0] != t {
        lemma_find_str_range(s.drop_first(), t);
        assert forall|k: int| 0 <= k < find_str(s, t) implies s[k] != t by {
            if k > 0 {
                assert(s.drop_first()[k - 1] != t);
            }
        }
    }
}

/// Position of the first entry equal to `t`.
pub fn find_string(v: &Vec<String>, t: &str) -> (r: usize)
    ensures
        r as int == find_str(v.deep_view(), t@),
{
    let mut i: usize = 0;
    let ghost w = v.deep_view();
    proof {
        assert(w.skip(0) =~= w);
    }
    while i < v.len()
        invariant
            0 <= i <= v@.len(),
            w == v.deep_view(),
            find_str(w, t@) == i + find_str(w.skip(i as int), t@),
            forall|k: int| 0 <= k < i ==> w[k] != t@,
        decreases v@.len() - i,
    {
        proof {
            assert(w.skip(i as int)[0] == w[i as int]);
            assert(w[i as int] == v@[i as int]@);
            assert(w.skip(i as int).drop_first() =~= w.skip(i + 1));
        }
        let candidate = &v[i];
        let other = t.to_owned();
        if *candidate == other {
            proof {
                lemma_find_str_range(w.skip(i as int), t@);
            }
            return i;
        }
        i += 1;
    }
    proof {
        assert(w.skip(i as int) =~= Seq::<Seq<char>>::empty());
    }
    i
}

pub open spec fn digit_char(d: int) -> char {
    if d == 0 {
        '0'
    } else if d == 1 {
        '1'
    } else if d == 2 {
        '2'
    } else if d == 3 {
        '3'
    } else if d == 4 {
        '4'
    } else if d == 5 {
        '5'
    } else if d == 6 {
        '6'
    } else if d == 7 {
        '7'
    } else if d == 8 {
        '8'
    } else {
        '9'
    }
}

/// Decimal rendering of a natural number, most significant digit first.
pub open spec fn dec_str(n: nat) -> Seq<char>
    decreases n,
{
    if n < 10 {
        seq![digit_char(n as int)]
    } else {
        dec_str(n / 10) + seq![digit_char((n % 10) as int)]
    }
}

fn digit_str(d: u64) -> (r: &'static str)
    requires
        d < 10,
    ensures
        r@ =~= seq![digit_char(d as int)],
{
    proof {
        reveal_strlit("0");
        reveal_strlit("1");
        reveal_strlit("2");
        reveal_strlit("3");
        reveal_strlit("4");
        reveal_strlit("5");
        reveal_strlit("6");
        reveal_strlit("7");
        reveal_strlit("8");
        reveal_strlit("9");
    }
    match d {
        0 => "0",
        1 => "1",
        2 => "2",
        3 => "3",
        4 => "4",
        5 => "5",
        6 => "6",
        7 => "7",
        8 => "8",
        _ => "9",
    }
}

/// Digits collected least significant first, rendered back most significant
/// first.
pub open spec fn digits_tail(ds: Seq<u64>) -> Seq<char>
    decreases ds.len(),
{
    if ds.len() == 0 {
        Seq::empty()
    } else {
        seq![digit_char(ds.last() as int)] + digits_tail(ds.drop_last())
    }
}

/// Renders `n` in decimal.
pub fn u64_to_string(n: u64) -> (r: String)
    ensures
        r@ == dec_str(n as nat),
{
    let mut digits: Vec<u64> = Vec::new();
    let mut rest = n;
    loop
        invariant_except_break
            dec_str(n as nat) =~= dec_str(rest as nat) + digits_tail(digits@),
        invariant
            forall|k: int| 0 <= k < digits@.len() ==> #[trigger] digits@[k] < 10,
        ensures
            forall|k: int| 0 <= k < digits@.len() ==> #[trigger] digits@[k] < 10,
            dec_str(n as nat) =~= digits_tail(digits@),
        decreases rest,
    {
        let d = rest % 10;
        let next = rest / 10;
        let ghost prev = digits@;
        digits.push(d);
        proof {
            assert(digits@.drop_last() =~= prev);
            assert(digits_tail(digits@) =~= seq![digit_char(d as int)] + digits_tail(prev));
            if rest >= 10 {
                assert(dec_str(rest as nat) == dec_str((rest as nat) / 10) + seq![
                    digit_char(((rest as nat) % 10) as int),
                ]);
                assert(dec_str(n as nat) =~= dec_str(next as nat) + digits_tail(digits@));
            } else {
                assert(dec_str(rest as nat) =~= seq![digit_char(d as int)]);
                assert(dec_str(n as nat) =~= digits_tail(digits@));
            }
        }
        if rest < 10 {
            break;
        }
        rest = next;
    }
    let mut out = String::new();
    let mut i = digits.len();
    proof {
        assert(digits@.subrange(0, digits@.len() as int) =~= digits@);
        assert(dec_str(n as nat) =~= out@ + digits_tail(digits@));
    }
    while i > 0
        invariant
            i <= digits@.len(),
            forall|k: int| 0 <= k < digits@.len() ==> #[trigger] digits@[k] < 10,
            dec_str(n as nat) =~= out@ + digits_tail(digits@.subrange(0, i as int)),
        decreases i,
    {
        i -= 1;
        let d = digits[i];
        out.append(digit_str(d));
        proof {
            let p = digits@.subrange(0, i + 1);
            assert(p.last() == digits@[i as int]);
            assert(p.drop_last() =~= digits@.subrange(0, i as int));
            assert(digits_tail(p) =~= seq![digit_char(d as int)] + digits_tail(
                digits@.subrange(0, i as int),
            ));
        }
    }
    proof {
        assert(digits_tail(digits@.subrange(0, 0)) =~= Seq::<char>::empty());
        assert(dec_str(n as nat) =~= out@);
    }
    out
}

} // verus!
