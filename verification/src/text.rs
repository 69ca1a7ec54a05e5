use vstd::prelude::*;

verus! {

broadcast use vstd::string::group_string_axioms;

/// The characters of `s`, in order.
pub fn chars_of(s: &str) -> (v: Vec<char>)
    ensures
        v@ == s@,
{
    let mut v: Vec<char> = Vec::new();
    for c in it: s.chars()
        invariant
            v@ == it.seq().take(it.index() as int),
    {
        v.push(c);
    }
    v
}

} // verus!

verus! {

/// Appends one character to a string (`String::push`).
#[verifier::external_body]
pub(crate) fn push_char(s: &mut String, c: char)
    ensures
        final(s)@ == old(s)@.push(c),
{
    s.push(c);
}

/// The string made of the characters `chars`, in order.
pub fn string_from_chars(chars: &Vec<char>) -> (s: String)
    ensures
        s@ == chars@,
{
    let mut s = String::new();
    let mut i: usize = 0;
    while i < chars.len()
        invariant
            i <= chars.len(),
            s@ == chars@.take(i as int),
        decreases chars.len() - i,
    {
        push_char(&mut s, chars[i]);
        assert(chars@.take(i as int + 1) == chars@.take(i as int).push(chars@[i as int]));
        i = i + 1;
    }
    assert(chars@.take(chars.len() as int) == chars@);
    s
}

/// Whether two character sequences are equal.
pub fn chars_equal(a: &Vec<char>, b: &Vec<char>) -> (eq: bool)
    ensures
        eq == (a@ == b@),
{
    if a.len() != b.len() {
        return false;
    }
    let mut i: usize = 0;
    while i < a.len()
        invariant
            i <= a.len(),
            a.len() == b.len(),
            forall|j: int| 0 <= j < i ==> a@[j] == b@[j],
        decreases a.len() - i,
    {
        if a[i] != b[i] {
            return false;
        }
        i = i + 1;
    }
    assert(a@ =~= b@);
    true
}

/// Whether two strings hold the same characters.
pub fn str_equal(a: &str, b: &str) -> (eq: bool)
    ensures
        eq == (a@ == b@),
{
    let ca = chars_of(a);
    let cb = chars_of(b);
    chars_equal(&ca, &cb)
}

} // verus!

verus! {

/// `pat` occurs in `s` at index `i`.
pub open spec fn matches_at(s: Seq<char>, pat: Seq<char>, i: int) -> bool {
    0 <= i && i + pat.len() <= s.len() && s.subrange(i, i + pat.len()) == pat
}

/// The index of the first occurrence of `pat` in `s`, or -1 if there is none.
pub open spec fn first_match(s: Seq<char>, pat: Seq<char>) -> int
    decreases s.len(),
{
    if s.len() < pat.len() {
        -1
    } else if s.take(pat.len() as int) == pat {
        0
    } else if s.len() == 0 {
        -1
    } else {
        let r = first_match(s.skip(1), pat);
        if r < 0 {
            -1
        } else {
            r + 1
        }
    }
}

/// `first_match` is the least index at which `pat` occurs, or -1 when it occurs nowhere.
pub proof fn lemma_first_match(s: Seq<char>, pat: Seq<char>)
    ensures
        first_match(s, pat) >= 0 ==> matches_at(s, pat, first_match(s, pat)),
        forall|j: int| 0 <= j < first_match(s, pat) ==> !matches_at(s, pat, j),
        first_match(s, pat) < 0 ==> first_match(s, pat) == -1 && forall|j: int| !matches_at(s, pat, j),
    decreases s.len(),
{
    if s.len() < pat.len() {
    } else if s.take(pat.len() as int) == pat {
        assert(s.subrange(0, pat.len() as int) == s.take(pat.len() as int));
    } else if s.len() == 0 {
        assert(pat.len() == 0);
        assert(s.take(0) =~= pat);
    } else {
        let t = s.skip(1);
        lemma_first_match(t, pat);
        assert(!matches_at(s, pat, 0)) by {
            assert(s.subrange(0, pat.len() as int) == s.take(pat.len() as int));
        }
        assert forall|j: int| 1 <= j && j + pat.len() <= s.len() implies
            (matches_at(s, pat, j) <==> matches_at(t, pat, j - 1)) by {
            assert(s.subrange(j, j + pat.len()) =~= t.subrange(j - 1, j - 1 + pat.len()));
        }
    }
}

/// The fields of `s` between the occurrences of `sep`, taken from left to right
/// without overlap (what `str::split` yields for a string pattern).
pub open spec fn split_on(s: Seq<char>, sep: Seq<char>) -> Seq<Seq<char>>
    decreases s.len(),
    when sep.len() > 0
{
    let i = first_match(s, sep);
    if i < 0 {
        seq![s]
    } else {
        proof {
            lemma_first_match(s, sep);
        }
        seq![s.take(i)] + split_on(s.skip(i + sep.len()), sep)
    }
}

/// `fields` joined by `sep`.
pub open spec fn join_with(fields: Seq<Seq<char>>, sep: Seq<char>) -> Seq<char>
    decreases fields.len(),
{
    if fields.len() == 0 {
        seq![]
    } else if fields.len() == 1 {
        fields[0]
    } else {
        fields[0] + sep + join_with(fields.skip(1), sep)
    }
}

/// `s` with every occurrence of `from` (left to right, without overlap) replaced by
/// `to` (what `str::replace` returns).
pub open spec fn replace_all(s: Seq<char>, from: Seq<char>, to: Seq<char>) -> Seq<char> {
    join_with(split_on(s, from), to)
}

/// Whether `pat` occurs in `chars` at index `i`.
fn matches_here(chars: &Vec<char>, pat: &Vec<char>, i: usize) -> (b: bool)
    requires
        i + pat.len() <= chars.len(),
    ensures
        b == matches_at(chars@, pat@, i as int),
{
    let mut k: usize = 0;
    while k < pat.len()
        invariant
            k <= pat.len(),
            i + pat.len() <= chars.len(),
            forall|j: int| 0 <= j < k ==> chars@[i + j] == pat@[j],
        decreases pat.len() - k,
    {
        if chars[i + k] != pat[k] {
            assert(chars@.subrange(i as int, i + pat.len())[k as int] != pat@[k as int]);
            return false;
        }
        k = k + 1;
    }
    assert(chars@.subrange(i as int, i + pat.len()) =~= pat@);
    true
}

/// The characters of `chars` from index `from` to index `to` (excluded).
pub fn sub_chars(chars: &Vec<char>, from: usize, to: usize) -> (v: Vec<char>)
    requires
        from <= to <= chars.len(),
    ensures
        v@ == chars@.subrange(from as int, to as int),
{
    let mut v: Vec<char> = Vec::new();
    let mut i: usize = from;
    while i < to
        invariant
            from <= i <= to <= chars.len(),
            v@ == chars@.subrange(from as int, i as int),
        decreases to - i,
    {
        v.push(chars[i]);
        assert(chars@.subrange(from as int, i as int + 1) =~= chars@.subrange(from as int, i as int).push(chars@[i as int]));
        i = i + 1;
    }
    v
}

proof fn lemma_first_match_shift(s: Seq<char>, pat: Seq<char>, start: int, i: int)
    requires
        0 <= start <= i <= s.len(),
        forall|j: int| start <= j < i ==> !matches_at(s, pat, j),
    ensures
        matches_at(s, pat, i) ==> first_match(s.skip(start), pat) == i - start,
        i + pat.len() > s.len() ==> first_match(s.skip(start), pat) == -1,
{
    let t = s.skip(start);
    lemma_first_match(t, pat);
    assert forall|j: int| 0 <= j && j + pat.len() <= t.len() implies
        (matches_at(t, pat, j) <==> matches_at(s, pat, j + start)) by {
        assert(t.subrange(j, j + pat.len()) =~= s.subrange(j + start, j + start + pat.len()));
    }
    let f = first_match(t, pat);
    if matches_at(s, pat, i) {
        assert(matches_at(t, pat, i - start));
        if f < 0 {
        } else if f < i - start {
            assert(matches_at(s, pat, f + start));
        } else if f > i - start {
        }
    }
    if i + pat.len() > s.len() {
        if f >= 0 {
            assert(matches_at(s, pat, f + start));
        }
    }
}

/// The fields of `s` between the occurrences of `sep` (see `split_on`).
pub fn split_str(s: &str, sep: &str) -> (fields: Vec<Vec<char>>)
    requires
        sep@.len() > 0,
    ensures
        fields@.map_values(|f: Vec<char>| f@) == split_on(s@, sep@),
{
    let chars = chars_of(s);
    let pat = chars_of(sep);
    split_chars(&chars, &pat)
}

/// The fields of `chars` between the occurrences of `pat` (see `split_on`).
pub fn split_chars(chars: &Vec<char>, pat: &Vec<char>) -> (fields: Vec<Vec<char>>)
    requires
        pat@.len() > 0,
    ensures
        fields@.map_values(|f: Vec<char>| f@) == split_on(chars@, pat@),
{
    let ghost sq = chars@;
    let mut fields: Vec<Vec<char>> = Vec::new();
    let mut start: usize = 0;
    let mut i: usize = 0;
    assert(sq.skip(0) =~= sq);
    while pat.len() <= chars.len() && i <= chars.len() - pat.len()
        invariant
            start <= i <= chars.len(),
            sq == chars@,
            pat@.len() > 0,
            forall|j: int| start <= j < i ==> !matches_at(sq, pat@, j),
            split_on(sq, pat@) == fields@.map_values(|f: Vec<char>| f@) + split_on(sq.skip(start as int), pat@),
        decreases chars.len() - i,
    {
        if matches_here(&chars, &pat, i) {
            proof {
                lemma_first_match_shift(sq, pat@, start as int, i as int);
                let t = sq.skip(start as int);
                assert(t.take(i - start) =~= sq.subrange(start as int, i as int));
                assert(t.skip(i - start + pat.len()) =~= sq.skip(i + pat.len()));
            }
            let field = sub_chars(&chars, start, i);
            let ghost before = fields@;
            fields.push(field);
            assert(fields@.map_values(|f: Vec<char>| f@) =~= before.map_values(|f: Vec<char>| f@).push(field@));
            i = i + pat.len();
            start = i;
        } else {
            i = i + 1;
        }
    }
    proof {
        lemma_first_match_shift(sq, pat@, start as int, i as int);
        if i < chars.len() {
            // positions from i on leave no room for `pat`
            lemma_first_match_shift(sq, pat@, start as int, i as int);
        }
    }
    let ghost before = fields@;
    let last = sub_chars(&chars, start, chars.len());
    assert(last@ =~= sq.skip(start as int));
    fields.push(last);
    assert(fields@.map_values(|f: Vec<char>| f@) =~= before.map_values(|f: Vec<char>| f@).push(last@));
    fields
}

} // verus!

verus! {

/// Whether `pat` occurs in `s` (what `str::contains` tests for a string pattern).
pub fn contains_str(s: &str, pat: &str) -> (b: bool)
    ensures
        b == exists|j: int| matches_at(s@, pat@, j),
{
    let chars = chars_of(s);
    let p = chars_of(pat);
    if p.len() > chars.len() {
        assert forall|j: int| !matches_at(s@, pat@, j) by {}
        return false;
    }
    let last = chars.len() - p.len();
    let mut i: usize = 0;
    loop
        invariant_except_break
            i <= last,
        invariant
            p.len() <= chars.len(),
            last == chars.len() - p.len(),
            chars@ == s@,
            p@ == pat@,
            forall|j: int| 0 <= j < i ==> !matches_at(s@, pat@, j),
        ensures
            i == last,
            !matches_at(s@, pat@, i as int),
        decreases last - i,
    {
        if matches_here(&chars, &p, i) {
            return true;
        }
        if i == last {
            break;
        }
        i = i + 1;
    }
    assert forall|j: int| !matches_at(s@, pat@, j) by {
        if 0 <= j && j < i {
        }
    }
    false
}

proof fn lemma_join_push(fields: Seq<Seq<char>>, sep: Seq<char>, x: Seq<char>)
    ensures
        join_with(fields.push(x), sep) == if fields.len() == 0 {
            x
        } else {
            join_with(fields, sep) + sep + x
        },
    decreases fields.len(),
{
    if fields.len() == 0 {
        assert(fields.push(x) =~= seq![x]);
    } else if fields.len() == 1 {
        assert(fields.push(x).skip(1) =~= seq![x]);
        assert(join_with(seq![x], sep) == x);
        assert(fields.push(x)[0] == fields[0]);
    } else {
        lemma_join_push(fields.skip(1), sep, x);
        assert(fields.push(x).skip(1) =~= fields.skip(1).push(x));
        assert(fields.push(x)[0] == fields[0]);
        assert(fields[0] + sep + (join_with(fields.skip(1), sep) + sep + x) =~= fields[0] + sep + join_with(fields.skip(1), sep) + sep + x);
    }
}

/// The character sequences `fields` joined by `sep`, as a string.
pub fn join_chars(fields: &Vec<Vec<char>>, sep: &str) -> (s: String)
    ensures
        s@ == join_with(fields@.map_values(|f: Vec<char>| f@), sep@),
{
    let ghost fs = fields@.map_values(|f: Vec<char>| f@);
    let mut s = String::new();
    let mut k: usize = 0;
    while k < fields.len()
        invariant
            k <= fields.len(),
            fs == fields@.map_values(|f: Vec<char>| f@),
            s@ == join_with(fs.take(k as int), sep@),
        decreases fields.len() - k,
    {
        proof {
            lemma_join_push(fs.take(k as int), sep@, fs[k as int]);
            assert(fs.take(k as int + 1) =~= fs.take(k as int).push(fs[k as int]));
        }
        if k > 0 {
            s.append(sep);
        }
        let piece = string_from_chars(&fields[k]);
        s.append(piece.as_str());
        k = k + 1;
    }
    assert(fs.take(fields.len() as int) =~= fs);
    s
}

/// `s` with every occurrence of `from` replaced by `to` (see `replace_all`).
pub fn replace_str(s: &str, from: &str, to: &str) -> (r: String)
    requires
        from@.len() > 0,
    ensures
        r@ == replace_all(s@, from@, to@),
{
    let fields = split_str(s, from);
    join_chars(&fields, to)
}

/// Joining the fields of `s` with the separator they were split at gives `s` back
/// (so replacing a pattern by itself changes nothing).
pub proof fn lemma_join_split(s: Seq<char>, sep: Seq<char>)
    requires
        sep.len() > 0,
    ensures
        join_with(split_on(s, sep), sep) == s,
        replace_all(s, sep, sep) == s,
    decreases s.len(),
{
    let i = first_match(s, sep);
    lemma_first_match(s, sep);
    if i >= 0 {
        let rest = s.skip(i + sep.len());
        lemma_join_split(rest, sep);
        let fields = split_on(s, sep);
        assert(fields == seq![s.take(i)] + split_on(rest, sep));
        lemma_split_nonempty(rest, sep);
        assert(fields.len() >= 2);
        assert(fields[0] == s.take(i));
        assert(fields.skip(1) =~= split_on(rest, sep));
        assert(s.subrange(i, i + sep.len()) == sep);
        assert(s.take(i) + sep + rest =~= s);
    }
}

/// `first_match` is the index of an occurrence of `pat` when no earlier index
/// holds one.
pub proof fn lemma_first_match_at(s: Seq<char>, pat: Seq<char>, k: int)
    requires
        matches_at(s, pat, k),
        forall|j: int| 0 <= j < k ==> !matches_at(s, pat, j),
    ensures
        first_match(s, pat) == k,
{
    lemma_first_match(s, pat);
}

/// The first field of a split is where `s` starts, up to the first separator:
/// a prefix of `s` free of the separator, followed by the separator when there
/// are more fields, and all of `s` when there is just one.
pub proof fn lemma_split_first_field(s: Seq<char>, sep: Seq<char>)
    requires
        sep.len() > 0,
    ensures
        split_on(s, sep)[0] == s.take(split_on(s, sep)[0].len() as int),
        first_match(split_on(s, sep)[0], sep) < 0,
        split_on(s, sep).len() > 1 ==> matches_at(s, sep, split_on(s, sep)[0].len() as int),
        split_on(s, sep).len() == 1 ==> split_on(s, sep)[0] == s,
{
    lemma_split_fields_free(s, sep);
    lemma_split_nonempty(s, sep);
    lemma_first_match(s, sep);
    let i = first_match(s, sep);
    if i < 0 {
        assert(split_on(s, sep) == seq![s]);
        assert(s.take(s.len() as int) =~= s);
    } else {
        let rest = s.skip(i + sep.len());
        lemma_split_nonempty(rest, sep);
        assert(split_on(s, sep) == seq![s.take(i)] + split_on(rest, sep));
    }
}

/// No field of a split holds the separator.
pub proof fn lemma_split_fields_free(s: Seq<char>, sep: Seq<char>)
    requires
        sep.len() > 0,
    ensures
        forall|i: int| 0 <= i < split_on(s, sep).len() ==> first_match(#[trigger] split_on(s, sep)[i], sep) < 0,
    decreases s.len(),
{
    let i = first_match(s, sep);
    lemma_first_match(s, sep);
    if i < 0 {
        assert(split_on(s, sep) == seq![s]);
    } else {
        let rest = s.skip(i + sep.len());
        lemma_split_fields_free(rest, sep);
        let head = s.take(i);
        lemma_first_match(head, sep);
        if first_match(head, sep) >= 0 {
            let j = first_match(head, sep);
            assert(head.subrange(j, j + sep.len()) =~= s.subrange(j, j + sep.len()));
            assert(matches_at(s, sep, j));
        }
        let fields = split_on(s, sep);
        assert(fields == seq![head] + split_on(rest, sep));
        assert forall|k: int| 0 <= k < fields.len() implies first_match(#[trigger] fields[k], sep) < 0 by {
            if k > 0 {
                assert(fields[k] == split_on(rest, sep)[k - 1]);
            }
        }
    }
}

/// `str::split` yields at least one field.
pub proof fn lemma_split_nonempty(s: Seq<char>, sep: Seq<char>)
    requires
        sep.len() > 0,
    ensures
        split_on(s, sep).len() >= 1,
{
}

/// The first field of `s` before an occurrence of `sep` (what `split(sep).next()` gives).
pub fn first_field(s: &str, sep: &str) -> (f: String)
    requires
        sep@.len() > 0,
    ensures
        f@ == split_on(s@, sep@)[0],
{
    let fields = split_str(s, sep);
    proof {
        lemma_split_nonempty(s@, sep@);
    }
    assert(fields@.map_values(|x: Vec<char>| x@)[0] == fields@[0]@);
    string_from_chars(&fields[0])
}

} // verus!

verus! {

/// An ASCII decimal digit.
pub open spec fn is_digit_char(c: char) -> bool {
    '0' <= c <= '9'
}

/// Every character of `s` is a decimal digit.
pub open spec fn all_digits(s: Seq<char>) -> bool {
    forall|i: int| 0 <= i < s.len() ==> is_digit_char(#[trigger] s[i])
}

/// The number written by the decimal digits `s`.
pub open spec fn digits_value(s: Seq<char>) -> int
    decreases s.len(),
{
    if s.len() == 0 {
        0
    } else {
        10 * digits_value(s.drop_last()) + (s.last() as int - 48)
    }
}

/// What `str::parse::<i32>` gives: an optional `+` or `-`, then at least one
/// decimal digit and nothing else, of a value that fits an `i32`.
pub open spec fn parse_i32_of(s: Seq<char>) -> Option<i32> {
    let neg = s.len() > 0 && s[0] == '-';
    let signed = s.len() > 0 && (s[0] == '-' || s[0] == '+');
    let d = if signed { s.skip(1) } else { s };
    if d.len() == 0 || !all_digits(d) {
        None
    } else {
        let v = if neg { -digits_value(d) } else { digits_value(d) };
        if i32::MIN <= v <= i32::MAX {
            Some(v as i32)
        } else {
            None
        }
    }
}

proof fn lemma_digits_value_grows(s: Seq<char>, k: int)
    requires
        0 <= k <= s.len(),
        all_digits(s),
    ensures
        0 <= digits_value(s.take(k)) <= digits_value(s),
    decreases s.len(),
{
    if k == s.len() {
        assert(s.take(k) =~= s);
    }
    if s.len() > 0 {
        assert(all_digits(s.drop_last())) by {
            assert forall|i: int| 0 <= i < s.drop_last().len() implies is_digit_char(#[trigger] s.drop_last()[i]) by {
                assert(s.drop_last()[i] == s[i]);
            }
        }
        assert(is_digit_char(s[s.len() - 1]));
        if k < s.len() {
            lemma_digits_value_grows(s.drop_last(), k);
            assert(s.drop_last().take(k) =~= s.take(k));
        } else {
            lemma_digits_value_grows(s.drop_last(), k - 1);
        }
    }
}

/// The decimal writing of a natural number, without leading zeros (`0` for 0).
pub open spec fn decimal_of(n: nat) -> Seq<char>
    decreases n,
{
    if n < 10 {
        seq![(48 + n) as char]
    } else {
        decimal_of(n / 10).push((48 + n % 10) as char)
    }
}

proof fn lemma_decimal_of(n: nat)
    ensures
        decimal_of(n).len() > 0,
        all_digits(decimal_of(n)),
        digits_value(decimal_of(n)) == n,
    decreases n,
{
    if n >= 10 {
        lemma_decimal_of(n / 10);
        let d = decimal_of(n / 10);
        let s = decimal_of(n);
        assert(s.drop_last() =~= d);
        assert forall|i: int| 0 <= i < s.len() implies is_digit_char(#[trigger] s[i]) by {
            if i < d.len() {
                assert(s[i] == d[i]);
            }
        }
        assert(n == 10 * (n / 10) + n % 10) by (nonlinear_arith);
        assert(s.last() == ((48 + n % 10) as char));
        assert(((48 + n % 10) as char) as int == 48 + n % 10);
        assert(digits_value(s) == 10 * digits_value(d) + (s.last() as int - 48));
    } else {
        assert(((48 + n) as char) as int == 48 + n);
        assert(decimal_of(n).drop_last() =~= Seq::<char>::empty());
        assert(digits_value(decimal_of(n).drop_last()) == 0);
    }
}

/// Every `i32` written in decimal, with a `-` when negative and optionally a `+`
/// when not, reads back as that number.
pub proof fn lemma_parse_i32_round_trip(v: i32)
    ensures
        v >= 0 ==> parse_i32_of(decimal_of(v as nat)) == Some(v),
        v >= 0 ==> parse_i32_of(seq!['+'] + decimal_of(v as nat)) == Some(v),
        v < 0 ==> parse_i32_of(seq!['-'] + decimal_of((-v) as nat)) == Some(v),
{
    if v >= 0 {
        let d = decimal_of(v as nat);
        lemma_decimal_of(v as nat);
        assert(d[0] != '-' && d[0] != '+') by {
            assert(is_digit_char(d[0]));
        }
        let p = seq!['+'] + d;
        assert(p.skip(1) =~= d);
    } else {
        let d = decimal_of((-v) as nat);
        lemma_decimal_of((-v) as nat);
        let m = seq!['-'] + d;
        assert(m.skip(1) =~= d);
    }
}

/// The `i32` written in `s` (see `parse_i32_of`), or `None`.
pub fn parse_i32(s: &str) -> (v: Option<i32>)
    ensures
        v == parse_i32_of(s@),
{
    let chars = chars_of(s);
    let ghost sq = chars@;
    let neg = chars.len() > 0 && chars[0] == '-';
    let signed = chars.len() > 0 && (chars[0] == '-' || chars[0] == '+');
    let start: usize = if signed { 1 } else { 0 };
    let ghost d = if signed { sq.skip(1) } else { sq };
    assert(d =~= sq.subrange(start as int, sq.len() as int));
    if start == chars.len() {
        return None;
    }
    let mut acc: i64 = 0;
    let mut i: usize = start;
    assert(d.take(0) =~= Seq::<char>::empty());
    while i < chars.len()
        invariant
            start <= i <= chars.len(),
            sq == chars@,
            sq == s@,
            signed == (sq.len() > 0 && (sq[0] == '-' || sq[0] == '+')),
            neg == (sq.len() > 0 && sq[0] == '-'),
            d == (if signed { sq.skip(1) } else { sq }),
            d =~= sq.subrange(start as int, sq.len() as int),
            forall|j: int| 0 <= j < i - start ==> is_digit_char(#[trigger] d[j]),
            acc == digits_value(d.take(i - start)),
            0 <= acc <= 2147483648,
        decreases chars.len() - i,
    {
        let c = chars[i];
        if c < '0' || c > '9' {
            assert(!is_digit_char(d[i - start]));
            assert(!all_digits(d));
            assert(s@ == sq);
            return None;
        }
        let digit: i64 = ((c as u32) - 48) as i64;
        assert(d.take(i - start + 1).drop_last() =~= d.take(i - start));
        assert(d.take(i - start + 1).last() == c);
        acc = acc * 10 + digit;
        if acc > 2147483648 {
            proof {
                assert(s@ == sq);
                if all_digits(d) {
                    lemma_digits_value_grows(d, i - start + 1);
                    assert(digits_value(d) > 2147483648);
                }
            }
            return None;
        }
        i = i + 1;
    }
    assert(d.take(d.len() as int) =~= d);
    assert(all_digits(d));
    if neg {
        if acc > 2147483648 {
            None
        } else {
            Some((-acc) as i32)
        }
    } else {
        if acc > 2147483647 {
            None
        } else {
            Some(acc as i32)
        }
    }
}

} // verus!
