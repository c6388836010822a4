//! Text handling for stored entries and account identifiers.
use vstd::prelude::*;

verus! {

broadcast use vstd::string::group_string_axioms;

/// The characters of a string, in order.
pub fn chars_of(s: &str) -> (v: Vec<char>)
    ensures
        v@ == s@,
{
    let mut v: Vec<char> = Vec::new();
    for c in iter: s.chars()
        invariant
            v@ == iter.seq().take(iter.index() as int),
    {
        v.push(c);
    }
    v
}


/// Calls `String::from_iter` over the characters, which collects them in order.
#[verifier::external_body]
pub(crate) fn string_from_chars(chars: &Vec<char>) -> (s: String)
    ensures
        s@ == chars@,
{
    chars.iter().collect()
}

/// The pieces of `s` between occurrences of `sep`, as `str::split` yields
/// them: there is always at least one piece, and pieces may be empty.
pub open spec fn split_on(s: Seq<char>, sep: char) -> Seq<Seq<char>>
    decreases s.len(),
{
    if s.len() == 0 {
        seq![Seq::<char>::empty()]
    } else {
        let pieces = split_on(s.drop_last(), sep);
        if s.last() == sep {
            pieces.push(Seq::<char>::empty())
        } else {
            pieces.update(pieces.len() - 1, pieces.last().push(s.last()))
        }
    }
}

/// The views of a sequence of strings.
pub open spec fn texts(v: Seq<String>) -> Seq<Seq<char>> {
    v.map_values(|t: String| t@)
}

pub proof fn lemma_split_on_nonempty(s: Seq<char>, sep: char)
    ensures
        split_on(s, sep).len() >= 1,
    decreases s.len(),
{
    if s.len() > 0 {
        lemma_split_on_nonempty(s.drop_last(), sep);
    }
}

/// Pieces put back together with the separator between them.
pub open spec fn join_pieces(pieces: Seq<Seq<char>>, sep: char) -> Seq<char>
    decreases pieces.len(),
{
    if pieces.len() == 0 {
        seq![]
    } else if pieces.len() == 1 {
        pieces[0]
    } else {
        join_pieces(pieces.drop_last(), sep).push(sep) + pieces.last()
    }
}

/// Splitting loses nothing: no piece holds the separator, and joining the
/// pieces with the separator gives the text back.
pub proof fn lemma_split_on_rejoins(s: Seq<char>, sep: char)
    ensures
        forall|i: int| 0 <= i < split_on(s, sep).len() ==> free_of(#[trigger] split_on(s, sep)[i], sep),
        join_pieces(split_on(s, sep), sep) == s,
    decreases s.len(),
{
    if s.len() > 0 {
        let t = s.drop_last();
        lemma_split_on_rejoins(t, sep);
        lemma_split_on_nonempty(t, sep);
        let p = split_on(t, sep);
        let c = s.last();
        assert(t.push(c) =~= s);
        if c == sep {
            let q = p.push(Seq::<char>::empty());
            assert(q.drop_last() =~= p);
            assert forall|i: int| 0 <= i < q.len() implies free_of(#[trigger] q[i], sep) by {
                if i < p.len() {
                    assert(q[i] == p[i]);
                }
            }
            assert(join_pieces(q, sep) =~= s);
        } else {
            let x = p.last().push(c);
            let q = p.update(p.len() - 1, x);
            assert forall|i: int| 0 <= i < q.len() implies free_of(#[trigger] q[i], sep) by {
                if i < p.len() - 1 {
                    assert(q[i] == p[i]);
                } else {
                    assert(free_of(p[p.len() - 1], sep));
                    assert forall|k: int| 0 <= k < x.len() implies #[trigger] x[k] != sep by {
                        if k < x.len() - 1 {
                            assert(x[k] == p.last()[k]);
                        }
                    }
                }
            }
            if p.len() == 1 {
                assert(join_pieces(p, sep) == p[0]);
                assert(join_pieces(q, sep) =~= s);
            } else {
                assert(q.drop_last() =~= p.drop_last());
                assert(join_pieces(q, sep) =~= s);
            }
        }
    }
}

/// Splits `s` at every `sep`, as `s.split(sep)` does.
pub fn split_text(s: &str, sep: char) -> (parts: Vec<String>)
    ensures
        texts(parts@) == split_on(s@, sep),
        parts@.len() >= 1,
        forall|i: int| 0 <= i < parts@.len() ==> free_of(#[trigger] parts@[i]@, sep),
        join_pieces(texts(parts@), sep) == s@,
{
    let cs = chars_of(s);
    let mut parts: Vec<String> = Vec::new();
    let mut current: Vec<char> = Vec::new();
    let mut i: usize = 0;
    while i < cs.len()
        invariant
            cs@ == s@,
            i <= cs@.len(),
            texts(parts@).push(current@) == split_on(cs@.take(i as int), sep),
        decreases cs@.len() - i,
    {
        let c = cs[i];
        proof {
            assert(cs@.take(i as int + 1).drop_last() =~= cs@.take(i as int));
            lemma_split_on_nonempty(cs@.take(i as int), sep);
        }
        if c == sep {
            let piece = string_from_chars(&current);
            parts.push(piece);
            current = Vec::new();
            assert(texts(parts@).push(current@) =~= split_on(cs@.take(i as int), sep).push(Seq::<char>::empty()));
        } else {
            let ghost before = texts(parts@).push(current@);
            current.push(c);
            assert(texts(parts@).push(current@) =~= before.update(before.len() - 1, before.last().push(c)));
        }
        i = i + 1;
    }
    let last = string_from_chars(&current);
    parts.push(last);
    assert(cs@.take(cs@.len() as int) =~= cs@);
    assert(texts(parts@) =~= split_on(s@, sep));
    proof {
        lemma_split_on_rejoins(s@, sep);
        lemma_split_on_nonempty(s@, sep);
        assert forall|i: int| 0 <= i < parts@.len() implies free_of(#[trigger] parts@[i]@, sep) by {
            assert(texts(parts@)[i] == parts@[i]@);
        }
    }
    parts
}


/// `sep` does not occur in `s`.
pub open spec fn free_of(s: Seq<char>, sep: char) -> bool {
    forall|i: int| 0 <= i < s.len() ==> #[trigger] s[i] != sep
}

/// Appending text free of the separator extends the last piece.
pub proof fn lemma_split_on_append_free(x: Seq<char>, y: Seq<char>, sep: char)
    requires
        free_of(y, sep),
    ensures
        split_on(x + y, sep) == split_on(x, sep).update(
            split_on(x, sep).len() - 1,
            split_on(x, sep).last() + y,
        ),
    decreases y.len(),
{
    lemma_split_on_nonempty(x, sep);
    if y.len() == 0 {
        assert(x + y =~= x);
        assert(split_on(x, sep).last() + y =~= split_on(x, sep).last());
        assert(split_on(x, sep).update(split_on(x, sep).len() - 1, split_on(x, sep).last())
            =~= split_on(x, sep));
    } else {
        let y0 = y.drop_last();
        assert(free_of(y0, sep)) by {
            assert forall|i: int| 0 <= i < y0.len() implies #[trigger] y0[i] != sep by {
                assert(y0[i] == y[i]);
            }
        }
        lemma_split_on_append_free(x, y0, sep);
        assert((x + y).drop_last() =~= x + y0);
        assert((x + y).last() == y.last());
        assert(y.last() == y[y.len() - 1]);
        let p = split_on(x, sep);
        assert(p.last() + y =~= (p.last() + y0).push(y.last()));
        lemma_split_on_nonempty(x + y0, sep);
        assert(split_on(x + y, sep) =~= p.update(p.len() - 1, p.last() + y));
    }
}

/// Appending the separator starts a new, empty piece.
pub proof fn lemma_split_on_append_sep(x: Seq<char>, sep: char)
    ensures
        split_on(x.push(sep), sep) == split_on(x, sep).push(Seq::<char>::empty()),
{
    assert(x.push(sep).drop_last() =~= x);
}

/// Three texts joined by `|`.
pub open spec fn join3(a: Seq<char>, b: Seq<char>, c: Seq<char>) -> Seq<char> {
    a.push('|') + b.push('|') + c
}

/// Splitting three `|`-free texts joined by `|` gives back the three texts.
pub proof fn lemma_split_join3(a: Seq<char>, b: Seq<char>, c: Seq<char>)
    requires
        free_of(a, '|'),
        free_of(b, '|'),
        free_of(c, '|'),
    ensures
        split_on(join3(a, b, c), '|') == seq![a, b, c],
{
    let e = Seq::<char>::empty();
    assert(split_on(e, '|') == seq![e]);
    lemma_split_on_append_free(e, a, '|');
    assert(e + a =~= a);
    assert(split_on(a, '|') =~= seq![a]);
    lemma_split_on_append_sep(a, '|');
    assert(split_on(a.push('|'), '|') =~= seq![a, e]);
    lemma_split_on_append_free(a.push('|'), b, '|');
    assert(split_on(a.push('|') + b, '|') =~= seq![a, b]);
    assert((a.push('|') + b).push('|') =~= a.push('|') + b.push('|'));
    lemma_split_on_append_sep(a.push('|') + b, '|');
    assert(split_on(a.push('|') + b.push('|'), '|') =~= seq![a, b, e]);
    lemma_split_on_append_free(a.push('|') + b.push('|'), c, '|');
    assert(split_on(join3(a, b, c), '|') =~= seq![a, b, c]);
}

/// Joins three texts with `|` between them, as `format!("{}|{}|{}", a, b, c)`.
pub fn join_with_bars(a: &str, b: &str, c: &str) -> (res: String)
    ensures
        res@ == join3(a@, b@, c@),
{
    let bar = "|";
    proof {
        reveal_strlit("|");
    }
    let mut res = a.to_owned();
    res.append(bar);
    res.append(b);
    res.append(bar);
    res.append(c);
    assert(res@ =~= join3(a@, b@, c@));
    res
}


/// An ASCII decimal digit.
pub open spec fn is_digit(c: char) -> bool {
    '0' <= c <= '9'
}

/// Every character is an ASCII decimal digit.
pub open spec fn all_digits(s: Seq<char>) -> bool {
    forall|i: int| 0 <= i < s.len() ==> is_digit(#[trigger] s[i])
}

/// The value of a run of decimal digits, most significant first.
pub open spec fn digits_value(s: Seq<char>) -> nat
    decreases s.len(),
{
    if s.len() == 0 {
        0
    } else {
        digits_value(s.drop_last()) * 10 + (s.last() as nat - 48) as nat
    }
}

/// What `str::parse::<i32>` gives: an optional `+` or `-`, then one or more
/// ASCII digits whose value fits in `i32`; otherwise nothing.
pub open spec fn parse_i32(s: Seq<char>) -> Option<i32> {
    let negative = s.len() > 0 && s[0] == '-';
    let body = if s.len() > 0 && (s[0] == '-' || s[0] == '+') { s.drop_first() } else { s };
    if body.len() == 0 || !all_digits(body) {
        None
    } else {
        let v: int = if negative { -(digits_value(body) as int) } else { digits_value(body) as int };
        if i32::MIN <= v <= i32::MAX {
            Some(v as i32)
        } else {
            None
        }
    }
}

/// A longer run of digits is worth at least as much as its prefix.
pub proof fn lemma_digits_value_prefix(s: Seq<char>, k: int)
    requires
        all_digits(s),
        0 <= k <= s.len(),
    ensures
        digits_value(s.take(k)) <= digits_value(s),
    decreases s.len() - k,
{
    if k < s.len() {
        lemma_digits_value_prefix(s, k + 1);
        assert(s.take(k + 1).drop_last() =~= s.take(k));
        assert(is_digit(s[k]));
    } else {
        assert(s.take(k) =~= s);
    }
}

/// What parsing accepts: an optional sign followed by at least one digit;
/// plain digits within range read as their value; without `-` the value is
/// not negative.
pub proof fn lemma_parse_i32_shape(s: Seq<char>)
    ensures
        parse_i32(s) is Some ==> s.len() > 0 && (is_digit(s[0]) || s[0] == '-' || s[0] == '+')
            && (forall|i: int| 1 <= i < s.len() ==> is_digit(#[trigger] s[i]))
            && (s.len() > 1 || is_digit(s[0])),
        s.len() > 0 && all_digits(s) && digits_value(s) <= i32::MAX ==> parse_i32(s) == Some(digits_value(s) as i32),
        s.len() > 0 && s[0] != '-' ==> (parse_i32(s) matches Some(v) ==> v >= 0),
{
    if parse_i32(s) is Some {
        let body = if s.len() > 0 && (s[0] == '-' || s[0] == '+') { s.drop_first() } else { s };
        assert(all_digits(body));
        assert forall|i: int| 1 <= i < s.len() implies is_digit(#[trigger] s[i]) by {
            if s[0] == '-' || s[0] == '+' {
                assert(s[i] == body[i - 1]);
            } else {
                assert(s[i] == body[i]);
            }
        }
        if !(s[0] == '-' || s[0] == '+') {
            assert(s[0] == body[0]);
        }
    }
    if s.len() > 0 && all_digits(s) {
        assert(is_digit(s[0]));
    }
}

/// Parses a decimal `i32`, as `str::parse::<i32>` does.
pub fn parse_i32_text(s: &str) -> (res: Option<i32>)
    ensures
        res == parse_i32(s@),
        res is Some ==> s@.len() > 0 && (is_digit(s@[0]) || s@[0] == '-' || s@[0] == '+')
            && (forall|i: int| 1 <= i < s@.len() ==> is_digit(#[trigger] s@[i]))
            && (s@.len() > 1 || is_digit(s@[0])),
        s@.len() > 0 && all_digits(s@) && digits_value(s@) <= i32::MAX ==> res == Some(digits_value(s@) as i32),
        s@.len() > 0 && s@[0] != '-' ==> (res matches Some(v) ==> v >= 0),
{
    let cs = chars_of(s);
    let n = cs.len();
    let mut start: usize = 0;
    let mut negative = false;
    if n > 0 && (cs[0] == '-' || cs[0] == '+') {
        negative = cs[0] == '-';
        start = 1;
    }
    let ghost body = if s@.len() > 0 && (s@[0] == '-' || s@[0] == '+') { s@.drop_first() } else { s@ };
    assert(body =~= cs@.skip(start as int));
    proof {
        lemma_parse_i32_shape(s@);
    }
    if start == n {
        return None;
    }
    let mut acc: u64 = 0;
    let mut i: usize = start;
    while i < n
        invariant
            cs@ == s@,
            n == cs@.len(),
            start <= i <= n,
            body == cs@.skip(start as int),
            body == (if s@.len() > 0 && (s@[0] == '-' || s@[0] == '+') { s@.drop_first() } else { s@ }),
            negative == (s@.len() > 0 && s@[0] == '-'),
            all_digits(body.take(i - start)),
            acc == digits_value(body.take(i - start)),
            acc <= 0x8000_0000,
        decreases n - i,
    {
        let c = cs[i];
        assert(body[i - start] == c);
        if !('0' <= c && c <= '9') {
            assert(!all_digits(body));
            assert(body.len() > 0);
            assert(body == (if s@.len() > 0 && (s@[0] == '-' || s@[0] == '+') { s@.drop_first() } else { s@ }));
            assert(parse_i32(s@) is None);
            return None;
        }
        let d = (c as u32 - 48) as u64;
        assert(body.take(i - start + 1).drop_last() =~= body.take(i - start));
        assert(body.take(i - start + 1).last() == c);
        assert(all_digits(body.take(i - start + 1)));
        assert(digits_value(body.take(i - start + 1)) == acc * 10 + d);
        acc = acc * 10 + d;
        i = i + 1;
        if acc > 0x8000_0000 {
            proof {
                if all_digits(body) {
                    lemma_digits_value_prefix(body, i - start);
                    assert(digits_value(body) > 0x8000_0000);
                }
                assert(parse_i32(s@) is None);
            }
            return None;
        }
    }
    assert(body.take(i - start) =~= body);
    if negative {
        Some((0 - acc as i64) as i32)
    } else if acc <= 0x7FFF_FFFF {
        Some(acc as i32)
    } else {
        None
    }
}

/// The decimal digits of a number, without leading zeros.
pub open spec fn decimal(n: nat) -> Seq<char>
    decreases n,
{
    if n < 10 {
        seq![(48 + n) as char]
    } else {
        decimal(n / 10).push((48 + n % 10) as char)
    }
}

/// `n` written as `format!("{:03}", n)` writes a non-negative number: its
/// decimal digits, with zeros in front up to three characters.
pub open spec fn zero_padded3(n: nat) -> Seq<char> {
    let d = decimal(n);
    if d.len() < 3 {
        Seq::new((3 - d.len()) as nat, |i: int| '0') + d
    } else {
        d
    }
}

pub proof fn lemma_decimal(n: nat)
    ensures
        decimal(n).len() >= 1,
        all_digits(decimal(n)),
        digits_value(decimal(n)) == n,
        n < 10 ==> decimal(n).len() == 1,
        n < 100 ==> decimal(n).len() <= 2,
        n >= 1 ==> decimal(n)[0] != '0',
    decreases n,
{
    if n < 10 {
        let d = decimal(n);
        assert(d.drop_last() =~= Seq::<char>::empty());
        assert(d.last() == (48 + n) as char);
        assert((d.last() as nat - 48) as nat == n);
        assert(digits_value(Seq::<char>::empty()) == 0);
        assert(digits_value(d) == n);
    } else {
        lemma_decimal(n / 10);
        let d = decimal(n);
        assert(d.drop_last() =~= decimal(n / 10));
        assert(d[0] == decimal(n / 10)[0]);
        assert(d.last() == (48 + n % 10) as char);
        assert((d.last() as nat - 48) as nat == n % 10);
        assert(digits_value(d) == digits_value(decimal(n / 10)) * 10 + n % 10);
        assert(digits_value(decimal(n / 10)) == n / 10);
        assert((n / 10) * 10 + n % 10 == n);
        assert(digits_value(d) == n);
    }
}

/// Leading zeros do not change the value of a run of digits.
pub proof fn lemma_digits_value_leading_zeros(z: nat, d: Seq<char>)
    ensures
        digits_value(Seq::new(z, |i: int| '0') + d) == digits_value(d) + digits_value(Seq::new(z, |i: int| '0')) * pow10(d.len()),
        digits_value(Seq::new(z, |i: int| '0')) == 0,
    decreases d.len() + z,
{
    let zs = Seq::new(z, |i: int| '0');
    if z > 0 {
        let zs1 = Seq::new((z - 1) as nat, |i: int| '0');
        assert(zs.drop_last() =~= zs1);
        lemma_digits_value_leading_zeros((z - 1) as nat, Seq::<char>::empty());
    }
    if d.len() > 0 {
        lemma_digits_value_leading_zeros(z, d.drop_last());
        assert((zs + d).drop_last() =~= zs + d.drop_last());
    } else {
        assert(zs + d =~= zs);
    }
}

/// Ten to the power `k`.
pub open spec fn pow10(k: nat) -> nat
    decreases k,
{
    if k == 0 { 1 } else { 10 * pow10((k - 1) as nat) }
}

/// A zero-padded number reads back as that number.
pub proof fn lemma_parse_zero_padded3(n: nat)
    requires
        1 <= n <= i32::MAX,
    ensures
        parse_i32(zero_padded3(n)) == Some(n as i32),
        zero_padded3(n).len() >= 3,
        all_digits(zero_padded3(n)),
{
    lemma_decimal(n);
    let d = decimal(n);
    let p = zero_padded3(n);
    if d.len() < 3 {
        let z = (3 - d.len()) as nat;
        lemma_digits_value_leading_zeros(z, d);
        assert(all_digits(p)) by {
            assert forall|i: int| 0 <= i < p.len() implies is_digit(#[trigger] p[i]) by {
                if i >= z {
                    assert(p[i] == d[i - z]);
                }
            }
        }
    }
    assert(p[0] != '-' && p[0] != '+');
}

/// A zero-padded number takes three characters below 1000 and has no
/// leading zero when it is longer.
pub proof fn lemma_zero_padded3_width(n: nat)
    requires
        n >= 1,
    ensures
        n < 1000 ==> zero_padded3(n).len() == 3,
        zero_padded3(n).len() > 3 ==> zero_padded3(n)[0] != '0',
        digits_value(zero_padded3(n)) == n,
{
    lemma_decimal(n);
    if n >= 10 {
        lemma_decimal(n / 10);
    }
    let d = decimal(n);
    if d.len() < 3 {
        lemma_digits_value_leading_zeros((3 - d.len()) as nat, d);
    }
}

/// A zero-padded number is at least three digits that read as the number.
pub proof fn lemma_zero_padded3_digits(n: nat)
    ensures
        zero_padded3(n).len() >= 3,
        all_digits(zero_padded3(n)),
        digits_value(zero_padded3(n)) == n,
        n < 1000 ==> zero_padded3(n).len() == 3,
{
    lemma_decimal(n);
    if n >= 10 {
        lemma_decimal(n / 10);
    }
    let d = decimal(n);
    let p = zero_padded3(n);
    if d.len() < 3 {
        let z = (3 - d.len()) as nat;
        lemma_digits_value_leading_zeros(z, d);
        assert forall|i: int| 0 <= i < p.len() implies is_digit(#[trigger] p[i]) by {
            if i >= z {
                assert(p[i] == d[i - z]);
            }
        }
    }
}

/// The decimal digits of `n`, most significant first.
pub fn decimal_text(n: u32) -> (res: Vec<char>)
    ensures
        res@ == decimal(n as nat),
    decreases n,
{
    if n < 10 {
        let mut v: Vec<char> = Vec::new();
        v.push((48u8 + n as u8) as char);
        v
    } else {
        let mut v = decimal_text(n / 10);
        v.push((48u8 + (n % 10) as u8) as char);
        v
    }
}

/// Writes `n` as `format!("{:03}", n)` does.
pub fn format_zero_padded3(n: u32) -> (res: String)
    ensures
        res@ == zero_padded3(n as nat),
        res@.len() >= 3,
        all_digits(res@),
        digits_value(res@) == n,
        n < 1000 ==> res@.len() == 3,
        res@.len() > 3 ==> res@[0] != '0',
{
    proof {
        if n >= 1 {
            lemma_zero_padded3_width(n as nat);
            if n <= i32::MAX {
                lemma_parse_zero_padded3(n as nat);
            }
        }
        lemma_zero_padded3_digits(n as nat);
    }
    let d = decimal_text(n);
    let mut v: Vec<char> = Vec::new();
    let mut k: usize = 0;
    let pad: usize = if d.len() < 3 { 3 - d.len() } else { 0 };
    while k < pad
        invariant
            k <= pad,
            pad == (if d@.len() < 3 { 3 - d@.len() } else { 0 }),
            v@ == Seq::new(k as nat, |i: int| '0'),
        decreases pad - k,
    {
        v.push('0');
        k = k + 1;
        assert(v@ =~= Seq::new(k as nat, |i: int| '0'));
    }
    let mut j: usize = 0;
    let ghost zs = v@;
    while j < d.len()
        invariant
            j <= d@.len(),
            v@ == zs + d@.take(j as int),
        decreases d@.len() - j,
    {
        v.push(d[j]);
        j = j + 1;
        assert(v@ =~= zs + d@.take(j as int));
    }
    assert(d@.take(d@.len() as int) =~= d@);
    assert(v@ =~= zero_padded3(n as nat));
    string_from_chars(&v)
}


/// What `str::to_uppercase` gives: the Unicode uppercase mapping of each
/// character, which may change the length of the text.
pub uninterp spec fn unicode_uppercase(s: Seq<char>) -> Seq<char>;

/// ASCII letters `a` to `z` made upper case; every other character kept.
pub open spec fn ascii_uppercase(s: Seq<char>) -> Seq<char> {
    s.map_values(|c: char| if 'a' <= c <= 'z' { ((c as u32) - 32) as char } else { c })
}

/// Calls `str::to_uppercase`. On ASCII text the Unicode mapping changes
/// only the letters `a` to `z`, to `A` to `Z`.
#[verifier::external_body]
pub(crate) fn to_uppercase_exec(s: &str) -> (res: String)
    ensures
        res@ == unicode_uppercase(s@),
        vstd::utf8::is_ascii_chars(s@) ==> res@ == ascii_uppercase(s@),
{
    s.to_uppercase()
}

} // verus!
