//! Verified helpers over strings, seen as sequences of characters.

use vstd::prelude::*;

verus! {

/// `e` is a suffix of `s`.
pub open spec fn seq_ends_with(s: Seq<char>, e: Seq<char>) -> bool {
    e.len() <= s.len() && s.subrange(s.len() - e.len(), s.len() as int) == e
}

/// `p` is a prefix of `s`.
pub open spec fn seq_starts_with(s: Seq<char>, p: Seq<char>) -> bool {
    p.len() <= s.len() && s.subrange(0, p.len() as int) == p
}

/// Character-by-character equality of two string slices.
pub fn str_eq(a: &str, b: &str) -> (r: bool)
    ensures
        r == (a@ == b@),
{
    let alen = a.unicode_len();
    let blen = b.unicode_len();
    if alen != blen {
        return false;
    }
    let mut i: usize = 0;
    while i < alen
        invariant
            i <= alen,
            alen == a@.len(),
            alen == b@.len(),
            forall|j: int| 0 <= j < i ==> a@[j] == b@[j],
        decreases alen - i,
    {
        if a.get_char(i) != b.get_char(i) {
            return false;
        }
        i = i + 1;
    }
    proof {
        assert(a@ =~= b@);
    }
    true
}

/// Does `s` end with `suffix`?
pub fn str_ends_with(s: &str, suffix: &str) -> (r: bool)
    ensures
        r == seq_ends_with(s@, suffix@),
{
    let slen = s.unicode_len();
    let elen = suffix.unicode_len();
    if elen > slen {
        return false;
    }
    let tail = s.substring_char(slen - elen, slen);
    str_eq(tail, suffix)
}

/// Does `s` start with `prefix`?
pub fn str_starts_with(s: &str, prefix: &str) -> (r: bool)
    ensures
        r == seq_starts_with(s@, prefix@),
{
    let slen = s.unicode_len();
    let plen = prefix.unicode_len();
    if plen > slen {
        return false;
    }
    let head = s.substring_char(0, plen);
    str_eq(head, prefix)
}

/// Lexicographic order on character sequences; mirrors how the standard
/// library orders strings (UTF-8 byte order equals code-point order).
pub open spec fn lex_le(a: Seq<char>, b: Seq<char>) -> bool
    decreases a.len(),
{
    if a.len() == 0 {
        true
    } else if b.len() == 0 {
        false
    } else if (a[0] as u32) == (b[0] as u32) {
        lex_le(a.skip(1), b.skip(1))
    } else {
        (a[0] as u32) < (b[0] as u32)
    }
}

/// The order holds of a sequence and itself.
pub proof fn lemma_lex_le_reflexive(a: Seq<char>)
    ensures
        lex_le(a, a),
    decreases a.len(),
{
    if a.len() > 0 {
        lemma_lex_le_reflexive(a.skip(1));
    }
}

/// One of the two orders always holds.
pub proof fn lemma_lex_le_total(a: Seq<char>, b: Seq<char>)
    ensures
        lex_le(a, b) || lex_le(b, a),
    decreases a.len(),
{
    if a.len() > 0 && b.len() > 0 && (a[0] as u32) == (b[0] as u32) {
        lemma_lex_le_total(a.skip(1), b.skip(1));
    }
}

/// The order is transitive.
pub proof fn lemma_lex_le_transitive(a: Seq<char>, b: Seq<char>, c: Seq<char>)
    requires
        lex_le(a, b),
        lex_le(b, c),
    ensures
        lex_le(a, c),
    decreases a.len(),
{
    if a.len() > 0 && b.len() > 0 && c.len() > 0 {
        if (a[0] as u32) == (b[0] as u32) && (b[0] as u32) == (c[0] as u32) {
            lemma_lex_le_transitive(a.skip(1), b.skip(1), c.skip(1));
        }
    }
}

/// With equal prefixes of length `i`, the order is decided by the rest.
proof fn lemma_lex_le_skip(a: Seq<char>, b: Seq<char>, i: int)
    requires
        0 <= i <= a.len(),
        i <= b.len(),
        forall|j: int| 0 <= j < i ==> (a[j] as u32) == (b[j] as u32),
    ensures
        lex_le(a, b) == lex_le(a.skip(i), b.skip(i)),
    decreases i,
{
    if i > 0 {
        assert(a.len() > 0 && b.len() > 0 && (a[0] as u32) == (b[0] as u32));
        lemma_lex_le_skip(a.skip(1), b.skip(1), i - 1);
        assert(a.skip(1).skip(i - 1) =~= a.skip(i));
        assert(b.skip(1).skip(i - 1) =~= b.skip(i));
    } else {
        assert(a.skip(0) =~= a);
        assert(b.skip(0) =~= b);
    }
}

/// Decide the lexicographic order of two string slices.
pub fn str_lex_le(a: &str, b: &str) -> (r: bool)
    ensures
        r == lex_le(a@, b@),
{
    let alen = a.unicode_len();
    let blen = b.unicode_len();
    let mut i: usize = 0;
    loop
        invariant
            i <= alen,
            i <= blen,
            alen == a@.len(),
            blen == b@.len(),
            forall|j: int| 0 <= j < i ==> (a@[j] as u32) == (b@[j] as u32),
        decreases alen - i,
    {
        if i == alen {
            proof {
                lemma_lex_le_skip(a@, b@, i as int);
            }
            return true;
        }
        if i == blen {
            proof {
                lemma_lex_le_skip(a@, b@, i as int);
            }
            return false;
        }
        let ca = a.get_char(i);
        let cb = b.get_char(i);
        if (ca as u32) != (cb as u32) {
            proof {
                lemma_lex_le_skip(a@, b@, i as int);
            }
            return (ca as u32) < (cb as u32);
        }
        i = i + 1;
    }
}

/// Strictly increasing: sorted with no value twice.
pub open spec fn sorted_strict(s: Seq<Seq<char>>) -> bool {
    forall|i: int, j: int| 0 <= i < j < s.len() ==> lex_le(s[i], s[j]) && s[i] != s[j]
}

/// The views of a vector of strings.
pub open spec fn views_of(v: Seq<String>) -> Seq<Seq<char>> {
    Seq::new(v.len(), |i: int| v[i]@)
}

/// Place `s` at its position in a strictly increasing vector; a value
/// already present is dropped.
pub fn insert_sorted(out: &mut Vec<String>, s: String)
    requires
        sorted_strict(views_of(old(out)@)),
    ensures
        sorted_strict(views_of(final(out)@)),
        forall|x: Seq<char>|
            #[trigger] views_of(final(out)@).contains(x) == (views_of(old(out)@).contains(x)
                || x == s@),
{
    let n = out.len();
    let mut p: usize = 0;
    while p < n
        invariant_except_break
            p <= n,
            n == out@.len(),
            *out == *old(out),
            sorted_strict(views_of(out@)),
            forall|j: int| 0 <= j < p ==> lex_le(#[trigger] views_of(out@)[j], s@)
                && views_of(out@)[j] != s@,
        ensures
            p <= n,
            n == out@.len(),
            *out == *old(out),
            forall|j: int| 0 <= j < p ==> lex_le(#[trigger] views_of(out@)[j], s@)
                && views_of(out@)[j] != s@,
            p < n ==> !lex_le(views_of(out@)[p as int], s@),
        decreases n - p,
    {
        if str_eq(out[p].as_str(), s.as_str()) {
            proof {
                assert(views_of(out@).contains(s@)) by {
                    assert(views_of(out@)[p as int] == s@);
                }
                assert forall|x: Seq<char>|
                    #[trigger] views_of(out@).contains(x) == (views_of(old(out)@).contains(x)
                        || x == s@) by {}
            }
            return ;
        }
        if !str_lex_le(out[p].as_str(), s.as_str()) {
            break ;
        }
        p = p + 1;
    }
    let ghost before = views_of(out@);
    proof {
        if p < n {
            lemma_lex_le_total(before[p as int], s@);
            assert(lex_le(s@, before[p as int]));
            if s@ == before[p as int] {
                assert(lex_le(before[p as int], s@));
                assert(false);
            }
        }
    }
    out.insert(p, s);
    proof {
        let after = views_of(out@);
        assert(after.len() == before.len() + 1);
        assert forall|k: int| 0 <= k < after.len() implies after[k] == (if k < p {
            before[k]
        } else if k == p {
            s@
        } else {
            before[k - 1]
        }) by {
            assert(out@ == old(out)@.insert(p as int, out@[p as int]));
        }
        assert forall|i: int, j: int| 0 <= i < j < after.len() implies lex_le(after[i], after[j])
            && after[i] != after[j] by {
            let pi = p as int;
            if i < pi && j < pi {
            } else if i < pi && j == pi {
            } else if i == pi && j > pi {
                lemma_lex_le_total(s@, before[j - 1]);
                if !lex_le(s@, before[j - 1]) {
                    assert(lex_le(before[j - 1], s@));
                    if pi < before.len() {
                        if j - 1 > pi {
                            lemma_lex_le_transitive(before[pi], before[j - 1], s@);
                        }
                        assert(lex_le(before[pi], s@));
                        assert(false);
                    }
                }
                if s@ == before[j - 1] {
                    if pi < before.len() {
                        assert(lex_le(before[pi], s@) || (j - 1 == pi));
                        assert(false);
                    }
                }
            } else if i < pi && j > pi {
            } else {
                // pi < i < j
            }
        }
        assert forall|x: Seq<char>|
            #[trigger] after.contains(x) == (before.contains(x) || x == s@) by {
            if after.contains(x) {
                let k = choose|k: int| 0 <= k < after.len() && after[k] == x;
                if k < p {
                    assert(before[k] == x);
                } else if k > p {
                    assert(before[k - 1] == x);
                }
            }
            if before.contains(x) {
                let k = choose|k: int| 0 <= k < before.len() && before[k] == x;
                if k < p {
                    assert(after[k] == x);
                } else {
                    assert(after[k + 1] == x);
                }
            }
            if x == s@ {
                assert(after[p as int] == x);
            }
        }
    }
}

/// Sort the strings and drop repeated values: the result is strictly
/// increasing and holds exactly the values of the input.
pub fn sort_dedup(v: Vec<String>) -> (r: Vec<String>)
    ensures
        sorted_strict(views_of(r@)),
        forall|x: Seq<char>|
            #[trigger] views_of(r@).contains(x) == views_of(v@).contains(x),
{
    let n = v.len();
    let mut out: Vec<String> = Vec::new();
    let mut i: usize = 0;
    while i < n
        invariant
            i <= n,
            n == v@.len(),
            sorted_strict(views_of(out@)),
            forall|x: Seq<char>|
                #[trigger] views_of(out@).contains(x) == views_of(v@.take(i as int)).contains(x),
        decreases n - i,
    {
        let ghost seen = views_of(v@.take(i as int));
        let s = v[i].clone();
        insert_sorted(&mut out, s);
        proof {
            let now = views_of(v@.take(i + 1));
            assert forall|x: Seq<char>| #[trigger] now.contains(x) == (seen.contains(x) || x
                == v@[i as int]@) by {
                if now.contains(x) {
                    let k = choose|k: int| 0 <= k < now.len() && now[k] == x;
                    if k < i {
                        assert(seen[k] == x);
                    }
                }
                if seen.contains(x) {
                    let k = choose|k: int| 0 <= k < seen.len() && seen[k] == x;
                    assert(now[k] == x);
                }
                if x == v@[i as int]@ {
                    assert(now[i as int] == x);
                }
            }
        }
        i = i + 1;
    }
    proof {
        assert(v@.take(n as int) =~= v@);
    }
    out
}


/// A decimal digit.
pub open spec fn is_digit(c: char) -> bool {
    48 <= (c as u32) <= 57
}

/// Every character is a decimal digit.
pub open spec fn all_digits(s: Seq<char>) -> bool {
    forall|i: int| 0 <= i < s.len() ==> is_digit(#[trigger] s[i])
}

/// The numeric value of a digit.
pub open spec fn digit_val(c: char) -> nat {
    ((c as u32) - 48) as nat
}

/// The number a digit sequence denotes.
pub open spec fn dec_value(s: Seq<char>) -> nat
    decreases s.len(),
{
    if s.len() == 0 {
        0
    } else {
        dec_value(s.drop_last()) * 10 + digit_val(s.last())
    }
}

/// A longer digit prefix never denotes a smaller number.
proof fn lemma_dec_value_take_monotone(s: Seq<char>, i: int)
    requires
        0 <= i <= s.len(),
    ensures
        dec_value(s.take(i)) <= dec_value(s),
    decreases s.len() - i,
{
    if i < s.len() {
        lemma_dec_value_take_monotone(s, i + 1);
        let t = s.take(i + 1);
        assert(t.drop_last() =~= s.take(i));
        let v = dec_value(s.take(i));
        assert(v <= v * 10) by (nonlinear_arith)
            requires
                v >= 0,
        ;
    } else {
        assert(s.take(i) =~= s);
    }
}

/// What `str::parse::<u32>` returns: the denoted number when the text is
/// an optional plus sign followed by digits only, and it fits; `None`
/// otherwise.
pub open spec fn parse_u32_spec(s: Seq<char>) -> Option<u32> {
    let body = if s.len() > 0 && s[0] == '+' {
        s.skip(1)
    } else {
        s
    };
    if body.len() == 0 || !all_digits(body) {
        None
    } else if dec_value(body) > u32::MAX {
        None
    } else {
        Some(dec_value(body) as u32)
    }
}

/// Parse an unsigned number the way the standard library does.
pub fn parse_u32(s: &str) -> (r: Option<u32>)
    ensures
        r == parse_u32_spec(s@),
{
    let slen = s.unicode_len();
    let mut i: usize = 0;
    if slen > 0 && s.get_char(0) == '+' {
        i = 1;
    }
    let ghost body = if s@.len() > 0 && s@[0] == '+' {
        s@.skip(1)
    } else {
        s@
    };
    let start = i;
    if i == slen {
        proof {
            assert(body.len() == 0);
        }
        return None;
    }
    let mut acc: u64 = 0;
    while i < slen
        invariant
            start <= i <= slen,
            start <= 1,
            slen == s@.len(),
            body == if s@.len() > 0 && s@[0] == '+' {
                s@.skip(1)
            } else {
                s@
            },
            start == 1 ==> s@.len() > 0 && s@[0] == '+',
            start == 0 ==> !(s@.len() > 0 && s@[0] == '+'),
            body.len() == slen - start,
            forall|j: int| 0 <= j < body.len() ==> body[j] == s@[j + start],
            all_digits(body.take(i - start)),
            acc == dec_value(body.take(i - start)),
            acc <= u32::MAX,
        decreases slen - i,
    {
        let c = s.get_char(i);
        let cu = c as u32;
        if cu < 48 || cu > 57 {
            proof {
                assert(body[i - start] == c);
                assert(!all_digits(body));
            }
            return None;
        }
        let d = (cu - 48) as u64;
        let next = acc * 10 + d;
        proof {
            let t = body.take(i - start + 1);
            assert(t.drop_last() =~= body.take(i - start));
            assert(t.last() == body[i - start]);
            assert(body[i - start] == c);
        }
        if next > 0xffff_ffff {
            proof {
                if all_digits(body) {
                    lemma_dec_value_take_monotone(body, i - start + 1);
                } else {
                    let bad = choose|j: int| 0 <= j < body.len() && !is_digit(body[j]);
                    assert(!all_digits(body));
                }
            }
            return None;
        }
        acc = next;
        i = i + 1;
    }
    proof {
        assert(body.take(i - start) =~= body);
    }
    Some(acc as u32)
}

/// The digit character of a value below ten.
pub open spec fn digit_char(d: nat) -> char {
    if d == 0 {
        '0'
    } else if d == 1 {
        '1'
    } else if d == 2 {
        '2'
    } else if d == 3 {
        '3'
    } else if d == 4 {
        '4'
    } else if d == 5 {
        '5'
    } else if d == 6 {
        '6'
    } else if d == 7 {
        '7'
    } else if d == 8 {
        '8'
    } else {
        '9'
    }
}

/// The decimal writing of a number.
pub open spec fn dec_digits(n: nat) -> Seq<char>
    decreases n,
{
    if n < 10 {
        seq![digit_char(n)]
    } else {
        dec_digits(n / 10).push(digit_char(n % 10))
    }
}

/// Append one digit character.
fn append_digit(out: &mut String, d: u64)
    requires
        d < 10,
    ensures
        final(out)@ == old(out)@ + seq![digit_char(d as nat)],
{
    let piece: &str = if d == 0 {
        "0"
    } else if d == 1 {
        "1"
    } else if d == 2 {
        "2"
    } else if d == 3 {
        "3"
    } else if d == 4 {
        "4"
    } else if d == 5 {
        "5"
    } else if d == 6 {
        "6"
    } else if d == 7 {
        "7"
    } else if d == 8 {
        "8"
    } else {
        "9"
    };
    proof {
        reveal_strlit("0");
        reveal_strlit("1");
        reveal_strlit("2");
        reveal_strlit("3");
        reveal_strlit("4");
        reveal_strlit("5");
        reveal_strlit("6");
        reveal_strlit("7");
        reveal_strlit("8");
        reveal_strlit("9");
        assert(piece@ =~= seq![digit_char(d as nat)]);
    }
    out.append(piece);
}

/// Append the decimal writing of `n`.
pub fn append_u64_dec(out: &mut String, n: u64)
    ensures
        final(out)@ == old(out)@ + dec_digits(n as nat),
    decreases n,
{
    if n >= 10 {
        append_u64_dec(out, n / 10);
        append_digit(out, n % 10);
        proof {
            assert(old(out)@ + dec_digits((n / 10) as nat) + seq![digit_char((n % 10) as nat)]
                =~= old(out)@ + dec_digits(n as nat));
        }
    } else {
        append_digit(out, n);
    }
}

/// The decimal writing of an integer, a minus sign ahead of a negative
/// one.
pub open spec fn dec_i64(n: int) -> Seq<char> {
    if n < 0 {
        seq!['-'] + dec_digits((-n) as nat)
    } else {
        dec_digits(n as nat)
    }
}

/// Append the decimal writing of `n`, sign included.
pub fn append_i64_dec(out: &mut String, n: i64)
    ensures
        final(out)@ == old(out)@ + dec_i64(n as int),
{
    if n < 0 {
        out.append("-");
        let m: u64 = ((-(n as i128)) as u64);
        append_u64_dec(out, m);
        proof {
            reveal_strlit("-");
            assert("-"@ =~= seq!['-']);
            assert(old(out)@ + "-"@ + dec_digits(m as nat) =~= old(out)@ + dec_i64(n as int));
        }
    } else {
        append_u64_dec(out, n as u64);
    }
}

/// The nonempty pieces of `s` between separators, starting from the piece
/// `cur` already read.
pub open spec fn split_pieces(s: Seq<char>, sep: char, cur: Seq<char>) -> Seq<Seq<char>>
    decreases s.len(),
{
    if s.len() == 0 {
        if cur.len() > 0 {
            seq![cur]
        } else {
            Seq::empty()
        }
    } else if s[0] == sep {
        if cur.len() > 0 {
            seq![cur] + split_pieces(s.skip(1), sep, Seq::empty())
        } else {
            split_pieces(s.skip(1), sep, Seq::empty())
        }
    } else {
        split_pieces(s.skip(1), sep, cur.push(s[0]))
    }
}

/// Split `s` at the separator, dropping empty pieces.
pub fn split_nonempty(s: &str, sep: char) -> (out: Vec<String>)
    ensures
        views_of(out@) == split_pieces(s@, sep, Seq::empty()),
{
    let slen = s.unicode_len();
    let mut out: Vec<String> = Vec::new();
    let mut start: usize = 0;
    let mut i: usize = 0;
    proof {
        assert(s@.skip(0) =~= s@);
        assert(s@.subrange(0, 0) =~= Seq::<char>::empty());
        assert(views_of(out@) + split_pieces(s@, sep, Seq::empty()) =~= split_pieces(
            s@,
            sep,
            Seq::empty(),
        ));
    }
    while i < slen
        invariant
            start <= i <= slen,
            slen == s@.len(),
            forall|j: int| start <= j < i ==> s@[j] != sep,
            split_pieces(s@, sep, Seq::empty()) == views_of(out@) + split_pieces(
                s@.skip(i as int),
                sep,
                s@.subrange(start as int, i as int),
            ),
        decreases slen - i,
    {
        let c = s.get_char(i);
        proof {
            assert(s@.skip(i as int)[0] == s@[i as int]);
            assert(s@.skip(i as int).skip(1) =~= s@.skip(i + 1));
        }
        if c == sep {
            let ghost cur = s@.subrange(start as int, i as int);
            if i > start {
                let piece = s.substring_char(start, i);
                let owned = piece.to_owned();
                let ghost prev = out@;
                out.push(owned);
                proof {
                    assert(views_of(out@) =~= views_of(prev) + seq![cur]);
                    assert(views_of(prev) + (seq![cur] + split_pieces(s@.skip(i + 1), sep, Seq::empty()))
                        =~= (views_of(prev) + seq![cur]) + split_pieces(s@.skip(i + 1), sep, Seq::empty()));
                }
            } else {
                proof {
                    assert(cur.len() == 0);
                }
            }
            start = i + 1;
            proof {
                assert(s@.subrange(start as int, (i + 1) as int) =~= Seq::<char>::empty());
            }
        } else {
            proof {
                let cur = s@.subrange(start as int, i as int);
                assert(cur.push(s@[i as int]) =~= s@.subrange(start as int, i + 1));
            }
        }
        i = i + 1;
    }
    if start < slen {
        let piece = s.substring_char(start, slen);
        let owned = piece.to_owned();
        let ghost prev = out@;
        let ghost cur = s@.subrange(start as int, slen as int);
        out.push(owned);
        proof {
            assert(s@.skip(slen as int) =~= Seq::<char>::empty());
            assert(views_of(out@) =~= views_of(prev) + seq![cur]);
        }
    } else {
        proof {
            assert(s@.skip(slen as int) =~= Seq::<char>::empty());
            assert(s@.subrange(start as int, slen as int) =~= Seq::<char>::empty());
            assert(views_of(out@) + Seq::<Seq<char>>::empty() =~= views_of(out@));
        }
    }
    proof {
        assert(views_of(out@) + Seq::<Seq<char>>::empty() =~= views_of(out@));
    }
    out
}

/// Is the view of `s` one of the views of `v`?
pub fn contains_str(v: &Vec<String>, s: &str) -> (r: bool)
    ensures
        r == views_of(v@).contains(s@),
{
    let n = v.len();
    let mut i: usize = 0;
    while i < n
        invariant
            i <= n,
            n == v@.len(),
            forall|j: int| 0 <= j < i ==> views_of(v@)[j] != s@,
        decreases n - i,
    {
        if str_eq(v[i].as_str(), s) {
            proof {
                assert(views_of(v@)[i as int] == s@);
            }
            return true;
        }
        i = i + 1;
    }
    false
}

/// What the standard upper-casing returns: a function of the characters
/// alone.
pub uninterp spec fn upper_of(s: Seq<char>) -> Seq<char>;

/// Relies on `str::to_uppercase`: the Unicode upper-case form of the
/// text, which depends on its characters alone; an empty text stays
/// empty.
#[verifier::external_body]
pub fn to_uppercase_str(s: &str) -> (r: String)
    ensures
        r@ == upper_of(s@),
        s@.len() == 0 ==> r@.len() == 0,
{
    s.to_uppercase()
}

/// A copy of a string vector, value for value.
pub fn clone_strings(v: &Vec<String>) -> (r: Vec<String>)
    ensures
        r@ == v@,
{
    let n = v.len();
    let mut out: Vec<String> = Vec::new();
    let mut i: usize = 0;
    while i < n
        invariant
            i <= n,
            n == v@.len(),
            out@.len() == i,
            forall|j: int| 0 <= j < i ==> #[trigger] out@[j] == v@[j],
        decreases n - i,
    {
        out.push(v[i].clone());
        i = i + 1;
    }
    proof {
        assert(out@ =~= v@);
    }
    out
}

} // verus!
