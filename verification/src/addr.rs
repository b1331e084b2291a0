use vstd::prelude::*;
use vstd::string::*;

verus! {

// ---------- the numeric value of an address ----------

/// The numeric value of an IPv4 address: its four octets read as one
/// big-endian 32-bit integer.
pub open spec fn ipv4_key_of(a: nat, b: nat, c: nat, d: nat) -> nat {
    a * 0x1000000 + b * 0x10000 + c * 0x100 + d
}

/// Combines four octets into the numeric sort key used to order report lines.
pub fn ipv4_key(a: u8, b: u8, c: u8, d: u8) -> (r: u32)
    ensures
        r == ipv4_key_of(a as nat, b as nat, c as nat, d as nat),
{
    (a as u32) * 0x1000000 + (b as u32) * 0x10000 + (c as u32) * 0x100 + (d as u32)
}

// ---------- characters and digits ----------

/// A decimal digit `'0'..='9'`.
pub open spec fn is_dec_digit(c: char) -> bool {
    48 <= c as u32 <= 57
}

/// A hexadecimal digit, either case.
pub open spec fn is_hex_digit(c: char) -> bool {
    is_dec_digit(c) || (97 <= c as u32 <= 102) || (65 <= c as u32 <= 70)
}

/// Numeric value of a decimal digit character.
pub open spec fn dec_digit_val(c: char) -> nat {
    (c as u32 - 48) as nat
}

/// Value of a string of decimal digits, most significant first.
pub open spec fn dec_val(s: Seq<char>) -> nat
    decreases s.len(),
{
    if s.len() == 0 {
        0
    } else {
        dec_val(s.drop_last()) * 10 + dec_digit_val(s.last())
    }
}

pub open spec fn all_dec_digits(s: Seq<char>) -> bool {
    forall|i: int| 0 <= i < s.len() ==> is_dec_digit(s[i])
}

pub open spec fn all_hex_digits(s: Seq<char>) -> bool {
    forall|i: int| 0 <= i < s.len() ==> is_hex_digit(s[i])
}

/// One component of a dotted-quad IPv4 address: one to three decimal digits,
/// no leading zero, value at most 255.
pub open spec fn is_octet_text(s: Seq<char>) -> bool {
    &&& 1 <= s.len() <= 3
    &&& all_dec_digits(s)
    &&& (s.len() > 1 ==> s[0] != '0')
    &&& dec_val(s) <= 255
}

/// One 16-bit group of an IPv6 address: one to four hexadecimal digits.
pub open spec fn is_h16(s: Seq<char>) -> bool {
    1 <= s.len() <= 4 && all_hex_digits(s)
}

// ---------- splitting on a separator ----------

/// Splitting a character sequence at every occurrence of `sep`; the result
/// always has one more part than there are separators.
pub open spec fn split_on(s: Seq<char>, sep: char) -> Seq<Seq<char>>
    decreases s.len(),
{
    if s.len() == 0 {
        seq![Seq::<char>::empty()]
    } else if s[0] == sep {
        seq![Seq::<char>::empty()] + split_on(s.drop_first(), sep)
    } else {
        let rest = split_on(s.drop_first(), sep);
        seq![seq![s[0]] + rest[0]] + rest.drop_first()
    }
}

proof fn lemma_split_on_len(s: Seq<char>, sep: char)
    ensures
        split_on(s, sep).len() >= 1,
    decreases s.len(),
{
    if s.len() != 0 {
        lemma_split_on_len(s.drop_first(), sep);
    }
}

/// If the first `k` characters hold no separator, the first part of the split
/// is the prefix up to `k`: either `k` is the end of the string and the split
/// is that single part, or a separator stands at `k` and the rest of the split
/// is the split of what follows it.
proof fn lemma_split_on_chunk(s: Seq<char>, sep: char, k: int)
    requires
        0 <= k <= s.len(),
        forall|j: int| 0 <= j < k ==> s[j] != sep,
        k < s.len() ==> s[k] == sep,
    ensures
        k == s.len() ==> split_on(s, sep) == seq![s],
        k < s.len() ==> split_on(s, sep) == seq![s.take(k)] + split_on(s.skip(k + 1), sep),
    decreases k,
{
    if k == 0 {
        if s.len() == 0 {
            assert(split_on(s, sep) =~~= seq![s]);
        } else {
            assert(s[0] == sep);
            assert(s.drop_first() =~= s.skip(1));
            assert(split_on(s, sep) =~~= seq![s.take(0)] + split_on(s.skip(1), sep));
        }
    } else {
        let d = s.drop_first();
        lemma_split_on_chunk(d, sep, k - 1);
        lemma_split_on_len(d, sep);
        let rest = split_on(d, sep);
        if k == s.len() {
            assert(rest == seq![d]);
            assert(seq![s[0]] + rest[0] =~= s);
            assert(split_on(s, sep) =~~= seq![s]);
        } else {
            assert(d[k - 1] == s[k]);
            assert(rest == seq![d.take(k - 1)] + split_on(d.skip(k), sep));
            assert(seq![s[0]] + rest[0] =~= s.take(k));
            assert(d.skip(k) =~= s.skip(k + 1));
            assert(rest.drop_first() =~~= split_on(s.skip(k + 1), sep));
            assert(split_on(s, sep) =~~= seq![s.take(k)] + split_on(s.skip(k + 1), sep));
        }
    }
}

/// Splits `s` at every occurrence of `sep`, as `split_on` describes.
pub fn split_chars(s: &Vec<char>, sep: char) -> (r: Vec<Vec<char>>)
    ensures
        r@.len() == split_on(s@, sep).len(),
        forall|i: int| 0 <= i < r@.len() ==> r@[i]@ == split_on(s@, sep)[i],
{
    let ghost whole: Seq<Seq<char>> = split_on(s@, sep);
    let mut parts: Vec<Vec<char>> = Vec::new();
    let mut pos: usize = 0;
    proof {
        assert(s@.skip(0) =~= s@);
        assert(whole =~~= parts@.map(|i: int, p: Vec<char>| p@) + split_on(
            s@.skip(pos as int),
            sep,
        ));
    }
    loop
        invariant_except_break
            whole =~~= parts@.map(|i: int, p: Vec<char>| p@) + split_on(s@.skip(pos as int), sep),
        invariant
            pos <= s@.len(),
            whole == split_on(s@, sep),
        ensures
            whole =~~= parts@.map(|i: int, p: Vec<char>| p@),
        decreases s@.len() - pos,
    {
        let mut k: usize = pos;
        while k < s.len() && s[k] != sep
            invariant
                pos <= k <= s@.len(),
                forall|j: int| pos <= j < k ==> s@[j] != sep,
            decreases s@.len() - k,
        {
            k = k + 1;
        }
        let mut part: Vec<char> = Vec::new();
        let mut i: usize = pos;
        while i < k
            invariant
                pos <= i <= k <= s@.len(),
                part@ == s@.subrange(pos as int, i as int),
            decreases k - i,
        {
            part.push(s[i]);
            assert(part@ =~= s@.subrange(pos as int, i + 1));
            i = i + 1;
        }
        proof {
            lemma_split_on_chunk(s@.skip(pos as int), sep, k - pos);
            assert(s@.skip(pos as int).take(k - pos) =~= s@.subrange(pos as int, k as int));
        }
        parts.push(part);
        if k == s.len() {
            proof {
                assert(s@.skip(pos as int).take(k - pos) =~= s@.skip(pos as int));
                assert(split_on(s@.skip(pos as int), sep) == seq![s@.skip(pos as int)]);
                assert(whole =~~= parts@.map(|i: int, p: Vec<char>| p@));
            }
            break;
        }
        proof {
            assert(s@.skip(pos as int)[k - pos] == s@[k as int]);
            assert(s@.skip(pos as int).skip(k - pos + 1) =~= s@.skip(k + 1));
            assert(whole =~~= parts@.map(|i: int, p: Vec<char>| p@) + split_on(
                s@.skip(k + 1),
                sep,
            ));
        }
        pos = k + 1;
    }
    proof {
        assert(forall|i: int|
            0 <= i < parts@.len() ==> parts@[i]@ == parts@.map(|i: int, p: Vec<char>| p@)[i]);
    }
    parts
}

// ---------- IPv4 ----------

/// The numeric value of a dotted-quad text, read big-endian, or `None` where
/// the text is not a valid IPv4 address.
pub open spec fn ipv4_of(s: Seq<char>) -> Option<u32> {
    let ps = split_on(s, '.');
    if ps.len() == 4 && is_octet_text(ps[0]) && is_octet_text(ps[1]) && is_octet_text(ps[2])
        && is_octet_text(ps[3]) {
        Some(
            (dec_val(ps[0]) * 0x1000000 + dec_val(ps[1]) * 0x10000 + dec_val(ps[2]) * 0x100
                + dec_val(ps[3])) as u32,
        )
    } else {
        None
    }
}

/// Decides whether one split part is a valid octet, and its value if so.
fn octet_val(part: &Vec<char>) -> (r: Option<u8>)
    ensures
        r is Some <==> is_octet_text(part@),
        r is Some ==> r->0 == dec_val(part@),
{
    if part.len() < 1 || part.len() > 3 {
        return None;
    }
    if part.len() > 1 && part[0] == '0' {
        return None;
    }
    let mut val: u32 = 0;
    let mut i: usize = 0;
    while i < part.len()
        invariant
            i <= part@.len() <= 3,
            val == dec_val(part@.take(i as int)),
            i == 0 ==> val == 0,
            i == 1 ==> val <= 9,
            i == 2 ==> val <= 99,
            i == 3 ==> val <= 999,
            forall|j: int| 0 <= j < i ==> is_dec_digit(part@[j]),
        decreases part@.len() - i,
    {
        let c = part[i];
        let v = c as u32;
        if v < 48 || v > 57 {
            return None;
        }
        proof {
            assert(part@.take(i + 1).drop_last() =~= part@.take(i as int));
            assert(part@.take(i + 1).last() == part@[i as int]);
        }
        val = val * 10 + (v - 48);
        i = i + 1;
    }
    proof {
        assert(part@.take(part@.len() as int) =~= part@);
    }
    if val <= 255 {
        Some(val as u8)
    } else {
        None
    }
}

/// Parses a character sequence as a dotted-quad IPv4 address, returning its
/// big-endian numeric value.
pub fn parse_ipv4_chars(s: &Vec<char>) -> (r: Option<u32>)
    ensures
        r == ipv4_of(s@),
{
    let parts = split_chars(s, '.');
    if parts.len() != 4 {
        return None;
    }
    let a = octet_val(&parts[0]);
    let b = octet_val(&parts[1]);
    let c = octet_val(&parts[2]);
    let d = octet_val(&parts[3]);
    match (a, b, c, d) {
        (Some(a), Some(b), Some(c), Some(d)) => Some(
            ipv4_key(a, b, c, d),
        ),
        _ => None,
    }
}

// ---------- IPv6 ----------

pub open spec fn all_h16(ps: Seq<Seq<char>>, lo: int, hi: int) -> bool {
    forall|i: int| lo <= i < hi ==> is_h16(ps[i])
}

/// The parts from `lo` to the end close an IPv6 address: hexadecimal groups,
/// where the final part may instead be an embedded dotted-quad IPv4 address.
pub open spec fn v6_tail_ok(ps: Seq<Seq<char>>, lo: int) -> bool {
    lo == ps.len() || (all_h16(ps, lo, ps.len() - 1) && (is_h16(ps.last()) || ipv4_of(ps.last())
        is Some))
}

/// How many 16-bit groups the parts from `lo` to the end stand for: an
/// embedded IPv4 address counts as two groups.
pub open spec fn v6_tail_groups(ps: Seq<Seq<char>>, lo: int) -> int {
    if lo == ps.len() {
        0
    } else if is_h16(ps.last()) {
        ps.len() - lo
    } else {
        ps.len() - lo + 1
    }
}

/// Whether a character sequence is a valid IPv6 address text: split at every
/// colon, the parts form either eight full groups, or a single `::` gap —
/// leading, trailing, in the middle, or the bare `::` — beside at most seven
/// groups. Empty parts arise exactly at a `::` gap, two at an end of the text
/// and one in its middle; the gap stands for at least one zero group.
pub open spec fn is_ipv6_text(s: Seq<char>) -> bool {
    let ps = split_on(s, ':');
    let n = ps.len() as int;
    ||| (v6_tail_ok(ps, 0) && v6_tail_groups(ps, 0) == 8)
    ||| (n == 3 && ps[0].len() == 0 && ps[1].len() == 0 && ps[2].len() == 0)
    ||| (n >= 3 && ps[0].len() == 0 && ps[1].len() == 0 && v6_tail_ok(ps, 2) && v6_tail_groups(
        ps,
        2,
    ) <= 7)
    ||| (n >= 3 && ps[n - 1].len() == 0 && ps[n - 2].len() == 0 && all_h16(ps, 0, n - 2) && n - 2
        <= 7)
    ||| (exists|i: int|
        1 <= i <= n - 2 && ps[i].len() == 0 && all_h16(ps, 0, i) && v6_tail_ok(ps, i + 1)
            && i + v6_tail_groups(ps, i + 1) <= 7)
}

/// Decides whether one split part is a hexadecimal group.
fn check_h16(part: &Vec<char>) -> (r: bool)
    ensures
        r == is_h16(part@),
{
    if part.len() < 1 || part.len() > 4 {
        return false;
    }
    let mut i: usize = 0;
    while i < part.len()
        invariant
            i <= part@.len(),
            forall|j: int| 0 <= j < i ==> is_hex_digit(part@[j]),
        decreases part@.len() - i,
    {
        let v = part[i] as u32;
        if !(48 <= v && v <= 57) && !(97 <= v && v <= 102) && !(65 <= v && v <= 70) {
            return false;
        }
        i = i + 1;
    }
    true
}

/// An empty part can be neither a hexadecimal group nor an IPv4 address.
proof fn lemma_empty_part(p: Seq<char>)
    requires
        p.len() == 0,
    ensures
        !is_h16(p),
        ipv4_of(p) is None,
{
    assert(split_on(p, '.') =~~= seq![Seq::<char>::empty()]);
}

/// Decides whether the parts from `lo` on close an IPv6 address, returning
/// the number of groups they stand for.
fn check_v6_tail(ps: &Vec<Vec<char>>, lo: usize) -> (r: Option<u128>)
    requires
        lo <= ps@.len(),
    ensures
        r is Some <==> v6_tail_ok(ps@.map(|i: int, p: Vec<char>| p@), lo as int),
        r is Some ==> r->0 as int == v6_tail_groups(ps@.map(|i: int, p: Vec<char>| p@), lo as int),
{
    let ghost gps = ps@.map(|i: int, p: Vec<char>| p@);
    if lo == ps.len() {
        return Some(0);
    }
    let last = ps.len() - 1;
    if !check_all_h16(ps, lo, last) {
        return None;
    }
    proof {
        assert(gps.last() == gps[last as int]);
    }
    if check_h16(&ps[last]) {
        Some((ps.len() - lo) as u128)
    } else if parse_ipv4_chars(&ps[last]).is_some() {
        Some((ps.len() - lo) as u128 + 1)
    } else {
        None
    }
}

/// Decides whether the parts from `lo` up to `hi` are all hexadecimal groups.
fn check_all_h16(ps: &Vec<Vec<char>>, lo: usize, hi: usize) -> (r: bool)
    requires
        lo <= hi <= ps@.len(),
    ensures
        r == all_h16(ps@.map(|i: int, p: Vec<char>| p@), lo as int, hi as int),
{
    let ghost gps = ps@.map(|i: int, p: Vec<char>| p@);
    let mut i: usize = lo;
    while i < hi
        invariant
            lo <= i <= hi <= ps@.len(),
            gps == ps@.map(|ii: int, p: Vec<char>| p@),
            forall|j: int| lo <= j < i ==> is_h16(gps[j]),
        decreases hi - i,
    {
        if !check_h16(&ps[i]) {
            proof {
                assert(!is_h16(gps[i as int]));
            }
            return false;
        }
        i = i + 1;
    }
    true
}

/// Decides whether a character sequence is a valid IPv6 address text.
pub fn is_ipv6_chars(s: &Vec<char>) -> (r: bool)
    ensures
        r == is_ipv6_text(s@),
{
    let parts = split_chars(s, ':');
    let ghost gps = parts@.map(|i: int, p: Vec<char>| p@);
    proof {
        lemma_split_on_len(s@, ':');
        assert(gps =~~= split_on(s@, ':'));
    }
    let n = parts.len();
    // find the first empty part, if there is one
    let mut e: usize = 0;
    while e < n && parts[e].len() > 0
        invariant
            e <= n == parts@.len(),
            gps == parts@.map(|i: int, p: Vec<char>| p@),
            forall|j: int| 0 <= j < e ==> gps[j].len() > 0,
        decreases n - e,
    {
        e = e + 1;
    }
    if e == n {
        // no `::` gap: eight plain groups are needed
        let ok = match check_v6_tail(&parts, 0) {
            Some(g) => g == 8,
            None => false,
        };
        proof {
            if !ok && is_ipv6_text(s@) {
                // every other form names an empty part
                assert(forall|i: int| 0 <= i < n ==> gps[i].len() != 0);
            }
        }
        return ok;
    }
    proof {
        lemma_empty_part(gps[e as int]);
    }
    if e == 0 {
        if n < 3 || parts[1].len() != 0 {
            // a lone leading `:`
            proof {
                if is_ipv6_text(s@) {
                    assert(gps.last() == gps[n - 1]);
                    if n >= 2 && gps[n - 1].len() == 0 {
                        lemma_empty_part(gps[n - 1]);
                    }
                    assert(forall|i: int|
                        1 <= i <= n - 2 && gps[i].len() == 0 && all_h16(gps, 0, i) ==> is_h16(
                            gps[0],
                        ));
                }
            }
            return false;
        }
        if n == 3 && parts[2].len() == 0 {
            // the bare `::`
            return true;
        }
        // a leading `::`
        let ok = match check_v6_tail(&parts, 2) {
            Some(g) => g <= 7,
            None => false,
        };
        proof {
            assert(gps.last() == gps[n - 1]);
            if gps[n - 1].len() == 0 {
                lemma_empty_part(gps[n - 1]);
            }
            assert(!(v6_tail_ok(gps, 0) && v6_tail_groups(gps, 0) == 8));
            assert(forall|i: int|
                1 <= i <= n - 2 && gps[i].len() == 0 && all_h16(gps, 0, i) ==> is_h16(gps[0]));
            if !ok && is_ipv6_text(s@) {
                // the trailing form would need a valid tail after the gap too
                if n >= 3 && gps[n - 1].len() == 0 && gps[n - 2].len() == 0 {
                    assert(!v6_tail_ok(gps, 2));
                    assert(false);
                }
            }
        }
        return ok;
    }
    // now 1 <= e <= n - 1; parts before `e` are nonempty, part `e` is empty
    proof {
        assert(gps.last() == gps[n - 1]);
        if e < n - 1 {
            assert(!all_h16(gps, 0, n - 1));
        }
        assert(!v6_tail_ok(gps, 0));
    }
    if e == n - 1 {
        // a lone trailing `:`
        proof {
            if is_ipv6_text(s@) {
                assert(forall|i: int| 1 <= i <= n - 2 ==> gps[i].len() != 0);
            }
        }
        return false;
    }
    if e == n - 2 && parts[n - 1].len() == 0 {
        // a trailing `::`
        let ok = check_all_h16(&parts, 0, e) && e <= 7;
        proof {
            lemma_empty_part(gps[n - 1]);
            if is_ipv6_text(s@) {
                assert(forall|i: int|
                    1 <= i <= n - 2 && gps[i].len() == 0 && all_h16(gps, 0, i) ==> i == e);
                assert(!v6_tail_ok(gps, e + 1));
            }
        }
        return ok;
    }
    // a `::` gap in the middle: part `e` is empty, part `n - 1` is not empty
    // or more parts follow
    let ok = if check_all_h16(&parts, 0, e) {
        match check_v6_tail(&parts, e + 1) {
            Some(g) => e as u128 + g <= 7,
            None => false,
        }
    } else {
        false
    };
    proof {
        if gps[n - 1].len() == 0 && gps[n - 2].len() == 0 && e < n - 2 {
            assert(!all_h16(gps, 0, n - 2));
        }
        if ok {
            assert(1 <= e <= n - 2 && gps[e as int].len() == 0 && all_h16(gps, 0, e as int)
                && v6_tail_ok(gps, e + 1) && e + v6_tail_groups(gps, e + 1) <= 7);
        }
        if !ok && is_ipv6_text(s@) {
            assert forall|i: int|
                1 <= i <= n - 2 && gps[i].len() == 0 && all_h16(gps, 0, i) && v6_tail_ok(gps, i + 1)
                    && i + v6_tail_groups(gps, i + 1) <= 7 implies false by {
                if i < e {
                    assert(gps[i].len() != 0);
                } else if i > e {
                    assert(!is_h16(gps[e as int]));
                } else {
                    assert(!(all_h16(gps, 0, e as int) && v6_tail_ok(gps, e + 1)
                        && e + v6_tail_groups(gps, e + 1) <= 7));
                }
            }
            assert(false);
        }
    }
    ok
}

// ---------- rendering an IPv4 address ----------

/// The character for one decimal digit.
pub open spec fn digit_char(d: nat) -> char {
    if d == 0 {
        '0'
    } else if d == 1 {
        '1'
    } else if d == 2 {
        '2'
    } else if d == 3 {
        '3'
    } else if d == 4 {
        '4'
    } else if d == 5 {
        '5'
    } else if d == 6 {
        '6'
    } else if d == 7 {
        '7'
    } else if d == 8 {
        '8'
    } else {
        '9'
    }
}

/// The shortest decimal text of a value up to 255.
pub open spec fn dec_text(n: nat) -> Seq<char> {
    if n < 10 {
        seq![digit_char(n)]
    } else if n < 100 {
        seq![digit_char(n / 10), digit_char(n % 10)]
    } else {
        seq![digit_char(n / 100), digit_char((n / 10) % 10), digit_char(n % 10)]
    }
}

/// The dotted-quad text of an IPv4 address given by its numeric value.
pub open spec fn ipv4_text(k: u32) -> Seq<char> {
    dec_text(k as nat / 0x1000000) + seq!['.'] + dec_text((k as nat / 0x10000) % 256) + seq!['.']
        + dec_text((k as nat / 0x100) % 256) + seq!['.'] + dec_text(k as nat % 256)
}

/// The one-character text of a decimal digit.
fn digit_str(d: u8) -> (r: &'static str)
    requires
        d <= 9,
    ensures
        r@ == seq![digit_char(d as nat)],
{
    proof {
        reveal_strlit("0");
        reveal_strlit("1");
        reveal_strlit("2");
        reveal_strlit("3");
        reveal_strlit("4");
        reveal_strlit("5");
        reveal_strlit("6");
        reveal_strlit("7");
        reveal_strlit("8");
        reveal_strlit("9");
    }
    let r = match d {
        0 => "0",
        1 => "1",
        2 => "2",
        3 => "3",
        4 => "4",
        5 => "5",
        6 => "6",
        7 => "7",
        8 => "8",
        _ => "9",
    };
    proof {
        assert(r@ =~= seq![digit_char(d as nat)]);
    }
    r
}

/// Appends the decimal text of one octet.
fn push_dec(out: &mut String, n: u8)
    ensures
        final(out)@ == old(out)@ + dec_text(n as nat),
{
    if n >= 100 {
        out.append(digit_str(n / 100));
        out.append(digit_str((n / 10) % 10));
        out.append(digit_str(n % 10));
        assert(out@ =~= old(out)@ + dec_text(n as nat));
    } else if n >= 10 {
        out.append(digit_str(n / 10));
        out.append(digit_str(n % 10));
        assert(out@ =~= old(out)@ + dec_text(n as nat));
    } else {
        out.append(digit_str(n));
        assert(out@ =~= old(out)@ + dec_text(n as nat));
    }
}

/// Renders an IPv4 numeric value as its dotted-quad text.
pub fn format_ipv4(k: u32) -> (r: String)
    ensures
        r@ == ipv4_text(k),
{
    let mut out = String::new();
    push_dec(&mut out, (k / 0x1000000) as u8);
    out.append(".");
    push_dec(&mut out, ((k / 0x10000) % 256) as u8);
    out.append(".");
    push_dec(&mut out, ((k / 0x100) % 256) as u8);
    out.append(".");
    push_dec(&mut out, (k % 256) as u8);
    proof {
        reveal_strlit(".");
        assert(out@ =~= ipv4_text(k));
    }
    out
}

// ---------- rendering agrees with parsing ----------

/// Each digit character carries its digit's value.
proof fn lemma_digit_char_val(d: nat)
    requires
        d <= 9,
    ensures
        is_dec_digit(digit_char(d)),
        dec_digit_val(digit_char(d)) == d,
{
    if d == 0 {
        assert('0' as u32 == 48);
    } else if d == 1 {
        assert('1' as u32 == 49);
    } else if d == 2 {
        assert('2' as u32 == 50);
    } else if d == 3 {
        assert('3' as u32 == 51);
    } else if d == 4 {
        assert('4' as u32 == 52);
    } else if d == 5 {
        assert('5' as u32 == 53);
    } else if d == 6 {
        assert('6' as u32 == 54);
    } else if d == 7 {
        assert('7' as u32 == 55);
    } else if d == 8 {
        assert('8' as u32 == 56);
    } else {
        assert('9' as u32 == 57);
    }
}

/// The decimal text of an octet is a valid octet text with that value, and
/// holds no separator characters.
proof fn lemma_dec_text_octet(n: nat)
    requires
        n < 256,
    ensures
        is_octet_text(dec_text(n)),
        dec_val(dec_text(n)) == n,
        forall|i: int| 0 <= i < dec_text(n).len() ==> dec_text(n)[i] != '.',
{
    let t = dec_text(n);
    assert(dec_val(Seq::<char>::empty()) == 0);
    if n < 10 {
        lemma_digit_char_val(n);
        assert(t.drop_last() =~= Seq::<char>::empty());
        assert(dec_val(t) == n);
    } else if n < 100 {
        lemma_digit_char_val(n / 10);
        lemma_digit_char_val(n % 10);
        assert(t.drop_last() =~= seq![digit_char(n / 10)]);
        assert(t.drop_last().drop_last() =~= Seq::<char>::empty());
        assert(dec_val(t.drop_last()) == n / 10);
        assert(dec_val(t) == (n / 10) * 10 + n % 10);
        assert((n / 10) * 10 + n % 10 == n) by (nonlinear_arith);
        assert(n / 10 >= 1);
    } else {
        lemma_digit_char_val(n / 100);
        lemma_digit_char_val((n / 10) % 10);
        lemma_digit_char_val(n % 10);
        assert(t.drop_last() =~= seq![digit_char(n / 100), digit_char((n / 10) % 10)]);
        assert(t.drop_last().drop_last() =~= seq![digit_char(n / 100)]);
        assert(t.drop_last().drop_last().drop_last() =~= Seq::<char>::empty());
        assert(dec_val(t.drop_last().drop_last()) == n / 100);
        assert(dec_val(t.drop_last()) == (n / 100) * 10 + (n / 10) % 10);
        assert(((n / 100) * 10 + (n / 10) % 10) * 10 + n % 10 == n) by (nonlinear_arith)
            requires
                100 <= n < 256,
        ;
        assert(n / 100 >= 1);
    }
}

/// Splitting text built around one separator: the part before it, which
/// holds none, then the split of what follows.
proof fn lemma_split_glue(t: Seq<char>, rest: Seq<char>, sep: char)
    requires
        forall|i: int| 0 <= i < t.len() ==> t[i] != sep,
    ensures
        split_on(t + seq![sep] + rest, sep) == seq![t] + split_on(rest, sep),
{
    let s = t + seq![sep] + rest;
    assert forall|j: int| 0 <= j < t.len() implies s[j] != sep by {
        assert(s[j] == t[j]);
    }
    assert(s[t.len() as int] == sep);
    lemma_split_on_chunk(s, sep, t.len() as int);
    assert(s.take(t.len() as int) =~= t);
    assert(s.skip(t.len() as int + 1) =~= rest);
}

/// A separator-free text splits into itself alone.
proof fn lemma_split_whole(t: Seq<char>, sep: char)
    requires
        forall|i: int| 0 <= i < t.len() ==> t[i] != sep,
    ensures
        split_on(t, sep) == seq![t],
{
    lemma_split_on_chunk(t, sep, t.len() as int);
}

/// Rendering an address value and parsing the text back returns the value:
/// the targets a range sweep renders always classify as the IPv4 addresses
/// they came from.
#[verifier::rlimit(100)]
pub proof fn lemma_ipv4_text_parses_back(k: u32)
    ensures
        ipv4_of(ipv4_text(k)) == Some(k),
{
    let b0 = k as nat / 0x1000000;
    let b1 = (k as nat / 0x10000) % 256;
    let b2 = (k as nat / 0x100) % 256;
    let b3 = k as nat % 256;
    assert(b0 < 256) by (nonlinear_arith)
        requires
            k < 0x100000000,
            b0 == k as nat / 0x1000000,
    ;
    lemma_dec_text_octet(b0);
    lemma_dec_text_octet(b1);
    lemma_dec_text_octet(b2);
    lemma_dec_text_octet(b3);
    let t0 = dec_text(b0);
    let t1 = dec_text(b1);
    let t2 = dec_text(b2);
    let t3 = dec_text(b3);
    let s = ipv4_text(k);
    let r2 = t2 + seq!['.'] + t3;
    let r1 = t1 + seq!['.'] + r2;
    assert(s =~= t0 + seq!['.'] + r1);
    lemma_split_glue(t0, r1, '.');
    lemma_split_glue(t1, r2, '.');
    assert(r1 =~= t1 + seq!['.'] + r2);
    lemma_split_glue(t2, t3, '.');
    lemma_split_whole(t3, '.');
    let ps = split_on(s, '.');
    assert(ps =~~= seq![t0, t1, t2, t3]);
    assert(b0 * 0x1000000 + b1 * 0x10000 + b2 * 0x100 + b3 == k as nat) by (nonlinear_arith)
        requires
            k < 0x100000000,
            b0 == k as nat / 0x1000000,
            b1 == (k as nat / 0x10000) % 256,
            b2 == (k as nat / 0x100) % 256,
            b3 == k as nat % 256,
    ;
}

} // verus!
