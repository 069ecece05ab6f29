//! Plain-text utilities for the pipe-delimited artifact tables: splitting a
//! text into lines and fields, trimming blanks, and reading non-negative
//! decimal numerals exactly (as an integer mantissa and a count of
//! fractional digits, so that no rounding ever happens).
use vstd::prelude::*;

verus! {

/// 10^e, the denominator of a decimal numeral with `e` fractional digits.
pub open spec fn pow10(e: nat) -> nat
    decreases e,
{
    if e == 0 {
        1
    } else {
        10 * pow10((e - 1) as nat)
    }
}

proof fn lemma_pow10_pos(e: nat)
    ensures
        pow10(e) >= 1,
    decreases e,
{
    if e > 0 {
        lemma_pow10_pos((e - 1) as nat);
    }
}

/// The blank characters stripped from both ends of a field: the Unicode
/// White_Space set, the characters that `str::trim` strips.
pub open spec fn is_blank(c: char) -> bool {
    ||| 0x9 <= c as u32 <= 0xd
    ||| c == ' '
    ||| c as u32 == 0x85
    ||| c as u32 == 0xa0
    ||| c as u32 == 0x1680
    ||| 0x2000 <= c as u32 <= 0x200a
    ||| c as u32 == 0x2028
    ||| c as u32 == 0x2029
    ||| c as u32 == 0x202f
    ||| c as u32 == 0x205f
    ||| c as u32 == 0x3000
}

/// A field with leading and trailing blanks removed.
pub open spec fn trimmed(s: Seq<char>) -> Seq<char>
    decreases s.len(),
{
    if s.len() == 0 {
        s
    } else if is_blank(s[0]) {
        trimmed(s.drop_first())
    } else if is_blank(s.last()) {
        trimmed(s.drop_last())
    } else {
        s
    }
}

/// The pieces of `s` between occurrences of `sep`; always at least one piece.
pub open spec fn split_on(s: Seq<char>, sep: char) -> Seq<Seq<char>>
    decreases s.len(),
{
    if s.len() == 0 {
        seq![Seq::<char>::empty()]
    } else if s[0] == sep {
        seq![Seq::<char>::empty()].add(split_on(s.drop_first(), sep))
    } else {
        let rest = split_on(s.drop_first(), sep);
        seq![seq![s[0]].add(rest[0])].add(rest.drop_first())
    }
}

proof fn lemma_split_nonempty(s: Seq<char>, sep: char)
    ensures
        split_on(s, sep).len() >= 1,
    decreases s.len(),
{
    if s.len() > 0 {
        lemma_split_nonempty(s.drop_first(), sep);
    }
}

/// If the first `k` characters are free of `sep` and `s[k] == sep`, the first
/// piece is exactly those `k` characters.
proof fn lemma_split_at(s: Seq<char>, sep: char, k: int)
    requires
        0 <= k < s.len(),
        s[k] == sep,
        forall|j: int| 0 <= j < k ==> s[j] != sep,
    ensures
        split_on(s, sep) =~= seq![s.take(k)].add(split_on(s.skip(k + 1), sep)),
    decreases k,
{
    lemma_split_nonempty(s, sep);
    if k == 0 {
        assert(s.take(0) =~= Seq::<char>::empty());
        assert(s.skip(1) =~= s.drop_first());
    } else {
        lemma_split_at(s.drop_first(), sep, k - 1);
        lemma_split_nonempty(s.drop_first().skip(k), sep);
        assert(s.drop_first().take(k - 1) =~= s.take(k).drop_first());
        assert(s.drop_first().skip(k) =~= s.skip(k + 1));
        assert(seq![s[0]].add(split_on(s.drop_first(), sep)[0]) =~= s.take(k));
    }
}

/// A text free of `sep` splits into the single piece that is the text itself.
proof fn lemma_split_none(s: Seq<char>, sep: char)
    requires
        forall|j: int| 0 <= j < s.len() ==> s[j] != sep,
    ensures
        split_on(s, sep) =~= seq![s],
    decreases s.len(),
{
    if s.len() == 0 {
        assert(s =~= Seq::<char>::empty());
        assert(seq![Seq::<char>::empty()] =~= seq![s]);
    } else {
        lemma_split_none(s.drop_first(), sep);
        let rest = split_on(s.drop_first(), sep);
        assert(rest[0] == s.drop_first());
        assert(rest.drop_first() =~= Seq::<Seq<char>>::empty());
        assert(seq![s[0]].add(s.drop_first()) =~= s);
        assert(split_on(s, sep) =~= seq![seq![s[0]].add(rest[0])].add(rest.drop_first()));
        assert(seq![s[0]].add(rest[0]) == s);
        assert(seq![seq![s[0]].add(rest[0])].add(rest.drop_first()) =~= seq![s]);
    }
}

/// Splits `s` at every occurrence of `sep`, keeping empty pieces.
pub fn split_str(s: &str, sep: char) -> (r: Vec<String>)
    ensures
        r.deep_view() == split_on(s@, sep),
{
    let n = s.unicode_len();
    let mut r: Vec<String> = Vec::new();
    let mut start: usize = 0;
    let mut i: usize = 0;
    proof {
        assert(s@.skip(0) =~= s@);
        assert(r.deep_view() =~= Seq::<Seq<char>>::empty());
        assert(Seq::<Seq<char>>::empty().add(split_on(s@, sep)) =~= split_on(s@, sep));
    }
    while i < n
        invariant
            start <= i <= n,
            n == s@.len(),
            forall|j: int| start <= j < i ==> s@[j] != sep,
            split_on(s@, sep) == r.deep_view().add(split_on(s@.skip(start as int), sep)),
        decreases n - i,
    {
        if s.get_char(i) == sep {
            let piece = s.substring_char(start, i).to_owned();
            proof {
                lemma_split_at(s@.skip(start as int), sep, i - start);
                assert(s@.skip(start as int).take(i - start) =~= s@.subrange(
                    start as int,
                    i as int,
                ));
                assert(s@.skip(start as int).skip(i - start + 1) =~= s@.skip(i + 1));
            }
            let ghost r0 = r.deep_view();
            r.push(piece);
            proof {
                assert(r.deep_view() =~= r0.push(piece@));
                assert(r.deep_view().add(split_on(s@.skip(i + 1), sep)) =~= split_on(s@, sep));
            }
            start = i + 1;
        }
        i += 1;
    }
    let last = s.substring_char(start, n).to_owned();
    proof {
        lemma_split_none(s@.skip(start as int), sep);
        assert(s@.subrange(start as int, n as int) =~= s@.skip(start as int));
    }
    let ghost r1 = r.deep_view();
    r.push(last);
    proof {
        assert(r.deep_view() =~= r1.push(last@));
    }
    proof {
        assert(r.deep_view() =~= split_on(s@, sep));
    }
    r
}

/// Strips leading and trailing blanks.
pub fn trim_str(s: &str) -> (r: String)
    ensures
        r@ == trimmed(s@),
{
    let n = s.unicode_len();
    let mut a: usize = 0;
    proof {
        assert(s@.skip(0) =~= s@);
    }
    while a < n && is_blank_char(s.get_char(a))
        invariant
            a <= n,
            n == s@.len(),
            trimmed(s@) == trimmed(s@.skip(a as int)),
        decreases n - a,
    {
        proof {
            assert(s@.skip(a as int).drop_first() =~= s@.skip(a + 1));
        }
        a += 1;
    }
    if a == n {
        proof {
            assert(s@.skip(n as int) =~= Seq::<char>::empty());
        }
        return String::new();
    }
    let mut b: usize = n;
    proof {
        assert(s@.subrange(a as int, n as int) =~= s@.skip(a as int));
    }
    while b > a + 1 && is_blank_char(s.get_char(b - 1))
        invariant
            a < b <= n,
            n == s@.len(),
            !is_blank(s@[a as int]),
            trimmed(s@) == trimmed(s@.subrange(a as int, b as int)),
        decreases b,
    {
        proof {
            let piece = s@.subrange(a as int, b as int);
            assert(piece.drop_last() =~= s@.subrange(a as int, b - 1));
        }
        b -= 1;
    }
    let r = s.substring_char(a, b).to_owned();
    proof {
        let piece = s@.subrange(a as int, b as int);
        assert(piece[0] == s@[a as int]);
        assert(!is_blank(piece.last()));
        assert(trimmed(piece) == piece);
    }
    r
}

/// Executable form of `is_blank`.
pub fn is_blank_char(c: char) -> (r: bool)
    ensures
        r == is_blank(c),
{
    let u = c as u32;
    (0x9 <= u && u <= 0xd) || c == ' ' || u == 0x85 || u == 0xa0 || u == 0x1680 || (0x2000 <= u
        && u <= 0x200a) || u == 0x2028 || u == 0x2029 || u == 0x202f || u == 0x205f || u == 0x3000
}

/// A line with a trailing carriage return removed.
pub open spec fn strip_cr(p: Seq<char>) -> Seq<char> {
    if p.len() > 0 && p.last() == '\r' {
        p.drop_last()
    } else {
        p
    }
}

/// The lines of a text: pieces between newlines, without a final empty piece
/// after a trailing newline, and with trailing carriage returns removed.
pub open spec fn lines_of(s: Seq<char>) -> Seq<Seq<char>> {
    let ps = split_on(s, '\n');
    let kept = if ps.last().len() == 0 {
        ps.drop_last()
    } else {
        ps
    };
    kept.map_values(|p: Seq<char>| strip_cr(p))
}

/// Splits a text into its lines.
pub fn split_lines(s: &str) -> (r: Vec<String>)
    ensures
        r.deep_view() == lines_of(s@),
{
    let mut ps = split_str(s, '\n');
    proof {
        lemma_split_nonempty(s@, '\n');
    }
    let plen = ps.len();
    if ps[plen - 1].as_str().unicode_len() == 0 {
        let ghost before = ps.deep_view();
        ps.pop();
        proof {
            assert(ps.deep_view() =~= before.drop_last());
        }
    }
    let ghost kept = ps.deep_view();
    let mut r: Vec<String> = Vec::new();
    let mut i: usize = 0;
    while i < ps.len()
        invariant
            i <= ps.len(),
            kept == ps.deep_view(),
            r.deep_view() == kept.take(i as int).map_values(|p: Seq<char>| strip_cr(p)),
        decreases ps.len() - i,
    {
        let p = &ps[i];
        let pl = p.as_str().unicode_len();
        let ghost r0 = r.deep_view();
        if pl > 0 && p.as_str().get_char(pl - 1) == '\r' {
            let stripped = p.as_str().substring_char(0, pl - 1).to_owned();
            proof {
                assert(p@.subrange(0, pl - 1) =~= p@.drop_last());
            }
            r.push(stripped);
        } else {
            let copy = p.clone();
            r.push(copy);
        }
        proof {
            assert(r.deep_view() =~= r0.push(strip_cr(kept[i as int])));
            assert(kept.take(i + 1).map_values(|p: Seq<char>| strip_cr(p)) =~= kept.take(
                i as int,
            ).map_values(|p: Seq<char>| strip_cr(p)).push(strip_cr(kept[i as int])));
        }
        i += 1;
    }
    proof {
        assert(kept.take(ps.len() as int) =~= kept);
    }
    r
}

/// A decimal digit.
pub open spec fn is_digit(c: char) -> bool {
    48 <= c as u32 <= 57
}

/// The value of a decimal digit.
pub open spec fn digit_val(c: char) -> nat {
    (c as u32 - 48) as nat
}

/// Scans a numeral left to right. `acc` is the mantissa read so far, `frac`
/// the count of digits after the point (when one was read), `seen` whether
/// any digit was read. Yields the mantissa and the fractional digit count.
pub open spec fn dec_step(s: Seq<char>, acc: nat, frac: Option<nat>, seen: bool) -> Option<
    (nat, nat),
>
    decreases s.len(),
{
    if s.len() == 0 {
        if seen {
            Some(
                (
                    acc,
                    match frac {
                        Option::Some(f) => f,
                        Option::None => 0,
                    },
                ),
            )
        } else {
            None
        }
    } else if is_digit(s[0]) {
        dec_step(
            s.drop_first(),
            acc * 10 + digit_val(s[0]),
            match frac {
                Option::Some(f) => Option::Some((f + 1) as nat),
                Option::None => Option::None,
            },
            true,
        )
    } else if s[0] == '.' && frac is None {
        dec_step(s.drop_first(), acc, Option::Some(0), seen)
    } else {
        None
    }
}

/// The exact value of a non-negative decimal numeral: `Some((m, e))` when
/// `s` is one consisting of digits with at most one point and at least one
/// digit; the value denoted is m / 10^e. This grammar is the whole numeral
/// language of the artifacts: exponent notation, signs, infinities and
/// other floating-point forms are deliberately outside it, so that every
/// weight read is an exact integer over a power of ten, never a rounded
/// approximation.
pub open spec fn dec_of(s: Seq<char>) -> Option<(nat, nat)> {
    dec_step(s, 0, Option::None, false)
}

/// The mantissa a scan yields never falls below the accumulator it started from.
proof fn lemma_dec_step_mono(s: Seq<char>, acc: nat, frac: Option<nat>, seen: bool)
    ensures
        match dec_step(s, acc, frac, seen) {
            Option::Some(v) => v.0 >= acc,
            Option::None => true,
        },
    decreases s.len(),
{
    if s.len() > 0 {
        if is_digit(s[0]) {
            lemma_dec_step_mono(
                s.drop_first(),
                acc * 10 + digit_val(s[0]),
                match frac {
                    Option::Some(f) => Option::Some((f + 1) as nat),
                    Option::None => Option::None,
                },
                true,
            );
        } else if s[0] == '.' && frac is None {
            lemma_dec_step_mono(s.drop_first(), acc, Option::Some(0), seen);
        }
    }
}

/// Reads a non-negative decimal numeral exactly. `None` when the text is no
/// such numeral, or when its mantissa does not fit in a machine word.
pub fn parse_weight(s: &str) -> (r: Option<(u64, usize)>)
    ensures
        match r {
            Option::Some(p) => dec_of(s@) == Option::Some((p.0 as nat, p.1 as nat)),
            Option::None => match dec_of(s@) {
                Option::Some(v) => v.0 > u64::MAX,
                Option::None => true,
            },
        },
{
    let n = s.unicode_len();
    let mut acc: u64 = 0;
    let mut frac: usize = 0;
    let mut has_dot = false;
    let mut seen = false;
    let mut i: usize = 0;
    proof {
        assert(s@.skip(0) =~= s@);
    }
    while i < n
        invariant
            i <= n,
            n == s@.len(),
            frac <= i,
            !has_dot ==> frac == 0,
            dec_of(s@) == dec_step(
                s@.skip(i as int),
                acc as nat,
                if has_dot {
                    Option::Some(frac as nat)
                } else {
                    Option::None
                },
                seen,
            ),
        decreases n - i,
    {
        let c = s.get_char(i);
        proof {
            assert(s@.skip(i as int).drop_first() =~= s@.skip(i + 1));
        }
        let u = c as u32;
        if 48 <= u && u <= 57 {
            let d = (u - 48) as u64;
            let widened = match acc.checked_mul(10) {
                Option::Some(a) => a.checked_add(d),
                Option::None => Option::None,
            };
            match widened {
                Option::Some(a) => {
                    acc = a;
                },
                Option::None => {
                    proof {
                        lemma_dec_step_mono(
                            s@.skip(i + 1),
                            acc as nat * 10 + digit_val(c),
                            if has_dot {
                                Option::Some((frac + 1) as nat)
                            } else {
                                Option::None
                            },
                            true,
                        );
                    }
                    return None;
                },
            }
            if has_dot {
                frac += 1;
            }
            seen = true;
        } else if c == '.' && !has_dot {
            has_dot = true;
        } else {
            return None;
        }
        i += 1;
    }
    proof {
        assert(s@.skip(n as int) =~= Seq::<char>::empty());
    }
    if seen {
        Some((acc, frac))
    } else {
        None
    }
}

/// pow10 grows with its exponent.
proof fn lemma_pow10_mono(a: nat, b: nat)
    requires
        a <= b,
    ensures
        pow10(a) <= pow10(b),
    decreases b,
{
    if a < b {
        lemma_pow10_mono(a, (b - 1) as nat);
        lemma_pow10_pos((b - 1) as nat);
    }
}

/// 10^e as a machine word; `None` when it does not fit.
pub fn pow10_u64(e: usize) -> (r: Option<u64>)
    ensures
        match r {
            Option::Some(p) => p as nat == pow10(e as nat),
            Option::None => pow10(e as nat) > u64::MAX,
        },
{
    let mut p: u64 = 1;
    let mut j: usize = 0;
    while j < e
        invariant
            j <= e,
            p as nat == pow10(j as nat),
        decreases e - j,
    {
        match p.checked_mul(10) {
            Option::Some(q) => {
                p = q;
                j += 1;
            },
            Option::None => {
                proof {
                    lemma_pow10_mono((j + 1) as nat, e as nat);
                }
                return None;
            },
        }
    }
    Some(p)
}

} // verus!
