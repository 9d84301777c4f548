use vstd::prelude::*;

verus! {

/// Unicode `White_Space`: the characters that separate the tokens of a line.
pub open spec fn is_whitespace(c: char) -> bool {
    let u = c as u32;
    ||| 0x09 <= u <= 0x0D
    ||| u == 0x20
    ||| u == 0x85
    ||| u == 0xA0
    ||| u == 0x1680
    ||| 0x2000 <= u <= 0x200A
    ||| u == 0x2028
    ||| u == 0x2029
    ||| u == 0x202F
    ||| u == 0x205F
    ||| u == 0x3000
}

/// The maximal runs of non-whitespace characters of `s`, in order.
pub open spec fn tokens(s: Seq<char>) -> Seq<Seq<char>>
    decreases s.len(),
{
    if s.len() == 0 {
        seq![]
    } else {
        let prev = tokens(s.drop_last());
        let c = s.last();
        if is_whitespace(c) {
            prev
        } else if s.len() >= 2 && !is_whitespace(s[s.len() - 2]) {
            prev.update(prev.len() - 1, prev.last().push(c))
        } else {
            prev.push(seq![c])
        }
    }
}

/// The contents of a list of character vectors.
pub open spec fn views(v: Seq<Vec<char>>) -> Seq<Seq<char>> {
    v.map_values(|t: Vec<char>| t@)
}

pub open spec fn is_digit(c: char) -> bool {
    0x30 <= c as u32 <= 0x39
}

pub open spec fn digit_value(c: char) -> int {
    c as u32 - 0x30
}

pub open spec fn all_digits(d: Seq<char>) -> bool {
    forall|i: int| 0 <= i < d.len() ==> is_digit(#[trigger] d[i])
}

/// The decimal number written by the digits `d`.
pub open spec fn digits_value(d: Seq<char>) -> int
    decreases d.len(),
{
    if d.len() == 0 {
        0
    } else {
        10 * digits_value(d.drop_last()) + digit_value(d.last())
    }
}

/// The integer that `t` writes: an optional `+` or `-` followed by one or more decimal digits.
pub open spec fn int_of(t: Seq<char>) -> Option<int> {
    if t.len() > 0 && (t[0] == '+' || t[0] == '-') {
        let d = t.drop_first();
        if d.len() > 0 && all_digits(d) {
            Some(if t[0] == '-' { -digits_value(d) } else { digits_value(d) })
        } else {
            None
        }
    } else if t.len() > 0 && all_digits(t) {
        Some(digits_value(t))
    } else {
        None
    }
}

/// The `i32` that `t` writes, if it writes an integer that fits.
pub open spec fn i32_of(t: Seq<char>) -> Option<i32> {
    match int_of(t) {
        Some(v) => if i32::MIN <= v <= i32::MAX {
            Some(v as i32)
        } else {
            None
        },
        None => None,
    }
}

pub fn is_whitespace_char(c: char) -> (r: bool)
    ensures
        r == is_whitespace(c),
{
    let u = c as u32;
    (0x09 <= u && u <= 0x0D) || u == 0x20 || u == 0x85 || u == 0xA0 || u == 0x1680 || (0x2000 <= u
        && u <= 0x200A) || u == 0x2028 || u == 0x2029 || u == 0x202F || u == 0x205F || u == 0x3000
}

/// Splits `line` into its whitespace-separated tokens.
pub fn split_tokens(line: &str) -> (r: Vec<Vec<char>>)
    ensures
        views(r@) == tokens(line@),
{
    let ghost s = line@;
    let mut done: Vec<Vec<char>> = Vec::new();
    let mut cur: Vec<char> = Vec::new();
    let n = line.unicode_len();
    let mut i: usize = 0;
    while i < n
        invariant
            n == s.len(),
            s == line@,
            0 <= i <= n,
            cur@.len() > 0 ==> tokens(s.take(i as int)) == views(done@).push(cur@),
            cur@.len() == 0 ==> tokens(s.take(i as int)) == views(done@),
            cur@.len() > 0 <==> (i > 0 && !is_whitespace(s[i - 1])),
        decreases n - i,
    {
        let c = line.get_char(i);
        proof {
            let p = s.take(i + 1);
            assert(p.drop_last() =~= s.take(i as int));
            assert(p.last() == c);
            if i > 0 {
                assert(p[p.len() - 2] == s[i - 1]);
            }
        }
        if is_whitespace_char(c) {
            if cur.len() > 0 {
                let ghost before = done@;
                let t = cur;
                cur = Vec::new();
                done.push(t);
                assert(views(done@) =~= views(before).push(t@));
            }
        } else {
            let ghost prev = cur@;
            cur.push(c);
            assert(cur@ =~= prev.push(c));
            assert(prev.len() == 0 ==> cur@ =~= seq![c]);
            assert(prev.len() > 0 ==> views(done@).push(prev).update(views(done@).len() as int, cur@)
                =~= views(done@).push(cur@));
        }
        i += 1;
    }
    if cur.len() > 0 {
        let ghost before = done@;
        let ghost last = cur@;
        done.push(cur);
        assert(views(done@) =~= views(before).push(last));
    }
    proof {
        assert(s.take(n as int) =~= s);
    }
    done
}

/// A run of digits writes a number no smaller than any of its prefixes.
proof fn lemma_prefix_value_le(d: Seq<char>, j: int)
    requires
        all_digits(d),
        0 <= j <= d.len(),
    ensures
        0 <= digits_value(d.take(j)) <= digits_value(d),
    decreases d.len(),
{
    if d.len() > 0 {
        let p = d.drop_last();
        assert(all_digits(p)) by {
            assert forall|i: int| 0 <= i < p.len() implies is_digit(#[trigger] p[i]) by {
                assert(p[i] == d[i]);
            }
        }
        assert(is_digit(d[d.len() - 1]));
        if j == d.len() {
            assert(d.take(j) =~= d);
            lemma_prefix_value_le(p, 0);
        } else {
            assert(d.take(j) =~= p.take(j));
            lemma_prefix_value_le(p, j);
        }
    } else {
        assert(d.take(j) =~= d);
    }
}

/// Reads the `i32` that `t` writes: an optional sign and decimal digits, with no overflow.
pub fn parse_i32(t: &Vec<char>) -> (r: Option<i32>)
    ensures
        r == i32_of(t@),
{
    let n = t.len();
    if n == 0 {
        return None;
    }
    let signed = t[0] == '+' || t[0] == '-';
    let negative = t[0] == '-';
    let start: usize = if signed { 1 } else { 0 };
    if start == n {
        assert(t@.drop_first().len() == 0);
        return None;
    }
    let ghost d = t@.subrange(start as int, n as int);
    proof {
        if signed {
            assert(d =~= t@.drop_first());
        } else {
            assert(d =~= t@);
        }
    }
    let mut acc: i64 = 0;
    let mut i: usize = start;
    while i < n
        invariant
            n == t@.len(),
            d == t@.subrange(start as int, n as int),
            start <= i <= n,
            n > 0,
            signed == (t@[0] == '+' || t@[0] == '-'),
            negative == (t@[0] == '-'),
            start == (if signed { 1usize } else { 0usize }),
            signed ==> d == t@.drop_first(),
            !signed ==> d == t@,
            forall|k: int| 0 <= k < i - start ==> is_digit(#[trigger] d[k]),
            acc == digits_value(d.take(i - start)),
            0 <= acc <= 0x8000_0000,
        decreases n - i,
    {
        let c = t[i];
        let u = c as u32;
        if !(0x30 <= u && u <= 0x39) {
            assert(!is_digit(d[i - start]));
            assert(!all_digits(d));
            return None;
        }
        let ghost k = i - start;
        assert(d.take(k + 1).drop_last() =~= d.take(k));
        assert(d[k] == c);
        acc = acc * 10 + (u - 0x30) as i64;
        i += 1;
        if acc > 0x8000_0000 {
            proof {
                if all_digits(d) {
                    lemma_prefix_value_le(d, k + 1);
                }
            }
            return None;
        }
    }
    assert(d.take(n - start) =~= d);
    assert(all_digits(d));
    if negative {
        Some((-acc) as i32)
    } else if acc <= 0x7fff_ffff {
        Some(acc as i32)
    } else {
        None
    }
}

} // verus!
