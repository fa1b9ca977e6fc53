//! Names: their order, and the decimal numbers in them.

use vstd::prelude::*;
use vstd::string::StrSliceExecFns;
use vstd::string::StringExecFns;

verus! {

/// The dictionary order of names.
pub open spec fn precedes(a: Seq<char>, b: Seq<char>) -> bool
    decreases a.len(),
{
    if b.len() == 0 {
        false
    } else if a.len() == 0 {
        true
    } else if a[0] != b[0] {
        (a[0] as int) < (b[0] as int)
    } else {
        precedes(a.drop_first(), b.drop_first())
    }
}

/// Two different names are ordered one way or the other, not both.
pub proof fn lemma_precedes_total(a: Seq<char>, b: Seq<char>)
    ensures
        a == b || precedes(a, b) || precedes(b, a),
        !(precedes(a, b) && precedes(b, a)),
        a == b ==> !precedes(a, b),
    decreases a.len(),
{
    if a.len() == 0 && b.len() == 0 {
        assert(a =~= b);
    } else if a.len() > 0 && b.len() > 0 {
        lemma_precedes_total(a.drop_first(), b.drop_first());
        if a[0] == b[0] && a.drop_first() == b.drop_first() {
            assert(a =~= seq![a[0]] + a.drop_first());
            assert(b =~= seq![b[0]] + b.drop_first());
        }
    }
}

/// The order of names is transitive.
pub proof fn lemma_precedes_trans(a: Seq<char>, b: Seq<char>, c: Seq<char>)
    requires
        precedes(a, b),
        precedes(b, c),
    ensures
        precedes(a, c),
    decreases a.len(),
{
    if a.len() > 0 && a[0] == b[0] && b[0] == c[0] {
        lemma_precedes_trans(a.drop_first(), b.drop_first(), c.drop_first());
    }
}

/// Whether one name comes before another.
pub fn comes_before(a: &str, b: &str) -> (r: bool)
    ensures
        r == precedes(a@, b@),
{
    let (n, m) = (a.unicode_len(), b.unicode_len());
    let mut i: usize = 0;
    assert(a@.subrange(0, n as int) =~= a@);
    assert(b@.subrange(0, m as int) =~= b@);
    while i < n && i < m
        invariant
            n == a@.len(),
            m == b@.len(),
            i <= n,
            i <= m,
            precedes(a@, b@) == precedes(
                a@.subrange(i as int, n as int),
                b@.subrange(i as int, m as int),
            ),
        decreases n - i,
    {
        let (x, y) = (a.get_char(i), b.get_char(i));
        proof {
            assert(a@.subrange(i as int, n as int).drop_first() =~= a@.subrange(i + 1, n as int));
            assert(b@.subrange(i as int, m as int).drop_first() =~= b@.subrange(i + 1, m as int));
        }
        if x != y {
            return (x as u32) < (y as u32);
        }
        i = i + 1;
    }
    i < m
}

/// Whether a name starts with a character.
pub fn starts_with(s: &str, c: char) -> (r: bool)
    ensures
        r == (s@.len() > 0 && s@[0] == c),
{
    s.unicode_len() > 0 && s.get_char(0) == c
}

/// A copy of a name.
pub fn copied(s: &str) -> (r: String)
    ensures
        r@ == s@,
{
    String::from_str(s)
}

/// The decimal digit of a number below ten.
pub open spec fn digit(d: int) -> char {
    if d == 0 {
        '0'
    } else if d == 1 {
        '1'
    } else if d == 2 {
        '2'
    } else if d == 3 {
        '3'
    } else if d == 4 {
        '4'
    } else if d == 5 {
        '5'
    } else if d == 6 {
        '6'
    } else if d == 7 {
        '7'
    } else if d == 8 {
        '8'
    } else {
        '9'
    }
}

/// The decimal notation of a number.
pub open spec fn digits(n: nat) -> Seq<char>
    decreases n,
{
    if n < 10 {
        seq![digit(n as int)]
    } else {
        digits(n / 10).push(digit((n % 10) as int))
    }
}

/// The number that a digit stands for.
pub open spec fn digit_value(c: char) -> Option<nat> {
    if '0' as u32 <= c as u32 <= '9' as u32 {
        Some((c as u32 - '0' as u32) as nat)
    } else {
        None
    }
}

/// The number that a nonempty sequence of digits stands for.
pub open spec fn digits_value(s: Seq<char>) -> Option<nat>
    decreases s.len(),
{
    if s.len() == 0 {
        None
    } else {
        match digit_value(s.last()) {
            None => None,
            Some(d) => if s.len() == 1 {
                Some(d)
            } else {
                match digits_value(s.drop_last()) {
                    None => None,
                    Some(v) => Some(v * 10 + d),
                }
            },
        }
    }
}

/// Reading the decimal notation of a number gives the number.
pub proof fn lemma_digits_value(n: nat)
    ensures
        digits_value(digits(n)) == Some(n),
        digits(n).len() > 0,
        digits(n)[0] != '+',
    decreases n,
{
    if n >= 10 {
        lemma_digits_value(n / 10);
        assert(digits(n).drop_last() =~= digits(n / 10));
    }
}

/// Different numbers have different decimal notations.
pub proof fn lemma_digits_injective(a: nat, b: nat)
    requires
        digits(a) == digits(b),
    ensures
        a == b,
{
    lemma_digits_value(a);
    lemma_digits_value(b);
}

/// The digit of a number below ten.
fn digit_text(d: usize) -> (r: &'static str)
    requires
        d < 10,
    ensures
        r@ == seq![digit(d as int)],
{
    proof {
        reveal_strlit("0");
        reveal_strlit("1");
        reveal_strlit("2");
        reveal_strlit("3");
        reveal_strlit("4");
        reveal_strlit("5");
        reveal_strlit("6");
        reveal_strlit("7");
        reveal_strlit("8");
        reveal_strlit("9");
    }
    let r: &'static str = match d {
        0 => "0",
        1 => "1",
        2 => "2",
        3 => "3",
        4 => "4",
        5 => "5",
        6 => "6",
        7 => "7",
        8 => "8",
        _ => "9",
    };
    assert(r@ =~= seq![digit(d as int)]);
    r
}

/// The decimal notation of a number.
pub fn decimal(n: usize) -> (r: String)
    ensures
        r@ == digits(n as nat),
    decreases n,
{
    if n < 10 {
        let mut s = String::new();
        s.append(digit_text(n));
        assert(s@ =~= digits(n as nat));
        s
    } else {
        let mut s = decimal(n / 10);
        s.append(digit_text(n % 10));
        assert(s@ =~= digits(n as nat));
        s
    }
}

/// A prefix followed by the decimal notation of a number.
pub open spec fn numbered(prefix: Seq<char>, n: nat) -> Seq<char> {
    prefix + digits(n)
}

/// A prefix followed by the decimal notation of a number.
pub fn with_number(prefix: &str, n: usize) -> (r: String)
    ensures
        r@ == numbered(prefix@, n as nat),
{
    let mut s = String::from_str(prefix);
    let d = decimal(n);
    s.append(d.as_str());
    s
}

/// The number that `s` stands for from character `from` on, an optional plus sign allowed, if it
/// fits a `usize`.
pub open spec fn parsed(s: Seq<char>) -> Option<nat> {
    let t = if s.len() > 0 && s[0] == '+' {
        s.drop_first()
    } else {
        s
    };
    match digits_value(t) {
        Some(v) => if v <= usize::MAX {
            Some(v)
        } else {
            None
        },
        None => None,
    }
}

/// A number does not get smaller by more digits.
proof fn lemma_value_prefix(s: Seq<char>, i: int)
    requires
        0 < i <= s.len(),
        digits_value(s) is Some,
    ensures
        digits_value(s.subrange(0, i)) is Some,
        digits_value(s.subrange(0, i))->0 <= digits_value(s)->0,
    decreases s.len(),
{
    if i == s.len() {
        assert(s.subrange(0, i) =~= s);
    } else {
        lemma_value_prefix(s.drop_last(), i);
        assert(s.drop_last().subrange(0, i) =~= s.subrange(0, i));
    }
}

/// The number written from character `from` of `s` on, if there is one.
pub fn parse_from(s: &str, from: usize) -> (r: Option<usize>)
    requires
        from <= s@.len(),
    ensures
        match r {
            Some(n) => parsed(s@.subrange(from as int, s@.len() as int)) == Some(n as nat),
            None => parsed(s@.subrange(from as int, s@.len() as int)) is None,
        },
{
    let n = s.unicode_len();
    let ghost all = s@.subrange(from as int, n as int);
    let start: usize = if from < n && s.get_char(from) == '+' {
        from + 1
    } else {
        from
    };
    let ghost t = s@.subrange(start as int, n as int);
    proof {
        if start > from {
            assert(all.drop_first() =~= t);
        }
        assert(parsed(all) == match digits_value(t) {
            Some(v) => if v <= usize::MAX {
                Some(v)
            } else {
                None
            },
            None => None,
        });
    }
    if start >= n {
        return None;
    }
    let mut v: usize = 0;
    let mut i: usize = start;
    while i < n
        invariant
            n == s@.len(),
            start <= i <= n,
            start < n,
            from <= n,
            all == s@.subrange(from as int, n as int),
            t == s@.subrange(start as int, n as int),
            i == start ==> v == 0,
            i > start ==> digits_value(t.subrange(0, i - start)) == Some(v as nat),
            parsed(all) == (match digits_value(t) {
                Some(v) => if v <= usize::MAX {
                    Some(v)
                } else {
                    None
                },
                None => None,
            }),
        decreases n - i,
    {
        let c = s.get_char(i);
        let ghost u = t.subrange(0, i + 1 - start);
        proof {
            assert(u.last() == c);
            assert(u.drop_last() =~= t.subrange(0, i - start));
            if digits_value(t) is Some {
                lemma_value_prefix(t, i + 1 - start);
            }
        }
        let x = c as u32;
        if x < 48 || x > 57 {
            return None;
        }
        let d = (x - 48) as usize;
        match v.checked_mul(10) {
            None => {
                return None;
            },
            Some(w) => match w.checked_add(d) {
                None => {
                    return None;
                },
                Some(z) => {
                    v = z;
                },
            },
        }
        i = i + 1;
    }
    assert(t.subrange(0, n - start) =~= t);
    Some(v)
}

} // verus!
