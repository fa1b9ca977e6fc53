//! The notation of variables and operations in the text of a network.

use vstd::prelude::*;
use vstd::string::*;
use crate::cli;
use crate::model::{BinOpV, UnOpV};
use crate::nn;
use crate::nn::{Atom, AtomV, PrimV, Primitive};
use crate::op::{BinOp, UnOp};
use crate::scalar::Scalar;
use crate::text;

verus! {

// ---- variables ----
/// The index of the first `c` from `i` on, or the length where there is none.
pub open spec fn next_char(s: Seq<char>, c: char, i: int) -> int
    decreases s.len() - i,
{
    if i >= s.len() || s[i] == c {
        i
    } else {
        next_char(s, c, i + 1)
    }
}

/// The numbers that stand in `s` from `i` on, separated by commas.
pub open spec fn lengths_from(s: Seq<char>, i: int) -> Option<Seq<usize>>
    decreases s.len() - i,
{
    if i < 0 || i > s.len() {
        None
    } else {
        let j = next_char(s, ',', i);
        match text::parsed(s.subrange(i, j)) {
            None => None,
            Some(n) => if j >= s.len() || j < i {
                Some(seq![n as usize])
            } else {
                match lengths_from(s, j + 1) {
                    None => None,
                    Some(v) => Some(seq![n as usize] + v),
                }
            },
        }
    }
}

/// The numbers that stand in `s`, separated by commas; none in an empty text.
pub open spec fn lengths_of(s: Seq<char>) -> Option<Seq<usize>> {
    if s.len() == 0 {
        Some(Seq::empty())
    } else {
        lengths_from(s, 0)
    }
}

/// The name and the shape of a variable, such as `x[4,2]`.
pub open spec fn term_of(w: Seq<char>) -> Option<(Seq<char>, Seq<usize>)> {
    let i = next_char(w, '[', 0);
    if i >= w.len() - 1 || w.last() != ']' {
        None
    } else {
        match lengths_of(w.subrange(i + 1, w.len() - 1)) {
            Some(s) => Some((w.subrange(0, i), s)),
            None => None,
        }
    }
}

/// Where the next character stands.
proof fn lemma_next(s: Seq<char>, c: char, i: int)
    requires
        0 <= i <= s.len(),
    ensures
        i <= next_char(s, c, i) <= s.len(),
        next_char(s, c, i) < s.len() ==> s[next_char(s, c, i)] == c,
        forall|k: int| i <= k < next_char(s, c, i) ==> #[trigger] s[k] != c,
    decreases s.len() - i,
{
    if i < s.len() && s[i] != c {
        lemma_next(s, c, i + 1);
    }
}

/// A character that is the first of its kind is the next one.
proof fn lemma_first(s: Seq<char>, c: char, i: int, j: int)
    requires
        0 <= i <= j <= s.len(),
        j < s.len() ==> s[j] == c,
        forall|k: int| i <= k < j ==> #[trigger] s[k] != c,
    ensures
        next_char(s, c, i) == j,
    decreases j - i,
{
    if i < j {
        lemma_first(s, c, i + 1, j);
    }
}

/// The index of the first `c` from `i` on, or the length where there is none.
fn find_char(s: &str, c: char, i: usize) -> (r: usize)
    requires
        i <= s@.len(),
    ensures
        r == next_char(s@, c, i as int),
        i <= r <= s@.len(),
{
    let n = s.unicode_len();
    let mut j: usize = i;
    while j < n && s.get_char(j) != c
        invariant
            n == s@.len(),
            i <= j <= n,
            next_char(s@, c, i as int) == next_char(s@, c, j as int),
        decreases n - j,
    {
        j = j + 1;
    }
    j
}

/// Numbers put before others, if there are any.
spec fn put_before(v: Seq<usize>, r: Option<Seq<usize>>) -> Option<Seq<usize>> {
    match r {
        None => None,
        Some(w) => Some(v + w),
    }
}

/// The numbers in a text, separated by commas.
fn read_lengths(s: &str) -> (r: Option<Vec<usize>>)
    ensures
        match r {
            Some(v) => lengths_of(s@) == Some(v@),
            None => lengths_of(s@) is None,
        },
{
    let n = s.unicode_len();
    let mut v: Vec<usize> = Vec::new();
    if n == 0 {
        assert(v@ =~= Seq::<usize>::empty());
        return Some(v);
    }
    let mut i: usize = 0;
    assert(put_before(v@, lengths_from(s@, 0)) == lengths_from(s@, 0)) by {
        if lengths_from(s@, 0) is Some {
            assert(v@ + lengths_from(s@, 0)->0 =~= lengths_from(s@, 0)->0);
        }
    }
    loop
        invariant
            n == s@.len(),
            0 < n,
            i <= n,
            lengths_of(s@) == put_before(v@, lengths_from(s@, i as int)),
        decreases n - i,
    {
        let j = find_char(s, ',', i);
        let part = s.substring_char(i, j);
        proof {
            assert(part@.subrange(0, part@.len() as int) =~= part@);
        }
        match text::parse_from(part, 0) {
            None => {
                return None;
            },
            Some(x) => {
                let ghost before = v@;
                v.push(x);
                if j >= n {
                    assert(v@ =~= before + seq![x]);
                    return Some(v);
                }
                proof {
                    match lengths_from(s@, j + 1) {
                        Some(w) => {
                            assert(v@ + w =~= before + (seq![x] + w));
                        },
                        None => {},
                    }
                }
                i = j + 1;
            },
        }
    }
}

/// Reads the name and the shape of a variable, such as `x[4,2]`.
pub fn read_term(word: &str) -> (r: Option<(String, Vec<usize>)>)
    ensures
        match r {
            Some((name, shape)) => term_of(word@) == Some((name@, shape@)),
            None => term_of(word@) is None,
        },
{
    let n = word.unicode_len();
    let i = find_char(word, '[', 0);
    if n == 0 || i >= n - 1 || word.get_char(n - 1) != ']' {
        return None;
    }
    match read_lengths(word.substring_char(i + 1, n - 1)) {
        None => None,
        Some(shape) => Some((text::copied(word.substring_char(0, i)), shape)),
    }
}

// ---- reading what was written ----
/// The first `k` numbers of a list, separated by commas.
pub open spec fn listed(v: Seq<usize>, k: nat) -> Seq<char>
    decreases k,
{
    if k == 0 {
        Seq::empty()
    } else if k == 1 {
        text::digits(v[0] as nat)
    } else {
        listed(v, (k - 1) as nat) + seq![','] + text::digits(v[k - 1] as nat)
    }
}

/// A variable with its shape.
pub open spec fn term_text(name: Seq<char>, shape: Seq<usize>) -> Seq<char> {
    name + seq!['['] + listed(shape, shape.len()) + seq![']']
}

/// Decimal notation holds digits only.
proof fn lemma_only_digits(n: nat)
    ensures
        forall|k: int|
            0 <= k < text::digits(n).len() ==> #[trigger] text::digits(n)[k] != ','
                && text::digits(n)[k] != '[',
    decreases n,
{
    if n >= 10 {
        lemma_only_digits(n / 10);
        let (d, e) = (text::digits(n), text::digits(n / 10));
        assert(d == e.push(text::digit((n % 10) as int)));
        assert forall|k: int| 0 <= k < d.len() implies #[trigger] d[k] != ',' && d[k] != '[' by {
            if k < e.len() {
                assert(d[k] == e[k]);
            }
        }
    } else {
        assert(text::digits(n) == seq![text::digit(n as int)]);
    }
}

/// A number is read as it was written.
proof fn lemma_parsed(n: usize)
    ensures
        text::parsed(text::digits(n as nat)) == Some(n as nat),
{
    text::lemma_digits_value(n as nat);
}

/// Numbers that follow others are read as if they stood alone.
proof fn lemma_lengths_behind(s: Seq<char>, t: Seq<char>, i: int)
    requires
        0 <= i <= t.len(),
    ensures
        lengths_from(s + t, s.len() + i) == lengths_from(t, i),
    decreases t.len() - i,
{
    let a = s + t;
    lemma_next(t, ',', i);
    let j = next_char(t, ',', i);
    assert(next_char(a, ',', s.len() + i) == s.len() + j) by {
        assert forall|k: int| s.len() + i <= k < s.len() + j implies #[trigger] a[k] != ',' by {
            assert(a[k] == t[k - s.len()]);
        }
        lemma_first(a, ',', s.len() + i, s.len() + j);
    }
    assert(a.subrange(s.len() + i, s.len() + j) =~= t.subrange(i, j));
    if j < t.len() {
        lemma_lengths_behind(s, t, j + 1);
    }
}

/// Numbers before a comma are read before those behind it.
proof fn lemma_lengths_split(s: Seq<char>, n: usize, i: int)
    requires
        0 <= i <= s.len(),
        lengths_from(s, i) is Some,
    ensures
        lengths_from(s + seq![','] + text::digits(n as nat), i) == Some(
            lengths_from(s, i)->0 + seq![n],
        ),
    decreases s.len() - i,
{
    let d = text::digits(n as nat);
    let a = s + seq![','] + d;
    lemma_next(s, ',', i);
    let j = next_char(s, ',', i);
    assert(next_char(a, ',', i) == j) by {
        assert forall|k: int| i <= k < j implies #[trigger] a[k] != ',' by {
            assert(a[k] == s[k]);
        }
        lemma_first(a, ',', i, j);
    }
    assert(a.subrange(i, j) =~= s.subrange(i, j));
    if j < s.len() {
        lemma_lengths_split(s, n, j + 1);
        let (x, w) = (text::parsed(s.subrange(i, j))->0 as usize, lengths_from(s, j + 1)->0);
        assert(seq![x] + (w + seq![n]) =~= (seq![x] + w) + seq![n]);
    } else {
        lemma_only_digits(n as nat);
        lemma_parsed(n);
        let b = s + seq![','];
        lemma_lengths_behind(b, d, 0);
        lemma_first(d, ',', 0, d.len() as int);
        assert(d.subrange(0, d.len() as int) =~= d);
        let x = text::parsed(s.subrange(i, j))->0 as usize;
        assert(seq![x] + seq![n] =~= seq![x] + seq![n]);
    }
}

/// A list of numbers is read as it was written.
proof fn lemma_lengths_round_trip(v: Seq<usize>, k: nat)
    requires
        0 < k <= v.len(),
    ensures
        lengths_from(listed(v, k), 0) == Some(v.subrange(0, k as int)),
        listed(v, k).len() > 0,
    decreases k,
{
    if k == 1 {
        let d = text::digits(v[0] as nat);
        lemma_only_digits(v[0] as nat);
        lemma_parsed(v[0]);
        text::lemma_digits_value(v[0] as nat);
        lemma_first(d, ',', 0, d.len() as int);
        assert(d.subrange(0, d.len() as int) =~= d);
        assert(v.subrange(0, 1) =~= seq![v[0]]);
    } else {
        lemma_lengths_round_trip(v, (k - 1) as nat);
        lemma_lengths_split(listed(v, (k - 1) as nat), v[k - 1], 0);
        assert(v.subrange(0, k - 1) + seq![v[k - 1]] =~= v.subrange(0, k as int));
    }
}

/// A variable is read as it was written, if its name holds no opening bracket.
pub proof fn lemma_term_round_trip(name: Seq<char>, shape: Seq<usize>)
    requires
        !name.contains('['),
    ensures
        term_of(term_text(name, shape)) == Some((name, shape)),
{
    let w = term_text(name, shape);
    let l = listed(shape, shape.len());
    let i = name.len() as int;
    assert forall|k: int| 0 <= k < i implies #[trigger] w[k] != '[' by {
        assert(w[k] == name[k]);
    }
    assert(w[i] == '[');
    lemma_first(w, '[', 0, i);
    assert(w.last() == ']');
    assert(w.subrange(i + 1, w.len() - 1) =~= l);
    assert(w.subrange(0, i) =~= name);
    if shape.len() > 0 {
        lemma_lengths_round_trip(shape, shape.len());
        assert(shape.subrange(0, shape.len() as int) =~= shape);
    } else {
        assert(shape =~= Seq::<usize>::empty());
    }
}

/// A number behind a name adds no opening bracket.
proof fn lemma_numbered(prefix: Seq<char>, i: nat)
    requires
        !prefix.contains('['),
    ensures
        !text::numbered(prefix, i).contains('['),
{
    let s = text::numbered(prefix, i);
    lemma_only_digits(i);
    assert forall|k: int| 0 <= k < s.len() implies #[trigger] s[k] != '[' by {
        if k < prefix.len() {
            assert(s[k] == prefix[k]);
        } else {
            assert(s[k] == text::digits(i)[k - prefix.len()]);
        }
    }
}

/// A matrix of a checkpoint is read as it was written.
pub proof fn lemma_matrix_round_trip(prefix: Seq<char>, i: nat, a: usize, b: usize)
    requires
        !prefix.contains('['),
    ensures
        term_of(cli::matrix_text(prefix, i, a as nat, b as nat)) == Some(
            (text::numbered(prefix, i), seq![a, b]),
        ),
{
    let name = text::numbered(prefix, i);
    let shape = seq![a, b];
    reveal_strlit("[");
    reveal_strlit(",");
    reveal_strlit("]");
    reveal_with_fuel(listed, 3);
    lemma_numbered(prefix, i);
    assert(cli::matrix_text(prefix, i, a as nat, b as nat) =~= term_text(name, shape));
    lemma_term_round_trip(name, shape);
}

/// A vector of a checkpoint is read as it was written.
pub proof fn lemma_vector_round_trip(prefix: Seq<char>, i: nat, a: usize)
    requires
        !prefix.contains('['),
    ensures
        term_of(cli::vector_text(prefix, i, a as nat)) == Some((text::numbered(prefix, i), seq![a])),
{
    let name = text::numbered(prefix, i);
    let shape = seq![a];
    reveal_strlit("[");
    reveal_strlit("]");
    reveal_with_fuel(listed, 2);
    lemma_numbered(prefix, i);
    assert(cli::vector_text(prefix, i, a as nat) =~= term_text(name, shape));
    lemma_term_round_trip(name, shape);
}

// ---- operations ----
/// The operation on one operand that has no options and the given name.
pub open spec fn plain_unary<S>(name: Seq<char>) -> Option<UnOpV<S>> {
    if name == "neg"@ {
        Some(UnOpV::Neg)
    } else if name == "reciprocal"@ {
        Some(UnOpV::Reciprocal)
    } else if name == "square"@ {
        Some(UnOpV::Square)
    } else if name == "sqrt"@ {
        Some(UnOpV::Sqrt)
    } else if name == "exp"@ {
        Some(UnOpV::Exp)
    } else if name == "log"@ {
        Some(UnOpV::Log)
    } else if name == "relu"@ {
        Some(UnOpV::Relu)
    } else if name == "gelu"@ {
        Some(UnOpV::Gelu)
    } else if name == "normalcdf"@ {
        Some(UnOpV::NormalCdf)
    } else {
        None
    }
}

/// The operation on two operands that has no options and the given name.
pub open spec fn plain_binary(name: Seq<char>) -> Option<BinOpV> {
    if name == "add"@ {
        Some(BinOpV::Add)
    } else if name == "mul"@ {
        Some(BinOpV::Mul)
    } else if name == "dot"@ {
        Some(BinOpV::Dot)
    } else {
        None
    }
}

/// The operation without options that has the given name and operands.
pub open spec fn plain_operation<S>(name: Seq<char>, v: Seq<AtomV<S>>) -> Option<PrimV<S>> {
    if v.len() == 1 {
        match plain_unary::<S>(name) {
            Some(op) => Some(PrimV::Un(op, v[0])),
            None => None,
        }
    } else if v.len() == 2 {
        match plain_binary(name) {
            Some(op) => Some(PrimV::Bin(op, v[0], v[1])),
            None => None,
        }
    } else {
        None
    }
}

/// Whether a name is the given word.
pub(crate) fn is_word(name: &String, word: &str) -> (r: bool)
    ensures
        r == (name@ == word@),
{
    *name == text::copied(word)
}

/// The operation on one operand that has no options and the given name.
fn unary_named<S: Scalar>(name: &String) -> (r: Option<UnOp<S>>)
    ensures
        match r {
            Some(op) => plain_unary::<S>(name@) == Some(op@),
            None => plain_unary::<S>(name@) is None,
        },
{
    if is_word(name, "neg") {
        Some(UnOp::Neg)
    } else if is_word(name, "reciprocal") {
        Some(UnOp::Reciprocal)
    } else if is_word(name, "square") {
        Some(UnOp::Square)
    } else if is_word(name, "sqrt") {
        Some(UnOp::Sqrt)
    } else if is_word(name, "exp") {
        Some(UnOp::Exp)
    } else if is_word(name, "log") {
        Some(UnOp::Log)
    } else if is_word(name, "relu") {
        Some(UnOp::Relu)
    } else if is_word(name, "gelu") {
        Some(UnOp::Gelu)
    } else if is_word(name, "normalcdf") {
        Some(UnOp::NormalCdf)
    } else {
        None
    }
}

/// The operation on two operands that has no options and the given name.
fn binary_named(name: &String) -> (r: Option<BinOp>)
    ensures
        match r {
            Some(op) => plain_binary(name@) == Some(op@),
            None => plain_binary(name@) is None,
        },
{
    if is_word(name, "add") {
        Some(BinOp::Add)
    } else if is_word(name, "mul") {
        Some(BinOp::Mul)
    } else if is_word(name, "dot") {
        Some(BinOp::Dot)
    } else {
        None
    }
}

/// The operation without options that has the given name and operands.
pub fn operation_named<S: Scalar>(name: &String, operands: Vec<Atom<S>>) -> (r: Option<
    Primitive<S>,
>)
    ensures
        match r {
            Some(p) => plain_operation(name@, nn::atom_views(operands@)) == Some(p@),
            None => plain_operation(name@, nn::atom_views(operands@)) is None,
        },
{
    let mut rest = operands;
    if rest.len() == 1 {
        let op: Option<UnOp<S>> = unary_named(name);
        match (op, rest.pop()) {
            (Some(op), Some(a)) => Some(Primitive::from_unary(op, a)),
            _ => None,
        }
    } else if rest.len() == 2 {
        let b = rest.pop();
        match (binary_named(name), rest.pop(), b) {
            (Some(op), Some(a), Some(b)) => Some(Primitive::from_binary(op, a, b)),
            _ => None,
        }
    } else {
        None
    }
}

/// An operation that is read under a name has that name, and the operands that it is given.
pub proof fn lemma_plain_named<S>(name: Seq<char>, v: Seq<AtomV<S>>)
    ensures
        plain_operation(name, v) matches Some(p) ==> nn::name_of(p) == name && nn::operands_of(p)
            == v,
{
    if plain_operation(name, v) is Some {
        let p = plain_operation(name, v)->0;
        assert(nn::operands_of(p) =~= v);
    }
}

} // verus!
