//! Reading the text of a network.
//!
//! A line names inputs (`input: x[4,2]`), outputs (`output: y[4,2]`), or holds an equation with
//! the options of its operation in braces (`y[4,2] = dot {} x[4,3] W1[3,2]`). Blank lines are
//! skipped, and words are separated by white space.

use vstd::prelude::*;
use vstd::string::*;
use crate::cli;
use crate::crown;
use crate::env::Env;
use crate::mlp::LayerV;
use crate::model::{BinOpV, TensorV, UnOpV};
use crate::nn;
use crate::nn::{Atom, AtomKind, AtomV, ComputeGraph, EqnV, Equation, GraphV, PrimV};
use crate::notation;
use crate::scalar::Scalar;
use crate::shape;
use crate::tensor;
use crate::tensor::Tensor;
use crate::text;

verus! {

/// Why a text is not that of a network.
#[derive(Debug, Clone, Copy, PartialEq, Eq)]
pub enum ReadError {
    /// A line that is neither a list of variables nor an equation without options
    Line,
    /// A word that is no name with a shape
    Term,
    /// An operation without options that there is none of, or with other operands
    Operation,
    /// A constant with another number of elements than its shape has
    Constant,
}

// ---- lines and words ----
/// Whether a character separates words.
pub open spec fn is_space(c: char) -> bool {
    c == ' ' || c == '\t' || c == '\n' || c == '\r'
}

/// The finished lines of a text, and the one that it ends in.
pub open spec fn lines_after(s: Seq<char>) -> (Seq<Seq<char>>, Seq<char>)
    decreases s.len(),
{
    if s.len() == 0 {
        (Seq::empty(), Seq::empty())
    } else {
        let (done, last) = lines_after(s.drop_last());
        if s.last() == '\n' {
            (done.push(last), Seq::empty())
        } else {
            (done, last.push(s.last()))
        }
    }
}

/// The lines of a text.
pub open spec fn lines_of(s: Seq<char>) -> Seq<Seq<char>> {
    lines_after(s).0.push(lines_after(s).1)
}

/// The finished words of a text, and the one that it ends in.
pub open spec fn words_after(s: Seq<char>) -> (Seq<Seq<char>>, Seq<char>)
    decreases s.len(),
{
    if s.len() == 0 {
        (Seq::empty(), Seq::empty())
    } else {
        let (done, last) = words_after(s.drop_last());
        if !is_space(s.last()) {
            (done, last.push(s.last()))
        } else if last.len() == 0 {
            (done, last)
        } else {
            (done.push(last), Seq::empty())
        }
    }
}

/// The words of a text.
pub open spec fn words_of(s: Seq<char>) -> Seq<Seq<char>> {
    let (done, last) = words_after(s);
    if last.len() == 0 {
        done
    } else {
        done.push(last)
    }
}

/// The texts that strings hold.
pub open spec fn texts(v: Seq<String>) -> Seq<Seq<char>> {
    Seq::new(v.len(), |i: int| v[i]@)
}

/// Splits a text into lines.
fn split_lines(s: &str) -> (r: Vec<String>)
    ensures
        texts(r@) == lines_of(s@),
{
    let n = s.unicode_len();
    let mut done: Vec<String> = Vec::new();
    let mut from: usize = 0;
    assert(texts(done@) =~= Seq::<Seq<char>>::empty());
    assert(s@.subrange(0, 0) =~= Seq::<char>::empty());
    for i in 0..n
        invariant
            n == s@.len(),
            from <= i,
            (texts(done@), s@.subrange(from as int, i as int)) == lines_after(
                s@.subrange(0, i as int),
            ),
    {
        let ghost before = texts(done@);
        let ghost head = s@.subrange(0, i + 1);
        assert(head.drop_last() =~= s@.subrange(0, i as int));
        assert(head.last() == s@[i as int]);
        if s.get_char(i) == '\n' {
            done.push(text::copied(s.substring_char(from, i)));
            from = i + 1;
            assert(texts(done@) =~= before.push(lines_after(head.drop_last()).1));
            assert(s@.subrange(i + 1, i + 1) =~= Seq::<char>::empty());
        } else {
            assert(s@.subrange(from as int, i + 1) =~= s@.subrange(from as int, i as int).push(
                s@[i as int],
            ));
        }
    }
    let ghost before = texts(done@);
    assert(s@.subrange(0, n as int) =~= s@);
    done.push(text::copied(s.substring_char(from, n)));
    assert(texts(done@) =~= before.push(lines_after(s@).1));
    done
}

/// Splits a text into words.
fn split_words(s: &str) -> (r: Vec<String>)
    ensures
        texts(r@) == words_of(s@),
{
    let n = s.unicode_len();
    let mut done: Vec<String> = Vec::new();
    let mut from: usize = 0;
    assert(texts(done@) =~= Seq::<Seq<char>>::empty());
    assert(s@.subrange(0, 0) =~= Seq::<char>::empty());
    for i in 0..n
        invariant
            n == s@.len(),
            from <= i,
            (texts(done@), s@.subrange(from as int, i as int)) == words_after(
                s@.subrange(0, i as int),
            ),
    {
        let ghost before = texts(done@);
        let ghost head = s@.subrange(0, i + 1);
        assert(head.drop_last() =~= s@.subrange(0, i as int));
        assert(head.last() == s@[i as int]);
        let c = s.get_char(i);
        if c == ' ' || c == '\t' || c == '\n' || c == '\r' {
            if from < i {
                done.push(text::copied(s.substring_char(from, i)));
                assert(texts(done@) =~= before.push(words_after(head.drop_last()).1));
            }
            from = i + 1;
            assert(s@.subrange(i + 1, i + 1) =~= Seq::<char>::empty());
        } else {
            assert(s@.subrange(from as int, i + 1) =~= s@.subrange(from as int, i as int).push(
                s@[i as int],
            ));
        }
    }
    let ghost before = texts(done@);
    assert(s@.subrange(0, n as int) =~= s@);
    if from < n {
        done.push(text::copied(s.substring_char(from, n)));
        assert(texts(done@) =~= before.push(words_after(s@).1));
    }
    done
}

// ---- variables and equations ----
/// The operand that a word names: a constant of the given elements, or a variable.
pub open spec fn atom_of<S>(w: Seq<char>, constants: Map<Seq<char>, TensorV<S>>) -> Result<
    AtomV<S>,
    ReadError,
> {
    match notation::term_of(w) {
        None => Err(ReadError::Term),
        Some((name, shape)) => if !constants.dom().contains(name) {
            Ok(nn::variable(name, shape))
        } else if shape::fits(shape) && constants[name].data.len() == shape::product(shape) {
            Ok(AtomV { name, shape, value: Some(TensorV { shape, data: constants[name].data }) })
        } else {
            Err(ReadError::Constant)
        },
    }
}

/// The operands that the words from number `i` up to number `k` name.
pub open spec fn atoms_of<S>(
    ws: Seq<Seq<char>>,
    i: nat,
    k: nat,
    constants: Map<Seq<char>, TensorV<S>>,
) -> Result<Seq<AtomV<S>>, ReadError>
    decreases k,
{
    if k <= i {
        Ok(Seq::empty())
    } else {
        match atoms_of(ws, i, (k - 1) as nat, constants) {
            Err(e) => Err(e),
            Ok(v) => match atom_of(ws[k - 1], constants) {
                Err(e) => Err(e),
                Ok(a) => Ok(v.push(a)),
            },
        }
    }
}

/// A graph with the line added whose words are `ws`.
pub open spec fn with_words<S>(
    g: GraphV<S>,
    ws: Seq<Seq<char>>,
    constants: Map<Seq<char>, TensorV<S>>,
) -> Result<GraphV<S>, ReadError> {
    if ws.len() == 0 {
        Ok(g)
    } else if ws[0] == "input:"@ {
        match atoms_of(ws, 1, ws.len(), constants) {
            Err(e) => Err(e),
            Ok(v) => Ok(
                GraphV { invars: g.invars + v, outvars: g.outvars, equations: g.equations },
            ),
        }
    } else if ws[0] == "output:"@ {
        match atoms_of(ws, 1, ws.len(), constants) {
            Err(e) => Err(e),
            Ok(v) => Ok(
                GraphV { invars: g.invars, outvars: g.outvars + v, equations: g.equations },
            ),
        }
    } else if ws.len() < 4 || ws[1] != "="@ || ws[3] != "{}"@ {
        Err(ReadError::Line)
    } else {
        match atoms_of(ws, 4, ws.len(), constants) {
            Err(e) => Err(e),
            Ok(v) => match notation::plain_operation(ws[2], v) {
                None => Err(ReadError::Operation),
                Some(prim) => match atom_of(ws[0], constants) {
                    Err(e) => Err(e),
                    Ok(out) => Ok(
                        GraphV {
                            invars: g.invars,
                            outvars: g.outvars,
                            equations: g.equations.push(EqnV { prim, out }),
                        },
                    ),
                },
            },
        }
    }
}

/// The graph that the first `k` lines describe.
pub open spec fn graph_of_lines<S>(
    ls: Seq<Seq<char>>,
    k: nat,
    constants: Map<Seq<char>, TensorV<S>>,
) -> Result<GraphV<S>, ReadError>
    decreases k,
{
    if k == 0 {
        Ok(GraphV { invars: Seq::empty(), outvars: Seq::empty(), equations: Seq::empty() })
    } else {
        match graph_of_lines(ls, (k - 1) as nat, constants) {
            Err(e) => Err(e),
            Ok(g) => with_words(g, words_of(ls[k - 1]), constants),
        }
    }
}

/// The graph that a text describes; names that `constants` gives elements are constants.
pub open spec fn graph_of_text<S>(s: Seq<char>, constants: Map<Seq<char>, TensorV<S>>) -> Result<
    GraphV<S>,
    ReadError,
> {
    graph_of_lines(lines_of(s), lines_of(s).len(), constants)
}

/// A graph that was read, mathematically.
pub open spec fn graph_result<S>(r: Result<ComputeGraph<S>, ReadError>) -> Result<
    GraphV<S>,
    ReadError,
> {
    match r {
        Ok(g) => Ok(g@),
        Err(e) => Err(e),
    }
}

/// A copy of some numbers.
fn copied<S: Scalar>(v: &[S]) -> (r: Vec<S>)
    ensures
        r@ == v@,
{
    let mut out: Vec<S> = Vec::new();
    for i in 0..v.len()
        invariant
            out@ == v@.subrange(0, i as int),
    {
        out.push(v[i]);
    }
    assert(out@ =~= v@);
    out
}

/// Reads the operand that a word names.
fn read_atom<S: Scalar>(w: &str, constants: &Env<Tensor<S>>) -> (r: Result<Atom<S>, ReadError>)
    ensures
        match r {
            Ok(a) => atom_of(w@, crown::tensors(*constants)) == Ok::<AtomV<S>, ReadError>(a@),
            Err(e) => atom_of(w@, crown::tensors(*constants)) == Err::<AtomV<S>, ReadError>(e),
        },
{
    match notation::read_term(w) {
        None => Err(ReadError::Term),
        Some((name, shape)) => match constants.get(name.as_str()) {
            None => Ok(Atom::var(name, shape)),
            Some(t) => {
                let kept = tensor::copy_of(&shape);
                match Tensor::from_shape_vec(kept, copied(t.values())) {
                    Ok(value) => Ok(Atom { name, shape, kind: AtomKind::Const(value) }),
                    Err(_) => Err(ReadError::Constant),
                }
            },
        },
    }
}

/// Reads the operands that the words from number `i` on name.
fn read_atoms<S: Scalar>(ws: &Vec<String>, i: usize, constants: &Env<Tensor<S>>) -> (r: Result<
    Vec<Atom<S>>,
    ReadError,
>)
    requires
        i <= ws@.len(),
    ensures
        match r {
            Ok(v) => atoms_of(
                texts(ws@),
                i as nat,
                ws@.len(),
                crown::tensors(*constants),
            ) == Ok::<Seq<AtomV<S>>, ReadError>(nn::atom_views(v@)),
            Err(e) => atoms_of(
                texts(ws@),
                i as nat,
                ws@.len(),
                crown::tensors(*constants),
            ) == Err::<Seq<AtomV<S>>, ReadError>(e),
        },
{
    let ghost c = crown::tensors(*constants);
    let mut v: Vec<Atom<S>> = Vec::new();
    assert(nn::atom_views(v@) =~= Seq::<AtomV<S>>::empty());
    for k in i..ws.len()
        invariant
            c == crown::tensors(*constants),
            i <= ws@.len(),
            atoms_of(texts(ws@), i as nat, k as nat, c) == Ok::<Seq<AtomV<S>>, ReadError>(
                nn::atom_views(v@),
            ),
    {
        match read_atom(ws[k].as_str(), constants) {
            Err(e) => {
                proof {
                    lemma_atoms_fail(texts(ws@), i as nat, (k + 1) as nat, ws@.len(), c);
                }
                return Err(e);
            },
            Ok(a) => {
                let ghost before = nn::atom_views(v@);
                let ghost got = a@;
                v.push(a);
                assert(nn::atom_views(v@) =~= before.push(got));
            },
        }
    }
    Ok(v)
}

/// One word that names no operand fails all.
proof fn lemma_atoms_fail<S>(
    ws: Seq<Seq<char>>,
    i: nat,
    j: nat,
    k: nat,
    c: Map<Seq<char>, TensorV<S>>,
)
    requires
        i < j <= k,
        atoms_of(ws, i, j, c) is Err,
    ensures
        atoms_of(ws, i, k, c) == atoms_of(ws, i, j, c),
    decreases k,
{
    if j < k {
        lemma_atoms_fail(ws, i, j, (k - 1) as nat, c);
    }
}

/// Adds one line to a graph.
fn read_line<S: Scalar>(
    graph: &mut ComputeGraph<S>,
    line: &str,
    constants: &Env<Tensor<S>>,
) -> (r: Result<(), ReadError>)
    ensures
        match r {
            Ok(_) => with_words(old(graph)@, words_of(line@), crown::tensors(*constants)) == Ok::<
                GraphV<S>,
                ReadError,
            >(final(graph)@),
            Err(e) => with_words(old(graph)@, words_of(line@), crown::tensors(*constants))
                == Err::<GraphV<S>, ReadError>(e),
        },
{
    let ws = split_words(line);
    let ghost c = crown::tensors(*constants);
    let ghost g = graph@;
    if ws.len() == 0 {
        return Ok(());
    }
    if notation::is_word(&ws[0], "input:") {
        let mut v = read_atoms(&ws, 1, constants)?;
        let ghost more = nn::atom_views(v@);
        let ghost before = nn::atom_views(graph.invars@);
        graph.invars.append(&mut v);
        assert(nn::atom_views(graph.invars@) =~= before + more);
        return Ok(());
    }
    if notation::is_word(&ws[0], "output:") {
        let mut v = read_atoms(&ws, 1, constants)?;
        let ghost more = nn::atom_views(v@);
        let ghost before = nn::atom_views(graph.outvars@);
        graph.outvars.append(&mut v);
        assert(nn::atom_views(graph.outvars@) =~= before + more);
        return Ok(());
    }
    if ws.len() < 4 || !notation::is_word(&ws[1], "=") || !notation::is_word(&ws[3], "{}") {
        return Err(ReadError::Line);
    }
    let operands = read_atoms(&ws, 4, constants)?;
    match notation::operation_named(&ws[2], operands) {
        None => Err(ReadError::Operation),
        Some(primitive) => {
            let outvar = read_atom(ws[0].as_str(), constants)?;
            let eqn = Equation { primitive, outvar };
            let ghost before = nn::eqn_views(graph.equations@);
            let ghost e = eqn@;
            graph.equations.push(eqn);
            assert(nn::eqn_views(graph.equations@) =~= before.push(e));
            Ok(())
        },
    }
}

/// One line that cannot be read fails all.
proof fn lemma_lines_fail<S>(
    ls: Seq<Seq<char>>,
    j: nat,
    k: nat,
    c: Map<Seq<char>, TensorV<S>>,
)
    requires
        j <= k,
        graph_of_lines(ls, j, c) is Err,
    ensures
        graph_of_lines(ls, k, c) == graph_of_lines(ls, j, c),
    decreases k,
{
    if j < k {
        lemma_lines_fail(ls, j, (k - 1) as nat, c);
    }
}

/// Reads the graph that a text describes. Names that `constants` holds are constants, with the
/// elements given there in the shapes that the text declares.
pub fn read_graph<S: Scalar>(text: &str, constants: &Env<Tensor<S>>) -> (r: Result<
    ComputeGraph<S>,
    ReadError,
>)
    ensures
        graph_result(r) == graph_of_text(text@, crown::tensors(*constants)),
{
    let ghost c = crown::tensors(*constants);
    let lines = split_lines(text);
    let mut graph: ComputeGraph<S> = ComputeGraph {
        invars: Vec::new(),
        outvars: Vec::new(),
        equations: Vec::new(),
    };
    assert(graph@.invars =~= Seq::empty());
    assert(graph@.outvars =~= Seq::empty());
    assert(graph@.equations =~= Seq::empty());
    for k in 0..lines.len()
        invariant
            c == crown::tensors(*constants),
            texts(lines@) == lines_of(text@),
            graph_of_lines(texts(lines@), k as nat, c) == Ok::<GraphV<S>, ReadError>(graph@),
    {
        match read_line(&mut graph, lines[k].as_str(), constants) {
            Ok(_) => {},
            Err(e) => {
                proof {
                    lemma_lines_fail(texts(lines@), (k + 1) as nat, lines@.len(), c);
                }
                return Err(e);
            },
        }
    }
    Ok(graph)
}

// ---- reading what was written ----
/// Whether a text holds no white space.
pub open spec fn unbroken(s: Seq<char>) -> bool {
    forall|i: int| 0 <= i < s.len() ==> !is_space(#[trigger] s[i])
}

/// Whether a text is one line.
pub open spec fn one_line(s: Seq<char>) -> bool {
    forall|i: int| 0 <= i < s.len() ==> #[trigger] s[i] != '\n'
}

/// Words with single spaces between them.
pub open spec fn joined(ws: Seq<Seq<char>>) -> Seq<char>
    decreases ws.len(),
{
    if ws.len() == 0 {
        Seq::empty()
    } else if ws.len() == 1 {
        ws[0]
    } else {
        joined(ws.drop_last()) + seq![' '] + ws.last()
    }
}

/// A text without line ends continues the last line.
proof fn lemma_line_goes_on(s: Seq<char>, t: Seq<char>)
    requires
        one_line(t),
    ensures
        lines_after(s + t) == (lines_after(s).0, lines_after(s).1 + t),
    decreases t.len(),
{
    if t.len() == 0 {
        assert(s + t =~= s);
        assert(lines_after(s).1 + t =~= lines_after(s).1);
    } else {
        let u = t.drop_last();
        assert(one_line(u));
        lemma_line_goes_on(s, u);
        assert((s + t).drop_last() =~= s + u);
        assert((s + t).last() == t[t.len() - 1]);
        assert(lines_after(s).1 + t =~= (lines_after(s).1 + u).push(t.last()));
    }
}

/// A new line.
proof fn lemma_new_line(s: Seq<char>, t: Seq<char>)
    requires
        one_line(t),
    ensures
        lines_after(s + "\n"@ + t) == (lines_after(s).0.push(lines_after(s).1), t),
{
    reveal_strlit("\n");
    let u = s + "\n"@;
    assert(u.drop_last() =~= s);
    assert(u.last() == '\n');
    lemma_line_goes_on(u, t);
    assert(Seq::<char>::empty() + t =~= t);
}

/// A text without white space continues the last word.
proof fn lemma_word_goes_on(s: Seq<char>, t: Seq<char>)
    requires
        unbroken(t),
    ensures
        words_after(s + t) == (words_after(s).0, words_after(s).1 + t),
    decreases t.len(),
{
    if t.len() == 0 {
        assert(s + t =~= s);
        assert(words_after(s).1 + t =~= words_after(s).1);
    } else {
        let u = t.drop_last();
        assert(unbroken(u));
        lemma_word_goes_on(s, u);
        assert((s + t).drop_last() =~= s + u);
        assert((s + t).last() == t[t.len() - 1]);
        assert(words_after(s).1 + t =~= (words_after(s).1 + u).push(t.last()));
    }
}

/// Words are told apart by the spaces between them.
proof fn lemma_joined(ws: Seq<Seq<char>>)
    requires
        ws.len() > 0,
        forall|i: int| 0 <= i < ws.len() ==> unbroken(#[trigger] ws[i]) && ws[i].len() > 0,
    ensures
        words_after(joined(ws)) == (ws.drop_last(), ws.last()),
        words_of(joined(ws)) == ws,
    decreases ws.len(),
{
    if ws.len() == 1 {
        lemma_word_goes_on(Seq::empty(), ws[0]);
        assert(Seq::<char>::empty() + ws[0] =~= ws[0]);
        assert(ws.drop_last() =~= Seq::<Seq<char>>::empty());
    } else {
        let u = ws.drop_last();
        lemma_joined(u);
        let s = joined(u) + seq![' '];
        assert(s.drop_last() =~= joined(u));
        assert(s.last() == ' ');
        lemma_word_goes_on(s, ws.last());
        assert(u.drop_last().push(u.last()) =~= u);
        assert(Seq::<char>::empty() + ws.last() =~= ws.last());
    }
    assert(ws.drop_last().push(ws.last()) =~= ws);
}

/// Words with spaces between them are one line.
proof fn lemma_joined_line(ws: Seq<Seq<char>>)
    requires
        forall|i: int| 0 <= i < ws.len() ==> unbroken(#[trigger] ws[i]),
    ensures
        one_line(joined(ws)),
    decreases ws.len(),
{
    if ws.len() > 1 {
        lemma_joined_line(ws.drop_last());
        let (a, b) = (joined(ws.drop_last()), ws.last());
        assert forall|i: int| 0 <= i < joined(ws).len() implies #[trigger] joined(ws)[i] != '\n' by {
            if i < a.len() {
                assert(joined(ws)[i] == a[i]);
            } else if i > a.len() {
                assert(joined(ws)[i] == b[i - a.len() - 1]);
                assert(!is_space(b[i - a.len() - 1]));
            }
        }
    } else if ws.len() == 1 {
        assert(unbroken(ws[0]));
    }
}

/// A graph with one more line, whose words are known.
proof fn lemma_line_added<S>(
    s: Seq<char>,
    ws: Seq<Seq<char>>,
    c: Map<Seq<char>, TensorV<S>>,
    g: GraphV<S>,
)
    requires
        graph_of_text(s, c) == Ok::<GraphV<S>, ReadError>(g),
        ws.len() > 0,
        forall|i: int| 0 <= i < ws.len() ==> unbroken(#[trigger] ws[i]) && ws[i].len() > 0,
    ensures
        graph_of_text(s + "\n"@ + joined(ws), c) == with_words(g, ws, c),
{
    lemma_joined_line(ws);
    lemma_joined(ws);
    lemma_new_line(s, joined(ws));
    let t = s + "\n"@ + joined(ws);
    let n = lines_of(s).len();
    assert(lines_of(t).len() == n + 1);
    assert(lines_of(t) =~= lines_of(s).push(joined(ws)));
    lemma_same_lines(lines_of(s), lines_of(t), n, c);
}

/// A graph depends on the lines that it is read from.
proof fn lemma_same_lines<S>(
    a: Seq<Seq<char>>,
    b: Seq<Seq<char>>,
    k: nat,
    c: Map<Seq<char>, TensorV<S>>,
)
    requires
        k <= a.len(),
        k <= b.len(),
        forall|i: int| 0 <= i < k ==> a[i] == #[trigger] b[i],
    ensures
        graph_of_lines(a, k, c) == graph_of_lines(b, k, c),
    decreases k,
{
    if k > 0 {
        lemma_same_lines(a, b, (k - 1) as nat, c);
        assert(a[k - 1] == b[k - 1]);
    }
}

/// Decimal notation holds no white space.
proof fn lemma_digits_unbroken(n: nat)
    ensures
        unbroken(text::digits(n)),
        text::digits(n).len() > 0,
    decreases n,
{
    if n >= 10 {
        lemma_digits_unbroken(n / 10);
        let (d, e) = (text::digits(n), text::digits(n / 10));
        assert(d == e.push(text::digit((n % 10) as int)));
        assert forall|k: int| 0 <= k < d.len() implies !is_space(#[trigger] d[k]) by {
            if k < e.len() {
                assert(d[k] == e[k]);
            }
        }
    } else {
        assert(text::digits(n) == seq![text::digit(n as int)]);
    }
}

/// Texts without white space, one behind the other.
proof fn lemma_unbroken_add(s: Seq<char>, t: Seq<char>)
    requires
        unbroken(s),
        unbroken(t),
    ensures
        unbroken(s + t),
{
    let u = s + t;
    assert forall|i: int| 0 <= i < u.len() implies !is_space(#[trigger] u[i]) by {
        if i < s.len() {
            assert(u[i] == s[i]);
        } else {
            assert(u[i] == t[i - s.len()]);
        }
    }
}

/// Shapes and variables hold no white space.
proof fn lemma_terms_unbroken(prefix: Seq<char>, i: nat, a: nat, b: nat)
    requires
        unbroken(prefix),
    ensures
        unbroken(cli::shape_text(a, b)),
        unbroken(cli::matrix_text(prefix, i, a, b)),
        unbroken(cli::vector_text(prefix, i, a)),
        cli::matrix_text(prefix, i, a, b).len() > 0,
        cli::vector_text(prefix, i, a).len() > 0,
{
    reveal_strlit("[");
    reveal_strlit(",");
    reveal_strlit("]");
    lemma_digits_unbroken(i);
    lemma_digits_unbroken(a);
    lemma_digits_unbroken(b);
    lemma_unbroken_add(prefix, text::digits(i));
    let n = text::numbered(prefix, i);
    lemma_unbroken_add("["@, text::digits(a));
    lemma_unbroken_add("["@ + text::digits(a), ","@);
    lemma_unbroken_add("["@ + text::digits(a) + ","@, text::digits(b));
    lemma_unbroken_add("["@ + text::digits(a) + ","@ + text::digits(b), "]"@);
    lemma_unbroken_add(n, cli::shape_text(a, b));
    lemma_unbroken_add(n, "["@);
    lemma_unbroken_add(n + "["@, text::digits(a));
    lemma_unbroken_add(n + "["@ + text::digits(a), "]"@);
}

/// The constant of a layer in a checkpoint.
pub open spec fn saved_constant<S>(
    prefix: &str,
    i: nat,
    shape: Seq<usize>,
    data: Seq<S>,
) -> AtomV<S> {
    AtomV { name: text::numbered(prefix@, i), shape, value: Some(TensorV { shape, data }) }
}

/// A variable of a layer in a checkpoint.
pub open spec fn saved_variable<S>(prefix: &str, i: nat, a: usize, b: usize) -> AtomV<S> {
    nn::variable(text::numbered(prefix@, i), seq![a, b])
}

/// The variable that the first `k` layers of a checkpoint end in.
pub open spec fn saved_end<S>(
    layers: Seq<LayerV<S>>,
    batch: usize,
    in_size: usize,
    k: nat,
) -> AtomV<S> {
    if k == 0 {
        nn::variable("x"@, seq![batch, in_size])
    } else if k < layers.len() {
        saved_variable("r", k, batch, cli::width(layers, k - 1) as usize)
    } else {
        saved_variable("a", k, batch, cli::width(layers, k - 1) as usize)
    }
}

/// The equations of the first `k` layers of a checkpoint, whose parameters are constants.
pub open spec fn saved_equations<S>(
    layers: Seq<LayerV<S>>,
    batch: usize,
    in_size: usize,
    k: nat,
) -> Seq<EqnV<S>>
    decreases k,
{
    if k == 0 {
        Seq::empty()
    } else {
        let before = saved_equations(layers, batch, in_size, (k - 1) as nat);
        let (m, n) = (
            cli::fan_in(layers, in_size, k - 1) as usize,
            cli::width(layers, k - 1) as usize,
        );
        let w = saved_constant("W", k, seq![m, n], layers[k - 1].w.data);
        let b = saved_constant("B", k, seq![n], layers[k - 1].b.data);
        let (h, a, r) = (
            saved_variable::<S>("h", k, batch, n),
            saved_variable::<S>("a", k, batch, n),
            saved_variable::<S>("r", k, batch, n),
        );
        let linear = before.push(
            EqnV {
                prim: PrimV::Bin(
                    BinOpV::Dot,
                    saved_end(layers, batch, in_size, (k - 1) as nat),
                    w,
                ),
                out: h,
            },
        ).push(EqnV { prim: PrimV::Bin(BinOpV::Add, h, b), out: a });
        if k < layers.len() {
            linear.push(EqnV { prim: PrimV::Un(UnOpV::Relu, a), out: r })
        } else {
            linear
        }
    }
}

/// The network of a checkpoint.
pub open spec fn saved_graph<S>(
    layers: Seq<LayerV<S>>,
    batch: usize,
    in_size: usize,
) -> GraphV<S> {
    GraphV {
        invars: seq![nn::variable("x"@, seq![batch, in_size])],
        outvars: seq![saved_end(layers, batch, in_size, layers.len())],
        equations: saved_equations(layers, batch, in_size, layers.len()),
    }
}

/// Whether constants are the parameters of a perceptron, under the names of a checkpoint.
pub open spec fn saves<S>(
    constants: Map<Seq<char>, TensorV<S>>,
    layers: Seq<LayerV<S>>,
    in_size: usize,
) -> bool {
    &&& !constants.dom().contains("x"@)
    &&& forall|k: nat|
        !constants.dom().contains(#[trigger] text::numbered("h"@, k)) && !constants.dom().contains(
            text::numbered("a"@, k),
        ) && !constants.dom().contains(text::numbered("r"@, k))
    &&& forall|k: nat| 1 <= k <= layers.len() ==> #[trigger] saves_layer(constants, layers, in_size, k)
}

/// Whether constants hold the parameters of layer number `k`, counted from one.
pub open spec fn saves_layer<S>(
    constants: Map<Seq<char>, TensorV<S>>,
    layers: Seq<LayerV<S>>,
    in_size: usize,
    k: nat,
) -> bool {
    let (w, b) = (text::numbered("W"@, k), text::numbered("B"@, k));
    let (m, n) = (cli::fan_in(layers, in_size, k - 1), cli::width(layers, k - 1));
    &&& constants.dom().contains(w) && constants[w].data == layers[k - 1].w.data
    &&& constants.dom().contains(b) && constants[b].data == layers[k - 1].b.data
    &&& m <= usize::MAX && n <= usize::MAX
    &&& shape::fits(seq![m as usize, n as usize]) && layers[k - 1].w.data.len() == m * n
    &&& shape::fits(seq![n as usize])
}

/// The product of one or two lengths.
proof fn lemma_products(m: usize, n: usize)
    ensures
        shape::product(seq![m, n]) == m * n,
        shape::product(seq![n]) == n,
{
    let (p, q) = (shape::product(seq![m]), shape::product(Seq::<usize>::empty()));
    assert(seq![m, n].drop_last() =~= seq![m]);
    assert(seq![m].drop_last() =~= Seq::<usize>::empty());
    assert(seq![n].drop_last() =~= Seq::<usize>::empty());
    assert(q * m == m && q * n == n) by (nonlinear_arith)
        requires
            q == 1,
    ;
}

/// What the words of a layer name.
proof fn lemma_layer_atoms<S>(
    layers: Seq<LayerV<S>>,
    batch: usize,
    in_size: usize,
    k: nat,
    c: Map<Seq<char>, TensorV<S>>,
)
    requires
        1 <= k <= layers.len(),
        saves(c, layers, in_size),
    ensures
        ({
            let (m, n) = (cli::fan_in(layers, in_size, k - 1), cli::width(layers, k - 1));
            &&& atom_of(cli::matrix_text("h"@, k, batch as nat, n), c) == Ok::<
                AtomV<S>,
                ReadError,
            >(saved_variable("h", k, batch, n as usize))
            &&& atom_of(cli::matrix_text("a"@, k, batch as nat, n), c) == Ok::<
                AtomV<S>,
                ReadError,
            >(saved_variable("a", k, batch, n as usize))
            &&& atom_of(cli::matrix_text("r"@, k, batch as nat, n), c) == Ok::<
                AtomV<S>,
                ReadError,
            >(saved_variable("r", k, batch, n as usize))
            &&& atom_of(cli::matrix_text("W"@, k, m, n), c) == Ok::<AtomV<S>, ReadError>(
                saved_constant("W", k, seq![m as usize, n as usize], layers[k - 1].w.data),
            )
            &&& atom_of(cli::vector_text("B"@, k, n), c) == Ok::<AtomV<S>, ReadError>(
                saved_constant("B", k, seq![n as usize], layers[k - 1].b.data),
            )
        }),
{
    reveal_strlit("h");
    reveal_strlit("a");
    reveal_strlit("r");
    reveal_strlit("W");
    reveal_strlit("B");
    assert(saves_layer(c, layers, in_size, k));
    let (m, n) = (
        cli::fan_in(layers, in_size, k - 1) as usize,
        cli::width(layers, k - 1) as usize,
    );
    assert(!c.dom().contains(text::numbered("h"@, k)));
    notation::lemma_matrix_round_trip("h"@, k, batch, n);
    notation::lemma_matrix_round_trip("a"@, k, batch, n);
    notation::lemma_matrix_round_trip("r"@, k, batch, n);
    notation::lemma_matrix_round_trip("W"@, k, m, n);
    notation::lemma_vector_round_trip("B"@, k, n);
    lemma_products(m, n);
}

/// What the end of the first `k` layers is read as.
proof fn lemma_end_atom<S>(
    layers: Seq<LayerV<S>>,
    batch: usize,
    in_size: usize,
    k: nat,
    c: Map<Seq<char>, TensorV<S>>,
)
    requires
        k <= layers.len(),
        saves(c, layers, in_size),
    ensures
        atom_of(cli::end_text(layers, batch, in_size, k), c) == Ok::<AtomV<S>, ReadError>(
            saved_end(layers, batch, in_size, k),
        ),
        unbroken(cli::end_text(layers, batch, in_size, k)),
        cli::end_text(layers, batch, in_size, k).len() > 0,
{
    reveal_strlit("x");
    reveal_strlit("r");
    reveal_strlit("a");
    if k == 0 {
        reveal_strlit("[");
        reveal_strlit(",");
        reveal_strlit("]");
        reveal_with_fuel(notation::listed, 3);
        lemma_terms_unbroken("x"@, 0, batch as nat, in_size as nat);
        lemma_unbroken_add("x"@, cli::shape_text(batch as nat, in_size as nat));
        notation::lemma_term_round_trip("x"@, seq![batch, in_size]);
        assert(cli::end_text(layers, batch, in_size, 0) =~= notation::term_text(
            "x"@,
            seq![batch, in_size],
        ));
    } else {
        let n = cli::width(layers, k - 1);
        lemma_layer_atoms(layers, batch, in_size, k, c);
        lemma_terms_unbroken("r"@, k, batch as nat, n);
        lemma_terms_unbroken("a"@, k, batch as nat, n);
    }
}

/// A contraction or a sum, as words.
proof fn lemma_pair_words(h: Seq<char>, name: &str, x: Seq<char>, w: Seq<char>)
    requires
        name@ == "dot"@ || name@ == "add"@,
    ensures
        joined(seq![h, "="@, name@, "{}"@, x, w]) == h + seq![' '] + "="@ + seq![' '] + name@
            + seq![' '] + "{}"@ + seq![' '] + x + seq![' '] + w,
{
    reveal_with_fuel(joined, 7);
    let ws = seq![h, "="@, name@, "{}"@, x, w];
    assert(ws.drop_last() =~= seq![h, "="@, name@, "{}"@, x]);
    assert(ws.drop_last().drop_last() =~= seq![h, "="@, name@, "{}"@]);
    assert(ws.drop_last().drop_last().drop_last() =~= seq![h, "="@, name@]);
    assert(ws.drop_last().drop_last().drop_last().drop_last() =~= seq![h, "="@]);
    assert(ws.drop_last().drop_last().drop_last().drop_last().drop_last() =~= seq![h]);
}

/// A rectifier, as words.
proof fn lemma_relu_words(r: Seq<char>, a: Seq<char>)
    ensures
        joined(seq![r, "="@, "relu"@, "{}"@, a]) == r + seq![' '] + "="@ + seq![' '] + "relu"@
            + seq![' '] + "{}"@ + seq![' '] + a,
{
    reveal_with_fuel(joined, 6);
    let ws = seq![r, "="@, "relu"@, "{}"@, a];
    assert(ws.drop_last() =~= seq![r, "="@, "relu"@, "{}"@]);
    assert(ws.drop_last().drop_last() =~= seq![r, "="@, "relu"@]);
    assert(ws.drop_last().drop_last().drop_last() =~= seq![r, "="@]);
    assert(ws.drop_last().drop_last().drop_last().drop_last() =~= seq![r]);
}

/// What the words of an equation make of a graph.
proof fn lemma_equation_words<S>(
    g: GraphV<S>,
    ws: Seq<Seq<char>>,
    c: Map<Seq<char>, TensorV<S>>,
    v: Seq<AtomV<S>>,
    prim: PrimV<S>,
    out: AtomV<S>,
)
    requires
        5 <= ws.len() <= 6,
        ws[1] == "="@,
        ws[3] == "{}"@,
        ws[0].len() > 0,
        ws[0][0] == 'h' || ws[0][0] == 'a' || ws[0][0] == 'r',
        v.len() == ws.len() - 4,
        forall|i: int|
            0 <= i < v.len() ==> atom_of(ws[i + 4], c) == Ok::<AtomV<S>, ReadError>(
                #[trigger] v[i],
            ),
        notation::plain_operation(ws[2], v) == Some(prim),
        atom_of(ws[0], c) == Ok::<AtomV<S>, ReadError>(out),
    ensures
        with_words(g, ws, c) == Ok::<GraphV<S>, ReadError>(
            GraphV {
                invars: g.invars,
                outvars: g.outvars,
                equations: g.equations.push(EqnV { prim, out }),
            },
        ),
{
    reveal_strlit("input:");
    reveal_strlit("output:");
    reveal_with_fuel(atoms_of, 4);
    assert(atom_of(ws[4], c) == Ok::<AtomV<S>, ReadError>(v[0]));
    if v.len() == 2 {
        assert(atom_of(ws[5], c) == Ok::<AtomV<S>, ReadError>(v[1]));
    }
    assert(atoms_of(ws, 4, ws.len(), c)->Ok_0 =~= v);
}

/// A variable with a numbered name starts with its letter.
proof fn lemma_starts(prefix: Seq<char>, i: nat, a: nat, b: nat)
    requires
        prefix.len() > 0,
    ensures
        cli::matrix_text(prefix, i, a, b).len() > 0,
        cli::matrix_text(prefix, i, a, b)[0] == prefix[0],
{
}

/// The text of one more layer adds its equations.
#[verifier::spinoff_prover]
#[verifier::rlimit(60)]
proof fn lemma_layer_read<S>(
    layers: Seq<LayerV<S>>,
    batch: usize,
    in_size: usize,
    k: nat,
    s: Seq<char>,
    c: Map<Seq<char>, TensorV<S>>,
    g: GraphV<S>,
)
    requires
        1 <= k <= layers.len(),
        saves(c, layers, in_size),
        graph_of_text(s, c) == Ok::<GraphV<S>, ReadError>(g),
        g.equations == saved_equations(layers, batch, in_size, (k - 1) as nat),
    ensures
        graph_of_text(s + cli::layer_text(layers, batch, in_size, k), c) == Ok::<
            GraphV<S>,
            ReadError,
        >(
            GraphV {
                invars: g.invars,
                outvars: g.outvars,
                equations: saved_equations(layers, batch, in_size, k),
            },
        ),
{
    let (m, n) = (cli::fan_in(layers, in_size, k - 1), cli::width(layers, k - 1));
    let h = cli::matrix_text("h"@, k, batch as nat, n);
    let a = cli::matrix_text("a"@, k, batch as nat, n);
    let r = cli::matrix_text("r"@, k, batch as nat, n);
    let w = cli::matrix_text("W"@, k, m, n);
    let b = cli::vector_text("B"@, k, n);
    let x = cli::end_text(layers, batch, in_size, (k - 1) as nat);
    lemma_layer_atoms(layers, batch, in_size, k, c);
    lemma_end_atom(layers, batch, in_size, (k - 1) as nat, c);
    lemma_letters(layers, batch, in_size, k);
    let (one, two, three) = (
        seq![h, "="@, "dot"@, "{}"@, x, w],
        seq![a, "="@, "add"@, "{}"@, h, b],
        seq![r, "="@, "relu"@, "{}"@, a],
    );
    lemma_signs::<S>();
    lemma_layer_lines(s, h, a, r, x, w, b);
    lemma_line_added(s, one, c, g);
    let va = seq![
        saved_end(layers, batch, in_size, (k - 1) as nat),
        saved_constant("W", k, seq![m as usize, n as usize], layers[k - 1].w.data),
    ];
    lemma_equation_words(
        g,
        one,
        c,
        va,
        PrimV::Bin(BinOpV::Dot, va[0], va[1]),
        saved_variable("h", k, batch, n as usize),
    );
    let g1 = with_words(g, one, c)->Ok_0;
    let s1 = s + "\n"@ + joined(one);
    lemma_line_added(s1, two, c, g1);
    let vb = seq![
        saved_variable::<S>("h", k, batch, n as usize),
        saved_constant("B", k, seq![n as usize], layers[k - 1].b.data),
    ];
    lemma_equation_words(
        g1,
        two,
        c,
        vb,
        PrimV::Bin(BinOpV::Add, vb[0], vb[1]),
        saved_variable("a", k, batch, n as usize),
    );
    let g2 = with_words(g1, two, c)->Ok_0;
    let s2 = s1 + "\n"@ + joined(two);
    if k < layers.len() {
        lemma_line_added(s2, three, c, g2);
        let vc = seq![saved_variable::<S>("a", k, batch, n as usize)];
        lemma_equation_words(
            g2,
            three,
            c,
            vc,
            PrimV::Un(UnOpV::Relu, vc[0]),
            saved_variable("r", k, batch, n as usize),
        );
    }
}

/// The variables of a layer hold no white space and start with their letters.
proof fn lemma_letters<S>(layers: Seq<LayerV<S>>, batch: usize, in_size: usize, k: nat)
    requires
        1 <= k <= layers.len(),
    ensures
        ({
            let (m, n) = (cli::fan_in(layers, in_size, k - 1), cli::width(layers, k - 1));
            let h = cli::matrix_text("h"@, k, batch as nat, n);
            let a = cli::matrix_text("a"@, k, batch as nat, n);
            let r = cli::matrix_text("r"@, k, batch as nat, n);
            let w = cli::matrix_text("W"@, k, m, n);
            let b = cli::vector_text("B"@, k, n);
            &&& unbroken(h) && h.len() > 0 && h[0] == 'h'
            &&& unbroken(a) && a.len() > 0 && a[0] == 'a'
            &&& unbroken(r) && r.len() > 0 && r[0] == 'r'
            &&& unbroken(w) && w.len() > 0
            &&& unbroken(b) && b.len() > 0
        }),
{
    let (m, n) = (cli::fan_in(layers, in_size, k - 1), cli::width(layers, k - 1));
    reveal_strlit("h");
    reveal_strlit("a");
    reveal_strlit("r");
    reveal_strlit("W");
    reveal_strlit("B");
    lemma_terms_unbroken("h"@, k, batch as nat, n);
    lemma_terms_unbroken("a"@, k, batch as nat, n);
    lemma_terms_unbroken("r"@, k, batch as nat, n);
    lemma_terms_unbroken("W"@, k, m, n);
    lemma_terms_unbroken("B"@, k, n, n);
    lemma_starts("h"@, k, batch as nat, n);
    lemma_starts("a"@, k, batch as nat, n);
    lemma_starts("r"@, k, batch as nat, n);
}

/// The words of equations that are not variables hold no white space.
proof fn lemma_signs<S>()
    ensures
        unbroken("="@) && "="@.len() > 0,
        unbroken("{}"@) && "{}"@.len() > 0,
        unbroken("dot"@) && "dot"@.len() > 0,
        unbroken("add"@) && "add"@.len() > 0,
        unbroken("relu"@) && "relu"@.len() > 0,
        notation::plain_binary("dot"@) == Some(BinOpV::Dot),
        notation::plain_binary("add"@) == Some(BinOpV::Add),
        notation::plain_unary::<S>("relu"@) == Some(UnOpV::<S>::Relu),
{
    reveal_strlit("neg");
    reveal_strlit("reciprocal");
    reveal_strlit("square");
    reveal_strlit("sqrt");
    reveal_strlit("exp");
    reveal_strlit("log");

    reveal_strlit("=");
    reveal_strlit("{}");
    reveal_strlit("dot");
    reveal_strlit("add");
    reveal_strlit("mul");
    reveal_strlit("relu");
    assert("dot"@[0] != "add"@[0]);
    assert("dot"@[0] != "mul"@[0]);
    assert("relu"@.len() == 4 && "relu"@[0] == 'r');
    assert("sqrt"@[0] == 's');
}

/// The lines of a layer.
#[verifier::spinoff_prover]
#[verifier::rlimit(60)]
proof fn lemma_layer_lines(
    s: Seq<char>,
    h: Seq<char>,
    a: Seq<char>,
    r: Seq<char>,
    x: Seq<char>,
    w: Seq<char>,
    b: Seq<char>,
)
    ensures
        ({
            let linear = "\n"@ + h + " = dot {} "@ + x + " "@ + w + "\n"@ + a + " = add {} "@ + h
                + " "@ + b;
            let s1 = s + "\n"@ + joined(seq![h, "="@, "dot"@, "{}"@, x, w]);
            let s2 = s1 + "\n"@ + joined(seq![a, "="@, "add"@, "{}"@, h, b]);
            &&& s + linear == s2
            &&& s + (linear + ("\n"@ + r + " = relu {} "@ + a)) == s2 + "\n"@ + joined(
                seq![r, "="@, "relu"@, "{}"@, a],
            )
        }),
{
    reveal_strlit("=");
    reveal_strlit("{}");
    reveal_strlit("dot");
    reveal_strlit("add");
    reveal_strlit("relu");
    reveal_strlit(" ");
    reveal_strlit(" = dot {} ");
    reveal_strlit(" = add {} ");
    reveal_strlit(" = relu {} ");
    let sp = seq![' '];
    assert(" "@ =~= sp);
    assert(" = dot {} "@ =~= sp + "="@ + sp + "dot"@ + sp + "{}"@ + sp);
    assert(" = add {} "@ =~= sp + "="@ + sp + "add"@ + sp + "{}"@ + sp);
    assert(" = relu {} "@ =~= sp + "="@ + sp + "relu"@ + sp + "{}"@ + sp);
    lemma_pair_words(h, "dot", x, w);
    lemma_pair_words(a, "add", h, b);
    lemma_relu_words(r, a);
    let one = joined(seq![h, "="@, "dot"@, "{}"@, x, w]);
    let two = joined(seq![a, "="@, "add"@, "{}"@, h, b]);
    let three = joined(seq![r, "="@, "relu"@, "{}"@, a]);
    assert(one =~= h + " = dot {} "@ + x + " "@ + w);
    assert(two =~= a + " = add {} "@ + h + " "@ + b);
    assert(three =~= r + " = relu {} "@ + a);
    let linear = "\n"@ + h + " = dot {} "@ + x + " "@ + w + "\n"@ + a + " = add {} "@ + h + " "@
        + b;
    assert(linear =~= "\n"@ + one + "\n"@ + two);
    assert(s + ("\n"@ + one + "\n"@ + two) =~= s + "\n"@ + one + "\n"@ + two);
    assert("\n"@ + r + " = relu {} "@ + a =~= "\n"@ + three);
    assert(s + (linear + ("\n"@ + three)) =~= (s + linear) + "\n"@ + three);
}

/// The first line is read as the input.
#[verifier::spinoff_prover]
#[verifier::rlimit(60)]
proof fn lemma_input_read<S>(
    layers: Seq<LayerV<S>>,
    batch: usize,
    in_size: usize,
    c: Map<Seq<char>, TensorV<S>>,
)
    requires
        saves(c, layers, in_size),
    ensures
        graph_of_text(cli::layers_text(layers, batch, in_size, 0), c) == Ok::<
            GraphV<S>,
            ReadError,
        >(
            GraphV {
                invars: seq![nn::variable("x"@, seq![batch, in_size])],
                outvars: Seq::empty(),
                equations: Seq::empty(),
            },
        ),
{
    reveal_strlit("input:");
    reveal_strlit("input: x");
    reveal_strlit("x");
    lemma_end_atom(layers, batch, in_size, 0, c);
    let x = cli::end_text(layers, batch, in_size, 0);
    let ws = seq!["input:"@, x];
    let s = cli::layers_text(layers, batch, in_size, 0);
    reveal_with_fuel(joined, 3);
    assert(ws.drop_last() =~= seq!["input:"@]);
    assert("input: x"@ =~= "input:"@ + seq![' '] + "x"@);
    assert(s =~= joined(ws));
    lemma_joined(ws);
    lemma_joined_line(ws);
    lemma_line_goes_on(Seq::empty(), s);
    assert(Seq::<char>::empty() + s =~= s);
    assert(lines_of(s) =~= seq![s]);
    reveal_with_fuel(atoms_of, 3);
    reveal_with_fuel(graph_of_lines, 2);
    let v = seq![nn::variable::<S>("x"@, seq![batch, in_size])];
    assert(atoms_of(ws, 1, 2, c)->Ok_0 =~= v);
    assert(Seq::<AtomV<S>>::empty() + v =~= v);
}

/// The text of the first `k` layers is read as their equations.
proof fn lemma_layers_read<S>(
    layers: Seq<LayerV<S>>,
    batch: usize,
    in_size: usize,
    k: nat,
    c: Map<Seq<char>, TensorV<S>>,
)
    requires
        k <= layers.len(),
        saves(c, layers, in_size),
    ensures
        graph_of_text(cli::layers_text(layers, batch, in_size, k), c) == Ok::<
            GraphV<S>,
            ReadError,
        >(
            GraphV {
                invars: seq![nn::variable("x"@, seq![batch, in_size])],
                outvars: Seq::empty(),
                equations: saved_equations(layers, batch, in_size, k),
            },
        ),
    decreases k,
{
    if k == 0 {
        lemma_input_read(layers, batch, in_size, c);
    } else {
        lemma_layers_read(layers, batch, in_size, (k - 1) as nat, c);
        let s = cli::layers_text(layers, batch, in_size, (k - 1) as nat);
        let g = graph_of_text(s, c)->Ok_0;
        lemma_layer_read(layers, batch, in_size, k, s, c, g);
    }
}

/// The text of a checkpoint is read as the network that was saved, with its parameters as
/// constants.
pub proof fn lemma_checkpoint_read<S>(
    layers: Seq<LayerV<S>>,
    batch: usize,
    in_size: usize,
    constants: Map<Seq<char>, TensorV<S>>,
)
    requires
        saves(constants, layers, in_size),
    ensures
        graph_of_text(cli::checkpoint_text(layers, batch, in_size), constants) == Ok::<
            GraphV<S>,
            ReadError,
        >(saved_graph(layers, batch, in_size)),
{
    let n = layers.len();
    let s = cli::layers_text(layers, batch, in_size, n);
    lemma_layers_read(layers, batch, in_size, n, constants);
    lemma_end_atom(layers, batch, in_size, n, constants);
    reveal_strlit("input:");
    reveal_strlit("output:");
    reveal_strlit("\noutput: ");
    reveal_strlit("\n");
    let y = cli::end_text(layers, batch, in_size, n);
    let ws = seq!["output:"@, y];
    reveal_with_fuel(joined, 3);
    assert(ws.drop_last() =~= seq!["output:"@]);
    assert("\noutput: "@ =~= "\n"@ + "output:"@ + seq![' ']);
    assert(cli::checkpoint_text(layers, batch, in_size) =~= s + "\n"@ + joined(ws));
    let g = graph_of_text(s, constants)->Ok_0;
    lemma_line_added(s, ws, constants, g);
    reveal_with_fuel(atoms_of, 3);
    let v = seq![saved_end(layers, batch, in_size, n)];
    assert(atoms_of(ws, 1, 2, constants)->Ok_0 =~= v);
    assert(Seq::<AtomV<S>>::empty() + v =~= v);
    assert("output:"@[0] != "input:"@[0]);
}

} // verus!
